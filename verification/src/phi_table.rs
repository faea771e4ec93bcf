//! A precomputed table of `phi(n, a)` for the first six primes, which makes
//! `phi(x, a)` for `a <= 6` a lookup for every `x` through periodicity.

use vstd::prelude::*;
use vstd::arithmetic::div_mod::{lemma_fundamental_div_mod, lemma_mod_multiples_vanish};
use crate::phi::{has_small_prime_factor, lemma_phi_identity, lemma_phi_le, lemma_phi_recurrence, phi};
use crate::primes::{
    is_prime, kth_prime, lemma_divides_product, lemma_is_kth_prime, lemma_prime_le_iff_count_le,
    prime_count,
};

verus! {

/// The product of the first six primes, `2 * 3 * 5 * 7 * 11 * 13`.
pub open spec fn wheel() -> nat {
    30030
}

/// `13` is prime, as are the five primes below it, and they are the first six.
pub proof fn lemma_first_six_primes()
    ensures
        is_prime(2) && prime_count(2) == 1,
        is_prime(3) && prime_count(3) == 2,
        is_prime(5) && prime_count(5) == 3,
        is_prime(7) && prime_count(7) == 4,
        is_prime(11) && prime_count(11) == 5,
        is_prime(13) && prime_count(13) == 6,
        prime_count(16) == 6,
{
    assert forall|d: nat| 2 <= d < 2 implies #[trigger] (2nat % d) != 0 by {}
    assert forall|d: nat| 2 <= d < 3 implies #[trigger] (3nat % d) != 0 by {
        assert(d == 2);
    }
    assert forall|d: nat| 2 <= d < 5 implies #[trigger] (5nat % d) != 0 by {
        assert(d == 2 || d == 3 || d == 4);
    }
    assert forall|d: nat| 2 <= d < 7 implies #[trigger] (7nat % d) != 0 by {
        assert(d == 2 || d == 3 || d == 4 || d == 5 || d == 6);
    }
    assert forall|d: nat| 2 <= d < 11 implies #[trigger] (11nat % d) != 0 by {
        assert(d == 2 || d == 3 || d == 4 || d == 5 || d == 6 || d == 7 || d == 8 || d == 9 || d
            == 10);
    }
    assert forall|d: nat| 2 <= d < 13 implies #[trigger] (13nat % d) != 0 by {
        assert(d == 2 || d == 3 || d == 4 || d == 5 || d == 6 || d == 7 || d == 8 || d == 9 || d
            == 10 || d == 11 || d == 12);
    }
    assert(!is_prime(0) && !is_prime(1));
    assert(4nat % 2 == 0 && !is_prime(4));
    assert(6nat % 2 == 0 && !is_prime(6));
    assert(8nat % 2 == 0 && !is_prime(8));
    assert(9nat % 3 == 0 && !is_prime(9));
    assert(10nat % 2 == 0 && !is_prime(10));
    assert(12nat % 2 == 0 && !is_prime(12));
    assert(14nat % 2 == 0 && !is_prime(14));
    assert(15nat % 3 == 0 && !is_prime(15));
    assert(16nat % 2 == 0 && !is_prime(16));
    reveal_with_fuel(prime_count, 17);
}

/// The primes among the first six divide the wheel.
proof fn lemma_small_prime_divides_wheel(q: nat)
    requires
        is_prime(q),
        prime_count(q) <= 6,
    ensures
        wheel() % q == 0,
{
    lemma_first_six_primes();
    lemma_prime_le_iff_count_le(q, 16);
    assert(q <= 16);
    if q != 2 && q != 3 && q != 5 && q != 7 && q != 11 && q != 13 {
        assert(q == 4 || q == 6 || q == 8 || q == 9 || q == 10 || q == 12 || q == 14 || q == 15
            || q == 16);
        if q == 9 || q == 15 {
            assert(q % 3 == 0);
        } else {
            assert(q % 2 == 0);
        }
    }
    assert(q == 2 || q == 3 || q == 5 || q == 7 || q == 11 || q == 13);
}

/// Shifting by the wheel changes no factor among the first six primes.
proof fn lemma_small_factor_periodic(n: nat, a: nat)
    requires
        a <= 6,
    ensures
        has_small_prime_factor(n + wheel(), a) <==> has_small_prime_factor(n, a),
{
    assert forall|q: nat| is_prime(q) && prime_count(q) <= a implies #[trigger] ((n + wheel()) % q)
        == n % q by {
        lemma_small_prime_divides_wheel(q);
        lemma_divides_product(wheel(), q);
        let k = wheel() / q;
        lemma_mod_multiples_vanish(k as int, n as int, q as int);
        assert(q * k + n == n + wheel()) by (nonlinear_arith)
            requires
                wheel() == k * q,
        ;
    }
    if has_small_prime_factor(n + wheel(), a) {
        let q = choose|q: nat|
            is_prime(q) && prime_count(q) <= a && #[trigger] ((n + wheel()) % q) == 0;
        assert(n % q == 0);
    }
    if has_small_prime_factor(n, a) {
        let q = choose|q: nat| is_prime(q) && prime_count(q) <= a && #[trigger] (n % q) == 0;
        assert((n + wheel()) % q == 0);
    }
}

/// `phi(y + wheel(), a) == phi(y, a) + phi(wheel(), a)` for `a <= 6`.
proof fn lemma_phi_shift(y: nat, a: nat)
    requires
        a <= 6,
    ensures
        phi(y + wheel(), a) == phi(y, a) + phi(wheel(), a),
    decreases y,
{
    if y > 0 {
        lemma_phi_shift((y - 1) as nat, a);
        lemma_small_factor_periodic(y, a);
        assert(phi(y + wheel(), a) == phi((y - 1 + wheel()) as nat, a) + if has_small_prime_factor(
            y + wheel(),
            a,
        ) {
            0nat
        } else {
            1nat
        });
    }
}

/// `phi(k * wheel() + r, a) == k * phi(wheel(), a) + phi(r, a)` for `a <= 6`.
pub proof fn lemma_phi_periodic(k: nat, r: nat, a: nat)
    requires
        a <= 6,
    ensures
        phi(k * wheel() + r, a) == k * phi(wheel(), a) + phi(r, a),
    decreases k,
{
    if k > 0 {
        let k1 = (k - 1) as nat;
        lemma_phi_periodic(k1, r, a);
        let y = k1 * wheel() + r;
        lemma_phi_shift(y, a);
        assert(y + wheel() == k * wheel() + r) by (nonlinear_arith)
            requires
                k1 == k - 1,
                y == k1 * wheel() + r,
        ;
        assert(phi(k * wheel() + r, a) == phi(y, a) + phi(wheel(), a));
        assert(k1 * phi(wheel(), a) + phi(wheel(), a) == k * phi(wheel(), a)) by (nonlinear_arith)
            requires
                k1 == k - 1,
        ;
    }
}

/// The `i`-th of the first six primes (`i < 6`).
pub fn wheel_prime(i: usize) -> (p: usize)
    requires
        i < 6,
    ensures
        p == kth_prime(i as nat),
        is_prime(p as nat),
        prime_count(p as nat) == i + 1,
{
    proof {
        lemma_first_six_primes();
    }
    let p: usize = match i {
        0 => 2,
        1 => 3,
        2 => 5,
        3 => 7,
        4 => 11,
        _ => 13,
    };
    proof {
        lemma_is_kth_prime(p as nat, i as nat);
    }
    p
}

/// `values[a][n] == phi(n, a)` for `a <= depth == 6` and `n <= modulus == 30030`.
pub struct PhiTable {
    pub depth: usize,
    pub modulus: u64,
    pub values: Vec<Vec<u64>>,
}

impl PhiTable {
    /// The table holds `phi(n, a)` for every `a <= 6` and `n <= 30030`.
    pub open spec fn wf(&self) -> bool {
        &&& self.depth == 6
        &&& self.modulus == wheel()
        &&& self.values.len() == 7
        &&& forall|a: int| 0 <= a <= 6 ==> #[trigger] self.values@[a].len() == wheel() + 1
        &&& forall|a: int, n: int|
            0 <= a <= 6 && 0 <= n <= wheel() ==> #[trigger] self.values@[a]@[n] == phi(
                n as nat,
                a as nat,
            )
    }

    /// Builds the table by Legendre's recurrence, one prime at a time.
    pub fn new() -> (table: Self)
        ensures
            table.wf(),
    {
        let depth: usize = 6;
        let modulus: usize = 30030;
        let mut values: Vec<Vec<u64>> = Vec::new();
        let mut first: Vec<u64> = Vec::new();
        let mut n: usize = 0;
        while n <= modulus
            invariant
                modulus == wheel(),
                n <= modulus + 1,
                first.len() == n,
                forall|m: int| 0 <= m < n ==> #[trigger] first@[m] == phi(m as nat, 0),
            decreases modulus + 1 - n,
        {
            proof {
                lemma_phi_identity(n as nat);
            }
            first.push(n as u64);
            n += 1;
        }
        values.push(first);
        let mut a: usize = 1;
        while a <= depth
            invariant
                depth == 6,
                modulus == wheel(),
                1 <= a <= depth + 1,
                values.len() == a,
                forall|b: int| 0 <= b < a ==> #[trigger] values@[b].len() == wheel() + 1,
                forall|b: int, m: int|
                    0 <= b < a && 0 <= m <= wheel() ==> #[trigger] values@[b]@[m] == phi(
                        m as nat,
                        b as nat,
                    ),
            decreases depth + 1 - a,
        {
            let p = wheel_prime(a - 1);
            let mut row: Vec<u64> = Vec::new();
            let mut n: usize = 0;
            while n <= modulus
                invariant
                    depth == 6,
                    modulus == wheel(),
                    1 <= a <= depth,
                    values.len() == a,
                    forall|b: int| 0 <= b < a ==> #[trigger] values@[b].len() == wheel() + 1,
                    forall|b: int, m: int|
                        0 <= b < a && 0 <= m <= wheel() ==> #[trigger] values@[b]@[m] == phi(
                            m as nat,
                            b as nat,
                        ),
                    is_prime(p as nat),
                    prime_count(p as nat) == a,
                    n <= modulus + 1,
                    row.len() == n,
                    forall|m: int| 0 <= m < n ==> #[trigger] row@[m] == phi(m as nat, a as nat),
                decreases modulus + 1 - n,
            {
                proof {
                    lemma_phi_recurrence(n as nat, a as nat, p as nat);
                    assert(n / p <= n);
                }
                let previous = &values[a - 1];
                assert(values@[a - 1].len() == wheel() + 1);
                assert(previous@[n as int] == phi(n as nat, (a - 1) as nat));
                assert(previous@[(n / p) as int] == phi((n / p) as nat, (a - 1) as nat));
                let value = previous[n] - previous[n / p];
                row.push(value);
                n += 1;
            }
            values.push(row);
            a += 1;
        }
        PhiTable { depth, modulus: modulus as u64, values }
    }

    /// `phi(x, a)` for `a <= depth`, through `phi(q * m + r, a) == q * phi(m, a) + phi(r, a)`.
    pub fn get(&self, x: u64, a: usize) -> (count: u64)
        requires
            self.wf(),
            a <= self.depth,
        ensures
            count == phi(x as nat, a as nat),
    {
        let blocks = x / self.modulus;
        let remainder = (x % self.modulus) as usize;
        proof {
            lemma_fundamental_div_mod(x as int, wheel() as int);
            assert(x == blocks * wheel() + remainder) by (nonlinear_arith)
                requires
                    x == wheel() * blocks + remainder,
            ;
            lemma_phi_periodic(blocks as nat, remainder as nat, a as nat);
            lemma_phi_le(x as nat, a as nat);
        }
        let row = &self.values[a];
        assert(self.values@[a as int].len() == wheel() + 1);
        assert(row@[wheel() as int] == phi(wheel(), a as nat));
        assert(row@[remainder as int] == phi(remainder as nat, a as nat));
        proof {
            assert(blocks * phi(wheel(), a as nat) <= x);
        }
        blocks * row[self.modulus as usize] + row[remainder]
    }
}

} // verus!
