//! Legendre's partial sieve function `phi(x, a)`: how many of `1..=x` have
//! no prime factor among the first `a` primes. Its recurrence and its link
//! to the prime count are what both counters compute with.

use vstd::prelude::*;
use vstd::arithmetic::div_mod::{lemma_fundamental_div_mod, lemma_fundamental_div_mod_converse};
use crate::primes::{
    is_prime, lemma_divides_transitive, lemma_euclid, lemma_least_prime_factor,
    lemma_multiple_divides, lemma_one_has_no_divisor, lemma_prime_count_injective,
    lemma_prime_count_monotone, lemma_prime_count_strict, lemma_prime_divides_prime, prime_count,
    lemma_divisor_le,
};

verus! {

/// `n` has a prime factor among the first `a` primes.
pub open spec fn has_small_prime_factor(n: nat, a: nat) -> bool {
    exists|q: nat| is_prime(q) && prime_count(q) <= a && #[trigger] (n % q) == 0
}

/// The number of `n` in `1..=x` with no prime factor among the first `a` primes.
pub open spec fn phi(x: nat, a: nat) -> nat
    decreases x,
{
    if x == 0 {
        0
    } else {
        phi((x - 1) as nat, a) + if has_small_prime_factor(x, a) {
            0nat
        } else {
            1nat
        }
    }
}

/// Every prime whose square is at most `y` is among the first `k` primes.
pub open spec fn small_primes_within(y: nat, k: nat) -> bool {
    forall|q: nat| #[trigger] is_prime(q) && q * q <= y ==> prime_count(q) <= k
}

/// Going from `a - 1` to `a` primes adds exactly the factor `p`, the `a`-th prime.
proof fn lemma_small_factor_step(n: nat, a: nat, p: nat)
    requires
        a >= 1,
        is_prime(p),
        prime_count(p) == a,
    ensures
        has_small_prime_factor(n, a) <==> (has_small_prime_factor(n, (a - 1) as nat) || n % p
            == 0),
{
    if has_small_prime_factor(n, a) {
        let q = choose|q: nat| is_prime(q) && prime_count(q) <= a && #[trigger] (n % q) == 0;
        if prime_count(q) == a {
            lemma_prime_count_injective(p, q);
        } else {
            assert(has_small_prime_factor(n, (a - 1) as nat));
        }
    }
    if n % p == 0 {
        assert(has_small_prime_factor(n, a));
    }
    if has_small_prime_factor(n, (a - 1) as nat) {
        let q = choose|q: nat|
            is_prime(q) && prime_count(q) <= (a - 1) as nat && #[trigger] (n % q) == 0;
        assert(has_small_prime_factor(n, a));
    }
}

/// Multiplying by the `a`-th prime adds no factor among the first `a - 1` primes.
proof fn lemma_small_factor_of_multiple(m: nat, a: nat, p: nat)
    requires
        a >= 1,
        m >= 1,
        is_prime(p),
        prime_count(p) == a,
    ensures
        has_small_prime_factor(m * p, (a - 1) as nat) <==> has_small_prime_factor(
            m,
            (a - 1) as nat,
        ),
{
    let k = (a - 1) as nat;
    let n = m * p;
    if has_small_prime_factor(n, k) {
        let q = choose|q: nat| is_prime(q) && prime_count(q) <= k && #[trigger] (n % q) == 0;
        lemma_euclid(m, p, q);
        if p % q == 0 {
            lemma_prime_divides_prime(q, p);
        }
        assert(m % q == 0);
    }
    if has_small_prime_factor(m, k) {
        let q = choose|q: nat| is_prime(q) && prime_count(q) <= k && #[trigger] (m % q) == 0;
        assert(n % m == 0) by {
            assert(n == p * m) by (nonlinear_arith)
                requires
                    n == m * p,
            ;
            lemma_multiple_divides(n, m, p);
        }
        lemma_divides_transitive(q, m, n);
        assert(n % q == 0);
    }
}

/// How the floor `x / p` moves from `x - 1` to `x`.
pub proof fn lemma_div_step(x: nat, p: nat)
    requires
        x >= 1,
        p >= 1,
    ensures
        x % p == 0 ==> x / p == (x - 1) as nat / p + 1,
        x % p != 0 ==> x / p == (x - 1) as nat / p,
        x / p >= 1 ==> x % p == 0 ==> x == (x / p) * p,
{
    let q = x / p;
    let r = x % p;
    lemma_fundamental_div_mod(x as int, p as int);
    if r == 0 {
        assert(q >= 1) by (nonlinear_arith)
            requires
                x == p * q,
                x >= 1,
        ;
        assert((x - 1) as int == (q - 1) as int * p + (p - 1)) by (nonlinear_arith)
            requires
                x == p * q,
        ;
        lemma_fundamental_div_mod_converse((x - 1) as int, p as int, (q - 1) as int, (p - 1) as int);
        assert(x == q * p) by (nonlinear_arith)
            requires
                x == p * q,
        ;
    } else {
        assert((x - 1) as int == q * p + (r - 1)) by (nonlinear_arith)
            requires
                x == p * q + r,
        ;
        lemma_fundamental_div_mod_converse((x - 1) as int, p as int, q as int, (r - 1) as int);
    }
}

/// Legendre's recurrence: if `p` is the `a`-th prime,
/// `phi(x, a) + phi(x / p, a - 1) == phi(x, a - 1)`.
pub proof fn lemma_phi_recurrence(x: nat, a: nat, p: nat)
    requires
        a >= 1,
        is_prime(p),
        prime_count(p) == a,
    ensures
        phi(x, a) + phi(x / p, (a - 1) as nat) == phi(x, (a - 1) as nat),
    decreases x,
{
    let k = (a - 1) as nat;
    if x == 0 {
        assert(0nat / p == 0);
    } else {
        let x1 = (x - 1) as nat;
        lemma_phi_recurrence(x1, a, p);
        lemma_small_factor_step(x, a, p);
        lemma_div_step(x, p);
        if x % p == 0 {
            let m = x / p;
            assert(m >= 1);
            lemma_small_factor_of_multiple(m, a, p);
            assert(phi(m, k) == phi((m - 1) as nat, k) + if has_small_prime_factor(m, k) {
                0nat
            } else {
                1nat
            });
        }
    }
}

/// `phi(x, a)` is at most `x`.
pub proof fn lemma_phi_le(x: nat, a: nat)
    ensures
        phi(x, a) <= x,
    decreases x,
{
    if x > 0 {
        lemma_phi_le((x - 1) as nat, a);
    }
}

/// `phi` is monotone in `x`.
pub proof fn lemma_phi_monotone(y: nat, x: nat, a: nat)
    requires
        y <= x,
    ensures
        phi(y, a) <= phi(x, a),
    decreases x,
{
    if y < x {
        lemma_phi_monotone(y, (x - 1) as nat, a);
    }
}

/// Sieving by more primes leaves fewer numbers.
pub proof fn lemma_phi_antitone(x: nat, b: nat, a: nat)
    requires
        b <= a,
    ensures
        phi(x, a) <= phi(x, b),
    decreases x,
{
    if x > 0 {
        lemma_phi_antitone((x - 1) as nat, b, a);
        if has_small_prime_factor(x, b) {
            let q = choose|q: nat| is_prime(q) && prime_count(q) <= b && #[trigger] (x % q) == 0;
            assert(has_small_prime_factor(x, a));
        }
    }
}

/// One survives every sieve, so `phi(x, a) >= 1` once `x >= 1`.
pub proof fn lemma_phi_positive(x: nat, a: nat)
    requires
        x >= 1,
    ensures
        phi(x, a) >= 1,
{
    lemma_phi_monotone(1, x, a);
    assert(!has_small_prime_factor(1, a)) by {
        if has_small_prime_factor(1, a) {
            let q = choose|q: nat| is_prime(q) && prime_count(q) <= a && #[trigger] (1nat % q) == 0;
            lemma_one_has_no_divisor(q);
        }
    }
    assert(phi(0, a) == 0);
}

/// A prime is sieved out by the first `k` primes exactly when it is one of them.
proof fn lemma_prime_small_factor(p: nat, k: nat)
    requires
        is_prime(p),
    ensures
        has_small_prime_factor(p, k) <==> prime_count(p) <= k,
{
    if has_small_prime_factor(p, k) {
        let q = choose|q: nat| is_prime(q) && prime_count(q) <= k && #[trigger] (p % q) == 0;
        lemma_prime_divides_prime(q, p);
    }
    if prime_count(p) <= k {
        assert(p % p == 0) by {
            lemma_multiple_divides(p, p, 1);
        }
        assert(has_small_prime_factor(p, k));
    }
}

/// Counting survivors up to `n <= y`: `1` and the primes beyond the first
/// `k` always survive; when every prime with square at most `y` is among
/// the first `k`, nothing else does.
proof fn lemma_phi_count(n: nat, k: nat, y: nat)
    requires
        1 <= n <= y,
    ensures
        phi(n, k) + if prime_count(n) <= k {
            prime_count(n)
        } else {
            k
        } >= prime_count(n) + 1,
        small_primes_within(y, k) ==> phi(n, k) + if prime_count(n) <= k {
            prime_count(n)
        } else {
            k
        } == prime_count(n) + 1,
    decreases n,
{
    if n == 1 {
        lemma_phi_positive(1, k);
        lemma_phi_le(1, k);
        assert(prime_count(0) == 0);
        assert(!is_prime(1));
        assert(prime_count(1) == 0);
    } else {
        let m = (n - 1) as nat;
        lemma_phi_count(m, k, y);
        if is_prime(n) {
            lemma_prime_small_factor(n, k);
        } else {
            if small_primes_within(y, k) {
                let q = lemma_least_prime_factor(n);
                assert(q * q <= y);
                assert(prime_count(q) <= k);
                assert(has_small_prime_factor(n, k));
            }
        }
    }
}

/// Legendre's bound: for `1 <= y` and `k <= prime_count(y)`,
/// `phi(y, k) + k >= prime_count(y) + 1`.
pub proof fn lemma_phi_lower_bound(y: nat, k: nat)
    requires
        y >= 1,
        k <= prime_count(y),
    ensures
        phi(y, k) + k >= prime_count(y) + 1,
{
    lemma_phi_count(y, k, y);
}

/// Legendre's formula: if every prime whose square is at most `y` is among
/// the first `k` primes, and `1 <= y`, `k <= prime_count(y)`, then
/// `phi(y, k) + k == prime_count(y) + 1`.
pub proof fn lemma_legendre(y: nat, k: nat)
    requires
        y >= 1,
        k <= prime_count(y),
        small_primes_within(y, k),
    ensures
        phi(y, k) + k == prime_count(y) + 1,
{
    lemma_phi_count(y, k, y);
}

/// Sieving by no primes leaves every number: `phi(n, 0) == n`.
pub proof fn lemma_phi_identity(n: nat)
    ensures
        phi(n, 0) == n,
    decreases n,
{
    if n > 0 {
        lemma_phi_identity((n - 1) as nat);
        if has_small_prime_factor(n, 0) {
            let q = choose|q: nat| is_prime(q) && prime_count(q) <= 0 && #[trigger] (n % q) == 0;
            assert(prime_count(q) >= 1) by {
                lemma_prime_count_strict((q - 1) as nat, q);
            }
        }
    }
}

/// Once every prime up to `x` is among the first `k`, sieving by more
/// primes changes nothing: `phi(x, j) == phi(x, k)` for `prime_count(x) <= k <= j`.
pub proof fn lemma_phi_saturated(x: nat, k: nat, j: nat)
    requires
        prime_count(x) <= k <= j,
    ensures
        phi(x, j) == phi(x, k),
    decreases x,
{
    if x > 0 {
        let x1 = (x - 1) as nat;
        lemma_prime_count_monotone(x1, x);
        lemma_phi_saturated(x1, k, j);
        if has_small_prime_factor(x, j) {
            let q = choose|q: nat| is_prime(q) && prime_count(q) <= j && #[trigger] (x % q) == 0;
            lemma_divisor_le(x, q);
            lemma_prime_count_monotone(q, x);
            assert(has_small_prime_factor(x, k));
        }
        if has_small_prime_factor(x, k) {
            let q = choose|q: nat| is_prime(q) && prime_count(q) <= k && #[trigger] (x % q) == 0;
            assert(has_small_prime_factor(x, j));
        }
    }
}

} // verus!
