//! The identity behind the Meissel-Lehmer counter. With `a = pi(x^(1/4))`,
//! `b = pi(x^(1/2))`, `c = pi(x^(1/3))` and `p_i` the `i`-th prime,
//! sieving `x` from `a` to `b` primes by Legendre's recurrence removes, at
//! each prime, a count that the prime count of `x / p_i` (and, for
//! `i <= c`, of `x / (p_i p_j)`) gives exactly.

use vstd::prelude::*;
use vstd::arithmetic::div_mod::{lemma_div_by_multiple, lemma_div_is_ordered, lemma_fundamental_div_mod};
use crate::phi::{
    lemma_legendre, lemma_phi_lower_bound, lemma_phi_recurrence, phi,
};
use crate::primes::{is_prime, kth_prime, lemma_kth_prime, lemma_prime_le_iff_count_le, prime_count};
use crate::roots::{int_sqrt, is_int_root, lemma_int_root, lemma_power_monotone_base, power};

verus! {

/// `r2`, `r3`, `r4` are the integer square, cube and fourth roots of `x`.
pub open spec fn lehmer_roots(x: nat, r2: nat, r3: nat, r4: nat) -> bool {
    &&& is_int_root(x, 2, r2)
    &&& is_int_root(x, 3, r3)
    &&& is_int_root(x, 4, r4)
}

/// Small powers as products.
pub proof fn lemma_small_powers(n: nat)
    ensures
        power(n, 2) == n * n,
        power(n, 3) == n * n * n,
        power(n, 4) == n * n * n * n,
{
    assert(power(n, 0) == 1);
    assert(power(n, 1) == n * 1);
    assert(n * 1 == n);
    assert(power(n, 2) == n * power(n, 1));
    assert(power(n, 3) == n * power(n, 2));
    assert(power(n, 4) == n * power(n, 3));
    assert(n * (n * n) == n * n * n) by (nonlinear_arith);
    assert(n * (n * n * n) == n * n * n * n) by (nonlinear_arith);
}

/// `v <= x / d` exactly when `v * d <= x`.
pub proof fn lemma_le_div_iff(x: nat, d: nat, v: nat)
    requires
        d > 0,
    ensures
        v <= x / d <==> v * d <= x,
{
    lemma_fundamental_div_mod(x as int, d as int);
    let q = x / d;
    if v <= q {
        assert(v * d <= q * d) by (nonlinear_arith)
            requires
                v <= q,
        ;
        assert(q * d <= x) by (nonlinear_arith)
            requires
                x == d * q + x % d,
                x % d >= 0,
        ;
    }
    if v * d <= x {
        lemma_div_is_ordered((v * d) as int, x as int, d as int);
        lemma_div_by_multiple(v as int, d as int);
    }
}

/// The integer square root is monotone.
pub proof fn lemma_int_sqrt_monotone(y: nat, x: nat)
    requires
        y <= x,
    ensures
        int_sqrt(y) <= int_sqrt(x),
{
    lemma_int_root(y, 2);
    lemma_int_root(x, 2);
    let s = int_sqrt(y);
    let r = int_sqrt(x);
    if s > r {
        lemma_power_monotone_base(r + 1, s, 2);
    }
}

/// The roots of `x >= 1` are ordered: `r4 <= r3 <= r2 <= x`.
pub proof fn lemma_roots_ordered(x: nat, r2: nat, r3: nat, r4: nat)
    requires
        lehmer_roots(x, r2, r3, r4),
        x >= 1,
    ensures
        r4 <= r3 <= r2 <= x,
        r2 * r2 <= x,
{
    lemma_small_powers(r2);
    lemma_small_powers(r3);
    lemma_small_powers(r4);
    lemma_small_powers(r2 + 1);
    lemma_small_powers(r3 + 1);
    lemma_small_powers(r4 + 1);
    if r4 > r3 {
        assert(r4 * r4 * r4 <= r4 * r4 * r4 * r4) by (nonlinear_arith)
            requires
                r4 >= 1,
        ;
        lemma_power_monotone_base(r3 + 1, r4, 3);
    }
    if r3 > r2 {
        assert(r3 * r3 <= r3 * r3 * r3) by (nonlinear_arith)
            requires
                r3 >= 1,
        ;
        lemma_power_monotone_base(r2 + 1, r3, 2);
    }
    if r2 > x {
        assert(r2 <= r2 * r2) by (nonlinear_arith)
            requires
                r2 >= 1,
        ;
    }
}

/// A prime `p` and a root `r` of `x`: `p <= r` exactly when fewer than
/// `prime_count(r)` primes come before `p`.
proof fn lemma_prime_vs_root(p: nat, i: nat, r: nat)
    requires
        is_prime(p),
        prime_count(p) == i + 1,
    ensures
        p <= r <==> i < prime_count(r),
{
    lemma_prime_le_iff_count_le(p, r);
}

/// Where the `i`-th prime stands for `a <= i < b`: its square is at most
/// `x`, its fourth power exceeds `x`, and its cube is at most `x` exactly
/// when `i < c`.
pub proof fn lemma_outer_prime(x: nat, r2: nat, r3: nat, r4: nat, i: nat)
    requires
        lehmer_roots(x, r2, r3, r4),
        prime_count(r4) <= i < prime_count(r2),
    ensures
        is_prime(kth_prime(i)),
        prime_count(kth_prime(i)) == i + 1,
        kth_prime(i) >= 2,
        kth_prime(i) * kth_prime(i) <= x,
        kth_prime(i) * kth_prime(i) * kth_prime(i) * kth_prime(i) > x,
        (i < prime_count(r3)) == (kth_prime(i) * kth_prime(i) * kth_prime(i) <= x),
{
    lemma_kth_prime(i, r2);
    let p = kth_prime(i);
    lemma_small_powers(p);
    lemma_small_powers(r2);
    lemma_small_powers(r3 + 1);
    lemma_small_powers(r4 + 1);
    lemma_prime_vs_root(p, i, r2);
    lemma_prime_vs_root(p, i, r3);
    lemma_prime_vs_root(p, i, r4);
    lemma_power_monotone_base(p, r2, 2);
    lemma_power_monotone_base(r4 + 1, p, 4);
    if i < prime_count(r3) {
        lemma_power_monotone_base(p, r3, 3);
    } else {
        lemma_power_monotone_base(r3 + 1, p, 3);
    }
}

/// For `a <= i < b` and `y = x / p_i`: one step of Legendre's recurrence
/// from `phi(x, i)`, a lower bound on `phi(y, i)`, its exact value when
/// `i >= c`, and when `i < c` its value after sieving `y` up to its square root.
pub proof fn lemma_outer_step(x: nat, r2: nat, r3: nat, r4: nat, i: nat)
    requires
        lehmer_roots(x, r2, r3, r4),
        prime_count(r4) <= i < prime_count(r2),
    ensures
        ({
            let p = kth_prime(i);
            let y = x / p;
            let l = prime_count(int_sqrt(y));
            &&& y >= 1
            &&& y <= x
            &&& i + 1 <= prime_count(y)
            &&& phi(x, i + 1) + phi(y, i) == phi(x, i)
            &&& phi(y, i) + i >= prime_count(y) + 1
            &&& i >= prime_count(r3) ==> phi(y, i) + i == prime_count(y) + 1
            &&& i < prime_count(r3) ==> {
                &&& i + 1 <= l <= prime_count(y)
                &&& phi(y, l) + l == prime_count(y) + 1
            }
        }),
{
    lemma_outer_prime(x, r2, r3, r4, i);
    let p = kth_prime(i);
    let y = x / p;
    lemma_phi_recurrence(x, i + 1, p);
    lemma_le_div_iff(x, p, p);
    assert(p <= y);
    assert(y <= x) by {
        lemma_le_div_iff(x, p, y);
        assert(y <= y * p) by (nonlinear_arith)
            requires
                p >= 1,
        ;
    }
    lemma_prime_le_iff_count_le(p, y);
    lemma_phi_lower_bound(y, i);
    if i >= prime_count(r3) {
        assert forall|q: nat| #[trigger] is_prime(q) && q * q <= y implies prime_count(q) <= i by {
            lemma_le_div_iff(x, p, q * q);
            if prime_count(q) > i {
                lemma_prime_le_iff_count_le(p, q);
                assert(q * q * p >= p * p * p) by (nonlinear_arith)
                    requires
                        q >= p,
                ;
            }
        }
        lemma_legendre(y, i);
    } else {
        let s = int_sqrt(y);
        lemma_int_root(y, 2);
        lemma_small_powers(s);
        lemma_small_powers(s + 1);
        assert(p * p * p == (p * p) * p) by (nonlinear_arith);
        lemma_le_div_iff(x, p, p * p);
        if p > s {
            assert(p * p >= (s + 1) * (s + 1)) by (nonlinear_arith)
                requires
                    p >= s + 1,
            ;
        }
        lemma_prime_le_iff_count_le(p, s);
        let l = prime_count(s);
        assert(s <= y) by (nonlinear_arith)
            requires
                s * s <= y,
        ;
        crate::primes::lemma_prime_count_monotone(s, y);
        assert forall|q: nat| #[trigger] is_prime(q) && q * q <= y implies prime_count(q) <= l by {
            if q > s {
                assert(q * q >= (s + 1) * (s + 1)) by (nonlinear_arith)
                    requires
                        q >= s + 1,
                ;
            }
            lemma_prime_le_iff_count_le(q, s);
        }
        lemma_legendre(y, l);
    }
}

/// For `a <= i < c`, `y = x / p_i`, `l = pi(sqrt(y))` and `i <= j < l`,
/// with `z = y / p_j`: one step of Legendre's recurrence from `phi(y, j)`,
/// the exact value of `phi(z, j)`, and a lower bound on `phi(y, j + 1)`.
pub proof fn lemma_inner_step(x: nat, r2: nat, r3: nat, r4: nat, i: nat, j: nat)
    requires
        lehmer_roots(x, r2, r3, r4),
        prime_count(r4) <= i < prime_count(r3),
        i <= j < prime_count(int_sqrt(x / kth_prime(i))),
    ensures
        ({
            let y = x / kth_prime(i);
            let q = kth_prime(j);
            let z = y / q;
            &&& is_prime(q)
            &&& prime_count(q) == j + 1
            &&& q >= 2
            &&& z <= y
            &&& prime_count(z) >= j + 1
            &&& phi(y, j + 1) + phi(z, j) == phi(y, j)
            &&& phi(z, j) + j == prime_count(z) + 1
            &&& phi(y, j + 1) + j + 1 >= prime_count(y) + 1
        }),
{
    if x == 0 {
        lemma_small_powers(r3);
        assert(r3 == 0) by (nonlinear_arith)
            requires
                r3 * r3 * r3 <= 0,
        ;
        assert(prime_count(0) == 0);
    }
    lemma_roots_ordered(x, r2, r3, r4);
    crate::primes::lemma_prime_count_monotone(r3, r2);
    lemma_outer_step(x, r2, r3, r4, i);
    lemma_outer_prime(x, r2, r3, r4, i);
    let p = kth_prime(i);
    let y = x / p;
    let s = int_sqrt(y);
    let l = prime_count(s);
    lemma_int_root(y, 2);
    lemma_small_powers(s);
    lemma_kth_prime(j, s);
    let q = kth_prime(j);
    lemma_prime_le_iff_count_le(p, q);
    assert(q * q <= y) by (nonlinear_arith)
        requires
            q <= s,
            s * s <= y,
    ;
    lemma_le_div_iff(y, q, q);
    let z = y / q;
    assert(z <= y) by {
        lemma_le_div_iff(y, q, z);
        assert(z <= z * q) by (nonlinear_arith)
            requires
                q >= 1,
        ;
    }
    lemma_prime_le_iff_count_le(q, z);
    lemma_phi_recurrence(y, j + 1, q);
    assert forall|t: nat| #[trigger] is_prime(t) && t * t <= z implies prime_count(t) <= j by {
        if prime_count(t) > j {
            lemma_prime_le_iff_count_le(q, t);
            lemma_le_div_iff(y, q, t * t);
            lemma_le_div_iff(x, p, t * t * q);
            assert(t * t * q * p >= p * p * p * p) by (nonlinear_arith)
                requires
                    t >= q,
                    q >= p,
            ;
        }
    }
    lemma_legendre(z, j);
    lemma_phi_lower_bound(y, j + 1);
}

/// The closing arithmetic: with `2 * t == (b + a - 2) * (b - a + 1)`,
/// `2 * t - (b - a) * (a + b - 3) == 2 * (b - 1)`.
pub proof fn lemma_offset_closing(a: int, b: int, t: int)
    requires
        2 * t == (b + a - 2) * (b - a + 1),
    ensures
        2 * t - (b - a) * (a + b - 3) == 2 * (b - 1),
{
    assert((b + a - 2) * (b - a + 1) - (b - a) * (a + b - 3) == 2 * (b - 1)) by (nonlinear_arith);
}

/// One step of the running offset: `(i + 1 - a) * (a + i - 2) == (i - a) * (a + i - 3) + 2 * (i - 1)`.
pub proof fn lemma_offset_step(a: int, i: int)
    ensures
        (i + 1 - a) * (a + i - 2) == (i - a) * (a + i - 3) + 2 * (i - 1),
{
    assert((i + 1 - a) * (a + i - 2) == (i - a) * (a + i - 3) + 2 * (i - 1)) by (nonlinear_arith);
}

/// The running offset never passes its final value once past zero:
/// `(m - a) * (a + m - 3) <= (b - a) * (a + b - 3)` for `1 <= m <= b`.
pub proof fn lemma_offset_bounded(a: int, m: int, b: int)
    requires
        1 <= m <= b,
    ensures
        (m - a) * (a + m - 3) <= (b - a) * (a + b - 3),
{
    assert((b - a) * (a + b - 3) - (m - a) * (a + m - 3) == (b - m) * (b + m - 3)) by (nonlinear_arith);
    if m < b {
        assert((b - m) * (b + m - 3) >= 0) by (nonlinear_arith)
            requires
                m < b,
                m >= 1,
        ;
    }
}

/// The first term's product is even and small: for `u + v == 2 * b - 1`,
/// `u * v` is even and at most `b * b - b`.
pub proof fn lemma_triangle_product(u: nat, v: nat, b: nat)
    requires
        u + v == 2 * b - 1,
        b >= 1,
    ensures
        (u * v) % 2 == 0,
        u * v <= b * b - b,
{
    if u % 2 == 0 {
        let h = u / 2;
        assert(u * v == 2 * (h * v)) by (nonlinear_arith)
            requires
                u == 2 * h,
        ;
    } else {
        assert(v % 2 == 0);
        let h = v / 2;
        assert(u * v == 2 * (u * h)) by (nonlinear_arith)
            requires
                v == 2 * h,
        ;
    }
    assert(4 * (u * v) <= (u + v) * (u + v)) by (nonlinear_arith);
    assert((u + v) * (u + v) == 4 * (b * b - b) + 1) by (nonlinear_arith)
        requires
            u + v == 2 * b - 1,
            b >= 1,
    ;
}

/// `sum_{j <= k < l} (pi(y / p_k) - k)`.
pub open spec fn inner_terms(y: nat, j: nat, l: nat) -> int
    decreases l - j,
{
    if j >= l {
        0
    } else {
        (prime_count(y / kth_prime(j)) - j) + inner_terms(y, j + 1, l)
    }
}

/// `sum_{i <= k < b} (pi(x / p_k) + [k < c] * inner_terms(x / p_k, k, pi(sqrt(x / p_k))))`.
pub open spec fn outer_terms(x: nat, i: nat, b: nat, c: nat) -> int
    decreases b - i,
{
    if i >= b {
        0
    } else {
        let y = x / kth_prime(i);
        prime_count(y) + (if i < c {
            inner_terms(y, i, prime_count(int_sqrt(y)))
        } else {
            0
        }) + outer_terms(x, i + 1, b, c)
    }
}

/// An empty inner sum.
proof fn lemma_inner_terms_empty(y: nat, j: nat, l: nat)
    requires
        j >= l,
    ensures
        inner_terms(y, j, l) == 0,
{
}

/// The first term of a nonempty inner sum.
proof fn lemma_inner_terms_unfold(y: nat, j: nat, l: nat)
    requires
        j < l,
    ensures
        inner_terms(y, j, l) == (prime_count(y / kth_prime(j)) - j) + inner_terms(y, j + 1, l),
{
}

/// One step of the inner telescoping sum.
proof fn lemma_telescope(a0: nat, a1: nat, az: nat, al: nat, pz: nat, t0: int, t1: int, j: nat, l: nat)
    requires
        a1 + az == a0,
        az + j == pz + 1,
        t1 == a1 - al - (l - (j + 1)),
        t0 == (pz - j) + t1,
    ensures
        t0 == a0 - al - (l - j),
{
}

/// The inner sum telescopes through Legendre's recurrence.
proof fn lemma_inner_terms(x: nat, r2: nat, r3: nat, r4: nat, i: nat, j: nat)
    requires
        lehmer_roots(x, r2, r3, r4),
        prime_count(r4) <= i < prime_count(r3),
        i <= j <= prime_count(int_sqrt(x / kth_prime(i))),
    ensures
        ({
            let y = x / kth_prime(i);
            let l = prime_count(int_sqrt(y));
            inner_terms(y, j, l) == phi(y, j) - phi(y, l) - (l - j)
        }),
    decreases prime_count(int_sqrt(x / kth_prime(i))) - j,
{
    let y = x / kth_prime(i);
    let l = prime_count(int_sqrt(y));
    if j < l {
        lemma_inner_step(x, r2, r3, r4, i, j);
        lemma_inner_terms(x, r2, r3, r4, i, j + 1);
        lemma_inner_terms_unfold(y, j, l);
        let z = y / kth_prime(j);
        lemma_telescope(
            phi(y, j),
            phi(y, j + 1),
            phi(z, j),
            phi(y, l),
            prime_count(z),
            inner_terms(y, j, l),
            inner_terms(y, j + 1, l),
            j,
            l,
        );
    } else {
        lemma_inner_terms_empty(y, j, l);
    }
}

/// The outer sum telescopes through Legendre's recurrence:
/// `2 * outer_terms(x, i, b, c) == 2 * phi(x, i) - 2 * phi(x, b) + (b - i) * (i + b - 3)`.
proof fn lemma_outer_terms(x: nat, r2: nat, r3: nat, r4: nat, i: nat)
    requires
        lehmer_roots(x, r2, r3, r4),
        prime_count(r4) <= i <= prime_count(r2),
    ensures
        ({
            let b = prime_count(r2);
            let c = prime_count(r3);
            2 * outer_terms(x, i, b, c) == 2 * phi(x, i) - 2 * phi(x, b) + (b - i) * (i + b - 3)
        }),
    decreases prime_count(r2) - i,
{
    let b = prime_count(r2);
    let c = prime_count(r3);
    if i < b {
        lemma_outer_step(x, r2, r3, r4, i);
        lemma_outer_terms(x, r2, r3, r4, i + 1);
        let y = x / kth_prime(i);
        let l = prime_count(int_sqrt(y));
        let inner = if i < c {
            inner_terms(y, i, l)
        } else {
            0
        };
        if i < c {
            lemma_inner_terms(x, r2, r3, r4, i, i);
        }
        lemma_outer_telescope(
            phi(x, i),
            phi(x, i + 1),
            phi(y, i),
            phi(y, l),
            prime_count(y),
            inner,
            phi(x, b),
            outer_terms(x, i, b, c),
            outer_terms(x, i + 1, b, c),
            i,
            l,
            b,
            i < c,
        );
    } else {
        assert(outer_terms(x, i, b, c) == 0);
        assert((b - i) * (i + b - 3) == 0) by (nonlinear_arith)
            requires
                i == b,
        ;
    }
}

/// One step of the outer telescoping sum.
proof fn lemma_outer_telescope(
    px: nat,
    px1: nat,
    py: nat,
    pyl: nat,
    count_y: nat,
    inner: int,
    pxb: nat,
    o: int,
    o1: int,
    i: nat,
    l: nat,
    b: nat,
    sieved: bool,
)
    requires
        px1 + py == px,
        !sieved ==> py + i == count_y + 1 && inner == 0,
        sieved ==> pyl + l == count_y + 1 && inner == py - pyl - (l - i),
        2 * o1 == 2 * px1 - 2 * pxb + (b - (i + 1)) * ((i + 1) + b - 3),
        o == count_y + inner + o1,
    ensures
        2 * o == 2 * px - 2 * pxb + (b - i) * (i + b - 3),
{
    assert((b - i) * (i + b - 3) == (b - (i + 1)) * ((i + 1) + b - 3) + 2 * (i - 1)) by (
    nonlinear_arith);
}

/// Meissel-Lehmer's formula: for `x >= 1` with square, cube and fourth
/// roots `r2`, `r3`, `r4`, and `a = pi(r4)`, `b = pi(r2)`, `c = pi(r3)`,
/// `2 * pi(x) == 2 * phi(x, a) + (b + a - 2) * (b - a + 1) - 2 * outer_terms(x, a, b, c)`.
pub proof fn lemma_meissel_lehmer(x: nat, r2: nat, r3: nat, r4: nat)
    requires
        lehmer_roots(x, r2, r3, r4),
        x >= 1,
    ensures
        ({
            let a = prime_count(r4);
            let b = prime_count(r2);
            let c = prime_count(r3);
            2 * prime_count(x) == 2 * phi(x, a) + (b + a - 2) * (b - a + 1) - 2 * outer_terms(
                x,
                a,
                b,
                c,
            )
        }),
{
    let a = prime_count(r4);
    let b = prime_count(r2);
    lemma_roots_ordered(x, r2, r3, r4);
    crate::primes::lemma_prime_count_monotone(r4, r2);
    crate::primes::lemma_prime_count_monotone(r2, x);
    lemma_outer_terms(x, r2, r3, r4, a);
    lemma_small_powers(r2 + 1);
    assert forall|q: nat| #[trigger] is_prime(q) && q * q <= x implies prime_count(q) <= b by {
        if q > r2 {
            assert(q * q >= (r2 + 1) * (r2 + 1)) by (nonlinear_arith)
                requires
                    q >= r2 + 1,
            ;
        }
        lemma_prime_le_iff_count_le(q, r2);
    }
    lemma_legendre(x, b);
    assert((b + a - 2) * (b - a + 1) - (b - a) * (a + b - 3) == 2 * (b - 1)) by (nonlinear_arith);
}

} // verus!
