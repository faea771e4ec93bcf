//! Primes, the prime-counting function, and the divisibility facts the
//! counting formulas rest on.

use vstd::prelude::*;
use vstd::arithmetic::div_mod::{
    lemma_fundamental_div_mod, lemma_mod_multiples_basic, lemma_mul_mod_noop_left,
    lemma_small_mod,
};

verus! {

/// `n` is prime: at least two, with no divisor strictly between one and itself.
pub open spec fn is_prime(n: nat) -> bool {
    n >= 2 && forall|d: nat| 2 <= d < n ==> #[trigger] (n % d) != 0
}

/// The number of primes `p` with `p <= n`.
pub open spec fn prime_count(n: nat) -> nat
    decreases n,
{
    if n == 0 {
        0
    } else {
        prime_count((n - 1) as nat) + if is_prime(n) {
            1nat
        } else {
            0nat
        }
    }
}

/// The `(k + 1)`-th prime, counting from the prime 2 at `k == 0`.
pub open spec fn kth_prime(k: nat) -> nat {
    choose|p: nat| is_prime(p) && prime_count(p) == k + 1
}

/// A multiple of `d` leaves no remainder.
pub proof fn lemma_multiple_divides(n: nat, d: nat, k: nat)
    requires
        d > 0,
        n == k * d,
    ensures
        n % d == 0,
{
    lemma_mod_multiples_basic(k as int, d as int);
}

/// A number with no remainder is the product of its divisor and its quotient.
pub proof fn lemma_divides_product(n: nat, d: nat)
    requires
        d > 0,
        n % d == 0,
    ensures
        n == (n / d) * d,
{
    lemma_fundamental_div_mod(n as int, d as int);
    let q = n / d;
    assert(n == q * d) by (nonlinear_arith)
        requires
            n == d * q,
    ;
}

/// Divisibility is transitive.
pub proof fn lemma_divides_transitive(a: nat, b: nat, c: nat)
    requires
        a > 0,
        b > 0,
        b % a == 0,
        c % b == 0,
    ensures
        c % a == 0,
{
    lemma_divides_product(b, a);
    lemma_divides_product(c, b);
    let k = b / a;
    let m = c / b;
    assert(c == (m * k) * a) by (nonlinear_arith)
        requires
            c == m * b,
            b == k * a,
    ;
    lemma_multiple_divides(c, a, m * k);
}

/// A positive number is at least any of its divisors.
pub proof fn lemma_divisor_le(n: nat, d: nat)
    requires
        n > 0,
        d > 0,
        n % d == 0,
    ensures
        d <= n,
{
    if d > n {
        lemma_small_mod(n, d);
    }
}

/// No number of at least two divides one.
pub proof fn lemma_one_has_no_divisor(d: nat)
    requires
        d >= 2,
    ensures
        1nat % d != 0,
{
    lemma_small_mod(1, d);
}

/// The only prime that divides a prime is the prime itself.
pub proof fn lemma_prime_divides_prime(q: nat, p: nat)
    requires
        is_prime(q),
        is_prime(p),
        p % q == 0,
    ensures
        q == p,
{
    lemma_divisor_le(p, q);
}

/// The prime count never decreases.
pub proof fn lemma_prime_count_monotone(m: nat, n: nat)
    requires
        m <= n,
    ensures
        prime_count(m) <= prime_count(n),
    decreases n,
{
    if m < n {
        lemma_prime_count_monotone(m, (n - 1) as nat);
    }
}

/// A prime has a larger count than every smaller number.
pub proof fn lemma_prime_count_strict(q: nat, p: nat)
    requires
        is_prime(p),
        q < p,
    ensures
        prime_count(q) < prime_count(p),
{
    lemma_prime_count_monotone(q, (p - 1) as nat);
}

/// A prime whose count is at most that of `n` is at most `n`, and conversely.
pub proof fn lemma_prime_le_iff_count_le(p: nat, n: nat)
    requires
        is_prime(p),
    ensures
        p <= n <==> prime_count(p) <= prime_count(n),
{
    if p <= n {
        lemma_prime_count_monotone(p, n);
    } else {
        lemma_prime_count_strict(n, p);
    }
}

/// Two primes with the same count are equal.
pub proof fn lemma_prime_count_injective(p: nat, q: nat)
    requires
        is_prime(p),
        is_prime(q),
        prime_count(p) == prime_count(q),
    ensures
        p == q,
{
    if p < q {
        lemma_prime_count_strict(p, q);
    } else if q < p {
        lemma_prime_count_strict(q, p);
    }
}

/// At most every other number is prime: `prime_count(n) <= (n + 1) / 2`,
/// and so `prime_count(n) <= n`.
pub proof fn lemma_prime_count_half(n: nat)
    ensures
        prime_count(n) <= (n + 1) / 2,
        prime_count(n) <= n,
    decreases n,
{
    if n > 0 {
        lemma_prime_count_half((n - 1) as nat);
        assert(prime_count((n - 1) as nat) <= n / 2);
        if n > 2 && n % 2 == 0 {
            assert(n % 2 == 0);
            assert(!is_prime(n));
            assert(n / 2 <= (n + 1) / 2);
        } else if n % 2 == 1 {
            assert((n + 1) / 2 == n / 2 + 1);
        } else {
            assert(n == 2);
            assert(prime_count(0) == 0);
            assert(!is_prime(1));
            assert(prime_count(1) == 0);
        }
    }
}

/// A prime `p`: the smallest divisor of at least two of any `n >= 2` is
/// prime, and if `n` is not prime that divisor squared is at most `n`.
pub proof fn lemma_least_prime_factor(n: nat) -> (p: nat)
    requires
        n >= 2,
    ensures
        is_prime(p),
        p <= n,
        n % p == 0,
        !is_prime(n) ==> p * p <= n,
{
    let d = least_divisor_from(n, 2);
    assert(is_prime(d)) by {
        assert forall|e: nat| 2 <= e < d implies #[trigger] (d % e) != 0 by {
            if d % e == 0 {
                lemma_divides_transitive(e, d, n);
            }
        }
    }
    if !is_prime(n) {
        let e = choose|e: nat| 2 <= e < n && #[trigger] (n % e) == 0;
        assert(d <= e);
        assert(d < n);
        lemma_divides_product(n, d);
        let k = n / d;
        assert(n == k * d);
        assert(k >= 2) by {
            if k < 2 {
                assert(k == 0 || k == 1);
                assert(k * d == 0 || k * d == d) by (nonlinear_arith)
                    requires
                        k == 0 || k == 1,
                ;
            }
        }
        assert(n % k == 0) by {
            assert(n == d * k) by (nonlinear_arith)
                requires
                    n == k * d,
            ;
            lemma_multiple_divides(n, k, d);
        }
        assert(k < n) by (nonlinear_arith)
            requires
                n == k * d,
                d >= 2,
                k >= 2,
        ;
        assert(d <= k);
        assert(d * d <= n) by (nonlinear_arith)
            requires
                n == k * d,
                d <= k,
        ;
    }
    d
}

/// The least divisor of `n` that is at least `d`, given none in `[2, d)`.
proof fn least_divisor_from(n: nat, d: nat) -> (e: nat)
    requires
        n >= 2,
        2 <= d <= n,
        forall|f: nat| 2 <= f < d ==> #[trigger] (n % f) != 0,
    ensures
        d <= e <= n,
        n % e == 0,
        forall|f: nat| 2 <= f < e ==> #[trigger] (n % f) != 0,
    decreases n - d,
{
    if n % d == 0 {
        d
    } else {
        if d == n {
            assert(n % n == 0) by {
                lemma_multiple_divides(n, n, 1);
            }
        }
        least_divisor_from(n, d + 1)
    }
}

/// Euclid's lemma for a factor already reduced below the prime.
proof fn lemma_euclid_reduced(a: nat, b: nat, p: nat)
    requires
        is_prime(p),
        0 < a < p,
        (a * b) % p == 0,
    ensures
        b % p == 0,
    decreases a,
{
    if a == 1 {
        assert(a * b == b);
    } else {
        let q = p / a;
        let r = p % a;
        lemma_fundamental_div_mod(p as int, a as int);
        assert(p == a * q + r);
        assert(r != 0) by {
            assert(p % a != 0);
        }
        assert(r < a);
        lemma_divides_product(a * b, p);
        let m = (a * b) / p;
        let k: int = b - q * m;
        assert(r * b == k * p) by (nonlinear_arith)
            requires
                p == a * q + r,
                a * b == m * p,
                k == b - q * m,
        ;
        assert(k >= 0) by {
            assert(r * b >= 0) by (nonlinear_arith)
                requires
                    r >= 0,
                    b >= 0,
            ;
            if k < 0 {
                assert(k * p < 0) by (nonlinear_arith)
                    requires
                        k < 0,
                        p > 0,
                ;
            }
        }
        lemma_multiple_divides(r * b, p, k as nat);
        lemma_euclid_reduced(r, b, p);
    }
}

/// Euclid's lemma: a prime that divides a product divides one of its factors.
pub proof fn lemma_euclid(a: nat, b: nat, p: nat)
    requires
        is_prime(p),
        (a * b) % p == 0,
    ensures
        a % p == 0 || b % p == 0,
{
    let r = a % p;
    if r != 0 {
        lemma_mul_mod_noop_left(a as int, b as int, p as int);
        assert((r * b) % p == 0);
        lemma_euclid_reduced(r, b, p);
    }
}

/// For `k < prime_count(n)`, `kth_prime(k)` is the prime whose count is
/// `k + 1`, and it is at most `n`.
pub proof fn lemma_kth_prime(k: nat, n: nat)
    requires
        k < prime_count(n),
    ensures
        is_prime(kth_prime(k)),
        prime_count(kth_prime(k)) == k + 1,
        kth_prime(k) <= n,
    decreases n,
{
    let m = (n - 1) as nat;
    if k < prime_count(m) {
        lemma_kth_prime(k, m);
    } else {
        assert(is_prime(n) && prime_count(n) == k + 1);
    }
    let p = kth_prime(k);
    lemma_prime_le_iff_count_le(p, n);
}

/// A prime with count `k + 1` is `kth_prime(k)`.
pub proof fn lemma_is_kth_prime(p: nat, k: nat)
    requires
        is_prime(p),
        prime_count(p) == k + 1,
    ensures
        kth_prime(k) == p,
{
    lemma_kth_prime(k, p);
    lemma_prime_count_injective(p, kth_prime(k));
}

/// The `n`-th prime is the least number whose prime count reaches `n`.
pub proof fn lemma_nth_prime_is_least(p: nat, n: nat)
    requires
        is_prime(p),
        prime_count(p) == n,
    ensures
        forall|y: nat| y < p ==> #[trigger] prime_count(y) < n,
{
    assert forall|y: nat| y < p implies #[trigger] prime_count(y) < n by {
        lemma_prime_count_strict(y, p);
    }
}

} // verus!
