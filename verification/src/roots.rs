//! Exact integer roots.

use vstd::prelude::*;

verus! {

/// `base` raised to the power `exp`.
pub open spec fn power(base: nat, exp: nat) -> nat
    decreases exp,
{
    if exp == 0 {
        1
    } else {
        base * power(base, (exp - 1) as nat)
    }
}

/// Raising to a fixed power is monotone in the base.
pub proof fn lemma_power_monotone_base(a: nat, b: nat, e: nat)
    requires
        a <= b,
    ensures
        power(a, e) <= power(b, e),
    decreases e,
{
    if e > 0 {
        let e1 = (e - 1) as nat;
        lemma_power_monotone_base(a, b, e1);
        let pa = power(a, e1);
        let pb = power(b, e1);
        assert(a * pa <= b * pb) by (nonlinear_arith)
            requires
                a <= b,
                pa <= pb,
        ;
    }
}

/// For a positive exponent, raising to that power is strictly monotone in the base.
pub proof fn lemma_power_strict_base(a: nat, b: nat, e: nat)
    requires
        a < b,
        e >= 1,
    ensures
        power(a, e) < power(b, e),
    decreases e,
{
    let e1 = (e - 1) as nat;
    if e1 == 0 {
        assert(power(a, 0) == 1 && power(b, 0) == 1);
    } else {
        lemma_power_strict_base(a, b, e1);
    }
    lemma_power_monotone_base(a, b, e1);
    let pa = power(a, e1);
    let pb = power(b, e1);
    assert(pb >= 1) by {
        lemma_power_positive(b, e1);
    }
    assert(a * pa < b * pb) by (nonlinear_arith)
        requires
            a < b,
            pa <= pb,
            pb >= 1,
    ;
}

/// A positive base has a positive power.
pub proof fn lemma_power_positive(b: nat, e: nat)
    requires
        b >= 1,
    ensures
        power(b, e) >= 1,
    decreases e,
{
    if e > 0 {
        lemma_power_positive(b, (e - 1) as nat);
        let p = power(b, (e - 1) as nat);
        assert(b * p >= 1) by (nonlinear_arith)
            requires
                b >= 1,
                p >= 1,
        ;
    }
}

/// For a base of at least one, powers grow with the exponent.
pub proof fn lemma_power_monotone_exp(b: nat, e1: nat, e2: nat)
    requires
        b >= 1,
        e1 <= e2,
    ensures
        power(b, e1) <= power(b, e2),
    decreases e2,
{
    if e1 < e2 {
        let e = (e2 - 1) as nat;
        lemma_power_monotone_exp(b, e1, e);
        let p = power(b, e);
        assert(p <= b * p) by (nonlinear_arith)
            requires
                b >= 1,
        ;
    }
}

/// A positive power of `b` is at least `b`.
pub proof fn lemma_power_at_least_base(b: nat, e: nat)
    requires
        e >= 1,
    ensures
        power(b, e) >= b,
{
    if b >= 1 {
        lemma_power_monotone_exp(b, 1, e);
        assert(power(b, 1) == b * power(b, 0));
        assert(b * 1 == b);
    } else {
        assert(b == 0);
    }
}

/// `r` is the integer `degree`-th root of `n`: the largest `r` with `r^degree <= n`.
pub open spec fn is_int_root(n: nat, degree: nat, r: nat) -> bool {
    power(r, degree) <= n < power(r + 1, degree)
}

/// The integer `degree`-th root of `n`.
pub open spec fn int_root(n: nat, degree: nat) -> nat {
    choose|r: nat| is_int_root(n, degree, r)
}

/// The integer square root of `n`.
pub open spec fn int_sqrt(n: nat) -> nat {
    int_root(n, 2)
}

/// For a positive degree, the integer root is unique.
pub proof fn lemma_int_root_unique(n: nat, degree: nat, r: nat, s: nat)
    requires
        degree >= 1,
        is_int_root(n, degree, r),
        is_int_root(n, degree, s),
    ensures
        r == s,
{
    if r < s {
        lemma_power_monotone_base(r + 1, s, degree);
    } else if s < r {
        lemma_power_monotone_base(s + 1, r, degree);
    }
}

/// For a positive degree, every `n` has an integer root, and `int_root` is it.
pub proof fn lemma_int_root(n: nat, degree: nat)
    requires
        degree >= 1,
    ensures
        is_int_root(n, degree, int_root(n, degree)),
    decreases n,
{
    if n == 0 {
        lemma_power_at_least_base(0, degree);
        assert(power(0, degree) == 0) by {
            assert(power(0, degree) == 0 * power(0, (degree - 1) as nat));
        }
        assert(power(1, degree) >= 1) by {
            lemma_power_positive(1, degree);
        }
        assert(is_int_root(0, degree, 0));
    } else {
        let m = (n - 1) as nat;
        lemma_int_root(m, degree);
        let r = int_root(m, degree);
        if power(r + 1, degree) <= n {
            assert(power(r + 1, degree) == n);
            lemma_power_strict_base(r + 1, r + 2, degree);
            assert(is_int_root(n, degree, r + 1));
        } else {
            assert(is_int_root(n, degree, r));
        }
    }
}

/// The integer square root of `n` is at most `n`, and its square at most `n`.
pub proof fn lemma_int_sqrt_le(n: nat)
    ensures
        int_sqrt(n) <= n,
        int_sqrt(n) * int_sqrt(n) <= n,
{
    lemma_int_root(n, 2);
    let r = int_sqrt(n);
    assert(power(r, 2) == r * r) by {
        reveal_with_fuel(power, 3);
        assert(power(r, 0) == 1);
        assert(power(r, 1) == r * 1);
    }
    assert(r <= r * r) by (nonlinear_arith);
}

/// Whether `base^degree <= limit`, computed without overflow (an empty
/// product, `degree == 0`, always passes).
pub fn pow_leq(base: u64, degree: u32, limit: u64) -> (leq: bool)
    ensures
        leq == (degree == 0 || power(base as nat, degree as nat) <= limit),
{
    let mut value: u64 = 1;
    for k in 0..degree
        invariant
            value == power(base as nat, k as nat),
            k == 0 || value <= limit,
    {
        let ghost b = base as nat;
        proof {
            assert(power(b, (k + 1) as nat) == b * power(b, k as nat));
            assert(value * base == b * power(b, k as nat)) by (nonlinear_arith)
                requires
                    value == power(b, k as nat),
                    b == base,
            ;
        }
        let next = match value.checked_mul(base) {
            Some(next) => next,
            None => {
                proof {
                    if b == 0 {
                        assert(value * base == 0) by (nonlinear_arith)
                            requires
                                b == 0,
                                b == base,
                        ;
                    }
                    lemma_power_monotone_exp(b, (k + 1) as nat, degree as nat);
                }
                return false;
            },
        };
        if next > limit {
            proof {
                if b == 0 {
                    assert(value * base == 0) by (nonlinear_arith)
                        requires
                            b == 0,
                            b == base,
                    ;
                }
                lemma_power_monotone_exp(b, (k + 1) as nat, degree as nat);
            }
            return false;
        }
        value = next;
    }
    true
}

/// The integer `degree`-th root of `n`: the largest `r` with `r^degree <= n`.
pub fn iroot(n: u64, degree: u32) -> (root: u64)
    requires
        degree >= 1,
    ensures
        is_int_root(n as nat, degree as nat, root as nat),
        root == int_root(n as nat, degree as nat),
{
    let mut low: u64 = 0;
    let mut high: u64 = n;
    proof {
        lemma_power_at_least_base(0, degree as nat);
        assert(power(0, degree as nat) == 0 * power(0, (degree - 1) as nat));
        assert forall|r: nat| r > high implies power(r, degree as nat) > n by {
            lemma_power_at_least_base(r, degree as nat);
        }
    }
    while low < high
        invariant
            degree >= 1,
            low <= high,
            power(low as nat, degree as nat) <= n,
            forall|r: nat| r > high ==> power(r, degree as nat) > n,
        decreases high - low,
    {
        let mid = low + (high - low) / 2 + 1;
        if pow_leq(mid, degree, n) {
            low = mid;
        } else {
            assert forall|r: nat| r > mid - 1 implies power(r, degree as nat) > n by {
                lemma_power_monotone_base(mid as nat, r, degree as nat);
            }
            high = mid - 1;
        }
    }
    proof {
        assert(power((low + 1) as nat, degree as nat) > n);
        lemma_int_root(n as nat, degree as nat);
        lemma_int_root_unique(n as nat, degree as nat, low as nat, int_root(n as nat, degree as nat));
    }
    low
}

/// The integer square root of `n`.
pub fn isqrt(n: u64) -> (root: u64)
    ensures
        is_int_root(n as nat, 2, root as nat),
        root == int_sqrt(n as nat),
        root * root <= n < (root + 1) * (root + 1),
        root < 0x1_0000_0000,
{
    let root = iroot(n, 2);
    proof {
        let r = root as nat;
        assert(power(r, 2) == r * r) by {
            assert(power(r, 1) == r * power(r, 0));
            assert(r * 1 == r);
            assert(power(r, 2) == r * power(r, 1));
        }
        assert(power(r + 1, 2) == (r + 1) * (r + 1)) by {
            assert(power(r + 1, 1) == (r + 1) * power(r + 1, 0));
            assert((r + 1) * 1 == r + 1);
            assert(power(r + 1, 2) == (r + 1) * power(r + 1, 1));
        }
        if r >= 0x1_0000_0000 {
            assert(r * r >= 0x1_0000_0000 * 0x1_0000_0000) by (nonlinear_arith)
                requires
                    r >= 0x1_0000_0000,
            ;
        }
    }
    root
}

} // verus!
