//! Finding the `n`-th prime with a prime counter: bracket the answer
//! around an estimate, then binary-search the bracket for the smallest
//! `x` with `pi(x) >= n`. The search works with the counter's own answers;
//! when they are the prime counts, it finds the `n`-th prime.

use vstd::prelude::*;
use crate::counter::PrimeCounter;
use crate::phi_table::lemma_first_six_primes;
use crate::primes::{
    is_prime, kth_prime, lemma_is_kth_prime, lemma_nth_prime_is_least, lemma_prime_count_half,
    lemma_prime_count_monotone, prime_count,
};
use crate::roots::{int_sqrt, isqrt};

verus! {

/// The `n`-th prime together with the estimate and the bracket searched.
#[derive(Debug, Clone, Copy, PartialEq, Eq)]
pub struct NthPrimeResult {
    pub prime: u64,
    pub estimate: u64,
    pub lower: u64,
    pub upper: u64,
}

/// The estimate for the smallest targets, where it is exact: 0 for a
/// `target` of zero, the `target`-th prime for targets one to five, and
/// nothing for larger targets.
pub fn small_prime_estimate(target: u64) -> (estimate: Option<u64>)
    ensures
        estimate is None <==> target > 5,
        target == 0 ==> estimate == Some(0u64),
        1 <= target <= 5 ==> estimate == Some(kth_prime((target - 1) as nat) as u64),
{
    proof {
        lemma_first_six_primes();
        lemma_is_kth_prime(2, 0);
        lemma_is_kth_prime(3, 1);
        lemma_is_kth_prime(5, 2);
        lemma_is_kth_prime(7, 3);
        lemma_is_kth_prime(11, 4);
    }
    match target {
        0 => Some(0),
        1 => Some(2),
        2 => Some(3),
        3 => Some(5),
        4 => Some(7),
        5 => Some(11),
        _ => None,
    }
}

/// `a * b`, or `u64::MAX` when the product does not fit.
fn saturating_product(a: u64, b: u64) -> (product: u64)
    ensures
        product == if a * b > u64::MAX {
            u64::MAX as int
        } else {
            a * b
        },
{
    match a.checked_mul(b) {
        Some(product) => product,
        None => u64::MAX,
    }
}

/// `x` held to the range of `u64`, as saturating arithmetic leaves it.
pub open spec fn clamp_u64(x: int) -> int {
    if x > u64::MAX {
        u64::MAX as int
    } else if x < 0 {
        0
    } else {
        x
    }
}

/// The first step by which the bracket moves away from `estimate`:
/// twice its integer square root, and at least 1024.
pub open spec fn initial_step(estimate: nat) -> int {
    let doubled = clamp_u64(2 * (int_sqrt(estimate) as int));
    if doubled > 1024 {
        doubled
    } else {
        1024
    }
}

/// The upper end of the bracket for the counts `f`: from `high`, move up
/// by `step`, doubling the step each time, until the count reaches
/// `target` (or the top of `u64` stops the search).
pub open spec fn widen_upper(f: spec_fn(u64) -> u64, high: int, step: int, target: int) -> int
    decreases u64::MAX - high,
{
    if f(high as u64) >= target {
        high
    } else {
        let next = clamp_u64(high + step);
        if next <= high {
            high
        } else {
            widen_upper(f, next, clamp_u64(2 * step), target)
        }
    }
}

/// The lower end of the bracket for the counts `f`: from `low`, move down
/// by `step`, doubling the step each time and never below 2, until the
/// count falls under `target`.
pub open spec fn narrow_lower(f: spec_fn(u64) -> u64, low: int, step: int, target: int) -> int
    decreases low,
{
    if f(low as u64) < target {
        low
    } else {
        let stepped = clamp_u64(low - step);
        let next = if stepped > 2 {
            stepped
        } else {
            2
        };
        if next >= low {
            low
        } else {
            narrow_lower(f, next, clamp_u64(2 * step), target)
        }
    }
}

/// The bracket `(lower, upper)` searched for `target` from `estimate`
/// with the counts `f`: one end is the estimate, the other is found by
/// widening (when the estimate falls short) or narrowing (when it reaches).
pub open spec fn search_bracket(f: spec_fn(u64) -> u64, target: int, estimate: u64) -> (int, int) {
    let step = initial_step(estimate as nat);
    if f(estimate) < target {
        let widened = clamp_u64(estimate + step);
        let start = if widened > 3 {
            widened
        } else {
            3
        };
        (estimate as int, widen_upper(f, start, step, target))
    } else {
        let narrowed = clamp_u64(estimate - step);
        let start = if narrowed > 2 {
            narrowed
        } else {
            2
        };
        (narrow_lower(f, start, step, target), estimate as int)
    }
}

/// Where the binary search over `[left, right]` for the first count
/// reaching `target` ends.
pub open spec fn first_reaching(f: spec_fn(u64) -> u64, left: int, right: int, target: int) -> int
    decreases right - left,
{
    if left >= right {
        left
    } else {
        let mid = left + (right - left) / 2;
        if f(mid as u64) >= target {
            first_reaching(f, left, mid, target)
        } else {
            first_reaching(f, mid + 1, right, target)
        }
    }
}

/// The whole outcome of a search for `target` from `estimate` with the
/// counts `f`.
pub open spec fn search_outcome(f: spec_fn(u64) -> u64, target: u64, estimate: u64) -> NthPrimeResult {
    if target == 1 {
        NthPrimeResult { prime: 2, estimate: 2, lower: 2, upper: 2 }
    } else {
        let bracket = search_bracket(f, target as int, estimate);
        NthPrimeResult {
            prime: first_reaching(f, bracket.0 + 1, bracket.1, target as int) as u64,
            estimate,
            lower: bracket.0 as u64,
            upper: bracket.1 as u64,
        }
    }
}

/// The counts of a counter that counts primes.
pub open spec fn counted_primes() -> spec_fn(u64) -> u64 {
    |x: u64| prime_count(x as nat) as u64
}

/// The outcome of a search for the `target`-th prime from `estimate`.
pub open spec fn nth_prime_outcome(target: u64, estimate: u64) -> NthPrimeResult {
    search_outcome(counted_primes(), target, estimate)
}

/// The counts `counter` answers.
pub open spec fn answers_of<C: PrimeCounter>(counter: C) -> spec_fn(u64) -> u64 {
    |x: u64| counter.answer(x)
}

/// `counter` answers the prime count for every `x`.
pub open spec fn counts_primes<C: PrimeCounter>(counter: C) -> bool {
    forall|x: u64| #[trigger] counter.answer(x) == prime_count(x as nat)
}

/// The counts `f` never fall as `x` grows.
pub open spec fn nondecreasing(f: spec_fn(u64) -> u64) -> bool {
    forall|x: u64, y: u64| x <= y ==> #[trigger] f(x) <= #[trigger] f(y)
}

/// The prime counts never fall.
pub proof fn lemma_counted_primes_nondecreasing()
    ensures
        nondecreasing(counted_primes()),
{
    assert forall|x: u64, y: u64| x <= y implies #[trigger] counted_primes()(x)
        <= #[trigger] counted_primes()(y) by {
        lemma_prime_count_monotone(x as nat, y as nat);
        lemma_prime_count_half(y as nat);
    }
}

/// For nondecreasing counts that reach `target` at `right`, the binary
/// search over `[left, right]` ends at the first `x` there whose count
/// reaches `target`.
pub proof fn lemma_first_reaching(f: spec_fn(u64) -> u64, left: int, right: int, target: int)
    requires
        nondecreasing(f),
        0 <= left <= right <= u64::MAX,
        f(right as u64) >= target,
    ensures
        left <= first_reaching(f, left, right, target) <= right,
        f(first_reaching(f, left, right, target) as u64) >= target,
        forall|y: u64| left <= y < first_reaching(f, left, right, target) ==> #[trigger] f(y) < target,
    decreases right - left,
{
    if left < right {
        let mid = left + (right - left) / 2;
        if f(mid as u64) >= target {
            lemma_first_reaching(f, left, mid, target);
        } else {
            lemma_first_reaching(f, mid + 1, right, target);
            assert forall|y: u64| left <= y <= mid implies #[trigger] f(y) < target by {
                assert(f(y) <= f(mid as u64));
            }
        }
    }
}

/// The `target`-th count from `estimate` by bracketing and binary search
/// with `counter`, whose answers stay as they were. With a counter that
/// counts primes this is the `target`-th prime (the first is 2); a `target`
/// of zero gives 3. The outcome depends on the counter's answers, the
/// target and the estimate alone, so any two prime counters give the same.
pub fn nth_prime<C: PrimeCounter>(target: u64, estimate: u64, counter: &mut C) -> (result:
    NthPrimeResult)
    requires
        old(counter).wf(),
        target <= old(counter).answer(u64::MAX),
    ensures
        final(counter).wf(),
        forall|y: u64| #[trigger] final(counter).answer(y) == old(counter).answer(y),
        result == search_outcome(answers_of(*old(counter)), target, estimate),
        target == 1 ==> result.lower == 2 && result.upper == 2 && *final(counter) == *old(
            counter,
        ),
        target == 0 ==> result.prime == 3 && result.lower == 2,
        target != 1 && old(counter).answer(estimate) < target ==> {
            &&& result.lower == estimate < result.upper
            &&& old(counter).answer(result.upper) >= target
        },
        target != 1 && old(counter).answer(estimate) >= target ==> {
            &&& result.upper == estimate
            &&& result.lower >= 2
            &&& old(counter).answer(result.lower) < target || result.lower == 2
        },
        target != 1 && nondecreasing(answers_of(*old(counter))) && result.lower < result.upper ==> {
            &&& result.lower < result.prime <= result.upper
            &&& old(counter).answer(result.prime) >= target
            &&& forall|y: u64|
                result.lower < y < result.prime ==> #[trigger] old(counter).answer(y) < target
            &&& old(counter).answer(result.lower) < target ==> forall|y: u64|
                y < result.prime ==> #[trigger] old(counter).answer(y) < target
        },
        counts_primes(*old(counter)) ==> result == nth_prime_outcome(target, estimate),
        counts_primes(*old(counter)) && target >= 1 ==> {
            &&& is_prime(result.prime as nat)
            &&& prime_count(result.prime as nat) == target
            &&& forall|y: nat| y < result.prime ==> #[trigger] prime_count(y) < target
        },
        counts_primes(*old(counter)) && target >= 2 ==> {
            &&& prime_count(result.lower as nat) < target <= prime_count(result.upper as nat)
            &&& result.lower < result.prime <= result.upper
        },
{
    let ghost f = answers_of(*counter);
    let ghost primes_counted = counts_primes(*counter);
    proof {
        reveal_with_fuel(prime_count, 3);
        assert(is_prime(2));
        assert(prime_count(2) == 1);
        if primes_counted {
            assert(f =~= counted_primes());
            lemma_counted_primes_nondecreasing();
        }
    }
    if target == 1 {
        proof {
            lemma_nth_prime_is_least(2, 1);
        }
        return NthPrimeResult { prime: 2, estimate: 2, lower: 2, upper: 2 };
    }
    let ghost bracket = search_bracket(f, target as int, estimate);
    let doubled_root = saturating_product(isqrt(estimate), 2);
    let mut step = if doubled_root > 1024 {
        doubled_root
    } else {
        1024
    };
    assert(step == initial_step(estimate as nat));
    let lower: u64;
    let upper: u64;
    if counter.pi(estimate) < target {
        lower = estimate;
        let widened = estimate.saturating_add(step);
        let mut high = if widened > 3 {
            widened
        } else {
            3
        };
        loop
            invariant
                counter.wf(),
                forall|y: u64| #[trigger] counter.answer(y) == f(y),
                target <= f(u64::MAX),
                f(lower) < target,
                lower == estimate,
                lower < high,
                step >= 1,
                widen_upper(f, high as int, step as int, target as int) == bracket.1,
            ensures
                counter.wf(),
                forall|y: u64| #[trigger] counter.answer(y) == f(y),
                f(lower) < target <= f(high),
                lower < high,
                high == bracket.1,
            decreases u64::MAX - high,
        {
            if counter.pi(high) >= target {
                break;
            }
            proof {
                if high == u64::MAX {
                    assert(false);
                }
            }
            high = high.saturating_add(step);
            step = saturating_product(step, 2);
        }
        upper = high;
    } else {
        upper = estimate;
        let narrowed = estimate.saturating_sub(step);
        let mut low = if narrowed > 2 {
            narrowed
        } else {
            2
        };
        loop
            invariant
                counter.wf(),
                forall|y: u64| #[trigger] counter.answer(y) == f(y),
                2 <= low < u64::MAX,
                low <= upper || low == 2,
                f(upper) >= target,
                step >= 1,
                narrow_lower(f, low as int, step as int, target as int) == bracket.0,
            ensures
                counter.wf(),
                forall|y: u64| #[trigger] counter.answer(y) == f(y),
                2 <= low < u64::MAX,
                low <= upper || low == 2,
                f(low) < target || low == 2,
                low == bracket.0,
            decreases low,
        {
            if counter.pi(low) < target {
                break;
            }
            let stepped = low.saturating_sub(step);
            let next_low = if stepped > 2 {
                stepped
            } else {
                2
            };
            if next_low == low {
                break;
            }
            low = next_low;
            step = saturating_product(step, 2);
        }
        lower = low;
    }
    assert(f(upper) >= target);
    let ghost found = first_reaching(f, lower + 1, upper as int, target as int);
    let mut left = lower + 1;
    let mut right = upper;
    while left < right
        invariant
            counter.wf(),
            forall|y: u64| #[trigger] counter.answer(y) == f(y),
            first_reaching(f, left as int, right as int, target as int) == found,
            target == 0 ==> left == lower + 1,
        decreases right - left,
    {
        let mid = left + (right - left) / 2;
        if counter.pi(mid) >= target {
            right = mid;
        } else {
            left = mid + 1;
        }
    }
    proof {
        assert forall|y: u64| #[trigger] old(counter).answer(y) == f(y) by {}
        if nondecreasing(f) && lower < upper {
            lemma_first_reaching(f, lower + 1, upper as int, target as int);
            assert forall|y: u64| lower < y < left implies #[trigger] old(counter).answer(y)
                < target by {
                assert(f(y) < target);
            }
            if f(lower) < target {
                assert forall|y: u64| y < left implies #[trigger] old(counter).answer(y)
                    < target by {
                    if y <= lower {
                        assert(f(y) <= f(lower));
                    } else {
                        assert(f(y) < target);
                    }
                }
            }
        }
        if primes_counted && target >= 2 {
            if upper <= lower {
                assert(f(upper) <= f(lower));
            }
            let p = left as nat;
            assert(f((left - 1) as u64) < target);
            assert(prime_count(p) == prime_count((p - 1) as nat) + if is_prime(p) {
                1nat
            } else {
                0nat
            });
            lemma_nth_prime_is_least(p, target as nat);
        }
    }
    NthPrimeResult { prime: left, estimate, lower, upper }
}

} // verus!
