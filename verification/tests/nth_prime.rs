use billionprimes::lehmer::LehmerCounter;
use billionprimes::legendre::LegendreCounter;
use billionprimes::counter::PrimeCounter;
use billionprimes::nth_prime::{nth_prime, small_prime_estimate};
use billionprimes::DefaultCounter;

fn estimate(target: u64) -> u64 {
    const SMALL_PRIMES: [u64; 6] = [0, 2, 3, 5, 7, 11];
    if let Some(&prime) = SMALL_PRIMES.get(target as usize) {
        return prime;
    }
    let n = target as f64;
    (n * (n.ln() + n.ln().ln())).ceil() as u64
}

#[test]
fn finds_known_nth_primes() {
    let mut counter = DefaultCounter::new(10_000);

    assert_eq!(nth_prime(1, estimate(1), &mut counter).prime, 2);
    assert_eq!(nth_prime(25, estimate(25), &mut counter).prime, 97);
    assert_eq!(nth_prime(1_000, estimate(1_000), &mut counter).prime, 7_919);
}

#[test]
fn any_estimate_finds_the_same_prime() {
    let mut counter = LehmerCounter::new(100);
    for guess in [0u64, 1, 2, 50, 97, 98, 1_000, 1_000_000] {
        let result = nth_prime(25, guess, &mut counter);
        assert_eq!(result.prime, 97, "{guess}");
        assert!(result.lower < result.prime && result.prime <= result.upper);
        assert_eq!(result.estimate, guess);
    }
}

#[test]
fn zero_target_gives_three() {
    let mut counter = LegendreCounter::new(100);
    assert_eq!(nth_prime(0, 10, &mut counter).prime, 3);
    assert_eq!(nth_prime(0, 0, &mut counter).prime, 3);
}

#[test]
fn first_prime_is_two_whatever_the_estimate() {
    let mut counter = LehmerCounter::new(100);
    let result = nth_prime(1, 12345, &mut counter);
    assert_eq!((result.prime, result.estimate, result.lower, result.upper), (2, 2, 2, 2));
}

#[test]
fn bracket_keeps_the_estimate() {
    let mut counter = LehmerCounter::new(100);
    let below = nth_prime(10_000, 100_000, &mut counter);
    assert_eq!(below.prime, 104_729);
    assert_eq!(below.lower, 100_000);
    let above = nth_prime(10_000, 200_000, &mut counter);
    assert_eq!(above.prime, 104_729);
    assert_eq!(above.upper, 200_000);
}

#[test]
fn both_counters_give_the_same_search() {
    for (target, guess) in [(0u64, 10u64), (2, 3), (25, 50), (25, 1_000), (1_000, 7_000), (1_000, 9_000)] {
        let mut lehmer = LehmerCounter::new(8);
        let mut legendre = LegendreCounter::new(1_000);
        let a = nth_prime(target, guess, &mut lehmer);
        let b = nth_prime(target, guess, &mut legendre);
        assert_eq!(a, b, "{target} {guess}");
    }
}

#[test]
fn bracket_widens_and_narrows_by_doubling_steps() {
    let mut counter = LegendreCounter::new(100);
    // pi(10) = 4 < 25: the upper end starts at 10 + 1024.
    let up = nth_prime(25, 10, &mut counter);
    assert_eq!((up.prime, up.lower, up.upper), (97, 10, 1_034));
    // pi(5000) = 669 >= 25: the lower end steps down 1024, 1024, 2048 and stops at 2.
    let down = nth_prime(25, 5_000, &mut counter);
    assert_eq!((down.prime, down.lower, down.upper), (97, 2, 5_000));
    // The 10000th prime is 104729; from 110000 the lower end moves down by
    // 1024, 1024, 2048, 4096 before the count falls short.
    let narrowed = nth_prime(10_000, 110_000, &mut counter);
    assert_eq!((narrowed.prime, narrowed.lower, narrowed.upper), (104_729, 101_808, 110_000));
    // From 100000 the upper end moves up by 1024, 1024, 2048, 4096.
    let widened = nth_prime(10_000, 100_000, &mut counter);
    assert_eq!((widened.prime, widened.lower, widened.upper), (104_729, 100_000, 108_192));
}

#[test]
fn small_targets_have_exact_estimates() {
    let expected = [Some(0u64), Some(2), Some(3), Some(5), Some(7), Some(11), None, None];
    for (target, want) in expected.iter().enumerate() {
        assert_eq!(small_prime_estimate(target as u64), *want, "{target}");
    }
    assert_eq!(small_prime_estimate(u64::MAX), None);
}

/// A counter whose answer for `x` is `x / 10`: nondecreasing, not a prime count.
struct Tenths;

impl PrimeCounter for Tenths {
    fn wf(&self) -> bool {
        true
    }

    fn answer(&self, x: u64) -> u64 {
        x / 10
    }

    fn pi(&mut self, x: u64) -> u64 {
        x / 10
    }
}

#[test]
fn search_follows_the_counters_own_answers() {
    let mut counter = Tenths;
    let widened = nth_prime(5, 20, &mut counter);
    assert_eq!((widened.prime, widened.estimate, widened.lower, widened.upper), (50, 20, 20, 1_044));
    let narrowed = nth_prime(5, 3_000, &mut counter);
    assert_eq!((narrowed.prime, narrowed.lower, narrowed.upper), (50, 2, 3_000));
}
