use billionprimes::counter::PrimeCounter;
use billionprimes::legendre::LegendreCounter;
use billionprimes::lehmer::LehmerCounter;

#[test]
fn prime_count_counts_known_values() {
    let mut counter = LehmerCounter::new(10_000);

    assert_eq!(counter.pi(0), 0);
    assert_eq!(counter.pi(1), 0);
    assert_eq!(counter.pi(2), 1);
    assert_eq!(counter.pi(10), 4);
    assert_eq!(counter.pi(100), 25);
    assert_eq!(counter.pi(1_000), 168);
    assert_eq!(counter.pi(1_000_000), 78_498);
}

#[test]
fn lehmer_counts_known_values() {
    let mut counter = LehmerCounter::new(10_000);

    assert_eq!(counter.pi(0), 0);
    assert_eq!(counter.pi(1), 0);
    assert_eq!(counter.pi(2), 1);
    assert_eq!(counter.pi(10), 4);
    assert_eq!(counter.pi(100), 25);
    assert_eq!(counter.pi(1_000), 168);
    assert_eq!(counter.pi(1_000_000), 78_498);
    assert_eq!(counter.pi(10_000_000), 664_579);
}

#[test]
fn legendre_counts_known_values() {
    let mut counter = LegendreCounter::new(10_000);

    assert_eq!(counter.pi(0), 0);
    assert_eq!(counter.pi(1), 0);
    assert_eq!(counter.pi(2), 1);
    assert_eq!(counter.pi(10), 4);
    assert_eq!(counter.pi(100), 25);
    assert_eq!(counter.pi(1_000), 168);
    assert_eq!(counter.pi(1_000_000), 78_498);
    assert_eq!(counter.pi(10_000_000), 664_579);
}

fn naive_counts(limit: u64) -> Vec<u64> {
    let mut counts = Vec::new();
    let mut count = 0;
    for n in 0..=limit {
        if n >= 2 && (2..n).take_while(|d| d * d <= n).all(|d| n % d != 0) {
            count += 1;
        }
        counts.push(count);
    }
    counts
}

#[test]
fn counters_agree_with_trial_division_beyond_the_table() {
    let expected = naive_counts(3_000);
    let mut lehmer = LehmerCounter::new(0);
    let mut legendre = LegendreCounter::new(0);
    for x in 0..=3_000u64 {
        assert_eq!(lehmer.pi(x), expected[x as usize], "lehmer {x}");
        assert_eq!(legendre.pi(x), expected[x as usize], "legendre {x}");
    }
}

#[test]
fn smallest_lehmer_table_counts_small_values() {
    let mut counter = LehmerCounter::new(8);
    assert_eq!(counter.pi(9), 4);
    assert_eq!(counter.pi(10), 4);
    assert_eq!(counter.pi(15), 6);
    assert_eq!(counter.pi(16), 6);
    assert_eq!(counter.pi(17), 7);
}

#[test]
fn repeated_queries_give_the_same_count() {
    let mut counter = LehmerCounter::new(100);
    let first = counter.pi(123_456);
    assert_eq!(counter.pi(2_000_000), 148_933);
    assert_eq!(counter.pi(123_456), first);
    assert_eq!(first, 11_601);
}

#[test]
fn counters_agree_on_large_values() {
    let mut lehmer = LehmerCounter::new(1_000);
    let mut legendre = LegendreCounter::new(1_000);
    for x in [99_991u64, 1_048_576, 4_999_999, 7_777_777] {
        assert_eq!(lehmer.pi(x), legendre.pi(x), "{x}");
    }
}

#[test]
fn lehmer_counts_small_values_whatever_the_lookup_limit() {
    for limit in [0usize, 1, 2, 3, 7] {
        let mut counter = LehmerCounter::new(limit);
        assert_eq!(counter.pi(3), 2, "{limit}");
        assert_eq!(counter.pi(8), 4, "{limit}");
        assert_eq!(counter.pi(9), 4, "{limit}");
        assert_eq!(counter.pi(100), 25, "{limit}");
    }
}
