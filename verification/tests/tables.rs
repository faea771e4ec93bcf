use billionprimes::phi_table::PhiTable;
use billionprimes::prime_table::{grow_table, sieve, PrimeTable};
use billionprimes::roots::{iroot, isqrt, pow_leq};

#[test]
fn prime_count_builds_prime_count_table() {
    let table = PrimeTable::new(20);

    assert_eq!(table.primes, vec![2, 3, 5, 7, 11, 13, 17, 19]);
    assert_eq!(table.pi[0], 0);
    assert_eq!(table.pi[1], 0);
    assert_eq!(table.pi[2], 1);
    assert_eq!(table.pi[3], 2);
    assert_eq!(table.pi[4], 2);
    assert_eq!(table.pi[20], 8);
}

#[test]
fn mod_builds_prime_count_table() {
    let table = PrimeTable::new(20);

    assert_eq!(table.primes, vec![2, 3, 5, 7, 11, 13, 17, 19]);
    assert_eq!(table.pi[0], 0);
    assert_eq!(table.pi[1], 0);
    assert_eq!(table.pi[2], 1);
    assert_eq!(table.pi[3], 2);
    assert_eq!(table.pi[4], 2);
    assert_eq!(table.pi[20], 8);
}

#[test]
fn prime_count_computes_roots_exactly() {
    assert_eq!(isqrt(0), 0);
    assert_eq!(isqrt(1), 1);
    assert_eq!(isqrt(2), 1);
    assert_eq!(isqrt(3), 1);
    assert_eq!(isqrt(4), 2);
    assert_eq!(isqrt(15), 3);
    assert_eq!(isqrt(16), 4);
    assert_eq!(isqrt(17), 4);
    assert_eq!(iroot(27, 3), 3);
    assert_eq!(iroot(28, 3), 3);
}

#[test]
fn mod_computes_roots_exactly() {
    assert_eq!(isqrt(0), 0);
    assert_eq!(isqrt(1), 1);
    assert_eq!(isqrt(2), 1);
    assert_eq!(isqrt(3), 1);
    assert_eq!(isqrt(4), 2);
    assert_eq!(isqrt(15), 3);
    assert_eq!(isqrt(16), 4);
    assert_eq!(isqrt(17), 4);
    assert_eq!(iroot(27, 3), 3);
    assert_eq!(iroot(28, 3), 3);
}

#[test]
fn roots_at_the_top_of_the_range() {
    assert_eq!(isqrt(u64::MAX), 4_294_967_295);
    assert_eq!(iroot(u64::MAX, 3), 2_642_245);
    assert_eq!(iroot(u64::MAX, 4), 65_535);
    assert_eq!(iroot(u64::MAX, 1), u64::MAX);
    assert_eq!(iroot(80, 4), 2);
    assert_eq!(iroot(81, 4), 3);
    assert_eq!(isqrt(999_999_999_999), 999_999);
}

#[test]
fn pow_leq_checks_without_overflow() {
    assert!(pow_leq(3, 4, 81));
    assert!(!pow_leq(3, 4, 80));
    assert!(!pow_leq(u64::MAX, 2, u64::MAX));
    assert!(pow_leq(0, 5, 0));
    assert!(pow_leq(7, 0, 0));
    assert!(pow_leq(4_294_967_295, 2, u64::MAX));
    assert!(!pow_leq(4_294_967_296, 2, u64::MAX));
}

#[test]
fn sieve_marks_primes() {
    let marks = sieve(30);
    let primes: Vec<usize> = (0..=30).filter(|&n| marks[n]).collect();
    assert_eq!(primes, vec![2, 3, 5, 7, 11, 13, 17, 19, 23, 29]);
    assert_eq!(sieve(1), vec![false, false]);
}

#[test]
fn small_limits_build_a_table_to_two() {
    let table = PrimeTable::new(0);
    assert_eq!(table.primes, vec![2]);
    assert_eq!(table.pi, vec![0, 0, 1]);
}

#[test]
fn phi_table_uses_the_wheel() {
    let table = PhiTable::new();
    assert_eq!(table.get(100, 0), 100);
    assert_eq!(table.get(100, 1), 50);
    assert_eq!(table.get(100, 2), 33);
    assert_eq!(table.get(30_030, 6), 5_760);
    assert_eq!(table.get(60_061, 6), 2 * 5_760 + 1);
    assert_eq!(table.get(1_000_000, 6), 191_808);
    // Legendre's recurrence: phi(100, 2) = phi(100, 1) - phi(100 / 3, 1).
    assert_eq!(table.get(100, 2), table.get(100, 1) - table.get(100 / 3, 1));
}

#[test]
fn tables_grow_at_least_twofold() {
    let mut table = PrimeTable::new(10);
    assert!(!grow_table(&mut table, 10));
    assert_eq!(table.pi.len(), 11);
    assert!(grow_table(&mut table, 11));
    assert_eq!(table.pi.len(), 21);
    assert_eq!(table.primes, vec![2, 3, 5, 7, 11, 13, 17, 19]);
    assert!(grow_table(&mut table, 100));
    assert_eq!(table.pi.len(), 101);
    assert_eq!(table.pi[100], 25);
}
