//! A sieve of Eratosthenes and the lookup table built on it: the primes up
//! to a limit, in order, and the prime count of every number up to it.

use vstd::prelude::*;
use vstd::arithmetic::div_mod::lemma_fundamental_div_mod_converse;
use crate::primes::{
    kth_prime, lemma_prime_count_half, lemma_is_kth_prime, lemma_least_prime_factor, lemma_multiple_divides,
    lemma_prime_count_monotone, prime_count,
};
use crate::roots::{int_sqrt, isqrt, lemma_int_sqrt_le};

verus! {

/// `n` is at least two and has no divisor `d` in `[2, p)` with `d * d <= n`.
pub open spec fn survives_sieve(n: nat, p: nat) -> bool {
    n >= 2 && forall|d: nat| 2 <= d < p && d * d <= n ==> #[trigger] (n % d) != 0
}

/// Sieving by every `d` whose square is at most `n` leaves exactly the primes.
proof fn lemma_survivor_is_prime(n: nat, p: nat)
    requires
        (p * p) > n,
    ensures
        survives_sieve(n, p) <==> crate::primes::is_prime(n),
{
    if survives_sieve(n, p) && !crate::primes::is_prime(n) {
        let q = lemma_least_prime_factor(n);
        if q >= p {
            assert(q * q >= p * p) by (nonlinear_arith)
                requires
                    q >= p,
            ;
        }
        assert(n % q != 0);
    }
    if crate::primes::is_prime(n) {
        assert forall|d: nat| 2 <= d < p && d * d <= n implies #[trigger] (n % d) != 0 by {
            assert(d < d * d) by (nonlinear_arith)
                requires
                    d >= 2,
            ;
        }
    }
}

/// The numbers in `(m, m + p)` are not multiples of `p` when `m` is.
proof fn lemma_between_multiples(n: nat, m: nat, p: nat)
    requires
        p >= 1,
        m % p == 0,
        m < n < m + p,
    ensures
        n % p != 0,
{
    let q = m / p;
    vstd::arithmetic::div_mod::lemma_fundamental_div_mod(m as int, p as int);
    assert(n == q * p + (n - m)) by (nonlinear_arith)
        requires
            m == p * q,
    ;
    lemma_fundamental_div_mod_converse(n as int, p as int, q as int, (n - m) as int);
}

/// `is_prime[n]` tells whether `n` is prime, for every `n <= limit`.
pub fn sieve(limit: usize) -> (is_prime: Vec<bool>)
    requires
        limit >= 1,
        limit as nat + int_sqrt(limit as nat) + 1 <= usize::MAX,
    ensures
        is_prime.len() == limit + 1,
        forall|n: int| 0 <= n <= limit ==> #[trigger] is_prime@[n] == crate::primes::is_prime(n as nat),
{
    let mut is_prime = vec![true; limit + 1];
    is_prime.set(0, false);
    is_prime.set(1, false);
    let root = isqrt(limit as u64);
    proof {
        assert(root <= limit) by (nonlinear_arith)
            requires
                root * root <= limit,
        ;
        if root == 0 {
            assert((root + 1) * (root + 1) == 1) by (nonlinear_arith)
                requires
                    root == 0,
            ;
        }
        assert forall|n: int| 0 <= n <= limit implies #[trigger] is_prime@[n] == survives_sieve(
            n as nat,
            2,
        ) by {}
    }
    let root = root as usize;
    let mut p: usize = 2;
    while p <= root
        invariant
            2 <= p <= root + 1,
            root * root <= limit,
            root <= limit,
            root < 0x1_0000_0000,
            limit + root + 1 <= usize::MAX,
            is_prime.len() == limit + 1,
            forall|n: int| 0 <= n <= limit ==> #[trigger] is_prime@[n] == survives_sieve(n as nat, p as nat),
        decreases root + 1 - p,
    {
        proof {
            assert(p * p <= root * root) by (nonlinear_arith)
                requires
                    p <= root,
            ;
        }
        if is_prime[p] {
            let mut multiple = p * p;
            proof {
                lemma_multiple_divides(multiple as nat, p as nat, p as nat);
            }
            while multiple <= limit
                invariant
                    2 <= p <= root,
                    root * root <= limit,
                    root < 0x1_0000_0000,
                    limit + root + 1 <= usize::MAX,
                    p * p <= multiple,
                    multiple % p == 0,
                    multiple <= limit + p,
                    is_prime.len() == limit + 1,
                    forall|n: int|
                        0 <= n <= limit ==> #[trigger] is_prime@[n] == (survives_sieve(n as nat, p as nat)
                            && !(p * p <= n < multiple && n % (p as int) == 0)),
                decreases limit + p - multiple,
            {
                is_prime.set(multiple, false);
                let ghost old_multiple = multiple;
                proof {
                    assert forall|n: int| old_multiple < n < old_multiple + p implies #[trigger] (n % (p as int)) != 0 by {
                        lemma_between_multiples(n as nat, old_multiple as nat, p as nat);
                    }
                    crate::primes::lemma_divides_product(multiple as nat, p as nat);
                    assert((multiple + p) as nat == ((multiple / p + 1) as nat) * (p as nat)) by (nonlinear_arith)
                        requires
                            multiple == (multiple / p) * p,
                    ;
                    lemma_multiple_divides((multiple + p) as nat, p as nat, (multiple / p + 1) as nat);
                }
                multiple += p;
            }
            proof {
                assert forall|n: int| 0 <= n <= limit implies #[trigger] is_prime@[n] == survives_sieve(
                    n as nat,
                    (p + 1) as nat,
                ) by {
                    if p * p <= n && n % (p as int) == 0 {
                        assert(!survives_sieve(n as nat, (p + 1) as nat));
                    }
                }
            }
        } else {
            proof {
                assert(is_prime@[p as int] == survives_sieve(p as nat, p as nat));
                assert(!survives_sieve(p as nat, p as nat));
                let d = choose|d: nat| 2 <= d < p && d * d <= p && #[trigger] ((p as nat) % d) == 0;
                assert forall|n: int| 0 <= n <= limit implies #[trigger] is_prime@[n] == survives_sieve(
                    n as nat,
                    (p + 1) as nat,
                ) by {
                    if survives_sieve(n as nat, p as nat) && p * p <= n && n % (p as int) == 0 {
                        crate::primes::lemma_divides_transitive(d, p as nat, n as nat);
                        assert(d * d <= n) by (nonlinear_arith)
                            requires
                                d * d <= p,
                                p * p <= n,
                                p >= 2,
                        ;
                        assert((n as nat) % d != 0);
                    }
                }
            }
        }
        p += 1;
    }
    proof {
        assert forall|n: int| 0 <= n <= limit implies #[trigger] is_prime@[n] == crate::primes::is_prime(n as nat) by {
            lemma_survivor_is_prime(n as nat, p as nat);
        }
    }
    is_prime
}

/// The primes up to a limit, in increasing order, and the prime count of
/// every number up to that limit.
pub struct PrimeTable {
    pub primes: Vec<u64>,
    pub pi: Vec<u32>,
}

impl PrimeTable {
    /// The largest number the table describes.
    pub open spec fn limit(&self) -> nat {
        (self.pi.len() - 1) as nat
    }

    /// `primes` holds every prime up to `limit()` in order, and `pi[n]` is
    /// the prime count of `n`.
    pub open spec fn wf(&self) -> bool {
        &&& self.pi.len() >= 3
        &&& forall|n: int| 0 <= n < self.pi.len() ==> #[trigger] self.pi@[n] == prime_count(n as nat)
        &&& self.primes.len() == prime_count(self.limit())
        &&& forall|k: int|
            0 <= k < self.primes.len() ==> #[trigger] self.primes@[k] == kth_prime(k as nat)
                && crate::primes::is_prime(self.primes@[k] as nat) && prime_count(self.primes@[k] as nat) == k + 1
    }

    /// Builds the table for `max(limit, 2)`.
    pub fn new(limit: usize) -> (table: Self)
        requires
            limit as nat + int_sqrt(limit as nat) + 1 <= usize::MAX,
            prime_count(limit as nat) <= u32::MAX,
        ensures
            table.wf(),
            table.limit() == if limit < 2 {
                2
            } else {
                limit as nat
            },
    {
        let limit = if limit < 2 {
            2
        } else {
            limit
        };
        proof {
            reveal_with_fuel(prime_count, 3);
            assert(crate::primes::is_prime(2));
            lemma_prime_count_monotone(2, limit as nat);
            lemma_int_sqrt_le(2);
        }
        let is_prime = sieve(limit);
        let mut primes: Vec<u64> = Vec::new();
        let mut pi = vec![0u32; limit + 1];
        let mut count: u32 = 0;
        let mut n: usize = 2;
        proof {
            assert(prime_count(0) == 0);
            assert(!crate::primes::is_prime(1));
            assert(prime_count(1) == 0);
        }
        while n <= limit
            invariant
                2 <= n <= limit + 1,
                limit < usize::MAX,
                prime_count(limit as nat) <= u32::MAX,
                is_prime.len() == limit + 1,
                forall|m: int| 0 <= m <= limit ==> #[trigger] is_prime@[m] == crate::primes::is_prime(m as nat),
                pi.len() == limit + 1,
                count == prime_count((n - 1) as nat),
                forall|m: int| 0 <= m < n ==> #[trigger] pi@[m] == prime_count(m as nat),
                primes.len() == count,
                forall|k: int|
                    0 <= k < primes.len() ==> crate::primes::is_prime(#[trigger] primes@[k] as nat) && prime_count(
                        primes@[k] as nat,
                    ) == k + 1,
            decreases limit + 1 - n,
        {
            if is_prime[n] {
                proof {
                    lemma_prime_count_monotone(n as nat, limit as nat);
                }
                count += 1;
                primes.push(n as u64);
            }
            pi.set(n, count);
            n += 1;
        }
        let table = PrimeTable { primes, pi };
        proof {
            assert forall|k: int| 0 <= k < table.primes.len() implies #[trigger] table.primes@[k]
                == kth_prime(k as nat) by {
                lemma_is_kth_prime(table.primes@[k] as nat, k as nat);
            }
        }
        table
    }
}

/// A well-formed table whose counts fit a `u32`, on a machine where a
/// `usize` holds any `u64`.
pub open spec fn table_fits(table: &PrimeTable) -> bool {
    &&& table.wf()
    &&& prime_count(table.limit()) <= u32::MAX
    &&& usize::MAX == u64::MAX
}

/// The limit a table grows to for a `limit` beyond it: `limit`, or twice
/// the table's limit when that is larger.
pub open spec fn grown_limit(table: &PrimeTable, limit: usize) -> nat {
    if limit > 2 * table.limit() {
        limit as nat
    } else {
        2 * table.limit()
    }
}

/// Growing `table` for `limit`, when it must grow, stays within the
/// machine: twice its limit fits a `usize`, the grown table can be sieved,
/// and its counts fit a `u32`.
pub open spec fn growth_fits(table: &PrimeTable, limit: usize) -> bool {
    limit >= table.pi.len() ==> {
        &&& 2 * table.limit() <= usize::MAX
        &&& grown_limit(table, limit) + int_sqrt(grown_limit(table, limit)) + 1 <= usize::MAX
        &&& prime_count(grown_limit(table, limit)) <= u32::MAX
    }
}

/// A table can always grow to cover a limit of at most `2^32`.
pub proof fn lemma_growth_fits(table: &PrimeTable, limit: usize)
    requires
        table_fits(table),
        limit <= 0x1_0000_0000,
    ensures
        growth_fits(table, limit),
{
    let grown = grown_limit(table, limit);
    lemma_prime_count_half(grown);
    lemma_int_sqrt_le(grown);
}

/// Replaces `table` by a table covering `limit` when it does not already,
/// growing it at least twofold.
pub fn grow_table(table: &mut PrimeTable, limit: usize) -> (grew: bool)
    requires
        table_fits(old(table)),
        growth_fits(old(table), limit),
    ensures
        table_fits(final(table)),
        limit < final(table).pi.len(),
        final(table).limit() >= old(table).limit(),
        grew == (limit >= old(table).pi.len()),
        !grew ==> *final(table) == *old(table),
        grew ==> final(table).limit() == grown_limit(old(table), limit),
{
    if limit < table.pi.len() {
        return false;
    }
    let current = table.pi.len() - 1;
    let doubled = current * 2;
    let new_limit = if limit > doubled {
        limit
    } else {
        doubled
    };
    *table = PrimeTable::new(new_limit);
    true
}

} // verus!
