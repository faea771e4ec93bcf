//! Legendre's prime counter: `pi(x) = phi(x, a) + a - 1` with `a = pi(sqrt(x))`.

use std::collections::HashMap;
use vstd::prelude::*;
use crate::counter::PrimeCounter;
use crate::phi::{
    lemma_legendre, lemma_phi_antitone, lemma_phi_identity, lemma_phi_monotone,
    lemma_phi_positive, lemma_phi_recurrence, lemma_phi_saturated, phi, small_primes_within,
};
use crate::phi_table::PhiTable;
use crate::prime_table::{
    grow_table, grown_limit, growth_fits, lemma_growth_fits, table_fits, PrimeTable,
};
use crate::primes::{
    is_prime, kth_prime, lemma_prime_count_half, lemma_prime_count_monotone,
    lemma_prime_le_iff_count_le, prime_count,
};
use crate::roots::{int_sqrt, isqrt};

verus! {

broadcast use vstd::std_specs::hash::group_hash_axioms;

/// Counts primes with Legendre's formula, a prime table for small
/// arguments, and a cache of computed counts.
pub struct LegendreCounter {
    table: PrimeTable,
    phi_table: PhiTable,
    pi_cache: HashMap<u64, u64>,
}

impl LegendreCounter {
    /// The largest number the counter's prime table covers; counts up to it are lookups.
    pub closed spec fn table_limit(&self) -> nat {
        self.table.limit()
    }

    /// The prime counts cached so far, by argument.
    pub closed spec fn cached_counts(&self) -> Map<u64, u64> {
        self.pi_cache@
    }

    /// A counter whose prime table covers `max(lookup_limit, 2)`.
    pub fn new(lookup_limit: usize) -> (counter: Self)
        requires
            lookup_limit as nat + int_sqrt(lookup_limit as nat) + 1 <= usize::MAX,
            prime_count(lookup_limit as nat) <= u32::MAX,
            usize::MAX == u64::MAX,
        ensures
            counter.wf(),
            counter.cached_counts() == Map::<u64, u64>::empty(),
            counter.table_limit() == if lookup_limit < 2 {
                2
            } else {
                lookup_limit as nat
            },
    {
        proof {
            reveal_with_fuel(prime_count, 3);
        }
        Self { table: PrimeTable::new(lookup_limit), phi_table: PhiTable::new(), pi_cache: HashMap::new() }
    }

    fn legendre_pi(&mut self, x: u64) -> (count: u64)
        requires
            old(self).wf(),
        ensures
            final(self).wf(),
            final(self).table.limit() >= old(self).table.limit(),
            count == prime_count(x as nat),
        decreases x,
    {
        if x < self.table.pi.len() as u64 {
            return self.table.pi[x as usize] as u64;
        }
        match self.pi_cache.get(&x) {
            Some(cached) => {
                return *cached;
            },
            None => {},
        }
        let root = isqrt(x);
        proof {
            assert(root < x) by (nonlinear_arith)
                requires
                    root * root <= x,
                    x >= 3,
            ;
            lemma_growth_fits(&self.table, (root + 1) as usize);
        }
        self.ensure_table(root as usize + 1);
        let a = self.legendre_pi(root) as usize;
        proof {
            let t = self.table;
            lemma_prime_count_monotone(root as nat, t.limit());
            lemma_prime_count_monotone(root as nat, x as nat);
            assert forall|q: nat| #[trigger] is_prime(q) && q * q <= x implies prime_count(q)
                <= a by {
                if q > root {
                    assert(q * q >= (root + 1) * (root + 1)) by (nonlinear_arith)
                        requires
                            q >= root + 1,
                    ;
                }
                lemma_prime_le_iff_count_le(q, root as nat);
            }
            assert(small_primes_within(x as nat, a as nat));
            lemma_legendre(x as nat, a as nat);
            lemma_prime_count_half(x as nat);
        }
        let result = self.phi(x, a) + a as u64 - 1;
        self.pi_cache.insert(x, result);
        result
    }

    fn phi(&mut self, x: u64, a: usize) -> (count: u64)
        requires
            old(self).wf(),
            a <= old(self).table.primes.len(),
        ensures
            *final(self) == *old(self),
            count == phi(x as nat, a as nat),
        decreases a, 1nat,
    {
        if a <= self.phi_table.depth {
            return self.phi_table.get(x, a);
        }
        self.phi_compute(x, a)
    }

    fn phi_compute(&mut self, x: u64, a: usize) -> (count: u64)
        requires
            old(self).wf(),
            a <= old(self).table.primes.len(),
        ensures
            *final(self) == *old(self),
            count == phi(x as nat, a as nat),
        decreases a, 0nat,
    {
        let ghost start = *self;
        let mut count = x;
        proof {
            lemma_phi_identity(x as nat);
        }
        let mut k: usize = 0;
        while k < a
            invariant
                *self == start,
                start == *old(self),
                start.wf(),
                a <= start.table.primes.len(),
                k <= a,
                count == phi(x as nat, k as nat),
            decreases a - k,
        {
            let p = self.table.primes[k];
            let quotient = x / p;
            proof {
                assert(start.table.wf());
                assert(start.table.primes@[k as int] == p);
                assert(is_prime(p as nat) && prime_count(p as nat) == k + 1);
                lemma_phi_recurrence(x as nat, (k + 1) as nat, p as nat);
            }
            if quotient == 0 {
                proof {
                    vstd::arithmetic::div_mod::lemma_fundamental_div_mod(x as int, p as int);
                    lemma_prime_le_iff_count_le(p as nat, x as nat);
                    lemma_phi_saturated(x as nat, k as nat, a as nat);
                }
                return count;
            }
            let removed = self.phi(quotient, k);
            if removed == 1 {
                count -= 1;
                let mut l: usize = k + 1;
                while l < a
                    invariant
                        *self == start,
                        start == *old(self),
                        start.wf(),
                        a <= start.table.primes.len(),
                        k < l <= a,
                        p == kth_prime(k as nat),
                        phi((x / p) as nat, k as nat) == 1,
                        count == phi(x as nat, l as nat),
                    decreases a - l,
                {
                    let q = self.table.primes[l];
                    proof {
                        assert(start.table.wf());
                        assert(start.table.primes@[l as int] == q);
                        assert(is_prime(q as nat) && prime_count(q as nat) == l + 1);
                        assert(start.table.primes@[k as int] == p);
                        assert(is_prime(p as nat) && prime_count(p as nat) == k + 1);
                    }
                    if q > x {
                        proof {
                            lemma_prime_le_iff_count_le(q as nat, x as nat);
                            lemma_phi_saturated(x as nat, l as nat, a as nat);
                        }
                        return count;
                    }
                    proof {
                        let y = (x / p) as nat;
                        let z = (x / q) as nat;
                        lemma_phi_recurrence(x as nat, (l + 1) as nat, q as nat);
                        lemma_prime_le_iff_count_le(p as nat, q as nat);
                        vstd::arithmetic::div_mod::lemma_div_is_ordered_by_denominator(
                            x as int,
                            p as int,
                            q as int,
                        );
                        vstd::arithmetic::div_mod::lemma_div_is_ordered(q as int, x as int, q as int);
                        vstd::arithmetic::div_mod::lemma_div_by_self(q as int);
                        lemma_phi_positive(z, l as nat);
                        lemma_phi_monotone(z, y, l as nat);
                        lemma_phi_antitone(y, k as nat, l as nat);
                    }
                    count -= 1;
                    l += 1;
                }
                return count;
            }
            count -= removed;
            k += 1;
        }
        count
    }

    fn ensure_table(&mut self, limit: usize)
        requires
            old(self).wf(),
            growth_fits(&old(self).table, limit),
        ensures
            final(self).wf(),
            limit < final(self).table.pi.len(),
            final(self).table.limit() >= old(self).table.limit(),
            limit < old(self).table.pi.len() ==> *final(self) == *old(self),
            limit >= old(self).table.pi.len() ==> {
                &&& final(self).table.limit() == grown_limit(&old(self).table, limit)
                &&& final(self).pi_cache@ == Map::<u64, u64>::empty()
                &&& final(self).phi_table == old(self).phi_table
            },
    {
        if grow_table(&mut self.table, limit) {
            self.pi_cache.clear();
        }
    }
}

impl PrimeCounter for LegendreCounter {
    closed spec fn wf(&self) -> bool {
        &&& table_fits(&self.table)
        &&& self.phi_table.wf()
        &&& forall|k: u64| #[trigger]
            self.pi_cache@.contains_key(k) ==> self.pi_cache@[k] == prime_count(k as nat)
    }

    /// Every answer is the prime count.
    open spec fn answer(&self, x: u64) -> u64 {
        prime_count(x as nat) as u64
    }

    fn pi(&mut self, x: u64) -> (count: u64)
        ensures
            count == prime_count(x as nat),
            final(self).table_limit() >= old(self).table_limit(),
    {
        self.legendre_pi(x)
    }
}

} // verus!
