//! The Meissel-Lehmer prime counter:
//! `pi(x) = phi(x, a) + (b + a - 2)(b - a + 1)/2 - sum_{a <= i < b} pi(x / p_i)
//!          - sum_{a <= i < c} sum_{i <= j < pi(sqrt(x / p_i))} (pi(x / p_i / p_j) - j)`
//! with `a = pi(x^(1/4))`, `b = pi(x^(1/2))`, `c = pi(x^(1/3))`, counting primes
//! from `p_0 = 2`.

use std::collections::HashMap;
use vstd::prelude::*;
use vstd::arithmetic::div_mod::lemma_fundamental_div_mod_converse;
use crate::counter::PrimeCounter;
use crate::lehmer_identity::{
    lehmer_roots, lemma_inner_step, lemma_int_sqrt_monotone, lemma_offset_bounded,
    lemma_offset_closing, lemma_offset_step, lemma_outer_step, lemma_roots_ordered,
    lemma_small_powers, lemma_triangle_product,
};
use crate::phi::{
    lemma_legendre, lemma_phi_antitone, lemma_phi_identity, lemma_phi_recurrence, phi,
};
use crate::phi_table::{lemma_first_six_primes, PhiTable};
use crate::prime_table::{
    grow_table, grown_limit, growth_fits, lemma_growth_fits, table_fits, PrimeTable,
};
use crate::primes::{
    is_prime, kth_prime, lemma_prime_count_half, lemma_prime_count_monotone,
    lemma_prime_le_iff_count_le, prime_count,
};
use crate::roots::{int_sqrt, iroot, isqrt, lemma_int_sqrt_le};

verus! {

broadcast use vstd::std_specs::hash::group_hash_axioms;

/// Counts primes with the Meissel-Lehmer formula, a prime table for small
/// arguments, and caches of computed prime counts and `phi` values.
pub struct LehmerCounter {
    table: PrimeTable,
    phi_table: PhiTable,
    phi_cache: HashMap<u128, u64>,
    pi_cache: HashMap<u64, u64>,
}

/// The key under which `phi(x, a)` is cached: `a * 2^64 + x`.
pub open spec fn phi_cache_key(x: u64, a: usize) -> u128 {
    (a as int * 0x1_0000_0000_0000_0000 + x as int) as u128
}

/// Distinct arguments have distinct cache keys.
proof fn lemma_phi_cache_key_injective(x: u64, a: usize, y: u64, b: usize)
    requires
        phi_cache_key(x, a) == phi_cache_key(y, b),
    ensures
        x == y && a == b,
{
    let m: int = 0x1_0000_0000_0000_0000;
    assert(a as int * m + x as int <= u128::MAX) by (nonlinear_arith)
        requires
            a <= u64::MAX,
            x <= u64::MAX,
            m == 0x1_0000_0000_0000_0000,
    ;
    assert(b as int * m + y as int <= u128::MAX) by (nonlinear_arith)
        requires
            b <= u64::MAX,
            y <= u64::MAX,
            m == 0x1_0000_0000_0000_0000,
    ;
    let k = a as int * m + x as int;
    lemma_fundamental_div_mod_converse(k, m, a as int, x as int);
    lemma_fundamental_div_mod_converse(k, m, b as int, y as int);
}

/// The cache key of `(x, a)`.
fn cache_key(x: u64, a: usize) -> (key: u128)
    ensures
        key == phi_cache_key(x, a),
{
    proof {
        assert(a as int * 0x1_0000_0000_0000_0000 + x as int <= u128::MAX) by (nonlinear_arith)
            requires
                a <= u64::MAX,
                x <= u64::MAX,
        ;
    }
    (a as u128) * 0x1_0000_0000_0000_0000 + x as u128
}

impl LehmerCounter {
    /// The largest number the counter's prime table covers; counts up to it are lookups.
    pub closed spec fn table_limit(&self) -> nat {
        self.table.limit()
    }

    /// The prime counts cached so far, by argument.
    pub closed spec fn cached_counts(&self) -> Map<u64, u64> {
        self.pi_cache@
    }

    /// The `phi` values cached so far, by `phi_cache_key`.
    pub closed spec fn cached_phi(&self) -> Map<u128, u64> {
        self.phi_cache@
    }

    /// A counter whose prime table covers `max(lookup_limit, 8)`, so that
    /// every count below 9, which the formula cannot reach, is a lookup.
    pub fn new(lookup_limit: usize) -> (counter: Self)
        requires
            lookup_limit as nat + int_sqrt(lookup_limit as nat) + 1 <= usize::MAX,
            prime_count(lookup_limit as nat) <= u32::MAX,
            usize::MAX == u64::MAX,
        ensures
            counter.wf(),
            counter.cached_counts() == Map::<u64, u64>::empty(),
            counter.cached_phi() == Map::<u128, u64>::empty(),
            counter.table_limit() == if lookup_limit < 8 {
                8
            } else {
                lookup_limit as nat
            },
    {
        let limit = if lookup_limit < 8 {
            8
        } else {
            lookup_limit
        };
        proof {
            lemma_prime_count_half(8);
            lemma_int_sqrt_le(8);
        }
        Self {
            table: PrimeTable::new(limit),
            phi_table: PhiTable::new(),
            phi_cache: HashMap::new(),
            pi_cache: HashMap::new(),
        }
    }

    fn lehmer_pi(&mut self, x: u64) -> (count: u64)
        requires
            old(self).wf(),
        ensures
            final(self).wf(),
            final(self).table.limit() >= old(self).table.limit(),
            count == prime_count(x as nat),
        decreases x,
    {
        if x < self.table.pi.len() as u64 {
            return self.table.pi[x as usize] as u64;
        }
        match self.pi_cache.get(&x) {
            Some(cached) => {
                return *cached;
            },
            None => {},
        }
        let ghost start_limit = self.table.limit();
        let r2 = isqrt(x);
        proof {
            lemma_growth_fits(&self.table, (r2 + 1) as usize);
        }
        self.ensure_table(r2 as usize + 1);
        let r4 = iroot(x, 4);
        let r3 = iroot(x, 3);
        proof {
            lemma_roots_ordered(x as nat, r2 as nat, r3 as nat, r4 as nat);
            assert(r2 < x) by (nonlinear_arith)
                requires
                    r2 * r2 <= x,
                    x >= 9,
            ;
        }
        let a = self.lehmer_pi(r4);
        let b = self.lehmer_pi(r2);
        let c = self.lehmer_pi(r3);
        let ghost x_n = x as nat;
        proof {
            lemma_prime_count_monotone(r4 as nat, r3 as nat);
            lemma_prime_count_monotone(r3 as nat, r2 as nat);
            lemma_prime_count_monotone(r2 as nat, self.table.limit());
            lemma_prime_count_half(r2 as nat);
            lemma_first_six_primes();
            lemma_small_powers(r2 as nat);
            lemma_small_powers((r2 + 1) as nat);
            lemma_small_powers((r4 + 1) as nat);
            if r2 < 3 {
                assert((r2 + 1) * (r2 + 1) <= 9) by (nonlinear_arith)
                    requires
                        r2 < 3,
                ;
            }
            lemma_prime_count_monotone(3, r2 as nat);
        }
        let a = a as usize;
        let b = b as usize;
        let c = c as usize;
        let ghost u: nat = (b + a - 2) as nat;
        let ghost v: nat = (b - a + 1) as nat;
        proof {
            lemma_triangle_product(u, v, b as nat);
            assert(b * b <= x) by (nonlinear_arith)
                requires
                    b <= r2,
                    r2 * r2 <= x,
            ;
        }
        let head = self.phi(x, a);
        let product = (b as u64 + a as u64 - 2) * (b - a + 1) as u64;
        let t = product / 2;
        proof {
            assert(2 * t == u * v);
            if a == 0 {
                lemma_phi_identity(x_n);
                if r4 >= 2 {
                    lemma_prime_le_iff_count_le(2, r4 as nat);
                }
                assert((r4 + 1) * (r4 + 1) * (r4 + 1) * (r4 + 1) <= 16) by (nonlinear_arith)
                    requires
                        r4 <= 1,
                ;
                if r2 >= 4 {
                    assert(r2 * r2 >= 16) by (nonlinear_arith)
                        requires
                            r2 >= 4,
                    ;
                }
                lemma_prime_count_monotone(r2 as nat, 3);
                assert(u == 0);
            } else {
                lemma_phi_antitone(x_n, 1, a as nat);
                lemma_phi_identity(x_n);
                lemma_phi_identity(x_n / 2);
                lemma_phi_recurrence(x_n, 1, 2);
            }
        }
        let mut result = head + t;
        proof {
            // Legendre's formula at b: every prime with square at most x is among the first b.
            assert forall|q: nat| #[trigger] is_prime(q) && q * q <= x implies prime_count(q)
                <= b by {
                if q > r2 {
                    assert(q * q >= (r2 + 1) * (r2 + 1)) by (nonlinear_arith)
                        requires
                            q >= r2 + 1,
                    ;
                }
                lemma_prime_le_iff_count_le(q, r2 as nat);
            }
            lemma_prime_count_monotone(r2 as nat, x_n);
            lemma_legendre(x_n, b as nat);
        }
        let mut i = a;
        while i < b
            invariant
                self.wf(),
                self.table.limit() >= start_limit,
                self.table.limit() >= r2 + 1,
                x_n == x,
                x >= 9,
                lehmer_roots(x_n, r2 as nat, r3 as nat, r4 as nat),
                r2 == int_sqrt(x_n),
                r2 < x,
                a == prime_count(r4 as nat),
                b == prime_count(r2 as nat),
                c == prime_count(r3 as nat),
                b <= self.table.primes.len(),
                a <= c <= b,
                2 <= b,
                a <= i <= b,
                2 * t == (b + a - 2) * (b - a + 1),
                phi(x_n, b as nat) + b == prime_count(x_n) + 1,
                2 * result == 2 * phi(x_n, i as nat) + 2 * t - (i - a) * (a + i - 3),
            decreases b - i,
        {
            proof {
                lemma_prime_count_monotone(r2 as nat, self.table.limit());
            }
            let p = self.table.primes[i];
            let w = x / p;
            let ghost y = w as nat;
            let ghost next: int = phi(x_n, (i + 1) as nat) + t - (i + 1 - a) * (a + i - 2) / 2;
            proof {
                assert(self.table.wf());
                assert(self.table.primes@[i as int] == p);
                lemma_outer_step(x_n, r2 as nat, r3 as nat, r4 as nat, i as nat);
                lemma_offset_step(a as int, i as int);
                lemma_offset_bounded(a as int, (i + 1) as int, b as int);
                lemma_offset_closing(a as int, b as int, t as int);
                lemma_phi_antitone(x_n, (i + 1) as nat, b as nat);
                assert(2 * next == 2 * phi(x_n, (i + 1) as nat) + 2 * t - (i + 1 - a) * (a + i - 2));
                assert(next >= prime_count(x_n));
                assert(result as int == next + phi(y, i as nat) + i - 1);
                vstd::arithmetic::div_mod::lemma_div_is_strictly_smaller(x as int, p as int);
            }
            let count_w = self.lehmer_pi(w);
            result -= count_w;
            if i < c {
                let root_w = isqrt(w);
                proof {
                    assert(root_w <= w) by (nonlinear_arith)
                        requires
                            root_w * root_w <= w,
                    ;
                }
                let limit = self.lehmer_pi(root_w) as usize;
                proof {
                    lemma_int_sqrt_monotone(y, x_n);
                    lemma_prime_count_monotone(root_w as nat, r2 as nat);
                    lemma_prime_count_monotone(r2 as nat, self.table.limit());
                }
                let mut j = i;
                while j < limit
                    invariant
                        self.wf(),
                        self.table.limit() >= start_limit,
                        self.table.limit() >= r2 + 1,
                        x_n == x,
                        lehmer_roots(x_n, r2 as nat, r3 as nat, r4 as nat),
                        b == prime_count(r2 as nat),
                        b <= self.table.primes.len(),
                        a == prime_count(r4 as nat),
                        c == prime_count(r3 as nat),
                        a <= i < c,
                        p == kth_prime(i as nat),
                        y == x_n / p as nat,
                        w == y,
                        w < x,
                        root_w == int_sqrt(y),
                        limit == prime_count(root_w as nat),
                        i <= j <= limit,
                        limit <= b,
                        phi(y, limit as nat) + limit == prime_count(y) + 1,
                        next >= 0,
                        result as int == next + phi(y, j as nat) + j - 1 - prime_count(y),
                    decreases limit - j,
                {
                    let q = self.table.primes[j];
                    proof {
                        assert(self.table.wf());
                        assert(self.table.primes@[j as int] == q);
                        lemma_inner_step(x_n, r2 as nat, r3 as nat, r4 as nat, i as nat, j as nat);
                    }
                    let count_z = self.lehmer_pi(w / q);
                    proof {
                        lemma_prime_count_monotone(r2 as nat, self.table.limit());
                    }
                    result -= count_z - j as u64;
                    j += 1;
                }
            }
            proof {
                assert(result as int == next);
                lemma_prime_count_monotone(r2 as nat, self.table.limit());
            }
            i += 1;
        }
        proof {
            lemma_offset_closing(a as int, b as int, t as int);
        }
        self.pi_cache.insert(x, result);
        result
    }

    fn phi(&mut self, x: u64, a: usize) -> (count: u64)
        requires
            old(self).wf(),
            a <= old(self).table.primes.len(),
        ensures
            final(self).wf(),
            final(self).table == old(self).table,
            final(self).phi_table == old(self).phi_table,
            final(self).pi_cache == old(self).pi_cache,
            forall|k: u128| #[trigger]
                old(self).phi_cache@.contains_key(k) ==> final(self).phi_cache@.contains_key(k)
                    && final(self).phi_cache@[k] == old(self).phi_cache@[k],
            count == phi(x as nat, a as nat),
        decreases a,
    {
        if a <= self.phi_table.depth {
            return self.phi_table.get(x, a);
        }
        let key = cache_key(x, a);
        match self.phi_cache.get(&key) {
            Some(cached) => {
                return *cached;
            },
            None => {},
        }
        let ghost start_table = self.table;
        let mut result = self.phi_table.get(x, self.phi_table.depth);
        let mut i = self.phi_table.depth;
        while i < a
            invariant
                self.wf(),
                self.table == start_table,
                self.phi_table == old(self).phi_table,
                self.pi_cache == old(self).pi_cache,
                forall|k: u128| #[trigger]
                    old(self).phi_cache@.contains_key(k) ==> self.phi_cache@.contains_key(k)
                        && self.phi_cache@[k] == old(self).phi_cache@[k],
                a <= start_table.primes.len(),
                i <= a,
                result == phi(x as nat, i as nat),
            decreases a - i,
        {
            let p = self.table.primes[i];
            proof {
                assert(self.table.wf());
                assert(self.table.primes@[i as int] == p);
                lemma_phi_recurrence(x as nat, (i + 1) as nat, p as nat);
            }
            result -= self.phi(x / p, i);
            i += 1;
        }
        proof {
            assert forall|y: u64, b: usize| #[trigger]
                self.phi_cache@.insert(key, result).contains_key(phi_cache_key(y, b)) implies self.phi_cache@.insert(
                key,
                result,
            )[phi_cache_key(y, b)] == phi(y as nat, b as nat) by {
                if phi_cache_key(y, b) == key {
                    lemma_phi_cache_key_injective(y, b, x, a);
                }
            }
        }
        self.phi_cache.insert(key, result);
        result
    }

    fn ensure_table(&mut self, limit: usize)
        requires
            old(self).wf(),
            growth_fits(&old(self).table, limit),
        ensures
            final(self).wf(),
            limit < final(self).table.pi.len(),
            final(self).table.limit() >= old(self).table.limit(),
            limit < old(self).table.pi.len() ==> *final(self) == *old(self),
            limit >= old(self).table.pi.len() ==> {
                &&& final(self).table.limit() == grown_limit(&old(self).table, limit)
                &&& final(self).pi_cache@ == Map::<u64, u64>::empty()
                &&& final(self).phi_table == old(self).phi_table
                &&& final(self).phi_cache == old(self).phi_cache
            },
    {
        if grow_table(&mut self.table, limit) {
            self.pi_cache.clear();
        }
    }
}

impl PrimeCounter for LehmerCounter {
    closed spec fn wf(&self) -> bool {
        &&& table_fits(&self.table)
        &&& self.table.limit() >= 8
        &&& self.phi_table.wf()
        &&& forall|k: u64| #[trigger]
            self.pi_cache@.contains_key(k) ==> self.pi_cache@[k] == prime_count(k as nat)
        &&& forall|y: u64, b: usize| #[trigger]
            self.phi_cache@.contains_key(phi_cache_key(y, b)) ==> self.phi_cache@[phi_cache_key(
                y,
                b,
            )] == phi(y as nat, b as nat)
    }

    /// Every answer is the prime count.
    open spec fn answer(&self, x: u64) -> u64 {
        prime_count(x as nat) as u64
    }

    fn pi(&mut self, x: u64) -> (count: u64)
        ensures
            count == prime_count(x as nat),
            final(self).table_limit() >= old(self).table_limit(),
    {
        self.lehmer_pi(x)
    }
}

} // verus!
