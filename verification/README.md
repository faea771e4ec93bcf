# billionprimes

Counting primes up to `x` and finding the `n`-th prime, verified with Verus.

- `src/roots.rs`: exact integer roots (`iroot`, `isqrt`) and `pow_leq`.
- `src/primes.rs`: primality, the prime count `prime_count(n)`, the `k`-th prime,
  Euclid's lemma and the other divisibility facts used below.
- `src/phi.rs`: Legendre's partial sieve function `phi(x, a)`, its recurrence and
  Legendre's formula `pi(x) = phi(x, a) + a - 1`.
- `src/prime_table.rs`: the sieve of Eratosthenes and the prime/count table.
- `src/phi_table.rs`: `phi(x, a)` for the first six primes by periodicity.
- `src/lehmer_identity.rs`: the Meissel-Lehmer formula and the per-step facts behind it.
- `src/legendre.rs`, `src/lehmer.rs`: the two prime counters behind the
  `PrimeCounter` trait of `src/counter.rs`; both return exactly `prime_count(x)`.
- `src/nth_prime.rs`: the `n`-th prime from any estimate, by bracketing and binary search;
  the search is stated for any counter whose answers stay fixed, and pinned to the
  `n`-th prime for counters that count primes.
- `src/command.rs`: the command line.
- `app/main.rs`: the program: argument and output handling, timing, and the
  floating-point estimate of `li^-1(n)` that seeds the search.
