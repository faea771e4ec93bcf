//! Prime counting: exact integer roots, a sieve-backed prime table, the
//! partial sieve function `phi`, and two counters of primes up to `x`
//! (Legendre's and Meissel-Lehmer's formulas), with a search for the
//! `n`-th prime on top of them.

use vstd::prelude::*;

pub mod command;
pub mod command_laws;
pub mod counter;
pub mod legendre;
pub mod lehmer;
pub mod lehmer_identity;
pub mod nth_prime;
pub mod phi;
pub mod phi_table;
pub mod prime_table;
pub mod primes;
pub mod roots;

pub use lehmer::LehmerCounter as DefaultCounter;
