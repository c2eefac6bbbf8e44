//! A lazy, memory-bounded prime generator.
//!
//! Primes come out one at a time, on demand, from an incremental sieve: a
//! map records, for each prime found so far, the next composite number that
//! prime will mark, and the map is advanced lazily as candidates are
//! consumed. Memory grows with the number of primes produced, not with the
//! magnitude of the bound.

mod laws;
mod primality;
mod sieve;

pub use laws::is_sieve_run;
pub use laws::lemma_run_contains_prime;
pub use laws::lemma_run_increasing;
pub use laws::lemma_run_push;
pub use laws::lemma_bounded_run_exact;
pub use laws::lemma_run_lists_primes_in_order;
pub use laws::run_start;
pub use primality::divides;
pub use primality::is_first_prime_from;
pub use primality::is_prime;
pub use sieve::bounded;
pub use sieve::infinite;
pub use sieve::Sieve;
pub use sieve::CANDIDATE_LIMIT;
