//! Incrementally cached prime generation, primality and factorization over `u64`.
//!
//! The library keeps one prime cache per caller-chosen scope: a value of
//! [`GlobalPrimes`] that the caller owns and lends to each query.

mod cache;
mod laws;
mod primality;
mod queries;
mod sequence;
mod wheel;

pub use cache::{reachable_primes, GlobalPrimes};
pub use laws::{
    lemma_is_prime_iff_listed, lemma_nth_prime_is_walk_value, lemma_primes_upto_is_trial_sieve,
    trial_sieve,
};
pub use primality::{nondecreasing, prime, primes_below, product};
pub use queries::{clear_prime_cache, factorize, is_prime, nth_prime};
pub use sequence::{count_upto, primes, primes_upto, Primes, PrimesUpto};
pub use wheel::{CANDIDATE_LIMIT, WHEEL_MODULUS, WHEEL_PRIMES};
