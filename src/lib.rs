//! A bounded prime oracle: an odd-only sieve of Eratosthenes with primality
//! queries, a double-ended iterator over the stored primes, and trial-division
//! factorisation with a provable completeness boundary.
pub mod arith;
pub mod sieve;

pub use sieve::{Factors, PrimeIterator, Primes};
