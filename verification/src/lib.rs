//! Prime support analysis.
//!
//! The library computes the set of primes up to a bound with a verified
//! sieve of Eratosthenes, renders each prime as a parenthesized label
//! standing for the prime ideal it generates, and classifies whether the
//! resulting support is closed in the Zariski topology on Spec(Z) by a
//! fixed decision table.

pub mod labels;
pub mod primes;
pub mod support;
