//! Primes up to a fixed inclusive bound, produced by a verified odd-only
//! Sieve of Eratosthenes behind a one-shot, forward-only pull protocol.

pub mod generator;
pub mod primality;

pub use generator::PrimeGenerator;
pub use primality::{candidate, divides, is_prime};
