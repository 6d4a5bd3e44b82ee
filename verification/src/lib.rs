//! Prime enumeration up to an inclusive bound, by the Sieve of Eratosthenes
//! and by trial division, together with a formatter that lays the primes out
//! in fixed-width rows.

pub mod primes;
pub mod render;
