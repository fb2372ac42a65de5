//! Greatest common divisors of unsigned 64-bit integers: Euclid's reduction
//! on a pair, its left fold over a sequence, and the decimal reading of the
//! command-line arguments that feed it.

pub mod args;
pub mod error;
pub mod gcd;
