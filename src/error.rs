use vstd::prelude::*;

verus! {

/// Why a list of command-line arguments has no greatest common divisor.
#[derive(Debug, Clone, Copy, PartialEq, Eq, Structural)]
pub enum UsageError {
    /// No number was given.
    NoArguments,
    /// The argument at `index` is not the decimal form of a 64-bit unsigned integer.
    InvalidNumber { index: usize },
    /// Every number given is zero, so no positive divisor is greatest.
    AllZero,
}

} // verus!
