//! Why an operation of the engine gives no result.

use vstd::prelude::*;

verus! {

/// Why an operation gave no result. Either way the input is at fault, and
/// the same call would fail again.
#[derive(Debug, Clone, Copy, PartialEq, Eq, Structural)]
pub enum EngineError {
    /// The number of dice asked for is zero or above the limit.
    InvalidArgument,
    /// A reroll was asked for and no die shows a one.
    NoRerollTarget,
}

} // verus!
