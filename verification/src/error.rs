//! The ways in which building or advancing a chain can fail.

use vstd::prelude::*;

verus! {

/// A fault reported by the simulation.
#[derive(Clone, Copy, Debug, PartialEq, Eq, Structural)]
pub enum SimError {
    /// A chain was asked for without any link.
    InvalidChain,
    /// An arm length was zero or negative.
    InvalidLength,
    /// A value left the range that the fixed-point numbers can hold.
    NonFinite,
}

} // verus!
