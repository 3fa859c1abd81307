//! The error classes of the library.

use vstd::prelude::*;

verus! {

/// A decomposition that cannot be set up. Detected once, at startup.
#[derive(Debug, Clone, Copy, PartialEq, Eq, Structural)]
pub enum ConfigError {
    /// The process count is not positive, or the rank is not one of its ranks.
    BadProcessCount,
    /// The request has no dimension, a side below zero, or not as many sides
    /// as dimensions.
    UnsupportedShape,
    /// The requested sides cannot be the sides of a grid that holds exactly
    /// the processes.
    ShapeMismatch,
    /// The grid side is not a multiple of the process grid along some axis.
    NotDivisible,
    /// The grid is too large for its cells to be counted on this machine.
    TooLarge,
}

/// Two processes disagree about the exchange they are in.
#[derive(Debug, Clone, Copy, PartialEq, Eq, Structural)]
pub enum CommunicationError {
    /// The peer of the exchange is not a rank of the process group.
    UnknownRank,
    /// The coordinator answered with a negative acknowledgment.
    Rejected,
    /// What arrived does not fit the exchange that was pending.
    Desynchronized,
}

} // verus!
