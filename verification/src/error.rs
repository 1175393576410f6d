//! The structural errors of circuit assembly.

use vstd::prelude::*;

verus! {

/// What can go wrong while a circuit is assembled or its stores are read.
/// Each of these is a mistake of the caller, found before any number is
/// computed.
#[derive(Clone, Copy, Debug, PartialEq, Eq, Structural)]
pub enum CircuitError {
    /// A matrix coordinate was written or read that no component reserved
    /// when it was placed.
    UnreservedCoordinate { row: u32, col: u32 },
    /// A component was placed on another number of nodes than its type has terminals.
    TerminalCountMismatch { expected: usize, found: usize },
    /// A store was accessed as holding another component type than it holds.
    TypeMismatch { stored: u64, requested: u64 },
}

} // verus!
