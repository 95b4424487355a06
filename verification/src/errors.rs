//! Typed failure taxonomy of the membership core.

use vstd::prelude::*;

verus! {

/// Failures surfaced by the membership core.
#[derive(Clone, Copy, Debug, PartialEq, Eq, Structural)]
pub enum ArtilleryError {
    /// Invalid configuration (bad bind address, zero intervals).
    Config,
    /// Socket bind, registration, or unexpected read error.  Fatal.
    Io,
    /// Malformed inbound datagram.  Non-fatal: drop and continue.
    Decode,
    /// An I/O outcome that is neither would-block nor a recognized kind.
    Unexpected,
    /// An encoded datagram exceeds the network MTU even with an empty
    /// digest.  Fatal misconfiguration.
    Precondition,
}

} // verus!
