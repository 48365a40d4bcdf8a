use vstd::prelude::*;

verus! {

/// The ways an operation on the path subsystem can fail. None of them is
/// fatal to the connection.
#[derive(Debug, Clone, Copy, PartialEq, Eq, Structural)]
pub enum Error {
    /// The address is already registered.
    DuplicateAddress,
    /// A path already exists for this (peer, local) pair.
    DuplicateAddressPair,
    /// No path matches the address pair, the token or the identifier.
    NotFound,
    /// The presented token is not the path's outstanding challenge.
    ChallengeMismatch,
    /// The operation is not allowed on a closed path.
    InvalidState,
    /// There is no queued work.
    Done,
    /// The TLS engine reported a failure.
    TlsFail,
}

} // verus!
