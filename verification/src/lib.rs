//! Peer-to-peer rollback synchronization.
//!
//! Keeps two (or more) independently running simulations in lockstep over an
//! unreliable, variable-latency link: local input is sampled into a
//! fixed-layout wire record, missing remote input is predicted by repeating
//! the last confirmed record, and when a correction arrives the frame driver
//! rewinds to a retained snapshot and deterministically resimulates the
//! affected frames.
//!
//! Rendering, audio, asset handling and the transport itself are collaborators
//! outside this crate; the state the library manages is held as plain
//! fixed-point values so that every peer computes bit-identical results.

use vstd::prelude::*;

pub mod driver;
pub mod fx;
pub mod input;
pub mod motion;
pub mod registry;
pub mod session;
pub mod wire;

verus! {

/// Failure kinds of the synchronization layer.
///
/// Only `PeerAddFailed`, `SessionStartFailed` and `RollbackOverrun` are fatal;
/// `SignalingUnavailable` is retried every tick and `MalformedRecord` leaves
/// the offending frame unconfirmed, to be predicted instead.
#[derive(Clone, Copy, Debug, PartialEq, Eq, Structural)]
pub enum SyncError {
    /// The rendezvous service is not reachable yet; retryable.
    SignalingUnavailable,
    /// A resolved peer could not be assigned a player handle.
    PeerAddFailed,
    /// The synchronized session could not be constructed.
    SessionStartFailed,
    /// A wire record with an invalid layout or length was rejected.
    MalformedRecord,
    /// A rollback needed a snapshot no longer retained; the match must end.
    RollbackOverrun,
}

} // verus!
