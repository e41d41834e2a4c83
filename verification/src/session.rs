//! Signaling client and session builder.
//!
//! Rendezvous happens through a room-addressed service whose protocol is
//! opaque here: the transport hands the client the set of peer identities it
//! has resolved so far. Gameplay is blocked — retried every tick, never
//! fatally — until exactly the required number of peers is gathered; then the
//! session is built once, with stable handles assigned in join order and the
//! locally owned handle recorded explicitly on the session.

use vstd::prelude::*;
use crate::SyncError;

verus! {

/// No two identities in the sequence are equal.
pub open spec fn peers_distinct(s: Seq<u64>) -> bool {
    forall|i: int, j: int| 0 <= i < j < s.len() ==> s[i] != s[j]
}

/// Whether the sequence holds the identity.
pub open spec fn peers_have(s: Seq<u64>, id: u64) -> bool {
    exists|i: int| 0 <= i < s.len() && s[i] == id
}

/// The position (the player handle) of an identity.
pub open spec fn peer_handle_of(s: Seq<u64>, id: u64) -> int {
    choose|i: int| 0 <= i < s.len() && s[i] == id
}

/// With distinct identities, any position holding the identity is the
/// handle.
pub proof fn lemma_peer_handle_of(s: Seq<u64>, id: u64, i: int)
    requires
        peers_distinct(s),
        0 <= i < s.len(),
        s[i] == id,
    ensures
        peers_have(s, id),
        peer_handle_of(s, id) == i,
{
    assert(peers_have(s, id));
    let j = peer_handle_of(s, id);
    if i < j {
        assert(s[i] != s[j]);
    }
    if j < i {
        assert(s[j] != s[i]);
    }
}

/// The signaling client: the peer identities resolved so far for the room,
/// in join order, and how many a session requires.
pub struct SignalingClient {
    required: usize,
    peers: Vec<u64>,
}

impl SignalingClient {
    /// How many peers a session requires.
    pub closed spec fn required_spec(&self) -> nat {
        self.required as nat
    }

    /// The identities resolved so far, in join order.
    pub closed spec fn peers_view(&self) -> Seq<u64> {
        self.peers@
    }

    /// A client for a room that requires exactly `required` players.
    pub fn new(required: usize) -> (c: SignalingClient)
        requires
            required >= 1,
        ensures
            c.required_spec() == required,
            c.peers_view() =~= Seq::<u64>::empty(),
    {
        SignalingClient { required, peers: Vec::new() }
    }

    /// Record a newly resolved peer; an identity already gathered is not
    /// gathered twice.
    pub fn add_peer(&mut self, id: u64) -> (added: bool)
        ensures
            added == !peers_have(old(self).peers_view(), id),
            added ==> final(self).peers_view() =~= old(self).peers_view().push(id),
            !added ==> final(self).peers_view() == old(self).peers_view(),
            final(self).required_spec() == old(self).required_spec(),
    {
        let n = self.peers.len();
        for i in 0..n
            invariant
                n == self.peers@.len(),
                forall|k: int| 0 <= k < i ==> self.peers@[k] != id,
        {
            if self.peers[i] == id {
                return false;
            }
        }
        self.peers.push(id);
        true
    }

    /// Whether exactly the required number of peers is gathered: only then
    /// may the session be built; with fewer resolved, the session is never
    /// ready.
    pub fn is_ready(&self) -> (r: bool)
        ensures
            r == (self.peers_view().len() == self.required_spec()),
    {
        self.peers.len() == self.required
    }

    /// One non-blocking poll of the rendezvous: with no channel to the
    /// service yet, the retryable `SignalingUnavailable` is reported (the
    /// caller's loop absorbs it and tries again next tick); otherwise whether
    /// the session is ready to be built.
    pub fn poll_ready(&self, channel_open: bool) -> (r: Result<bool, SyncError>)
        ensures
            channel_open ==> r == Ok::<bool, SyncError>(
                self.peers_view().len() == self.required_spec(),
            ),
            !channel_open ==> r == Err::<bool, SyncError>(SyncError::SignalingUnavailable),
    {
        if !channel_open {
            Err(SyncError::SignalingUnavailable)
        } else {
            Ok(self.is_ready())
        }
    }

    /// A copy of the gathered identities, in join order.
    pub fn peers(&self) -> (r: Vec<u64>)
        ensures
            r@ == self.peers_view(),
    {
        let mut r: Vec<u64> = Vec::new();
        let n = self.peers.len();
        for i in 0..n
            invariant
                n == self.peers@.len(),
                r@ =~= self.peers@.subrange(0, i as int),
        {
            r.push(self.peers[i]);
        }
        proof {
            assert(r@ =~= self.peers@);
        }
        r
    }
}

/// A synchronized peer-to-peer session: stable player handles `0..N-1` in
/// join order, the locally owned handle resolved once at session start, the
/// fixed input delay, and the confirmed-frame counter the frame driver
/// maintains.
pub struct PeerSession {
    /// Handle `h` drives the peer with identity `identities[h]`.
    pub identities: Vec<u64>,
    /// The handles owned by this machine.
    pub local_handles: Vec<usize>,
    /// Frames of artificial lag before a local sample is used.
    pub input_delay: u32,
    /// Every handle's input is confirmed for all frames below this counter.
    pub confirmed_frame: u32,
}

/// Build the session once every peer is resolved. Fails fatally — before any
/// gameplay — with `SessionStartFailed` when the peer count is wrong or the
/// local identity is not among the peers, and with `PeerAddFailed` when two
/// peers carry one identity, so that a handle cannot be registered.
pub fn build_session(peers: &Vec<u64>, required: usize, local_id: u64, input_delay: u32) -> (r:
    Result<PeerSession, SyncError>)
    ensures
        match r {
            Ok(s) => {
                &&& peers@.len() == required
                &&& peers_distinct(peers@)
                &&& peers_have(peers@, local_id)
                &&& s.identities@ == peers@
                &&& s.local_handles@ =~= seq![peer_handle_of(peers@, local_id) as usize]
                &&& s.input_delay == input_delay
                &&& s.confirmed_frame == 0
            },
            Err(e) => {
                &&& (e == SyncError::SessionStartFailed || e == SyncError::PeerAddFailed)
                &&& (e == SyncError::PeerAddFailed ==> !peers_distinct(peers@))
                &&& (e == SyncError::SessionStartFailed ==> peers@.len() != required || (
                peers_distinct(peers@) && !peers_have(peers@, local_id)))
            },
        },
        r is Ok <==> (peers@.len() == required && peers_distinct(peers@) && peers_have(
            peers@,
            local_id,
        )),
{
    let n = peers.len();
    if n != required {
        return Err(SyncError::SessionStartFailed);
    }
    for i in 0..n
        invariant
            n == peers@.len(),
            forall|a: int, b: int| 0 <= a < b < peers@.len() && a < i ==> peers@[a] != peers@[b],
    {
        for j in (i + 1)..n
            invariant
                n == peers@.len(),
                i < n,
                forall|a: int, b: int| 0 <= a < b < peers@.len() && a < i ==> peers@[a]
                    != peers@[b],
                forall|b: int| i < b < j ==> peers@[i as int] != peers@[b],
        {
            if peers[i] == peers[j] {
                return Err(SyncError::PeerAddFailed);
            }
        }
    }
    let mut local_handle: usize = 0;
    let mut found = false;
    for i in 0..n
        invariant
            n == peers@.len(),
            peers_distinct(peers@),
            !found ==> forall|k: int| 0 <= k < i ==> peers@[k] != local_id,
            found ==> local_handle < peers@.len() && peers@[local_handle as int] == local_id,
    {
        if !found && peers[i] == local_id {
            local_handle = i;
            found = true;
        }
    }
    if !found {
        return Err(SyncError::SessionStartFailed);
    }
    proof {
        lemma_peer_handle_of(peers@, local_id, local_handle as int);
    }
    let identities = crate::session::dup_ids(peers);
    let mut local_handles: Vec<usize> = Vec::new();
    local_handles.push(local_handle);
    Ok(PeerSession { identities, local_handles, input_delay, confirmed_frame: 0 })
}

/// Copy a vector of identities.
pub fn dup_ids(v: &Vec<u64>) -> (r: Vec<u64>)
    ensures
        r@ == v@,
{
    let mut r: Vec<u64> = Vec::new();
    let n = v.len();
    for i in 0..n
        invariant
            n == v@.len(),
            r@ =~= v@.subrange(0, i as int),
    {
        r.push(v[i]);
    }
    proof {
        assert(r@ =~= v@);
    }
    r
}

} // verus!
