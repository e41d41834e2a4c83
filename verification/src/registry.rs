//! Rollback state registry.
//!
//! Entities enroll the fields that must survive a rollback; `snapshot` copies
//! the current values of every registered entity into a bounded ring indexed
//! by frame number, and `restore` overwrites the live values from a retained
//! slot. Only registered state participates: an entity that was despawned is
//! neither written by a later snapshot nor resurrected by a restore, and a
//! frame whose slot has been overwritten cyclically is no longer retained.

use vstd::prelude::*;
use crate::motion::EntityState;

verus! {

/// One registered entity: a stable rollback identity and its registered
/// fields.
#[derive(Clone, Copy, Debug, PartialEq, Eq, Structural)]
pub struct RegEntry {
    pub id: u64,
    pub state: EntityState,
}

/// One retained snapshot: the frame it was taken at and the copied entries.
struct FrameSnapshot {
    frame: u32,
    data: Vec<RegEntry>,
}

/// No two entries carry the same rollback identity.
pub open spec fn ids_unique(s: Seq<RegEntry>) -> bool {
    forall|i: int, j: int| 0 <= i < j < s.len() ==> s[i].id != s[j].id
}

/// Whether some entry carries the identity.
pub open spec fn has_id(s: Seq<RegEntry>, id: u64) -> bool {
    exists|i: int| 0 <= i < s.len() && s[i].id == id
}

/// The position of the entry carrying the identity.
pub open spec fn idx_of(s: Seq<RegEntry>, id: u64) -> int {
    choose|i: int| 0 <= i < s.len() && s[i].id == id
}

/// With unique identities, any position carrying the identity is the
/// position.
pub proof fn lemma_idx_of(s: Seq<RegEntry>, id: u64, i: int)
    requires
        ids_unique(s),
        0 <= i < s.len(),
        s[i].id == id,
    ensures
        has_id(s, id),
        idx_of(s, id) == i,
{
    assert(has_id(s, id));
    let j = idx_of(s, id);
    if i < j {
        assert(s[i].id != s[j].id);
    }
    if j < i {
        assert(s[j].id != s[i].id);
    }
}

/// The live entries after restoring from a snapshot: every live entity that
/// the snapshot covers takes its snapshotted state; entities registered after
/// the snapshot keep their live state; despawned entities in the snapshot are
/// not resurrected.
pub open spec fn spec_restore(live: Seq<RegEntry>, snap: Seq<RegEntry>) -> Seq<RegEntry> {
    Seq::new(
        live.len(),
        |i: int|
            if has_id(snap, live[i].id) {
                RegEntry { id: live[i].id, state: snap[idx_of(snap, live[i].id)].state }
            } else {
                live[i]
            },
    )
}

/// Registry idempotence: restoring a snapshot of the current entries leaves
/// every registered entity's state unchanged.
pub proof fn lemma_restore_of_snapshot(s: Seq<RegEntry>)
    requires
        ids_unique(s),
    ensures
        spec_restore(s, s) =~= s,
{
    assert forall|i: int| 0 <= i < s.len() implies spec_restore(s, s)[i] == s[i] by {
        lemma_idx_of(s, s[i].id, i);
    }
}

/// Restoring from a snapshot whose entries carry the same identities in the
/// same order replaces the live entries by the snapshot.
pub proof fn lemma_restore_same_ids(live: Seq<RegEntry>, snap: Seq<RegEntry>)
    requires
        ids_unique(snap),
        live.len() == snap.len(),
        forall|i: int| 0 <= i < live.len() ==> live[i].id == snap[i].id,
    ensures
        spec_restore(live, snap) =~= snap,
{
    assert forall|i: int| 0 <= i < live.len() implies spec_restore(live, snap)[i] == snap[i] by {
        lemma_idx_of(snap, live[i].id, i);
    }
}

/// Copy a vector of entries.
pub fn dup_entries(v: &Vec<RegEntry>) -> (r: Vec<RegEntry>)
    ensures
        r@ == v@,
{
    let mut r: Vec<RegEntry> = Vec::new();
    for i in 0..v.len()
        invariant
            r@ =~= v@.subrange(0, i as int),
    {
        r.push(v[i]);
    }
    proof {
        assert(r@ =~= v@);
    }
    r
}

/// Find the position of an identity by linear scan.
fn find_index(v: &Vec<RegEntry>, id: u64) -> (r: Option<usize>)
    ensures
        match r {
            Some(i) => i < v@.len() && v@[i as int].id == id,
            None => !has_id(v@, id),
        },
{
    for i in 0..v.len()
        invariant
            forall|k: int| 0 <= k < i ==> v@[k].id != id,
    {
        if v[i].id == id {
            return Some(i);
        }
    }
    None
}

/// The rollback state registry: the live registered entries and the bounded
/// ring of retained snapshots.
pub struct Registry {
    entries: Vec<RegEntry>,
    ring: Vec<Option<FrameSnapshot>>,
}

impl Registry {
    /// The live registered entries.
    pub closed spec fn entries_view(&self) -> Seq<RegEntry> {
        self.entries@
    }

    /// How many frames the snapshot ring retains at most.
    pub closed spec fn cap(&self) -> nat {
        self.ring@.len()
    }

    /// The entries retained for a frame, if its slot still holds that frame.
    pub closed spec fn slot(&self, f: u32) -> Option<Seq<RegEntry>> {
        match self.ring@[f as int % self.ring@.len() as int] {
            Some(s) => if s.frame == f {
                Some(s.data@)
            } else {
                None
            },
            None => None,
        }
    }

    /// Whether a snapshot for the frame is still retained.
    pub open spec fn retained(&self, f: u32) -> bool {
        self.slot(f) is Some
    }

    /// Well-formed: a positive ring capacity and unique identities, live and
    /// in every retained slot.
    pub closed spec fn wf(&self) -> bool {
        &&& self.ring@.len() >= 1
        &&& ids_unique(self.entries@)
        &&& forall|f: u32| #[trigger] self.retained(f) ==> ids_unique(self.slot(f).unwrap())
    }

    /// A well-formed registry holds unique identities, live and in every
    /// retained slot.
    pub proof fn lemma_wf_unique(&self)
        requires
            self.wf(),
        ensures
            ids_unique(self.entries_view()),
            forall|f: u32|
                #[trigger] self.retained(f) ==> ids_unique(self.slot(f).unwrap()),
    {
    }

    /// Well-formedness carries over to a registry with the same ring
    /// contents and unique live identities.
    proof fn lemma_wf_from_same_slots(a: &Registry, b: &Registry)
        requires
            a.wf(),
            b.ring@.len() == a.ring@.len(),
            ids_unique(b.entries@),
            forall|g: u32| b.slot(g) == a.slot(g),
        ensures
            b.wf(),
    {
        assert forall|g: u32| #[trigger] b.retained(g) implies ids_unique(b.slot(g).unwrap()) by {
            assert(b.slot(g) == a.slot(g));
            assert(a.retained(g));
        }
    }

    /// An empty registry whose ring retains up to `cap` frames.
    pub fn new(cap: usize) -> (r: Registry)
        requires
            cap >= 1,
        ensures
            r.wf(),
            r.entries_view() =~= Seq::<RegEntry>::empty(),
            r.cap() == cap,
            forall|f: u32| !r.retained(f),
    {
        let mut ring: Vec<Option<FrameSnapshot>> = Vec::new();
        for i in 0..cap
            invariant
                ring@.len() == i,
                forall|k: int| 0 <= k < i ==> ring@[k] is None,
        {
            ring.push(None);
        }
        Registry { entries: Vec::new(), ring }
    }

    /// How many entities are registered.
    pub fn count(&self) -> (n: usize)
        ensures
            n == self.entries_view().len(),
    {
        self.entries.len()
    }

    /// A copy of the live registered entries.
    pub fn contents(&self) -> (r: Vec<RegEntry>)
        ensures
            r@ == self.entries_view(),
    {
        dup_entries(&self.entries)
    }

    /// The registered state of an entity, if it is enrolled.
    pub fn state_of(&self, id: u64) -> (r: Option<EntityState>)
        requires
            self.wf(),
        ensures
            match r {
                Some(st) => has_id(self.entries_view(), id) && st == self.entries_view()[idx_of(
                    self.entries_view(),
                    id,
                )].state,
                None => !has_id(self.entries_view(), id),
            },
    {
        match find_index(&self.entries, id) {
            Some(i) => {
                proof {
                    lemma_idx_of(self.entries@, id, i as int);
                }
                Some(self.entries[i].state)
            },
            None => None,
        }
    }

    /// Enroll an entity; nothing changes when the identity is already
    /// registered.
    pub fn register(&mut self, id: u64, state: EntityState) -> (added: bool)
        requires
            old(self).wf(),
        ensures
            final(self).wf(),
            added == !has_id(old(self).entries_view(), id),
            added ==> final(self).entries_view() =~= old(self).entries_view().push(
                RegEntry { id, state },
            ),
            !added ==> final(self).entries_view() == old(self).entries_view(),
            final(self).cap() == old(self).cap(),
            forall|f: u32| final(self).slot(f) == old(self).slot(f),
    {
        match find_index(&self.entries, id) {
            Some(_) => false,
            None => {
                self.entries.push(RegEntry { id, state });
                proof {
                    assert(ids_unique(self.entries@));
                    Registry::lemma_wf_from_same_slots(old(self), self);
                }
                true
            },
        }
    }

    /// Drop an entity at despawn; nothing changes when the identity is not
    /// registered. Retained snapshots are left as they are: they simply no
    /// longer cover the identity on restore.
    pub fn unregister(&mut self, id: u64) -> (removed: bool)
        requires
            old(self).wf(),
        ensures
            final(self).wf(),
            removed == has_id(old(self).entries_view(), id),
            removed ==> final(self).entries_view() =~= old(self).entries_view().remove(
                idx_of(old(self).entries_view(), id),
            ),
            !removed ==> final(self).entries_view() == old(self).entries_view(),
            final(self).cap() == old(self).cap(),
            forall|f: u32| final(self).slot(f) == old(self).slot(f),
    {
        match find_index(&self.entries, id) {
            Some(i) => {
                proof {
                    lemma_idx_of(self.entries@, id, i as int);
                }
                self.entries.remove(i);
                proof {
                    assert(ids_unique(self.entries@));
                    Registry::lemma_wf_from_same_slots(old(self), self);
                }
                true
            },
            None => false,
        }
    }

    /// Overwrite the registered state of an enrolled entity.
    pub fn set_state(&mut self, id: u64, state: EntityState) -> (found: bool)
        requires
            old(self).wf(),
        ensures
            final(self).wf(),
            found == has_id(old(self).entries_view(), id),
            found ==> final(self).entries_view() =~= old(self).entries_view().update(
                idx_of(old(self).entries_view(), id),
                RegEntry { id, state },
            ),
            !found ==> final(self).entries_view() == old(self).entries_view(),
            final(self).cap() == old(self).cap(),
            forall|f: u32| final(self).slot(f) == old(self).slot(f),
    {
        match find_index(&self.entries, id) {
            Some(i) => {
                proof {
                    lemma_idx_of(self.entries@, id, i as int);
                }
                self.entries[i] = RegEntry { id, state };
                proof {
                    assert(ids_unique(self.entries@));
                    Registry::lemma_wf_from_same_slots(old(self), self);
                }
                true
            },
            None => false,
        }
    }

    /// Replace the live entries wholesale (used when rewinding to the state
    /// the session started from).
    pub fn load(&mut self, data: &Vec<RegEntry>)
        requires
            old(self).wf(),
            ids_unique(data@),
        ensures
            final(self).wf(),
            final(self).entries_view() == data@,
            final(self).cap() == old(self).cap(),
            forall|f: u32| final(self).slot(f) == old(self).slot(f),
    {
        self.entries = dup_entries(data);
        proof {
            Registry::lemma_wf_from_same_slots(old(self), self);
        }
    }

    /// Copy the current values of every registered entity into the frame's
    /// ring slot, overwriting cyclically whatever the slot held.
    pub fn snapshot(&mut self, f: u32)
        requires
            old(self).wf(),
        ensures
            final(self).wf(),
            final(self).entries_view() == old(self).entries_view(),
            final(self).cap() == old(self).cap(),
            final(self).slot(f) == Some(old(self).entries_view()),
            forall|g: u32|
                g != f ==> final(self).slot(g) == (if g as int % old(self).cap() as int == f as int
                    % old(self).cap() as int {
                    None
                } else {
                    old(self).slot(g)
                }),
    {
        let cap = self.ring.len();
        let idx = (f as usize) % cap;
        let data = dup_entries(&self.entries);
        self.ring[idx] = Some(FrameSnapshot { frame: f, data });
        proof {
            assert forall|g: u32| #[trigger]
                self.retained(g) implies ids_unique(self.slot(g).unwrap()) by {
                if g as int % self.ring@.len() as int == idx as int {
                    assert(self.slot(g).unwrap() == old(self).entries@);
                } else {
                    assert(self.slot(g) == old(self).slot(g));
                    assert(old(self).retained(g));
                }
            }
        }
    }

    /// Whether a snapshot for the frame is still retained.
    pub fn is_retained(&self, f: u32) -> (r: bool)
        requires
            self.wf(),
        ensures
            r == self.retained(f),
    {
        let cap = self.ring.len();
        let idx = (f as usize) % cap;
        match &self.ring[idx] {
            Some(s) => s.frame == f,
            None => false,
        }
    }

    /// Overwrite the live values of every entity the frame's retained slot
    /// covers; entities registered since keep their live state and entities
    /// despawned since are not resurrected. Fails (with no change) when the
    /// frame is no longer retained.
    pub fn restore(&mut self, f: u32) -> (ok: bool)
        requires
            old(self).wf(),
        ensures
            final(self).wf(),
            ok == old(self).retained(f),
            ok ==> final(self).entries_view() =~= spec_restore(
                old(self).entries_view(),
                old(self).slot(f).unwrap(),
            ),
            !ok ==> final(self).entries_view() == old(self).entries_view(),
            final(self).cap() == old(self).cap(),
            forall|g: u32| final(self).slot(g) == old(self).slot(g),
    {
        let cap = self.ring.len();
        let idx = (f as usize) % cap;
        let snap: Vec<RegEntry> = match &self.ring[idx] {
            Some(s) => {
                if s.frame == f {
                    dup_entries(&s.data)
                } else {
                    return false;
                }
            },
            None => {
                return false;
            },
        };
        let ghost orig = self.entries@;
        proof {
            assert(self.retained(f));
            assert(ids_unique(snap@));
        }
        let n = self.entries.len();
        for i in 0..n
            invariant
                self.entries@.len() == n,
                ids_unique(snap@),
                ids_unique(self.entries@),
                self.ring@.len() >= 1,
                self.ring@.len() == old(self).ring@.len(),
                orig.len() == n,
                forall|k: int| i <= k < n ==> self.entries@[k] == orig[k],
                forall|k: int| 0 <= k < i ==> self.entries@[k] == spec_restore(orig, snap@)[k],
                forall|g: u32| self.slot(g) == old(self).slot(g),
        {
            let id = self.entries[i].id;
            match find_index(&snap, id) {
                Some(j) => {
                    proof {
                        lemma_idx_of(snap@, id, j as int);
                    }
                    let st = snap[j].state;
                    self.entries[i] = RegEntry { id, state: st };
                    proof {
                        assert(ids_unique(self.entries@));
                    }
                },
                None => {},
            }
        }
        proof {
            assert(self.entries@ =~= spec_restore(orig, snap@));
            Registry::lemma_wf_from_same_slots(old(self), self);
        }
        true
    }
}

} // verus!
