//! Frame driver and rollback scheduler.
//!
//! The driver is a state machine over the frame index, starting at 0, with no
//! terminal state except session end. Each tick it gathers the local records,
//! resolves every handle's currently-believed record — confirmed where one
//! has arrived, otherwise the last confirmed record repeated — steps every
//! bound entity once, snapshots the registry, and moves on. When a remote
//! record for a past frame arrives and differs from what was believed there,
//! the driver restores the retained snapshot preceding that frame and
//! deterministically resimulates up to the current frame, overwriting the
//! affected snapshots as it proceeds. The whole advance is captured by the
//! spec-level `run_between`, so that what the live registry holds after any
//! sequence of advances and rollbacks equals a from-scratch simulation of the
//! currently-believed input log.
//!
//! Side effects that are not registered in the registry (one-shot audio,
//! transient visual effects) are outside the replayed state on purpose: they
//! may repeat or vanish under a rollback, an accepted limitation of the
//! design, not something the scheduler patches over.

use vstd::prelude::*;
use crate::wire::{InputRecord, spec_encode, encode, spec_decode, decode};
use crate::input::{DeviceState, spec_sample, sample_record};
use crate::motion::{
    spec_apply_record, apply_record, same_payload, payload_eq, lemma_apply_payload,
};
use crate::registry::{
    Registry, RegEntry, ids_unique, has_id, idx_of, lemma_restore_same_ids,
};
use crate::session::PeerSession;
use crate::SyncError;

verus! {

/// The record believed before anything was confirmed: no action, no basis.
pub open spec fn default_record() -> InputRecord {
    InputRecord {
        frame: 0,
        handle: 0,
        bits: 0,
        basis_fwd_x: 0,
        basis_fwd_z: 0,
        basis_right_x: 0,
        basis_right_z: 0,
    }
}

/// The record believed before anything was confirmed.
pub fn make_default_record() -> (r: InputRecord)
    ensures
        r == default_record(),
{
    InputRecord {
        frame: 0,
        handle: 0,
        bits: 0,
        basis_fwd_x: 0,
        basis_fwd_z: 0,
        basis_right_x: 0,
        basis_right_z: 0,
    }
}

/// The record believed for a frame given one handle's confirmed prefix:
/// the confirmed record where the prefix covers the frame, otherwise the
/// last confirmed record repeated (the prediction policy), otherwise the
/// default record.
pub open spec fn believed_one(s: Seq<InputRecord>, f: int) -> InputRecord {
    if 0 <= f < s.len() {
        s[f]
    } else if s.len() > 0 {
        s[s.len() - 1]
    } else {
        default_record()
    }
}

/// The record believed for handle `h` at frame `f` under a log of confirmed
/// prefixes.
pub open spec fn believed(log: Seq<Seq<InputRecord>>, h: int, f: int) -> InputRecord {
    if 0 <= h < log.len() {
        believed_one(log[h], f)
    } else {
        default_record()
    }
}

/// The records believed for every handle at one frame.
pub open spec fn frame_recs(log: Seq<Seq<InputRecord>>, n: int, f: int) -> Seq<InputRecord> {
    Seq::new(n as nat, |h: int| believed(log, h, f))
}

/// Step the entity bound to `id` by a record; entries without the identity
/// are left as they are.
pub open spec fn step_bound(entries: Seq<RegEntry>, id: u64, rec: InputRecord) -> Seq<RegEntry> {
    if has_id(entries, id) {
        let i = idx_of(entries, id);
        entries.update(i, RegEntry { id, state: spec_apply_record(entries[i].state, rec) })
    } else {
        entries
    }
}

/// Advance one frame for the first `k` handles: each handle's believed
/// record steps the entity its binding names, in handle order.
pub open spec fn advance_recs(
    entries: Seq<RegEntry>,
    binding: Seq<u64>,
    recs: Seq<InputRecord>,
    k: int,
) -> Seq<RegEntry>
    decreases k,
{
    if k <= 0 {
        entries
    } else {
        step_bound(
            advance_recs(entries, binding, recs, k - 1),
            binding[k - 1],
            recs[k - 1],
        )
    }
}

/// The registry contents after simulating frames `from .. to` from `entries`
/// under the believed log: the reference every state the driver ever exposes
/// is proved equal to.
pub open spec fn run_between(
    entries: Seq<RegEntry>,
    binding: Seq<u64>,
    log: Seq<Seq<InputRecord>>,
    from: int,
    to: int,
) -> Seq<RegEntry>
    decreases to - from,
{
    if to <= from {
        entries
    } else {
        advance_recs(
            run_between(entries, binding, log, from, to - 1),
            binding,
            frame_recs(log, binding.len() as int, to - 1),
            binding.len() as int,
        )
    }
}

/// Stepping one bound entity keeps the length and every identity in place.
pub proof fn lemma_step_bound_ids(entries: Seq<RegEntry>, id: u64, rec: InputRecord)
    ensures
        step_bound(entries, id, rec).len() == entries.len(),
        forall|i: int|
            0 <= i < entries.len() ==> #[trigger] step_bound(entries, id, rec)[i].id
                == entries[i].id,
{
    if has_id(entries, id) {
        let i = idx_of(entries, id);
        assert(0 <= i < entries.len() && entries[i].id == id);
    }
}

/// Advancing a frame keeps the length and every identity in place.
pub proof fn lemma_advance_recs_ids(
    entries: Seq<RegEntry>,
    binding: Seq<u64>,
    recs: Seq<InputRecord>,
    k: int,
)
    ensures
        advance_recs(entries, binding, recs, k).len() == entries.len(),
        forall|i: int|
            0 <= i < entries.len() ==> #[trigger] advance_recs(entries, binding, recs, k)[i].id
                == entries[i].id,
    decreases k,
{
    if k > 0 {
        lemma_advance_recs_ids(entries, binding, recs, k - 1);
        lemma_step_bound_ids(advance_recs(entries, binding, recs, k - 1), binding[k - 1], recs[k - 1]);
    }
}

/// A whole run keeps the length and every identity in place.
pub proof fn lemma_run_ids(
    entries: Seq<RegEntry>,
    binding: Seq<u64>,
    log: Seq<Seq<InputRecord>>,
    from: int,
    to: int,
)
    ensures
        run_between(entries, binding, log, from, to).len() == entries.len(),
        forall|i: int|
            0 <= i < entries.len() ==> #[trigger] run_between(entries, binding, log, from, to)[i].id
                == entries[i].id,
    decreases to - from,
{
    if to > from {
        lemma_run_ids(entries, binding, log, from, to - 1);
        lemma_advance_recs_ids(
            run_between(entries, binding, log, from, to - 1),
            binding,
            frame_recs(log, binding.len() as int, to - 1),
            binding.len() as int,
        );
    }
}

/// A run keeps identities unique.
pub proof fn lemma_run_unique(
    entries: Seq<RegEntry>,
    binding: Seq<u64>,
    log: Seq<Seq<InputRecord>>,
    from: int,
    to: int,
)
    requires
        ids_unique(entries),
    ensures
        ids_unique(run_between(entries, binding, log, from, to)),
{
    lemma_run_ids(entries, binding, log, from, to);
}

/// Two logs that agree on every believed record of the simulated range give
/// the same run. In particular, confirming a record that matches its
/// prediction, or appending records at or beyond the simulated range,
/// changes nothing already simulated.
pub proof fn lemma_run_agree(
    entries: Seq<RegEntry>,
    binding: Seq<u64>,
    log1: Seq<Seq<InputRecord>>,
    log2: Seq<Seq<InputRecord>>,
    from: int,
    to: int,
)
    requires
        forall|h: int, f: int|
            0 <= h < binding.len() && from <= f < to ==> believed(log1, h, f) == believed(
                log2,
                h,
                f,
            ),
    ensures
        run_between(entries, binding, log1, from, to) == run_between(
            entries,
            binding,
            log2,
            from,
            to,
        ),
    decreases to - from,
{
    if to > from {
        lemma_run_agree(entries, binding, log1, log2, from, to - 1);
        assert(frame_recs(log1, binding.len() as int, to - 1) =~= frame_recs(
            log2,
            binding.len() as int,
            to - 1,
        ));
    }
}

/// Rollback transparency: restoring the state a run had at frame `mid` and
/// replaying up to `to` yields exactly the state of the uninterrupted run —
/// simulating from scratch with the same records gives the same result.
pub proof fn lemma_rollback_transparency(
    entries: Seq<RegEntry>,
    binding: Seq<u64>,
    log: Seq<Seq<InputRecord>>,
    from: int,
    mid: int,
    to: int,
)
    requires
        from <= mid <= to,
    ensures
        run_between(
            run_between(entries, binding, log, from, mid),
            binding,
            log,
            mid,
            to,
        ) == run_between(entries, binding, log, from, to),
    decreases to - mid,
{
    if to > mid {
        lemma_rollback_transparency(entries, binding, log, from, mid, to - 1);
    }
}

/// Replay determinism: the run is a function of the initial entries, the
/// binding and the believed log alone — replaying an identical log from
/// identical initial contents produces identical final state.
pub proof fn lemma_replay_deterministic(
    entries1: Seq<RegEntry>,
    entries2: Seq<RegEntry>,
    binding1: Seq<u64>,
    binding2: Seq<u64>,
    log1: Seq<Seq<InputRecord>>,
    log2: Seq<Seq<InputRecord>>,
    from: int,
    to: int,
)
    requires
        entries1 =~= entries2,
        binding1 =~= binding2,
        log1 =~~= log2,
    ensures
        run_between(entries1, binding1, log1, from, to) == run_between(
            entries2,
            binding2,
            log2,
            from,
            to,
        ),
{
}

/// Stepping by records with the same payload gives the same entries.
proof fn lemma_step_bound_payload(
    entries: Seq<RegEntry>,
    id: u64,
    a: InputRecord,
    b: InputRecord,
)
    requires
        same_payload(a, b),
    ensures
        step_bound(entries, id, a) == step_bound(entries, id, b),
{
    if has_id(entries, id) {
        let i = idx_of(entries, id);
        lemma_apply_payload(entries[i].state, a, b);
    }
}

/// Advancing by record rows with pointwise equal payloads gives the same
/// entries.
proof fn lemma_advance_recs_payload(
    entries: Seq<RegEntry>,
    binding: Seq<u64>,
    recs1: Seq<InputRecord>,
    recs2: Seq<InputRecord>,
    k: int,
)
    requires
        forall|h: int| 0 <= h < k ==> same_payload(#[trigger] recs1[h], recs2[h]),
    ensures
        advance_recs(entries, binding, recs1, k) == advance_recs(entries, binding, recs2, k),
    decreases k,
{
    if k > 0 {
        lemma_advance_recs_payload(entries, binding, recs1, recs2, k - 1);
        lemma_step_bound_payload(
            advance_recs(entries, binding, recs1, k - 1),
            binding[k - 1],
            recs1[k - 1],
            recs2[k - 1],
        );
    }
}

/// Two logs whose believed records carry the same payload over the simulated
/// range give the same run: the frame and handle metadata of a record never
/// reaches the simulation.
pub proof fn lemma_run_agree_payload(
    entries: Seq<RegEntry>,
    binding: Seq<u64>,
    log1: Seq<Seq<InputRecord>>,
    log2: Seq<Seq<InputRecord>>,
    from: int,
    to: int,
)
    requires
        forall|h: int, f: int|
            0 <= h < binding.len() && from <= f < to ==> same_payload(
                #[trigger] believed(log1, h, f),
                believed(log2, h, f),
            ),
    ensures
        run_between(entries, binding, log1, from, to) == run_between(
            entries,
            binding,
            log2,
            from,
            to,
        ),
    decreases to - from,
{
    if to > from {
        lemma_run_agree_payload(entries, binding, log1, log2, from, to - 1);
        lemma_advance_recs_payload(
            run_between(entries, binding, log1, from, to - 1),
            binding,
            frame_recs(log1, binding.len() as int, to - 1),
            frame_recs(log2, binding.len() as int, to - 1),
            binding.len() as int,
        );
    }
}

/// Appending a record whose payload matches the prediction leaves the
/// payload of every believed record unchanged.
proof fn lemma_believed_push_payload(s: Seq<InputRecord>, rec: InputRecord, f: int)
    requires
        same_payload(rec, believed_one(s, s.len() as int)),
    ensures
        same_payload(believed_one(s.push(rec), f), believed_one(s, f)),
{
    if 0 <= f < s.len() {
    } else if s.len() == 0 {
        assert(s.push(rec)[0] == rec);
    } else {
        assert(s.push(rec)[s.len() as int] == rec);
    }
}

/// Appending a record to one handle's prefix leaves the believed record of
/// every already-covered frame unchanged.
pub proof fn lemma_believed_push_low(s: Seq<InputRecord>, rec: InputRecord, f: int)
    requires
        0 <= f < s.len(),
    ensures
        believed_one(s.push(rec), f) == believed_one(s, f),
{
}

/// The least confirmed-prefix length over all handles: every handle's input
/// is confirmed for all frames below it.
pub open spec fn min_confirmed(log: Seq<Seq<InputRecord>>) -> int
    decreases log.len(),
{
    if log.len() == 0 {
        0
    } else if log.len() == 1 {
        log[0].len() as int
    } else {
        let m = min_confirmed(log.drop_last());
        if (log.last().len() as int) < m {
            log.last().len() as int
        } else {
            m
        }
    }
}

/// The least prefix length is one of the lengths and below them all.
pub proof fn lemma_min_confirmed_bounds(log: Seq<Seq<InputRecord>>)
    requires
        log.len() >= 1,
    ensures
        forall|h: int| 0 <= h < log.len() ==> min_confirmed(log) <= #[trigger] log[h].len(),
        exists|h: int| 0 <= h < log.len() && min_confirmed(log) == #[trigger] log[h].len(),
    decreases log.len(),
{
    if log.len() == 1 {
        assert(min_confirmed(log) == log[0].len());
    } else {
        lemma_min_confirmed_bounds(log.drop_last());
        let d = log.drop_last();
        assert(forall|h: int| 0 <= h < d.len() ==> d[h] == log[h]);
        let m = min_confirmed(d);
        if (log.last().len() as int) < m {
            assert(min_confirmed(log) == log[log.len() - 1].len());
        } else {
            let h0 = choose|h: int| 0 <= h < d.len() && m == #[trigger] d[h].len();
            assert(min_confirmed(log) == log[h0].len());
        }
    }
}

/// How ingesting one remote record ended.
#[derive(Clone, Copy, Debug, PartialEq, Eq, Structural)]
pub enum IngestOutcome {
    /// The record was not usable (unknown or local handle, or not the next
    /// unconfirmed frame of its sender) and was dropped without effect.
    Ignored,
    /// The record confirmed a frame without contradicting what was believed;
    /// no resimulation was needed.
    Confirmed,
    /// The record contradicted a prediction of a past frame: the driver
    /// restored the preceding snapshot and resimulated up to the current
    /// frame.
    RolledBack,
}

/// The frame driver: the session, the registry of rollback state, the
/// handle-to-entity binding, every handle's confirmed input prefix, and the
/// frame index the next advance will simulate.
pub struct FrameDriver {
    session: PeerSession,
    registry: Registry,
    binding: Vec<u64>,
    log: Vec<Vec<InputRecord>>,
    frame: u32,
    initial: Vec<RegEntry>,
}

impl FrameDriver {
    /// The number of players in the session.
    pub closed spec fn players(&self) -> int {
        self.session.identities@.len() as int
    }

    /// The confirmed input prefixes, one per handle.
    pub closed spec fn log_view(&self) -> Seq<Seq<InputRecord>> {
        Seq::new(self.log@.len(), |h: int| self.log@[h]@)
    }

    /// The frame the next advance will simulate.
    pub closed spec fn frame_spec(&self) -> u32 {
        self.frame
    }

    /// The fixed input delay of the session.
    pub closed spec fn delay_spec(&self) -> u32 {
        self.session.input_delay
    }

    /// The confirmed-frame counter.
    pub closed spec fn confirmed_spec(&self) -> u32 {
        self.session.confirmed_frame
    }

    /// The live registered entries.
    pub closed spec fn entities(&self) -> Seq<RegEntry> {
        self.registry.entries_view()
    }

    /// The registry contents the session started from.
    pub closed spec fn initial_view(&self) -> Seq<RegEntry> {
        self.initial@
    }

    /// The handle-to-entity binding.
    pub closed spec fn binding_view(&self) -> Seq<u64> {
        self.binding@
    }

    /// The locally owned handles.
    pub closed spec fn locals_view(&self) -> Seq<usize> {
        self.session.local_handles@
    }

    /// Whether a handle is locally owned.
    pub open spec fn is_local(&self, h: int) -> bool {
        exists|i: int|
            0 <= i < self.locals_view().len() && #[trigger] self.locals_view()[i] as int == h
    }

    /// Whether the snapshot for a frame is still retained.
    pub closed spec fn retained(&self, f: u32) -> bool {
        self.registry.retained(f)
    }

    /// The driver's invariant. Beyond plain shape it states the two facts
    /// everything else rests on: the live registry equals the from-scratch
    /// run of the currently-believed log up to the current frame, and every
    /// retained snapshot equals the run up to the frame after its own.
    pub closed spec fn wf(&self) -> bool {
        &&& self.registry.wf()
        &&& 1 <= self.players() <= 255
        &&& self.binding@.len() == self.players()
        &&& self.log@.len() == self.players()
        &&& 1 <= self.locals_view().len()
        &&& forall|i: int|
            0 <= i < self.locals_view().len() ==> (#[trigger] self.locals_view()[i] as int)
                < self.players()
        &&& forall|i: int, j: int|
            0 <= i < j < self.locals_view().len() ==> self.locals_view()[i]
                != self.locals_view()[j]
        &&& forall|i: int|
            0 <= i < self.locals_view().len() ==> #[trigger] self.log_view()[self.locals_view()[i] as int].len()
                == self.frame as int + self.session.input_delay as int
        &&& self.frame as int + self.session.input_delay as int <= u32::MAX as int
        &&& ids_unique(self.initial@)
        &&& self.registry.entries_view() == run_between(
            self.initial@,
            self.binding@,
            self.log_view(),
            0,
            self.frame as int,
        )
        &&& forall|g: u32|
            #[trigger] self.registry.retained(g) ==> g < self.frame
                && self.registry.slot(g).unwrap() == run_between(
                self.initial@,
                self.binding@,
                self.log_view(),
                0,
                g as int + 1,
            )
        &&& self.session.confirmed_frame as int == min_confirmed(self.log_view())
    }

    /// The frame the next advance will simulate.
    pub fn current_frame(&self) -> (f: u32)
        ensures
            f == self.frame_spec(),
    {
        self.frame
    }

    /// The confirmed-frame counter: every handle's input is confirmed for
    /// all frames below it.
    pub fn confirmed_frame(&self) -> (f: u32)
        ensures
            f == self.confirmed_spec(),
    {
        self.session.confirmed_frame
    }

    /// The registered state of an entity, straight from the registry.
    pub fn state_of(&self, id: u64) -> (r: Option<crate::motion::EntityState>)
        requires
            self.wf(),
        ensures
            match r {
                Some(st) => has_id(self.entities(), id) && st == self.entities()[idx_of(
                    self.entities(),
                    id,
                )].state,
                None => !has_id(self.entities(), id),
            },
    {
        self.registry.state_of(id)
    }

    /// Start the driver at frame 0 over a freshly snapshotted registry.
    /// Every handle's prefix is seeded with `input_delay` default records —
    /// the frames no sample can reach are known in advance on every peer —
    /// so the first frames simulate identically everywhere without waiting.
    pub fn new(session: PeerSession, registry: Registry, binding: Vec<u64>) -> (d: FrameDriver)
        requires
            registry.wf(),
            forall|g: u32| !registry.retained(g),
            1 <= session.identities@.len() <= 255,
            binding@.len() == session.identities@.len(),
            1 <= session.local_handles@.len(),
            forall|i: int|
                0 <= i < session.local_handles@.len() ==> (
                #[trigger] session.local_handles@[i] as int) < session.identities@.len() as int,
            forall|i: int, j: int|
                0 <= i < j < session.local_handles@.len() ==> session.local_handles@[i]
                    != session.local_handles@[j],
        ensures
            d.wf(),
            d.frame_spec() == 0,
            d.delay_spec() == session.input_delay,
            d.entities() == registry.entries_view(),
            d.initial_view() == registry.entries_view(),
            d.binding_view() == binding@,
            d.locals_view() == session.local_handles@,
            d.players() == session.identities@.len(),
    {
        let n = session.identities.len();
        let delay = session.input_delay;
        let mut log: Vec<Vec<InputRecord>> = Vec::new();
        for h in 0..n
            invariant
                log@.len() == h,
                forall|k: int|
                    0 <= k < h ==> #[trigger] log@[k]@ =~= Seq::new(
                        delay as nat,
                        |x: int| default_record(),
                    ),
        {
            let mut prefix: Vec<InputRecord> = Vec::new();
            let mut i: u32 = 0;
            while i < delay
                invariant
                    i <= delay,
                    prefix@ =~= Seq::new(i as nat, |x: int| default_record()),
                decreases delay - i,
            {
                prefix.push(make_default_record());
                i = i + 1;
            }
            log.push(prefix);
        }
        let initial = registry.contents();
        let mut session = session;
        session.confirmed_frame = delay;
        let d = FrameDriver { session, registry, binding, log, frame: 0, initial };
        proof {
            d.registry.lemma_wf_unique();
            assert(d.log_view() =~~= Seq::new(
                n as nat,
                |h: int| Seq::new(delay as nat, |x: int| default_record()),
            ));
            lemma_min_confirmed_all_equal(d.log_view(), delay as int);
            assert(d.entities() == run_between(d.initial@, d.binding@, d.log_view(), 0, 0));
        }
        d
    }
}

/// When every prefix has the same length, that length is the minimum.
proof fn lemma_min_confirmed_all_equal(log: Seq<Seq<InputRecord>>, c: int)
    requires
        log.len() >= 1,
        forall|h: int| 0 <= h < log.len() ==> #[trigger] log[h].len() == c,
    ensures
        min_confirmed(log) == c,
    decreases log.len(),
{
    if log.len() == 1 {
    } else {
        let d = log.drop_last();
        assert(forall|h: int| 0 <= h < d.len() ==> #[trigger] d[h].len() == log[h].len());
        lemma_min_confirmed_all_equal(d, c);
    }
}

/// The least prefix length cannot shrink when no prefix shrinks.
proof fn lemma_min_confirmed_mono(log1: Seq<Seq<InputRecord>>, log2: Seq<Seq<InputRecord>>)
    requires
        log1.len() == log2.len(),
        log1.len() >= 1,
        forall|h: int| 0 <= h < log1.len() ==> #[trigger] log1[h].len() <= log2[h].len(),
    ensures
        min_confirmed(log1) <= min_confirmed(log2),
{
    lemma_min_confirmed_bounds(log1);
    lemma_min_confirmed_bounds(log2);
    let h2 = choose|h: int| 0 <= h < log2.len() && min_confirmed(log2) == #[trigger] log2[h].len();
    assert(min_confirmed(log1) <= log1[h2].len());
}

/// The least confirmed-prefix length over all handles.
fn recompute_confirmed(log: &Vec<Vec<InputRecord>>) -> (m: usize)
    requires
        log@.len() >= 1,
    ensures
        m as int == min_confirmed(Seq::new(log@.len(), |h: int| log@[h]@)),
{
    let ghost view = Seq::new(log@.len(), |h: int| log@[h]@);
    let n = log.len();
    let mut m: usize = log[0].len();
    proof {
        assert(view.subrange(0, 1).len() == 1);
        assert(view.subrange(0, 1)[0] == view[0]);
    }
    for i in 1..n
        invariant
            n == log@.len(),
            view == Seq::new(log@.len(), |h: int| log@[h]@),
            1 <= i <= n,
            m as int == min_confirmed(view.subrange(0, i as int)),
    {
        let l = log[i].len();
        proof {
            let pre = view.subrange(0, i as int);
            let cur = view.subrange(0, i as int + 1);
            assert(cur.drop_last() =~= pre);
            assert(cur.last() == view[i as int]);
            assert(cur.len() >= 2);
        }
        if l < m {
            m = l;
        }
    }
    proof {
        assert(view.subrange(0, n as int) =~= view);
    }
    m
}

/// Advance one frame over the registry: each handle's record steps the
/// entity its binding names, in handle order.
fn step_frame(registry: &mut Registry, binding: &Vec<u64>, recs: &Vec<InputRecord>)
    requires
        old(registry).wf(),
        recs@.len() == binding@.len(),
    ensures
        final(registry).wf(),
        final(registry).cap() == old(registry).cap(),
        forall|g: u32| final(registry).slot(g) == old(registry).slot(g),
        final(registry).entries_view() == advance_recs(
            old(registry).entries_view(),
            binding@,
            recs@,
            binding@.len() as int,
        ),
{
    let n = binding.len();
    for h in 0..n
        invariant
            registry.wf(),
            n == binding@.len(),
            recs@.len() == n,
            registry.cap() == old(registry).cap(),
            forall|g: u32| registry.slot(g) == old(registry).slot(g),
            registry.entries_view() == advance_recs(
                old(registry).entries_view(),
                binding@,
                recs@,
                h as int,
            ),
    {
        let id = binding[h];
        let ghost pre = registry.entries_view();
        match registry.state_of(id) {
            Some(st) => {
                let st2 = apply_record(&st, &recs[h]);
                registry.set_state(id, st2);
                proof {
                    assert(registry.entries_view() =~= step_bound(pre, id, recs@[h as int]));
                }
            },
            None => {
                proof {
                    assert(registry.entries_view() == step_bound(pre, id, recs@[h as int]));
                }
            },
        }
        proof {
            assert(advance_recs(old(registry).entries_view(), binding@, recs@, h as int + 1)
                == step_bound(pre, binding@[h as int], recs@[h as int]));
        }
    }
}

impl FrameDriver {
    /// The records believed for every handle at one frame.
    fn collect_recs(&self, f: u32) -> (recs: Vec<InputRecord>)
        ensures
            recs@ =~= frame_recs(self.log_view(), self.log@.len() as int, f as int),
    {
        let n = self.log.len();
        let mut recs: Vec<InputRecord> = Vec::new();
        for h in 0..n
            invariant
                n == self.log@.len(),
                recs@.len() == h,
                forall|k: int|
                    0 <= k < h ==> recs@[k] == believed(self.log_view(), k, f as int),
        {
            recs.push(believed_exec(&self.log[h], f));
        }
        recs
    }
}

/// Whether one of the first `k` locally owned handles is `h`.
pub open spec fn local_in_prefix(locals: Seq<usize>, k: int, h: int) -> bool {
    exists|i: int| 0 <= i < k && #[trigger] locals[i] as int == h
}

impl FrameDriver {
    /// One tick of the scheduler: sample the device into this frame's local
    /// records (eligible `input_delay` frames from now), resolve every
    /// handle's believed record for the current frame — confirmed or
    /// predicted — step every bound entity once, snapshot the registry, and
    /// move to the next frame. Returns the encoded local records for the
    /// peers; polling for remote records is the caller's non-blocking loop
    /// and never stalls the tick.
    pub fn advance(
        &mut self,
        device: &DeviceState,
        basis_fwd_x: i32,
        basis_fwd_z: i32,
        basis_right_x: i32,
        basis_right_z: i32,
    ) -> (out: Vec<Vec<u8>>)
        requires
            old(self).wf(),
            old(self).frame_spec() as int + old(self).delay_spec() as int + 1 <= u32::MAX as int,
        ensures
            final(self).wf(),
            final(self).frame_spec() == old(self).frame_spec() + 1,
            final(self).delay_spec() == old(self).delay_spec(),
            final(self).players() == old(self).players(),
            final(self).binding_view() == old(self).binding_view(),
            final(self).initial_view() == old(self).initial_view(),
            final(self).locals_view() == old(self).locals_view(),
            final(self).confirmed_spec() >= old(self).confirmed_spec(),
            forall|h: int|
                0 <= h < old(self).players() && !old(self).is_local(h) ==> final(self).log_view()[h]
                    == old(self).log_view()[h],
            forall|i: int|
                0 <= i < old(self).locals_view().len() ==> final(self).log_view()[old(
                    self,
                ).locals_view()[i] as int] =~= old(self).log_view()[old(
                    self,
                ).locals_view()[i] as int].push(
                    spec_sample(
                        (old(self).frame_spec() + old(self).delay_spec()) as u32,
                        old(self).locals_view()[i] as u8,
                        *device,
                        basis_fwd_x,
                        basis_fwd_z,
                        basis_right_x,
                        basis_right_z,
                    ),
                ),
            final(self).entities() == run_between(
                final(self).initial_view(),
                final(self).binding_view(),
                final(self).log_view(),
                0,
                final(self).frame_spec() as int,
            ),
            out@.len() == old(self).locals_view().len(),
            forall|i: int|
                0 <= i < out@.len() ==> out@[i]@ == spec_encode(
                    spec_sample(
                        (old(self).frame_spec() + old(self).delay_spec()) as u32,
                        old(self).locals_view()[i] as u8,
                        *device,
                        basis_fwd_x,
                        basis_fwd_z,
                        basis_right_x,
                        basis_right_z,
                    ),
                ),
    {
        let ghost olddrv: FrameDriver = *old(self);
        let ghost oldlog = olddrv.log_view();
        let ghost locals = olddrv.session.local_handles@;
        let target: u32 = self.frame + self.session.input_delay;
        let nloc = self.session.local_handles.len();
        let mut out: Vec<Vec<u8>> = Vec::new();
        for li in 0..nloc
            invariant
                olddrv == *old(self),
                olddrv.wf(),
                olddrv.frame_spec() as int + olddrv.delay_spec() as int + 1 <= u32::MAX
                    as int,
                oldlog == olddrv.log_view(),
                locals == olddrv.session.local_handles@,
                nloc == locals.len(),
                self.session.local_handles@ == olddrv.session.local_handles@,
                self.session.input_delay == olddrv.session.input_delay,
                self.session.identities@ == olddrv.session.identities@,
                self.session.confirmed_frame == olddrv.session.confirmed_frame,
                self.registry == olddrv.registry,
                self.binding@ == olddrv.binding@,
                self.initial@ == olddrv.initial@,
                self.frame == olddrv.frame,
                target == self.frame + self.session.input_delay,
                self.log@.len() == olddrv.log@.len(),
                out@.len() == li,
                forall|h: int|
                    0 <= h < self.log@.len() && !local_in_prefix(locals, li as int, h)
                        ==> self.log_view()[h] == oldlog[h],
                forall|i: int|
                    0 <= i < li ==> self.log_view()[locals[i] as int] =~= oldlog[locals[i] as int].push(
                        spec_sample(
                            target,
                            locals[i] as u8,
                            *device,
                            basis_fwd_x,
                            basis_fwd_z,
                            basis_right_x,
                            basis_right_z,
                        ),
                    ),
                forall|i: int|
                    0 <= i < li ==> out@[i]@ == spec_encode(
                        spec_sample(
                            target,
                            locals[i] as u8,
                            *device,
                            basis_fwd_x,
                            basis_fwd_z,
                            basis_right_x,
                            basis_right_z,
                        ),
                    ),
        {
            let h = self.session.local_handles[li];
            proof {
                assert((locals[li as int] as int) < olddrv.players());
                assert(!local_in_prefix(locals, li as int, h as int));
                assert(self.log_view()[h as int] == oldlog[h as int]);
            }
            let ghost prelog = self.log@;
            let rec = sample_record(
                target,
                h as u8,
                device,
                basis_fwd_x,
                basis_fwd_z,
                basis_right_x,
                basis_right_z,
            );
            self.log[h].push(rec);
            out.push(encode(&rec));
            proof {
                assert(self.log@ =~= prelog.update(h as int, self.log@[h as int]));
                assert(self.log@[h as int]@ =~= prelog[h as int]@.push(rec));
                assert forall|hh: int|
                    0 <= hh < self.log@.len() && !local_in_prefix(
                        locals,
                        li as int + 1,
                        hh,
                    ) implies self.log_view()[hh] == oldlog[hh] by {
                    assert(!local_in_prefix(locals, li as int, hh));
                    assert(locals[li as int] as int != hh);
                    assert(self.log@[hh]@ == prelog[hh]@);
                }
                assert forall|i: int|
                    0 <= i < li as int + 1 implies self.log_view()[locals[i] as int]
                    =~= oldlog[locals[i] as int].push(
                    spec_sample(
                        target,
                        locals[i] as u8,
                        *device,
                        basis_fwd_x,
                        basis_fwd_z,
                        basis_right_x,
                        basis_right_z,
                    ),
                ) by {
                    if i < li as int {
                        assert(locals[i] as int != h as int);
                        assert(self.log@[locals[i] as int]@ == prelog[locals[i] as int]@);
                    }
                }
            }
        }
        let ghost newlog = self.log_view();
        proof {
            assert forall|h: int, f: int|
                0 <= h < self.binding@.len() && 0 <= f < olddrv.frame_spec() as int implies
                believed(newlog, h, f) == believed(oldlog, h, f) by {
                if local_in_prefix(locals, nloc as int, h) {
                    let i = choose|i: int|
                        0 <= i < nloc as int && #[trigger] locals[i] as int == h;
                    assert(newlog[h] =~= oldlog[h].push(
                        spec_sample(
                            target,
                            locals[i] as u8,
                            *device,
                            basis_fwd_x,
                            basis_fwd_z,
                            basis_right_x,
                            basis_right_z,
                        ),
                    ));
                    assert(oldlog[h].len() == olddrv.frame_spec() as int + old(
                        self,
                    ).delay_spec() as int);
                    lemma_believed_push_low(
                        oldlog[h],
                        spec_sample(
                            target,
                            locals[i] as u8,
                            *device,
                            basis_fwd_x,
                            basis_fwd_z,
                            basis_right_x,
                            basis_right_z,
                        ),
                        f,
                    );
                } else {
                    assert(newlog[h] == oldlog[h]);
                }
            }
            lemma_run_agree(
                self.initial@,
                self.binding@,
                oldlog,
                newlog,
                0,
                olddrv.frame_spec() as int,
            );
            assert(self.registry.entries_view() == run_between(
                self.initial@,
                self.binding@,
                newlog,
                0,
                self.frame as int,
            ));
        }
        let recs = self.collect_recs(self.frame);
        let f0 = self.frame;
        step_frame(&mut self.registry, &self.binding, &recs);
        proof {
            assert(recs@ =~= frame_recs(newlog, self.binding@.len() as int, f0 as int));
            assert(recs@ == frame_recs(newlog, self.binding@.len() as int, f0 as int));
            assert(run_between(self.initial@, self.binding@, newlog, 0, f0 as int + 1)
                == advance_recs(
                run_between(self.initial@, self.binding@, newlog, 0, f0 as int),
                self.binding@,
                frame_recs(newlog, self.binding@.len() as int, f0 as int),
                self.binding@.len() as int,
            ));
            assert(self.registry.entries_view() == run_between(
                self.initial@,
                self.binding@,
                newlog,
                0,
                f0 as int + 1,
            ));
        }
        self.registry.snapshot(f0);
        self.frame = f0 + 1;
        let m = recompute_confirmed(&self.log);
        proof {
            assert(newlog == Seq::new(self.log@.len(), |h: int| self.log@[h]@));
            lemma_min_confirmed_bounds(newlog);
            assert((locals[0] as int) < self.log@.len() as int);
            assert(local_in_prefix(locals, nloc as int, locals[0] as int));
            assert(newlog[locals[0] as int].len() == f0 as int + self.session.input_delay as int
                + 1);
            assert(m as int <= u32::MAX as int);
            assert forall|h: int| 0 <= h < oldlog.len() implies #[trigger] oldlog[h].len()
                <= newlog[h].len() by {
                if local_in_prefix(locals, nloc as int, h) {
                } else {
                    assert(newlog[h] == oldlog[h]);
                }
            }
            lemma_min_confirmed_mono(oldlog, newlog);
        }
        self.session.confirmed_frame = m as u32;
        proof {
            assert forall|g: u32| #[trigger]
                self.registry.retained(g) implies g < self.frame && self.registry.slot(
                g,
            ).unwrap() == run_between(
                self.initial@,
                self.binding@,
                self.log_view(),
                0,
                g as int + 1,
            ) by {
                if g == f0 {
                    assert(self.registry.slot(g).unwrap() == run_between(
                        self.initial@,
                        self.binding@,
                        newlog,
                        0,
                        f0 as int + 1,
                    ));
                } else {
                    assert(self.registry.slot(g) == olddrv.registry.slot(g));
                    assert(olddrv.registry.retained(g));
                    assert(g < f0);
                    lemma_run_agree(
                        self.initial@,
                        self.binding@,
                        oldlog,
                        newlog,
                        0,
                        g as int + 1,
                    );
                }
            }
            assert(self.log_view() == newlog);
        }
        out
    }
}

impl FrameDriver {
    /// Whether a remote record is usable at all: a known, remote handle, and
    /// exactly the next unconfirmed frame of its sender — the transport is
    /// ordered, so anything else is a duplicate or an echo and is dropped.
    pub open spec fn accepts(&self, rec: InputRecord) -> bool {
        &&& (rec.handle as int) < self.players()
        &&& !self.is_local(rec.handle as int)
        &&& rec.frame as int == self.log_view()[rec.handle as int].len()
    }

    /// Whether a usable record contradicts what a past frame was simulated
    /// with — asks for a different motion than the prediction that stood in
    /// for it: only then is a rollback required.
    pub open spec fn diverges(&self, rec: InputRecord) -> bool {
        &&& self.accepts(rec)
        &&& (rec.frame as int) < self.frame_spec() as int
        &&& !same_payload(rec, believed(self.log_view(), rec.handle as int, rec.frame as int))
    }

    /// Whether the rollback a divergent record requires has lost its
    /// snapshot: the frame before the correction is no longer retained.
    /// (A correction of frame 0 rewinds to the session's initial state,
    /// which is always kept.)
    pub open spec fn overruns(&self, rec: InputRecord) -> bool {
        &&& self.diverges(rec)
        &&& rec.frame >= 1
        &&& !self.retained((rec.frame - 1) as u32)
    }

    /// Everything ingesting one remote record promises: the classification
    /// of the outcome is exact, the log gains exactly the accepted record,
    /// the confirmed counter never decreases, and — whatever happened — the
    /// live registry equals the from-scratch run of the believed log.
    pub open spec fn ingest_post(
        pre: FrameDriver,
        post: FrameDriver,
        rec: InputRecord,
        res: Result<IngestOutcome, SyncError>,
    ) -> bool {
        &&& post.wf()
        &&& post.frame_spec() == pre.frame_spec()
        &&& post.delay_spec() == pre.delay_spec()
        &&& post.players() == pre.players()
        &&& post.binding_view() == pre.binding_view()
        &&& post.initial_view() == pre.initial_view()
        &&& post.locals_view() == pre.locals_view()
        &&& post.confirmed_spec() >= pre.confirmed_spec()
        &&& (res is Err <==> pre.overruns(rec))
        &&& (res is Err ==> res == Err::<IngestOutcome, SyncError>(SyncError::RollbackOverrun))
        &&& (res == Ok::<IngestOutcome, SyncError>(IngestOutcome::Ignored) <==> !pre.accepts(rec))
        &&& (res == Ok::<IngestOutcome, SyncError>(IngestOutcome::RolledBack) <==> pre.diverges(
            rec,
        ) && !pre.overruns(rec))
        &&& (res == Ok::<IngestOutcome, SyncError>(IngestOutcome::Confirmed) <==> pre.accepts(rec)
            && !pre.diverges(rec))
        &&& (res is Err ==> post.log_view() == pre.log_view() && post.entities()
            == pre.entities())
        &&& (res == Ok::<IngestOutcome, SyncError>(IngestOutcome::Ignored) ==> post.log_view()
            == pre.log_view() && post.entities() == pre.entities())
        &&& ((res is Ok && res != Ok::<IngestOutcome, SyncError>(IngestOutcome::Ignored))
            ==> post.log_view() =~~= pre.log_view().update(
            rec.handle as int,
            pre.log_view()[rec.handle as int].push(rec),
        ))
        &&& (res == Ok::<IngestOutcome, SyncError>(IngestOutcome::Confirmed) ==> post.entities()
            == pre.entities())
        &&& (res is Ok ==> post.entities() == run_between(
            post.initial_view(),
            post.binding_view(),
            post.log_view(),
            0,
            post.frame_spec() as int,
        ))
    }

    /// Recompute the confirmed-frame counter after the log grew. The counter
    /// never decreases: no prefix shrank.
    fn finish_confirm(&mut self, Ghost(olddrv): Ghost<FrameDriver>)
        requires
            olddrv.wf(),
            old(self).log@.len() == olddrv.log@.len(),
            forall|h: int|
                0 <= h < olddrv.log_view().len() ==> #[trigger] olddrv.log_view()[h].len()
                    <= old(self).log_view()[h].len(),
            old(self).log_view()[olddrv.locals_view()[0] as int].len() <= u32::MAX as int,
        ensures
            final(self).session.confirmed_frame as int == min_confirmed(final(self).log_view()),
            final(self).session.confirmed_frame >= olddrv.session.confirmed_frame,
            final(self).log@ == old(self).log@,
            final(self).registry == old(self).registry,
            final(self).frame == old(self).frame,
            final(self).binding@ == old(self).binding@,
            final(self).initial@ == old(self).initial@,
            final(self).session.identities@ == old(self).session.identities@,
            final(self).session.local_handles@ == old(self).session.local_handles@,
            final(self).session.input_delay == old(self).session.input_delay,
    {
        proof {
            lemma_min_confirmed_bounds(self.log_view());
            assert((olddrv.locals_view()[0] as int) < self.log_view().len() as int);
            lemma_min_confirmed_mono(olddrv.log_view(), self.log_view());
        }
        let m = recompute_confirmed(&self.log);
        self.session.confirmed_frame = m as u32;
    }

    /// Ingest one remote record (already decoded). A record that is not the
    /// sender's next unconfirmed frame is dropped; one that confirms what
    /// was believed extends the log and nothing is resimulated; one that
    /// contradicts a past frame rolls the registry back to the retained
    /// snapshot before that frame and deterministically resimulates up to
    /// the current frame — atomically, within this call. Only a correction
    /// whose snapshot was already evicted fails, with `RollbackOverrun`,
    /// leaving the driver unchanged; the match must then end rather than run
    /// on corrupted state.
    pub fn ingest_record(&mut self, rec: InputRecord) -> (res: Result<IngestOutcome, SyncError>)
        requires
            old(self).wf(),
        ensures
            FrameDriver::ingest_post(*old(self), *final(self), rec, res),
    {
        let ghost olddrv: FrameDriver = *old(self);
        let ghost oldlog = olddrv.log_view();
        let h = rec.handle as usize;
        let n = self.session.identities.len();
        if h >= n {
            return Ok(IngestOutcome::Ignored);
        }
        let nloc = self.session.local_handles.len();
        for i in 0..nloc
            invariant
                olddrv == *old(self),
                olddrv.wf(),
                *self == olddrv,
                nloc == olddrv.session.local_handles@.len(),
                h == rec.handle as usize,
                forall|k: int| 0 <= k < i ==> olddrv.session.local_handles@[k] as int != h as int,
        {
            if self.session.local_handles[i] == h {
                proof {
                    assert(olddrv.is_local(h as int));
                }
                return Ok(IngestOutcome::Ignored);
            }
        }
        proof {
            assert(!olddrv.is_local(h as int));
        }
        let c = self.log[h].len();
        if rec.frame as usize != c {
            return Ok(IngestOutcome::Ignored);
        }
        proof {
            assert(olddrv.accepts(rec));
            assert(oldlog[h as int] == self.log@[h as int]@);
        }
        if c >= self.frame as usize {
            // The record is for the current frame or later: nothing simulated
            // yet can contradict it.
            self.log[h].push(rec);
            proof {
                assert(self.log@ =~= olddrv.log@.update(h as int, self.log@[h as int]));
                assert(self.log_view() =~~= oldlog.update(h as int, oldlog[h as int].push(rec)));
                assert(!olddrv.diverges(rec));
                self.lemma_confirm_keeps_runs(olddrv, rec, h as int);
            }
            proof {
                assert forall|i: int|
                    0 <= i < olddrv.locals_view().len() implies self.log_view()[olddrv.locals_view()[i] as int]
                    == oldlog[olddrv.locals_view()[i] as int] by {
                    assert(olddrv.locals_view()[i] as int != h as int);
                }
                assert forall|hh: int| 0 <= hh < oldlog.len() implies #[trigger] oldlog[hh].len()
                    <= self.log_view()[hh].len() by {
                    if hh == h as int {
                        assert(self.log_view()[hh] =~= oldlog[hh].push(rec));
                    } else {
                        assert(self.log_view()[hh] == oldlog[hh]);
                    }
                }
                assert((olddrv.locals_view()[0] as int) < oldlog.len() as int);
            }
            self.finish_confirm(Ghost(olddrv));
            return Ok(IngestOutcome::Confirmed);
        }
        let predicted = believed_exec(&self.log[h], rec.frame);
        if payload_eq(&predicted, &rec) {
            // The prediction asked for the very motion now confirmed:
            // nothing simulated changes.
            self.log[h].push(rec);
            proof {
                assert(self.log@ =~= olddrv.log@.update(h as int, self.log@[h as int]));
                assert(self.log_view() =~~= oldlog.update(h as int, oldlog[h as int].push(rec)));
                assert(same_payload(
                    rec,
                    believed_one(oldlog[h as int], oldlog[h as int].len() as int),
                ));
                assert(!olddrv.diverges(rec));
                self.lemma_confirm_keeps_runs(olddrv, rec, h as int);
            }
            proof {
                assert forall|i: int|
                    0 <= i < olddrv.locals_view().len() implies self.log_view()[olddrv.locals_view()[i] as int]
                    == oldlog[olddrv.locals_view()[i] as int] by {
                    assert(olddrv.locals_view()[i] as int != h as int);
                }
                assert forall|hh: int| 0 <= hh < oldlog.len() implies #[trigger] oldlog[hh].len()
                    <= self.log_view()[hh].len() by {
                    if hh == h as int {
                        assert(self.log_view()[hh] =~= oldlog[hh].push(rec));
                    } else {
                        assert(self.log_view()[hh] == oldlog[hh]);
                    }
                }
                assert((olddrv.locals_view()[0] as int) < oldlog.len() as int);
            }
            self.finish_confirm(Ghost(olddrv));
            return Ok(IngestOutcome::Confirmed);
        }
        proof {
            assert(olddrv.diverges(rec));
        }
        if c >= 1 {
            let pf = (c - 1) as u32;
            if !self.registry.is_retained(pf) {
                proof {
                    assert(olddrv.overruns(rec));
                }
                return Err(SyncError::RollbackOverrun);
            }
        }
        proof {
            assert(!olddrv.overruns(rec));
        }
        self.log[h].push(rec);
        let ghost newlog = self.log_view();
        proof {
            assert(self.log@ =~= olddrv.log@.update(h as int, self.log@[h as int]));
            assert(newlog =~~= oldlog.update(h as int, oldlog[h as int].push(rec)));
            assert forall|hh: int, f: int|
                0 <= hh < self.binding@.len() && 0 <= f < c as int implies believed(newlog, hh, f)
                == believed(oldlog, hh, f) by {
                if hh == h as int {
                    lemma_believed_push_low(oldlog[hh], rec, f);
                    assert(newlog[hh] =~= oldlog[hh].push(rec));
                } else {
                    assert(newlog[hh] == oldlog[hh]);
                }
            }
        }
        if c == 0 {
            self.registry.load(&self.initial);
            proof {
                assert(self.registry.entries_view() == run_between(
                    self.initial@,
                    self.binding@,
                    newlog,
                    0,
                    0,
                ));
            }
        } else {
            let pf = (c - 1) as u32;
            let ok = self.registry.restore(pf);
            proof {
                assert(ok);
                let live = olddrv.registry.entries_view();
                let snap = olddrv.registry.slot(pf).unwrap();
                assert(snap == run_between(self.initial@, self.binding@, oldlog, 0, c as int));
                lemma_run_ids(self.initial@, self.binding@, oldlog, 0, olddrv.frame as int);
                lemma_run_ids(self.initial@, self.binding@, oldlog, 0, c as int);
                lemma_run_unique(self.initial@, self.binding@, oldlog, 0, c as int);
                lemma_restore_same_ids(live, snap);
                lemma_run_agree(self.initial@, self.binding@, oldlog, newlog, 0, c as int);
                assert(self.registry.entries_view() == run_between(
                    self.initial@,
                    self.binding@,
                    newlog,
                    0,
                    c as int,
                ));
            }
        }
        proof {
            assert forall|g: u32| #[trigger]
                self.registry.retained(g) implies g < self.frame && ((g as int) < c as int
                ==> self.registry.slot(g).unwrap() == run_between(
                self.initial@,
                self.binding@,
                newlog,
                0,
                g as int + 1,
            )) && ((g as int) >= c as int ==> self.registry.slot(g).unwrap() == run_between(
                self.initial@,
                self.binding@,
                oldlog,
                0,
                g as int + 1,
            )) by {
                assert(self.registry.slot(g) == olddrv.registry.slot(g));
                assert(olddrv.registry.retained(g));
                assert(olddrv.registry.slot(g).unwrap() == run_between(
                    self.initial@,
                    self.binding@,
                    oldlog,
                    0,
                    g as int + 1,
                ));
                if (g as int) < c as int {
                    lemma_run_agree(self.initial@, self.binding@, oldlog, newlog, 0, g as int + 1);
                }
            }
        }
        let mut f: u32 = rec.frame;
        while f < self.frame
            invariant
                olddrv == *old(self),
                olddrv.wf(),
                self.session == olddrv.session,
                self.binding@ == olddrv.binding@,
                self.initial@ == olddrv.initial@,
                self.frame == olddrv.frame,
                self.log@.len() == olddrv.log@.len(),
                self.log_view() == newlog,
                c as int <= f as int <= self.frame as int,
                self.registry.wf(),
                self.registry.entries_view() == run_between(
                    self.initial@,
                    self.binding@,
                    newlog,
                    0,
                    f as int,
                ),
                forall|g: u32| #[trigger]
                    self.registry.retained(g) ==> g < self.frame && ((g as int) < f as int
                        ==> self.registry.slot(g).unwrap() == run_between(
                        self.initial@,
                        self.binding@,
                        newlog,
                        0,
                        g as int + 1,
                    )) && ((g as int) >= f as int ==> self.registry.slot(g).unwrap()
                        == run_between(
                        self.initial@,
                        self.binding@,
                        oldlog,
                        0,
                        g as int + 1,
                    )),
            decreases self.frame - f,
        {
            let ghost reg0 = self.registry;
            let recs = self.collect_recs(f);
            proof {
                assert(recs@ =~= frame_recs(newlog, self.binding@.len() as int, f as int));
                assert(recs@ == frame_recs(newlog, self.binding@.len() as int, f as int));
            }
            let ghost pre_entries = self.registry.entries_view();
            step_frame(&mut self.registry, &self.binding, &recs);
            proof {
                assert(run_between(self.initial@, self.binding@, newlog, 0, f as int + 1)
                    == advance_recs(
                    run_between(self.initial@, self.binding@, newlog, 0, f as int),
                    self.binding@,
                    frame_recs(newlog, self.binding@.len() as int, f as int),
                    self.binding@.len() as int,
                ));
            }
            self.registry.snapshot(f);
            proof {
                assert forall|g: u32| #[trigger]
                    self.registry.retained(g) implies g < self.frame && ((g as int) < f as int + 1
                    ==> self.registry.slot(g).unwrap() == run_between(
                    self.initial@,
                    self.binding@,
                    newlog,
                    0,
                    g as int + 1,
                )) && ((g as int) >= f as int + 1 ==> self.registry.slot(g).unwrap()
                    == run_between(
                    self.initial@,
                    self.binding@,
                    oldlog,
                    0,
                    g as int + 1,
                )) by {
                    if g == f {
                        assert(self.registry.slot(g).unwrap() == run_between(
                            self.initial@,
                            self.binding@,
                            newlog,
                            0,
                            f as int + 1,
                        ));
                    } else {
                        assert(self.registry.slot(g) != None::<Seq<RegEntry>>);
                        assert(self.registry.slot(g) == reg0.slot(g));
                        assert(reg0.retained(g));
                    }
                }
            }
            f = f + 1;
        }
        proof {
            assert forall|g: u32| #[trigger]
                self.registry.retained(g) implies g < self.frame && self.registry.slot(g).unwrap()
                == run_between(self.initial@, self.binding@, newlog, 0, g as int + 1) by {
                assert((g as int) < f as int);
            }
        }
        proof {
            assert forall|i: int|
                0 <= i < olddrv.locals_view().len() implies self.log_view()[olddrv.locals_view()[i] as int]
                == oldlog[olddrv.locals_view()[i] as int] by {
                assert(olddrv.locals_view()[i] as int != h as int);
            }
            assert forall|hh: int| 0 <= hh < oldlog.len() implies #[trigger] oldlog[hh].len()
                <= self.log_view()[hh].len() by {
                if hh == h as int {
                    assert(self.log_view()[hh] =~= oldlog[hh].push(rec));
                } else {
                    assert(self.log_view()[hh] == oldlog[hh]);
                }
            }
            assert((olddrv.locals_view()[0] as int) < oldlog.len() as int);
        }
        self.finish_confirm(Ghost(olddrv));
        Ok(IngestOutcome::RolledBack)
    }

    /// Ingest one remote wire record as received. A malformed record — wrong
    /// length or layout — is rejected with `MalformedRecord` and the driver
    /// is left unchanged: the frame stays unconfirmed and falls back to
    /// prediction; it never causes a crash.
    pub fn ingest_bytes(&mut self, bytes: &Vec<u8>) -> (res: Result<IngestOutcome, SyncError>)
        requires
            old(self).wf(),
        ensures
            spec_decode(bytes@) is None ==> res == Err::<IngestOutcome, SyncError>(
                SyncError::MalformedRecord,
            ) && *final(self) == *old(self),
            spec_decode(bytes@) is Some ==> FrameDriver::ingest_post(
                *old(self),
                *final(self),
                spec_decode(bytes@).unwrap(),
                res,
            ),
    {
        match decode(bytes) {
            Ok(rec) => self.ingest_record(rec),
            Err(_) => Err(SyncError::MalformedRecord),
        }
    }

    /// The fixed input delay of the session.
    pub fn input_delay(&self) -> (d: u32)
        ensures
            d == self.delay_spec(),
    {
        self.session.input_delay
    }

    /// The number of players in the session.
    pub fn num_players(&self) -> (n: usize)
        ensures
            n as int == self.players(),
    {
        self.session.identities.len()
    }

    /// A copy of the live registered entries.
    pub fn entities_copy(&self) -> (r: Vec<RegEntry>)
        ensures
            r@ == self.entities(),
    {
        self.registry.contents()
    }

    /// Whether the snapshot for a frame is still retained.
    pub fn is_retained(&self, f: u32) -> (r: bool)
        requires
            self.wf(),
        ensures
            r == self.retained(f),
    {
        self.registry.is_retained(f)
    }

    /// After confirming a record that contradicts nothing — one for a frame
    /// not yet simulated, or one equal to its own prediction — every
    /// believed record of every simulated frame is unchanged, so the run
    /// equalities of the invariant carry over to the grown log.
    proof fn lemma_confirm_keeps_runs(&self, olddrv: FrameDriver, rec: InputRecord, h: int)
        requires
            olddrv.wf(),
            0 <= h < olddrv.log_view().len(),
            self.log_view() =~~= olddrv.log_view().update(
                h,
                olddrv.log_view()[h].push(rec),
            ),
            rec.frame as int == olddrv.log_view()[h].len(),
            rec.frame as int >= olddrv.frame_spec() as int || same_payload(
                rec,
                believed_one(olddrv.log_view()[h], olddrv.log_view()[h].len() as int),
            ),
            self.registry == olddrv.registry,
            self.binding@ == olddrv.binding@,
            self.initial@ == olddrv.initial@,
            self.frame == olddrv.frame,
        ensures
            self.registry.entries_view() == run_between(
                self.initial@,
                self.binding@,
                self.log_view(),
                0,
                self.frame as int,
            ),
            forall|g: u32| #[trigger]
                self.registry.retained(g) ==> g < self.frame && self.registry.slot(g).unwrap()
                    == run_between(
                    self.initial@,
                    self.binding@,
                    self.log_view(),
                    0,
                    g as int + 1,
                ),
    {
        let oldlog = olddrv.log_view();
        let newlog = self.log_view();
        assert forall|hh: int, f: int|
            0 <= hh < self.binding@.len() && 0 <= f < olddrv.frame_spec() as int implies
            same_payload(#[trigger] believed(newlog, hh, f), believed(oldlog, hh, f)) by {
            if hh == h {
                assert(newlog[hh] =~= oldlog[hh].push(rec));
                if rec.frame as int >= olddrv.frame_spec() as int {
                    lemma_believed_push_low(oldlog[hh], rec, f);
                } else {
                    lemma_believed_push_payload(oldlog[hh], rec, f);
                }
            } else {
                assert(newlog[hh] == oldlog[hh]);
            }
        }
        lemma_run_agree_payload(
            self.initial@,
            self.binding@,
            newlog,
            oldlog,
            0,
            olddrv.frame as int,
        );
        assert forall|g: u32| #[trigger]
            self.registry.retained(g) implies g < self.frame && self.registry.slot(g).unwrap()
            == run_between(self.initial@, self.binding@, newlog, 0, g as int + 1) by {
            assert(olddrv.registry.retained(g));
            lemma_run_agree_payload(
                self.initial@,
                self.binding@,
                newlog,
                oldlog,
                0,
                g as int + 1,
            );
        }
    }
}

/// The believed record for one handle at a frame: confirmed, else predicted
/// by repetition, else default.
fn believed_exec(s: &Vec<InputRecord>, f: u32) -> (r: InputRecord)
    ensures
        r == believed_one(s@, f as int),
{
    let n = s.len();
    if (f as usize) < n {
        s[f as usize]
    } else if n > 0 {
        s[n - 1]
    } else {
        make_default_record()
    }
}

} // verus!
