use lockstep::driver::{FrameDriver, IngestOutcome};
use lockstep::input::DeviceState;
use lockstep::motion::EntityState;
use lockstep::registry::Registry;
use lockstep::session::{build_session, PeerSession, SignalingClient};
use lockstep::wire::{encode, InputRecord, INPUT_UP};
use lockstep::SyncError;

const FWD_Z: i32 = -1000;
const RIGHT_X: i32 = 1000;

fn released() -> DeviceState {
    DeviceState::released()
}

fn pressing_up() -> DeviceState {
    DeviceState { up: true, down: false, left: false, right: false, jump: false, run: false }
}

fn remote_rec(frame: u32, bits: u8) -> InputRecord {
    InputRecord {
        frame,
        handle: 0,
        bits,
        basis_fwd_x: 0,
        basis_fwd_z: if bits == 0 { 0 } else { FWD_Z },
        basis_right_x: if bits == 0 { 0 } else { RIGHT_X },
        basis_right_z: 0,
    }
}

/// A two-player session seen from the peer that owns handle 1, with the
/// remote peer on handle 0.
fn make_driver(input_delay: u32, ring_cap: usize) -> FrameDriver {
    let session = PeerSession {
        identities: vec![100, 200],
        local_handles: vec![1],
        input_delay,
        confirmed_frame: 0,
    };
    let mut registry = Registry::new(ring_cap);
    registry.register(10, EntityState::at_rest());
    registry.register(20, EntityState::at_rest());
    FrameDriver::new(session, registry, vec![10, 20])
}

fn advance_idle(d: &mut FrameDriver) {
    d.advance(&released(), 0, FWD_Z, RIGHT_X, 0);
}

/// Like `make_driver`, but choosing which handle this peer owns.
fn make_peer(local: usize, input_delay: u32, ring_cap: usize) -> FrameDriver {
    let session = PeerSession {
        identities: vec![100, 200],
        local_handles: vec![local],
        input_delay,
        confirmed_frame: 0,
    };
    let mut registry = Registry::new(ring_cap);
    registry.register(10, EntityState::at_rest());
    registry.register(20, EntityState::at_rest());
    FrameDriver::new(session, registry, vec![10, 20])
}

#[test]
fn session_with_one_peer_never_ready() {
    let mut client = SignalingClient::new(2);
    assert!(!client.is_ready());
    assert!(client.add_peer(100));
    assert!(!client.is_ready());
    assert_eq!(client.poll_ready(true), Ok(false));
    let peers = client.peers();
    assert_eq!(
        build_session(&peers, 2, 100, 2).err(),
        Some(SyncError::SessionStartFailed)
    );
}

#[test]
fn signaling_unavailable_is_reported_until_channel_opens() {
    let client = SignalingClient::new(2);
    assert_eq!(client.poll_ready(false), Err(SyncError::SignalingUnavailable));
    assert_eq!(client.poll_ready(true), Ok(false));
}

#[test]
fn duplicate_peer_identity_cannot_get_a_handle() {
    let peers = vec![7u64, 7u64];
    assert_eq!(build_session(&peers, 2, 7, 2).err(), Some(SyncError::PeerAddFailed));
}

#[test]
fn gathered_twice_is_gathered_once() {
    let mut client = SignalingClient::new(2);
    assert!(client.add_peer(100));
    assert!(!client.add_peer(100));
    assert_eq!(client.peers().len(), 1);
}

#[test]
fn session_assigns_handles_in_join_order() {
    let mut client = SignalingClient::new(2);
    client.add_peer(100);
    client.add_peer(200);
    assert!(client.is_ready());
    let s = build_session(&client.peers(), 2, 200, 2).unwrap();
    assert_eq!(s.identities, vec![100, 200]);
    assert_eq!(s.local_handles, vec![1]);
    assert_eq!(s.input_delay, 2);
}

#[test]
fn local_id_not_among_peers_fails_fatally() {
    let peers = vec![100u64, 200u64];
    assert_eq!(build_session(&peers, 2, 999, 0).err(), Some(SyncError::SessionStartFailed));
}

#[test]
fn replaying_identical_log_is_deterministic() {
    let mut a = make_driver(1, 32);
    let mut b = make_driver(1, 32);
    for k in 0..8u32 {
        let dev = if k % 3 == 0 { pressing_up() } else { released() };
        a.advance(&dev, 0, FWD_Z, RIGHT_X, 0);
        b.advance(&dev, 0, FWD_Z, RIGHT_X, 0);
        if k == 4 {
            let r = remote_rec(1, INPUT_UP);
            assert_eq!(a.ingest_record(r), b.ingest_record(r));
        }
        assert_eq!(a.entities_copy(), b.entities_copy());
        assert_eq!(a.confirmed_frame(), b.confirmed_frame());
    }
}

#[test]
fn rollback_replay_matches_from_scratch_run() {
    // input delay 2, two peers; the remote press for frame 11 only arrives
    // once frame 13 has been simulated, so frames 11..=13 were predicted.
    let mut b = make_driver(2, 64);
    // remote confirmations for frames 2..=10 arrive in time and match the
    // idle prediction
    for f in 2..=10u32 {
        assert_eq!(b.ingest_record(remote_rec(f, 0)), Ok(IngestOutcome::Confirmed));
    }
    // simulate frames 0..=13
    for _ in 0..14 {
        advance_idle(&mut b);
    }
    assert_eq!(b.current_frame(), 14);
    // the true records for 11..=13 now arrive: 11 contradicts the
    // prediction and rolls back; 12 and 13 confirm the new prediction
    assert_eq!(b.ingest_record(remote_rec(11, INPUT_UP)), Ok(IngestOutcome::RolledBack));
    assert_eq!(b.ingest_record(remote_rec(12, INPUT_UP)), Ok(IngestOutcome::Confirmed));
    assert_eq!(b.ingest_record(remote_rec(13, INPUT_UP)), Ok(IngestOutcome::Confirmed));

    // a from-scratch run with the true inputs known from the start
    let mut c = make_driver(2, 64);
    for f in 2..=10u32 {
        c.ingest_record(remote_rec(f, 0));
    }
    for f in 11..=13u32 {
        assert_eq!(c.ingest_record(remote_rec(f, INPUT_UP)), Ok(IngestOutcome::Confirmed));
    }
    for _ in 0..14 {
        advance_idle(&mut c);
    }
    assert_eq!(b.entities_copy(), c.entities_copy());
    // and the press did move the remote entity
    let moved = b.state_of(10).unwrap();
    assert_ne!(moved.pos, EntityState::at_rest().pos);
}

#[test]
fn correction_of_first_frame_rewinds_to_initial_state() {
    // with no input delay the very first frame can be contradicted; the
    // rollback rewinds to the state the session started from
    let mut d = make_driver(0, 16);
    for _ in 0..3 {
        advance_idle(&mut d);
    }
    assert_eq!(d.ingest_record(remote_rec(0, INPUT_UP)), Ok(IngestOutcome::RolledBack));
    let mut c = make_driver(0, 16);
    assert_eq!(c.ingest_record(remote_rec(0, INPUT_UP)), Ok(IngestOutcome::Confirmed));
    for _ in 0..3 {
        advance_idle(&mut c);
    }
    assert_eq!(d.entities_copy(), c.entities_copy());
}

#[test]
fn successive_corrections_accumulate() {
    let mut d = make_driver(0, 32);
    for _ in 0..6 {
        advance_idle(&mut d);
    }
    assert_eq!(d.ingest_record(remote_rec(0, INPUT_UP)), Ok(IngestOutcome::RolledBack));
    assert_eq!(
        d.ingest_record(remote_rec(1, INPUT_UP | lockstep::wire::INPUT_RUN)),
        Ok(IngestOutcome::RolledBack)
    );
    let mut c = make_driver(0, 32);
    c.ingest_record(remote_rec(0, INPUT_UP));
    c.ingest_record(remote_rec(1, INPUT_UP | lockstep::wire::INPUT_RUN));
    for _ in 0..6 {
        advance_idle(&mut c);
    }
    assert_eq!(d.entities_copy(), c.entities_copy());
}

#[test]
fn correction_beyond_retained_window_is_overrun() {
    let mut d = make_driver(0, 2);
    // frame 0 for the remote arrives and matches the idle prediction
    assert_eq!(d.ingest_record(remote_rec(0, 0)), Ok(IngestOutcome::Confirmed));
    for _ in 0..5 {
        advance_idle(&mut d);
    }
    // a correction of frame 1 needs the snapshot of frame 0, which the
    // two-slot ring has long evicted: the match cannot continue
    assert_eq!(d.ingest_record(remote_rec(1, INPUT_UP)), Err(SyncError::RollbackOverrun));
    // the driver was left unchanged by the failed rollback
    assert_eq!(d.current_frame(), 5);
}

#[test]
fn malformed_bytes_fall_back_to_prediction() {
    let mut d = make_driver(1, 16);
    advance_idle(&mut d);
    let before = d.entities_copy();
    let garbage = vec![0xAAu8; 7];
    assert_eq!(d.ingest_bytes(&garbage), Err(SyncError::MalformedRecord));
    assert_eq!(d.entities_copy(), before);
    assert_eq!(d.current_frame(), 1);
    // a well-formed record still goes through afterwards
    let ok = encode(&remote_rec(1, 0));
    assert_eq!(d.ingest_bytes(&ok), Ok(IngestOutcome::Confirmed));
}

#[test]
fn stale_and_unknown_records_are_ignored() {
    let mut d = make_driver(1, 16);
    assert_eq!(d.ingest_record(remote_rec(1, 0)), Ok(IngestOutcome::Confirmed));
    // a duplicate of an already confirmed frame
    assert_eq!(d.ingest_record(remote_rec(1, 0)), Ok(IngestOutcome::Ignored));
    // a record skipping ahead of the next unconfirmed frame
    assert_eq!(d.ingest_record(remote_rec(5, 0)), Ok(IngestOutcome::Ignored));
    // an echo of a locally owned handle
    let mut local_echo = remote_rec(2, 0);
    local_echo.handle = 1;
    assert_eq!(d.ingest_record(local_echo), Ok(IngestOutcome::Ignored));
    // an unknown handle
    let mut unknown = remote_rec(2, 0);
    unknown.handle = 9;
    assert_eq!(d.ingest_record(unknown), Ok(IngestOutcome::Ignored));
}

#[test]
fn confirmed_frame_counter_never_decreases() {
    let mut d = make_driver(2, 32);
    let mut last = d.confirmed_frame();
    for f in 2..=6u32 {
        d.ingest_record(remote_rec(f, 0));
        assert!(d.confirmed_frame() >= last);
        last = d.confirmed_frame();
    }
    for _ in 0..8 {
        advance_idle(&mut d);
        assert!(d.confirmed_frame() >= last);
        last = d.confirmed_frame();
    }
}

#[test]
fn input_delay_defers_local_input() {
    let mut d = make_driver(2, 16);
    // the press sampled while simulating frame 0 is scheduled for frame 2
    d.advance(&pressing_up(), 0, FWD_Z, RIGHT_X, 0);
    let local = d.state_of(20).unwrap();
    assert_eq!(local.pos, EntityState::at_rest().pos);
    d.advance(&released(), 0, FWD_Z, RIGHT_X, 0);
    assert_eq!(d.state_of(20).unwrap().pos, EntityState::at_rest().pos);
    d.advance(&released(), 0, FWD_Z, RIGHT_X, 0);
    let after = d.state_of(20).unwrap();
    assert_ne!(after.pos, EntityState::at_rest().pos);
}

#[test]
fn two_peer_match_over_lossless_link_stays_in_lockstep() {
    const TICKS: u32 = 40;
    const LATENCY: usize = 3;
    let mut a = make_peer(0, 2, 32);
    let mut b = make_peer(1, 2, 32);
    // batches in flight towards each peer, one slot per tick of latency
    let mut to_a: Vec<Vec<Vec<u8>>> = vec![Vec::new(); LATENCY];
    let mut to_b: Vec<Vec<Vec<u8>>> = vec![Vec::new(); LATENCY];
    for tick in 0..TICKS {
        for bytes in to_a.remove(0) {
            assert!(a.ingest_bytes(&bytes).is_ok());
        }
        for bytes in to_b.remove(0) {
            assert!(b.ingest_bytes(&bytes).is_ok());
        }
        let dev_a = if (5..20).contains(&tick) { pressing_up() } else { released() };
        let dev_b = if tick % 4 == 0 {
            DeviceState { up: false, down: false, left: true, right: false, jump: false, run: true }
        } else {
            released()
        };
        to_b.push(a.advance(&dev_a, 0, FWD_Z, RIGHT_X, 0));
        to_a.push(b.advance(&dev_b, 0, FWD_Z, RIGHT_X, 0));
    }
    // flush the link so both peers confirm everything that was sent
    for batch in to_a {
        for bytes in batch {
            assert!(a.ingest_bytes(&bytes).is_ok());
        }
    }
    for batch in to_b {
        for bytes in batch {
            assert!(b.ingest_bytes(&bytes).is_ok());
        }
    }
    assert_eq!(a.current_frame(), TICKS);
    assert_eq!(b.current_frame(), TICKS);
    assert_eq!(a.entities_copy(), b.entities_copy());
    // both players actually moved
    assert_ne!(a.state_of(10).unwrap().pos, EntityState::at_rest().pos);
    assert_ne!(a.state_of(20).unwrap().pos, EntityState::at_rest().pos);
}

#[test]
fn advance_emits_wire_records_for_local_handles() {
    let mut d = make_driver(2, 16);
    let out = d.advance(&pressing_up(), 0, FWD_Z, RIGHT_X, 0);
    assert_eq!(out.len(), 1);
    let rec = lockstep::wire::decode(&out[0]).unwrap();
    assert_eq!(rec.handle, 1);
    assert_eq!(rec.frame, 2);
    assert_eq!(rec.bits, INPUT_UP);
}
