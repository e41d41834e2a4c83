use lockstep::fx::{isqrt64, sat_add, Vec3Fx};
use lockstep::motion::{apply_record, payload_eq, step, EntityState};
use lockstep::registry::Registry;
use lockstep::wire::{InputRecord, INPUT_RIGHT, INPUT_RUN, INPUT_UP};

fn v(x: i64, y: i64, z: i64) -> Vec3Fx {
    Vec3Fx { x, y, z }
}

fn state(px: i64, pz: i64) -> EntityState {
    EntityState { pos: v(px, 0, pz), vel: v(0, 0, 0), facing: v(0, 0, -1000) }
}

fn motion_rec(bits: u8) -> InputRecord {
    InputRecord {
        frame: 0,
        handle: 0,
        bits,
        basis_fwd_x: 0,
        basis_fwd_z: -1000,
        basis_right_x: 1000,
        basis_right_z: 0,
    }
}

#[test]
fn registry_restore_after_snapshot_is_identity() {
    let mut reg = Registry::new(8);
    assert!(reg.register(1, state(10, 20)));
    assert!(reg.register(2, state(-5, 7)));
    let before = reg.contents();
    reg.snapshot(3);
    assert!(reg.restore(3));
    assert_eq!(reg.contents(), before);
}

#[test]
fn despawned_entity_not_resurrected_by_rollback() {
    let mut reg = Registry::new(8);
    reg.register(1, state(0, 0));
    reg.register(2, state(50, 50));
    reg.snapshot(0);
    // entity 2 despawns mid-match
    assert!(reg.unregister(2));
    reg.snapshot(1);
    assert_eq!(reg.contents().len(), 1);
    // a rollback referencing the earlier frame succeeds and does not
    // resurrect the despawned entity
    assert!(reg.restore(0));
    let live = reg.contents();
    assert_eq!(live.len(), 1);
    assert_eq!(live[0].id, 1);
}

#[test]
fn entity_registered_after_snapshot_keeps_live_state() {
    let mut reg = Registry::new(8);
    reg.register(1, state(0, 0));
    reg.snapshot(0);
    reg.register(2, state(9, 9));
    assert!(reg.restore(0));
    let live = reg.contents();
    assert_eq!(live.len(), 2);
    assert_eq!(live[1].id, 2);
    assert_eq!(live[1].state, state(9, 9));
}

#[test]
fn ring_evicts_cyclically() {
    let mut reg = Registry::new(4);
    reg.register(1, state(0, 0));
    for f in 0..=4u32 {
        reg.snapshot(f);
    }
    // frame 4 overwrote frame 0's slot (4 % 4 == 0)
    assert!(!reg.restore(0));
    assert!(reg.restore(1));
    assert!(reg.restore(4));
}

#[test]
fn register_twice_is_refused() {
    let mut reg = Registry::new(2);
    assert!(reg.register(1, state(0, 0)));
    assert!(!reg.register(1, state(99, 99)));
    assert_eq!(reg.contents().len(), 1);
    assert_eq!(reg.contents()[0].state, state(0, 0));
}

#[test]
fn unregister_unknown_is_refused() {
    let mut reg = Registry::new(2);
    assert!(!reg.unregister(5));
}

#[test]
fn walking_diagonally_is_length_clamped() {
    // forward plus right, each one unit long: the diagonal is clamped back
    // to one unit (707/1000 per axis, rounded down), walking speed 3.
    let s = EntityState::at_rest();
    let t = apply_record(&s, &motion_rec(INPUT_UP | INPUT_RIGHT));
    assert_eq!(t.vel, v(2121, 0, -2121));
    assert_eq!(t.pos, v(2121, 0, -2121));
    assert_eq!(t.facing, v(707, 0, -707));
}

#[test]
fn running_forward_is_twice_walking() {
    let s = EntityState::at_rest();
    let walk = apply_record(&s, &motion_rec(INPUT_UP));
    let run = apply_record(&s, &motion_rec(INPUT_UP | INPUT_RUN));
    assert_eq!(walk.pos, v(0, 0, -3000));
    assert_eq!(run.pos, v(0, 0, -6000));
}

#[test]
fn no_direction_keeps_facing_and_stops() {
    let mut s = EntityState::at_rest();
    s.facing = v(707, 0, -707);
    s.vel = v(2121, 0, -2121);
    let t = apply_record(&s, &motion_rec(0));
    assert_eq!(t.vel, v(0, 0, 0));
    assert_eq!(t.pos, s.pos);
    assert_eq!(t.facing, v(707, 0, -707));
}

#[test]
fn oversized_basis_saturates_to_unit() {
    // a basis component beyond one world unit acts as exactly one unit
    let big = InputRecord {
        frame: 0,
        handle: 0,
        bits: INPUT_UP,
        basis_fwd_x: 0,
        basis_fwd_z: i32::MIN,
        basis_right_x: 1000,
        basis_right_z: 0,
    };
    let s = EntityState::at_rest();
    assert_eq!(apply_record(&s, &big), apply_record(&s, &motion_rec(INPUT_UP)));
}

#[test]
fn payload_ignores_routing_metadata() {
    let a = motion_rec(INPUT_UP);
    let mut b = a;
    b.frame = 999;
    b.handle = 3;
    assert!(payload_eq(&a, &b));
    b.bits = 0;
    assert!(!payload_eq(&a, &b));
}

#[test]
fn step_saturates_at_world_bounds() {
    let mut s = EntityState::at_rest();
    s.pos = v(i64::MAX - 1, 0, i64::MIN + 1);
    let t = step(&s, v(10, 0, -10), v(0, 0, 0));
    assert_eq!(t.pos, v(i64::MAX, 0, i64::MIN));
}

#[test]
fn integer_square_roots_are_exact() {
    assert_eq!(isqrt64(0), 0);
    assert_eq!(isqrt64(1), 1);
    assert_eq!(isqrt64(3), 1);
    assert_eq!(isqrt64(4), 2);
    assert_eq!(isqrt64(2_000_000), 1414);
    assert_eq!(isqrt64(u64::MAX), 0xFFFF_FFFF);
}

#[test]
fn saturating_addition_is_exact() {
    assert_eq!(sat_add(1, 2), 3);
    assert_eq!(sat_add(i64::MAX, 1), i64::MAX);
    assert_eq!(sat_add(i64::MIN, -1), i64::MIN);
    assert_eq!(sat_add(i64::MIN, i64::MAX), -1);
}
