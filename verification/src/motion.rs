//! Player-input binding and the deterministic step.
//!
//! Resolving an input record to a motion uses only the record itself: the
//! discrete directional bits are combined with the reference basis the record
//! carries, so an identical record always resolves to an identical motion —
//! including during a rollback replay. A live (non-registered) camera
//! orientation never enters the computation; the sender reduced it to the
//! fixed-point basis when the record was sampled.

use vstd::prelude::*;
use crate::fx::{
    Vec3Fx, FX_ONE, DIR_BOUND, spec_clamp_xz, clamp_len_xz, lemma_clamp_bounds, spec_vadd_sat,
    vadd_sat,
};
use crate::wire::{InputRecord, INPUT_UP, INPUT_DOWN, INPUT_LEFT, INPUT_RIGHT, INPUT_RUN};
use crate::input::spec_pressed;

verus! {

/// Fixed-point speed factor while running.
pub const RUN_SPEED: i64 = 6;

/// Fixed-point speed factor while walking.
pub const WALK_SPEED: i64 = 3;

/// The rollback-registered state of one networked entity: pose position,
/// velocity and facing, all fixed point.
#[derive(Clone, Copy, Debug, PartialEq, Eq, Structural)]
pub struct EntityState {
    pub pos: Vec3Fx,
    pub vel: Vec3Fx,
    pub facing: Vec3Fx,
}

impl EntityState {
    /// An entity at rest at the origin.
    pub fn at_rest() -> (s: EntityState)
        ensures
            s == (EntityState {
                pos: Vec3Fx::spec_zero(),
                vel: Vec3Fx::spec_zero(),
                facing: Vec3Fx::spec_zero(),
            }),
    {
        EntityState { pos: Vec3Fx::zero(), vel: Vec3Fx::zero(), facing: Vec3Fx::zero() }
    }
}

/// A basis component saturated into one world unit of magnitude, so that any
/// wire value resolves to a bounded direction.
pub open spec fn spec_clip_basis(c: int) -> int {
    if c > FX_ONE {
        FX_ONE as int
    } else if c < -FX_ONE {
        -FX_ONE as int
    } else {
        c
    }
}

fn clip_basis(c: i32) -> (r: i64)
    ensures
        r as int == spec_clip_basis(c as int),
{
    if c as i64 > FX_ONE {
        FX_ONE
    } else if (c as i64) < -FX_ONE {
        -FX_ONE
    } else {
        c as i64
    }
}

/// The horizontal direction a record asks for, before length clamping: the
/// sum of the saturated basis vectors its directional bits select.
pub open spec fn spec_direction(r: InputRecord) -> (int, int) {
    let fx = spec_clip_basis(r.basis_fwd_x as int);
    let fz = spec_clip_basis(r.basis_fwd_z as int);
    let rx = spec_clip_basis(r.basis_right_x as int);
    let rz = spec_clip_basis(r.basis_right_z as int);
    let fwd_w = (if spec_pressed(r.bits, INPUT_UP) { 1int } else { 0 }) - (if spec_pressed(
        r.bits,
        INPUT_DOWN,
    ) {
        1int
    } else {
        0
    });
    let right_w = (if spec_pressed(r.bits, INPUT_RIGHT) { 1int } else { 0 }) - (if spec_pressed(
        r.bits,
        INPUT_LEFT,
    ) {
        1int
    } else {
        0
    });
    (fwd_w * fx + right_w * rx, fwd_w * fz + right_w * rz)
}

/// The motion a record resolves to: desired velocity and desired forward,
/// exactly as a function of the record.
pub open spec fn spec_resolve(r: InputRecord) -> (Vec3Fx, Vec3Fx) {
    let (dx, dz) = spec_direction(r);
    let (cx, cz) = spec_clamp_xz(dx, dz);
    let speed: int = if spec_pressed(r.bits, INPUT_RUN) {
        RUN_SPEED as int
    } else {
        WALK_SPEED as int
    };
    (
        Vec3Fx { x: (cx * speed) as i64, y: 0, z: (cz * speed) as i64 },
        Vec3Fx { x: cx as i64, y: 0, z: cz as i64 },
    )
}

/// The requested direction components stay within `DIR_BOUND`.
pub proof fn lemma_direction_bounds(r: InputRecord)
    ensures
        -DIR_BOUND <= spec_direction(r).0 <= DIR_BOUND,
        -DIR_BOUND <= spec_direction(r).1 <= DIR_BOUND,
{
    let fx = spec_clip_basis(r.basis_fwd_x as int);
    let fz = spec_clip_basis(r.basis_fwd_z as int);
    let rx = spec_clip_basis(r.basis_right_x as int);
    let rz = spec_clip_basis(r.basis_right_z as int);
    let fwd_w = (if spec_pressed(r.bits, INPUT_UP) { 1int } else { 0 }) - (if spec_pressed(
        r.bits,
        INPUT_DOWN,
    ) {
        1int
    } else {
        0
    });
    let right_w = (if spec_pressed(r.bits, INPUT_RIGHT) { 1int } else { 0 }) - (if spec_pressed(
        r.bits,
        INPUT_LEFT,
    ) {
        1int
    } else {
        0
    });
    assert(-2000 <= fwd_w * fx + right_w * rx <= 2000 && -2000 <= fwd_w * fz + right_w * rz <= 2000)
        by (nonlinear_arith)
        requires
            -1 <= fwd_w <= 1 && -1 <= right_w <= 1 && -1000 <= fx <= 1000 && -1000 <= fz <= 1000
                && -1000 <= rx <= 1000 && -1000 <= rz <= 1000,
    ;
}

/// Resolve a record to its desired velocity and desired forward direction.
pub fn resolve(r: &InputRecord) -> (m: (Vec3Fx, Vec3Fx))
    ensures
        m == spec_resolve(*r),
{
    let fx = clip_basis(r.basis_fwd_x);
    let fz = clip_basis(r.basis_fwd_z);
    let rx = clip_basis(r.basis_right_x);
    let rz = clip_basis(r.basis_right_z);
    let fwd_w: i64 = (if r.bits & INPUT_UP != 0 {
        1
    } else {
        0
    }) - (if r.bits & INPUT_DOWN != 0 {
        1
    } else {
        0
    });
    let right_w: i64 = (if r.bits & INPUT_RIGHT != 0 {
        1
    } else {
        0
    }) - (if r.bits & INPUT_LEFT != 0 {
        1
    } else {
        0
    });
    proof {
        assert(-2000 <= fwd_w * fx + right_w * rx <= 2000 && -2000 <= fwd_w * fz + right_w * rz
            <= 2000) by (nonlinear_arith)
            requires
                -1 <= fwd_w <= 1 && -1 <= right_w <= 1 && -1000 <= fx <= 1000 && -1000 <= fz
                    <= 1000 && -1000 <= rx <= 1000 && -1000 <= rz <= 1000,
        ;
    }
    let dx: i64 = fwd_w * fx + right_w * rx;
    let dz: i64 = fwd_w * fz + right_w * rz;
    proof {
        lemma_direction_bounds(*r);
        assert(dx as int == spec_direction(*r).0 && dz as int == spec_direction(*r).1);
    }
    let (cx, cz) = clamp_len_xz(dx, dz);
    proof {
        lemma_clamp_bounds(dx as int, dz as int);
    }
    let speed: i64 = if r.bits & INPUT_RUN != 0 {
        RUN_SPEED
    } else {
        WALK_SPEED
    };
    proof {
        assert(-12_000_000 <= cx * speed <= 12_000_000 && -12_000_000 <= cz * speed <= 12_000_000)
            by (nonlinear_arith)
            requires
                -2_000_000 <= cx <= 2_000_000 && -2_000_000 <= cz <= 2_000_000 && 0 <= speed <= 6,
        ;
    }
    (Vec3Fx { x: cx * speed, y: 0, z: cz * speed }, Vec3Fx { x: cx, y: 0, z: cz })
}

/// One deterministic step of the external movement collaborator, modelled on
/// plain fixed-point state: the velocity is adopted, the position integrates
/// it (saturating at the world bounds), and the facing follows the desired
/// forward whenever one is requested.
pub open spec fn spec_step(s: EntityState, vel: Vec3Fx, face: Vec3Fx) -> EntityState {
    EntityState {
        pos: spec_vadd_sat(s.pos, vel),
        vel,
        facing: if face == Vec3Fx::spec_zero() {
            s.facing
        } else {
            face
        },
    }
}

/// One deterministic step.
pub fn step(s: &EntityState, vel: Vec3Fx, face: Vec3Fx) -> (t: EntityState)
    ensures
        t == spec_step(*s, vel, face),
{
    let facing = if face.x == 0 && face.y == 0 && face.z == 0 {
        s.facing
    } else {
        face
    };
    EntityState { pos: vadd_sat(s.pos, vel), vel, facing }
}

/// Whether two records ask for the same motion: equal action bits and equal
/// reference basis. The frame and handle fields are routing metadata that
/// the simulation itself never reads.
pub open spec fn same_payload(a: InputRecord, b: InputRecord) -> bool {
    &&& a.bits == b.bits
    &&& a.basis_fwd_x == b.basis_fwd_x
    &&& a.basis_fwd_z == b.basis_fwd_z
    &&& a.basis_right_x == b.basis_right_x
    &&& a.basis_right_z == b.basis_right_z
}

/// Whether two records ask for the same motion.
pub fn payload_eq(a: &InputRecord, b: &InputRecord) -> (r: bool)
    ensures
        r == same_payload(*a, *b),
{
    a.bits == b.bits && a.basis_fwd_x == b.basis_fwd_x && a.basis_fwd_z == b.basis_fwd_z
        && a.basis_right_x == b.basis_right_x && a.basis_right_z == b.basis_right_z
}

/// Records with the same payload resolve to the same motion and step an
/// entity identically.
pub proof fn lemma_apply_payload(s: EntityState, a: InputRecord, b: InputRecord)
    requires
        same_payload(a, b),
    ensures
        spec_resolve(a) == spec_resolve(b),
        spec_apply_record(s, a) == spec_apply_record(s, b),
{
    assert(spec_direction(a) == spec_direction(b));
}

/// Resolve a record and step an entity by it: the per-entity unit of one
/// frame advance.
pub open spec fn spec_apply_record(s: EntityState, r: InputRecord) -> EntityState {
    let (vel, face) = spec_resolve(r);
    spec_step(s, vel, face)
}

/// Resolve a record and step an entity by it.
pub fn apply_record(s: &EntityState, r: &InputRecord) -> (t: EntityState)
    ensures
        t == spec_apply_record(*s, *r),
{
    let (vel, face) = resolve(r);
    step(s, vel, face)
}

} // verus!
