//! Input collector: samples the instantaneous control-device state into a
//! fixed-layout record once per simulation tick.
//!
//! The sampled record depends only on the device state and the values passed
//! in, never on simulation state, so identical device state always yields an
//! identical record — the same record may be replayed during a later rollback.

use vstd::prelude::*;
use crate::wire::{
    InputRecord, INPUT_UP, INPUT_DOWN, INPUT_LEFT, INPUT_RIGHT, INPUT_JUMP, INPUT_RUN,
};

verus! {

/// Instantaneous state of the control device, one flag per discrete action.
#[derive(Clone, Copy, Debug, PartialEq, Eq, Structural)]
pub struct DeviceState {
    pub up: bool,
    pub down: bool,
    pub left: bool,
    pub right: bool,
    pub jump: bool,
    pub run: bool,
}

impl DeviceState {
    /// A device with nothing pressed.
    pub fn released() -> (d: DeviceState)
        ensures
            d == (DeviceState { up: false, down: false, left: false, right: false, jump: false, run: false }),
    {
        DeviceState { up: false, down: false, left: false, right: false, jump: false, run: false }
    }
}

/// The action bitmask sampled from a device state.
pub open spec fn spec_bits(d: DeviceState) -> u8 {
    (if d.up { INPUT_UP } else { 0 }) | (if d.down { INPUT_DOWN } else { 0 }) | (if d.left {
        INPUT_LEFT
    } else {
        0
    }) | (if d.right { INPUT_RIGHT } else { 0 }) | (if d.jump { INPUT_JUMP } else { 0 }) | (if d.run {
        INPUT_RUN
    } else {
        0
    })
}

/// Whether an action bit is set in a bitmask.
pub open spec fn spec_pressed(bits: u8, mask: u8) -> bool {
    bits & mask != 0
}

/// Each action flag of the device is carried by exactly its own bit of the
/// sampled mask.
pub proof fn lemma_bits_faithful(d: DeviceState)
    ensures
        spec_pressed(spec_bits(d), INPUT_UP) == d.up,
        spec_pressed(spec_bits(d), INPUT_DOWN) == d.down,
        spec_pressed(spec_bits(d), INPUT_LEFT) == d.left,
        spec_pressed(spec_bits(d), INPUT_RIGHT) == d.right,
        spec_pressed(spec_bits(d), INPUT_JUMP) == d.jump,
        spec_pressed(spec_bits(d), INPUT_RUN) == d.run,
{
    let u: u8 = if d.up { 1 } else { 0 };
    let dn: u8 = if d.down { 2 } else { 0 };
    let l: u8 = if d.left { 4 } else { 0 };
    let r: u8 = if d.right { 8 } else { 0 };
    let j: u8 = if d.jump { 16 } else { 0 };
    let ru: u8 = if d.run { 32 } else { 0 };
    assert((u == 0 || u == 1) && (dn == 0 || dn == 2) && (l == 0 || l == 4) && (r == 0 || r == 8)
        && (j == 0 || j == 16) && (ru == 0 || ru == 32) ==> {
        let m = u | dn | l | r | j | ru;
        &&& (m & 1 != 0) == (u == 1)
        &&& (m & 2 != 0) == (dn == 2)
        &&& (m & 4 != 0) == (l == 4)
        &&& (m & 8 != 0) == (r == 8)
        &&& (m & 16 != 0) == (j == 16)
        &&& (m & 32 != 0) == (ru == 32)
    }) by (bit_vector);
}

/// Sample the device into the action bitmask.
pub fn sample_bits(d: &DeviceState) -> (bits: u8)
    ensures
        bits == spec_bits(*d),
{
    let bu: u8 = if d.up {
        INPUT_UP
    } else {
        0
    };
    let bd: u8 = if d.down {
        INPUT_DOWN
    } else {
        0
    };
    let bl: u8 = if d.left {
        INPUT_LEFT
    } else {
        0
    };
    let br: u8 = if d.right {
        INPUT_RIGHT
    } else {
        0
    };
    let bj: u8 = if d.jump {
        INPUT_JUMP
    } else {
        0
    };
    let bn: u8 = if d.run {
        INPUT_RUN
    } else {
        0
    };
    bu | bd | bl | br | bj | bn
}

/// Sample the full wire record for one frame and handle: the action bitmask
/// from the device, the reference basis from the caller's current camera
/// orientation (already reduced to fixed-point horizontal components).
pub fn sample_record(
    frame: u32,
    handle: u8,
    d: &DeviceState,
    basis_fwd_x: i32,
    basis_fwd_z: i32,
    basis_right_x: i32,
    basis_right_z: i32,
) -> (r: InputRecord)
    ensures
        r == spec_sample(frame, handle, *d, basis_fwd_x, basis_fwd_z, basis_right_x, basis_right_z),
{
    InputRecord {
        frame,
        handle,
        bits: sample_bits(d),
        basis_fwd_x,
        basis_fwd_z,
        basis_right_x,
        basis_right_z,
    }
}

/// The record that sampling produces: a pure function of the device state and
/// the given basis, never of simulation state.
pub open spec fn spec_sample(
    frame: u32,
    handle: u8,
    d: DeviceState,
    basis_fwd_x: i32,
    basis_fwd_z: i32,
    basis_right_x: i32,
    basis_right_z: i32,
) -> InputRecord {
    InputRecord {
        frame,
        handle,
        bits: spec_bits(d),
        basis_fwd_x,
        basis_fwd_z,
        basis_right_x,
        basis_right_z,
    }
}

} // verus!
