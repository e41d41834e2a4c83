//! Fixed-layout wire representation of one player's input for one frame.
//!
//! The layout is fixed-width and padding-free so that no two peers can
//! disagree on its decoding: 4 bytes frame (little endian), 1 byte handle,
//! 1 byte action bits, 3 reserved zero bytes, then four 4-byte fixed-point
//! auxiliary words (the sender's reference-basis forward and right vectors,
//! x and z components each).

use vstd::prelude::*;
use crate::SyncError;

verus! {

/// Total width in bytes of one encoded record.
pub const RECORD_BYTES: usize = 25;

/// Action bit: move forward.
pub const INPUT_UP: u8 = 1;
/// Action bit: move backward.
pub const INPUT_DOWN: u8 = 2;
/// Action bit: strafe left.
pub const INPUT_LEFT: u8 = 4;
/// Action bit: strafe right.
pub const INPUT_RIGHT: u8 = 8;
/// Action bit: jump.
pub const INPUT_JUMP: u8 = 16;
/// Action bit: run instead of walk.
pub const INPUT_RUN: u8 = 32;

/// Offset added when carrying a signed fixed-point component in a wire word.
pub const WORD_BIAS: i64 = 0x8000_0000;

/// One player's input for one frame.
///
/// The basis fields carry the sender's horizontal reference basis (the
/// camera-derived forward and right directions, fixed-point, y omitted as it
/// is always discarded), so that resolving the record to a motion is a pure
/// function of the record itself and replays identically during a rollback.
#[derive(Clone, Copy, Debug, PartialEq, Eq, Structural)]
pub struct InputRecord {
    /// Simulation frame this record applies to.
    pub frame: u32,
    /// Player handle of the sender.
    pub handle: u8,
    /// Discrete action bitmask (`INPUT_UP` .. `INPUT_RUN`).
    pub bits: u8,
    /// Reference-basis forward vector, x component, fixed point.
    pub basis_fwd_x: i32,
    /// Reference-basis forward vector, z component, fixed point.
    pub basis_fwd_z: i32,
    /// Reference-basis right vector, x component, fixed point.
    pub basis_right_x: i32,
    /// Reference-basis right vector, z component, fixed point.
    pub basis_right_z: i32,
}

/// The little-endian bytes of a 32-bit word.
pub open spec fn u32_le(x: u32) -> Seq<u8> {
    seq![
        (x & 0xff) as u8,
        ((x >> 8) & 0xff) as u8,
        ((x >> 16) & 0xff) as u8,
        ((x >> 24) & 0xff) as u8,
    ]
}

/// The 32-bit word read from four little-endian bytes.
pub open spec fn u32_of_le(b0: u8, b1: u8, b2: u8, b3: u8) -> u32 {
    (b0 as u32) | ((b1 as u32) << 8) | ((b2 as u32) << 16) | ((b3 as u32) << 24)
}

/// The wire word that carries a signed fixed-point component.
pub open spec fn word_of_fx(x: i32) -> u32 {
    ((x as int) + WORD_BIAS) as u32
}

/// The signed fixed-point component carried by a wire word.
pub open spec fn fx_of_word(w: u32) -> i32 {
    ((w as int) - WORD_BIAS) as i32
}

/// The exact byte sequence that `encode` produces for a record.
pub open spec fn spec_encode(r: InputRecord) -> Seq<u8> {
    u32_le(r.frame) + seq![r.handle, r.bits, 0u8, 0u8, 0u8] + u32_le(word_of_fx(r.basis_fwd_x))
        + u32_le(word_of_fx(r.basis_fwd_z)) + u32_le(word_of_fx(r.basis_right_x)) + u32_le(
        word_of_fx(r.basis_right_z),
    )
}

/// The record read back from a byte sequence, or `None` when the layout or
/// length is invalid.
pub open spec fn spec_decode(s: Seq<u8>) -> Option<InputRecord> {
    if s.len() != RECORD_BYTES {
        None
    } else if s[6] != 0 || s[7] != 0 || s[8] != 0 {
        None
    } else {
        Some(
            InputRecord {
                frame: u32_of_le(s[0], s[1], s[2], s[3]),
                handle: s[4],
                bits: s[5],
                basis_fwd_x: fx_of_word(u32_of_le(s[9], s[10], s[11], s[12])),
                basis_fwd_z: fx_of_word(u32_of_le(s[13], s[14], s[15], s[16])),
                basis_right_x: fx_of_word(u32_of_le(s[17], s[18], s[19], s[20])),
                basis_right_z: fx_of_word(u32_of_le(s[21], s[22], s[23], s[24])),
            },
        )
    }
}

/// Reading four little-endian bytes of a word gives the word back.
pub proof fn lemma_u32_le_value(x: u32)
    ensures
        u32_of_le(u32_le(x)[0], u32_le(x)[1], u32_le(x)[2], u32_le(x)[3]) == x,
{
    assert((((x & 0xff) as u8) as u32) | ((((x >> 8) & 0xff) as u8) as u32) << 8 | ((((x >> 16)
        & 0xff) as u8) as u32) << 16 | ((((x >> 24) & 0xff) as u8) as u32) << 24 == x)
        by (bit_vector);
}

/// The biased wire word carries the signed component faithfully.
pub proof fn lemma_word_fx_value(x: i32)
    ensures
        fx_of_word(word_of_fx(x)) == x,
{
    assert(0 <= (x as int) + WORD_BIAS < 0x1_0000_0000);
}

/// Writing the word read from four little-endian bytes gives the bytes back.
pub proof fn lemma_u32_le_bytes(b0: u8, b1: u8, b2: u8, b3: u8)
    ensures
        u32_le(u32_of_le(b0, b1, b2, b3)) =~= seq![b0, b1, b2, b3],
{
    let x = u32_of_le(b0, b1, b2, b3);
    assert({
        let y = (b0 as u32) | ((b1 as u32) << 8) | ((b2 as u32) << 16) | ((b3 as u32) << 24);
        &&& (y & 0xff) as u8 == b0
        &&& ((y >> 8) & 0xff) as u8 == b1
        &&& ((y >> 16) & 0xff) as u8 == b2
        &&& ((y >> 24) & 0xff) as u8 == b3
    }) by (bit_vector);
}

/// Biasing the component read from a wire word gives the word back.
pub proof fn lemma_fx_word_value(w: u32)
    ensures
        word_of_fx(fx_of_word(w)) == w,
{
    assert(-0x8000_0000 <= (w as int) - WORD_BIAS < 0x8000_0000);
}

fn push_u32_le(out: &mut Vec<u8>, x: u32)
    ensures
        final(out)@ == old(out)@ + u32_le(x),
{
    proof {
        assert(x & 0xff < 256 && (x >> 8) & 0xff < 256 && (x >> 16) & 0xff < 256 && (x >> 24)
            & 0xff < 256) by (bit_vector);
    }
    out.push((x & 0xff) as u8);
    out.push(((x >> 8) & 0xff) as u8);
    out.push(((x >> 16) & 0xff) as u8);
    out.push(((x >> 24) & 0xff) as u8);
    proof {
        assert(out@ =~= old(out)@ + u32_le(x));
    }
}

fn fx_to_word(x: i32) -> (w: u32)
    ensures
        w == word_of_fx(x),
{
    ((x as i64) + WORD_BIAS) as u32
}

fn word_to_fx(w: u32) -> (x: i32)
    ensures
        x == fx_of_word(w),
{
    ((w as i64) - WORD_BIAS) as i32
}

/// Encode a record into its fixed 25-byte wire layout.
pub fn encode(r: &InputRecord) -> (out: Vec<u8>)
    ensures
        out@ == spec_encode(*r),
        out@.len() == RECORD_BYTES,
{
    let mut out: Vec<u8> = Vec::new();
    push_u32_le(&mut out, r.frame);
    out.push(r.handle);
    out.push(r.bits);
    out.push(0);
    out.push(0);
    out.push(0);
    push_u32_le(&mut out, fx_to_word(r.basis_fwd_x));
    push_u32_le(&mut out, fx_to_word(r.basis_fwd_z));
    push_u32_le(&mut out, fx_to_word(r.basis_right_x));
    push_u32_le(&mut out, fx_to_word(r.basis_right_z));
    proof {
        assert(out@ =~= spec_encode(*r));
    }
    out
}

fn u32_from_le(b0: u8, b1: u8, b2: u8, b3: u8) -> (x: u32)
    ensures
        x == u32_of_le(b0, b1, b2, b3),
{
    (b0 as u32) | ((b1 as u32) << 8) | ((b2 as u32) << 16) | ((b3 as u32) << 24)
}

/// Decode a wire record; a byte sequence with an invalid length or layout is
/// rejected with `MalformedRecord` and never causes a crash.
pub fn decode(bytes: &Vec<u8>) -> (r: Result<InputRecord, SyncError>)
    ensures
        match r {
            Ok(rec) => spec_decode(bytes@) == Some(rec),
            Err(e) => e == SyncError::MalformedRecord && spec_decode(bytes@) is None,
        },
{
    if bytes.len() != RECORD_BYTES {
        return Err(SyncError::MalformedRecord);
    }
    if bytes[6] != 0 || bytes[7] != 0 || bytes[8] != 0 {
        return Err(SyncError::MalformedRecord);
    }
    Ok(
        InputRecord {
            frame: u32_from_le(bytes[0], bytes[1], bytes[2], bytes[3]),
            handle: bytes[4],
            bits: bytes[5],
            basis_fwd_x: word_to_fx(u32_from_le(bytes[9], bytes[10], bytes[11], bytes[12])),
            basis_fwd_z: word_to_fx(u32_from_le(bytes[13], bytes[14], bytes[15], bytes[16])),
            basis_right_x: word_to_fx(u32_from_le(bytes[17], bytes[18], bytes[19], bytes[20])),
            basis_right_z: word_to_fx(u32_from_le(bytes[21], bytes[22], bytes[23], bytes[24])),
        },
    )
}

/// Round trip: decoding an encoded record gives the record back, for every
/// representable action-bit combination and every auxiliary value.
pub proof fn lemma_record_roundtrip(r: InputRecord)
    ensures
        spec_decode(spec_encode(r)) == Some(r),
{
    let s = spec_encode(r);
    assert(s.len() == RECORD_BYTES);
    assert(s[6] == 0 && s[7] == 0 && s[8] == 0);
    assert(s[0] == u32_le(r.frame)[0] && s[1] == u32_le(r.frame)[1] && s[2] == u32_le(r.frame)[2]
        && s[3] == u32_le(r.frame)[3]);
    lemma_u32_le_value(r.frame);
    assert(s[4] == r.handle && s[5] == r.bits);
    let wfx = word_of_fx(r.basis_fwd_x);
    let wfz = word_of_fx(r.basis_fwd_z);
    let wrx = word_of_fx(r.basis_right_x);
    let wrz = word_of_fx(r.basis_right_z);
    assert(s[9] == u32_le(wfx)[0] && s[10] == u32_le(wfx)[1] && s[11] == u32_le(wfx)[2] && s[12]
        == u32_le(wfx)[3]);
    assert(s[13] == u32_le(wfz)[0] && s[14] == u32_le(wfz)[1] && s[15] == u32_le(wfz)[2] && s[16]
        == u32_le(wfz)[3]);
    assert(s[17] == u32_le(wrx)[0] && s[18] == u32_le(wrx)[1] && s[19] == u32_le(wrx)[2] && s[20]
        == u32_le(wrx)[3]);
    assert(s[21] == u32_le(wrz)[0] && s[22] == u32_le(wrz)[1] && s[23] == u32_le(wrz)[2] && s[24]
        == u32_le(wrz)[3]);
    lemma_u32_le_value(wfx);
    lemma_u32_le_value(wfz);
    lemma_u32_le_value(wrx);
    lemma_u32_le_value(wrz);
    lemma_word_fx_value(r.basis_fwd_x);
    lemma_word_fx_value(r.basis_fwd_z);
    lemma_word_fx_value(r.basis_right_x);
    lemma_word_fx_value(r.basis_right_z);
}

/// The layout is canonical: a record read from a valid byte sequence writes
/// back to exactly that sequence, so no two peers can associate one record
/// with two different encodings.
pub proof fn lemma_encoding_canonical(s: Seq<u8>, r: InputRecord)
    requires
        spec_decode(s) == Some(r),
    ensures
        spec_encode(r) =~= s,
{
    lemma_u32_le_bytes(s[0], s[1], s[2], s[3]);
    lemma_u32_le_bytes(s[9], s[10], s[11], s[12]);
    lemma_u32_le_bytes(s[13], s[14], s[15], s[16]);
    lemma_u32_le_bytes(s[17], s[18], s[19], s[20]);
    lemma_u32_le_bytes(s[21], s[22], s[23], s[24]);
    lemma_fx_word_value(u32_of_le(s[9], s[10], s[11], s[12]));
    lemma_fx_word_value(u32_of_le(s[13], s[14], s[15], s[16]));
    lemma_fx_word_value(u32_of_le(s[17], s[18], s[19], s[20]));
    lemma_fx_word_value(u32_of_le(s[21], s[22], s[23], s[24]));
}

} // verus!
