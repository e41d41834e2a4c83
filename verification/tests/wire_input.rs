use lockstep::wire::{
    decode, encode, InputRecord, INPUT_DOWN, INPUT_JUMP, INPUT_LEFT, INPUT_RIGHT, INPUT_RUN,
    INPUT_UP, RECORD_BYTES,
};
use lockstep::input::{sample_bits, sample_record, DeviceState};
use lockstep::SyncError;

fn rec(frame: u32, handle: u8, bits: u8) -> InputRecord {
    InputRecord {
        frame,
        handle,
        bits,
        basis_fwd_x: 0,
        basis_fwd_z: -1000,
        basis_right_x: 1000,
        basis_right_z: 0,
    }
}

#[test]
fn round_trip_every_action_bit_combination() {
    for bits in 0..=255u8 {
        let r = rec(90_000, 1, bits);
        let encoded = encode(&r);
        assert_eq!(encoded.len(), RECORD_BYTES);
        assert_eq!(decode(&encoded), Ok(r));
    }
}

#[test]
fn round_trip_extreme_aux_values() {
    let cases = [i32::MIN, -1000, -1, 0, 1, 707, 1000, i32::MAX];
    for &a in &cases {
        for &b in &cases {
            let r = InputRecord {
                frame: u32::MAX,
                handle: 255,
                bits: INPUT_UP | INPUT_RUN,
                basis_fwd_x: a,
                basis_fwd_z: b,
                basis_right_x: b,
                basis_right_z: a,
            };
            assert_eq!(decode(&encode(&r)), Ok(r));
        }
    }
}

#[test]
fn encoded_layout_is_fixed_width() {
    let r = rec(0x04030201, 7, INPUT_JUMP);
    let bytes = encode(&r);
    assert_eq!(bytes.len(), 25);
    // frame, little endian
    assert_eq!(&bytes[0..4], &[0x01, 0x02, 0x03, 0x04]);
    // handle, action bits
    assert_eq!(bytes[4], 7);
    assert_eq!(bytes[5], INPUT_JUMP);
    // reserved bytes are zero
    assert_eq!(&bytes[6..9], &[0, 0, 0]);
}

#[test]
fn re_encoding_a_decoded_record_is_canonical() {
    let bytes = encode(&rec(123_456, 3, INPUT_DOWN | INPUT_RUN));
    let decoded = decode(&bytes).unwrap();
    assert_eq!(encode(&decoded), bytes);
}

#[test]
fn malformed_too_short_rejected() {
    let bytes = vec![0u8; RECORD_BYTES - 1];
    assert_eq!(decode(&bytes), Err(SyncError::MalformedRecord));
}

#[test]
fn malformed_too_long_rejected() {
    let bytes = vec![0u8; RECORD_BYTES + 1];
    assert_eq!(decode(&bytes), Err(SyncError::MalformedRecord));
}

#[test]
fn malformed_reserved_byte_rejected() {
    let mut bytes = encode(&rec(5, 0, INPUT_UP));
    bytes[7] = 1;
    assert_eq!(decode(&bytes), Err(SyncError::MalformedRecord));
}

#[test]
fn sampled_bits_carry_each_action() {
    let d = DeviceState { up: true, down: false, left: true, right: false, jump: true, run: false };
    let bits = sample_bits(&d);
    assert_eq!(bits, INPUT_UP | INPUT_LEFT | INPUT_JUMP);
    let d = DeviceState { up: false, down: true, left: false, right: true, jump: false, run: true };
    assert_eq!(sample_bits(&d), INPUT_DOWN | INPUT_RIGHT | INPUT_RUN);
    assert_eq!(sample_bits(&DeviceState::released()), 0);
}

#[test]
fn sampling_is_deterministic_in_device_state() {
    let d = DeviceState { up: true, down: false, left: false, right: true, jump: false, run: true };
    let a = sample_record(42, 1, &d, 0, -1000, 1000, 0);
    let b = sample_record(42, 1, &d, 0, -1000, 1000, 0);
    assert_eq!(a, b);
    assert_eq!(a.frame, 42);
    assert_eq!(a.handle, 1);
    assert_eq!(a.bits, INPUT_UP | INPUT_RIGHT | INPUT_RUN);
}
