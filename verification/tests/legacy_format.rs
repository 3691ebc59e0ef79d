//! The legacy raw format: big-endian IEEE-754 floats, no header, lossless.

use oxygen::legacy::{decode_v0, encode_v0};

#[test]
fn legacy_bytes_are_big_endian_floats() {
    let bits = vec![1.0f32.to_bits()];
    let out = encode_v0(&bits);
    assert_eq!(out, vec![0x3F, 0x80, 0x00, 0x00]);
}

#[test]
fn legacy_round_trip_is_lossless() {
    let input = vec![0.25f32, -1.0, 3.875, -0.0, 0.0, f32::MIN_POSITIVE];
    let bits: Vec<u32> = input.iter().map(|s| s.to_bits()).collect();
    let blob = encode_v0(&bits);
    assert_eq!(blob.len(), 4 * input.len());
    let back = decode_v0(&blob);
    assert_eq!(back.len(), input.len());
    for (a, b) in back.iter().zip(input.iter()) {
        assert_eq!(*a, b.to_bits());
    }
    // -0.0 kept its sign bit: the round trip is bit-exact, not just
    // numerically equal.
    assert_eq!(f32::from_bits(back[3]).to_bits(), (-0.0f32).to_bits());
}

#[test]
fn hand_built_blob_decodes_to_the_same_floats() {
    let values = [0.5f32, -0.125, 42.0];
    let mut blob: Vec<u8> = Vec::new();
    for v in &values {
        blob.extend_from_slice(&v.to_be_bytes());
    }
    let back = decode_v0(&blob);
    assert_eq!(back.len(), 3);
    for (bits, v) in back.iter().zip(values.iter()) {
        assert_eq!(f32::from_bits(*bits), *v);
    }
}

#[test]
fn empty_blob_decodes_to_no_samples() {
    let blob: Vec<u8> = Vec::new();
    assert!(decode_v0(&blob).is_empty());
}
