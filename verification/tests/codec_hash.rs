//! The byte codecs and the content hash, on exact values.

use egregoria::codec::{dec_bytes, dec_u64, push_bytes, push_u64};
use egregoria::hashing::hash_u64;

#[test]
fn u64_is_written_little_endian() {
    let mut out: Vec<u8> = Vec::new();
    push_u64(&mut out, 0x0102_0304_0506_0708);
    assert_eq!(out, vec![0x08, 0x07, 0x06, 0x05, 0x04, 0x03, 0x02, 0x01]);
    let mut small: Vec<u8> = Vec::new();
    push_u64(&mut small, 5);
    assert_eq!(small, vec![5, 0, 0, 0, 0, 0, 0, 0]);
}

#[test]
fn u64_round_trips() {
    for v in [0u64, 1, 255, 256, u64::MAX, 0xDEAD_BEEF] {
        let mut out: Vec<u8> = Vec::new();
        push_u64(&mut out, v);
        assert_eq!(dec_u64(&out, 0), Some((v, 8)));
    }
    assert_eq!(dec_u64(&vec![1, 2, 3], 0), None);
}

#[test]
fn byte_strings_round_trip_with_length_prefix() {
    let mut out: Vec<u8> = Vec::new();
    push_bytes(&mut out, &vec![9, 8, 7]);
    assert_eq!(out, vec![3, 0, 0, 0, 0, 0, 0, 0, 9, 8, 7]);
    let (data, j) = dec_bytes(&out, 0).unwrap();
    assert_eq!(data, vec![9, 8, 7]);
    assert_eq!(j, 11);
    // a length prefix pointing past the end is rejected
    assert_eq!(dec_bytes(&vec![4, 0, 0, 0, 0, 0, 0, 0, 1], 0), None);
}

#[test]
fn fnv_matches_known_vectors() {
    assert_eq!(hash_u64(&Vec::new()), 0xcbf29ce484222325);
    assert_eq!(hash_u64(&vec![0x61]), 0xaf63dc4c8601ec8c);
    assert_eq!(hash_u64(&vec![0x61, 0x62, 0x63]), 0xe71fa2190541574b);
}
