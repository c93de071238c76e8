//! The member header codec: encoding parameters and parsing them back,
//! tolerating trailing bytes.

use bfield::bfield_member::{decode_params, encode_params, BFieldParams};

#[test]
fn test_header_roundtrip_with_params() {
    let p = BFieldParams {
        n_hashes: 10,
        marker_width: 39,
        n_marker_bits: 4,
        other: Some(vec![5, 6, 7, 8]),
    };
    let bytes = encode_params(&p);
    assert_eq!(bytes.len(), 16);
    let q = decode_params(&bytes).unwrap();
    assert_eq!(q.n_hashes, 10);
    assert_eq!(q.marker_width, 39);
    assert_eq!(q.n_marker_bits, 4);
    assert_eq!(q.other, Some(vec![5, 6, 7, 8]));
}

#[test]
fn test_header_roundtrip_without_params() {
    let p = BFieldParams { n_hashes: 3, marker_width: 64, n_marker_bits: 4, other: None };
    let bytes = encode_params(&p);
    assert_eq!(bytes, vec![3, 64, 4, 0]);
    let q = decode_params(&bytes).unwrap();
    assert_eq!(q.n_hashes, 3);
    assert_eq!(q.other, None);
}

#[test]
fn test_header_tolerates_trailing_bytes() {
    let p = BFieldParams {
        n_hashes: 2,
        marker_width: 16,
        n_marker_bits: 4,
        other: Some(vec![1]),
    };
    let mut bytes = encode_params(&p);
    bytes.push(0xAB);
    bytes.push(0xCD);
    let q = decode_params(&bytes).unwrap();
    assert_eq!(q.other, Some(vec![1]));
}

#[test]
fn test_header_rejects_garbage() {
    // too short
    assert!(decode_params(&[1, 2, 3]).is_none());
    // unknown option tag
    assert!(decode_params(&[1, 2, 3, 7]).is_none());
    // length prefix reaching past the end
    let bytes = vec![1u8, 2, 3, 1, 200, 0, 0, 0, 0, 0, 0, 0];
    assert!(decode_params(&bytes).is_none());
}
