use kzg_msm::group::{GroupElement, g1_generator, g2_generator};
use kzg_msm::setup::{
    generate_trusted_setup, hash_to_bls_field, save_secrets_to_bytes, load_secrets_from_bytes,
    load_g1,
};

#[test]
fn trusted_setup_powers_of_one() {
    let mut secret = [0u8; 32];
    secret[0] = 1;
    assert_eq!(hash_to_bls_field(&secret), 1);
    let (s1, s2) = generate_trusted_setup(3, secret);
    let g1 = g1_generator();
    let g2 = g2_generator();
    assert_eq!(s1, vec![g1, g1, g1]);
    assert_eq!(s2, vec![g2, g2, g2]);
}

#[test]
fn trusted_setup_powers_of_two() {
    let mut secret = [0u8; 32];
    secret[0] = 2;
    let (s1, _s2) = generate_trusted_setup(4, secret);
    let g1 = g1_generator();
    assert_eq!(s1[0], g1);
    assert_eq!(s1[1], g1.mul_u64(2));
    assert_eq!(s1[2], g1.mul_u64(4));
    assert_eq!(s1[3], g1.mul_u64(8));
}

#[test]
fn secrets_round_trip_both_encodings() {
    let mut secret = [0u8; 32];
    secret[0] = 5;
    secret[8] = 9;
    let (s1, s2) = generate_trusted_setup(6, secret);
    for compressed in [true, false] {
        let bytes = save_secrets_to_bytes(&s1, &s2, compressed);
        let (b1, b2) = load_secrets_from_bytes(&bytes, compressed).unwrap();
        assert_eq!(b1, s1);
        assert_eq!(b2, s2);
    }
}

#[test]
fn truncated_secrets_are_rejected() {
    let mut secret = [0u8; 32];
    secret[0] = 3;
    let (s1, s2) = generate_trusted_setup(2, secret);
    let mut bytes = save_secrets_to_bytes(&s1, &s2, true);
    bytes.pop();
    assert!(load_secrets_from_bytes(&bytes, true).is_err());
    assert!(load_g1(&[1, 2, 3], true).is_err());
}

#[test]
fn parallel_record_decoding() {
    // Raw little-endian records decode to the matching points; a
    // result echoing the input bytes or reordering records would fail.
    let mut bytes = Vec::new();
    for v in [4u64, 99, 12345] {
        bytes.extend_from_slice(&v.to_le_bytes());
    }
    let pts = kzg_msm::setup::par_parse_points(&bytes, true).unwrap();
    assert_eq!(pts.len(), 3);
    assert_eq!(pts[0].value, 4);
    assert_eq!(pts[1].value, 99);
    assert_eq!(pts[2].value, 12345);
    // An out-of-range record fails the whole block.
    bytes.extend_from_slice(&u64::MAX.to_le_bytes());
    assert!(kzg_msm::setup::par_parse_points(&bytes, true).is_err());
}

#[test]
fn load_g1_decodes_declared_records() {
    // An 8-byte count followed by that many compressed records decodes
    // to exactly those residues, and reports where the list ends.
    let mut bytes = Vec::new();
    bytes.extend_from_slice(&2u64.to_le_bytes());
    bytes.extend_from_slice(&7u64.to_le_bytes());
    bytes.extend_from_slice(&11u64.to_le_bytes());
    bytes.extend_from_slice(&0xffu8.to_le_bytes());
    let (pts, next) = load_g1(&bytes, true).unwrap();
    assert_eq!(pts.len(), 2);
    assert_eq!(pts[0].value, 7);
    assert_eq!(pts[1].value, 11);
    assert_eq!(next, 24);
    // A declared record that is not canonical fails the list.
    let mut bad = Vec::new();
    bad.extend_from_slice(&1u64.to_le_bytes());
    bad.extend_from_slice(&u64::MAX.to_le_bytes());
    assert!(load_g1(&bad, true).is_err());
}
