use avail_cda::scalar::Scalar;

fn le32(x: u64) -> [u8; 32] {
    let mut b = [0u8; 32];
    b[..8].copy_from_slice(&x.to_le_bytes());
    b
}

// The field order r, little-endian.
const MODULUS_LE: [u8; 32] = [
    0x01, 0x00, 0x00, 0x00, 0xff, 0xff, 0xff, 0xff, 0xfe, 0x5b, 0xfe, 0xff, 0x02, 0xa4, 0xbd, 0x53,
    0x05, 0xd8, 0xa1, 0x09, 0x08, 0xd8, 0x39, 0x33, 0x48, 0x7d, 0x9d, 0x29, 0x53, 0xa7, 0xed, 0x73,
];

#[test]
fn arithmetic_matches_integers() {
    let a = Scalar::from_u64(5);
    let b = Scalar::from_u64(7);
    assert_eq!(a.mul(&b).to_bytes(), le32(35));
    assert_eq!(a.add(&b).to_bytes(), le32(12));
    assert_eq!(b.sub(&a).to_bytes(), le32(2));
}

#[test]
fn subtraction_wraps_modulo_order() {
    let a = Scalar::from_u64(5);
    let b = Scalar::from_u64(7);
    // r - 2, little-endian.
    let expected: [u8; 32] = [
        0xff, 0xff, 0xff, 0xff, 0xfe, 0xff, 0xff, 0xff, 0xfe, 0x5b, 0xfe, 0xff, 0x02, 0xa4, 0xbd,
        0x53, 0x05, 0xd8, 0xa1, 0x09, 0x08, 0xd8, 0x39, 0x33, 0x48, 0x7d, 0x9d, 0x29, 0x53, 0xa7,
        0xed, 0x73,
    ];
    assert_eq!(a.sub(&b).to_bytes(), expected);
}

#[test]
fn inverse_of_two() {
    let two = Scalar::from_u64(2);
    let inv = two.inverse().expect("two is invertible");
    assert_eq!(inv.mul(&two).to_bytes(), le32(1));
    assert!(Scalar::from_u64(0).inverse().is_none());
}

#[test]
fn bytes_round_trip_and_canonical_check() {
    let s = Scalar::from_bytes(&le32(123456789)).expect("small values are canonical");
    assert_eq!(s.to_bytes(), le32(123456789));
    assert!(Scalar::from_bytes(&MODULUS_LE).is_none());
    let mut below = MODULUS_LE;
    below[0] = 0;
    assert!(Scalar::from_bytes(&below).is_some());
    assert!(Scalar::from_bytes(&[0xff; 32]).is_none());
}

#[test]
fn zero_test() {
    assert!(Scalar::from_u64(0).is_zero());
    assert!(!Scalar::from_u64(9).is_zero());
    let x = Scalar::from_u64(9);
    assert!(x.sub(&x).is_zero());
}
