use ed25519::encode::{bit, decodeint, decodepoint, encodeint, encodepoint, DecodeError};
use ed25519::point::{b_point, scalarmult, xrecover};
use num_bigint::BigInt;

#[test]
fn integer_encoding_round_trips() {
    let v = BigInt::from(1u64);
    let e = encodeint(&v);
    assert_eq!(e.len(), 32);
    assert_eq!(e[0], 1);
    assert!(e[1..].iter().all(|&b| b == 0));
    assert_eq!(decodeint(&e), v);
    let w: BigInt = "57896044618658097711785492504343953926634992332820282019728792003956564819949"
        .parse()
        .unwrap();
    assert_eq!(decodeint(&encodeint(&w)), w);
    // only the first 32 bytes are read
    let mut long = encodeint(&v);
    long.push(0xFF);
    assert_eq!(decodeint(&long), v);
}

#[test]
fn point_encoding_of_the_base_point() {
    let b = b_point();
    let e = encodepoint(&b);
    assert_eq!(e[0], 0x58);
    assert!(e[1..].iter().all(|&x| x == 0x66));
    let back = decodepoint(&e).expect("base point decodes");
    assert_eq!(back.x, b.x);
    assert_eq!(back.y, b.y);
}

#[test]
fn x_recovery_finds_the_base_point() {
    let b = b_point();
    let x = xrecover(&b.y);
    assert_eq!(x, b.x);
}

#[test]
fn odd_x_points_do_not_round_trip() {
    // 5*B has an odd x-coordinate; the sign bit set by encoding is folded
    // into the decoded y-coordinate, so decoding rejects the result
    let b = b_point();
    let b5 = scalarmult(&b, &BigInt::from(5));
    assert_eq!(&b5.x % BigInt::from(2), BigInt::from(1));
    let e = encodepoint(&b5);
    assert!(decodepoint(&e).is_err());
}

#[test]
fn rejects_y_without_square_root() {
    // y = 2 admits no x on the curve
    let mut buf = [0u8; 32];
    buf[0] = 2;
    assert!(matches!(decodepoint(&buf), Err(DecodeError::PointNotOnCurve)));
}

#[test]
fn rejects_wrong_length() {
    let buf = [0u8; 31];
    assert!(matches!(decodepoint(&buf), Err(DecodeError::MalformedEncoding)));
    let buf = [0u8; 33];
    assert!(matches!(decodepoint(&buf), Err(DecodeError::MalformedEncoding)));
}

#[test]
fn bit_extraction() {
    let bytes = [0b0000_0001u8, 0b1000_0000u8];
    assert_eq!(bit(&bytes, 0), 1);
    assert_eq!(bit(&bytes, 1), 0);
    assert_eq!(bit(&bytes, 15), 1);
    assert_eq!(bit(&bytes, 8), 0);
}
