use ed25519::hamming::{
    distance_bytes, distance_u64, distance_u8, distance_words, weight_bytes, weight_u64,
    weight_u8, weight_words,
};

#[test]
fn weights_of_bytes() {
    assert_eq!(weight_u8(0x33), 4);
    assert_eq!(weight_u8(0x00), 0);
    assert_eq!(weight_u8(0xFF), 8);
}

#[test]
fn weights_of_words() {
    assert_eq!(weight_u64(0x0F0F_0F0F_0F0F_0F0F), 32);
    assert_eq!(weight_u64(u64::MAX), 64);
    assert_eq!(weight_u64(0), 0);
}

#[test]
fn weights_of_vectors() {
    assert_eq!(weight_bytes(vec![0x33, 0xFF]), 12);
    assert_eq!(weight_bytes(vec![]), 0);
    assert_eq!(weight_words(vec![u64::MAX, 0]), 64);
}

#[test]
fn distances_of_scalars() {
    assert_eq!(distance_u8(0b1010_1010, 0b0101_0101), 8);
    assert_eq!(distance_u8(0x33, 0x00), 4);
    assert_eq!(distance_u64(0x0F0F_0F0F_0F0F_0F0F, u64::MAX), 32);
    assert_eq!(distance_u64(7, 7), 0);
}

#[test]
fn distances_of_vectors() {
    assert_eq!(distance_bytes(vec![0x33, 0x00], vec![0x00, 0x33]), 8);
    assert_eq!(distance_words(vec![0, 0xFF], vec![0, 0]), 8);
    assert_eq!(distance_words(vec![], vec![]), 0);
}
