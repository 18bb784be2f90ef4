use ed25519::sha512::{big_sigma0, ch, maj, rotr, sha512_bytes, small_sigma1};

fn to_hex(bytes: &[u8]) -> String {
    let mut s = String::new();
    for &b in bytes {
        s.push(char::from_digit((b >> 4) as u32, 16).unwrap());
        s.push(char::from_digit((b & 0xF) as u32, 16).unwrap());
    }
    s
}

#[test]
fn digest_of_empty_input() {
    let d = sha512_bytes(b"");
    assert_eq!(d.len(), 64);
    assert_eq!(
        to_hex(&d),
        "cf83e1357eefb8bdf1542850d66d8007d620e4050b5715dc83f4a921d36ce9ce47d0d13c5d85f2b0ff8318d2877eec2f63b931bd47417a81a538327af927da3e"
    );
}

#[test]
fn digest_of_abc() {
    let d = sha512_bytes(b"abc");
    assert_eq!(
        to_hex(&d),
        "ddaf35a193617abacc417349ae20413112e6fa4e89a97ea20a9eeee64b55d39a2192992a274fc1a836ba3c23a3feebbd454d4423643ce80e2a9ac94fa54ca49f"
    );
}

#[test]
fn digest_of_multi_block_input() {
    // 200 bytes spans two 128-byte blocks
    let data = vec![b'a'; 200];
    let d = sha512_bytes(&data);
    assert_eq!(
        to_hex(&d),
        "4b11459c33f52a22ee8236782714c150a3b2c60994e9acee17fe68947a3e6789f31e7668394592da7bef827cddca88c4e6f86e4df7ed1ae6cba71f3e98faee9f"
    );
}

#[test]
fn word_helpers() {
    assert_eq!(rotr(1, 1), 0x8000_0000_0000_0000);
    assert_eq!(rotr(0xF0, 4), 0xF);
    assert_eq!(ch(u64::MAX, 5, 9), 5);
    assert_eq!(ch(0, 5, 9), 9);
    assert_eq!(maj(3, 5, 6), 7);
    assert_eq!(big_sigma0(0), 0);
    assert_eq!(small_sigma1(0), 0);
}

#[test]
fn matches_the_trusted_digest() {
    // the verified implementation and the outside hash agree
    let ours = sha512_bytes(b"check against the boundary");
    let theirs = ed25519::hash::H(b"check against the boundary");
    assert_eq!(ours, theirs);
}
