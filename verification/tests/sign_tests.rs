use ed25519::{check_valid, publickey, signature};

fn hex_to_bytes(s: &str) -> Vec<u8> {
    let b = s.as_bytes();
    let mut out = Vec::new();
    let mut i = 0;
    while i + 1 < b.len() {
        let hi = (b[i] as char).to_digit(16).unwrap() as u8;
        let lo = (b[i + 1] as char).to_digit(16).unwrap() as u8;
        out.push(hi * 16 + lo);
        i += 2;
    }
    out
}

const ZERO_SEED_PK: &str = "3b6a27bcceb6a42d62a3a8d02a6f0d73653215771de243a63ac048a18b59da29";
const ZERO_SEED_TEST_SIG: &str = "9653710561c3169b7a9577a01955169def183fb3ae282e05bec624826e255b0c3eede3ecfe054fb5a40efeaef040afaa45220ccd7bf8413ba531f24f3f869209";

#[test]
fn public_key_of_the_zero_seed() {
    let seed = [0u8; 32];
    let pk = publickey(&seed);
    assert_eq!(pk, hex_to_bytes(ZERO_SEED_PK));
}

#[test]
fn signing_with_the_zero_seed() {
    let seed = [0u8; 32];
    let pk = hex_to_bytes(ZERO_SEED_PK);
    let sig = signature(b"test", &seed, &pk);
    assert_eq!(sig, hex_to_bytes(ZERO_SEED_TEST_SIG));
}

#[test]
fn verification_accepts_a_valid_signature() {
    let pk = hex_to_bytes(ZERO_SEED_PK);
    let sig = hex_to_bytes(ZERO_SEED_TEST_SIG);
    assert!(check_valid(&sig, b"test", &pk));
}

#[test]
fn known_vector_public_key() {
    let seed = hex_to_bytes("9d61b19deffd5a60ba844af492ec2cc44449c5697b326919703bac031cae7f60");
    let pk = publickey(&seed);
    assert_eq!(
        pk,
        hex_to_bytes("d75a980182b10ab7d54bfed3c964073a0ee172f3daa62325af021a68f707511a")
    );
}

#[test]
fn known_vector_signature() {
    let seed = hex_to_bytes("9d61b19deffd5a60ba844af492ec2cc44449c5697b326919703bac031cae7f60");
    let pk = hex_to_bytes("d75a980182b10ab7d54bfed3c964073a0ee172f3daa62325af021a68f707511a");
    let sig = signature(b"", &seed, &pk);
    assert_eq!(
        sig,
        hex_to_bytes(
            "e5564300c360ac729086e2cc806e828a84877f1eb8e5d974d873e065224901555fb8821590a33bacc61e39701cf9b46bd25bf5f0595bbe24655141438e7a100b"
        )
    );
}

#[test]
fn tampered_signatures_are_rejected() {
    let pk = hex_to_bytes(ZERO_SEED_PK);
    let sig = hex_to_bytes(ZERO_SEED_TEST_SIG);
    for &pos in [0usize, 255, 511].iter() {
        let mut bad = sig.clone();
        bad[pos / 8] ^= 1 << (pos % 8);
        assert!(!check_valid(&bad, b"test", &pk), "flip at bit {}", pos);
    }
}

#[test]
fn tampered_messages_are_rejected() {
    let pk = hex_to_bytes(ZERO_SEED_PK);
    let sig = hex_to_bytes(ZERO_SEED_TEST_SIG);
    for &pos in [0usize, 17].iter() {
        let mut msg = b"test".to_vec();
        msg[pos / 8] ^= 1 << (pos % 8);
        assert!(!check_valid(&sig, &msg, &pk), "flip at bit {}", pos);
    }
}

#[test]
fn malformed_lengths_are_rejected() {
    let pk = hex_to_bytes(ZERO_SEED_PK);
    let sig = hex_to_bytes(ZERO_SEED_TEST_SIG);
    assert!(!check_valid(&sig[..63], b"test", &pk));
    assert!(!check_valid(&sig, b"test", &pk[..31]));
    assert!(!check_valid(&[], b"test", &pk));
}
