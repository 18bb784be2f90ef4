use ed25519::bignum::{
    add_ix, add_bit_to_vec, add_mag, bit_len, cmp_mag, div_ix, div_rem_mag, gte_mag, h2i_ix,
    mul_ix, rem_ix, shl_mag, sub_ix, sub_mag, u64_to_ix, zero_ix,
};

#[test]
fn hex_parsing() {
    assert_eq!(h2i_ix("0xdeadbeef"), u64_to_ix(0xdeadbeef));
    assert_eq!(h2i_ix("deadbeef"), u64_to_ix(0xdeadbeef));
    assert_eq!(h2i_ix("0"), u64_to_ix(0));
    assert_eq!(h2i_ix(""), zero_ix());
    assert_eq!(h2i_ix("0x"), zero_ix());
    assert_eq!(h2i_ix("00000000000000000001"), u64_to_ix(1));
    assert_eq!(h2i_ix("10000000000000000").vals, vec![0, 1]);
    assert_eq!(h2i_ix("DeadBEEF"), u64_to_ix(0xdeadbeef));
    assert!(!h2i_ix("ff").sign);
}

#[test]
fn addition_with_carry() {
    let a = h2i_ix("ffffffffffffffff");
    let one = u64_to_ix(1);
    assert_eq!(add_ix(&a, &one), h2i_ix("10000000000000000"));
    assert_eq!(add_ix(&zero_ix(), &a), a);
}

#[test]
fn subtraction_and_signs() {
    let big = h2i_ix("10000000000000000");
    let one = u64_to_ix(1);
    assert_eq!(sub_ix(&big, &one), h2i_ix("ffffffffffffffff"));
    // 5 - 7 == 0 - 2
    let m2a = sub_ix(&u64_to_ix(5), &u64_to_ix(7));
    let m2b = sub_ix(&zero_ix(), &u64_to_ix(2));
    assert_eq!(m2a, m2b);
    assert!(m2a.sign);
    // (5 - 7) + 7 == 5
    assert_eq!(add_ix(&m2a, &u64_to_ix(7)), u64_to_ix(5));
    assert_eq!(sub_ix(&u64_to_ix(9), &u64_to_ix(9)), zero_ix());
}

#[test]
fn multiplication() {
    let x = h2i_ix("ffffffff");
    assert_eq!(mul_ix(&x, &x), h2i_ix("fffffffe00000001"));
    let m1 = h2i_ix("ffffffffffffffffffffffff");
    let m2 = h2i_ix("123456789abcdef0fedcba98");
    assert_eq!(
        mul_ix(&m1, &m2),
        h2i_ix("123456789abcdef0fedcba97edcba9876543210f01234568")
    );
    // a negative factor flips the sign
    let neg = sub_ix(&zero_ix(), &u64_to_ix(3));
    assert_eq!(mul_ix(&neg, &u64_to_ix(4)), sub_ix(&zero_ix(), &u64_to_ix(12)));
    assert_eq!(mul_ix(&neg, &zero_ix()), zero_ix());
}

#[test]
fn division_and_remainder() {
    let a = h2i_ix("deadbeefcafebabe1234feedface");
    let b = h2i_ix("abcdef123456");
    assert_eq!(div_ix(&a, &b), h2i_ix("14bce5814fdeb6094"));
    assert_eq!(rem_ix(&a, &b), h2i_ix("6b58ebd57916"));
    // quotient * divisor + remainder == dividend
    let back = add_ix(&mul_ix(&div_ix(&a, &b), &b), &rem_ix(&a, &b));
    assert_eq!(back, a);
    // truncating signs: (-7) / 2 == -3, (-7) % 2 == -1
    let m7 = sub_ix(&zero_ix(), &u64_to_ix(7));
    assert_eq!(div_ix(&m7, &u64_to_ix(2)), sub_ix(&zero_ix(), &u64_to_ix(3)));
    assert_eq!(rem_ix(&m7, &u64_to_ix(2)), sub_ix(&zero_ix(), &u64_to_ix(1)));
}

#[test]
fn magnitude_helpers() {
    let small = vec![5u64];
    let large = vec![0u64, 1];
    assert!(gte_mag(&large, &small));
    assert!(!gte_mag(&small, &large));
    assert!(gte_mag(&small, &small));
    assert_eq!(cmp_mag(&small, &large), -1);
    assert_eq!(cmp_mag(&large, &small), 1);
    assert_eq!(cmp_mag(&large, &large), 0);
    assert_eq!(bit_len(&vec![]), 0);
    assert_eq!(bit_len(&vec![1]), 1);
    assert_eq!(bit_len(&vec![0xFF]), 8);
    assert_eq!(bit_len(&vec![0, 1]), 65);
    assert_eq!(shl_mag(&vec![1], 65), vec![0, 2]);
    assert_eq!(shl_mag(&vec![0x8000_0000_0000_0000], 1), vec![0, 1]);
    let mut v = vec![0xFFFF_FFFF_FFFF_FFFFu64];
    add_bit_to_vec(&mut v, 0);
    assert_eq!(v, vec![0, 1]);
    let (q, r) = div_rem_mag(&vec![7], &vec![2]);
    assert_eq!(q, vec![3]);
    assert_eq!(r, vec![1]);
    assert_eq!(add_mag(&vec![u64::MAX], &vec![1]), vec![0, 1]);
    assert_eq!(sub_mag(&vec![0, 1], &vec![1]), vec![u64::MAX]);
}
