//! The 512-bit digest computed from scratch: padding, big-endian message
//! schedule, and the eighty-round compression function.
use vstd::prelude::*;

verus! {

use vstd::arithmetic::power::pow;


/// The round constants.
pub const K: [u64; 80] = [
    0x428a2f98d728ae22, 0x7137449123ef65cd, 0xb5c0fbcfec4d3b2f, 0xe9b5dba58189dbbc,
    0x3956c25bf348b538, 0x59f111f1b605d019, 0x923f82a4af194f9b, 0xab1c5ed5da6d8118,
    0xd807aa98a3030242, 0x12835b0145706fbe, 0x243185be4ee4b28c, 0x550c7dc3d5ffb4e2,
    0x72be5d74f27b896f, 0x80deb1fe3b1696b1, 0x9bdc06a725c71235, 0xc19bf174cf692694,
    0xe49b69c19ef14ad2, 0xefbe4786384f25e3, 0x0fc19dc68b8cd5b5, 0x240ca1cc77ac9c65,
    0x2de92c6f592b0275, 0x4a7484aa6ea6e483, 0x5cb0a9dcbd41fbd4, 0x76f988da831153b5,
    0x983e5152ee66dfab, 0xa831c66d2db43210, 0xb00327c898fb213f, 0xbf597fc7beef0ee4,
    0xc6e00bf33da88fc2, 0xd5a79147930aa725, 0x06ca6351e003826f, 0x142929670a0e6e70,
    0x27b70a8546d22ffc, 0x2e1b21385c26c926, 0x4d2c6dfc5ac42aed, 0x53380d139d95b3df,
    0x650a73548baf63de, 0x766a0abb3c77b2a8, 0x81c2c92e47edaee6, 0x92722c851482353b,
    0xa2bfe8a14cf10364, 0xa81a664bbc423001, 0xc24b8b70d0f89791, 0xc76c51a30654be30,
    0xd192e819d6ef5218, 0xd69906245565a910, 0xf40e35855771202a, 0x106aa07032bbd1b8,
    0x19a4c116b8d2d0c8, 0x1e376c085141ab53, 0x2748774cdf8eeb99, 0x34b0bcb5e19b48a8,
    0x391c0cb3c5c95a63, 0x4ed8aa4ae3418acb, 0x5b9cca4f7763e373, 0x682e6ff3d6b2b8a3,
    0x748f82ee5defb2fc, 0x78a5636f43172f60, 0x84c87814a1f0ab72, 0x8cc702081a6439ec,
    0x90befffa23631e28, 0xa4506cebde82bde9, 0xbef9a3f7b2c67915, 0xc67178f2e372532b,
    0xca273eceea26619c, 0xd186b8c721c0c207, 0xeada7dd6cde0eb1e, 0xf57d4f7fee6ed178,
    0x06f067aa72176fba, 0x0a637dc5a2c898a6, 0x113f9804bef90dae, 0x1b710b35131c471b,
    0x28db77f523047d84, 0x32caab7b40c72493, 0x3c9ebe0a15c9bebc, 0x431d67c49c100d4c,
    0x4cc5d4becb3e42b6, 0x597f299cfc657e2a, 0x5fcb6fab3ad6faec, 0x6c44198c4a475817,
];

/// Right rotation of a 64-bit word, written with shifts.
pub open spec fn rotr_spec(x: u64, n: u64) -> u64
    recommends
        1 <= n < 64,
{
    (x >> n) | (x << ((64 - n) as u64))
}

/// Right rotation of a 64-bit word.
pub fn rotr(x: u64, n: u32) -> (r: u64)
    requires
        1 <= n < 64,
    ensures
        r == rotr_spec(x, n as u64),
{
    (x >> (n as u64)) | (x << ((64 - n) as u64))
}

pub open spec fn big_sigma0_spec(x: u64) -> u64 {
    rotr_spec(x, 28) ^ rotr_spec(x, 34) ^ rotr_spec(x, 39)
}

pub open spec fn big_sigma1_spec(x: u64) -> u64 {
    rotr_spec(x, 14) ^ rotr_spec(x, 18) ^ rotr_spec(x, 41)
}

pub open spec fn small_sigma0_spec(x: u64) -> u64 {
    rotr_spec(x, 1) ^ rotr_spec(x, 8) ^ (x >> 7u64)
}

pub open spec fn small_sigma1_spec(x: u64) -> u64 {
    rotr_spec(x, 19) ^ rotr_spec(x, 61) ^ (x >> 6u64)
}

pub open spec fn ch_spec(x: u64, y: u64, z: u64) -> u64 {
    (x & y) ^ ((!x) & z)
}

pub open spec fn maj_spec(x: u64, y: u64, z: u64) -> u64 {
    (x & y) ^ (x & z) ^ (y & z)
}

pub fn big_sigma0(x: u64) -> (r: u64)
    ensures
        r == big_sigma0_spec(x),
{
    rotr(x, 28) ^ rotr(x, 34) ^ rotr(x, 39)
}

pub fn big_sigma1(x: u64) -> (r: u64)
    ensures
        r == big_sigma1_spec(x),
{
    rotr(x, 14) ^ rotr(x, 18) ^ rotr(x, 41)
}

pub fn small_sigma0(x: u64) -> (r: u64)
    ensures
        r == small_sigma0_spec(x),
{
    rotr(x, 1) ^ rotr(x, 8) ^ (x >> 7u64)
}

pub fn small_sigma1(x: u64) -> (r: u64)
    ensures
        r == small_sigma1_spec(x),
{
    rotr(x, 19) ^ rotr(x, 61) ^ (x >> 6u64)
}

pub fn ch(x: u64, y: u64, z: u64) -> (r: u64)
    ensures
        r == ch_spec(x, y, z),
{
    (x & y) ^ ((!x) & z)
}

pub fn maj(x: u64, y: u64, z: u64) -> (r: u64)
    ensures
        r == maj_spec(x, y, z),
{
    (x & y) ^ (x & z) ^ (y & z)
}

/// The number denoted by big-endian bytes.
pub open spec fn be_val(s: Seq<u8>) -> nat
    decreases s.len(),
{
    if s.len() == 0 {
        0
    } else {
        (be_val(s.drop_last()) * 256 + s.last()) as nat
    }
}

/// A big-endian value is below its length's capacity.
proof fn lemma_be_upper(s: Seq<u8>)
    ensures
        be_val(s) < pow(256, s.len()),
    decreases s.len(),
{
    if s.len() == 0 {
        vstd::arithmetic::power::lemma_pow0(256);
    } else {
        lemma_be_upper(s.drop_last());
        let pl = pow(256, (s.len() - 1) as nat) as int;
        assert(pow(256, s.len()) == pl * 256) by {
            vstd::arithmetic::power::lemma_pow1(256);
            vstd::arithmetic::power::lemma_pow_adds(256, (s.len() - 1) as nat, 1);
        }
        assert(be_val(s.drop_last()) * 256 <= (pl - 1) * 256) by (nonlinear_arith)
            requires
                be_val(s.drop_last()) <= pl - 1,
        ;
    }
}

/// The eight big-endian bytes of a 64-bit word.
pub open spec fn be64(v: u64) -> Seq<u8> {
    Seq::new(8, |i: int| (((v as nat) / (pow(256, (7 - i) as nat) as nat)) % 256) as u8)
}

proof fn lemma_pow256_small()
    ensures
        pow(256, 0) == 1,
        pow(256, 1) == 0x100,
        pow(256, 2) == 0x10000,
        pow(256, 3) == 0x1000000,
        pow(256, 4) == 0x100000000,
        pow(256, 5) == 0x10000000000,
        pow(256, 6) == 0x1000000000000,
        pow(256, 7) == 0x100000000000000,
        pow(256, 8) == 0x10000000000000000,
{
    vstd::arithmetic::power::lemma_pow0(256);
    vstd::arithmetic::power::lemma_pow1(256);
    reveal_with_fuel(vstd::arithmetic::power::pow, 9);
}

/// The big-endian value of the eight bytes of a word is the word.
proof fn lemma_be64_val(v: u64)
    ensures
        be_val(be64(v)) == v,
{
    lemma_pow256_small();
    assert(be64(v) =~= Seq::new(
        8,
        |i: int| (((v as nat) / (pow(256, (8 - 1 - i) as nat) as nat)) % 256) as u8,
    ));
    lemma_be_fixed_width(v as nat, 8);
}

/// The value of the fixed-width big-endian digits of a small number.
proof fn lemma_be_fixed_width(m: nat, w: nat)
    requires
        m < pow(256, w),
    ensures
        be_val(Seq::new(w, |i: int| ((m / (pow(256, (w - 1 - i) as nat) as nat)) % 256) as u8)) == m,
    decreases w,
{
    vstd::arithmetic::power::lemma_pow0(256);
    if w == 0 {
    } else {
        let s = Seq::new(w, |i: int| ((m / (pow(256, (w - 1 - i) as nat) as nat)) % 256) as u8);
        let md = m / 256;
        let u = Seq::new(
            (w - 1) as nat,
            |i: int| ((md / (pow(256, (w - 2 - i) as nat) as nat)) % 256) as u8,
        );
        assert(s.drop_last() =~= u) by {
            assert forall|i: int| 0 <= i < w - 1 implies s[i] == u[i] by {
                vstd::arithmetic::power::lemma_pow_positive(256, (w - 2 - i) as nat);
                vstd::arithmetic::div_mod::lemma_div_denominator(
                    m as int,
                    256,
                    pow(256, (w - 2 - i) as nat) as int,
                );
                assert(256 * pow(256, (w - 2 - i) as nat) == pow(256, (w - 1 - i) as nat)) by {
                    vstd::arithmetic::power::lemma_pow1(256);
                    vstd::arithmetic::power::lemma_pow_adds(256, 1, (w - 2 - i) as nat);
                }
            }
        }
        assert(md < pow(256, (w - 1) as nat)) by {
            assert(pow(256, w) == 256 * pow(256, (w - 1) as nat)) by {
                vstd::arithmetic::power::lemma_pow1(256);
                vstd::arithmetic::power::lemma_pow_adds(256, 1, (w - 1) as nat);
            }
            vstd::arithmetic::div_mod::lemma_multiply_divide_lt(
                m as int,
                256,
                pow(256, (w - 1) as nat) as int,
            );
        }
        lemma_be_fixed_width(md, (w - 1) as nat);
        assert(be_val(s.drop_last()) == md);
        assert(s.last() as nat == (m / (pow(256, 0) as nat)) % 256);
        vstd::arithmetic::div_mod::lemma_div_basics(m as int);
        assert(m / (pow(256, 0) as nat) == m);
        assert(s.last() as nat == m % 256);
        assert(be_val(s) == be_val(s.drop_last()) * 256 + s.last());
        vstd::arithmetic::div_mod::lemma_fundamental_div_mod(m as int, 256);
        assert(m == 256 * md + m % 256);
    }
}

/// Appends the eight big-endian bytes of a word.
fn push_be64(out: &mut Vec<u8>, v: u64)
    ensures
        final (out)@ == old(out)@ + be64(v),
{
    let mut i: usize = 0;
    while i < 8
        invariant
            i <= 8,
            out@ == old(out)@ + be64(v).take(i as int),
        decreases 8 - i,
    {
        let sh: u64 = (8 * (7 - i)) as u64;
        let byte = ((v >> sh) & 0xFF) as u8;
        proof {
            lemma_pow256_small();
            assert((v >> 56u64) as nat == v as nat / 0x100000000000000 && (v >> 48u64) as nat
                == v as nat / 0x1000000000000 && (v >> 40u64) as nat == v as nat / 0x10000000000
                && (v >> 32u64) as nat == v as nat / 0x100000000 && (v >> 24u64) as nat == v as nat
                / 0x1000000 && (v >> 16u64) as nat == v as nat / 0x10000 && (v >> 8u64) as nat
                == v as nat / 0x100 && (v >> 0u64) as nat == v as nat) by (bit_vector);
            assert(((v >> sh) & 0xFF) == (v >> sh) % 256) by (bit_vector);
            if i == 0 {
                assert(sh == 56);
                assert(byte as nat == ((v as nat) / (pow(256, 7) as nat)) % 256);
            } else if i == 1 {
                assert(sh == 48);
                assert(byte as nat == ((v as nat) / (pow(256, 6) as nat)) % 256);
            } else if i == 2 {
                assert(sh == 40);
                assert(byte as nat == ((v as nat) / (pow(256, 5) as nat)) % 256);
            } else if i == 3 {
                assert(sh == 32);
                assert(byte as nat == ((v as nat) / (pow(256, 4) as nat)) % 256);
            } else if i == 4 {
                assert(sh == 24);
                assert(byte as nat == ((v as nat) / (pow(256, 3) as nat)) % 256);
            } else if i == 5 {
                assert(sh == 16);
                assert(byte as nat == ((v as nat) / (pow(256, 2) as nat)) % 256);
            } else if i == 6 {
                assert(sh == 8);
                assert(byte as nat == ((v as nat) / (pow(256, 1) as nat)) % 256);
            } else {
                assert(sh == 0);
                vstd::arithmetic::div_mod::lemma_div_basics(v as int);
                assert(byte as nat == ((v as nat) / (pow(256, 0) as nat)) % 256);
            }
            assert((7 - i as int) as nat == (7 - i) as nat);
            assert(byte == be64(v)[i as int]);
            assert((old(out)@ + be64(v).take(i as int)).push(be64(v)[i as int]) =~= old(out)@
                + be64(v).take(i + 1));
        }
        out.push(byte);
        i = i + 1;
    }
    proof {
        assert(old(out)@ + be64(v).take(8) =~= old(out)@ + be64(v));
    }
}

/// Reads the eight bytes starting at `off` as a big-endian word.
fn read_be64(s: &Vec<u8>, off: usize) -> (r: u64)
    requires
        off + 8 <= s@.len(),
    ensures
        r as nat == be_val(s@.subrange(off as int, off as int + 8)),
{
    let n = s.len();
    let mut acc: u64 = 0;
    let mut t: usize = 0;
    proof {
        assert(s@.subrange(off as int, off as int) =~= Seq::<u8>::empty());
        lemma_pow256_small();
    }
    while t < 8
        invariant
            t <= 8,
            n == s@.len(),
            off + 8 <= n,
            acc as nat == be_val(s@.subrange(off as int, off as int + t as int)),
            (acc as nat) < pow(256, t as nat),
        decreases 8 - t,
    {
        let b = s[off + t];
        proof {
            lemma_pow256_small();
            assert(acc < 0x100000000000000 ==> ((acc << 8u64) | (b as u64)) == 256 * acc + (
            b as u64)) by (bit_vector);
            assert(s@.subrange(off as int, off as int + t + 1).drop_last() =~= s@.subrange(
                off as int,
                off as int + t as int,
            ));
            assert(s@.subrange(off as int, off as int + t + 1).last() == s@[off as int + t]);
            assert(pow(256, (t + 1) as nat) == pow(256, t as nat) * 256) by {
                vstd::arithmetic::power::lemma_pow1(256);
                vstd::arithmetic::power::lemma_pow_adds(256, t as nat, 1);
            }
        }
        acc = (acc << 8u64) | (b as u64);
        t = t + 1;
    }
    acc
}

/// The initial state words.
pub open spec fn init_state() -> Seq<u64> {
    seq![
        0x6a09e667f3bcc908u64,
        0xbb67ae8584caa73bu64,
        0x3c6ef372fe94f82bu64,
        0xa54ff53a5f1d36f1u64,
        0x510e527fade682d1u64,
        0x9b05688c2b3e6c1fu64,
        0x1f83d9abfb41bd6bu64,
        0x5be0cd19137e2179u64,
    ]
}

/// How many zero bytes follow the 0x80 marker: enough to reach 112 mod 128.
pub open spec fn pad_zero_count(l: nat) -> int {
    (112 - ((l + 1) % 128)) % 128
}

pub open spec fn zero_bytes(n: nat) -> Seq<u8> {
    Seq::new(n, |i: int| 0u8)
}

/// The padded message: the data, a 0x80 marker, zeros to 112 mod 128, and
/// the bit length as sixteen big-endian bytes.
pub open spec fn padded_msg(m: Seq<u8>) -> Seq<u8> {
    let bits = m.len() * 8;
    m + seq![0x80u8] + zero_bytes(pad_zero_count(m.len()) as nat) + be64(
        (bits / 0x10000000000000000) as u64,
    ) + be64((bits % 0x10000000000000000) as u64)
}

/// The message schedule.
pub open spec fn w_spec(block: Seq<u8>, i: int) -> u64
    decreases i,
{
    if i < 16 {
        be_val(block.subrange(8 * i, 8 * i + 8)) as u64
    } else {
        w_spec(block, i - 16).wrapping_add(small_sigma0_spec(w_spec(block, i - 15))).wrapping_add(
            w_spec(block, i - 7),
        ).wrapping_add(small_sigma1_spec(w_spec(block, i - 2)))
    }
}

/// One compression round on the eight working words.
pub open spec fn round_step(st: Seq<u64>, ki: u64, wi: u64) -> Seq<u64> {
    let t1 = st[7].wrapping_add(big_sigma1_spec(st[4])).wrapping_add(
        ch_spec(st[4], st[5], st[6]),
    ).wrapping_add(ki).wrapping_add(wi);
    let t2 = big_sigma0_spec(st[0]).wrapping_add(maj_spec(st[0], st[1], st[2]));
    seq![
        t1.wrapping_add(t2),
        st[0],
        st[1],
        st[2],
        st[3].wrapping_add(t1),
        st[4],
        st[5],
        st[6],
    ]
}

/// The working words after `i` rounds.
pub open spec fn rounds_spec(st0: Seq<u64>, block: Seq<u8>, i: int) -> Seq<u64>
    decreases i,
{
    if i <= 0 {
        st0
    } else {
        round_step(rounds_spec(st0, block, i - 1), K@[i - 1], w_spec(block, i - 1))
    }
}

/// The state after compressing one 128-byte block.
pub open spec fn comp_block(st: Seq<u64>, block: Seq<u8>) -> Seq<u64> {
    let r = rounds_spec(st, block, 80);
    Seq::new(8, |i: int| st[i].wrapping_add(r[i]))
}

/// The state after the first `nb` blocks of the padded message.
pub open spec fn states_spec(p: Seq<u8>, nb: int) -> Seq<u64>
    decreases nb,
{
    if nb <= 0 {
        init_state()
    } else {
        comp_block(states_spec(p, nb - 1), p.subrange(128 * (nb - 1), 128 * nb))
    }
}

/// The first `i` state words as big-endian bytes.
pub open spec fn digest_take(st: Seq<u64>, i: int) -> Seq<u8>
    decreases i,
{
    if i <= 0 {
        Seq::empty()
    } else {
        digest_take(st, i - 1) + be64(st[i - 1])
    }
}

/// The full digest of a message.
pub open spec fn sha512_spec(m: Seq<u8>) -> Seq<u8> {
    digest_take(states_spec(padded_msg(m), padded_msg(m).len() as int / 128), 8)
}

proof fn lemma_pad_count(l: nat, j: nat)
    requires
        j <= pad_zero_count(l),
    ensures
        ((l + 1 + j) % 128 == 112) <==> (j as int == pad_zero_count(l)),
{
    let r = (l + 1) % 128;
    let j0 = pad_zero_count(l);
    vstd::arithmetic::div_mod::lemma_add_mod_noop((l + 1) as int, j as int, 128);
    vstd::arithmetic::div_mod::lemma_small_mod(j, 128);
    assert((l + 1 + j) % 128 == (r + j) % 128);
    if r <= 112 {
        assert(j0 == 112 - r) by {
            vstd::arithmetic::div_mod::lemma_small_mod((112 - r) as nat, 128);
        }
        vstd::arithmetic::div_mod::lemma_small_mod((r + j) as nat, 128);
    } else {
        assert(j0 == 240 - r) by {
            vstd::arithmetic::div_mod::lemma_fundamental_div_mod_converse(
                112 - r,
                128,
                -1,
                240 - r,
            );
        }
        if r + j < 128 {
            vstd::arithmetic::div_mod::lemma_small_mod((r + j) as nat, 128);
        } else {
            vstd::arithmetic::div_mod::lemma_fundamental_div_mod_converse(
                (r + j) as int,
                128,
                1,
                (r + j - 128) as int,
            );
        }
    }
}

/// The 512-bit digest of a byte string, computed 128-byte block by block.
pub fn sha512_bytes(input: &[u8]) -> (r: Vec<u8>)
    requires
        input@.len() + 160 <= usize::MAX,
    ensures
        r@ == sha512_spec(input@),
        r@.len() == 64,
{
    let ghost l = input@.len();
    let mut h: Vec<u64> = Vec::new();
    h.push(0x6a09e667f3bcc908);
    h.push(0xbb67ae8584caa73b);
    h.push(0x3c6ef372fe94f82b);
    h.push(0xa54ff53a5f1d36f1);
    h.push(0x510e527fade682d1);
    h.push(0x9b05688c2b3e6c1f);
    h.push(0x1f83d9abfb41bd6b);
    h.push(0x5be0cd19137e2179);
    proof {
        assert(h@ =~= init_state());
    }
    let bit_len: u128 = (input.len() as u128) * 8;
    let mut msg: Vec<u8> = Vec::new();
    let mut ci: usize = 0;
    while ci < input.len()
        invariant
            ci <= input@.len(),
            msg@ == input@.take(ci as int),
        decreases input@.len() - ci,
    {
        let b = input[ci];
        msg.push(b);
        ci = ci + 1;
        proof {
            assert(input@.take(ci - 1).push(input@[ci - 1]) =~= input@.take(ci as int));
        }
    }
    proof {
        assert(input@.take(l as int) =~= input@);
    }
    msg.push(0x80);
    proof {
        assert(msg@ =~= input@ + seq![0x80u8] + zero_bytes(0));
        assert(0 <= pad_zero_count(l)) by {
            vstd::arithmetic::div_mod::lemma_mod_bound(
                112 - (((l + 1) as int) % 128),
                128,
            );
        }
        assert(pad_zero_count(l) < 128) by {
            vstd::arithmetic::div_mod::lemma_mod_bound(
                112 - (((l + 1) as int) % 128),
                128,
            );
        }
    }
    while msg.len() % 128 != 112
        invariant
            msg@.len() == l + 1 + (msg@.len() - l - 1),
            msg@.len() >= l + 1,
            msg@.len() - l - 1 <= pad_zero_count(l),
            pad_zero_count(l) < 128,
            msg@ == input@ + seq![0x80u8] + zero_bytes((msg@.len() - l - 1) as nat),
            l + 160 <= usize::MAX,
        decreases pad_zero_count(l) - (msg@.len() - l - 1),
    {
        proof {
            let j = (msg@.len() - l - 1) as nat;
            lemma_pad_count(l, j);
            assert(j < pad_zero_count(l));
            assert(zero_bytes(j).push(0u8) =~= zero_bytes((j + 1) as nat));
            assert((input@ + seq![0x80u8] + zero_bytes(j)).push(0u8) =~= input@ + seq![0x80u8]
                + zero_bytes((j + 1) as nat));
        }
        msg.push(0x00);
    }
    proof {
        let j = (msg@.len() - l - 1) as nat;
        lemma_pad_count(l, j);
        assert(j as int == pad_zero_count(l));
    }
    let high = (bit_len >> 64) as u64;
    let low = (bit_len & 0xffff_ffff_ffff_ffff) as u64;
    proof {
        assert(bit_len >> 64u128 == bit_len / 0x10000000000000000) by (bit_vector);
        assert(bit_len & 0xffff_ffff_ffff_ffff == bit_len % 0x10000000000000000) by (bit_vector);
        assert((bit_len as nat) == l * 8);
    }
    let ghost mid = msg@;
    push_be64(&mut msg, high);
    push_be64(&mut msg, low);
    proof {
        assert(msg@ =~= padded_msg(input@));
        // the padded length is a whole number of blocks
        let total = msg@.len() as int;
        assert(mid.len() % 128 == 112);
        assert(total == mid.len() + 16);
        vstd::arithmetic::div_mod::lemma_fundamental_div_mod(mid.len() as int, 128);
        vstd::arithmetic::div_mod::lemma_fundamental_div_mod_converse(
            total,
            128,
            mid.len() as int / 128 + 1,
            0,
        );
    }
    let mut start: usize = 0;
    while start < msg.len()
        invariant
            start <= msg@.len(),
            start % 128 == 0,
            msg@.len() % 128 == 0,
            msg@ == padded_msg(input@),
            h@.len() == 8,
            h@ == states_spec(msg@, start as int / 128),
            msg@.len() + 16 <= usize::MAX,
        decreases msg@.len() - start,
    {
        let ghost block = msg@.subrange(start as int, start as int + 128);
        let ghost st0 = h@;
        proof {
            vstd::arithmetic::div_mod::lemma_fundamental_div_mod(start as int, 128);
            if msg@.len() - start < 128 {
                vstd::arithmetic::div_mod::lemma_fundamental_div_mod(msg@.len() as int, 128);
                assert(false);
            }
        }
        let mut w: Vec<u64> = Vec::new();
        let mut i: usize = 0;
        while i < 16
            invariant
                i <= 16,
                w@.len() == i,
                start + 128 <= msg@.len(),
                msg@.len() + 16 <= usize::MAX,
                block == msg@.subrange(start as int, start as int + 128),
                forall|j: int| 0 <= j < i ==> w@[j] == w_spec(block, j),
            decreases 16 - i,
        {
            let word = read_be64(&msg, start + 8 * i);
            proof {
                assert(block.subrange(8 * i as int, 8 * i as int + 8) =~= msg@.subrange(
                    start as int + 8 * i,
                    start as int + 8 * i + 8,
                ));
                lemma_be_upper(block.subrange(8 * i as int, 8 * i as int + 8));
                lemma_pow256_small();
            }
            w.push(word);
            i = i + 1;
        }
        while i < 80
            invariant
                16 <= i <= 80,
                w@.len() == i,
                block == msg@.subrange(start as int, start as int + 128),
                forall|j: int| 0 <= j < i ==> w@[j] == w_spec(block, j),
            decreases 80 - i,
        {
            let s0 = small_sigma0(w[i - 15]);
            let s1 = small_sigma1(w[i - 2]);
            let word = w[i - 16].wrapping_add(s0).wrapping_add(w[i - 7]).wrapping_add(s1);
            proof {
                let ii = i as int;
                assert(w@[ii - 16] == w_spec(block, ii - 16));
                assert(w@[ii - 15] == w_spec(block, ii - 15));
                assert(w@[ii - 7] == w_spec(block, ii - 7));
                assert(w@[ii - 2] == w_spec(block, ii - 2));
                assert(s0 == small_sigma0_spec(w_spec(block, ii - 15)));
                assert(s1 == small_sigma1_spec(w_spec(block, ii - 2)));
                assert(w_spec(block, ii) == w_spec(block, ii - 16).wrapping_add(
                    small_sigma0_spec(w_spec(block, ii - 15)),
                ).wrapping_add(w_spec(block, ii - 7)).wrapping_add(
                    small_sigma1_spec(w_spec(block, ii - 2)),
                ));
                assert(word == w_spec(block, ii));
            }
            w.push(word);
            i = i + 1;
        }
        let mut a = h[0];
        let mut b = h[1];
        let mut c = h[2];
        let mut d = h[3];
        let mut e = h[4];
        let mut f = h[5];
        let mut g = h[6];
        let mut hh = h[7];
        let mut rnd: usize = 0;
        while rnd < 80
            invariant
                rnd <= 80,
                w@.len() == 80,
                block == msg@.subrange(start as int, start as int + 128),
                forall|j: int| 0 <= j < 80 ==> w@[j] == w_spec(block, j),
                a == rounds_spec(st0, block, rnd as int)[0],
                b == rounds_spec(st0, block, rnd as int)[1],
                c == rounds_spec(st0, block, rnd as int)[2],
                d == rounds_spec(st0, block, rnd as int)[3],
                e == rounds_spec(st0, block, rnd as int)[4],
                f == rounds_spec(st0, block, rnd as int)[5],
                g == rounds_spec(st0, block, rnd as int)[6],
                hh == rounds_spec(st0, block, rnd as int)[7],
                st0.len() == 8,
            decreases 80 - rnd,
        {
            let t1 = hh.wrapping_add(big_sigma1(e)).wrapping_add(ch(e, f, g)).wrapping_add(
                K[rnd],
            ).wrapping_add(w[rnd]);
            let t2 = big_sigma0(a).wrapping_add(maj(a, b, c));
            proof {
                let rs = rounds_spec(st0, block, rnd as int);
                assert(rounds_spec(st0, block, rnd as int + 1) == round_step(
                    rs,
                    K@[rnd as int],
                    w_spec(block, rnd as int),
                ));
            }
            hh = g;
            g = f;
            f = e;
            e = d.wrapping_add(t1);
            d = c;
            c = b;
            b = a;
            a = t1.wrapping_add(t2);
            rnd = rnd + 1;
        }
        let h0 = h[0];
        h.set(0, h0.wrapping_add(a));
        let h1 = h[1];
        h.set(1, h1.wrapping_add(b));
        let h2 = h[2];
        h.set(2, h2.wrapping_add(c));
        let h3 = h[3];
        h.set(3, h3.wrapping_add(d));
        let h4 = h[4];
        h.set(4, h4.wrapping_add(e));
        let h5 = h[5];
        h.set(5, h5.wrapping_add(f));
        let h6 = h[6];
        h.set(6, h6.wrapping_add(g));
        let h7 = h[7];
        h.set(7, h7.wrapping_add(hh));
        proof {
            assert(h@ =~= comp_block(st0, block));
            vstd::arithmetic::div_mod::lemma_fundamental_div_mod(start as int, 128);
            vstd::arithmetic::div_mod::lemma_fundamental_div_mod_converse(
                start as int + 128,
                128,
                start as int / 128 + 1,
                0,
            );
            let nb1 = (start as int + 128) / 128;
            assert(nb1 == start as int / 128 + 1);
            assert(msg@.subrange(128 * (nb1 - 1), 128 * nb1) =~= block);
            assert(states_spec(msg@, nb1) == comp_block(states_spec(msg@, nb1 - 1), block));
        }
        start = start + 128;
    }
    proof {
        assert(start as int / 128 == msg@.len() as int / 128);
    }
    let mut out: Vec<u8> = Vec::new();
    let mut oi: usize = 0;
    while oi < 8
        invariant
            oi <= 8,
            h@.len() == 8,
            h@ == states_spec(padded_msg(input@), padded_msg(input@).len() as int / 128),
            out@ == digest_take(h@, oi as int),
            out@.len() == 8 * oi,
        decreases 8 - oi,
    {
        let word = h[oi];
        push_be64(&mut out, word);
        oi = oi + 1;
    }
    out
}

} // verus!
