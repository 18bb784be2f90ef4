//! Hamming weights and distances of bytes, words, and vectors of either.
use vstd::prelude::*;

verus! {

use vstd::arithmetic::power2::{lemma2_to64, pow2};

/// The number of set bits in the binary expansion of a number.
pub open spec fn weight_nat(v: nat) -> nat
    decreases v,
{
    if v == 0 {
        0
    } else {
        v % 2 + weight_nat(v / 2)
    }
}

/// The total number of set bits across a byte string.
pub open spec fn weight_seq(s: Seq<u8>) -> nat
    decreases s.len(),
{
    if s.len() == 0 {
        0
    } else {
        weight_nat(s[0] as nat) + weight_seq(s.skip(1))
    }
}

/// The total number of set bits across a word string.
pub open spec fn weight_seq_words(s: Seq<u64>) -> nat
    decreases s.len(),
{
    if s.len() == 0 {
        0
    } else {
        weight_nat(s[0] as nat) + weight_seq_words(s.skip(1))
    }
}

/// Splitting off the low `k` bits splits the weight.
proof fn lemma_weight_split(v: nat, k: nat)
    ensures
        weight_nat(v) == weight_nat(v % pow2(k)) + weight_nat(v / pow2(k)),
    decreases k,
{
    vstd::arithmetic::power2::lemma_pow2_pos(k);
    if k == 0 {
        lemma2_to64();
        assert(v % 1 == 0) by (nonlinear_arith);
        assert(v / 1 == v) by (nonlinear_arith);
    } else {
        lemma_weight_split(v / 2, (k - 1) as nat);
        vstd::arithmetic::power2::lemma_pow2_unfold(k);
        vstd::arithmetic::power2::lemma_pow2_pos((k - 1) as nat);
        let p = pow2((k - 1) as nat) as int;
        // (v / 2) % p == (v % 2p) / 2  and  (v / 2) / p == v / 2p
        vstd::arithmetic::div_mod::lemma_div_denominator(v as int, 2, p);
        vstd::arithmetic::div_mod::lemma_fundamental_div_mod(v as int, 2 * p);
        let qq = v as int / (2 * p);
        let rr = v as int % (2 * p);
        assert(2 * (p * qq) == (2 * p) * qq) by (nonlinear_arith);
        vstd::arithmetic::div_mod::lemma_hoist_over_denominator(rr, p * qq, 2);
        assert(v as int / 2 == p * qq + rr / 2);
        vstd::arithmetic::div_mod::lemma_mod_multiples_vanish(qq, rr / 2, p);
        assert(rr / 2 < p);
        vstd::arithmetic::div_mod::lemma_small_mod((rr / 2) as nat, p as nat);
        assert((v as int / 2) % p == (v as int % (2 * p)) / 2);
        // the parity of v % 2p equals the parity of v
        vstd::arithmetic::div_mod::lemma_mod_mod(v as int, 2, p);
        assert((v as int % (2 * p)) % 2 == v as int % 2);
        assert(weight_nat((v % pow2(k)) as nat) == (v % pow2(k)) % 2 + weight_nat(
            ((v % pow2(k)) / 2) as nat,
        ));
    }
}

/// The number of set bits in a byte.
pub fn weight_u8(byte: u8) -> (r: u64)
    ensures
        r == weight_nat(byte as nat),
{
    let mut cnt: u64 = 0;
    let mut b = byte;
    let mut i: usize = 0;
    proof {
        lemma2_to64();
    }
    while i < 8
        invariant
            i <= 8,
            cnt <= i,
            (b as nat) < pow2((8 - i) as nat),
            cnt + weight_nat(b as nat) == weight_nat(byte as nat),
        decreases 8 - i,
    {
        proof {
            lemma2_to64();
            assert((b & 1) == b % 2) by (bit_vector);
            assert((b >> 1u8) == b / 2) by (bit_vector);
            vstd::arithmetic::power2::lemma_pow2_unfold((8 - i) as nat);
        }
        cnt = cnt + (b & 1) as u64;
        b = b >> 1u8;
        i = i + 1;
    }
    proof {
        lemma2_to64();
    }
    cnt
}

/// The number of set bits in a 64-bit word.
pub fn weight_u64(word: u64) -> (r: u64)
    ensures
        r == weight_nat(word as nat),
{
    let mut cnt: u64 = 0;
    let mut w = word;
    let mut i: usize = 0;
    proof {
        vstd::arithmetic::power2::lemma2_to64_rest();
        lemma2_to64();
    }
    while i < 8
        invariant
            i <= 8,
            cnt <= 8 * i,
            (w as nat) < pow2((64 - 8 * i) as nat),
            cnt + weight_nat(w as nat) == weight_nat(word as nat),
        decreases 8 - i,
    {
        let byte = (w & 0xFF) as u8;
        proof {
            lemma2_to64();
            assert((w & 0xFF) == w % 256) by (bit_vector);
            assert((w >> 8u64) == w / 256) by (bit_vector);
            lemma_weight_split(w as nat, 8);
            assert(weight_nat((w & 0xFF) as nat) <= 8) by {
                lemma_weight_bound((w & 0xFF) as nat, 8);
            }
            vstd::arithmetic::power2::lemma_pow2_adds((56 - 8 * i) as nat, 8);
            assert((w as nat) / pow2(8) < pow2((56 - 8 * i) as nat)) by (nonlinear_arith)
                requires
                    (w as nat) < pow2((56 - 8 * i) as nat) * pow2(8),
                    pow2(8) > 0,
            ;
        }
        cnt = cnt + weight_u8(byte);
        w = w >> 8u64;
        i = i + 1;
    }
    proof {
        lemma2_to64();
    }
    cnt
}

/// A number below 2^k has at most k set bits.
proof fn lemma_weight_bound(v: nat, k: nat)
    requires
        v < pow2(k),
    ensures
        weight_nat(v) <= k,
    decreases k,
{
    if k == 0 {
        lemma2_to64();
    } else {
        vstd::arithmetic::power2::lemma_pow2_unfold(k);
        lemma_weight_bound(v / 2, (k - 1) as nat);
    }
}

/// The total number of set bits in a byte vector.
pub fn weight_bytes(bytes: Vec<u8>) -> (r: u64)
    requires
        bytes@.len() * 8 <= u64::MAX,
    ensures
        r == weight_seq(bytes@),
{
    let mut cnt: u64 = 0;
    let mut i: usize = 0;
    proof {
        assert(bytes@.skip(0) =~= bytes@);
    }
    while i < bytes.len()
        invariant
            i <= bytes@.len(),
            bytes@.len() * 8 <= u64::MAX,
            cnt <= 8 * i,
            cnt + weight_seq(bytes@.skip(i as int)) == weight_seq(bytes@),
        decreases bytes@.len() - i,
    {
        proof {
            lemma_weight_seq_peel(bytes@, i as int);
            lemma2_to64();
            lemma_weight_bound(bytes@[i as int] as nat, 8);
        }
        cnt = cnt + weight_u8(bytes[i]);
        i = i + 1;
    }
    proof {
        assert(bytes@.skip(bytes@.len() as int) =~= Seq::<u8>::empty());
    }
    cnt
}

proof fn lemma_weight_seq_peel(s: Seq<u8>, i: int)
    requires
        0 <= i < s.len(),
    ensures
        weight_seq(s.skip(i)) == weight_nat(s[i] as nat) + weight_seq(s.skip(i + 1)),
{
    assert(s.skip(i)[0] == s[i]);
    assert(s.skip(i).skip(1) =~= s.skip(i + 1));
}

proof fn lemma_weight_words_peel(s: Seq<u64>, i: int)
    requires
        0 <= i < s.len(),
    ensures
        weight_seq_words(s.skip(i)) == weight_nat(s[i] as nat) + weight_seq_words(s.skip(i + 1)),
{
    assert(s.skip(i)[0] == s[i]);
    assert(s.skip(i).skip(1) =~= s.skip(i + 1));
}

/// The total number of set bits in a word vector.
pub fn weight_words(words: Vec<u64>) -> (r: u64)
    requires
        words@.len() * 64 <= u64::MAX,
    ensures
        r == weight_seq_words(words@),
{
    let mut cnt: u64 = 0;
    let mut i: usize = 0;
    proof {
        assert(words@.skip(0) =~= words@);
    }
    while i < words.len()
        invariant
            i <= words@.len(),
            words@.len() * 64 <= u64::MAX,
            cnt <= 64 * i,
            cnt + weight_seq_words(words@.skip(i as int)) == weight_seq_words(words@),
        decreases words@.len() - i,
    {
        proof {
            lemma_weight_words_peel(words@, i as int);
            lemma2_to64();
            lemma_weight_bound(words@[i as int] as nat, 64);
        }
        cnt = cnt + weight_u64(words[i]);
        i = i + 1;
    }
    proof {
        assert(words@.skip(words@.len() as int) =~= Seq::<u64>::empty());
    }
    cnt
}

/// The number of differing bit positions between two bytes.
pub fn distance_u8(b: u8, c: u8) -> (r: u64)
    ensures
        r == weight_nat((b ^ c) as nat),
{
    let ghost d0 = b ^ c;
    let mut cnt: u64 = 0;
    let mut diff = b ^ c;
    let mut i: usize = 0;
    proof {
        lemma2_to64();
    }
    while i < 8
        invariant
            i <= 8,
            cnt <= i,
            (diff as nat) < pow2((8 - i) as nat),
            cnt + weight_nat(diff as nat) == weight_nat(d0 as nat),
        decreases 8 - i,
    {
        proof {
            lemma2_to64();
            assert((diff & 1) == diff % 2) by (bit_vector);
            assert((diff >> 1u8) == diff / 2) by (bit_vector);
            vstd::arithmetic::power2::lemma_pow2_unfold((8 - i) as nat);
        }
        cnt = cnt + (diff & 1) as u64;
        diff = diff >> 1u8;
        i = i + 1;
    }
    proof {
        lemma2_to64();
    }
    cnt
}

/// The number of differing bit positions between two 64-bit words.
pub fn distance_u64(w: u64, x: u64) -> (r: u64)
    ensures
        r == weight_nat((w ^ x) as nat),
{
    let ghost d0 = w ^ x;
    let mut cnt: u64 = 0;
    let mut diff = w ^ x;
    let mut i: usize = 0;
    proof {
        vstd::arithmetic::power2::lemma2_to64_rest();
        lemma2_to64();
    }
    while i < 64
        invariant
            i <= 64,
            cnt <= i,
            (diff as nat) < pow2((64 - i) as nat),
            cnt + weight_nat(diff as nat) == weight_nat(d0 as nat),
        decreases 64 - i,
    {
        proof {
            vstd::arithmetic::power2::lemma2_to64_rest();
            lemma2_to64();
            assert((diff & 1) == diff % 2) by (bit_vector);
            assert((diff >> 1u64) == diff / 2) by (bit_vector);
            vstd::arithmetic::power2::lemma_pow2_unfold((64 - i) as nat);
        }
        cnt = cnt + (diff & 1) as u64;
        diff = diff >> 1u64;
        i = i + 1;
    }
    proof {
        lemma2_to64();
    }
    cnt
}

/// The total number of differing bits between two equal-length byte strings.
pub open spec fn dist_seq(a: Seq<u8>, b: Seq<u8>) -> nat
    decreases a.len(),
{
    if a.len() == 0 || b.len() == 0 {
        0
    } else {
        weight_nat((a[0] ^ b[0]) as nat) + dist_seq(a.skip(1), b.skip(1))
    }
}

/// The total number of differing bits between two equal-length word strings.
pub open spec fn dist_seq_words(a: Seq<u64>, b: Seq<u64>) -> nat
    decreases a.len(),
{
    if a.len() == 0 || b.len() == 0 {
        0
    } else {
        weight_nat((a[0] ^ b[0]) as nat) + dist_seq_words(a.skip(1), b.skip(1))
    }
}

/// The Hamming distance between two byte vectors of the same length.
pub fn distance_bytes(bs: Vec<u8>, cs: Vec<u8>) -> (r: u64)
    requires
        bs@.len() == cs@.len(),
        bs@.len() * 8 <= u64::MAX,
    ensures
        r == dist_seq(bs@, cs@),
{
    let mut cnt: u64 = 0;
    let mut i: usize = 0;
    proof {
        assert(bs@.skip(0) =~= bs@);
        assert(cs@.skip(0) =~= cs@);
    }
    while i < bs.len()
        invariant
            i <= bs@.len(),
            bs@.len() == cs@.len(),
            bs@.len() * 8 <= u64::MAX,
            cnt <= 8 * i,
            cnt + dist_seq(bs@.skip(i as int), cs@.skip(i as int)) == dist_seq(bs@, cs@),
        decreases bs@.len() - i,
    {
        proof {
            assert(bs@.skip(i as int)[0] == bs@[i as int]);
            assert(bs@.skip(i as int).skip(1) =~= bs@.skip(i + 1));
            assert(cs@.skip(i as int).skip(1) =~= cs@.skip(i + 1));
            lemma2_to64();
            lemma_weight_bound((bs@[i as int] ^ cs@[i as int]) as nat, 8);
        }
        cnt = cnt + distance_u8(bs[i], cs[i]);
        i = i + 1;
    }
    proof {
        assert(bs@.skip(bs@.len() as int) =~= Seq::<u8>::empty());
    }
    cnt
}

/// The Hamming distance between two word vectors of the same length.
pub fn distance_words(ws: Vec<u64>, xs: Vec<u64>) -> (r: u64)
    requires
        ws@.len() == xs@.len(),
        ws@.len() * 64 <= u64::MAX,
    ensures
        r == dist_seq_words(ws@, xs@),
{
    let mut cnt: u64 = 0;
    let mut i: usize = 0;
    proof {
        assert(ws@.skip(0) =~= ws@);
        assert(xs@.skip(0) =~= xs@);
    }
    while i < ws.len()
        invariant
            i <= ws@.len(),
            ws@.len() == xs@.len(),
            ws@.len() * 64 <= u64::MAX,
            cnt <= 64 * i,
            cnt + dist_seq_words(ws@.skip(i as int), xs@.skip(i as int)) == dist_seq_words(
                ws@,
                xs@,
            ),
        decreases ws@.len() - i,
    {
        proof {
            assert(ws@.skip(i as int)[0] == ws@[i as int]);
            assert(ws@.skip(i as int).skip(1) =~= ws@.skip(i + 1));
            assert(xs@.skip(i as int).skip(1) =~= xs@.skip(i + 1));
            vstd::arithmetic::power2::lemma2_to64_rest();
            lemma2_to64();
            lemma_weight_bound((ws@[i as int] ^ xs@[i as int]) as nat, 64);
        }
        cnt = cnt + distance_u64(ws[i], xs[i]);
        i = i + 1;
    }
    proof {
        assert(ws@.skip(ws@.len() as int) =~= Seq::<u64>::empty());
    }
    cnt
}

} // verus!
