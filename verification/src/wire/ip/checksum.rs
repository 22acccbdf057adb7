//! The Internet checksum: the ones' complement sum of 16-bit big-endian words.

use vstd::prelude::*;

use crate::wire::bytes::{be16, be16_bytes, read_u16_at, write_at};

verus! {

/// The plain sum of the big-endian 16-bit words of `b`; an odd last byte counts as
/// the high byte of a word.
pub open spec fn word_sum(b: Seq<u8>) -> nat
    decreases b.len(),
{
    if b.len() == 0 {
        0
    } else if b.len() == 1 {
        b[0] as nat * 256
    } else {
        be16(b[0], b[1]) as nat + word_sum(b.skip(2))
    }
}

/// `w` with its carries above 16 bits added back in, twice: the ones' complement sum
/// of a sum of words that fits in 32 bits.
pub open spec fn fold_carries(w: nat) -> u16 {
    let s = w / 65536 + w % 65536;
    (s / 65536 + s % 65536) as u16
}

/// The ones' complement sum of the words of `b`.
pub open spec fn ones_sum(b: Seq<u8>) -> u16 {
    fold_carries(word_sum(b))
}

/// The sum of the words is at most the largest word for every byte.
pub proof fn lemma_word_sum_bound(b: Seq<u8>)
    ensures
        word_sum(b) <= 65535 * b.len(),
    decreases b.len(),
{
    if b.len() >= 2 {
        lemma_word_sum_bound(b.skip(2));
    }
}

/// Compute an RFC 1071 compliant checksum (without the final complement).
///
/// `buf` holds at most 64 KiB: the sum of its words then fits in 32 bits.
pub fn data(buf: &[u8]) -> (r: u16)
    requires
        buf@.len() <= 65536,
    ensures
        r == ones_sum(buf@),
{
    let n = buf.len();
    let mut accum: u32 = 0;
    let mut i: usize = 0;
    proof {
        lemma_word_sum_bound(buf@);
        assert(buf@.skip(0) =~= buf@);
    }
    while i + 1 < n
        invariant
            n == buf@.len(),
            n <= 65536,
            i <= n,
            accum + word_sum(buf@.skip(i as int)) == word_sum(buf@),
            word_sum(buf@) <= 65535 * n,
            accum <= 65535 * i,
        decreases n - i,
    {
        let w = read_u16_at(buf, i);
        proof {
            let t = buf@.skip(i as int);
            assert(t.skip(2) =~= buf@.skip(i + 2));
            assert(t[0] == buf@[i as int] && t[1] == buf@[i + 1]);
            assert(word_sum(t) == be16(t[0], t[1]) as nat + word_sum(t.skip(2)));
        }
        accum = accum + w as u32;
        i = i + 2;
    }
    if i < n {
        proof {
            let t = buf@.skip(i as int);
            assert(t.len() == 1);
            assert(t[0] == buf@[i as int]);
        }
        accum = accum + (buf[i] as u32) * 256;
    } else {
        proof {
            assert(buf@.skip(i as int).len() == 0);
        }
    }
    let sum: u32 = accum / 65536 + accum % 65536;
    assert(sum <= 65535 + 65535);
    let hi: u32 = sum / 65536;
    let lo: u32 = sum % 65536;
    assert(hi <= 1);
    assert(hi == 1 ==> lo <= 65534);
    (hi + lo) as u16
}

/// The words before an even offset and the words after it sum to the words of the whole.
pub proof fn lemma_word_sum_split(b: Seq<u8>, i: int)
    requires
        0 <= i <= b.len(),
        i % 2 == 0,
    ensures
        word_sum(b) == word_sum(b.take(i)) + word_sum(b.skip(i)),
    decreases i,
{
    if i == 0 {
        assert(b.take(0) =~= Seq::<u8>::empty());
        assert(b.skip(0) =~= b);
    } else {
        lemma_word_sum_split(b.skip(2), i - 2);
        assert(b.take(i).skip(2) =~= b.skip(2).take(i - 2));
        assert(b.skip(2).skip(i - 2) =~= b.skip(i));
        assert(b.take(i)[0] == b[0] && b.take(i)[1] == b[1]);
    }
}

/// Folding the carries of a sum below 2^22 gives a 16-bit value that is congruent to
/// the sum modulo 65535, and zero only for a zero sum.
pub proof fn lemma_fold(w: nat)
    requires
        w < 0x40_0000,
    ensures
        fold_carries(w) <= 65535,
        (w - fold_carries(w)) % 65535 == 0,
        fold_carries(w) == 0 <==> w == 0,
{
    let q = w / 65536;
    let r = w % 65536;
    assert(w == 65536 * q + r && 0 <= r < 65536 && q < 64) by (nonlinear_arith)
        requires
            q == w / 65536,
            r == w % 65536,
            w < 0x40_0000,
    ;
    let s = q + r;
    if s < 65536 {
        assert(s / 65536 == 0 && s % 65536 == s) by (nonlinear_arith)
            requires
                s < 65536,
        ;
        assert((w - s) == 65535 * q);
        assert((65535 * q) % 65535 == 0) by (nonlinear_arith);
    } else {
        assert(s / 65536 == 1 && s % 65536 == s - 65536) by (nonlinear_arith)
            requires
                65536 <= s < 2 * 65536,
        ;
        assert((w - (s - 65535)) == 65535 * (q + 1));
        assert((65535 * (q + 1)) % 65535 == 0) by (nonlinear_arith);
    }
}

/// Writing the complement of the ones' complement sum into a zeroed, word-aligned
/// field makes the ones' complement sum all ones: a filled-in checksum verifies.
pub proof fn law_checksum_verifies(h: Seq<u8>, i: int)
    requires
        h.len() <= 60,
        0 <= i,
        i + 2 <= h.len(),
        i % 2 == 0,
        h[i] == 0,
        h[i + 1] == 0,
    ensures
        ones_sum(write_at(h, i, be16_bytes((0xffff - ones_sum(h)) as u16))) == 0xffff,
{
    let w0 = word_sum(h);
    lemma_word_sum_bound(h);
    lemma_fold(w0);
    let f = fold_carries(w0);
    let c = (0xffff - f) as u16;
    let h2 = write_at(h, i, be16_bytes(c));
    lemma_word_sum_split(h, i);
    lemma_word_sum_split(h2, i);
    assert(h2.take(i) =~= h.take(i));
    let t = h.skip(i);
    let t2 = h2.skip(i);
    assert(t.skip(2) =~= t2.skip(2));
    assert(t2[0] == (c / 256) as u8 && t2[1] == (c % 256) as u8);
    assert(be16(t2[0], t2[1]) == c) by (nonlinear_arith)
        requires
            t2[0] == (c / 256) as u8,
            t2[1] == (c % 256) as u8,
    ;
    assert(word_sum(t) == be16(t[0], t[1]) as nat + word_sum(t.skip(2)));
    assert(word_sum(t2) == be16(t2[0], t2[1]) as nat + word_sum(t2.skip(2)));
    assert(be16(t[0], t[1]) == 0);
    let w1 = word_sum(h2);
    assert(w1 == w0 + c);
    lemma_fold(w1);
    let f1 = fold_carries(w1);
    assert((w1 - f1) % 65535 == 0);
    assert((w0 - f) % 65535 == 0);
    assert(w1 - f1 == (w0 - f) + (65535 - f1));
    assert((65535 - f1) % 65535 == 0) by (nonlinear_arith)
        requires
            (w1 - f1) % 65535 == 0,
            (w0 - f) % 65535 == 0,
            w1 - f1 == (w0 - f) + (65535 - f1),
    ;
    assert(w1 > 0);
    assert(f1 == 65535) by (nonlinear_arith)
        requires
            (65535 - f1) % 65535 == 0,
            0 < f1 <= 65535,
    ;
}


/// A single word sums to itself, an odd byte to itself as the high byte, and the sum
/// of a buffer is the sum of its first word and of the rest: big-endian words, added.
pub proof fn law_word_sum_words(a: u8, b: u8, rest: Seq<u8>)
    ensures
        word_sum(seq![a, b]) == a * 256 + b,
        word_sum(seq![a]) == a * 256,
        word_sum(seq![a, b] + rest) == a * 256 + b + word_sum(rest),
        ones_sum(seq![a, b]) == a * 256 + b,
{
    assert((a * 256 + b) as u16 == a * 256 + b) by (nonlinear_arith);
    assert(seq![a, b].skip(2) =~= Seq::<u8>::empty());
    assert((seq![a, b] + rest).skip(2) =~= rest);
    assert(word_sum(Seq::<u8>::empty()) == 0);
    assert(be16(a, b) == a * 256 + b);
    assert(word_sum(seq![a, b]) == be16(a, b) + word_sum(seq![a, b].skip(2)));
    assert((seq![a, b] + rest)[0] == a && (seq![a, b] + rest)[1] == b);
    let w = a * 256 + b;
    assert(fold_carries(w as nat) == w) by (nonlinear_arith)
        requires
            0 <= w < 65536,
    {
        assert(w / 65536 == 0 && w % 65536 == w);
    }
}

} // verus!
