use vstd::prelude::*;

verus! {

/// A single bit, held in a byte: 0 or 1.
pub type Bit = u8;

/// Bit `k` of the word `w`, counted from the most significant bit, which is
/// bit 0.
pub open spec fn word_bit(w: u64, k: int) -> Bit {
    if (w >> ((63 - k) as u64)) & 1 == 1 {
        1u8
    } else {
        0u8
    }
}

/// The word `w` with bit `k` replaced by the least significant bit of `v`.
pub open spec fn word_with_bit(w: u64, k: int, v: Bit) -> u64 {
    if v & 1 == 1 {
        w | (1u64 << ((63 - k) as u64))
    } else {
        w & !(1u64 << ((63 - k) as u64))
    }
}

/// The word whose first `n` bits, counted from the most significant, are
/// the first `n` of `bits`, and whose other bits are zero.
pub open spec fn word_of_bits(bits: Seq<Bit>, n: nat) -> u64
    decreases n,
{
    if n == 0 {
        0
    } else {
        word_with_bit(word_of_bits(bits, (n - 1) as nat), n - 1, bits[n - 1])
    }
}

/// The bits of `word_of_bits` are the bits it was made of.
pub proof fn lemma_word_of_bits(bits: Seq<Bit>, n: nat, k: int)
    requires
        n <= 64,
        n <= bits.len(),
        0 <= k < 64,
        forall|i: int| 0 <= i < n ==> #[trigger] bits[i] <= 1,
    ensures
        word_bit(word_of_bits(bits, n), k) == if k < n {
            bits[k]
        } else {
            0
        },
    decreases n,
{
    if n == 0 {
        lemma_zero_word(k);
    } else {
        lemma_word_of_bits(bits, (n - 1) as nat, k);
        lemma_word_with_bit(word_of_bits(bits, (n - 1) as nat), n - 1, bits[n - 1], k);
        lemma_bit_mask(bits[n - 1]);
    }
}

/// Reading bit `j` of a word in which bit `k` was replaced: the new bit at
/// `k`, the old one everywhere else.
pub proof fn lemma_word_with_bit(w: u64, k: int, v: Bit, j: int)
    requires
        0 <= k < 64,
        0 <= j < 64,
    ensures
        v & 1 == 0 || v & 1 == 1,
        word_bit(word_with_bit(w, k, v), j) == if j == k {
            v & 1
        } else {
            word_bit(w, j)
        },
{
    let s = (63 - k) as u64;
    let t = (63 - j) as u64;
    assert({
        let w2 = if v & 1 == 1 {
            w | (1u64 << s)
        } else {
            w & !(1u64 << s)
        };
        &&& (v & 1 == 0 || v & 1 == 1)
        &&& (s == t ==> ((w2 >> t) & 1 == 1) == (v & 1 == 1))
        &&& (s != t ==> ((w2 >> t) & 1 == 1) == ((w >> t) & 1 == 1))
    }) by (bit_vector)
        requires
            s < 64,
            t < 64,
    ;
}

/// Two words with the same bits from bit 0 to bit `63 - n` agree once
/// their lowest `n` bits are shifted out.
proof fn lemma_shifted_equal(a: u64, b: u64, n: nat)
    requires
        n <= 63,
        forall|k: int| 0 <= k < 64 ==> #[trigger] word_bit(a, k) == word_bit(b, k),
    ensures
        a >> (n as u64) == b >> (n as u64),
    decreases 63 - n,
{
    let s = n as u64;
    assert(word_bit(a, 63 - n) == word_bit(b, 63 - n));
    if n == 63 {
        assert(a >> 63 == b >> 63) by (bit_vector)
            requires
                ((a >> 63) & 1 == 1) == ((b >> 63) & 1 == 1),
        ;
    } else {
        lemma_shifted_equal(a, b, n + 1);
        let t = (n + 1) as u64;
        assert(a >> s == b >> s) by (bit_vector)
            requires
                s < 63,
                t == s + 1,
                a >> t == b >> t,
                ((a >> s) & 1 == 1) == ((b >> s) & 1 == 1),
        ;
    }
}

/// A word is known by its bits: two words with the same 64 bits are one
/// word.
pub proof fn lemma_word_by_bits(a: u64, b: u64)
    requires
        forall|k: int| 0 <= k < 64 ==> #[trigger] word_bit(a, k) == word_bit(b, k),
    ensures
        a == b,
{
    lemma_shifted_equal(a, b, 0);
    assert(a == b) by (bit_vector)
        requires
            a >> 0 == b >> 0,
    ;
}

/// Every bit of the zero word is 0.
pub proof fn lemma_zero_word(j: int)
    requires
        0 <= j < 64,
    ensures
        word_bit(0, j) == 0,
{
    let t = (63 - j) as u64;
    assert((0u64 >> t) & 1 == 0) by (bit_vector)
        requires
            t < 64,
    ;
}

/// A bit that is 0 or 1 is its own least significant bit.
pub proof fn lemma_bit_mask(v: Bit)
    requires
        v <= 1,
    ensures
        v & 1 == v,
{
    assert(v & 1 == v) by (bit_vector)
        requires
            v <= 1,
    ;
}

/// The exclusive or of two bits is a bit.
pub proof fn lemma_xor_bit(a: Bit, b: Bit)
    requires
        a <= 1,
        b <= 1,
    ensures
        a ^ b <= 1,
{
    assert(a ^ b <= 1) by (bit_vector)
        requires
            a <= 1,
            b <= 1,
    ;
}

/// Bit `k` of `w`, counted from the most significant bit.
pub fn get_bit(w: u64, k: usize) -> (b: Bit)
    requires
        k < 64,
    ensures
        b == word_bit(w, k as int),
{
    let s: u64 = 63 - (k as u64);
    if (w >> s) & 1 == 1 {
        1
    } else {
        0
    }
}

/// `w` with bit `k` replaced by the least significant bit of `v`.
pub fn with_bit(w: u64, k: usize, v: Bit) -> (r: u64)
    requires
        k < 64,
    ensures
        r == word_with_bit(w, k as int, v),
{
    let s: u64 = 63 - (k as u64);
    if v & 1 == 1 {
        w | (1u64 << s)
    } else {
        w & !(1u64 << s)
    }
}

/// Byte `q` of the word `w`, counted from the least significant byte,
/// which is byte 0.
pub open spec fn word_byte(w: u64, q: int) -> u8 {
    ((w >> ((8 * q) as u64)) & 0xff) as u8
}

/// Byte `q` of `w`, counted from the least significant byte.
pub fn get_byte(w: u64, q: usize) -> (b: u8)
    requires
        q < 8,
    ensures
        b == word_byte(w, q as int),
{
    let s: u64 = 8 * (q as u64);
    #[verifier::truncate]
    (((w >> s) & 0xff) as u8)
}

/// The bits of a byte of a word are bits of the word.
pub proof fn lemma_word_byte(w: u64, q: int, k: int)
    requires
        0 <= q < 8,
        0 <= k < 8,
    ensures
        word_bit(word_byte(w, q) as u64, 56 + k) == word_bit(w, 56 - 8 * q + k),
{
    let s = (8 * q) as u64;
    let r = (7 - k) as u64;
    let b = ((w >> s) & 0xff) as u8;
    assert((((b as u64) >> r) & 1 == 1) == ((w >> ((s + r) as u64)) & 1 == 1)) by (bit_vector)
        requires
            b == ((w >> s) & 0xff) as u8,
            s <= 56,
            r < 8,
    ;
}

/// The word `w` with the byte `b` added at bit `o`, counted from the most
/// significant bit: where `w` is zero from bit `o` on, that puts the byte
/// there.
pub open spec fn word_with_byte(w: u64, o: int, b: u8) -> u64 {
    w | ((b as u64) << ((56 - o) as u64))
}

/// `w` with the byte `b` added at bit `o`.
pub fn with_byte(w: u64, o: usize, b: u8) -> (r: u64)
    requires
        o <= 56,
    ensures
        r == word_with_byte(w, o as int, b),
{
    let s: u64 = 56 - (o as u64);
    w | ((b as u64) << s)
}

/// Reading bit `j` of a word to which a byte was added at bit `o`: the
/// eight bits from `o` on take up the bits of the byte, the others stay.
pub proof fn lemma_word_with_byte(w: u64, o: int, b: u8, j: int)
    requires
        0 <= o <= 56,
        0 <= j < 64,
    ensures
        !(o <= j < o + 8) ==> word_bit(word_with_byte(w, o, b), j) == word_bit(w, j),
        o <= j < o + 8 && word_bit(w, j) == 0 ==> word_bit(word_with_byte(w, o, b), j)
            == word_bit(b as u64, 56 + j - o),
{
    let s = (56 - o) as u64;
    let t = (63 - j) as u64;
    if o <= j < o + 8 {
        let d = (o + 7 - j) as u64;
        assert((((w | ((b as u64) << s)) >> t) & 1 == 1) == (((w >> t) & 1 == 1) || (((b as u64)
            >> d) & 1 == 1))) by (bit_vector)
            requires
                s <= 56,
                d < 8,
                t == s + d,
        ;
    } else {
        assert((((w | ((b as u64) << s)) >> t) & 1 == 1) == ((w >> t) & 1 == 1)) by (bit_vector)
            requires
                s <= 56,
                t < 64,
                t < s || t >= s + 8,
        ;
    }
}

} // verus!
