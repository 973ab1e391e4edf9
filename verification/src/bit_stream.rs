use crate::bits::{
    get_bit, get_byte, lemma_word_by_bits, lemma_word_byte, lemma_word_with_bit,
    lemma_word_with_byte, lemma_zero_word, with_bit, with_byte, word_bit, word_with_bit, Bit,
};
use crate::error::KeccakError;
use crate::word::{all_fit, packed, value_bit, width_of, IntoWord, TryIntoWord};
use vstd::arithmetic::div_mod::lemma_fundamental_div_mod_converse;
use vstd::prelude::*;
use vstd::slice::slice_to_vec;
use vstd::std_specs::cmp::PartialEqSpec;
use vstd::string::StringSliceAdditionalSpecFns;

verus! {

/// Bit `p` of a run of words: bit 0 is the most significant bit of the
/// first word, bit 64 the most significant bit of the second.
pub open spec fn stream_bit(words: Seq<u64>, p: int) -> Bit {
    word_bit(words[p / 64], p % 64)
}

/// The number of 64-bit words that hold `n` bits.
pub open spec fn words_for(n: nat) -> nat {
    (n + 63) / 64
}

/// A sequence of bits of any length, packed into 64-bit words, the first
/// bit in the most significant place of the first word.
#[derive(Debug)]
pub struct BitStream {
    bits: Vec<u64>,
    length: usize,
}

impl View for BitStream {
    type V = Seq<Bit>;

    /// The bits, in order, each 0 or 1.
    open spec fn view(&self) -> Seq<Bit> {
        Seq::new(self.bit_len(), |i: int| stream_bit(self.words(), i))
    }
}

impl BitStream {
    /// The backing words.
    pub closed spec fn words(&self) -> Seq<u64> {
        self.bits@
    }

    /// The number of bits.
    pub closed spec fn bit_len(&self) -> nat {
        self.length as nat
    }

    /// There are exactly as many words as the bits need, and what the last
    /// word holds beyond the last bit is zero.
    pub open spec fn wf(&self) -> bool {
        &&& self.words().len() == words_for(self.bit_len())
        &&& forall|p: int|
            self.bit_len() <= p < 64 * self.words().len() ==> #[trigger] stream_bit(
                self.words(),
                p,
            ) == 0
    }

    /// `length` bits, all zero.
    pub fn new(length: usize) -> (r: Self)
        ensures
            r.wf(),
            r@ == Seq::new(length as nat, |i: int| 0u8),
            r.words() == Seq::new(words_for(length as nat), |i: int| 0u64),
    {
        let rest: usize = if length % 64 != 0 {
            1
        } else {
            0
        };
        let count: usize = length / 64 + rest;
        let mut bits: Vec<u64> = Vec::new();
        let mut i: usize = 0;
        while i < count
            invariant
                i <= count,
                bits@ == Seq::new(i as nat, |j: int| 0u64),
            decreases count - i,
        {
            bits.push(0);
            i = i + 1;
        }
        let r = BitStream { bits, length };
        proof {
            assert forall|p: int| 0 <= p < 64 * r.words().len() implies #[trigger] stream_bit(
                r.words(),
                p,
            ) == 0 by {
                lemma_zero_word(p % 64);
            }
        }
        r
    }

    /// The bits of `src`, word by word: `64 * src.len()` of them.
    pub fn from_u64(src: &[u64]) -> (r: Self)
        requires
            64 * src@.len() <= usize::MAX,
        ensures
            r.wf(),
            r.words() == src@,
            r@ == packed(src@),
    {
        let r = BitStream { bits: slice_to_vec(src), length: 64 * src.len() };
        proof {
            assert(r@ =~= packed(src@));
        }
        r
    }

    /// The number of bits.
    pub fn len(&self) -> (n: usize)
        ensures
            n == self@.len(),
    {
        self.length
    }

    /// A copy of the backing words.
    pub fn as_vec_u64(&self) -> (r: Vec<u64>)
        ensures
            r@ == self.words(),
    {
        self.bits.clone()
    }

    /// Bit `idx`, or `OutOfRange` where `idx` is not below the length.
    pub fn get(&self, idx: usize) -> (r: Result<Bit, KeccakError>)
        requires
            self.wf(),
        ensures
            idx < self@.len() ==> r == Ok::<Bit, KeccakError>(self@[idx as int]),
            idx >= self@.len() ==> r == Err::<Bit, KeccakError>(KeccakError::OutOfRange),
    {
        if idx < self.length {
            Ok(get_bit(self.bits[idx / 64], idx % 64))
        } else {
            Err(KeccakError::OutOfRange)
        }
    }

    /// Bit `idx`, for callers that have shown `idx` to be below the length.
    pub fn bit(&self, idx: usize) -> (b: Bit)
        requires
            self.wf(),
            idx < self@.len(),
        ensures
            b == self@[idx as int],
            b <= 1,
    {
        get_bit(self.bits[idx / 64], idx % 64)
    }

    /// Sets bit `idx` to the least significant bit of `val`; the other bits
    /// of `val` are not looked at. Where `idx` is not below the length,
    /// nothing changes and `OutOfRange` is returned.
    pub fn set(&mut self, idx: usize, val: Bit) -> (r: Result<(), KeccakError>)
        requires
            old(self).wf(),
        ensures
            final(self).wf(),
            idx < old(self)@.len() ==> r.is_ok() && final(self)@ == old(self)@.update(
                idx as int,
                val & 1,
            ) && final(self).words() == old(self).words().update(
                idx as int / 64,
                word_with_bit(old(self).words()[idx as int / 64], idx as int % 64, val),
            ),
            idx >= old(self)@.len() ==> r == Err::<(), KeccakError>(KeccakError::OutOfRange)
                && *final(self) == *old(self),
    {
        if idx >= self.length {
            return Err(KeccakError::OutOfRange);
        }
        self.put(idx, val);
        Ok(())
    }

    /// Sets bit `idx` to the least significant bit of `val`, for callers
    /// that have shown `idx` to be below the length.
    pub fn put(&mut self, idx: usize, val: Bit)
        requires
            old(self).wf(),
            idx < old(self)@.len(),
        ensures
            final(self).wf(),
            final(self)@ == old(self)@.update(idx as int, val & 1),
            final(self).words() == old(self).words().update(
                idx as int / 64,
                word_with_bit(old(self).words()[idx as int / 64], idx as int % 64, val),
            ),
    {
        let i = idx / 64;
        let k = idx % 64;
        let w = self.bits[i];
        self.bits[i] = with_bit(w, k, val);
        proof {
            let before = old(self).words();
            let after = self.words();
            assert forall|p: int| 0 <= p < 64 * after.len() implies stream_bit(after, p) == if p
                == idx {
                val & 1
            } else {
                stream_bit(before, p)
            } by {
                if p / 64 == i {
                    lemma_word_with_bit(w, k as int, val, p % 64);
                }
            }
            assert(self@ =~= old(self)@.update(idx as int, val & 1));
        }
    }

    /// Appends `n` zero bits.
    pub fn pad(&mut self, n: usize)
        requires
            old(self).wf(),
            old(self)@.len() + n <= usize::MAX,
        ensures
            final(self).wf(),
            final(self)@ == old(self)@ + Seq::new(n as nat, |i: int| 0u8),
    {
        let total = self.length + n;
        let rest: usize = if total % 64 != 0 {
            1
        } else {
            0
        };
        let needed = total / 64 + rest;
        let ghost held = self.bits@.len();
        while self.bits.len() < needed
            invariant
                self.length == old(self).length,
                held == old(self).bits@.len(),
                held <= self.bits@.len(),
                held <= needed,
                self.bits@.len() <= needed,
                self.bits@.take(held as int) == old(self).bits@,
                forall|p: int|
                    self.length <= p < 64 * self.bits@.len() ==> #[trigger] stream_bit(
                        self.bits@,
                        p,
                    ) == 0,
            decreases needed - self.bits@.len(),
        {
            let ghost before = self.bits@;
            self.bits.push(0);
            proof {
                assert(self.bits@.take(held as int) =~= before.take(held as int));
                assert forall|p: int|
                    self.length <= p < 64 * self.bits@.len() implies #[trigger] stream_bit(
                    self.bits@,
                    p,
                ) == 0 by {
                    if p < 64 * before.len() {
                        assert(stream_bit(before, p) == 0);
                    } else {
                        lemma_zero_word(p % 64);
                    }
                }
            }
        }
        self.length = total;
        proof {
            let grown = old(self)@ + Seq::new(n as nat, |i: int| 0u8);
            assert forall|p: int| 0 <= p < total implies self@[p] == grown[p] by {
                if p < old(self).length {
                    assert(self.bits@[p / 64] == self.bits@.take(held as int)[p / 64]);
                } else {
                    assert(stream_bit(self.bits@, p) == 0);
                }
            }
            assert(self@ =~= grown);
        }
    }

    /// Appends the eight bits of `byte`, the most significant first, to a
    /// container that holds a whole number of bytes.
    pub fn push_byte(&mut self, byte: u8)
        requires
            old(self).wf(),
            old(self)@.len() % 8 == 0,
            old(self)@.len() + 8 <= usize::MAX,
        ensures
            final(self).wf(),
            final(self)@ == old(self)@ + Seq::new(8, |k: int| value_bit(byte as u64, 8, k)),
    {
        let at = self.length % 64;
        if at == 0 {
            self.bits.push(0);
        }
        let ghost grown = self.bits@;
        proof {
            assert forall|p: int| self.length <= p < 64 * grown.len() implies #[trigger] stream_bit(
                grown,
                p,
            ) == 0 by {
                if at == 0 {
                    lemma_zero_word(p % 64);
                } else {
                    assert(stream_bit(old(self).bits@, p) == 0);
                }
            }
        }
        let i = self.length / 64;
        let w = self.bits[i];
        self.bits[i] = with_byte(w, at, byte);
        self.length = self.length + 8;
        proof {
            let added = old(self)@ + Seq::new(8, |k: int| value_bit(byte as u64, 8, k));
            assert forall|p: int| 0 <= p < 64 * self.bits@.len() implies #[trigger] stream_bit(
                self.bits@,
                p,
            ) == if p < old(self).length {
                stream_bit(old(self).bits@, p)
            } else if p < self.length {
                value_bit(byte as u64, 8, p - old(self).length)
            } else {
                0
            } by {
                if p / 64 == i {
                    lemma_word_with_byte(w, at as int, byte, p % 64);
                    if p >= old(self).length {
                        assert(stream_bit(grown, p) == 0);
                    }
                }
            }
            assert(self@ =~= added);
        }
    }

    /// Appends the integers of `src`, each with the bits of its type and
    /// its most significant bit first.
    fn append<T: TryIntoWord>(&mut self, src: &[T])
        requires
            old(self).wf(),
            old(self)@.len() % 8 == 0,
            all_fit(src@),
            old(self)@.len() + width_of::<T>() * src@.len() <= usize::MAX,
        ensures
            final(self).wf(),
            final(self)@ == old(self)@ + packed(src@),
    {
        let size = T::bytes();
        let ghost width = width_of::<T>();
        let ghost start = self@;
        let mut i: usize = 0;
        while i < src.len()
            invariant
                i <= src@.len(),
                size == T::size(),
                1 <= size <= 16,
                width == 8 * size,
                all_fit(src@),
                start.len() % 8 == 0,
                start.len() + width * src@.len() <= usize::MAX,
                self.wf(),
                self@.len() % 8 == 0,
                self@ == start + packed(src@).take(width * i),
            decreases src@.len() - i,
        {
            proof {
                lemma_element_bounds(width, i as int, src@.len() as int);
            }
            let word = src[i].try_into_word().unwrap();
            let mut m: usize = 0;
            while m < size
                invariant
                    i < src@.len(),
                    m <= size,
                    size == T::size(),
                    1 <= size <= 16,
                    width == 8 * size,
                    word == src@[i as int].value(),
                    start.len() % 8 == 0,
                    start.len() + width * i + width <= usize::MAX,
                    width * i + width <= width * src@.len(),
                    0 <= width * i,
                    self.wf(),
                    self@.len() % 8 == 0,
                    self@ == start + packed(src@).take(width * i + 8 * m),
                decreases size - m,
            {
                let q = size - 1 - m;
                let byte = if q >= 8 {
                    0
                } else {
                    get_byte(word, q)
                };
                let ghost before = self@;
                self.push_byte(byte);
                proof {
                    let at = width * i + 8 * m;
                    let all = packed(src@);
                    assert(i * width == width * i) by (nonlinear_arith);
                    assert forall|k: int| 0 <= k < 8 implies #[trigger] value_bit(
                        byte as u64,
                        8,
                        k,
                    ) == all[at + k] by {
                        lemma_fundamental_div_mod_converse(at + k, width, i as int, 8 * m + k);
                        if q >= 8 {
                            lemma_zero_word(56 + k);
                        } else {
                            lemma_word_byte(word, q as int, k);
                        }
                    }
                    assert(self@ =~= start + all.take(at + 8));
                }
                m = m + 1;
            }
            proof {
                assert(width * (i + 1) == width * i + 8 * size) by (nonlinear_arith)
                    requires
                        width == 8 * size,
                ;
            }
            i = i + 1;
        }
        proof {
            assert(packed(src@).take(width * src@.len()) =~= packed(src@));
        }
    }

    /// The integers of `src` as bits, each with the bits of its type and
    /// its most significant bit first.
    pub fn from_val<T: IntoWord>(src: &[T]) -> (r: Self)
        requires
            width_of::<T>() * src@.len() <= usize::MAX,
        ensures
            r.wf(),
            r@ == packed(src@),
    {
        let mut r = BitStream::new(0);
        proof {
            assert forall|i: int| 0 <= i < src@.len() implies (#[trigger] src@[i]).value()
                <= u64::MAX by {
                src@[i].lemma_fits();
            }
        }
        r.append(src);
        proof {
            assert(r@ =~= packed(src@));
        }
        r
    }

    /// The integers of `src` as bits, as `from_val` gives them, where each
    /// fits into a 64-bit word; `ConversionOverflow` where one does not.
    pub fn try_from_val<T: TryIntoWord>(src: &[T]) -> (r: Result<Self, KeccakError>)
        requires
            width_of::<T>() * src@.len() <= usize::MAX,
        ensures
            all_fit(src@) ==> r.is_ok() && r.unwrap().wf() && r.unwrap()@ == packed(src@),
            !all_fit(src@) ==> r.is_err() && r.unwrap_err() == KeccakError::ConversionOverflow,
    {
        if !Self::fits(src) {
            return Err(KeccakError::ConversionOverflow);
        }
        let mut r = BitStream::new(0);
        r.append(src);
        proof {
            assert(r@ =~= packed(src@));
        }
        Ok(r)
    }

    /// Appends the integers of `src`, each with the bits of its type and
    /// its most significant bit first, to a container that ends on a word
    /// boundary. Where it does not, nothing changes and `AlignmentViolation`
    /// is returned.
    pub fn add_val<T: IntoWord>(&mut self, src: &[T]) -> (r: Result<(), KeccakError>)
        requires
            old(self).wf(),
            old(self)@.len() + width_of::<T>() * src@.len() <= usize::MAX,
        ensures
            final(self).wf(),
            old(self)@.len() % 64 == 0 ==> r.is_ok() && final(self)@ == old(self)@ + packed(src@),
            old(self)@.len() % 64 != 0 ==> r == Err::<(), KeccakError>(
                KeccakError::AlignmentViolation,
            ) && *final(self) == *old(self),
    {
        if self.length % 64 != 0 {
            return Err(KeccakError::AlignmentViolation);
        }
        proof {
            assert forall|i: int| 0 <= i < src@.len() implies (#[trigger] src@[i]).value()
                <= u64::MAX by {
                src@[i].lemma_fits();
            }
        }
        self.append(src);
        Ok(())
    }

    /// Appends the integers of `src` as `add_val` does, where the
    /// container ends on a word boundary and each integer fits into a
    /// 64-bit word. Otherwise nothing changes, and the result is
    /// `AlignmentViolation` in the first case and `ConversionOverflow` in
    /// the second.
    pub fn try_add_val<T: TryIntoWord>(&mut self, src: &[T]) -> (r: Result<(), KeccakError>)
        requires
            old(self).wf(),
            old(self)@.len() + width_of::<T>() * src@.len() <= usize::MAX,
        ensures
            final(self).wf(),
            old(self)@.len() % 64 == 0 && all_fit(src@) ==> r.is_ok() && final(self)@ == old(
                self,
            )@ + packed(src@),
            old(self)@.len() % 64 != 0 ==> r == Err::<(), KeccakError>(
                KeccakError::AlignmentViolation,
            ) && *final(self) == *old(self),
            old(self)@.len() % 64 == 0 && !all_fit(src@) ==> r == Err::<(), KeccakError>(
                KeccakError::ConversionOverflow,
            ) && *final(self) == *old(self),
    {
        if self.length % 64 != 0 {
            return Err(KeccakError::AlignmentViolation);
        }
        if !Self::fits(src) {
            return Err(KeccakError::ConversionOverflow);
        }
        self.append(src);
        Ok(())
    }

    /// Whether every integer of `src` fits into a 64-bit word.
    pub fn fits<T: TryIntoWord>(src: &[T]) -> (b: bool)
        ensures
            b == all_fit(src@),
    {
        let mut i: usize = 0;
        while i < src.len()
            invariant
                i <= src@.len(),
                forall|j: int| 0 <= j < i ==> (#[trigger] src@[j]).value() <= u64::MAX,
            decreases src@.len() - i,
        {
            if src[i].try_into_word().is_none() {
                return false;
            }
            i = i + 1;
        }
        true
    }

    /// The bytes of `src` as bits, each byte with its most significant bit
    /// first.
    pub fn from_str(src: &str) -> (r: Self)
        requires
            8 * src.spec_bytes().len() <= usize::MAX,
        ensures
            r.wf(),
            r@ == packed(src.spec_bytes()),
    {
        Self::from_val(src.as_bytes())
    }
}

/// Element `i` of `len` elements of `width` bits each ends inside the bits
/// of all of them.
proof fn lemma_element_bounds(width: int, i: int, len: int)
    requires
        0 <= width,
        0 <= i < len,
    ensures
        0 <= width * i,
        width * i + width <= width * len,
{
    assert(0 <= width * i && width * i + width <= width * len) by (nonlinear_arith)
        requires
            0 <= width,
            0 <= i < len,
    ;
}

impl PartialEq for BitStream {
    /// Two containers are equal where they have the same number of bits
    /// and the same backing words.
    fn eq(&self, other: &Self) -> (r: bool) {
        let r = self.length == other.length && self.bits == other.bits;
        proof {
            if r {
                assert(self.bits@ =~= other.bits@);
            }
        }
        r
    }
}

impl vstd::std_specs::cmp::PartialEqSpecImpl for BitStream {
    open spec fn obeys_eq_spec() -> bool {
        true
    }

    open spec fn eq_spec(&self, other: &Self) -> bool {
        self@.len() == other@.len() && self.words() == other.words()
    }
}

/// A container is known by its bits: two well-formed containers with the
/// same bits have the same backing words, and so are equal as `==` has it.
pub proof fn lemma_container_by_bits(a: BitStream, b: BitStream)
    requires
        a.wf(),
        b.wf(),
        a@ == b@,
    ensures
        a.words() == b.words(),
        a.eq_spec(&b),
{
    assert(a.bit_len() == a@.len() && b.bit_len() == b@.len());
    assert forall|i: int| 0 <= i < a.words().len() implies a.words()[i] == b.words()[i] by {
        assert forall|k: int| 0 <= k < 64 implies #[trigger] word_bit(a.words()[i], k) == word_bit(
            b.words()[i],
            k,
        ) by {
            let p = 64 * i + k;
            if p < a@.len() {
                assert(a@[p] == stream_bit(a.words(), p));
                assert(b@[p] == stream_bit(b.words(), p));
            } else {
                assert(stream_bit(a.words(), p) == 0);
                assert(stream_bit(b.words(), p) == 0);
            }
        }
        lemma_word_by_bits(a.words()[i], b.words()[i]);
    }
    assert(a.words() =~= b.words());
}

} // verus!
