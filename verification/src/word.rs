use crate::bits::{word_bit, Bit};
use vstd::prelude::*;

verus! {

/// An unsigned integer that may fit into a 64-bit word.
pub trait TryIntoWord: Copy {
    /// The number of bytes that the type takes.
    spec fn size() -> nat;

    /// The integer.
    spec fn value(self) -> nat;

    /// The number of bytes that the type takes.
    fn bytes() -> (n: usize)
        ensures
            n == Self::size(),
            1 <= n <= 16,
    ;

    /// The integer as a word, where it fits into one.
    fn try_into_word(self) -> (r: Option<u64>)
        ensures
            self.value() <= u64::MAX ==> r == Some(self.value() as u64),
            self.value() > u64::MAX ==> r.is_none(),
    ;
}

/// An unsigned integer of a type that is no wider than a 64-bit word.
pub trait IntoWord: TryIntoWord {
    /// Every value of the type fits into a word.
    proof fn lemma_fits(self)
        ensures
            self.value() <= u64::MAX,
    ;
}

impl TryIntoWord for u8 {
    open spec fn size() -> nat {
        1
    }

    open spec fn value(self) -> nat {
        self as nat
    }

    fn bytes() -> (n: usize) {
        1
    }

    fn try_into_word(self) -> (r: Option<u64>) {
        Some(self as u64)
    }
}

impl IntoWord for u8 {
    proof fn lemma_fits(self) {
    }
}

impl TryIntoWord for u16 {
    open spec fn size() -> nat {
        2
    }

    open spec fn value(self) -> nat {
        self as nat
    }

    fn bytes() -> (n: usize) {
        2
    }

    fn try_into_word(self) -> (r: Option<u64>) {
        Some(self as u64)
    }
}

impl IntoWord for u16 {
    proof fn lemma_fits(self) {
    }
}

impl TryIntoWord for u32 {
    open spec fn size() -> nat {
        4
    }

    open spec fn value(self) -> nat {
        self as nat
    }

    fn bytes() -> (n: usize) {
        4
    }

    fn try_into_word(self) -> (r: Option<u64>) {
        Some(self as u64)
    }
}

impl IntoWord for u32 {
    proof fn lemma_fits(self) {
    }
}

impl TryIntoWord for u64 {
    open spec fn size() -> nat {
        8
    }

    open spec fn value(self) -> nat {
        self as nat
    }

    fn bytes() -> (n: usize) {
        8
    }

    fn try_into_word(self) -> (r: Option<u64>) {
        Some(self)
    }
}

impl IntoWord for u64 {
    proof fn lemma_fits(self) {
    }
}

impl TryIntoWord for usize {
    open spec fn size() -> nat {
        (usize::BITS / 8) as nat
    }

    open spec fn value(self) -> nat {
        self as nat
    }

    fn bytes() -> (n: usize) {
        (usize::BITS / 8) as usize
    }

    fn try_into_word(self) -> (r: Option<u64>) {
        Some(self as u64)
    }
}

impl TryIntoWord for u128 {
    open spec fn size() -> nat {
        16
    }

    open spec fn value(self) -> nat {
        self as nat
    }

    fn bytes() -> (n: usize) {
        16
    }

    fn try_into_word(self) -> (r: Option<u64>) {
        if self <= 0xffff_ffff_ffff_ffffu128 {
            Some(self as u64)
        } else {
            None
        }
    }
}

/// Bit `k` of the integer `v` written with `width` bits, counted from the
/// most significant of them.
pub open spec fn value_bit(v: u64, width: int, k: int) -> Bit {
    if k + 64 < width {
        0
    } else {
        word_bit(v, k + 64 - width)
    }
}

/// The number of bits that the type `T` takes.
pub open spec fn width_of<T: TryIntoWord>() -> int {
    8 * (T::size() as int)
}

/// Every integer of `src` fits into a word.
pub open spec fn all_fit<T: TryIntoWord>(src: Seq<T>) -> bool {
    forall|i: int| 0 <= i < src.len() ==> (#[trigger] src[i]).value() <= u64::MAX
}

/// Bit `i` of the integers of `src` written one after the other, each
/// with the bits of its type and its most significant bit first.
pub open spec fn packed_bit<T: TryIntoWord>(src: Seq<T>, i: int) -> Bit {
    value_bit(src[i / width_of::<T>()].value() as u64, width_of::<T>(), i % width_of::<T>())
}

/// The integers of `src` written one after the other, each with the bits
/// of its type and its most significant bit first.
pub open spec fn packed<T: TryIntoWord>(src: Seq<T>) -> Seq<Bit> {
    Seq::new((width_of::<T>() * src.len()) as nat, |i: int| packed_bit(src, i))
}

} // verus!
