use crate::error::KeccakError;
use std::collections::TryReserveError;
use vstd::prelude::*;
use vstd::std_specs::cmp::PartialEqSpec;

verus! {

/// `x` is a value that `T::default()` may return: zero, for the integers.
pub open spec fn is_default<T: Default>(x: T) -> bool {
    call_ensures(T::default, (), x)
}

/// A buffer of fixed length. Its length is chosen when it is made and never
/// changes afterwards; every access is checked against it.
pub struct VLA<T> {
    data: Vec<T>,
}

impl<T: Copy> View for VLA<T> {
    type V = Seq<T>;

    closed spec fn view(&self) -> Seq<T> {
        self.data@
    }
}

impl<T: Copy> VLA<T> {
    /// A buffer of `length` elements, each the default value of `T`.
    ///
    /// Whether the memory can be had is for the allocator to say: where it
    /// cannot, the result is `AllocationFailure`.
    pub fn new(length: usize) -> (r: Result<Self, KeccakError>) where T: Default
        ensures
            r matches Ok(v) ==> v@.len() == length && forall|i: int|
                0 <= i < length ==> is_default(#[trigger] v@[i]),
            r matches Err(e) ==> e == KeccakError::AllocationFailure,
    {
        let mut storage: Vec<T> = Vec::new();
        let reservation = storage.try_reserve(length);
        Self::from_reservation(storage, reservation, length)
    }

    /// Finishes what `new` began: `storage` is the empty vector on which
    /// room for `length` elements was asked for, `reservation` what the
    /// allocator answered. A refusal becomes `AllocationFailure`; otherwise
    /// the storage is filled with `length` default values.
    pub fn from_reservation(
        storage: Vec<T>,
        reservation: Result<(), TryReserveError>,
        length: usize,
    ) -> (r: Result<Self, KeccakError>) where T: Default
        requires
            storage@.len() == 0,
        ensures
            reservation.is_ok() ==> r.is_ok() && r.unwrap()@.len() == length && forall|i: int|
                0 <= i < length ==> is_default(#[trigger] r.unwrap()@[i]),
            reservation.is_err() ==> r == Err::<Self, KeccakError>(
                KeccakError::AllocationFailure,
            ),
    {
        if reservation.is_err() {
            return Err(KeccakError::AllocationFailure);
        }
        let mut data = storage;
        let mut i: usize = 0;
        while i < length
            invariant
                i <= length,
                data@.len() == i,
                forall|j: int| 0 <= j < i ==> is_default(#[trigger] data@[j]),
            decreases length - i,
        {
            data.push(T::default());
            i = i + 1;
        }
        Ok(VLA { data })
    }

    /// The number of elements.
    pub fn len(&self) -> (n: usize)
        ensures
            n == self@.len(),
    {
        self.data.len()
    }

    /// The element at `idx`, or `OutOfRange` where there is none.
    pub fn get(&self, idx: usize) -> (r: Result<T, KeccakError>)
        ensures
            idx < self@.len() ==> r == Ok::<T, KeccakError>(self@[idx as int]),
            idx >= self@.len() ==> r == Err::<T, KeccakError>(KeccakError::OutOfRange),
    {
        if idx < self.data.len() {
            Ok(self.data[idx])
        } else {
            Err(KeccakError::OutOfRange)
        }
    }

    /// Replaces the element at `idx` by `val`. Where `idx` is beyond the
    /// buffer, nothing changes and `OutOfRange` is returned.
    pub fn set(&mut self, idx: usize, val: T) -> (r: Result<(), KeccakError>)
        ensures
            idx < old(self)@.len() ==> r.is_ok() && final(self)@ == old(self)@.update(
                idx as int,
                val,
            ),
            idx >= old(self)@.len() ==> r == Err::<(), KeccakError>(KeccakError::OutOfRange)
                && final(self)@ == old(self)@,
    {
        if idx < self.data.len() {
            self.data[idx] = val;
            Ok(())
        } else {
            Err(KeccakError::OutOfRange)
        }
    }

    /// The element at `idx`, for callers that have shown `idx` to be in
    /// range.
    pub fn read(&self, idx: usize) -> (val: T)
        requires
            idx < self@.len(),
        ensures
            val == self@[idx as int],
    {
        self.data[idx]
    }

    /// Replaces the element at `idx`, for callers that have shown `idx` to
    /// be in range.
    pub fn write(&mut self, idx: usize, val: T)
        requires
            idx < old(self)@.len(),
        ensures
            final(self)@ == old(self)@.update(idx as int, val),
    {
        self.data[idx] = val;
    }
}

impl<T: Copy + PartialEq> PartialEq for VLA<T> {
    /// Two buffers are equal where they have the same length and equal
    /// elements at every index.
    fn eq(&self, other: &Self) -> (r: bool) {
        self.data == other.data
    }
}

impl<T: Copy + PartialEq> vstd::std_specs::cmp::PartialEqSpecImpl for VLA<T> {
    open spec fn obeys_eq_spec() -> bool {
        T::obeys_eq_spec()
    }

    open spec fn eq_spec(&self, other: &Self) -> bool {
        &&& self@.len() == other@.len()
        &&& forall|i: int| 0 <= i < self@.len() ==> #[trigger] self@[i].eq_spec(&other@[i])
    }
}

} // verus!
