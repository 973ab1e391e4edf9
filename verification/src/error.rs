use vstd::prelude::*;

verus! {

/// The ways an operation of this crate can fail.
///
/// Every failure is reported to the caller; an operation that fails leaves
/// the values it was given unchanged.
#[derive(Clone, Copy, Debug, PartialEq, Eq, Structural)]
pub enum KeccakError {
    /// A bit index or a cube coordinate lies beyond its bound.
    OutOfRange,
    /// The backing memory of a buffer could not be obtained.
    AllocationFailure,
    /// An append was attempted on a container whose length is not a whole
    /// number of 64-bit words.
    AlignmentViolation,
    /// An integer does not fit into a 64-bit word.
    ConversionOverflow,
}

} // verus!
