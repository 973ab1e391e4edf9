//! A permutation of the Keccak family on a cube of 5 by 5 lanes of any
//! depth, with the two stores it is built on: a container of bits packed
//! into 64-bit words, and a buffer of fixed length. A state is seeded with
//! a message, driven through rounds or made to absorb further messages,
//! and read back whole or by its first word, which makes it a generator of
//! samples that depend on the seed alone.

pub mod bit_stream;
pub mod bits;
pub mod cube;
pub mod error;
pub mod keccak;
pub mod permutation;
pub mod sampling;
pub mod vla;
pub mod word;

pub use bit_stream::BitStream;
pub use bits::Bit;
pub use error::KeccakError;
pub use keccak::Keccak;
pub use sampling::{draw, gen_sample};
pub use vla::VLA;
