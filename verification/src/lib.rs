//! Bit-width compression: packs the low `bits` bits of each integer of a
//! sequence into a dense byte buffer, and unpacks such a buffer again.
//!
//! [`shrink_it`] packs and [`expand_it`] unpacks; both walk the bits of a
//! value with [`NumberBitIter`]. The integer types they accept are those that
//! implement [`Word`]. What the buffer looks like is stated in [`format`], and
//! how the two transforms relate in [`laws`].

pub mod arith;
pub mod bit_iter;
pub mod chunk;
pub mod error;
pub mod expand;
pub mod format;
pub mod laws;
pub mod shrink;
pub mod signed;
pub mod unsigned;
pub mod word;

pub use bit_iter::NumberBitIter;
pub use error::CodecError;
pub use expand::expand_it;
pub use shrink::shrink_it;
pub use word::Word;
