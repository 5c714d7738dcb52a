//! The integer types the codec works on, and their mathematical model.
//!
//! A machine integer is modelled by the mathematical integer it stands for.
//! Its bits are those of the two's-complement expansion of that integer, which
//! goes on forever to the left: bit `i` of `v` is `(v / 2^i) % 2`, with floor
//! division. An arithmetic right shift is then a floor division by a power of
//! two for signed and unsigned types alike.

use crate::arith::exp2;
use vstd::prelude::*;

verus! {

/// Bit `i` of the two's-complement expansion of `v`.
pub open spec fn bit_at(v: int, i: int) -> bool {
    (v / exp2(i)) % 2 == 1
}

/// The lowest `count` bits of `v`, least significant first.
pub open spec fn low_bits(v: int, count: int) -> Seq<bool> {
    Seq::new(
        if count < 0 {
            0
        } else {
            count as nat
        },
        |i: int| bit_at(v, i),
    )
}

/// Whether `v` is a value of the integer type with `width` bits that is
/// signed or unsigned as `signed` says.
pub open spec fn representable(v: int, width: int, signed: bool) -> bool {
    if signed {
        width >= 1 && -exp2(width - 1) <= v < exp2(width - 1)
    } else {
        width >= 0 && 0 <= v < exp2(width)
    }
}

/// What the top bit of a `width`-bit integer contributes to its value when it
/// is set: `2^(width-1)`, negated for a signed type.
pub open spec fn top_weight(width: int, signed: bool) -> int {
    if signed {
        -exp2(width - 1)
    } else {
        exp2(width - 1)
    }
}

/// The capabilities the codec needs of an integer type.
///
/// The right shift is the type's own: arithmetic for a signed type, logical
/// for an unsigned one. Over the mathematical model both are a floor division.
pub trait Word: Copy {
    /// The native width of the type in bits.
    spec fn bit_width() -> nat;

    /// Whether the type is signed, so that its right shift keeps the sign.
    spec fn signed() -> bool;

    /// The integer that `self` stands for.
    spec fn value(self) -> int;

    /// A word has at least two bits.
    proof fn lemma_width()
        ensures
            2 <= Self::bit_width(),
    ;

    /// The value of a word lies in the range of its type.
    proof fn lemma_value_in_range(self)
        ensures
            representable(self.value(), Self::bit_width() as int, Self::signed()),
    ;

    /// Two words with the same value are the same word.
    proof fn lemma_value_injective(self, other: Self)
        requires
            self.value() == other.value(),
        ensures
            self == other,
    ;

    /// The native width of the type in bits.
    fn width() -> (w: usize)
        ensures
            w == Self::bit_width(),
    ;

    /// The word whose bits are all clear.
    fn zero() -> (z: Self)
        ensures
            z.value() == 0,
    ;

    /// The least significant bit.
    fn low_bit(self) -> (b: bool)
        ensures
            b == bit_at(self.value(), 0),
    ;

    /// Shifts right by `n` bits with the type's own shift.
    fn shift_right(self, n: usize) -> (r: Self)
        requires
            n < Self::bit_width(),
        ensures
            r.value() == self.value() / exp2(n as int),
    ;

    /// Sets or clears the most significant bit and keeps the others.
    fn with_top_bit(self, bit: bool) -> (r: Self)
        ensures
            r.value() == self.value() % exp2(Self::bit_width() - 1) + if bit {
                top_weight(Self::bit_width() as int, Self::signed())
            } else {
                0
            },
    ;
}

} // verus!
