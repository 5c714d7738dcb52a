//! The packed buffer, stated over sequences of bits.
//!
//! The logical bit stream of a sequence of integers holds, element after
//! element, the low `bits` bits of each, least significant first. The stream
//! is filled up with clear bits to a whole number of bytes, and every eight
//! bits make one byte whose most significant bit is the earliest of them.

use crate::arith::{exp2, lemma_exp2_step};
use crate::word::{bit_at, Word};
use vstd::prelude::*;

verus! {

/// The integers that the words of `xs` stand for.
pub open spec fn values<T: Word>(xs: Seq<T>) -> Seq<int> {
    Seq::new(xs.len(), |i: int| xs[i].value())
}

/// The logical bit stream: bit `k` is bit `k % bits` of element `k / bits`.
pub open spec fn bit_stream(vals: Seq<int>, bits: int) -> Seq<bool> {
    Seq::new((vals.len() * bits) as nat, |k: int| bit_at(vals[k / bits], k % bits))
}

/// How many clear bits fill a stream of `total` bits up to whole bytes.
pub open spec fn padding_len(total: int) -> int {
    (8 - total % 8) % 8
}

/// The stream followed by its padding.
pub open spec fn padded(stream: Seq<bool>) -> Seq<bool> {
    stream + Seq::new(padding_len(stream.len() as int) as nat, |i: int| false)
}

/// How many bytes hold `count` elements of `bits` bits each.
pub open spec fn packed_len(count: int, bits: int) -> int {
    (count * bits + 7) / 8
}

/// One for a set bit, zero for a clear one.
pub open spec fn bit_value(bit: bool) -> int {
    if bit {
        1
    } else {
        0
    }
}

/// The number that a run of bits spells when its first bit is the most
/// significant.
pub open spec fn msb_first(run: Seq<bool>) -> int
    decreases run.len(),
{
    if run.len() == 0 {
        0
    } else {
        2 * msb_first(run.drop_last()) + bit_value(run.last())
    }
}

/// The number that a run of bits spells when its first bit is the least
/// significant.
pub open spec fn lsb_first(run: Seq<bool>) -> int
    decreases run.len(),
{
    if run.len() == 0 {
        0
    } else {
        lsb_first(run.drop_last()) + bit_value(run.last()) * exp2(run.len() - 1)
    }
}

/// The packed buffer of a bit stream.
pub open spec fn pack(stream: Seq<bool>) -> Seq<u8> {
    Seq::new(
        padded(stream).len() / 8,
        |j: int| msb_first(padded(stream).subrange(8 * j, 8 * j + 8)) as u8,
    )
}

/// The bits of a buffer in stream order: each byte from its most significant
/// bit down.
pub open spec fn bits_of(bytes: Seq<u8>) -> Seq<bool> {
    Seq::new(bytes.len() * 8, |k: int| bit_at(bytes[k / 8] as int, 7 - k % 8))
}

/// How many bits of a buffer of `byte_count` bytes make whole elements of
/// `bits` bits: all but a remainder at the end.
pub open spec fn relevant_len(byte_count: int, bits: int) -> int {
    byte_count * 8 - (byte_count * 8) % bits
}

/// The integer that the `bits`-bit number `u` stands for in a type that is
/// signed or not: a signed type reads the top bit of the `bits` as the sign.
pub open spec fn extend(u: int, bits: int, signed: bool) -> int {
    if signed && u >= exp2(bits - 1) {
        u - exp2(bits)
    } else {
        u
    }
}

/// The elements that a buffer holds at `bits` bits each: one for every whole
/// group of `bits` bits, whatever is left over at the end being dropped.
pub open spec fn unpack(bytes: Seq<u8>, bits: int, signed: bool) -> Seq<int> {
    Seq::new(
        ((bytes.len() as int * 8) / bits) as nat,
        |i: int|
            extend(
                lsb_first(bits_of(bytes).subrange(i * bits, i * bits + bits)),
                bits,
                signed,
            ),
    )
}

/// The number spelled by a run of bits, most significant first, is below
/// `2^len`.
pub proof fn lemma_msb_first_bound(run: Seq<bool>)
    ensures
        0 <= msb_first(run) < exp2(run.len() as int),
    decreases run.len(),
{
    if run.len() == 0 {
        lemma_exp2_step(0);
    } else {
        lemma_msb_first_bound(run.drop_last());
        lemma_exp2_step(run.len() - 1);
    }
}

/// The number spelled by a run of bits, least significant first, is below
/// `2^len`.
pub proof fn lemma_lsb_first_bound(run: Seq<bool>)
    ensures
        0 <= lsb_first(run) < exp2(run.len() as int),
    decreases run.len(),
{
    if run.len() == 0 {
        lemma_exp2_step(0);
    } else {
        lemma_lsb_first_bound(run.drop_last());
        lemma_exp2_step(run.len() - 1);
    }
}

} // verus!
