//! The bits of one integer, least significant first.

use crate::arith::{exp2, lemma_div_div, lemma_exp2_step};
use crate::word::{bit_at, low_bits, Word};
use vstd::prelude::*;

verus! {

/// Walks the bits of one integer from the least significant upwards.
///
/// The walk never ends by itself: past the type's width an unsigned value
/// gives `false` for ever and a negative one gives `true` for ever. A caller
/// that wants a bounded run of bits asks for it with [`NumberBitIter::take`].
pub struct NumberBitIter<T: Word>(T);

impl<T: Word> View for NumberBitIter<T> {
    type V = int;

    /// The integer whose bits are still to come.
    closed spec fn view(&self) -> int {
        self.0.value()
    }
}

impl<T: Word> NumberBitIter<T> {
    /// Starts at the least significant bit of `value`.
    pub fn new(value: T) -> (it: Self)
        ensures
            it@ == value.value(),
    {
        NumberBitIter(value)
    }

    /// Gives the next bit, which is always there, and moves on by one.
    pub fn next(&mut self) -> (bit: Option<bool>)
        ensures
            bit == Some(bit_at(old(self)@, 0)),
            final(self)@ == old(self)@ / 2,
    {
        proof {
            T::lemma_width();
            lemma_exp2_step(0);
        }
        let bit = self.0.low_bit();
        self.0 = self.0.shift_right(1);
        Some(bit)
    }

    /// Gives the next `count` bits in order.
    pub fn take(self, count: usize) -> (bits: Vec<bool>)
        ensures
            bits@ == low_bits(self@, count as int),
    {
        let ghost start = self@;
        let mut it = self;
        let mut bits: Vec<bool> = Vec::new();
        let mut i: usize = 0;
        proof {
            lemma_exp2_step(0);
            assert(start / 1 == start);
        }
        while i < count
            invariant
                i <= count,
                it@ == start / exp2(i as int),
                bits@ == low_bits(start, i as int),
            decreases count - i,
        {
            let bit = it.next();
            proof {
                lemma_exp2_step(0);
                lemma_exp2_step(i as int);
                lemma_div_div(start, exp2(i as int), 2);
                assert(exp2(i as int) * 2 == exp2(i + 1));
                assert((start / exp2(i as int)) / 1 == start / exp2(i as int));
            }
            match bit {
                Some(b) => {
                    bits.push(b);
                },
                None => {},
            }
            i += 1;
            assert(bits@ =~= low_bits(start, i as int));
        }
        bits
    }
}

} // verus!
