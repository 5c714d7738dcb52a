//! The unsigned integer types as words: their right shift fills with zeros.

use crate::arith::lemma_exp2_step;
use crate::word::Word;
use vstd::arithmetic::power2::{lemma2_to64, lemma2_to64_rest};
use vstd::bits::{
    lemma_u16_shr_is_div, lemma_u32_shr_is_div, lemma_u64_shr_is_div, lemma_u8_shr_is_div,
};
use vstd::prelude::*;

verus! {

impl Word for u8 {
    open spec fn bit_width() -> nat {
        8
    }

    open spec fn signed() -> bool {
        false
    }

    open spec fn value(self) -> int {
        self as int
    }

    proof fn lemma_width() {
    }

    proof fn lemma_value_in_range(self) {
        lemma2_to64();
    }

    proof fn lemma_value_injective(self, other: Self) {
    }

    fn width() -> (w: usize) {
        8
    }

    fn zero() -> (z: Self) {
        0
    }

    fn low_bit(self) -> (b: bool) {
        proof {
            let x = self;
            assert((x & 1 == 1) == (x % 2 == 1)) by (bit_vector);
            lemma_exp2_step(0);
            assert((x as int) / 1 == x);
        }
        self & 1 == 1
    }

    fn shift_right(self, n: usize) -> (r: Self) {
        proof {
            lemma_u8_shr_is_div(self, n as u8);
        }
        self >> (n as u8)
    }

    fn with_top_bit(self, bit: bool) -> (r: Self) {
        let top: u8 = 1u8 << 7u32;
        let r = if bit {
            self | top
        } else {
            self & !top
        };
        proof {
            let x = self;
            lemma2_to64();
            assert(r == (if bit {
                x | (1u8 << 7u32)
            } else {
                x & !(1u8 << 7u32)
            }) ==> r == x % 0x80 + (if bit {
                0x80int
            } else {
                0int
            })) by (bit_vector);
        }
        r
    }
}

impl Word for u16 {
    open spec fn bit_width() -> nat {
        16
    }

    open spec fn signed() -> bool {
        false
    }

    open spec fn value(self) -> int {
        self as int
    }

    proof fn lemma_width() {
    }

    proof fn lemma_value_in_range(self) {
        lemma2_to64();
    }

    proof fn lemma_value_injective(self, other: Self) {
    }

    fn width() -> (w: usize) {
        16
    }

    fn zero() -> (z: Self) {
        0
    }

    fn low_bit(self) -> (b: bool) {
        proof {
            let x = self;
            assert((x & 1 == 1) == (x % 2 == 1)) by (bit_vector);
            lemma_exp2_step(0);
            assert((x as int) / 1 == x);
        }
        self & 1 == 1
    }

    fn shift_right(self, n: usize) -> (r: Self) {
        proof {
            lemma_u16_shr_is_div(self, n as u16);
        }
        self >> (n as u16)
    }

    fn with_top_bit(self, bit: bool) -> (r: Self) {
        let top: u16 = 1u16 << 15u32;
        let r = if bit {
            self | top
        } else {
            self & !top
        };
        proof {
            let x = self;
            lemma2_to64();
            assert(r == (if bit {
                x | (1u16 << 15u32)
            } else {
                x & !(1u16 << 15u32)
            }) ==> r == x % 0x8000 + (if bit {
                0x8000int
            } else {
                0int
            })) by (bit_vector);
        }
        r
    }
}

impl Word for u32 {
    open spec fn bit_width() -> nat {
        32
    }

    open spec fn signed() -> bool {
        false
    }

    open spec fn value(self) -> int {
        self as int
    }

    proof fn lemma_width() {
    }

    proof fn lemma_value_in_range(self) {
        lemma2_to64();
    }

    proof fn lemma_value_injective(self, other: Self) {
    }

    fn width() -> (w: usize) {
        32
    }

    fn zero() -> (z: Self) {
        0
    }

    fn low_bit(self) -> (b: bool) {
        proof {
            let x = self;
            assert((x & 1 == 1) == (x % 2 == 1)) by (bit_vector);
            lemma_exp2_step(0);
            assert((x as int) / 1 == x);
        }
        self & 1 == 1
    }

    fn shift_right(self, n: usize) -> (r: Self) {
        proof {
            lemma_u32_shr_is_div(self, n as u32);
        }
        self >> (n as u32)
    }

    fn with_top_bit(self, bit: bool) -> (r: Self) {
        let top: u32 = 1u32 << 31u32;
        let r = if bit {
            self | top
        } else {
            self & !top
        };
        proof {
            let x = self;
            lemma2_to64();
            assert(r == (if bit {
                x | (1u32 << 31u32)
            } else {
                x & !(1u32 << 31u32)
            }) ==> r == x % 0x8000_0000 + (if bit {
                0x8000_0000int
            } else {
                0int
            })) by (bit_vector);
        }
        r
    }
}

impl Word for u64 {
    open spec fn bit_width() -> nat {
        64
    }

    open spec fn signed() -> bool {
        false
    }

    open spec fn value(self) -> int {
        self as int
    }

    proof fn lemma_width() {
    }

    proof fn lemma_value_in_range(self) {
        lemma2_to64();
    }

    proof fn lemma_value_injective(self, other: Self) {
    }

    fn width() -> (w: usize) {
        64
    }

    fn zero() -> (z: Self) {
        0
    }

    fn low_bit(self) -> (b: bool) {
        proof {
            let x = self;
            assert((x & 1 == 1) == (x % 2 == 1)) by (bit_vector);
            lemma_exp2_step(0);
            assert((x as int) / 1 == x);
        }
        self & 1 == 1
    }

    fn shift_right(self, n: usize) -> (r: Self) {
        proof {
            lemma_u64_shr_is_div(self, n as u64);
        }
        self >> (n as u64)
    }

    fn with_top_bit(self, bit: bool) -> (r: Self) {
        let top: u64 = 1u64 << 63u32;
        let r = if bit {
            self | top
        } else {
            self & !top
        };
        proof {
            let x = self;
            lemma2_to64();
            lemma2_to64_rest();
            assert(r == (if bit {
                x | (1u64 << 63u32)
            } else {
                x & !(1u64 << 63u32)
            }) ==> r == x % 0x8000_0000_0000_0000 + (if bit {
                0x8000_0000_0000_0000int
            } else {
                0int
            })) by (bit_vector);
        }
        r
    }
}

} // verus!
