//! The signed integer types as words: their right shift keeps the sign.

use crate::arith::{exp2, lemma_div_div, lemma_exp2_step};
use crate::word::Word;
use vstd::arithmetic::power2::{lemma2_to64, lemma2_to64_rest};
use vstd::prelude::*;

verus! {

/// The right shift of `i8` is a floor division by a power of two.
proof fn lemma_i8_shr(x: i8, n: u32)
    requires
        n < 8,
    ensures
        (x >> n) as int == (x as int) / exp2(n as int),
    decreases n,
{
    if n == 0 {
        assert(x >> 0u32 == x) by (bit_vector);
        lemma_exp2_step(0);
        assert((x as int) / 1 == x);
    } else {
        let m = (n - 1) as u32;
        let y = x >> m;
        lemma_i8_shr(x, m);
        assert(0 < n < 8 ==> x >> n == (x >> ((n - 1) as u32)) >> 1u32) by (bit_vector);
        assert(y >> 1u32 == y / 2) by (bit_vector);
        lemma_exp2_step(m as int);
        lemma_div_div(x as int, exp2(m as int), 2);
        assert(exp2(m as int) * 2 == exp2(n as int));
    }
}

impl Word for i8 {
    open spec fn bit_width() -> nat {
        8
    }

    open spec fn signed() -> bool {
        true
    }

    open spec fn value(self) -> int {
        self as int
    }

    proof fn lemma_width() {
    }

    proof fn lemma_value_in_range(self) {
        lemma2_to64();
    }

    proof fn lemma_value_injective(self, other: Self) {
    }

    fn width() -> (w: usize) {
        8
    }

    fn zero() -> (z: Self) {
        0
    }

    fn low_bit(self) -> (b: bool) {
        proof {
            let x = self;
            assert((x & 1 == 1) == (x % 2 == 1)) by (bit_vector);
            lemma_exp2_step(0);
            assert((x as int) / 1 == x);
        }
        self & 1 == 1
    }

    fn shift_right(self, n: usize) -> (r: Self) {
        proof {
            lemma_i8_shr(self, n as u32);
        }
        self >> (n as u32)
    }

    fn with_top_bit(self, bit: bool) -> (r: Self) {
        let top: i8 = 1i8 << 7u32;
        let r = if bit {
            self | top
        } else {
            self & !top
        };
        proof {
            let x = self;
            lemma2_to64();
            assert(r == (if bit {
                x | (1i8 << 7u32)
            } else {
                x & !(1i8 << 7u32)
            }) ==> r == (x as int) % 0x80int + (if bit {
                -0x80int
            } else {
                0int
            })) by (bit_vector);
        }
        r
    }
}

/// The right shift of `i16` is a floor division by a power of two.
proof fn lemma_i16_shr(x: i16, n: u32)
    requires
        n < 16,
    ensures
        (x >> n) as int == (x as int) / exp2(n as int),
    decreases n,
{
    if n == 0 {
        assert(x >> 0u32 == x) by (bit_vector);
        lemma_exp2_step(0);
        assert((x as int) / 1 == x);
    } else {
        let m = (n - 1) as u32;
        let y = x >> m;
        lemma_i16_shr(x, m);
        assert(0 < n < 16 ==> x >> n == (x >> ((n - 1) as u32)) >> 1u32) by (bit_vector);
        assert(y >> 1u32 == y / 2) by (bit_vector);
        lemma_exp2_step(m as int);
        lemma_div_div(x as int, exp2(m as int), 2);
        assert(exp2(m as int) * 2 == exp2(n as int));
    }
}

impl Word for i16 {
    open spec fn bit_width() -> nat {
        16
    }

    open spec fn signed() -> bool {
        true
    }

    open spec fn value(self) -> int {
        self as int
    }

    proof fn lemma_width() {
    }

    proof fn lemma_value_in_range(self) {
        lemma2_to64();
    }

    proof fn lemma_value_injective(self, other: Self) {
    }

    fn width() -> (w: usize) {
        16
    }

    fn zero() -> (z: Self) {
        0
    }

    fn low_bit(self) -> (b: bool) {
        proof {
            let x = self;
            assert((x & 1 == 1) == (x % 2 == 1)) by (bit_vector);
            lemma_exp2_step(0);
            assert((x as int) / 1 == x);
        }
        self & 1 == 1
    }

    fn shift_right(self, n: usize) -> (r: Self) {
        proof {
            lemma_i16_shr(self, n as u32);
        }
        self >> (n as u32)
    }

    fn with_top_bit(self, bit: bool) -> (r: Self) {
        let top: i16 = 1i16 << 15u32;
        let r = if bit {
            self | top
        } else {
            self & !top
        };
        proof {
            let x = self;
            lemma2_to64();
            assert(r == (if bit {
                x | (1i16 << 15u32)
            } else {
                x & !(1i16 << 15u32)
            }) ==> r == (x as int) % 0x8000int + (if bit {
                -0x8000int
            } else {
                0int
            })) by (bit_vector);
        }
        r
    }
}

/// The right shift of `i32` is a floor division by a power of two.
proof fn lemma_i32_shr(x: i32, n: u32)
    requires
        n < 32,
    ensures
        (x >> n) as int == (x as int) / exp2(n as int),
    decreases n,
{
    if n == 0 {
        assert(x >> 0u32 == x) by (bit_vector);
        lemma_exp2_step(0);
        assert((x as int) / 1 == x);
    } else {
        let m = (n - 1) as u32;
        let y = x >> m;
        lemma_i32_shr(x, m);
        assert(0 < n < 32 ==> x >> n == (x >> ((n - 1) as u32)) >> 1u32) by (bit_vector);
        assert(y >> 1u32 == y / 2) by (bit_vector);
        lemma_exp2_step(m as int);
        lemma_div_div(x as int, exp2(m as int), 2);
        assert(exp2(m as int) * 2 == exp2(n as int));
    }
}

impl Word for i32 {
    open spec fn bit_width() -> nat {
        32
    }

    open spec fn signed() -> bool {
        true
    }

    open spec fn value(self) -> int {
        self as int
    }

    proof fn lemma_width() {
    }

    proof fn lemma_value_in_range(self) {
        lemma2_to64();
    }

    proof fn lemma_value_injective(self, other: Self) {
    }

    fn width() -> (w: usize) {
        32
    }

    fn zero() -> (z: Self) {
        0
    }

    fn low_bit(self) -> (b: bool) {
        proof {
            let x = self;
            assert((x & 1 == 1) == (x % 2 == 1)) by (bit_vector);
            lemma_exp2_step(0);
            assert((x as int) / 1 == x);
        }
        self & 1 == 1
    }

    fn shift_right(self, n: usize) -> (r: Self) {
        proof {
            lemma_i32_shr(self, n as u32);
        }
        self >> (n as u32)
    }

    fn with_top_bit(self, bit: bool) -> (r: Self) {
        let top: i32 = 1i32 << 31u32;
        let r = if bit {
            self | top
        } else {
            self & !top
        };
        proof {
            let x = self;
            lemma2_to64();
            assert(r == (if bit {
                x | (1i32 << 31u32)
            } else {
                x & !(1i32 << 31u32)
            }) ==> r == (x as int) % 0x8000_0000int + (if bit {
                -0x8000_0000int
            } else {
                0int
            })) by (bit_vector);
        }
        r
    }
}

/// The right shift of `i64` is a floor division by a power of two.
proof fn lemma_i64_shr(x: i64, n: u32)
    requires
        n < 64,
    ensures
        (x >> n) as int == (x as int) / exp2(n as int),
    decreases n,
{
    if n == 0 {
        assert(x >> 0u32 == x) by (bit_vector);
        lemma_exp2_step(0);
        assert((x as int) / 1 == x);
    } else {
        let m = (n - 1) as u32;
        let y = x >> m;
        lemma_i64_shr(x, m);
        assert(0 < n < 64 ==> x >> n == (x >> ((n - 1) as u32)) >> 1u32) by (bit_vector);
        assert(y >> 1u32 == y / 2) by (bit_vector);
        lemma_exp2_step(m as int);
        lemma_div_div(x as int, exp2(m as int), 2);
        assert(exp2(m as int) * 2 == exp2(n as int));
    }
}

impl Word for i64 {
    open spec fn bit_width() -> nat {
        64
    }

    open spec fn signed() -> bool {
        true
    }

    open spec fn value(self) -> int {
        self as int
    }

    proof fn lemma_width() {
    }

    proof fn lemma_value_in_range(self) {
        lemma2_to64();
        lemma2_to64_rest();
    }

    proof fn lemma_value_injective(self, other: Self) {
    }

    fn width() -> (w: usize) {
        64
    }

    fn zero() -> (z: Self) {
        0
    }

    fn low_bit(self) -> (b: bool) {
        proof {
            let x = self;
            assert((x & 1 == 1) == (x % 2 == 1)) by (bit_vector);
            lemma_exp2_step(0);
            assert((x as int) / 1 == x);
        }
        self & 1 == 1
    }

    fn shift_right(self, n: usize) -> (r: Self) {
        proof {
            lemma_i64_shr(self, n as u32);
        }
        self >> (n as u32)
    }

    fn with_top_bit(self, bit: bool) -> (r: Self) {
        let top: i64 = 1i64 << 63u32;
        let r = if bit {
            self | top
        } else {
            self & !top
        };
        proof {
            let x = self;
            lemma2_to64();
            lemma2_to64_rest();
            assert(r == (if bit {
                x | (1i64 << 63u32)
            } else {
                x & !(1i64 << 63u32)
            }) ==> r == (x as int) % 0x8000_0000_0000_0000int + (if bit {
                -0x8000_0000_0000_0000int
            } else {
                0int
            })) by (bit_vector);
        }
        r
    }
}

} // verus!
