use bitshrink::{NumberBitIter, Word};

#[test]
fn bits_come_least_significant_first() {
    let mut bits = NumberBitIter::new(0b0000_0101u8);
    assert_eq!(bits.next(), Some(true));
    assert_eq!(bits.next(), Some(false));
    assert_eq!(bits.next(), Some(true));
    assert_eq!(bits.next(), Some(false));
}

#[test]
fn unsigned_walk_goes_on_with_clear_bits() {
    let mut bits = NumberBitIter::new(0xffu8);
    for _ in 0..8 {
        assert_eq!(bits.next(), Some(true));
    }
    for _ in 0..100 {
        assert_eq!(bits.next(), Some(false));
    }
}

#[test]
fn negative_walk_goes_on_with_set_bits() {
    let mut bits = NumberBitIter::new(-2i16);
    assert_eq!(bits.next(), Some(false));
    for _ in 0..100 {
        assert_eq!(bits.next(), Some(true));
    }
}

#[test]
fn take_gives_a_bounded_run() {
    assert_eq!(NumberBitIter::new(0b1010u8).take(4), vec![false, true, false, true]);
    assert_eq!(
        NumberBitIter::new(-10i32).take(7),
        vec![false, true, true, false, true, true, true]
    );
    assert_eq!(
        NumberBitIter::new(300i32).take(7),
        vec![false, false, true, true, false, true, false]
    );
    assert_eq!(NumberBitIter::new(1u64).take(0), Vec::<bool>::new());
    assert_eq!(NumberBitIter::new(-1i8).take(12), vec![true; 12]);
    assert_eq!(
        NumberBitIter::new(0x81u8).take(10),
        vec![true, false, false, false, false, false, false, true, false, false]
    );
}

#[test]
fn take_after_next_goes_on_where_next_left_off() {
    let mut bits = NumberBitIter::new(0b0110u8);
    assert_eq!(bits.next(), Some(false));
    assert_eq!(bits.take(3), vec![true, true, false]);
}

#[test]
fn widths_are_the_native_ones() {
    assert_eq!(<u8 as Word>::width(), 8);
    assert_eq!(<i8 as Word>::width(), 8);
    assert_eq!(<u16 as Word>::width(), 16);
    assert_eq!(<i16 as Word>::width(), 16);
    assert_eq!(<u32 as Word>::width(), 32);
    assert_eq!(<i32 as Word>::width(), 32);
    assert_eq!(<u64 as Word>::width(), 64);
    assert_eq!(<i64 as Word>::width(), 64);
}

#[test]
fn zero_is_zero() {
    assert_eq!(<u8 as Word>::zero(), 0);
    assert_eq!(<i8 as Word>::zero(), 0);
    assert_eq!(<u16 as Word>::zero(), 0);
    assert_eq!(<i16 as Word>::zero(), 0);
    assert_eq!(<u32 as Word>::zero(), 0);
    assert_eq!(<i32 as Word>::zero(), 0);
    assert_eq!(<u64 as Word>::zero(), 0);
    assert_eq!(<i64 as Word>::zero(), 0);
}

#[test]
fn low_bit_tells_odd_from_even() {
    assert!(Word::low_bit(1u8));
    assert!(!Word::low_bit(2u8));
    assert!(Word::low_bit(-1i8));
    assert!(!Word::low_bit(-2i8));
    assert!(Word::low_bit(0xffffu16));
    assert!(Word::low_bit(-3i16));
    assert!(!Word::low_bit(0xfffffffeu32));
    assert!(Word::low_bit(i32::MAX));
    assert!(!Word::low_bit(i32::MIN));
    assert!(Word::low_bit(u64::MAX));
    assert!(!Word::low_bit(i64::MIN));
    assert!(Word::low_bit(-5i64));
}

#[test]
fn unsigned_shift_fills_with_zeros() {
    assert_eq!(Word::shift_right(0x80u8, 7), 1);
    assert_eq!(Word::shift_right(0xffu8, 0), 0xff);
    assert_eq!(Word::shift_right(0x8000u16, 15), 1);
    assert_eq!(Word::shift_right(0xdeadbeefu32, 16), 0xdead);
    assert_eq!(Word::shift_right(u64::MAX, 63), 1);
    assert_eq!(Word::shift_right(13u8, 1), 6);
}

#[test]
fn signed_shift_keeps_the_sign() {
    assert_eq!(Word::shift_right(-128i8, 7), -1);
    assert_eq!(Word::shift_right(-1i8, 3), -1);
    assert_eq!(Word::shift_right(-7i8, 1), -4);
    assert_eq!(Word::shift_right(-7i16, 2), -2);
    assert_eq!(Word::shift_right(i16::MIN, 15), -1);
    assert_eq!(Word::shift_right(i32::MIN, 31), -1);
    assert_eq!(Word::shift_right(-1000i32, 3), -125);
    assert_eq!(Word::shift_right(1000i32, 3), 125);
    assert_eq!(Word::shift_right(i64::MIN, 63), -1);
    assert_eq!(Word::shift_right(i64::MAX, 62), 1);
    assert_eq!(Word::shift_right(-9i64, 0), -9);
}

#[test]
fn top_bit_is_set_and_cleared() {
    assert_eq!(Word::with_top_bit(0x01u8, true), 0x81);
    assert_eq!(Word::with_top_bit(0x81u8, false), 0x01);
    assert_eq!(Word::with_top_bit(0x81u8, true), 0x81);
    assert_eq!(Word::with_top_bit(1i8, true), -127);
    assert_eq!(Word::with_top_bit(-1i8, false), 127);
    assert_eq!(Word::with_top_bit(0u16, true), 0x8000);
    assert_eq!(Word::with_top_bit(0i16, true), i16::MIN);
    assert_eq!(Word::with_top_bit(-2i16, false), 32766);
    assert_eq!(Word::with_top_bit(5u32, true), 0x8000_0005);
    assert_eq!(Word::with_top_bit(5i32, true), i32::MIN + 5);
    assert_eq!(Word::with_top_bit(-1i32, false), i32::MAX);
    assert_eq!(Word::with_top_bit(u64::MAX, false), u64::MAX >> 1);
    assert_eq!(Word::with_top_bit(0u64, true), 1u64 << 63);
    assert_eq!(Word::with_top_bit(0i64, true), i64::MIN);
    assert_eq!(Word::with_top_bit(-1i64, false), i64::MAX);
}
