use bitshrink::{expand_it, shrink_it, CodecError};

#[test]
fn basic() {
    let array: Vec<i32> = vec![-10, 1, 2, 3, 4, 5, 6, 7, 8, 9];

    println!("{:?}", array);
    let shrunk = shrink_it(array.clone(), 7).unwrap();
    println!("{:?}", shrunk);
    let expand: Vec<i32> = expand_it(shrunk, 7).unwrap();
    println!("{:?}", expand);
    assert_eq!(array, expand);
}

#[test]
fn ten_elements_of_seven_bits_take_nine_bytes() {
    let array: Vec<i32> = vec![-10, 1, 2, 3, 4, 5, 6, 7, 8, 9];
    let shrunk = shrink_it(array, 7).unwrap();
    assert_eq!(shrunk.len(), 9);
    assert_eq!(shrunk, vec![111, 1, 6, 2, 20, 24, 112, 17, 32]);
}

#[test]
fn packed_length_is_the_bit_count_rounded_up_to_bytes() {
    for count in 0..40usize {
        for bits in 1..16usize {
            let input: Vec<u16> = vec![0x5a5a; count];
            let packed = shrink_it(input, bits).unwrap();
            assert_eq!(packed.len(), (count * bits + 7) / 8);
        }
    }
    for count in 0..20usize {
        for bits in 1..64usize {
            let input: Vec<i64> = vec![-1; count];
            let packed = shrink_it(input, bits).unwrap();
            assert_eq!(packed.len(), (count * bits + 7) / 8);
        }
    }
}

#[test]
fn empty_input_gives_empty_output() {
    for bits in 1..32usize {
        assert_eq!(shrink_it(Vec::<i32>::new(), bits), Ok(Vec::new()));
        assert_eq!(expand_it::<i32>(Vec::new(), bits), Ok(Vec::new()));
    }
    assert_eq!(expand_it::<i32>(Vec::new(), 32), Ok(Vec::new()));
    assert_eq!(shrink_it(Vec::<u8>::new(), 7), Ok(Vec::new()));
    assert_eq!(expand_it::<u64>(Vec::new(), 64), Ok(Vec::new()));
}

#[test]
fn seven_bit_values_round_trip() {
    let values: Vec<i32> = vec![
        -30, -48, 1, -34, 62, 51, 56, 33, -11, -40, 60, -57, 35, 46, -64, 50, 4, -6, -38, 17,
    ];
    let packed = shrink_it(values.clone(), 7).unwrap();
    assert_eq!(
        packed,
        vec![70, 22, 3, 215, 217, 135, 66, 174, 52, 247, 28, 78, 128, 166, 32, 189, 108, 64]
    );
    assert_eq!(expand_it::<i32>(packed, 7), Ok(values));
}

#[test]
fn whole_seven_bit_range_round_trips() {
    let values: Vec<i32> = (-64..=63).collect();
    assert_eq!(values.len() % 8, 0);
    let packed = shrink_it(values.clone(), 7).unwrap();
    assert_eq!(packed.len(), 112);
    assert_eq!(expand_it::<i32>(packed, 7), Ok(values));
}

#[test]
fn every_length_round_trips_unless_padding_makes_an_element() {
    for count in 0..50usize {
        let values: Vec<i32> = (0..count).map(|i| (i as i32 * 37) % 128 - 64).collect();
        let packed = shrink_it(values.clone(), 7).unwrap();
        let padding = packed.len() * 8 - count * 7;
        let back: Vec<i32> = expand_it(packed, 7).unwrap();
        if padding < 7 {
            assert_eq!(back, values);
        } else {
            assert_eq!(back.len(), count + 1);
            assert_eq!(&back[..count], &values[..]);
            assert_eq!(back[count], 0);
        }
    }
}

#[test]
fn seven_bits_of_padding_read_as_one_more_element() {
    let packed = shrink_it(vec![1i32; 7], 7).unwrap();
    assert_eq!(packed, vec![129, 2, 4, 8, 16, 32, 0]);
    assert_eq!(expand_it::<i32>(packed, 7), Ok(vec![1, 1, 1, 1, 1, 1, 1, 0]));
}

#[test]
fn one_bit_elements_fill_the_byte_with_padding_elements() {
    let packed = shrink_it(vec![1u8], 1).unwrap();
    assert_eq!(packed, vec![128]);
    assert_eq!(expand_it::<u8>(packed.clone(), 1), Ok(vec![1, 0, 0, 0, 0, 0, 0, 0]));
    assert_eq!(expand_it::<i8>(packed, 1), Ok(vec![-1, 0, 0, 0, 0, 0, 0, 0]));
}

#[test]
fn value_above_the_range_is_truncated() {
    let packed = shrink_it(vec![300i32], 7).unwrap();
    assert_eq!(packed, vec![52]);
    let back: Vec<i32> = expand_it(packed, 7).unwrap();
    assert_eq!(back, vec![44]);
    assert_ne!(back, vec![300]);
}

#[test]
fn truncated_value_with_the_top_bit_set_comes_back_negative() {
    let packed = shrink_it(vec![200i32], 7).unwrap();
    assert_eq!(packed, vec![18]);
    assert_eq!(expand_it::<i32>(packed.clone(), 7), Ok(vec![-56]));
    assert_eq!(expand_it::<u32>(packed, 7), Ok(vec![72]));
}

#[test]
fn shrink_refuses_the_native_width_and_above() {
    assert_eq!(shrink_it(vec![1i32, 2, 3], 32), Err(CodecError::InvalidWidth));
    assert_eq!(shrink_it(vec![1i32, 2, 3], 33), Err(CodecError::InvalidWidth));
    assert_eq!(shrink_it(vec![1i32, 2, 3], usize::MAX), Err(CodecError::InvalidWidth));
    assert_eq!(shrink_it(vec![1u8], 8), Err(CodecError::InvalidWidth));
    assert_eq!(shrink_it(vec![1i8], 8), Err(CodecError::InvalidWidth));
    assert_eq!(shrink_it(vec![1u16], 16), Err(CodecError::InvalidWidth));
    assert_eq!(shrink_it(vec![1i16], 16), Err(CodecError::InvalidWidth));
    assert_eq!(shrink_it(vec![1u32], 32), Err(CodecError::InvalidWidth));
    assert_eq!(shrink_it(vec![1u64], 64), Err(CodecError::InvalidWidth));
    assert_eq!(shrink_it(vec![1i64], 64), Err(CodecError::InvalidWidth));
    assert_eq!(shrink_it(Vec::<i32>::new(), 32), Err(CodecError::InvalidWidth));
    assert!(shrink_it(vec![1i32, 2, 3], 31).is_ok());
    assert!(shrink_it(vec![1u8], 7).is_ok());
    assert!(shrink_it(vec![1i64], 63).is_ok());
}

#[test]
fn shrink_refuses_a_width_of_zero() {
    assert_eq!(shrink_it(vec![1i32, 2, 3], 0), Err(CodecError::InvalidWidth));
    assert_eq!(shrink_it(Vec::<u8>::new(), 0), Err(CodecError::InvalidWidth));
}

#[test]
fn expand_refuses_a_width_of_zero() {
    assert_eq!(expand_it::<i32>(vec![1, 2, 3], 0), Err(CodecError::InvalidWidth));
    assert_eq!(expand_it::<u8>(Vec::new(), 0), Err(CodecError::InvalidWidth));
}

#[test]
fn expand_refuses_a_width_above_the_native_one() {
    assert_eq!(expand_it::<i32>(vec![1, 2, 3, 4, 5], 33), Err(CodecError::InvalidWidth));
    assert_eq!(expand_it::<u8>(vec![1, 2], 9), Err(CodecError::InvalidWidth));
    assert_eq!(expand_it::<i8>(vec![1, 2], 9), Err(CodecError::InvalidWidth));
    assert_eq!(expand_it::<u16>(vec![1, 2, 3], 17), Err(CodecError::InvalidWidth));
    assert_eq!(expand_it::<i16>(vec![1, 2, 3], 17), Err(CodecError::InvalidWidth));
    assert_eq!(expand_it::<u32>(vec![1, 2, 3], 33), Err(CodecError::InvalidWidth));
    assert_eq!(expand_it::<u64>(vec![1, 2, 3], 65), Err(CodecError::InvalidWidth));
    assert_eq!(expand_it::<i64>(vec![1, 2, 3], usize::MAX), Err(CodecError::InvalidWidth));
}

#[test]
fn expand_accepts_the_native_width() {
    let bytes = vec![0xff, 0xff, 0xff, 0xff, 0x12, 0x34, 0x56, 0x78];
    assert_eq!(expand_it::<i32>(bytes.clone(), 32), Ok(vec![-1, 510274632]));
    assert_eq!(expand_it::<u32>(bytes.clone(), 32), Ok(vec![4294967295, 510274632]));
    assert_eq!(expand_it::<u64>(bytes.clone(), 64), Ok(vec![2191612860713402367]));
    assert_eq!(expand_it::<i64>(bytes, 64), Ok(vec![2191612860713402367]));
    assert_eq!(expand_it::<i8>(vec![0x01, 0xff], 8), Ok(vec![-128, -1]));
}

#[test]
fn expand_reads_each_byte_from_its_top_bit() {
    assert_eq!(expand_it::<u8>(vec![0x80], 8), Ok(vec![1]));
    assert_eq!(expand_it::<u8>(vec![0xb4], 8), Ok(vec![45]));
    assert_eq!(expand_it::<u8>(vec![0x01], 8), Ok(vec![128]));
}

#[test]
fn expand_drops_bits_that_fill_no_element() {
    let bytes = vec![0b1011_0010, 0b0100_0000];
    assert_eq!(expand_it::<i32>(bytes.clone(), 3), Ok(vec![-3, 1, 1, 1, 0]));
    assert_eq!(expand_it::<u32>(bytes.clone(), 3), Ok(vec![5, 1, 1, 1, 0]));
    assert_eq!(expand_it::<u16>(bytes.clone(), 16), Ok(vec![0b0000_0010_0100_1101]));
    assert_eq!(expand_it::<u16>(bytes.clone(), 15), Ok(vec![0b000_0010_0100_1101]));
    assert_eq!(expand_it::<u32>(bytes, 17), Ok(Vec::new()));
}

#[test]
fn first_bit_of_a_byte_is_its_most_significant() {
    assert_eq!(shrink_it(vec![5u8, 3], 3), Ok(vec![0b1011_1000]));
    assert_eq!(shrink_it(vec![1u8], 7), Ok(vec![0b1000_0000]));
    assert_eq!(shrink_it(vec![0x40u8], 7), Ok(vec![0b0000_0010]));
}

#[test]
fn three_bit_elements_read_signed_or_unsigned() {
    let packed = shrink_it(vec![5u8, 3], 3).unwrap();
    assert_eq!(expand_it::<u8>(packed.clone(), 3), Ok(vec![5, 3]));
    assert_eq!(expand_it::<i8>(packed, 3), Ok(vec![-3, 3]));
}

#[test]
fn negative_elements_keep_their_low_bits() {
    let packed = shrink_it(vec![-1i8, -2, -3], 4).unwrap();
    assert_eq!(packed, vec![247, 176]);
    assert_eq!(expand_it::<i8>(packed.clone(), 4), Ok(vec![-1, -2, -3, 0]));
    assert_eq!(expand_it::<u8>(packed, 4), Ok(vec![15, 14, 13, 0]));
}

#[test]
fn sixteen_bit_words_at_thirteen_bits() {
    let packed = shrink_it(vec![0xABCDu16, 0x1234], 13).unwrap();
    assert_eq!(packed, vec![179, 209, 98, 64]);
    assert_eq!(expand_it::<u16>(packed.clone(), 13), Ok(vec![3021, 4660]));
    assert_eq!(expand_it::<u64>(packed, 13), Ok(vec![3021, 4660]));
}

#[test]
fn sixty_four_bit_words_at_sixty_three_bits() {
    let values: Vec<i64> = vec![i64::MAX, i64::MIN, -1, 12345678901234];
    let packed = shrink_it(values, 63).unwrap();
    assert_eq!(
        packed,
        vec![
            255, 255, 255, 255, 255, 255, 255, 254, 0, 0, 0, 0, 0, 0, 0, 3, 255, 255, 255, 255,
            255, 255, 255, 250, 127, 163, 158, 114, 230, 128, 0, 0
        ]
    );
    assert_eq!(expand_it::<i64>(packed, 63), Ok(vec![-1, 0, -1, 12345678901234]));
}

#[test]
fn output_type_may_differ_from_input_type() {
    let packed = shrink_it(vec![-3i64, 2, -1, 0], 5).unwrap();
    assert_eq!(expand_it::<i8>(packed.clone(), 5), Ok(vec![-3, 2, -1, 0]));
    assert_eq!(expand_it::<i16>(packed.clone(), 5), Ok(vec![-3, 2, -1, 0]));
    assert_eq!(expand_it::<u16>(packed, 5), Ok(vec![29, 2, 31, 0]));
}

#[test]
fn repacking_reproduces_the_bits_that_were_read() {
    let buffers: Vec<Vec<u8>> = vec![
        vec![0xde, 0xad, 0xbe, 0xef, 0x01],
        vec![0xff],
        vec![0x00, 0x01],
        vec![0x12, 0x34, 0x56, 0x78, 0x9a, 0xbc, 0xde, 0xf0, 0x55],
    ];
    for buffer in buffers {
        for bits in 1..32usize {
            let values: Vec<i32> = expand_it(buffer.clone(), bits).unwrap();
            let relevant = buffer.len() * 8 - (buffer.len() * 8) % bits;
            assert_eq!(values.len() * bits, relevant);
            let again = shrink_it(values, bits).unwrap();
            assert_eq!(again.len(), (relevant + 7) / 8);
            for k in 0..relevant {
                let before = (buffer[k / 8] >> (7 - k % 8)) & 1;
                let after = (again[k / 8] >> (7 - k % 8)) & 1;
                assert_eq!(before, after);
            }
            for k in relevant..again.len() * 8 {
                assert_eq!((again[k / 8] >> (7 - k % 8)) & 1, 0);
            }
        }
    }
}

#[test]
fn error_can_be_told_apart_and_copied() {
    let error = shrink_it(vec![1u8], 8).unwrap_err();
    let copy = error;
    assert_eq!(error, copy);
    assert_eq!(format!("{:?}", error), "InvalidWidth");
}
