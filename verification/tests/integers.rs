use dotbits::{BitManip, BitVec, Error};

#[test]
fn bit_ones() {
    assert_eq!(0b00111000u8.bit_ones(), vec![3, 4, 5]);
    assert_eq!(0b10000000u8.bit_ones(), vec![7]);
    assert_eq!(0b01000010u8.bit_ones(), vec![1, 6]);
}

#[test]
fn bit_zeroes() {
    assert_eq!(0b11001100u8.bit_zeros(), vec![0, 1, 4, 5]);
    assert_eq!(0b01001111u8.bit_zeros(), vec![4, 5, 7]);
    assert_eq!(0b00001111u8.bit_zeros(), vec![4, 5, 6, 7]);
}

#[test]
fn bit_get_bit_range() {
    assert_eq!(0b00110011u8.get_bit_range(2, 5), 0b100u8);
    assert_eq!(0b01010101u8.get_bit_range(0, 3), 0b101u8);
}

#[test]
#[should_panic]
fn bit_get_bit_range_start_ge_end() {
    0u8.get_bit_range(7, 6);
}

#[test]
#[should_panic]
fn bit_get_bit_range_end_too_big() {
    0u8.get_bit_range(6, 9);
}

#[test]
fn bit_set_bit_range() {
    assert_eq!(0u8.set_bit_range(2, 5, 0b101), 0b10100u8);
    assert_eq!(0u8.set_bit_range(3, 5, 0b1111), 0b11000u8);
    assert_eq!(0b10101010u8.set_bit_range(2, 5, 0b101), 0b10110110u8);
}

#[test]
fn bit_vec() {
    assert_eq!(
        0b01010101u8.bits(),
        vec![true, false, true, false, true, false, true, false]
    );
    assert_eq!(
        0b00011001u8.bits(),
        vec![true, false, false, true, true, false, false, false]
    );
    assert_eq!(0u32.bits().len(), 32);
}

#[test]
fn bit_len_is_the_width_of_the_type() {
    assert_eq!(<u8 as BitManip>::bit_len(), 8);
    assert_eq!(<u16 as BitManip>::bit_len(), 16);
    assert_eq!(<u32 as BitManip>::bit_len(), 32);
    assert_eq!(<u64 as BitManip>::bit_len(), 64);
    assert_eq!(<u128 as BitManip>::bit_len(), 128);
    assert_eq!(<usize as BitManip>::bit_len(), usize::BITS);
}

#[test]
fn bit_get_reads_little_endian() {
    assert_eq!(0b00001111u8.bit_get(0), Ok(true));
    assert_eq!(0b00001111u8.bit_get(3), Ok(true));
    assert_eq!(0b00001111u8.bit_get(4), Ok(false));
    assert_eq!(0b10000000u8.bit_get(7), Ok(true));
    assert_eq!((1u128 << 127).bit_get(127), Ok(true));
    assert_eq!((1u128 << 127).bit_get(126), Ok(false));
    assert_eq!(usize::MAX.bit_get(usize::BITS - 1), Ok(true));
}

#[test]
fn bit_get_rejects_positions_from_the_width_on() {
    assert_eq!(0u8.bit_get(8), Err(Error::PosOutOfBounds));
    assert_eq!(0u16.bit_get(16), Err(Error::PosOutOfBounds));
    assert_eq!(0u32.bit_get(32), Err(Error::PosOutOfBounds));
    assert_eq!(0u64.bit_get(64), Err(Error::PosOutOfBounds));
    assert_eq!(0u128.bit_get(128), Err(Error::PosOutOfBounds));
    assert_eq!(0usize.bit_get(usize::BITS), Err(Error::PosOutOfBounds));
    assert_eq!(0u8.bit_get(u32::MAX), Err(Error::PosOutOfBounds));
}

#[test]
fn bit_set_forces_one_bit() {
    let mut x = 0b00001111u8;
    x.bit_set(7, true).unwrap();
    assert_eq!(x, 0b10001111);
    x.bit_set(0, false).unwrap();
    assert_eq!(x, 0b10001110);
    x.bit_set(1, true).unwrap();
    assert_eq!(x, 0b10001110);
    x.bit_set(4, false).unwrap();
    assert_eq!(x, 0b10001110);
}

#[test]
fn bit_set_then_get_gives_the_flag_and_keeps_the_rest() {
    let before = 0b1011_0100_1110_0001u16;
    for pos in 0..16 {
        for flag in [false, true] {
            let mut after = before;
            after.bit_set(pos, flag).unwrap();
            for other in 0..16 {
                let expected = if other == pos {
                    flag
                } else {
                    before.bit_get(other).unwrap()
                };
                assert_eq!(after.bit_get(other), Ok(expected));
            }
        }
    }
}

#[test]
fn bit_set_chains() {
    let mut x = 0u32;
    x.bit_set(0, true)
        .unwrap()
        .bit_on(31)
        .unwrap()
        .bit_tog(4)
        .unwrap()
        .bit_off(0)
        .unwrap();
    assert_eq!(x, 0x8000_0010);
}

#[test]
fn bit_set_out_of_bounds_changes_nothing() {
    let mut x = 0b1010u8;
    assert_eq!(x.bit_set(8, true).err(), Some(Error::PosOutOfBounds));
    assert_eq!(x, 0b1010);
    assert_eq!(x.bit_on(9).err(), Some(Error::PosOutOfBounds));
    assert_eq!(x.bit_off(200).err(), Some(Error::PosOutOfBounds));
    assert_eq!(x.bit_tog(8).err(), Some(Error::PosOutOfBounds));
    assert_eq!(x, 0b1010);
}

#[test]
fn bit_on_and_bit_off() {
    let mut x = 0u64;
    x.bit_on(63).unwrap();
    assert_eq!(x, 1 << 63);
    x.bit_on(0).unwrap();
    assert_eq!(x, (1 << 63) | 1);
    x.bit_off(63).unwrap();
    assert_eq!(x, 1);
    x.bit_off(63).unwrap();
    assert_eq!(x, 1);
}

#[test]
fn bit_tog_flips_one_bit() {
    let mut x = 0b1000_1110u8;
    x.bit_tog(1).unwrap();
    assert_eq!(x, 0b1000_1100);
    x.bit_tog(1).unwrap();
    assert_eq!(x, 0b1000_1110);
    let mut wide = u128::MAX;
    wide.bit_tog(127).unwrap();
    assert_eq!(wide, u128::MAX >> 1);
}

#[test]
fn bits_have_the_length_of_the_type() {
    assert_eq!(0u8.bits().len(), 8);
    assert_eq!(0u16.bits().len(), 16);
    assert_eq!(0u64.bits().len(), 64);
    assert_eq!(u128::MAX.bits().len(), 128);
    assert_eq!(0usize.bits().len(), usize::BITS as usize);
    assert_eq!(u128::MAX.bits(), vec![true; 128]);
}

#[test]
fn bit_ones_of_the_example_value() {
    assert_eq!(0b10110100u8.bit_ones(), vec![2, 4, 5, 7]);
    assert_eq!(0b10110100u8.bits().ones(), vec![2, 4, 5, 7]);
}

#[test]
fn bit_ones_equal_ones_of_bits() {
    for v in 0..=u8::MAX {
        let direct: Vec<usize> = v.bit_ones().iter().map(|p| *p as usize).collect();
        assert_eq!(v.bits().ones(), direct);
        let direct: Vec<usize> = v.bit_zeros().iter().map(|p| *p as usize).collect();
        assert_eq!(v.bits().zeroes(), direct);
    }
    let v = 0x8000_0000_0000_0000_0000_0000_0000_0001u128;
    assert_eq!(v.bit_ones(), vec![0, 127]);
    assert_eq!(v.bits().ones(), vec![0, 127]);
}

#[test]
fn bit_ones_and_zeros_at_the_extremes() {
    assert_eq!(0u8.bit_ones(), Vec::<u32>::new());
    assert_eq!(0u8.bit_zeros(), vec![0, 1, 2, 3, 4, 5, 6, 7]);
    assert_eq!(u8::MAX.bit_ones(), vec![0, 1, 2, 3, 4, 5, 6, 7]);
    assert_eq!(u8::MAX.bit_zeros(), Vec::<u32>::new());
}

#[test]
fn bit_first_one_and_first_zero() {
    assert_eq!(0b10110100u8.bit_first_one(), Some(2));
    assert_eq!(128u8.bit_first_one(), Some(7));
    assert_eq!(0u8.bit_first_one(), None);
    assert_eq!(0u128.bit_first_one(), None);
    assert_eq!(0b10110111u8.bit_first_zero(), Some(3));
    assert_eq!(0u8.bit_first_zero(), Some(0));
    assert_eq!(u8::MAX.bit_first_zero(), None);
    assert_eq!(u64::MAX.bit_first_zero(), None);
    assert_eq!((u64::MAX >> 1).bit_first_zero(), Some(63));
}

#[test]
fn get_bit_range_over_the_whole_width() {
    assert_eq!(0b10110100u8.get_bit_range(0, 8), 0b10110100);
    assert_eq!(u128::MAX.get_bit_range(0, 128), u128::MAX);
    assert_eq!(u128::MAX.get_bit_range(127, 128), 1);
    assert_eq!(0xdead_beefu32.get_bit_range(16, 32), 0xdead);
    assert_eq!(0b10110100u8.get_bit_range(7, 8), 1);
}

#[test]
fn set_bit_range_over_the_whole_width() {
    assert_eq!(0b10110100u8.set_bit_range(0, 8, 0b01001011), 0b01001011);
    assert_eq!(0u128.set_bit_range(0, 128, u128::MAX), u128::MAX);
    assert_eq!(u64::MAX.set_bit_range(60, 64, 0), u64::MAX >> 4);
}

#[test]
fn set_bit_range_drops_excess_bits() {
    assert_eq!(0u8.set_bit_range(3, 5, 0b1111), 0b11000);
    assert_eq!(0u8.set_bit_range(6, 8, 0b111), 0b11000000);
    assert_eq!(u8::MAX.set_bit_range(2, 4, 0b100), 0b11110011);
}

#[test]
fn set_bit_range_with_what_was_there_changes_nothing() {
    for v in [0u16, 1, 0xffff, 0xa5c3, 0x8001, 0x1234] {
        for start in 0..16 {
            for end in (start + 1)..=16 {
                assert_eq!(v.set_bit_range(start, end, v.get_bit_range(start, end)), v);
            }
        }
    }
}

#[test]
fn signed_shifts() {
    assert_eq!(24u32.signed_left_shift(2), 24u32 << 2);
    assert_eq!(24u32.signed_left_shift(-2), 24u32 >> 2);
    assert_eq!(24u32.signed_right_shift(2), 24u32 >> 2);
    assert_eq!(24u32.signed_right_shift(-2), 24u32 << 2);
    assert_eq!(24u32.signed_left_shift(0), 24);
    assert_eq!(24u32.signed_right_shift(0), 24);
}

#[test]
fn signed_shifts_lose_the_bits_that_leave() {
    assert_eq!(0b1100_0001u8.signed_left_shift(1), 0b1000_0010);
    assert_eq!(0b1100_0001u8.signed_left_shift(7), 0b1000_0000);
    assert_eq!(0b1100_0001u8.signed_right_shift(1), 0b0110_0000);
    assert_eq!(u128::MAX.signed_left_shift(127), 1 << 127);
    assert_eq!(u128::MAX.signed_right_shift(127), 1);
}

#[test]
fn signed_shifts_by_the_width_or_more_give_zero() {
    assert_eq!(u8::MAX.signed_left_shift(8), 0);
    assert_eq!(u8::MAX.signed_left_shift(9), 0);
    assert_eq!(u8::MAX.signed_right_shift(8), 0);
    assert_eq!(u8::MAX.signed_left_shift(-8), 0);
    assert_eq!(u8::MAX.signed_right_shift(-8), 0);
    assert_eq!(u128::MAX.signed_left_shift(128), 0);
    assert_eq!(u128::MAX.signed_right_shift(128), 0);
    assert_eq!(u64::MAX.signed_left_shift(i32::MAX), 0);
    assert_eq!(u64::MAX.signed_right_shift(i32::MAX), 0);
    assert_eq!(u64::MAX.signed_left_shift(i32::MIN), 0);
    assert_eq!(u64::MAX.signed_right_shift(i32::MIN), 0);
}

#[test]
fn signed_left_shift_by_minus_k_is_right_shift_by_k() {
    for v in [0u16, 1, 0xffff, 0xa5c3, 0x8001] {
        for k in 0..20 {
            assert_eq!(v.signed_left_shift(-k), v.signed_right_shift(k));
            assert_eq!(v.signed_right_shift(-k), v.signed_left_shift(k));
        }
    }
}

#[test]
fn bit_rev_of_the_example_value() {
    let mut x = 0b00001111u8;
    x.bit_rev();
    assert_eq!(x, 0b11110000);
}

#[test]
fn bit_rev_works_on_the_whole_width() {
    let mut x = 1u16;
    x.bit_rev();
    assert_eq!(x, 0x8000);
    let mut x = 0b1101u32;
    x.bit_rev();
    assert_eq!(x, 0xb000_0000);
    let mut x = 1u128;
    x.bit_rev();
    assert_eq!(x, 1 << 127);
    let mut x = 6usize;
    x.bit_rev();
    assert_eq!(x, 6usize.reverse_bits());
}

#[test]
fn bit_rev_twice_gives_the_value_back() {
    for v in 0..=u8::MAX {
        let mut x = v;
        x.bit_rev();
        assert_eq!(x, v.reverse_bits());
        x.bit_rev();
        assert_eq!(x, v);
    }
    let mut x = 0x0123_4567_89ab_cdefu64;
    x.bit_rev().bit_rev();
    assert_eq!(x, 0x0123_4567_89ab_cdef);
}

#[test]
fn words_go_to_u128_and_back() {
    assert_eq!(200u8.to_word(), 200);
    assert_eq!(u64::MAX.to_word(), u64::MAX as u128);
    assert_eq!(<u8 as BitManip>::from_word(200), 200u8);
    assert_eq!(<u16 as BitManip>::from_word(0xffff), 0xffffu16);
    assert_eq!(<u128 as BitManip>::from_word(u128::MAX), u128::MAX);
    assert_eq!(<usize as BitManip>::from_word(7), 7usize);
}
