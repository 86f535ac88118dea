use dotbits::{BitManip, BitVec};

fn samples_u64() -> Vec<u64> {
    let mut values = vec![0, 1, 2, 3, u64::MAX, u64::MAX - 1, 1 << 63, (1 << 63) - 1];
    let mut x = 0x9e37_79b9_7f4a_7c15u64;
    for _ in 0..200 {
        x ^= x << 13;
        x ^= x >> 7;
        x ^= x << 17;
        values.push(x);
    }
    values
}

#[test]
fn every_u8_agrees_with_the_native_operators() {
    for v in 0..=u8::MAX {
        for pos in 0..8u32 {
            assert_eq!(v.bit_get(pos), Ok(v & (1 << pos) != 0));
            let mut on = v;
            on.bit_on(pos).unwrap();
            assert_eq!(on, v | (1 << pos));
            let mut off = v;
            off.bit_off(pos).unwrap();
            assert_eq!(off, v & !(1 << pos));
            let mut flipped = v;
            flipped.bit_tog(pos).unwrap();
            assert_eq!(flipped, v ^ (1 << pos));
        }
        assert_eq!(v.bit_ones().len() as u32, v.count_ones());
        assert_eq!(v.bit_zeros().len() as u32, v.count_zeros());
        let first_one = if v == 0 { None } else { Some(v.trailing_zeros()) };
        assert_eq!(v.bit_first_one(), first_one);
        let first_zero = if v == u8::MAX { None } else { Some(v.trailing_ones()) };
        assert_eq!(v.bit_first_zero(), first_zero);
        let mut turned = v;
        turned.bit_rev();
        assert_eq!(turned, v.reverse_bits());
        for amount in 0..8 {
            assert_eq!(v.signed_left_shift(amount), v << amount);
            assert_eq!(v.signed_right_shift(amount), v >> amount);
            assert_eq!(v.signed_left_shift(-amount), v >> amount);
            assert_eq!(v.signed_right_shift(-amount), v << amount);
        }
    }
}

#[test]
fn every_range_of_a_u8_agrees_with_shifting_and_masking() {
    for v in [0u8, 0xff, 0xa5, 0x3c, 0x81, 0x7e] {
        for start in 0..8u32 {
            for end in (start + 1)..=8 {
                let len = end - start;
                let mask = (0xffu16 >> (8 - len)) as u8;
                assert_eq!(v.get_bit_range(start, end), (v >> start) & mask);
                for insert in [0u8, 0xff, 0x5a, 0x01, 0x80] {
                    let expected = (v & !(mask << start)) | ((insert & mask) << start);
                    let made = v.set_bit_range(start, end, insert);
                    assert_eq!(made, expected);
                    assert_eq!(made.get_bit_range(start, end), insert & mask);
                }
            }
        }
    }
}

#[test]
fn sampled_u64_agree_with_the_native_operators() {
    for v in samples_u64() {
        let mut turned = v;
        turned.bit_rev();
        assert_eq!(turned, v.reverse_bits());
        assert_eq!(v.bit_ones().len() as u32, v.count_ones());
        assert_eq!(v.bits().into_u64(), v);
        assert_eq!(v.bits().ones().len() as u32, v.count_ones());
        for amount in [0, 1, 7, 31, 32, 63] {
            assert_eq!(v.signed_left_shift(amount), v << amount);
            assert_eq!(v.signed_right_shift(amount), v >> amount);
        }
        for amount in [64, 65, 1000] {
            assert_eq!(v.signed_left_shift(amount), 0);
            assert_eq!(v.signed_right_shift(amount), 0);
        }
        assert_eq!(v.get_bit_range(8, 24), (v >> 8) & 0xffff);
        assert_eq!(
            v.set_bit_range(8, 24, 0x1_2345),
            (v & !0x00ff_ff00) | 0x0023_4500
        );
    }
}

#[test]
fn sampled_u128_agree_with_the_native_operators() {
    for low in samples_u64() {
        let v = ((low as u128) << 64) | (low.rotate_left(17) as u128);
        let mut turned = v;
        turned.bit_rev();
        assert_eq!(turned, v.reverse_bits());
        assert_eq!(v.bits().into_u128(), v);
        assert_eq!(v.bit_zeros().len() as u32, v.count_zeros());
        assert_eq!(v.signed_left_shift(100), v << 100);
        assert_eq!(v.signed_right_shift(100), v >> 100);
        assert_eq!(v.get_bit_range(60, 70), (v >> 60) & 0x3ff);
        let mut w = v;
        w.bit_set(127, false).unwrap().bit_set(0, true).unwrap();
        assert_eq!(w, (v & (u128::MAX >> 1)) | 1);
    }
}

#[test]
fn every_width_of_vector_converts_like_a_sum_of_powers() {
    for len in 0..20usize {
        for pattern in 0..(1u32 << len.min(10)) {
            let flags: Vec<bool> = (0..len).map(|i| i < 10 && pattern & (1 << i) != 0).collect();
            let fits = pattern < 256;
            if fits {
                assert_eq!(flags.clone().try_into_u8(), Ok(pattern as u8));
                assert_eq!(flags.clone().into_u8(), pattern as u8);
            } else {
                assert!(flags.clone().try_into_u8().is_err());
            }
            assert_eq!(flags.clone().try_into_u16(), Ok(pattern as u16));
            assert_eq!(flags.clone().into_u32(), pattern);
            assert_eq!(flags.ones().len() as u32, pattern.count_ones());
        }
    }
}
