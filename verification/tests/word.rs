use bitfield_register::Word;

#[test]
fn widths_of_the_words() {
    assert_eq!(<u8 as Word>::bit_width(), 8);
    assert_eq!(<u16 as Word>::bit_width(), 16);
    assert_eq!(<u32 as Word>::bit_width(), 32);
    assert_eq!(<u64 as Word>::bit_width(), 64);
}

#[test]
fn zero_words() {
    assert_eq!(<u8 as Word>::zero(), 0);
    assert_eq!(<u16 as Word>::zero(), 0);
    assert_eq!(<u32 as Word>::zero(), 0);
    assert_eq!(<u64 as Word>::zero(), 0);
}

#[test]
fn mask_is_ones_moved_up_to_the_offset() {
    assert_eq!(<u8 as Word>::field_mask(0, 1), 0x01);
    assert_eq!(<u8 as Word>::field_mask(4, 4), 0xf0);
    assert_eq!(<u16 as Word>::field_mask(4, 8), 0x0ff0);
    assert_eq!(<u16 as Word>::field_mask(15, 1), 0x8000);
    assert_eq!(<u32 as Word>::field_mask(12, 20), 0xffff_f000);
    assert_eq!(<u32 as Word>::field_mask(0, 32), 0xffff_ffff);
    assert_eq!(<u64 as Word>::field_mask(1, 62), 0x7fff_ffff_ffff_fffe);
    assert_eq!(<u64 as Word>::field_mask(0, 64), 0xffff_ffff_ffff_ffff);
}

#[test]
fn value_is_the_word_moved_down_and_cut() {
    assert_eq!(0b1101_0110u8.field_value(1, 3), 0b011);
    assert_eq!(0xbeefu16.field_value(4, 8), 0xee);
    assert_eq!(0xbeefu16.field_value(12, 4), 0xb);
    assert_eq!(0xdead_beefu32.field_value(8, 16), 0xadbe);
    assert_eq!(0xdead_beefu32.field_value(0, 32), 0xdead_beef);
    assert_eq!(0x0123_4567_89ab_cdefu64.field_value(4, 56), 0x0012_3456_789a_bcde);
}

#[test]
fn with_field_clears_and_merges() {
    assert_eq!(0b1111_1111u8.with_field(1, 3, 0b000), 0b1111_0001);
    assert_eq!(0b0000_0000u8.with_field(1, 3, 0b101), 0b0000_1010);
    assert_eq!(0xffffu16.with_field(4, 8, 0x12), 0xf12f);
    assert_eq!(0x0000_0000u32.with_field(31, 1, 1), 0x8000_0000);
    assert_eq!(0xffff_ffff_ffff_ffffu64.with_field(16, 32, 0), 0xffff_0000_0000_ffff);
}

#[test]
fn fits_in_counts_the_bits_of_a_value() {
    assert!(0u8.fits_in(0));
    assert!(!1u8.fits_in(0));
    assert!(1u8.fits_in(1));
    assert!(!2u8.fits_in(1));
    assert!(255u8.fits_in(8));
    assert!(0x0fffu16.fits_in(12));
    assert!(!0x1000u16.fits_in(12));
    assert!(0x7fff_ffffu32.fits_in(31));
    assert!(!0x8000_0000u32.fits_in(31));
    assert!(u32::MAX.fits_in(32));
    assert!(!(1u64 << 63).fits_in(63));
    assert!(u64::MAX.fits_in(64));
}

#[test]
fn byte_arithmetic_agrees_with_the_formulas() {
    for offset in 0..8u8 {
        for size in 1..=(8 - offset) {
            let ones = (1u32 << size) - 1;
            let mask = ones << offset;
            assert_eq!(<u8 as Word>::field_mask(offset, size) as u32, mask);
            for bits in 0..=255u8 {
                let held = (bits as u32 >> offset) & ones;
                assert_eq!(bits.field_value(offset, size) as u32, held);
                for value in 0..=(ones as u8) {
                    let written = (bits as u32 & !mask) | ((value as u32) << offset);
                    assert_eq!(bits.with_field(offset, size, value) as u32, written);
                }
            }
        }
    }
}

#[test]
fn narrow_and_wide_words_agree() {
    for offset in 0..16u8 {
        for size in 1..=(16 - offset) {
            for bits in [0u16, 0xffff, 0xa5a5, 0x5a5a, 0x1234, 0xfedc] {
                assert_eq!(
                    bits.field_value(offset, size) as u64,
                    (bits as u64).field_value(offset, size)
                );
                assert_eq!(
                    bits.field_value(offset, size) as u32,
                    (bits as u32).field_value(offset, size)
                );
                let value = <u16 as Word>::field_mask(0, size) & 0x5555;
                assert!(value.fits_in(size));
                assert_eq!(
                    bits.with_field(offset, size, value) as u64,
                    (bits as u64).with_field(offset, size, value as u64)
                );
            }
        }
    }
}
