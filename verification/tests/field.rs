use bitfield_register::{Field, ShapeError};

#[test]
fn single_bit_field() {
    let field = Field::<u8>::bit(3).unwrap();
    assert_eq!(field.offset(), 3);
    assert_eq!(field.size(), 1);
    assert_eq!(field.max_value(), 1);
}

#[test]
fn range_field() {
    let field = Field::<u16>::range(4..12).unwrap();
    assert_eq!(field.offset(), 4);
    assert_eq!(field.size(), 8);
    assert_eq!(field.max_value(), 0xff);
}

#[test]
fn field_from_offset_and_size() {
    let field = Field::<u32>::new(8, 24).unwrap();
    assert_eq!(field.offset(), 8);
    assert_eq!(field.size(), 24);
    assert_eq!(field.max_value(), 0x00ff_ffff);
}

#[test]
fn field_may_cover_the_whole_word() {
    assert_eq!(Field::<u8>::range(0..8).unwrap().max_value(), u8::MAX);
    assert_eq!(Field::<u16>::range(0..16).unwrap().max_value(), u16::MAX);
    assert_eq!(Field::<u32>::range(0..32).unwrap().max_value(), u32::MAX);
    assert_eq!(Field::<u64>::range(0..64).unwrap().max_value(), u64::MAX);
}

#[test]
fn last_bit_of_each_word_is_a_field() {
    assert!(Field::<u8>::bit(7).is_ok());
    assert!(Field::<u16>::bit(15).is_ok());
    assert!(Field::<u32>::bit(31).is_ok());
    assert!(Field::<u64>::bit(63).is_ok());
}

#[test]
fn bit_beyond_the_word_is_too_wide() {
    assert_eq!(Field::<u8>::bit(8), Err(ShapeError::TooWide));
    assert_eq!(Field::<u16>::bit(16), Err(ShapeError::TooWide));
    assert_eq!(Field::<u32>::bit(32), Err(ShapeError::TooWide));
    assert_eq!(Field::<u64>::bit(64), Err(ShapeError::TooWide));
    assert_eq!(Field::<u64>::bit(255), Err(ShapeError::TooWide));
}

#[test]
fn range_beyond_the_word_is_too_wide() {
    assert_eq!(Field::<u8>::range(4..9), Err(ShapeError::TooWide));
    assert_eq!(Field::<u8>::range(8..9), Err(ShapeError::TooWide));
    assert_eq!(Field::<u16>::range(0..17), Err(ShapeError::TooWide));
    assert_eq!(Field::<u64>::range(60..255), Err(ShapeError::TooWide));
    assert_eq!(Field::<u8>::new(255, 255), Err(ShapeError::TooWide));
    assert_eq!(Field::<u8>::new(1, 8), Err(ShapeError::TooWide));
}

#[test]
fn range_without_a_bit_is_empty() {
    assert_eq!(Field::<u8>::range(3..3), Err(ShapeError::Empty));
    assert_eq!(Field::<u8>::range(5..2), Err(ShapeError::Empty));
    assert_eq!(Field::<u8>::range(200..200), Err(ShapeError::Empty));
    assert_eq!(Field::<u8>::new(3, 0), Err(ShapeError::Empty));
    assert_eq!(Field::<u8>::new(200, 0), Err(ShapeError::Empty));
}

#[test]
fn field_admits_values_below_two_to_its_size() {
    let field = Field::<u8>::range(2..5).unwrap();
    for value in 0..8u8 {
        assert!(field.admits(value));
    }
    for value in 8..=255u8 {
        assert!(!field.admits(value));
    }
}

#[test]
fn largest_value_is_admitted_and_the_next_is_not() {
    for size in 1..=15u8 {
        let field = Field::<u16>::new(1, size).unwrap();
        let max = field.max_value();
        assert_eq!(max, (1u16 << size) - 1);
        assert!(field.admits(max));
        assert!(!field.admits(max + 1));
    }
    let whole = Field::<u16>::new(0, 16).unwrap();
    assert!(whole.admits(u16::MAX));
}

#[test]
fn fields_overlap_when_they_share_a_bit() {
    let low = Field::<u8>::range(0..3).unwrap();
    let mid = Field::<u8>::range(2..5).unwrap();
    let high = Field::<u8>::range(5..8).unwrap();
    let bit = Field::<u8>::bit(3).unwrap();
    assert!(low.overlaps(&mid));
    assert!(mid.overlaps(&low));
    assert!(mid.overlaps(&bit));
    assert!(bit.overlaps(&mid));
    assert!(low.overlaps(&low));
    assert!(!low.overlaps(&high));
    assert!(!high.overlaps(&low));
    assert!(!mid.overlaps(&high));
    assert!(!low.overlaps(&bit));
}

#[test]
fn field_is_copied_whole() {
    let field = Field::<u32>::range(7..19).unwrap();
    let copy = field;
    let clone = field.clone();
    assert_eq!(copy, field);
    assert_eq!(clone, field);
    assert_eq!(clone.offset(), 7);
    assert_eq!(clone.size(), 12);
}
