//! Register words: the unsigned integers a register can be made of, and the
//! shift-and-mask arithmetic on them.
//!
//! The arithmetic is done once, on 64-bit words, and proved equal to the
//! arithmetic of [`Span`] on natural numbers. The narrower words widen, compute
//! and narrow again; nothing is lost, since a field of a narrow word lies
//! inside that word.

use crate::span::{lemma_shift_up, lemma_shifts, shift_up, Span};
use vstd::arithmetic::div_mod::lemma_small_mod;
use vstd::arithmetic::power2::{lemma2_to64, lemma_pow2_pos, lemma_pow2_strictly_increases, pow2};
use vstd::bits::{
    lemma_u64_low_bits_mask_is_mod, lemma_u64_pow2_no_overflow, lemma_u64_shl_is_mul,
    lemma_u64_shr_is_div, low_bits_mask,
};
use vstd::prelude::*;

verus! {

/// An unsigned integer of fixed width that can hold the bits of a register.
pub trait Word: Copy + Sized {
    /// The number of bits of the word.
    spec fn width() -> nat;

    /// The number that the word denotes.
    spec fn value(self) -> nat;

    /// The word with the bits that are set in both words: `self & other`.
    spec fn bit_and(self, other: Self) -> Self;

    /// The word with every bit turned over: `!self`.
    spec fn bit_not(self) -> Self;

    /// A word denotes a number below the `width`-th power of two.
    proof fn lemma_value_bound(self)
        ensures
            self.value() < shift_up(1, Self::width()),
    ;

    /// Two words that denote the same number are the same word.
    proof fn lemma_value_unique(self, other: Self)
        requires
            self.value() == other.value(),
        ensures
            self == other,
    ;

    /// The number of bits of the word.
    fn bit_width() -> (width: u8)
        ensures
            width == Self::width(),
            width >= 1,
    ;

    /// The word with no bit set.
    fn zero() -> (word: Self)
        ensures
            word.value() == 0,
    ;

    /// The word that has exactly the `size` bits from `offset` on set:
    /// `((1 << size) - 1) << offset`.
    fn field_mask(offset: u8, size: u8) -> (mask: Self)
        requires
            Span::at(offset, size).within(Self::width()),
        ensures
            mask.value() == Span::at(offset, size).mask(),
            mask.bit_and(mask.bit_not()).value() == 0,
    ;

    /// The value held by the `size` bits from `offset` on:
    /// `(self >> offset) & ((1 << size) - 1)`.
    fn field_value(self, offset: u8, size: u8) -> (value: Self)
        requires
            Span::at(offset, size).within(Self::width()),
        ensures
            value.value() == Span::at(offset, size).get(self.value()),
    ;

    /// The word with the `size` bits from `offset` on replaced by `value`:
    /// the old bits of the field are cleared, and `value`, moved up to
    /// `offset`, is merged in.
    fn with_field(self, offset: u8, size: u8, value: Self) -> (word: Self)
        requires
            Span::at(offset, size).within(Self::width()),
            Span::at(offset, size).admits(value.value()),
        ensures
            word.value() == Span::at(offset, size).set(
                self.value(),
                value.value(),
            ),
    ;

    /// Whether the word, taken as a value, fits in `size` bits.
    fn fits_in(self, size: u8) -> (fits: bool)
        requires
            size <= Self::width(),
        ensures
            fits == (self.value() < shift_up(1, size as nat)),
    ;
}

/// The 64-bit word with its `size` lowest bits set.
#[inline]
fn low_ones(size: u8) -> (ones: u64)
    requires
        size <= 64,
    ensures
        ones == shift_up(1, size as nat) - 1,
        ones == pow2(size as nat) - 1,
        ones == low_bits_mask(size as nat),
{
    proof {
        lemma_one_up(size as nat);
        lemma2_to64();
    }
    if size >= 64 {
        u64::MAX
    } else {
        proof {
            lemma_u64_pow2_no_overflow(size as nat);
            lemma_u64_shl_is_mul(1, size as u64);
        }
        (1u64 << (size as u64)) - 1
    }
}

/// The mask of a field of a 64-bit word.
#[inline]
fn mask64(offset: u8, size: u8) -> (mask: u64)
    requires
        Span::at(offset, size).within(64),
    ensures
        mask == Span::at(offset, size).mask(),
{
    let ones = low_ones(size);
    proof {
        Span::at(offset, size).lemma_mask_bound(64);
        lemma_shifts(offset as nat);
        lemma_u64_shl_is_mul(ones, offset as u64);
    }
    ones << (offset as u64)
}

/// Masking with the `size` lowest bits keeps what is below the `size`-th power
/// of two.
proof fn lemma_low_ones_is_mod(word: u64, size: u8)
    requires
        size <= 64,
    ensures
        word & (low_bits_mask(size as nat) as u64) == word as nat % pow2(size as nat),
{
    if size < 64 {
        lemma_u64_pow2_no_overflow(size as nat);
        lemma_u64_low_bits_mask_is_mod(word, size as nat);
    } else {
        lemma2_to64();
        lemma_small_mod(word as nat, pow2(64));
        assert(word & 0xffff_ffff_ffff_ffffu64 == word) by (bit_vector);
    }
}

/// The value of a field of a 64-bit word.
#[inline]
fn value64(bits: u64, offset: u8, size: u8) -> (value: u64)
    requires
        Span::at(offset, size).within(64),
    ensures
        value == Span::at(offset, size).get(bits as nat),
{
    let ones = low_ones(size);
    proof {
        lemma_shifts(offset as nat);
        lemma_shifts(size as nat);
        lemma_u64_shr_is_div(bits, offset as u64);
        lemma_low_ones_is_mod(bits >> (offset as u64), size);
    }
    (bits >> (offset as u64)) & ones
}

/// Whether a 64-bit value fits in `size` bits.
#[inline]
fn fits64(value: u64, size: u8) -> (fits: bool)
    requires
        size <= 64,
    ensures
        fits == (value < shift_up(1, size as nat)),
{
    value <= low_ones(size)
}

/// A 64-bit word with a field replaced.
#[inline]
fn with64(bits: u64, offset: u8, size: u8, value: u64) -> (word: u64)
    requires
        Span::at(offset, size).within(64),
        Span::at(offset, size).admits(value as nat),
    ensures
        word == Span::at(offset, size).set(bits as nat, value as nat),
{
    let ones = low_ones(size);
    let mask = ones << (offset as u64);
    let shifted = (value & ones) << (offset as u64);
    let cleared = bits & !mask;
    proof {
        let span = Span::at(offset, size);
        let shift = offset as u64;
        let held = (bits >> shift) & ones;
        lemma_shifts(offset as nat);
        lemma_shifts(size as nat);
        lemma_one_up(size as nat);
        span.lemma_mask_bound(64);
        span.lemma_parts(bits as nat);
        span.lemma_set_is_update(bits as nat, value as nat);
        lemma_pow2_pos(offset as nat);
        // The value is unchanged by the mask of its size, and moves up whole.
        lemma_low_ones_is_mod(value, size);
        lemma_small_mod(value as nat, pow2(size as nat));
        assert(value * pow2(offset as nat) <= ones * pow2(offset as nat)) by (nonlinear_arith)
            requires
                value <= ones,
        ;
        lemma_u64_shl_is_mul(value, shift);
        // What the field held, moved back up, is what the mask picks.
        lemma_u64_shr_is_div(bits, shift);
        lemma_low_ones_is_mod(bits >> shift, size);
        lemma_u64_shl_is_mul(held, shift);
        assert(bits & mask == held << shift) by (bit_vector)
            requires
                mask == ones << shift,
                held == (bits >> shift) & ones,
                shift < 64,
        ;
        assert(cleared == bits - (bits & mask)) by (bit_vector)
            requires
                cleared == bits & !mask,
        ;
        // The cleared word and the new value share no bit, so merging adds.
        assert(cleared & shifted == 0) by (bit_vector)
            requires
                cleared == bits & !mask,
                mask == ones << shift,
                shifted == (value & ones) << shift,
                shift < 64,
        ;
        assert(cleared | shifted == cleared + shifted) by (bit_vector)
            requires
                cleared & shifted == 0,
        ;
    }
    cleared | shifted
}

impl Word for u64 {
    open spec fn width() -> nat {
        64
    }

    open spec fn value(self) -> nat {
        self as nat
    }

    open spec fn bit_and(self, other: Self) -> Self {
        self & other
    }

    open spec fn bit_not(self) -> Self {
        !self
    }

    proof fn lemma_value_bound(self) {
    }

    proof fn lemma_value_unique(self, other: Self) {
    }

    #[inline]
    fn bit_width() -> (width: u8) {
        64
    }

    #[inline]
    fn zero() -> (word: Self) {
        0
    }

    #[inline]
    fn field_mask(offset: u8, size: u8) -> (mask: Self) {
        let mask = mask64(offset, size);
        assert(mask & !mask == 0) by (bit_vector);
        mask
    }

    #[inline]
    fn field_value(self, offset: u8, size: u8) -> (value: Self) {
        value64(self, offset, size)
    }

    #[inline]
    fn with_field(self, offset: u8, size: u8, value: Self) -> (word: Self) {
        with64(self, offset, size, value)
    }

    #[inline]
    fn fits_in(self, size: u8) -> (fits: bool) {
        fits64(self, size)
    }
}

impl Word for u32 {
    open spec fn width() -> nat {
        32
    }

    open spec fn value(self) -> nat {
        self as nat
    }

    open spec fn bit_and(self, other: Self) -> Self {
        self & other
    }

    open spec fn bit_not(self) -> Self {
        !self
    }

    proof fn lemma_value_bound(self) {
    }

    proof fn lemma_value_unique(self, other: Self) {
    }

    #[inline]
    fn bit_width() -> (width: u8) {
        32
    }

    #[inline]
    fn zero() -> (word: Self) {
        0
    }

    #[inline]
    fn field_mask(offset: u8, size: u8) -> (mask: Self) {
        proof {
            Span::at(offset, size).lemma_mask_bound(32);
        }
        let mask = mask64(offset, size) as u32;
        assert(mask & !mask == 0) by (bit_vector);
        mask
    }

    #[inline]
    fn field_value(self, offset: u8, size: u8) -> (value: Self) {
        proof {
            Span::at(offset, size).lemma_parts(self as nat);
            lemma_room_grows(size as nat, 32);
        }
        value64(self as u64, offset, size) as u32
    }

    #[inline]
    fn with_field(self, offset: u8, size: u8, value: Self) -> (word: Self) {
        proof {
            Span::at(offset, size).lemma_set_bound(self as nat, value as nat, 32);
        }
        with64(self as u64, offset, size, value as u64) as u32
    }

    #[inline]
    fn fits_in(self, size: u8) -> (fits: bool) {
        fits64(self as u64, size)
    }
}

impl Word for u16 {
    open spec fn width() -> nat {
        16
    }

    open spec fn value(self) -> nat {
        self as nat
    }

    open spec fn bit_and(self, other: Self) -> Self {
        self & other
    }

    open spec fn bit_not(self) -> Self {
        !self
    }

    proof fn lemma_value_bound(self) {
    }

    proof fn lemma_value_unique(self, other: Self) {
    }

    #[inline]
    fn bit_width() -> (width: u8) {
        16
    }

    #[inline]
    fn zero() -> (word: Self) {
        0
    }

    #[inline]
    fn field_mask(offset: u8, size: u8) -> (mask: Self) {
        proof {
            Span::at(offset, size).lemma_mask_bound(16);
        }
        let mask = mask64(offset, size) as u16;
        assert(mask & !mask == 0) by (bit_vector);
        mask
    }

    #[inline]
    fn field_value(self, offset: u8, size: u8) -> (value: Self) {
        proof {
            Span::at(offset, size).lemma_parts(self as nat);
            lemma_room_grows(size as nat, 16);
        }
        value64(self as u64, offset, size) as u16
    }

    #[inline]
    fn with_field(self, offset: u8, size: u8, value: Self) -> (word: Self) {
        proof {
            Span::at(offset, size).lemma_set_bound(self as nat, value as nat, 16);
        }
        with64(self as u64, offset, size, value as u64) as u16
    }

    #[inline]
    fn fits_in(self, size: u8) -> (fits: bool) {
        fits64(self as u64, size)
    }
}

impl Word for u8 {
    open spec fn width() -> nat {
        8
    }

    open spec fn value(self) -> nat {
        self as nat
    }

    open spec fn bit_and(self, other: Self) -> Self {
        self & other
    }

    open spec fn bit_not(self) -> Self {
        !self
    }

    proof fn lemma_value_bound(self) {
    }

    proof fn lemma_value_unique(self, other: Self) {
    }

    #[inline]
    fn bit_width() -> (width: u8) {
        8
    }

    #[inline]
    fn zero() -> (word: Self) {
        0
    }

    #[inline]
    fn field_mask(offset: u8, size: u8) -> (mask: Self) {
        proof {
            Span::at(offset, size).lemma_mask_bound(8);
        }
        let mask = mask64(offset, size) as u8;
        assert(mask & !mask == 0) by (bit_vector);
        mask
    }

    #[inline]
    fn field_value(self, offset: u8, size: u8) -> (value: Self) {
        proof {
            Span::at(offset, size).lemma_parts(self as nat);
            lemma_room_grows(size as nat, 8);
        }
        value64(self as u64, offset, size) as u8
    }

    #[inline]
    fn with_field(self, offset: u8, size: u8, value: Self) -> (word: Self) {
        proof {
            Span::at(offset, size).lemma_set_bound(self as nat, value as nat, 8);
        }
        with64(self as u64, offset, size, value as u64) as u8
    }

    #[inline]
    fn fits_in(self, size: u8) -> (fits: bool) {
        fits64(self as u64, size)
    }
}

/// One moved up by `count` places is the `count`-th power of two.
proof fn lemma_one_up(count: nat)
    ensures
        shift_up(1, count) == pow2(count),
{
    lemma_shift_up(1, count);
    assert(1 * pow2(count) == pow2(count)) by (nonlinear_arith);
}

/// What fits in a number of bits fits in any greater number of bits.
proof fn lemma_room_grows(small: nat, large: nat)
    requires
        small <= large,
    ensures
        shift_up(1, small) <= shift_up(1, large),
{
    lemma_one_up(small);
    lemma_one_up(large);
    if small < large {
        lemma_pow2_strictly_increases(small, large);
    }
}

} // verus!
