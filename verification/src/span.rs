//! The arithmetic of bitfields, over natural numbers.
//!
//! A register word is modelled by the number it denotes, and a bitfield by a
//! [`Span`]: the index of its lowest bit and the number of bits it occupies.
//! The functions here say what the mask of a field is, what value a field holds
//! inside a word, and what a word becomes when a field is given a new value.
//! The lemmas are the laws that make bitfields usable: a value written is the
//! value read back, and writing one field leaves every other bit alone.
//!
//! Everything is built from three operations on numbers: moving the bits of a
//! number up, moving them down, and keeping the lowest of them. They are
//! written so that, for a given number and a given count, the result follows
//! by plain arithmetic; `lemma_shifts` says what they are in terms of the
//! powers of two.

use vstd::arithmetic::div_mod::{
    lemma_div_denominator, lemma_fundamental_div_mod, lemma_fundamental_div_mod_converse,
};
use vstd::arithmetic::mul::lemma_mul_is_associative;
use vstd::arithmetic::power2::{
    lemma2_to64, lemma_pow2_adds, lemma_pow2_pos, lemma_pow2_unfold, pow2,
};
use vstd::prelude::*;

verus! {

/// The number `bits` with its bits moved up by `count` places: `bits << count`
/// with nothing lost at the top, that is `bits` times the `count`-th power of
/// two. The count is taken apart into its binary digits, and each digit that
/// is set moves the bits by its own weight.
pub open spec fn shift_up(bits: nat, count: nat) -> nat {
    let b = if count % 2 >= 1 { bits * 0x2 } else { bits };
    let b = if count % 4 >= 2 { b * 0x4 } else { b };
    let b = if count % 8 >= 4 { b * 0x10 } else { b };
    let b = if count % 16 >= 8 { b * 0x100 } else { b };
    let b = if count % 32 >= 16 { b * 0x1_0000 } else { b };
    let b = if count % 64 >= 32 { b * 0x1_0000_0000 } else { b };
    let b = if count % 128 >= 64 { b * 0x1_0000_0000_0000_0000 } else { b };
    if count >= 128 {
        b * pow2((count - count % 128) as nat)
    } else {
        b
    }
}

/// The number `bits` with its bits moved down by `count` places:
/// `bits >> count`, that is `bits` divided by the `count`-th power of two.
pub open spec fn shift_down(bits: nat, count: nat) -> nat {
    let b = if count % 2 >= 1 { bits / 0x2 } else { bits };
    let b = if count % 4 >= 2 { b / 0x4 } else { b };
    let b = if count % 8 >= 4 { b / 0x10 } else { b };
    let b = if count % 16 >= 8 { b / 0x100 } else { b };
    let b = if count % 32 >= 16 { b / 0x1_0000 } else { b };
    let b = if count % 64 >= 32 { b / 0x1_0000_0000 } else { b };
    let b = if count % 128 >= 64 { b / 0x1_0000_0000_0000_0000 } else { b };
    if count >= 128 {
        b / pow2((count - count % 128) as nat)
    } else {
        b
    }
}

/// The `count` lowest bits of `bits`: `bits & ((1 << count) - 1)`, that is
/// what is lost when `bits` is moved down by `count` places and up again.
pub open spec fn low_bits(bits: nat, count: nat) -> nat {
    (bits - shift_up(shift_down(bits, count), count)) as nat
}

/// Whether bit `index` of `bits` is set.
pub open spec fn bit_at(bits: nat, index: nat) -> bool {
    low_bits(shift_down(bits, index), 1) == 1
}

/// The number of bits set in `bits`.
pub open spec fn popcount(bits: nat) -> nat
    decreases bits,
{
    if bits == 0 {
        0
    } else {
        bits % 2 + popcount(bits / 2)
    }
}

/// The place of a bitfield inside a word: `size` bits, the lowest at `offset`.
pub struct Span {
    pub offset: nat,
    pub size: nat,
}

impl Span {
    /// The field of `size` bits whose lowest bit is at `offset`.
    pub open spec fn at(offset: u8, size: u8) -> Span {
        Span { offset: offset as nat, size: size as nat }
    }

    /// Index of the first bit above the field.
    pub open spec fn end(self) -> nat {
        self.offset + self.size
    }

    /// The field is not empty and lies inside a word of `width` bits.
    pub open spec fn within(self, width: nat) -> bool {
        self.size >= 1 && self.end() <= width
    }

    /// The two fields share no bit.
    pub open spec fn disjoint(self, other: Span) -> bool {
        self.end() <= other.offset || other.end() <= self.offset
    }

    /// The value fits in the bits of the field: it is below `1 << size`.
    pub open spec fn admits(self, value: nat) -> bool {
        value < shift_up(1, self.size)
    }

    /// The largest value the field can hold, all of its bits set:
    /// `(1 << size) - 1`.
    pub open spec fn max_value(self) -> nat {
        (shift_up(1, self.size) - 1) as nat
    }

    /// The word that has exactly the bits of the field set:
    /// `((1 << size) - 1) << offset`.
    pub open spec fn mask(self) -> nat {
        shift_up(self.max_value(), self.offset)
    }

    /// The value that the field holds in `bits`, moved down to bit 0:
    /// `(bits >> offset) & ((1 << size) - 1)`.
    pub open spec fn get(self, bits: nat) -> nat {
        low_bits(shift_down(bits, self.offset), self.size)
    }

    /// The part of `bits` that lies above the field, moved down to bit 0.
    pub open spec fn above(self, bits: nat) -> nat {
        shift_down(shift_down(bits, self.offset), self.size)
    }

    /// The part of `bits` that lies below the field.
    pub open spec fn below(self, bits: nat) -> nat {
        low_bits(bits, self.offset)
    }

    /// The word `bits` with the field holding `value`. What lies above and
    /// below the field stays; between them stands `value` in place of what the
    /// field held.
    pub open spec fn set(self, bits: nat, value: nat) -> nat {
        shift_up(shift_up(self.above(bits), self.size) + value, self.offset) + self.below(bits)
    }
}

/// One rung of moving up: when the digit of weight `weight` is set, the
/// number moves up by `weight` places more.
proof fn lemma_rung_up(
    bits: nat,
    before: nat,
    done: nat,
    set: bool,
    weight: nat,
    factor: nat,
    after: nat,
)
    requires
        before == bits * pow2(done),
        factor == pow2(weight),
        after == if set {
            before * factor
        } else {
            before
        },
    ensures
        set ==> after == bits * pow2(done + weight),
        !set ==> after == bits * pow2(done),
{
    if set {
        lemma_pow2_adds(done, weight);
        lemma_mul_is_associative(bits as int, pow2(done) as int, pow2(weight) as int);
    }
}

/// One rung of moving down: when the digit of weight `weight` is set, the
/// number moves down by `weight` places more.
proof fn lemma_rung_down(
    bits: nat,
    before: nat,
    done: nat,
    set: bool,
    weight: nat,
    factor: nat,
    after: nat,
)
    requires
        before == bits / pow2(done),
        factor == pow2(weight),
        after == if set {
            before / factor
        } else {
            before
        },
    ensures
        set ==> after == bits / pow2(done + weight),
        !set ==> after == bits / pow2(done),
{
    if set {
        lemma_pow2_pos(done);
        lemma_pow2_pos(weight);
        lemma_pow2_adds(done, weight);
        lemma_div_denominator(bits as int, pow2(done) as int, pow2(weight) as int);
    }
}

/// Each binary digit of a count adds its weight to what the digits below it
/// make up.
proof fn lemma_digits(count: nat)
    ensures
        count % 2 >= 1 ==> count % 2 == 1,
        count % 2 < 1 ==> count % 2 == 0,
        count % 4 >= 2 ==> count % 4 == count % 2 + 2,
        count % 4 < 2 ==> count % 4 == count % 2,
        count % 8 >= 4 ==> count % 8 == count % 4 + 4,
        count % 8 < 4 ==> count % 8 == count % 4,
        count % 16 >= 8 ==> count % 16 == count % 8 + 8,
        count % 16 < 8 ==> count % 16 == count % 8,
        count % 32 >= 16 ==> count % 32 == count % 16 + 16,
        count % 32 < 16 ==> count % 32 == count % 16,
        count % 64 >= 32 ==> count % 64 == count % 32 + 32,
        count % 64 < 32 ==> count % 64 == count % 32,
        count % 128 >= 64 ==> count % 128 == count % 64 + 64,
        count % 128 < 64 ==> count % 128 == count % 64,
        count < 128 ==> count == count % 128,
{
    assert(count % 4 == count % 2 + (if count % 4 >= 2 { 2nat } else { 0 })) by (nonlinear_arith);
    assert(count % 8 == count % 4 + (if count % 8 >= 4 { 4nat } else { 0 })) by (nonlinear_arith);
    assert(count % 16 == count % 8 + (if count % 16 >= 8 { 8nat } else { 0 }))
        by (nonlinear_arith);
    assert(count % 32 == count % 16 + (if count % 32 >= 16 { 16nat } else { 0 }))
        by (nonlinear_arith);
    assert(count % 64 == count % 32 + (if count % 64 >= 32 { 32nat } else { 0 }))
        by (nonlinear_arith);
    assert(count % 128 == count % 64 + (if count % 128 >= 64 { 64nat } else { 0 }))
        by (nonlinear_arith);
}

/// Moving up by `count` places multiplies by the `count`-th power of two.
pub proof fn lemma_shift_up(bits: nat, count: nat)
    ensures
        shift_up(bits, count) == bits * pow2(count),
{
    let b0 = if count % 2 >= 1 { bits * 0x2 } else { bits };
    let b1 = if count % 4 >= 2 { b0 * 0x4 } else { b0 };
    let b2 = if count % 8 >= 4 { b1 * 0x10 } else { b1 };
    let b3 = if count % 16 >= 8 { b2 * 0x100 } else { b2 };
    let b4 = if count % 32 >= 16 { b3 * 0x1_0000 } else { b3 };
    let b5 = if count % 64 >= 32 { b4 * 0x1_0000_0000 } else { b4 };
    let b6 = if count % 128 >= 64 { b5 * 0x1_0000_0000_0000_0000 } else { b5 };
    let rest = (count - count % 128) as nat;
    let b7 = if count >= 128 { b6 * pow2(rest) } else { b6 };
    assert(shift_up(bits, count) == b7);
    lemma2_to64();
    lemma_digits(count);
    assert(bits == bits * pow2(0)) by (nonlinear_arith)
        requires
            pow2(0) == 1,
    ;
    lemma_rung_up(bits, bits, 0, count % 2 >= 1, 1, 0x2, b0);
    assert(b0 == bits * pow2(count % 2));
    lemma_rung_up(bits, b0, count % 2, count % 4 >= 2, 2, 0x4, b1);
    assert(b1 == bits * pow2(count % 4));
    lemma_rung_up(bits, b1, count % 4, count % 8 >= 4, 4, 0x10, b2);
    assert(b2 == bits * pow2(count % 8));
    lemma_rung_up(bits, b2, count % 8, count % 16 >= 8, 8, 0x100, b3);
    assert(b3 == bits * pow2(count % 16));
    lemma_rung_up(bits, b3, count % 16, count % 32 >= 16, 16, 0x1_0000, b4);
    assert(b4 == bits * pow2(count % 32));
    lemma_rung_up(bits, b4, count % 32, count % 64 >= 32, 32, 0x1_0000_0000, b5);
    assert(b5 == bits * pow2(count % 64));
    lemma_rung_up(bits, b5, count % 64, count % 128 >= 64, 64, 0x1_0000_0000_0000_0000, b6);
    assert(b6 == bits * pow2(count % 128));
    lemma_rung_up(bits, b6, count % 128, count >= 128, rest, pow2(rest), b7);
    assert(count >= 128 ==> count % 128 + rest == count);
}

/// Moving down by `count` places divides by the `count`-th power of two.
pub proof fn lemma_shift_down(bits: nat, count: nat)
    ensures
        shift_down(bits, count) == bits / pow2(count),
{
    let b0 = if count % 2 >= 1 { bits / 0x2 } else { bits };
    let b1 = if count % 4 >= 2 { b0 / 0x4 } else { b0 };
    let b2 = if count % 8 >= 4 { b1 / 0x10 } else { b1 };
    let b3 = if count % 16 >= 8 { b2 / 0x100 } else { b2 };
    let b4 = if count % 32 >= 16 { b3 / 0x1_0000 } else { b3 };
    let b5 = if count % 64 >= 32 { b4 / 0x1_0000_0000 } else { b4 };
    let b6 = if count % 128 >= 64 { b5 / 0x1_0000_0000_0000_0000 } else { b5 };
    let rest = (count - count % 128) as nat;
    let b7 = if count >= 128 { b6 / pow2(rest) } else { b6 };
    assert(shift_down(bits, count) == b7);
    lemma2_to64();
    lemma_digits(count);
    lemma_rung_down(bits, bits, 0, count % 2 >= 1, 1, 0x2, b0);
    assert(b0 == bits / pow2(count % 2));
    lemma_rung_down(bits, b0, count % 2, count % 4 >= 2, 2, 0x4, b1);
    assert(b1 == bits / pow2(count % 4));
    lemma_rung_down(bits, b1, count % 4, count % 8 >= 4, 4, 0x10, b2);
    assert(b2 == bits / pow2(count % 8));
    lemma_rung_down(bits, b2, count % 8, count % 16 >= 8, 8, 0x100, b3);
    assert(b3 == bits / pow2(count % 16));
    lemma_rung_down(bits, b3, count % 16, count % 32 >= 16, 16, 0x1_0000, b4);
    assert(b4 == bits / pow2(count % 32));
    lemma_rung_down(bits, b4, count % 32, count % 64 >= 32, 32, 0x1_0000_0000, b5);
    assert(b5 == bits / pow2(count % 64));
    lemma_rung_down(bits, b5, count % 64, count % 128 >= 64, 64, 0x1_0000_0000_0000_0000, b6);
    assert(b6 == bits / pow2(count % 128));
    lemma_rung_down(bits, b6, count % 128, count >= 128, rest, pow2(rest), b7);
    assert(count >= 128 ==> count % 128 + rest == count);
}

/// The `count` lowest bits are the remainder by the `count`-th power of two.
pub proof fn lemma_low_bits(bits: nat, count: nat)
    ensures
        low_bits(bits, count) == bits % pow2(count),
{
    lemma_pow2_pos(count);
    lemma_shift_down(bits, count);
    lemma_shift_up(bits / pow2(count), count);
    lemma_fundamental_div_mod(bits as int, pow2(count) as int);
    assert((bits / pow2(count)) * pow2(count) == pow2(count) * (bits / pow2(count)))
        by (nonlinear_arith);
}

/// What the three operations are in terms of the powers of two, for every
/// number and the count given.
pub proof fn lemma_shifts(count: nat)
    ensures
        pow2(count) > 0,
        shift_up(1, count) == pow2(count),
        forall|bits: nat| #[trigger] shift_up(bits, count) == bits * pow2(count),
        forall|bits: nat| #[trigger] shift_down(bits, count) == bits / pow2(count),
        forall|bits: nat| #[trigger] low_bits(bits, count) == bits % pow2(count),
{
    lemma_pow2_pos(count);
    lemma_shift_up(1, count);
    assert(1 * pow2(count) == pow2(count)) by (nonlinear_arith);
    assert forall|bits: nat| #[trigger] shift_up(bits, count) == bits * pow2(count) by {
        lemma_shift_up(bits, count);
    }
    assert forall|bits: nat| #[trigger] shift_down(bits, count) == bits / pow2(count) by {
        lemma_shift_down(bits, count);
    }
    assert forall|bits: nat| #[trigger] low_bits(bits, count) == bits % pow2(count) by {
        lemma_low_bits(bits, count);
    }
}

/// The part of a number above a field of `size` bits at `offset`, in terms of
/// the powers of two.
spec fn upper_part(bits: nat, offset: nat, size: nat) -> nat {
    (bits / pow2(offset)) / pow2(size)
}

/// The part of a number inside the field.
spec fn middle_part(bits: nat, offset: nat, size: nat) -> nat {
    (bits / pow2(offset)) % pow2(size)
}

/// The part of a number below the field.
spec fn lower_part(bits: nat, offset: nat) -> nat {
    bits % pow2(offset)
}

/// The number with `value` in place of its middle part.
spec fn replaced(bits: nat, offset: nat, size: nat, value: nat) -> nat {
    (upper_part(bits, offset, size) * pow2(size) + value) * pow2(offset) + lower_part(bits, offset)
}

/// The number that has `size` bits set, from `offset` on.
spec fn ones_at(offset: nat, size: nat) -> nat {
    ((pow2(size) - 1) * pow2(offset)) as nat
}

/// A number is made of its three parts.
proof fn lemma_split(bits: nat, offset: nat, size: nat)
    ensures
        bits == replaced(bits, offset, size, middle_part(bits, offset, size)),
        middle_part(bits, offset, size) < pow2(size),
        lower_part(bits, offset) < pow2(offset),
        middle_part(bits, offset, size) * pow2(offset) <= bits,
{
    let unit = pow2(offset);
    let limit = pow2(size);
    let upper = bits / unit;
    lemma_pow2_pos(offset);
    lemma_pow2_pos(size);
    lemma_fundamental_div_mod(bits as int, unit as int);
    lemma_fundamental_div_mod(upper as int, limit as int);
    assert(unit * (limit * (upper / limit) + upper % limit) == ((upper / limit) * limit + upper
        % limit) * unit) by (nonlinear_arith);
    let held = upper % limit;
    assert(held * unit <= unit * upper) by (nonlinear_arith)
        requires
            held <= upper,
    ;
}

/// A number put together from three parts has those parts.
proof fn lemma_join(high: nat, value: nat, low: nat, offset: nat, size: nat)
    requires
        value < pow2(size),
        low < pow2(offset),
    ensures
        ({
            let bits = ((high * pow2(size) + value) * pow2(offset) + low) as nat;
            &&& upper_part(bits, offset, size) == high
            &&& middle_part(bits, offset, size) == value
            &&& lower_part(bits, offset) == low
        }),
{
    let upper = high * pow2(size) + value;
    let bits = upper * pow2(offset) + low;
    lemma_fundamental_div_mod_converse(bits as int, pow2(offset) as int, upper as int, low as int);
    lemma_fundamental_div_mod_converse(upper as int, pow2(size) as int, high as int, value as int);
}

/// Replacing the middle part changes neither of the other parts, and the
/// middle part is then what was put there.
proof fn lemma_replaced_parts(bits: nat, offset: nat, size: nat, value: nat)
    requires
        value < pow2(size),
    ensures
        upper_part(replaced(bits, offset, size, value), offset, size) == upper_part(
            bits,
            offset,
            size,
        ),
        middle_part(replaced(bits, offset, size, value), offset, size) == value,
        lower_part(replaced(bits, offset, size, value), offset) == lower_part(bits, offset),
{
    lemma_split(bits, offset, size);
    lemma_join(upper_part(bits, offset, size), value, lower_part(bits, offset), offset, size);
}

/// Replacing the middle part takes the old one away and adds the new one.
proof fn lemma_replaced_is_update(bits: nat, offset: nat, size: nat, value: nat)
    ensures
        replaced(bits, offset, size, value) + middle_part(bits, offset, size) * pow2(offset) == bits
            + value * pow2(offset),
{
    let rest = upper_part(bits, offset, size) * pow2(size);
    let held = middle_part(bits, offset, size);
    let unit = pow2(offset);
    lemma_split(bits, offset, size);
    assert((rest + value) * unit + held * unit == (rest + held) * unit + value * unit)
        by (nonlinear_arith);
}

/// The upper part is what is left when the bits up to the end of the field
/// are dropped.
proof fn lemma_upper_drops_to_end(bits: nat, offset: nat, size: nat)
    ensures
        upper_part(bits, offset, size) == bits / pow2(offset + size),
{
    lemma_pow2_pos(offset);
    lemma_pow2_pos(size);
    lemma_pow2_adds(offset, size);
    lemma_div_denominator(bits as int, pow2(offset) as int, pow2(size) as int);
}

/// The middle part depends only on the bits below index `cut`, for any `cut`
/// at or above the end of the field.
proof fn lemma_middle_ignores_high(bits: nat, offset: nat, size: nat, cut: nat)
    requires
        offset + size <= cut,
    ensures
        middle_part(bits, offset, size) == middle_part(bits % pow2(cut), offset, size),
{
    let rest = (cut - offset - size) as nat;
    let low = bits % pow2(cut);
    let high = bits / pow2(cut);
    let unit = pow2(offset);
    let limit = pow2(size);
    let room = pow2(rest);
    lemma_pow2_pos(cut);
    lemma_pow2_adds(offset, size);
    lemma_pow2_adds(offset + size, rest);
    lemma_fundamental_div_mod(bits as int, pow2(cut) as int);
    lemma_split(low, offset, size);
    let above = upper_part(low, offset, size);
    let held = middle_part(low, offset, size);
    let top = high * room + above;
    assert((top * limit + held) * unit == ((unit * limit) * room) * high + (above * limit + held)
        * unit) by (nonlinear_arith)
        requires
            top == high * room + above,
    ;
    lemma_join(top, held, lower_part(low, offset), offset, size);
}

/// The middle part depends only on the bits from index `cut` upwards, for
/// any `cut` at or below the offset of the field.
proof fn lemma_middle_ignores_low(bits: nat, offset: nat, size: nat, cut: nat)
    requires
        cut <= offset,
    ensures
        middle_part(bits, offset, size) == middle_part(
            bits / pow2(cut),
            (offset - cut) as nat,
            size,
        ),
{
    let rest = (offset - cut) as nat;
    lemma_pow2_pos(cut);
    lemma_pow2_pos(rest);
    lemma_pow2_adds(cut, rest);
    lemma_div_denominator(bits as int, pow2(cut) as int, pow2(rest) as int);
}

/// Replacing the middle part of one field does not change the middle part of
/// a field that shares no bit with it.
proof fn lemma_replaced_elsewhere(
    bits: nat,
    offset: nat,
    size: nat,
    value: nat,
    other_offset: nat,
    other_size: nat,
)
    requires
        value < pow2(size),
        offset + size <= other_offset || other_offset + other_size <= offset,
    ensures
        middle_part(replaced(bits, offset, size, value), other_offset, other_size) == middle_part(
            bits,
            other_offset,
            other_size,
        ),
{
    let written = replaced(bits, offset, size, value);
    lemma_replaced_parts(bits, offset, size, value);
    if other_offset + other_size <= offset {
        lemma_middle_ignores_high(bits, other_offset, other_size, offset);
        lemma_middle_ignores_high(written, other_offset, other_size, offset);
    } else {
        lemma_upper_drops_to_end(bits, offset, size);
        lemma_upper_drops_to_end(written, offset, size);
        lemma_middle_ignores_low(bits, other_offset, other_size, offset + size);
        lemma_middle_ignores_low(written, other_offset, other_size, offset + size);
    }
}

/// A number below the `width`-th power of two stays below it when the middle
/// part of a field that ends at or below `width` is replaced.
proof fn lemma_replaced_bound(bits: nat, offset: nat, size: nat, value: nat, width: nat)
    requires
        offset + size <= width,
        value < pow2(size),
        bits < pow2(width),
    ensures
        replaced(bits, offset, size, value) < pow2(width),
{
    let rest = (width - offset - size) as nat;
    let high = upper_part(bits, offset, size);
    let held = middle_part(bits, offset, size);
    let low = lower_part(bits, offset);
    let unit = pow2(offset);
    let limit = pow2(size);
    let room = pow2(rest);
    lemma_split(bits, offset, size);
    lemma_pow2_pos(offset);
    lemma_pow2_pos(size);
    lemma_pow2_adds(offset, size);
    lemma_pow2_adds(offset + size, rest);
    assert(high < room) by (nonlinear_arith)
        requires
            bits == (high * limit + held) * unit + low,
            bits < (unit * limit) * room,
            unit > 0,
            limit > 0,
    ;
    assert((high * limit + value) * unit + low < (unit * limit) * room) by (nonlinear_arith)
        requires
            high < room,
            value < limit,
            low < unit,
    ;
}

/// The number with the bits of a field set is zero with all ones put in the
/// field.
proof fn lemma_ones_at_is_replaced(offset: nat, size: nat)
    ensures
        ones_at(offset, size) == replaced(0, offset, size, (pow2(size) - 1) as nat),
{
    lemma_pow2_pos(offset);
    lemma_pow2_pos(size);
    lemma_join(0, 0, 0, offset, size);
    assert((0 * pow2(size) + 0) * pow2(offset) + 0 == 0) by (nonlinear_arith);
    assert(0 * pow2(size) == 0) by (nonlinear_arith);
}

/// The number with the bits of a field set has those bits set, and no other.
proof fn lemma_ones_at_bits(offset: nat, size: nat, index: nat)
    ensures
        middle_part(ones_at(offset, size), index, 1) == 1 <==> offset <= index < offset + size,
{
    let ones = (pow2(size) - 1) as nat;
    lemma2_to64();
    lemma_pow2_pos(size);
    lemma_pow2_pos(offset);
    lemma_ones_at_is_replaced(offset, size);
    if offset <= index < offset + size {
        lemma_middle_ignores_low(ones_at(offset, size), index, 1, offset);
        lemma_fundamental_div_mod_converse(
            ones_at(offset, size) as int,
            pow2(offset) as int,
            ones as int,
            0,
        );
        lemma_all_ones_bit(size, (index - offset) as nat);
    } else {
        lemma_replaced_elsewhere(0, offset, size, ones, index, 1);
        lemma_pow2_pos(index);
        lemma_fundamental_div_mod_converse(0, pow2(index) as int, 0, 0);
    }
}

/// Every bit below `size` is set in the number that is one less than the
/// `size`-th power of two.
proof fn lemma_all_ones_bit(size: nat, index: nat)
    requires
        index < size,
    ensures
        ((pow2(size) - 1) / pow2(index) as int) % 2 == 1,
{
    let rest = (size - index) as nat;
    let tail = (rest - 1) as nat;
    lemma_pow2_adds(index, rest);
    lemma_pow2_unfold(rest);
    lemma_pow2_pos(index);
    lemma_pow2_pos(tail);
    let quotient = pow2(rest) - 1;
    let remainder = pow2(index) - 1;
    assert(pow2(size) - 1 == quotient * pow2(index) + remainder) by (nonlinear_arith)
        requires
            pow2(size) == pow2(index) * pow2(rest),
            quotient == pow2(rest) - 1,
            remainder == pow2(index) - 1,
    ;
    lemma_fundamental_div_mod_converse(pow2(size) - 1, pow2(index) as int, quotient, remainder);
    lemma_fundamental_div_mod_converse(quotient, 2, pow2(tail) - 1, 1);
}

/// The number that is one less than the `size`-th power of two has `size`
/// bits set.
proof fn lemma_all_ones_popcount(size: nat)
    ensures
        popcount((pow2(size) - 1) as nat) == size,
    decreases size,
{
    lemma2_to64();
    if size > 0 {
        let less = (size - 1) as nat;
        lemma_pow2_unfold(size);
        lemma_pow2_pos(less);
        lemma_all_ones_popcount(less);
        lemma_fundamental_div_mod_converse(pow2(size) - 1, 2, pow2(less) - 1, 1);
    }
}

/// Moving a number up by `shift` bits does not change how many of its bits are
/// set.
proof fn lemma_shifted_popcount(bits: nat, shift: nat)
    ensures
        popcount(bits * pow2(shift)) == popcount(bits),
    decreases shift,
{
    lemma2_to64();
    if shift == 0 {
        assert(bits * 1 == bits) by (nonlinear_arith);
    } else if bits == 0 {
        assert(0 * pow2(shift) == 0) by (nonlinear_arith);
    } else {
        let less = (shift - 1) as nat;
        lemma_pow2_unfold(shift);
        lemma_pow2_pos(shift);
        lemma_shifted_popcount(bits, less);
        assert(bits * pow2(shift) == (bits * pow2(less)) * 2) by (nonlinear_arith)
            requires
                pow2(shift) == 2 * pow2(less),
        ;
        assert(bits * pow2(shift) > 0) by (nonlinear_arith)
            requires
                bits > 0,
                pow2(shift) > 0,
        ;
        lemma_fundamental_div_mod_converse(
            (bits * pow2(shift)) as int,
            2,
            (bits * pow2(less)) as int,
            0,
        );
    }
}

/// A bit is set when the field made of that bit alone holds one.
proof fn lemma_bit_at(bits: nat, index: nat)
    ensures
        bit_at(bits, index) <==> middle_part(bits, index, 1) == 1,
{
    lemma_shift_down(bits, index);
    lemma_low_bits(bits / pow2(index), 1);
}

impl Span {
    /// What the functions of a field are in terms of the powers of two.
    proof fn lemma_forms(self)
        ensures
            pow2(self.offset) > 0,
            pow2(self.size) > 0,
            shift_up(1, self.offset) == pow2(self.offset),
            shift_up(1, self.size) == pow2(self.size),
            self.max_value() == pow2(self.size) - 1,
            self.mask() == ones_at(self.offset, self.size),
            forall|value: nat| #[trigger] self.admits(value) <==> value < pow2(self.size),
            forall|value: nat| #[trigger] shift_up(value, self.offset) == value * pow2(self.offset),
            forall|bits: nat| #[trigger]
                self.get(bits) == middle_part(bits, self.offset, self.size),
            forall|bits: nat| #[trigger]
                self.above(bits) == upper_part(bits, self.offset, self.size),
            forall|bits: nat| #[trigger] self.below(bits) == lower_part(bits, self.offset),
            forall|bits: nat, value: nat| #[trigger]
                self.set(bits, value) == replaced(bits, self.offset, self.size, value),
    {
        lemma_shifts(self.offset);
        lemma_shifts(self.size);
    }

    /// A word is made of the three parts that a field cuts it into: what lies
    /// above the field, what the field holds, and what lies below. So writing
    /// to a field the value it already holds changes nothing, and what a
    /// field holds fits in the field.
    pub proof fn lemma_parts(self, bits: nat)
        ensures
            bits == self.set(bits, self.get(bits)),
            self.admits(self.get(bits)),
            self.below(bits) < shift_up(1, self.offset),
            shift_up(self.get(bits), self.offset) <= bits,
    {
        self.lemma_forms();
        lemma_split(bits, self.offset, self.size);
    }

    /// A value written to a field is the value read back from it.
    pub proof fn lemma_read_back(self, bits: nat, value: nat)
        requires
            self.admits(value),
        ensures
            self.get(self.set(bits, value)) == value,
    {
        self.lemma_forms();
        lemma_replaced_parts(bits, self.offset, self.size, value);
    }

    /// The values that a field admits are those up to its largest value, and
    /// the largest value is read back as written.
    pub proof fn lemma_read_back_max(self, bits: nat)
        ensures
            self.admits(self.max_value()),
            !self.admits(self.max_value() + 1),
            self.get(self.set(bits, self.max_value())) == self.max_value(),
    {
        self.lemma_forms();
        self.lemma_read_back(bits, self.max_value());
    }

    /// Of two writes to the same field, only the second one counts.
    pub proof fn lemma_set_overwrites(self, bits: nat, first: nat, second: nat)
        requires
            self.admits(first),
        ensures
            self.set(self.set(bits, first), second) == self.set(bits, second),
    {
        self.lemma_forms();
        lemma_replaced_parts(bits, self.offset, self.size, first);
    }

    /// Writing a field replaces its old value by the new one, and adds or
    /// takes away nothing else: it clears the bits of the field and merges
    /// the new value in.
    pub proof fn lemma_set_is_update(self, bits: nat, value: nat)
        ensures
            self.set(bits, value) + shift_up(self.get(bits), self.offset) == bits + shift_up(
                value,
                self.offset,
            ),
    {
        self.lemma_forms();
        lemma_replaced_is_update(bits, self.offset, self.size, value);
    }

    /// Writing one field does not change what any field disjoint from it holds.
    pub proof fn lemma_isolation(self, other: Span, bits: nat, value: nat)
        requires
            self.disjoint(other),
            self.admits(value),
        ensures
            other.get(self.set(bits, value)) == other.get(bits),
    {
        self.lemma_forms();
        other.lemma_forms();
        lemma_replaced_elsewhere(bits, self.offset, self.size, value, other.offset, other.size);
    }

    /// Writing a field changes no bit outside the field.
    pub proof fn lemma_bits_outside_unchanged(self, bits: nat, value: nat, index: nat)
        requires
            self.admits(value),
            index < self.offset || self.end() <= index,
        ensures
            bit_at(self.set(bits, value), index) == bit_at(bits, index),
    {
        self.lemma_isolation(Span { offset: index, size: 1 }, bits, value);
    }

    /// Writes to two disjoint fields give the same word in either order.
    pub proof fn lemma_set_commutes(self, other: Span, bits: nat, value: nat, other_value: nat)
        requires
            self.disjoint(other),
            self.admits(value),
            other.admits(other_value),
        ensures
            other.set(self.set(bits, value), other_value) == self.set(
                other.set(bits, other_value),
                value,
            ),
    {
        self.lemma_isolation(other, bits, value);
        other.lemma_isolation(self, bits, other_value);
        self.lemma_set_is_update(bits, value);
        other.lemma_set_is_update(self.set(bits, value), other_value);
        other.lemma_set_is_update(bits, other_value);
        self.lemma_set_is_update(other.set(bits, other_value), value);
    }

    /// A word of `width` bits is still one after a write to a field that lies
    /// inside it.
    pub proof fn lemma_set_bound(self, bits: nat, value: nat, width: nat)
        requires
            self.end() <= width,
            self.admits(value),
            bits < shift_up(1, width),
        ensures
            self.set(bits, value) < shift_up(1, width),
    {
        self.lemma_forms();
        lemma_shifts(width);
        lemma_replaced_bound(bits, self.offset, self.size, value, width);
    }

    /// The mask of a field that lies inside a word of `width` bits is such a
    /// word.
    pub proof fn lemma_mask_bound(self, width: nat)
        requires
            self.end() <= width,
        ensures
            self.mask() < shift_up(1, width),
    {
        self.lemma_forms();
        lemma_shifts(width);
        lemma_ones_at_is_replaced(self.offset, self.size);
        lemma_replaced_bound(0, self.offset, self.size, (pow2(self.size) - 1) as nat, width);
    }

    /// The mask of a field has the bits of the field set, and no other.
    pub proof fn lemma_mask_bits(self, index: nat)
        ensures
            bit_at(self.mask(), index) <==> self.offset <= index < self.end(),
    {
        self.lemma_forms();
        lemma_bit_at(self.mask(), index);
        lemma_ones_at_bits(self.offset, self.size, index);
    }

    /// The mask of a field has as many bits set as the field has bits.
    pub proof fn lemma_mask_popcount(self)
        ensures
            popcount(self.mask()) == self.size,
    {
        self.lemma_forms();
        lemma_all_ones_popcount(self.size);
        lemma_shifted_popcount((pow2(self.size) - 1) as nat, self.offset);
    }
}

} // verus!
