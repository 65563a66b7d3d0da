//! Bitfields of a register word: a bit location that has been resolved and
//! found to lie inside the word.

use crate::location::OffsetSize;
use crate::span::Span;
use crate::word::Word;
use core::marker::PhantomData;
use core::ops::Range;
use vstd::prelude::*;

verus! {

/// Why a register definition, or a part of one, is refused.
#[derive(Debug, Clone, Copy, PartialEq, Eq)]
pub enum ShapeError {
    /// The bit location holds no bit.
    Empty,
    /// The bit location reaches beyond the last bit of the word.
    TooWide,
    /// The bitfield shares a bit with a bitfield declared before.
    Overlap,
    /// A bitfield of the same name was declared before.
    Duplicate,
}

/// A bitfield of a register made of words of type `W`.
///
/// A field is never empty and never reaches beyond its word, so the accessors
/// of a register can take any field without a condition.
#[derive(Debug, PartialEq, Eq)]
pub struct Field<W: Word> {
    offset: u8,
    size: u8,
    word: PhantomData<W>,
}

impl<W: Word> Clone for Field<W> {
    fn clone(&self) -> (copy: Self)
        ensures
            copy == *self,
    {
        *self
    }
}

impl<W: Word> Copy for Field<W> {

}

impl<W: Word> View for Field<W> {
    type V = Span;

    closed spec fn view(&self) -> Span {
        Span::at(self.offset, self.size)
    }
}

impl<W: Word> Field<W> {
    /// What holds of every field: it is not empty and lies inside its word.
    #[verifier::type_invariant]
    pub open spec fn well_formed(self) -> bool {
        self@.within(W::width())
    }

    /// The field of `size` bits whose lowest bit is at `offset`.
    ///
    /// It is refused as `Empty` when `size` is zero, and as `TooWide` when it
    /// is not empty and does not end inside the word.
    pub fn new(offset: u8, size: u8) -> (made: Result<Self, ShapeError>)
        ensures
            made is Ok <==> size >= 1 && offset + size <= W::width(),
            made is Ok ==> made->Ok_0@.offset == offset && made->Ok_0@.size == size,
            made is Err ==> made->Err_0 == if size == 0 {
                ShapeError::Empty
            } else {
                ShapeError::TooWide
            },
    {
        let width = W::bit_width();
        if size == 0 {
            Err(ShapeError::Empty)
        } else if size > width || offset > width - size {
            Err(ShapeError::TooWide)
        } else {
            Ok(Field { offset, size, word: PhantomData })
        }
    }

    /// The field made of the single bit `index`.
    pub fn bit(index: u8) -> (made: Result<Self, ShapeError>)
        ensures
            made is Ok <==> index < W::width(),
            made is Ok ==> made->Ok_0@.offset == index && made->Ok_0@.size == 1,
            made is Err ==> made->Err_0 == ShapeError::TooWide,
    {
        Self::new(index.offset(), index.size())
    }

    /// The field made of the bits from `range.start` up to, but not
    /// including, `range.end`.
    ///
    /// It is refused as `Empty` when the range holds no index, and as
    /// `TooWide` when it holds one that is not a bit of the word.
    pub fn range(range: Range<u8>) -> (made: Result<Self, ShapeError>)
        ensures
            made is Ok <==> range.start < range.end <= W::width(),
            made is Ok ==> made->Ok_0@.offset == range.start && made->Ok_0@.size == range.end
                - range.start,
            made is Err ==> made->Err_0 == if range.start >= range.end {
                ShapeError::Empty
            } else {
                ShapeError::TooWide
            },
    {
        if range.start >= range.end {
            Err(ShapeError::Empty)
        } else {
            // Each question uses a range up, so the first is put to a copy.
            let offset = (range.start..range.end).offset();
            let size = range.size();
            Self::new(offset, size)
        }
    }

    /// Index of the lowest bit of the field.
    pub fn offset(&self) -> (offset: u8)
        ensures
            offset == self@.offset,
    {
        self.offset
    }

    /// Number of bits of the field.
    pub fn size(&self) -> (size: u8)
        ensures
            size == self@.size,
            size >= 1,
    {
        proof {
            use_type_invariant(self);
        }
        self.size
    }

    /// The largest value that the field can hold.
    pub fn max_value(&self) -> (max: W)
        ensures
            max.value() == self@.max_value(),
    {
        proof {
            use_type_invariant(self);
            assert(self@.max_value() * 1 == self@.max_value()) by (nonlinear_arith);
        }
        W::field_mask(0, self.size)
    }

    /// Whether `value` fits in the field.
    pub fn admits(&self, value: W) -> (fits: bool)
        ensures
            fits == self@.admits(value.value()),
    {
        proof {
            use_type_invariant(self);
        }
        value.fits_in(self.size)
    }

    /// Whether the two fields share a bit.
    pub fn overlaps(&self, other: &Field<W>) -> (shared: bool)
        ensures
            shared == !self@.disjoint(other@),
    {
        proof {
            use_type_invariant(self);
            use_type_invariant(other);
        }
        if self.offset <= other.offset {
            other.offset - self.offset < self.size
        } else {
            self.offset - other.offset < other.size
        }
    }

    /// A value written to a field is the value read back from it: after the
    /// field of `bits` has been given `value`, any word that holds what the
    /// field then holds is `value` itself.
    pub proof fn lemma_round_trip(self, bits: W, value: W, read: W)
        requires
            self@.admits(value.value()),
            read.value() == self@.get(self@.set(bits.value(), value.value())),
        ensures
            read == value,
    {
        self@.lemma_read_back(bits.value(), value.value());
        read.lemma_value_unique(value);
    }

    /// Writing one field does not change what a field that shares no bit with
    /// it holds: a word that holds what `other` holds after `self` has been
    /// given `value` is the word that held what `other` held before.
    pub proof fn lemma_isolated(self, other: Field<W>, bits: W, value: W, before: W, after: W)
        requires
            self@.disjoint(other@),
            self@.admits(value.value()),
            before.value() == other@.get(bits.value()),
            after.value() == other@.get(self@.set(bits.value(), value.value())),
        ensures
            after == before,
    {
        self@.lemma_isolation(other@, bits.value(), value.value());
        after.lemma_value_unique(before);
    }

    /// Two fields that share no bit can be written in either order: the
    /// words that the two orders give are the same word.
    pub proof fn lemma_order_free(
        self,
        other: Field<W>,
        bits: W,
        value: W,
        other_value: W,
        one: W,
        two: W,
    )
        requires
            self@.disjoint(other@),
            self@.admits(value.value()),
            other@.admits(other_value.value()),
            one.value() == other@.set(self@.set(bits.value(), value.value()), other_value.value()),
            two.value() == self@.set(other@.set(bits.value(), other_value.value()), value.value()),
        ensures
            one == two,
    {
        self@.lemma_set_commutes(other@, bits.value(), value.value(), other_value.value());
        one.lemma_value_unique(two);
    }
}

} // verus!
