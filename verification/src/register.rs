//! Register values and their three access modes.
//!
//! ```text
//!   Register::new(bits) ------------> Read --- modify() ---> Write --- bits() ---> word
//!   Definition::default_value() ---------------------------> Write
//!   Register::mask() ---------------> Mask
//! ```
//!
//! The mode is a type parameter that carries no data. It decides which
//! accessor a register value offers for a field: its mask, the value it holds,
//! or a setter. A value that was read cannot be written to before `modify`
//! has turned it into one to be written, and `bits` uses the value up.

use crate::field::Field;
use crate::span::{bit_at, popcount, Span};
use crate::word::Word;
use core::marker::PhantomData;
use vstd::prelude::*;

verus! {

/// Access mode of a register value that gives the masks of its fields.
#[derive(Clone, Copy)]
pub struct Mask;

/// Access mode of a register value that was read, and gives what its fields
/// hold.
#[derive(Clone, Copy)]
pub struct Read;

/// Access mode of a register value that is being put together to be written.
#[derive(Clone, Copy)]
pub struct Write;

/// Access to the raw bits of a register value, whatever its mode.
pub trait RegisterGet<N: Word> {
    /// The word that the register value holds. An implementation says here
    /// what `get` gives.
    open spec fn raw(&self) -> N {
        arbitrary()
    }

    /// The raw bits of the register value.
    fn get(&self) -> (bits: N)
        ensures
            bits == self.raw(),
    ;
}

/// The bit pattern of a register made of words of type `W`, seen in access
/// mode `MODE`.
pub struct Register<W: Word, MODE> {
    bits: W,
    mode: PhantomData<MODE>,
}

impl<W: Word, MODE> Clone for Register<W, MODE> {
    fn clone(&self) -> (copy: Self)
        ensures
            copy == *self,
    {
        *self
    }
}

impl<W: Word, MODE> Copy for Register<W, MODE> {

}

impl<W: Word, MODE> RegisterGet<W> for Register<W, MODE> {
    closed spec fn raw(&self) -> W {
        self.bits
    }

    fn get(&self) -> (bits: W) {
        self.bits
    }
}

/// A register value is seen as the number that its word denotes.
impl<W: Word, MODE> View for Register<W, MODE> {
    type V = nat;

    open spec fn view(&self) -> nat {
        self.raw().value()
    }
}

impl<W: Word, MODE> Register<W, MODE> {
    /// The register value that holds `bits`, in any mode.
    pub(crate) fn holding(bits: W) -> (register: Self)
        ensures
            register.raw() == bits,
    {
        Register { bits, mode: PhantomData }
    }
}

impl<W: Word> Register<W, Mask> {
    /// The register value that gives masks. It holds no bits of its own.
    pub fn mask() -> (register: Self)
        ensures
            register@ == 0,
    {
        Register { bits: W::zero(), mode: PhantomData }
    }

    /// The mask of `field`: the word in which exactly the bits of the field
    /// are set. It does not depend on what the register value holds.
    pub fn field(&self, field: Field<W>) -> (mask: W)
        ensures
            mask.value() == field@.mask(),
            mask.bit_and(mask.bit_not()).value() == 0,
            popcount(mask.value()) == field@.size,
            forall|index: nat|
                bit_at(mask.value(), index) <==> field@.offset <= index < field@.end(),
    {
        proof {
            use_type_invariant(field);
            field@.lemma_mask_popcount();
            assert forall|index: nat|
                bit_at(field@.mask(), index) <==> field@.offset <= index < field@.end() by {
                field@.lemma_mask_bits(index);
            }
        }
        W::field_mask(field.offset(), field.size())
    }
}

impl<W: Word> Register<W, Read> {
    /// The register value that was read as `bits`.
    pub fn new(bits: W) -> (register: Self)
        ensures
            register.raw() == bits,
    {
        Register { bits, mode: PhantomData }
    }

    /// The value that `field` holds.
    pub fn field(&self, field: Field<W>) -> (value: W)
        ensures
            value.value() == field@.get(self@),
            field@.admits(value.value()),
    {
        proof {
            use_type_invariant(field);
            field@.lemma_parts(self@);
        }
        self.bits.field_value(field.offset(), field.size())
    }

    /// Turns the value that was read into one to be written, with the same
    /// bits.
    pub fn modify(self) -> (register: Register<W, Write>)
        ensures
            register.raw() == self.raw(),
    {
        Register { bits: self.bits, mode: PhantomData }
    }
}

impl<W: Word> Register<W, Write> {
    /// Gives `field` the value `value` and leaves every other bit as it is:
    /// the bits of the field are cleared, and `value`, moved up to the offset
    /// of the field, is merged in. The register value is handed back, so that
    /// calls can be chained.
    ///
    /// The value must fit in the field. A caller that cannot know this asks
    /// [`Field::admits`] first.
    pub fn field(&mut self, field: Field<W>, value: W) -> (register: &mut Self)
        requires
            field@.admits(value.value()),
        ensures
            register@ == field@.set(old(self)@, value.value()),
            field@.get(register@) == value.value(),
            forall|other: Span|
                field@.disjoint(other) ==> #[trigger] other.get(register@) == other.get(
                    old(self)@,
                ),
            *final(self) == *final(register),
    {
        proof {
            use_type_invariant(field);
            field@.lemma_read_back(self@, value.value());
            assert forall|other: Span| field@.disjoint(other) implies #[trigger] other.get(
                field@.set(self@, value.value()),
            ) == other.get(self@) by {
                field@.lemma_isolation(other, self@, value.value());
            }
        }
        self.bits = self.bits.with_field(field.offset(), field.size(), value);
        self
    }

    /// The word to be written.
    pub fn bits(self) -> (bits: W)
        ensures
            bits == self.raw(),
    {
        self.bits
    }
}

} // verus!
