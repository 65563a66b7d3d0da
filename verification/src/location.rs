//! Bit locations: where a bitfield lives inside a register word.

use core::ops::Range;
use vstd::prelude::*;

verus! {

/// A description of the place of a bitfield: a single bit index, or a
/// half-open range of bit indices.
///
/// Every location resolves to the index of its lowest bit and to the number
/// of bits it occupies, and it occupies at least one bit.
pub trait OffsetSize: Sized {
    /// Whether the value names at least one bit. Unless an implementation
    /// says otherwise, every value does.
    open spec fn is_location(self) -> bool {
        true
    }

    /// Index of the lowest bit: what `offset` gives.
    open spec fn offset_of(self) -> nat {
        arbitrary()
    }

    /// Number of bits occupied: what `size` gives.
    open spec fn size_of(self) -> nat {
        arbitrary()
    }

    fn offset(self) -> (offset: u8)
        ensures
            offset == self.offset_of(),
    ;

    fn size(self) -> (size: u8)
        requires
            self.is_location(),
        ensures
            size == self.size_of(),
            size >= 1,
    ;
}

/// A single bit, named by its index.
impl OffsetSize for u8 {
    open spec fn offset_of(self) -> nat {
        self as nat
    }

    open spec fn size_of(self) -> nat {
        1
    }

    fn offset(self) -> (offset: u8) {
        self
    }

    fn size(self) -> (size: u8) {
        1
    }
}

/// The bits from `start` up to, but not including, `end`.
impl OffsetSize for Range<u8> {
    open spec fn is_location(self) -> bool {
        self.start < self.end
    }

    open spec fn offset_of(self) -> nat {
        self.start as nat
    }

    open spec fn size_of(self) -> nat {
        (self.end - self.start) as nat
    }

    fn offset(self) -> (offset: u8) {
        self.start
    }

    fn size(self) -> (size: u8) {
        self.end - self.start
    }
}

} // verus!
