//! Typed views of hardware registers made of named bitfields.
//!
//! A register is a fixed-width word of bits. A bitfield is a contiguous run of
//! those bits, found by its bit location. A register value is tagged with one
//! of three access modes, and the tag decides which operations it offers:
//! the mask of a field, the value a field currently holds, or a setter that
//! merges a new value into the word.
//!
//! - [`location`]: bit locations, a single index or a range, and what they
//!   resolve to.
//! - [`span`]: the arithmetic of bitfields on natural numbers, and its laws.
//! - [`word`]: the words a register can be made of, and the same arithmetic
//!   in shifts and masks.
//! - [`field`]: bitfields that are known to lie inside their word.
//! - [`register`]: register values in the modes `Mask`, `Read` and `Write`.
//! - [`definition`]: the reset value and the named bitfields of a register.
//!
//! Nothing here touches a device: a register value is a number held in
//! memory, to be read from a device or written to it by other code.

pub mod definition;
pub mod field;
pub mod location;
pub mod register;
pub mod span;
pub mod word;

pub use definition::{Declaration, Definition};
pub use field::{Field, ShapeError};
pub use location::OffsetSize;
pub use register::{Mask, Read, Register, RegisterGet, Write};
pub use span::Span;
pub use word::Word;
