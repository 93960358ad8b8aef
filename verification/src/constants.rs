//! Tags and masks of the binary format.
//!
//! A container starts with a four byte header: its kind in the top three bits,
//! the number of its entries in the rest. Each entry of a container is
//! announced by a four byte descriptor: the kind of the entry in three bits,
//! its length in bytes in the low twenty-eight.

use vstd::prelude::*;

verus! {

/// Header kind of an array.
pub const ARRAY_CONTAINER_TAG: u32 = 0x8000_0000;

/// Header kind of an object.
pub const OBJECT_CONTAINER_TAG: u32 = 0x4000_0000;

/// Header kind of a document that is a single scalar.
pub const SCALAR_CONTAINER_TAG: u32 = 0x2000_0000;

/// The bits of a header that hold the kind.
pub const CONTAINER_HEADER_TYPE_MASK: u32 = 0xE000_0000;

/// The bits of a header that hold the number of entries.
pub const CONTAINER_HEADER_LEN_MASK: u32 = 0x1FFF_FFFF;

/// Entry kind of `null`.
pub const NULL_TAG: u32 = 0x0000_0000;

/// Entry kind of a string.
pub const STRING_TAG: u32 = 0x1000_0000;

/// Entry kind of a number.
pub const NUMBER_TAG: u32 = 0x2000_0000;

/// Entry kind of `false`.
pub const FALSE_TAG: u32 = 0x3000_0000;

/// Entry kind of `true`.
pub const TRUE_TAG: u32 = 0x4000_0000;

/// Entry kind of a nested container.
pub const CONTAINER_TAG: u32 = 0x5000_0000;

/// The bits of an entry descriptor that hold the kind.
pub const JENTRY_TYPE_MASK: u32 = 0x7000_0000;

/// The bits of an entry descriptor that hold the length.
pub const JENTRY_OFF_LEN_MASK: u32 = 0x0FFF_FFFF;

/// First byte of the number zero.
pub const NUMBER_ZERO: u8 = 0x00;

/// First byte of the float that is not a number.
pub const NUMBER_NAN: u8 = 0x10;

/// First byte of positive infinity.
pub const NUMBER_INF: u8 = 0x20;

/// First byte of negative infinity.
pub const NUMBER_NEG_INF: u8 = 0x30;

/// First byte of a signed integer.
pub const NUMBER_INT: u8 = 0x40;

/// First byte of an unsigned integer.
pub const NUMBER_UINT: u8 = 0x50;

/// First byte of a float.
pub const NUMBER_FLOAT: u8 = 0x60;

} // verus!
