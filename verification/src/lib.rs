//! LEB128+: a variable-length encoding of unsigned integers in which every
//! number has exactly one byte sequence.
//!
//! A number goes out seven bits at a time, low bits first, with the high bit
//! of each byte saying whether more follow. Unlike plain LEB128, the writer
//! takes one off what is left whenever it announces more, so that no number
//! can be padded with empty groups: `[0x80, 0x00]` is 128, not a second way
//! to write zero.
//!
//! [`encode`] and [`decode`] work on bytes in memory. [`Decoder`] takes one
//! byte at a time, for a caller that pulls its bytes from elsewhere. Both
//! are written once for every type with the operations of [`UInt`].

pub mod decoder;
pub mod encoder;
pub mod format;
pub mod laws;
pub mod uint;

pub use crate::decoder::{decode, DecodeError, Decoder, Step};
pub use crate::encoder::{encode, encode_into};
pub use crate::uint::UInt;
