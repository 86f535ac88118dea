//! Traits that add convenient bit manipulation methods to unsigned integers
//! (`u8`, `u16`, `u32`, `u64`, `u128`, `usize`) and boolean vectors
//! (`Vec<bool>`), each method with a contract that Verus has proved.
//!
//! ## Endianness
//!
//! Position `0` is always the least significant bit. For example, position
//! `0` of the value `0b00001111u8` is `1`/`true`, not `0`/`false`. If the
//! other order is desired, reverse the value: a `Vec<bool>` with
//! [`Vec::reverse`], an integer with [`BitManip::bit_rev`], which reverses
//! all the bits of the value in place.
//!
//! ## Errors
//!
//! A position that a caller may have taken from data is checked when the
//! program runs: [`BitManip::bit_get`], [`BitManip::bit_set`],
//! [`BitManip::bit_tog`] and [`BitVec::set`] return
//! [`Error::PosOutOfBounds`] for a position out of bounds and change
//! nothing. The bounds of a bit range describe a layout, so
//! [`BitManip::get_bit_range`] and [`BitManip::set_bit_range`] require them
//! to be valid. A vector converts to an integer either with a requirement
//! that it fits (`into_u8` and the like) or with a check
//! (`try_into_u8` and the like, which return [`Error::ConversionOverflow`]).
//!
//! ## Examples
//!
//! Getting the first "on" bit of a number:
//!
//! ```
//! use dotbits::BitManip;
//! use dotbits::BitVec;
//!
//! assert_eq!(*0b10110100u8.bits().ones().first().unwrap(), 2);
//! assert_eq!(*128u8.bits().ones().first().unwrap(), 7);
//!
//! // Or alternatively, using .bit_ones():
//!
//! assert_eq!(*0b10110100u8.bit_ones().first().unwrap(), 2);
//! assert_eq!(0b10110100u8.bit_first_one(), Some(2));
//! ```
//!
//! Bit shifts using negative numbers:
//!
//! ```
//! use dotbits::BitManip;
//!
//! assert_eq!(24u32.signed_left_shift(2), 24u32 << 2);
//! assert_eq!(24u32.signed_left_shift(-2), 24u32 >> 2);
//! assert_eq!(24u32.signed_right_shift(2), 24u32 >> 2);
//! assert_eq!(24u32.signed_right_shift(-2), 24u32 << 2);
//! ```
//!
//! ## Layout
//!
//! [`model`] holds the mathematical functions that the contracts speak of,
//! [`laws`] what holds between them, [`lemmas`] the groundwork of the
//! proofs, and [`word`] the operations themselves, on a word of any width up
//! to 128 bits.

pub mod bit_manip;
pub mod bit_vec;
pub mod error;
pub mod laws;
pub mod lemmas;
pub mod model;
pub mod word;

pub use crate::bit_manip::BitManip;
pub use crate::bit_vec::BitVec;
pub use crate::error::Error;
