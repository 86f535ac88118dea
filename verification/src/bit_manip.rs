//! Bit operations on the unsigned integer types.

use crate::error::Error;
use crate::lemmas::{
    lemma_bit_range_bound, lemma_from_bits_bound, lemma_pow2_128, lemma_pow2_monotonic,
    lemma_shifted_bound, lemma_with_bit_bound, lemma_with_bit_range_bound,
};
use crate::model::{
    bit_at, bit_positions, bit_range, bits_of, first_bit_is, reversed, signed_shifted_left,
    signed_shifted_right, with_bit, with_bit_flipped, with_bit_range,
};
use crate::word::{
    assign_bit, extract_range, first_position, flag_positions, flip_bit, insert_range,
    reverse_bits, shift_left, shift_right, test_bit, to_flags,
};
use vstd::arithmetic::power2::{lemma2_to64, pow2};
use vstd::pervasive::runtime_assert;
use vstd::prelude::*;

verus! {

/// How far a signed shift amount moves the bits, whichever way.
fn magnitude(amount: i32) -> (distance: u32)
    ensures
        distance == if amount < 0 {
            -amount
        } else {
            amount as int
        },
{
    if amount < 0 {
        (-(amount as i64)) as u32
    } else {
        amount as u32
    }
}

/// A trait that provides utility methods for simple bit manipulation.
///
/// Position 0 is the least significant bit. An implementor says how wide it
/// is ([`width`](BitManip::width)), which number it holds
/// ([`value`](BitManip::value)), and how it goes to and from a `u128`; every
/// other method is provided, with its contract stated over those two and
/// over the functions of [`crate::model`].
pub trait BitManip: Sized {
    /// The number of bits of the type.
    spec fn width() -> nat;

    /// The number that the value holds.
    spec fn value(&self) -> nat;

    /// Every value holds a number of [`width`](BitManip::width) bits at
    /// most, and no type is wider than 128 bits.
    proof fn value_in_range(&self)
        ensures
            self.value() < pow2(Self::width()),
            Self::width() <= 128,
    ;

    /// Returns the number of bits of the type.
    fn bit_len() -> (len: u32)
        ensures
            len == Self::width(),
            len <= 128,
    ;

    /// Returns the value as a `u128`.
    fn to_word(&self) -> (word: u128)
        ensures
            word == self.value(),
            word < pow2(Self::width()),
    ;

    /// Returns the value of this type that holds `word`, which must have
    /// [`bit_len`](BitManip::bit_len) bits at most.
    fn from_word(word: u128) -> (made: Self)
        requires
            word < pow2(Self::width()),
        ensures
            made.value() == word,
    ;

    /// Gets the bit at position `pos`.
    ///
    /// # Errors
    ///
    /// [`Error::PosOutOfBounds`] if `pos` is not below
    /// [`bit_len`](BitManip::bit_len).
    fn bit_get(&self, pos: u32) -> (r: Result<bool, Error>)
        ensures
            match r {
                Ok(flag) => pos < Self::width() && flag == bit_at(self.value(), pos as nat),
                Err(e) => pos >= Self::width() && e == Error::PosOutOfBounds,
            },
    {
        if pos >= Self::bit_len() {
            Err(Error::PosOutOfBounds)
        } else {
            Ok(test_bit(self.to_word(), pos))
        }
    }

    /// Sets the bit at position `pos` to `val`, in place, and leaves every
    /// other bit as it was.
    ///
    /// # Errors
    ///
    /// [`Error::PosOutOfBounds`] if `pos` is not below
    /// [`bit_len`](BitManip::bit_len); the value is then unchanged.
    fn bit_set(&mut self, pos: u32, val: bool) -> (r: Result<&mut Self, Error>)
        ensures
            match r {
                Ok(this) => pos < Self::width() && this.value() == with_bit(
                    old(self).value(),
                    pos as nat,
                    val,
                ) && *final(this) == *final(self),
                Err(e) => pos >= Self::width() && e == Error::PosOutOfBounds && *final(self)
                    == *old(self),
            },
    {
        if pos >= Self::bit_len() {
            return Err(Error::PosOutOfBounds);
        }
        let word: u128 = self.to_word();
        proof {
            lemma_with_bit_bound(word as nat, Self::width(), pos as nat, val);
        }
        *self = Self::from_word(assign_bit(word, pos, val));
        Ok(self)
    }

    /// Equivalent to `bit_set(pos, true)`.
    ///
    /// # Errors
    ///
    /// [`Error::PosOutOfBounds`] if `pos` is not below
    /// [`bit_len`](BitManip::bit_len); the value is then unchanged.
    fn bit_on(&mut self, pos: u32) -> (r: Result<&mut Self, Error>)
        ensures
            match r {
                Ok(this) => pos < Self::width() && this.value() == with_bit(
                    old(self).value(),
                    pos as nat,
                    true,
                ) && *final(this) == *final(self),
                Err(e) => pos >= Self::width() && e == Error::PosOutOfBounds && *final(self)
                    == *old(self),
            },
    {
        self.bit_set(pos, true)
    }

    /// Equivalent to `bit_set(pos, false)`.
    ///
    /// # Errors
    ///
    /// [`Error::PosOutOfBounds`] if `pos` is not below
    /// [`bit_len`](BitManip::bit_len); the value is then unchanged.
    fn bit_off(&mut self, pos: u32) -> (r: Result<&mut Self, Error>)
        ensures
            match r {
                Ok(this) => pos < Self::width() && this.value() == with_bit(
                    old(self).value(),
                    pos as nat,
                    false,
                ) && *final(this) == *final(self),
                Err(e) => pos >= Self::width() && e == Error::PosOutOfBounds && *final(self)
                    == *old(self),
            },
    {
        self.bit_set(pos, false)
    }

    /// Flips the bit at position `pos`, in place, and leaves every other bit
    /// as it was.
    ///
    /// # Errors
    ///
    /// [`Error::PosOutOfBounds`] if `pos` is not below
    /// [`bit_len`](BitManip::bit_len); the value is then unchanged.
    fn bit_tog(&mut self, pos: u32) -> (r: Result<&mut Self, Error>)
        ensures
            match r {
                Ok(this) => pos < Self::width() && this.value() == with_bit_flipped(
                    old(self).value(),
                    pos as nat,
                ) && *final(this) == *final(self),
                Err(e) => pos >= Self::width() && e == Error::PosOutOfBounds && *final(self)
                    == *old(self),
            },
    {
        if pos >= Self::bit_len() {
            return Err(Error::PosOutOfBounds);
        }
        let word: u128 = self.to_word();
        proof {
            lemma_with_bit_bound(
                word as nat,
                Self::width(),
                pos as nat,
                !bit_at(word as nat, pos as nat),
            );
        }
        *self = Self::from_word(flip_bit(word, pos));
        Ok(self)
    }

    /// Converts the value into a `Vec<bool>` of [`bit_len`](BitManip::bit_len)
    /// flags, least significant bit first.
    fn bits(&self) -> (flags: Vec<bool>)
        ensures
            flags@.len() == Self::width(),
            flags@ == bits_of(self.value(), Self::width()),
    {
        to_flags(self.to_word(), Self::bit_len())
    }

    /// Returns every "on" position in the number, in ascending order.
    fn bit_ones(&self) -> (found: Vec<u32>)
        ensures
            found@.len() == bit_positions(self.value(), Self::width(), true).len(),
            forall|k: int|
                0 <= k < found@.len() ==> found@[k] == bit_positions(
                    self.value(),
                    Self::width(),
                    true,
                )[k],
    {
        flag_positions(self.to_word(), Self::bit_len(), true)
    }

    /// Returns every "off" position in the number, in ascending order.
    fn bit_zeros(&self) -> (found: Vec<u32>)
        ensures
            found@.len() == bit_positions(self.value(), Self::width(), false).len(),
            forall|k: int|
                0 <= k < found@.len() ==> found@[k] == bit_positions(
                    self.value(),
                    Self::width(),
                    false,
                )[k],
    {
        flag_positions(self.to_word(), Self::bit_len(), false)
    }

    /// Returns the lowest "on" position, or `None` if the value is zero.
    fn bit_first_one(&self) -> (first: Option<u32>)
        ensures
            first_bit_is(self.value(), Self::width(), true, first),
    {
        first_position(self.to_word(), Self::bit_len(), true)
    }

    /// Returns the lowest "off" position, or `None` if every bit is on.
    fn bit_first_zero(&self) -> (first: Option<u32>)
        ensures
            first_bit_is(self.value(), Self::width(), false, first),
    {
        first_position(self.to_word(), Self::bit_len(), false)
    }

    /// Gets the bits of the value in the given range between `start` and
    /// `end`, moved down to position 0.
    ///
    /// `start` is inclusive, and `end` is exclusive: a range between 2 and 4
    /// is 2 bits long, and includes positions 2 and 3.
    ///
    /// # Panics
    ///
    /// Where nothing has verified the call, this method panics if
    /// `start >= end` or if `end` is larger than
    /// [`bit_len`](BitManip::bit_len).
    fn get_bit_range(&self, start: u32, end: u32) -> (r: Self)
        requires
            start < end <= Self::width(),
        ensures
            r.value() == bit_range(self.value(), start as nat, end as nat),
    {
        runtime_assert(start < end && end <= Self::bit_len());
        let word: u128 = self.to_word();
        proof {
            lemma_bit_range_bound(word as nat, start as nat, end as nat);
            lemma_pow2_monotonic((end - start) as nat, Self::width());
        }
        Self::from_word(extract_range(word, start, end))
    }

    /// Returns a new value with the bits in the given range between `start`
    /// and `end` set to the given value.
    ///
    /// If the value is too big to be contained in the range, any excess bits
    /// are ignored.
    ///
    /// `start` is inclusive, and `end` is exclusive: a range between 2 and 4
    /// is 2 bits long, and includes positions 2 and 3.
    ///
    /// # Panics
    ///
    /// Where nothing has verified the call, this method panics if
    /// `start >= end` or if `end` is larger than
    /// [`bit_len`](BitManip::bit_len).
    fn set_bit_range(&self, start: u32, end: u32, val: Self) -> (r: Self)
        requires
            start < end <= Self::width(),
        ensures
            r.value() == with_bit_range(self.value(), start as nat, end as nat, val.value()),
    {
        runtime_assert(start < end && end <= Self::bit_len());
        let word: u128 = self.to_word();
        let insert: u128 = val.to_word();
        proof {
            lemma_with_bit_range_bound(
                word as nat,
                Self::width(),
                start as nat,
                end as nat,
                insert as nat,
            );
        }
        Self::from_word(insert_range(word, start, end, insert))
    }

    /// Shifts left by `rhs` if `rhs` is positive, or right by `-rhs` if
    /// `rhs` is negative. Bits shifted out are lost: a shift by
    /// [`bit_len`](BitManip::bit_len) or more gives zero.
    fn signed_left_shift(&self, rhs: i32) -> (r: Self)
        ensures
            r.value() == signed_shifted_left(self.value(), Self::width(), rhs as int),
    {
        let word: u128 = self.to_word();
        let distance: u32 = magnitude(rhs);
        proof {
            lemma_shifted_bound(word as nat, Self::width(), distance as nat);
        }
        if rhs < 0 {
            Self::from_word(shift_right(word, distance))
        } else {
            Self::from_word(shift_left(word, Self::bit_len(), distance))
        }
    }

    /// Shifts right by `rhs` if `rhs` is positive, or left by `-rhs` if
    /// `rhs` is negative. Bits shifted out are lost: a shift by
    /// [`bit_len`](BitManip::bit_len) or more gives zero.
    fn signed_right_shift(&self, rhs: i32) -> (r: Self)
        ensures
            r.value() == signed_shifted_right(self.value(), Self::width(), rhs as int),
    {
        let word: u128 = self.to_word();
        let distance: u32 = magnitude(rhs);
        proof {
            lemma_shifted_bound(word as nat, Self::width(), distance as nat);
        }
        if rhs < 0 {
            Self::from_word(shift_left(word, Self::bit_len(), distance))
        } else {
            Self::from_word(shift_right(word, distance))
        }
    }

    /// Reverses the order of all [`bit_len`](BitManip::bit_len) bits, in
    /// place: bit `i` and bit `bit_len() - 1 - i` change places.
    fn bit_rev(&mut self) -> (r: &mut Self)
        ensures
            r.value() == reversed(old(self).value(), Self::width()),
            *final(r) == *final(self),
    {
        let word: u128 = self.to_word();
        proof {
            lemma_from_bits_bound(bits_of(word as nat, Self::width()).reverse());
        }
        *self = Self::from_word(reverse_bits(word, Self::bit_len()));
        self
    }
}

impl BitManip for u8 {
    open spec fn width() -> nat {
        8
    }

    open spec fn value(&self) -> nat {
        *self as nat
    }

    proof fn value_in_range(&self) {
        lemma2_to64();
    }

    fn bit_len() -> (len: u32) {
        u8::BITS
    }

    fn to_word(&self) -> (word: u128) {
        proof {
            lemma2_to64();
        }
        *self as u128
    }

    fn from_word(word: u128) -> (made: Self) {
        proof {
            lemma2_to64();
        }
        word as u8
    }
}

impl BitManip for u16 {
    open spec fn width() -> nat {
        16
    }

    open spec fn value(&self) -> nat {
        *self as nat
    }

    proof fn value_in_range(&self) {
        lemma2_to64();
    }

    fn bit_len() -> (len: u32) {
        u16::BITS
    }

    fn to_word(&self) -> (word: u128) {
        proof {
            lemma2_to64();
        }
        *self as u128
    }

    fn from_word(word: u128) -> (made: Self) {
        proof {
            lemma2_to64();
        }
        word as u16
    }
}

impl BitManip for u32 {
    open spec fn width() -> nat {
        32
    }

    open spec fn value(&self) -> nat {
        *self as nat
    }

    proof fn value_in_range(&self) {
        lemma2_to64();
    }

    fn bit_len() -> (len: u32) {
        u32::BITS
    }

    fn to_word(&self) -> (word: u128) {
        proof {
            lemma2_to64();
        }
        *self as u128
    }

    fn from_word(word: u128) -> (made: Self) {
        proof {
            lemma2_to64();
        }
        word as u32
    }
}

impl BitManip for u64 {
    open spec fn width() -> nat {
        64
    }

    open spec fn value(&self) -> nat {
        *self as nat
    }

    proof fn value_in_range(&self) {
        lemma2_to64();
    }

    fn bit_len() -> (len: u32) {
        u64::BITS
    }

    fn to_word(&self) -> (word: u128) {
        proof {
            lemma2_to64();
        }
        *self as u128
    }

    fn from_word(word: u128) -> (made: Self) {
        proof {
            lemma2_to64();
        }
        word as u64
    }
}

impl BitManip for u128 {
    open spec fn width() -> nat {
        128
    }

    open spec fn value(&self) -> nat {
        *self as nat
    }

    proof fn value_in_range(&self) {
        lemma_pow2_128();
    }

    fn bit_len() -> (len: u32) {
        u128::BITS
    }

    fn to_word(&self) -> (word: u128) {
        proof {
            lemma_pow2_128();
        }
        *self
    }

    fn from_word(word: u128) -> (made: Self) {
        proof {
            lemma_pow2_128();
        }
        word
    }
}

impl BitManip for usize {
    open spec fn width() -> nat {
        usize::BITS as nat
    }

    open spec fn value(&self) -> nat {
        *self as nat
    }

    proof fn value_in_range(&self) {
        lemma2_to64();
    }

    fn bit_len() -> (len: u32) {
        usize::BITS
    }

    fn to_word(&self) -> (word: u128) {
        proof {
            lemma2_to64();
        }
        *self as u128
    }

    fn from_word(word: u128) -> (made: Self) {
        proof {
            lemma2_to64();
        }
        word as usize
    }
}

} // verus!
