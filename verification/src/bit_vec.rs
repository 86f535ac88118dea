//! Bit operations on vectors of flags.

use crate::error::Error;
use crate::model::{fits_width, from_bits, positions_of, trimmed};
use crate::word::pack_flags;
use vstd::arithmetic::power2::lemma2_to64;
use vstd::pervasive::unreached;
use vstd::prelude::*;

verus! {

/// Returns the indices at which `flags` holds `flag`, in ascending order.
fn indices_of(flags: &Vec<bool>, flag: bool) -> (found: Vec<usize>)
    ensures
        found@.len() == positions_of(flags@, flag).len(),
        forall|k: int| 0 <= k < found@.len() ==> found@[k] == positions_of(flags@, flag)[k],
{
    let mut found: Vec<usize> = Vec::new();
    let mut i: usize = 0;
    while i < flags.len()
        invariant
            i <= flags.len(),
            found@.len() == positions_of(flags@.take(i as int), flag).len(),
            forall|k: int|
                0 <= k < found@.len() ==> found@[k] == positions_of(flags@.take(i as int), flag)[k],
        decreases flags.len() - i,
    {
        proof {
            assert(flags@.take(i + 1).drop_last() =~= flags@.take(i as int));
        }
        if flags[i] == flag {
            found.push(i);
        }
        i += 1;
    }
    proof {
        assert(flags@.take(flags.len() as int) =~= flags@);
    }
    found
}

/// A trait that provides additional helper methods on `Vec<bool>`.
///
/// The vector is read as a bit pattern with the least significant bit
/// first: index 0 is bit 0. Its view is the pattern, and the contracts are
/// stated over it and over the functions of [`crate::model`].
pub trait BitVec: View<V = Seq<bool>> + Sized {
    /// Returns all positions that are `true`, in ascending order.
    fn ones(&self) -> (found: Vec<usize>)
        ensures
            found@.len() == positions_of(self@, true).len(),
            forall|k: int| 0 <= k < found@.len() ==> found@[k] == positions_of(self@, true)[k],
    ;

    /// Returns all positions that are `false`, in ascending order.
    fn zeroes(&self) -> (found: Vec<usize>)
        ensures
            found@.len() == positions_of(self@, false).len(),
            forall|k: int| 0 <= k < found@.len() ==> found@[k] == positions_of(self@, false)[k],
    ;

    /// Sets a particular position in the vector to a specific boolean.
    ///
    /// Code that also imports the prelude of `vstd` finds two methods of
    /// this name on a vector, and calls this one as `BitVec::set(&mut v, ..)`.
    ///
    /// # Errors
    ///
    /// [`Error::PosOutOfBounds`] if `pos` is not below the length; the
    /// vector is then unchanged: it never grows.
    fn set(&mut self, pos: usize, val: bool) -> (r: Result<&mut Self, Error>)
        ensures
            match r {
                Ok(this) => pos < old(self)@.len() && this@ == old(self)@.update(pos as int, val)
                    && *final(this) == *final(self),
                Err(e) => pos >= old(self)@.len() && e == Error::PosOutOfBounds && *final(self)
                    == *old(self),
            },
    ;

    /// Equivalent to `set(pos, true)`.
    ///
    /// # Errors
    ///
    /// [`Error::PosOutOfBounds`] if `pos` is not below the length; the
    /// vector is then unchanged.
    fn set_on(&mut self, pos: usize) -> (r: Result<&mut Self, Error>)
        ensures
            match r {
                Ok(this) => pos < old(self)@.len() && this@ == old(self)@.update(pos as int, true)
                    && *final(this) == *final(self),
                Err(e) => pos >= old(self)@.len() && e == Error::PosOutOfBounds && *final(self)
                    == *old(self),
            },
    {
        self.set(pos, true)
    }

    /// Equivalent to `set(pos, false)`.
    ///
    /// # Errors
    ///
    /// [`Error::PosOutOfBounds`] if `pos` is not below the length; the
    /// vector is then unchanged.
    fn set_off(&mut self, pos: usize) -> (r: Result<&mut Self, Error>)
        ensures
            match r {
                Ok(this) => pos < old(self)@.len() && this@ == old(self)@.update(pos as int, false)
                    && *final(this) == *final(self),
                Err(e) => pos >= old(self)@.len() && e == Error::PosOutOfBounds && *final(self)
                    == *old(self),
            },
    {
        self.set(pos, false)
    }

    /// Trims any trailing `false` values from the vector.
    fn trim(&mut self) -> (r: &mut Self)
        ensures
            r@ == trimmed(old(self)@),
            *final(r) == *final(self),
    ;

    /// Toggles a particular position in the vector.
    ///
    /// # Errors
    ///
    /// [`Error::PosOutOfBounds`] if `pos` is not below the length; the
    /// vector is then unchanged.
    fn toggle(&mut self, pos: usize) -> (r: Result<&mut Self, Error>)
        ensures
            match r {
                Ok(this) => pos < old(self)@.len() && this@ == old(self)@.update(
                    pos as int,
                    !old(self)@[pos as int],
                ) && *final(this) == *final(self),
                Err(e) => pos >= old(self)@.len() && e == Error::PosOutOfBounds && *final(self)
                    == *old(self),
            },
    ;

    /// Converts the vector into a `u8`. The vector does not have to be the
    /// exact size of the type.
    ///
    /// # Panics
    ///
    /// Where nothing has verified the call, this method panics if a position
    /// at or beyond the 8 bits of the type is `true`.
    fn into_u8(self) -> (r: u8)
        requires
            fits_width(self@, 8),
        ensures
            r == from_bits(self@),
    {
        match self.try_into_u8() {
            Ok(v) => v,
            Err(_) => unreached(),
        }
    }

    /// Converts the vector into a `u16`. The vector does not have to be the
    /// exact size of the type.
    ///
    /// # Panics
    ///
    /// Where nothing has verified the call, this method panics if a position
    /// at or beyond the 16 bits of the type is `true`.
    fn into_u16(self) -> (r: u16)
        requires
            fits_width(self@, 16),
        ensures
            r == from_bits(self@),
    {
        match self.try_into_u16() {
            Ok(v) => v,
            Err(_) => unreached(),
        }
    }

    /// Converts the vector into a `u32`. The vector does not have to be the
    /// exact size of the type.
    ///
    /// # Panics
    ///
    /// Where nothing has verified the call, this method panics if a position
    /// at or beyond the 32 bits of the type is `true`.
    fn into_u32(self) -> (r: u32)
        requires
            fits_width(self@, 32),
        ensures
            r == from_bits(self@),
    {
        match self.try_into_u32() {
            Ok(v) => v,
            Err(_) => unreached(),
        }
    }

    /// Converts the vector into a `u64`. The vector does not have to be the
    /// exact size of the type.
    ///
    /// # Panics
    ///
    /// Where nothing has verified the call, this method panics if a position
    /// at or beyond the 64 bits of the type is `true`.
    fn into_u64(self) -> (r: u64)
        requires
            fits_width(self@, 64),
        ensures
            r == from_bits(self@),
    {
        match self.try_into_u64() {
            Ok(v) => v,
            Err(_) => unreached(),
        }
    }

    /// Converts the vector into a `u128`. The vector does not have to be the
    /// exact size of the type.
    ///
    /// # Panics
    ///
    /// Where nothing has verified the call, this method panics if a position
    /// at or beyond the 128 bits of the type is `true`.
    fn into_u128(self) -> (r: u128)
        requires
            fits_width(self@, 128),
        ensures
            r == from_bits(self@),
    {
        match self.try_into_u128() {
            Ok(v) => v,
            Err(_) => unreached(),
        }
    }

    /// Converts the vector into a `usize`. The vector does not have to be the
    /// exact size of the type.
    ///
    /// # Panics
    ///
    /// Where nothing has verified the call, this method panics if a position
    /// at or beyond the `usize::BITS` bits of the type is `true`.
    fn into_usize(self) -> (r: usize)
        requires
            fits_width(self@, usize::BITS as nat),
        ensures
            r == from_bits(self@),
    {
        match self.try_into_usize() {
            Ok(v) => v,
            Err(_) => unreached(),
        }
    }

    /// Attempts to convert the vector into a `u8`. The vector does not have
    /// to be the exact size of the type.
    ///
    /// # Errors
    ///
    /// [`Error::ConversionOverflow`] if a position at or beyond the 8 bits
    /// of the type is `true`.
    fn try_into_u8(self) -> (r: Result<u8, Error>)
        ensures
            match r {
                Ok(v) => fits_width(self@, 8) && v == from_bits(self@),
                Err(e) => !fits_width(self@, 8) && e == Error::ConversionOverflow,
            },
    ;

    /// Attempts to convert the vector into a `u16`. The vector does not have
    /// to be the exact size of the type.
    ///
    /// # Errors
    ///
    /// [`Error::ConversionOverflow`] if a position at or beyond the 16 bits
    /// of the type is `true`.
    fn try_into_u16(self) -> (r: Result<u16, Error>)
        ensures
            match r {
                Ok(v) => fits_width(self@, 16) && v == from_bits(self@),
                Err(e) => !fits_width(self@, 16) && e == Error::ConversionOverflow,
            },
    ;

    /// Attempts to convert the vector into a `u32`. The vector does not have
    /// to be the exact size of the type.
    ///
    /// # Errors
    ///
    /// [`Error::ConversionOverflow`] if a position at or beyond the 32 bits
    /// of the type is `true`.
    fn try_into_u32(self) -> (r: Result<u32, Error>)
        ensures
            match r {
                Ok(v) => fits_width(self@, 32) && v == from_bits(self@),
                Err(e) => !fits_width(self@, 32) && e == Error::ConversionOverflow,
            },
    ;

    /// Attempts to convert the vector into a `u64`. The vector does not have
    /// to be the exact size of the type.
    ///
    /// # Errors
    ///
    /// [`Error::ConversionOverflow`] if a position at or beyond the 64 bits
    /// of the type is `true`.
    fn try_into_u64(self) -> (r: Result<u64, Error>)
        ensures
            match r {
                Ok(v) => fits_width(self@, 64) && v == from_bits(self@),
                Err(e) => !fits_width(self@, 64) && e == Error::ConversionOverflow,
            },
    ;

    /// Attempts to convert the vector into a `u128`. The vector does not have
    /// to be the exact size of the type.
    ///
    /// # Errors
    ///
    /// [`Error::ConversionOverflow`] if a position at or beyond the 128 bits
    /// of the type is `true`.
    fn try_into_u128(self) -> (r: Result<u128, Error>)
        ensures
            match r {
                Ok(v) => fits_width(self@, 128) && v == from_bits(self@),
                Err(e) => !fits_width(self@, 128) && e == Error::ConversionOverflow,
            },
    ;

    /// Attempts to convert the vector into a `usize`. The vector does not have
    /// to be the exact size of the type.
    ///
    /// # Errors
    ///
    /// [`Error::ConversionOverflow`] if a position at or beyond the
    /// `usize::BITS` bits of the type is `true`.
    fn try_into_usize(self) -> (r: Result<usize, Error>)
        ensures
            match r {
                Ok(v) => fits_width(self@, usize::BITS as nat) && v == from_bits(self@),
                Err(e) => !fits_width(self@, usize::BITS as nat) && e
                    == Error::ConversionOverflow,
            },
    ;
}

impl BitVec for Vec<bool> {
    fn ones(&self) -> (found: Vec<usize>) {
        indices_of(self, true)
    }

    fn zeroes(&self) -> (found: Vec<usize>) {
        indices_of(self, false)
    }

    fn set(&mut self, pos: usize, val: bool) -> (r: Result<&mut Self, Error>) {
        if pos >= self.len() {
            return Err(Error::PosOutOfBounds);
        }
        self[pos] = val;
        Ok(self)
    }

    fn trim(&mut self) -> (r: &mut Self) {
        while self.len() > 0 && !self[self.len() - 1]
            invariant
                trimmed(self@) == trimmed(old(self)@),
            decreases self.len(),
        {
            self.pop();
        }
        self
    }

    fn toggle(&mut self, pos: usize) -> (r: Result<&mut Self, Error>) {
        if pos >= self.len() {
            return Err(Error::PosOutOfBounds);
        }
        let flipped: bool = !self[pos];
        self[pos] = flipped;
        Ok(self)
    }

    fn try_into_u8(self) -> (r: Result<u8, Error>) {
        proof {
            lemma2_to64();
        }
        match pack_flags(&self, u8::BITS) {
            Some(word) => Ok(word as u8),
            None => Err(Error::ConversionOverflow),
        }
    }

    fn try_into_u16(self) -> (r: Result<u16, Error>) {
        proof {
            lemma2_to64();
        }
        match pack_flags(&self, u16::BITS) {
            Some(word) => Ok(word as u16),
            None => Err(Error::ConversionOverflow),
        }
    }

    fn try_into_u32(self) -> (r: Result<u32, Error>) {
        proof {
            lemma2_to64();
        }
        match pack_flags(&self, u32::BITS) {
            Some(word) => Ok(word as u32),
            None => Err(Error::ConversionOverflow),
        }
    }

    fn try_into_u64(self) -> (r: Result<u64, Error>) {
        proof {
            lemma2_to64();
        }
        match pack_flags(&self, u64::BITS) {
            Some(word) => Ok(word as u64),
            None => Err(Error::ConversionOverflow),
        }
    }

    fn try_into_u128(self) -> (r: Result<u128, Error>) {
        match pack_flags(&self, u128::BITS) {
            Some(word) => Ok(word),
            None => Err(Error::ConversionOverflow),
        }
    }

    fn try_into_usize(self) -> (r: Result<usize, Error>) {
        proof {
            lemma2_to64();
        }
        match pack_flags(&self, usize::BITS) {
            Some(word) => Ok(word as usize),
            None => Err(Error::ConversionOverflow),
        }
    }
}

} // verus!
