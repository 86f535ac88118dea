//! The mathematical model behind every contract of this crate.
//!
//! An unsigned integer is modelled by the natural number it holds, a bit
//! pattern by a `Seq<bool>` whose index 0 is the least significant bit.
//! [`bits_of`] and [`from_bits`] lead from one to the other.
//!
//! The arithmetic is that of powers of two. A proof about given numbers gets
//! the powers it needs from `vstd::arithmetic::power2::lemma2_to64`.

use vstd::arithmetic::power2::pow2;
use vstd::prelude::*;

verus! {

/// Whether bit `pos` of `n` is set. Position 0 is the least significant bit.
pub open spec fn bit_at(n: nat, pos: nat) -> bool {
    (n / pow2(pos)) % 2 == 1
}

/// The lowest `width` bits of `n`, least significant first.
pub open spec fn bits_of(n: nat, width: nat) -> Seq<bool> {
    Seq::new(width, |i: int| bit_at(n, i as nat))
}

/// The number whose bit `i` is `bits[i]`, and whose bits from `bits.len()`
/// upward are clear.
pub open spec fn from_bits(bits: Seq<bool>) -> nat
    decreases bits.len(),
{
    if bits.len() == 0 {
        0
    } else {
        let high: nat = if bits.last() {
            pow2((bits.len() - 1) as nat)
        } else {
            0
        };
        from_bits(bits.drop_last()) + high
    }
}

/// The indices at which `bits` holds `flag`, in ascending order.
pub open spec fn positions_of(bits: Seq<bool>, flag: bool) -> Seq<int>
    decreases bits.len(),
{
    if bits.len() == 0 {
        Seq::empty()
    } else {
        let earlier = positions_of(bits.drop_last(), flag);
        if bits.last() == flag {
            earlier.push(bits.len() - 1)
        } else {
            earlier
        }
    }
}

/// Whether `bits` holds `true` nowhere at or beyond index `width`, so that
/// the number it stands for has `width` bits at most.
pub open spec fn fits_width(bits: Seq<bool>, width: nat) -> bool {
    forall|i: int| width <= i < bits.len() ==> !#[trigger] bits[i]
}

/// `n` with bit `pos` forced to `flag` and every other bit kept.
pub open spec fn with_bit(n: nat, pos: nat, flag: bool) -> nat {
    if bit_at(n, pos) == flag {
        n
    } else if flag {
        n + pow2(pos)
    } else {
        (n - pow2(pos)) as nat
    }
}

/// `n` with bit `pos` flipped and every other bit kept.
pub open spec fn with_bit_flipped(n: nat, pos: nat) -> nat {
    with_bit(n, pos, !bit_at(n, pos))
}

/// Bits `start..end` of `n`, moved down so that bit `start` becomes bit 0.
pub open spec fn bit_range(n: nat, start: nat, end: nat) -> nat {
    (n / pow2(start)) % pow2((end - start) as nat)
}

/// `n` with bits `start..end` replaced by the lowest `end - start` bits of
/// `insert` and every other bit kept: the bits of `n` below `start`, then
/// those of `insert`, then the bits of `n` from `end` upward.
pub open spec fn with_bit_range(n: nat, start: nat, end: nat, insert: nat) -> nat {
    n % pow2(start) + (insert % pow2((end - start) as nat)) * pow2(start) + (n / pow2(end)) * pow2(
        end,
    )
}

/// `n` shifted left by `amount` inside a word of `width` bits: bits that
/// leave the word at its high end are lost.
pub open spec fn shifted_left(n: nat, width: nat, amount: nat) -> nat {
    (n * pow2(amount)) % pow2(width)
}

/// `n` shifted right by `amount`: the lowest `amount` bits are lost.
pub open spec fn shifted_right(n: nat, amount: nat) -> nat {
    n / pow2(amount)
}

/// A left shift by a signed `amount`: to the right when it is negative.
pub open spec fn signed_shifted_left(n: nat, width: nat, amount: int) -> nat {
    if amount < 0 {
        shifted_right(n, (-amount) as nat)
    } else {
        shifted_left(n, width, amount as nat)
    }
}

/// A right shift by a signed `amount`: to the left when it is negative.
pub open spec fn signed_shifted_right(n: nat, width: nat, amount: int) -> nat {
    if amount < 0 {
        shifted_left(n, width, (-amount) as nat)
    } else {
        shifted_right(n, amount as nat)
    }
}

/// `n` with its lowest `width` bits in reverse order: bit `i` and bit
/// `width - 1 - i` change places.
pub open spec fn reversed(n: nat, width: nat) -> nat {
    from_bits(bits_of(n, width).reverse())
}

/// The positions below `width` at which `n` holds `flag`, in ascending
/// order.
pub open spec fn bit_positions(n: nat, width: nat, flag: bool) -> Seq<int>
    decreases width,
{
    if width == 0 {
        Seq::empty()
    } else {
        let earlier = bit_positions(n, (width - 1) as nat, flag);
        if bit_at(n, (width - 1) as nat) == flag {
            earlier.push(width - 1)
        } else {
            earlier
        }
    }
}

/// Whether `first` is the answer to "which is the lowest position below
/// `width` at which `n` holds `flag`?": that position, or `None` when `n`
/// holds `flag` nowhere below `width`.
pub open spec fn first_bit_is(n: nat, width: nat, flag: bool, first: Option<u32>) -> bool {
    match first {
        Some(pos) => pos < width && bit_at(n, pos as nat) == flag && forall|j: nat|
            j < pos ==> bit_at(n, j) != flag,
        None => forall|j: nat| j < width ==> bit_at(n, j) != flag,
    }
}

/// `bits` without its trailing `false` entries: it ends with its last
/// `true`, or is empty when it holds none.
pub open spec fn trimmed(bits: Seq<bool>) -> Seq<bool>
    decreases bits.len(),
{
    if bits.len() == 0 || bits.last() {
        bits
    } else {
        trimmed(bits.drop_last())
    }
}

} // verus!
