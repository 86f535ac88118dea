//! What holds between the operations of the crate, whatever the value.
//!
//! Each law is stated over the functions of [`crate::model`], which are the
//! ones that the contracts of the operations speak of. Where a law names a
//! `width`, it is the number of bits of the integer type at hand.

use crate::lemmas::{
    lemma_below_own_power, lemma_bit_at_above, lemma_bit_at_bit_range, lemma_bit_at_from_bits,
    lemma_bit_at_shifted_left, lemma_bit_at_shifted_right, lemma_bit_at_with_bit,
    lemma_bit_at_with_bit_range, lemma_bit_range_bound, lemma_bits_from_bound,
    lemma_bits_of_from_bits, lemma_bound_from_bits, lemma_equal_bits_equal,
    lemma_from_bits_bound, lemma_from_bits_of_small, lemma_with_bit_bound,
};
use crate::model::{
    bit_at, bit_positions, bit_range, bits_of, first_bit_is, fits_width, from_bits, positions_of,
    reversed, shifted_left, shifted_right, signed_shifted_left, signed_shifted_right, trimmed,
    with_bit, with_bit_flipped, with_bit_range,
};
use vstd::arithmetic::div_mod::lemma_small_mod;
use vstd::arithmetic::power2::{lemma2_to64, pow2};
use vstd::prelude::*;

verus! {

// Numbers and bit sequences

/// A value of `width` bits is the number that its bit sequence stands for,
/// and a bit sequence is the bit sequence of the number it stands for.
pub proof fn law_bits_round_trip(n: nat, bits: Seq<bool>)
    ensures
        from_bits(bits) < pow2(bits.len()),
        bits_of(from_bits(bits), bits.len()) == bits,
        forall|width: nat| n < pow2(width) ==> from_bits(#[trigger] bits_of(n, width)) == n,
{
    lemma_from_bits_bound(bits);
    lemma_bits_of_from_bits(bits);
    assert forall|width: nat| n < pow2(width) implies from_bits(#[trigger] bits_of(n, width))
        == n by {
        lemma_from_bits_of_small(n, width);
    }
}

// What each operation does to the bit sequence

/// Forcing a bit of a value updates its bit sequence at that position.
pub proof fn law_bits_of_with_bit(n: nat, width: nat, pos: nat, flag: bool)
    requires
        pos < width,
    ensures
        bits_of(with_bit(n, pos, flag), width) == bits_of(n, width).update(pos as int, flag),
{
    assert forall|i: int| 0 <= i < width implies bits_of(with_bit(n, pos, flag), width)[i]
        == bits_of(n, width).update(pos as int, flag)[i] by {
        lemma_bit_at_with_bit(n, pos, flag, i as nat);
    }
    assert(bits_of(with_bit(n, pos, flag), width) =~= bits_of(n, width).update(pos as int, flag));
}

/// The bit sequence of a range of bits is that stretch of the value's bit
/// sequence.
pub proof fn law_bits_of_bit_range(n: nat, width: nat, start: nat, end: nat)
    requires
        start <= end <= width,
    ensures
        bits_of(bit_range(n, start, end), (end - start) as nat) == bits_of(n, width).subrange(
            start as int,
            end as int,
        ),
{
    let len = (end - start) as nat;
    assert forall|i: int| 0 <= i < len implies bits_of(bit_range(n, start, end), len)[i]
        == bits_of(n, width).subrange(start as int, end as int)[i] by {
        lemma_bit_at_bit_range(n, start, end, i as nat);
    }
    assert(bits_of(bit_range(n, start, end), len) =~= bits_of(n, width).subrange(
        start as int,
        end as int,
    ));
}

/// The bit sequence of a value with a range replaced is made of three
/// stretches: the value's bits below the range, the lowest bits of what was
/// put there, and the value's bits above the range.
pub proof fn law_bits_of_with_bit_range(n: nat, width: nat, start: nat, end: nat, insert: nat)
    requires
        start <= end <= width,
    ensures
        bits_of(with_bit_range(n, start, end, insert), width) == bits_of(n, width).subrange(
            0,
            start as int,
        ) + bits_of(insert, (end - start) as nat) + bits_of(n, width).subrange(
            end as int,
            width as int,
        ),
{
    let made = bits_of(with_bit_range(n, start, end, insert), width);
    let joined = bits_of(n, width).subrange(0, start as int) + bits_of(
        insert,
        (end - start) as nat,
    ) + bits_of(n, width).subrange(end as int, width as int);
    assert forall|i: int| 0 <= i < width implies made[i] == joined[i] by {
        lemma_bit_at_with_bit_range(n, start, end, insert, i as nat);
    }
    assert(made =~= joined);
}

/// A left shift moves every bit of the bit sequence up by `amount` and
/// fills the low end with clear bits.
pub proof fn law_bits_of_shifted_left(n: nat, width: nat, amount: nat)
    ensures
        bits_of(shifted_left(n, width, amount), width) == Seq::new(
            width,
            |i: int| i >= amount && bits_of(n, width)[i - amount],
        ),
{
    let moved = Seq::new(width, |i: int| i >= amount && bits_of(n, width)[i - amount]);
    assert forall|i: int| 0 <= i < width implies bits_of(shifted_left(n, width, amount), width)[i]
        == moved[i] by {
        lemma_bit_at_shifted_left(n, width, amount, i as nat);
    }
    assert(bits_of(shifted_left(n, width, amount), width) =~= moved);
}

/// A right shift moves every bit of the bit sequence down by `amount` and
/// fills the high end with clear bits.
pub proof fn law_bits_of_shifted_right(n: nat, width: nat, amount: nat)
    requires
        n < pow2(width),
    ensures
        bits_of(shifted_right(n, amount), width) == Seq::new(
            width,
            |i: int| i + amount < width && bits_of(n, width)[i + amount],
        ),
{
    let moved = Seq::new(width, |i: int| i + amount < width && bits_of(n, width)[i + amount]);
    lemma_bits_from_bound(n, width);
    assert forall|i: int| 0 <= i < width implies bits_of(shifted_right(n, amount), width)[i]
        == moved[i] by {
        lemma_bit_at_shifted_right(n, amount, i as nat);
    }
    assert(bits_of(shifted_right(n, amount), width) =~= moved);
}

/// The bit sequence of a reversed value is the value's bit sequence in
/// reverse.
pub proof fn law_bits_of_reversed(n: nat, width: nat)
    ensures
        bits_of(reversed(n, width), width) == bits_of(n, width).reverse(),
        reversed(n, width) < pow2(width),
{
    lemma_bits_of_from_bits(bits_of(n, width).reverse());
    lemma_from_bits_bound(bits_of(n, width).reverse());
}

// Operations that undo or repeat each other

/// Reading a bit that was just set gives the flag it was set to, every
/// other bit reads as before, and the value still has `width` bits.
pub proof fn law_set_then_get(n: nat, width: nat, pos: nat, flag: bool)
    requires
        n < pow2(width),
        pos < width,
    ensures
        with_bit(n, pos, flag) < pow2(width),
        bit_at(with_bit(n, pos, flag), pos) == flag,
        forall|i: nat| i != pos ==> bit_at(with_bit(n, pos, flag), i) == bit_at(n, i),
{
    lemma_with_bit_bound(n, width, pos, flag);
    assert forall|i: nat| true implies bit_at(with_bit(n, pos, flag), i) == (if i == pos {
        flag
    } else {
        bit_at(n, i)
    }) by {
        lemma_bit_at_with_bit(n, pos, flag, i);
    }
}

/// Flipping a bit twice gives the value back.
pub proof fn law_flip_twice(n: nat, pos: nat)
    ensures
        with_bit_flipped(with_bit_flipped(n, pos), pos) == n,
{
    lemma_bit_at_with_bit(n, pos, !bit_at(n, pos), pos);
    if n < pow2(pos) {
        lemma_bit_at_above(n, pos);
    }
}

/// Reversing the bits of a value twice gives the value back.
pub proof fn law_reverse_twice(n: nat, width: nat)
    requires
        n < pow2(width),
    ensures
        reversed(reversed(n, width), width) == n,
{
    let turned = bits_of(n, width).reverse();
    lemma_bits_of_from_bits(turned);
    assert(turned.reverse() =~= bits_of(n, width));
    lemma_from_bits_of_small(n, width);
}

/// Putting a range of bits back where it was read leaves the value as it
/// was.
pub proof fn law_range_round_trip(n: nat, start: nat, end: nat)
    requires
        start < end,
    ensures
        with_bit_range(n, start, end, bit_range(n, start, end)) == n,
{
    let made = with_bit_range(n, start, end, bit_range(n, start, end));
    assert forall|i: nat| true implies bit_at(made, i) == bit_at(n, i) by {
        lemma_bit_at_with_bit_range(n, start, end, bit_range(n, start, end), i);
        if start <= i < end {
            lemma_bit_at_bit_range(n, start, end, (i - start) as nat);
        }
    }
    lemma_below_own_power(n);
    lemma_bits_from_bound(n, n);
    lemma_bound_from_bits(made, n);
    lemma_equal_bits_equal(made, n, n);
}

/// Reading a range of bits that was just replaced gives the lowest bits of
/// what was put there.
pub proof fn law_range_set_then_get(n: nat, start: nat, end: nat, insert: nat)
    requires
        start < end,
    ensures
        bit_range(with_bit_range(n, start, end, insert), start, end) == insert % pow2(
            (end - start) as nat,
        ),
{
    let len = (end - start) as nat;
    let read = bit_range(with_bit_range(n, start, end, insert), start, end);
    let low = bit_range(insert, 0, len);
    assert forall|i: nat| i < len implies bit_at(read, i) == bit_at(low, i) by {
        lemma_bit_at_bit_range(with_bit_range(n, start, end, insert), start, end, i);
        lemma_bit_at_with_bit_range(n, start, end, insert, start + i);
        lemma_bit_at_bit_range(insert, 0, len, i);
    }
    lemma_bit_range_bound(with_bit_range(n, start, end, insert), start, end);
    lemma_bit_range_bound(insert, 0, len);
    lemma_equal_bits_equal(read, low, len);
    lemma2_to64();
}

/// A signed left shift by `-amount` is a signed right shift by `amount`.
pub proof fn law_signed_shifts_mirror(n: nat, width: nat, amount: int)
    requires
        n < pow2(width),
    ensures
        signed_shifted_left(n, width, -amount) == signed_shifted_right(n, width, amount),
{
    if amount == 0 {
        lemma2_to64();
        lemma_small_mod(n, pow2(width));
    }
}

// Positions of set and clear bits

/// The positions of a flag are exactly the indices that hold it, each once
/// and in ascending order.
pub proof fn law_positions_exact(bits: Seq<bool>, flag: bool)
    ensures
        forall|k: int|
            0 <= k < positions_of(bits, flag).len() ==> 0 <= #[trigger] positions_of(bits, flag)[k]
                < bits.len() && bits[positions_of(bits, flag)[k]] == flag,
        forall|i: int|
            0 <= i < bits.len() && #[trigger] bits[i] == flag ==> positions_of(
                bits,
                flag,
            ).contains(i),
        forall|j: int, k: int|
            0 <= j < k < positions_of(bits, flag).len() ==> positions_of(bits, flag)[j]
                < positions_of(bits, flag)[k],
    decreases bits.len(),
{
    if bits.len() > 0 {
        let shorter = bits.drop_last();
        let earlier = positions_of(shorter, flag);
        let all = positions_of(bits, flag);
        law_positions_exact(shorter, flag);
        assert forall|i: int| 0 <= i < bits.len() && #[trigger] bits[i] == flag implies all
            .contains(i) by {
            if i < shorter.len() {
                assert(shorter[i] == flag);
                let k = choose|k: int| 0 <= k < earlier.len() && earlier[k] == i;
                assert(all[k] == i);
            } else {
                assert(all[all.len() - 1] == i);
            }
        }
    }
}

/// The bits of a value are as many as its type is wide, and the positions
/// at which they hold a flag are the positions at which the value holds it.
pub proof fn law_positions_of_bits(n: nat, width: nat, flag: bool)
    ensures
        bits_of(n, width).len() == width,
        positions_of(bits_of(n, width), flag) == bit_positions(n, width, flag),
    decreases width,
{
    if width > 0 {
        law_positions_of_bits(n, (width - 1) as nat, flag);
        assert(bits_of(n, width).drop_last() =~= bits_of(n, (width - 1) as nat));
    }
}

/// The lowest position at which a value holds a flag is the first of the
/// positions at which it holds it, and there is none exactly when that list
/// is empty.
pub proof fn law_first_position(n: nat, width: nat, flag: bool, first: Option<u32>)
    requires
        first_bit_is(n, width, flag, first),
    ensures
        match first {
            Some(pos) => bit_positions(n, width, flag).len() > 0 && bit_positions(
                n,
                width,
                flag,
            )[0] == pos,
            None => bit_positions(n, width, flag).len() == 0,
        },
{
    let bits = bits_of(n, width);
    let found = positions_of(bits, flag);
    law_positions_of_bits(n, width, flag);
    law_positions_exact(bits, flag);
    match first {
        Some(pos) => {
            assert(bits[pos as int] == flag);
            assert(found.contains(pos as int));
            let k = choose|k: int| 0 <= k < found.len() && found[k] == pos as int;
            assert(bits[found[0]] == flag);
            if k > 0 {
                assert(found[0] < found[k]);
            }
        },
        None => {
            if found.len() > 0 {
                assert(bits[found[0]] == flag);
            }
        },
    }
}

/// Two bit patterns that are `true` at the same indices have the same list
/// of `true` positions, whatever their lengths: padding a pattern with
/// `false`, or cutting such padding off, changes nothing.
pub proof fn law_padding_keeps_positions(a: Seq<bool>, b: Seq<bool>)
    requires
        forall|i: int| 0 <= i ==> (i < a.len() && a[i]) == (i < b.len() && b[i]),
    ensures
        positions_of(a, true) == positions_of(b, true),
    decreases a.len() + b.len(),
{
    if a.len() > b.len() {
        assert(!a.last()) by {
            assert(!(a.len() - 1 < b.len() && b[a.len() - 1]));
        }
        law_padding_keeps_positions(a.drop_last(), b);
    } else if b.len() > a.len() {
        assert(!b.last()) by {
            assert(!(b.len() - 1 < a.len() && a[b.len() - 1]));
        }
        law_padding_keeps_positions(a, b.drop_last());
    } else {
        assert(a =~= b);
    }
}

/// A bit pattern that fits a width goes into a number of that width, and
/// the bits of that number are set where the pattern was `true`.
pub proof fn law_flags_round_trip(bits: Seq<bool>, width: nat)
    requires
        fits_width(bits, width),
    ensures
        from_bits(bits) < pow2(width),
        positions_of(bits_of(from_bits(bits), width), true) == positions_of(bits, true),
{
    assert forall|i: nat| i >= width implies !bit_at(from_bits(bits), i) by {
        lemma_bit_at_from_bits(bits, i);
    }
    lemma_bound_from_bits(from_bits(bits), width);
    let back = bits_of(from_bits(bits), width);
    assert forall|i: int| 0 <= i implies (i < back.len() && back[i]) == (i < bits.len()
        && bits[i]) by {
        lemma_bit_at_from_bits(bits, i as nat);
    }
    law_padding_keeps_positions(back, bits);
}

// Trimming

/// Trimming keeps a prefix, drops only `false` entries, and leaves a
/// sequence that is empty or ends with `true`.
pub proof fn law_trimmed(bits: Seq<bool>)
    ensures
        trimmed(bits).len() <= bits.len(),
        trimmed(bits) == bits.take(trimmed(bits).len() as int),
        forall|i: int| trimmed(bits).len() <= i < bits.len() ==> !#[trigger] bits[i],
        trimmed(bits).len() == 0 || trimmed(bits).last(),
    decreases bits.len(),
{
    if bits.len() == 0 || bits.last() {
        assert(bits.take(bits.len() as int) =~= bits);
    } else {
        let shorter = bits.drop_last();
        law_trimmed(shorter);
        assert(trimmed(bits) =~= bits.take(trimmed(bits).len() as int));
        assert forall|i: int| trimmed(bits).len() <= i < bits.len() implies !#[trigger] bits[i] by {
            if i < shorter.len() {
                assert(!shorter[i]);
            }
        }
    }
}

} // verus!
