//! Bit operations on a word of up to 128 bits, held in a `u128`.
//!
//! Every integer type that the crate supports is widened to a `u128`, worked
//! on here with the width of its own type, and narrowed again, so that each
//! operation is written and proved once. A width need not be that of a
//! machine type: a word of 12 or of 24 bits is served as well.
//!
//! The contracts state what each operation returns over the functions of
//! [`crate::model`]. The proofs go bit by bit: the bit-vector solver says how
//! the machine operation moves each bit, the lemmas say where the model's
//! arithmetic puts it, and two numbers of 128 bits with the same bits are
//! equal.

use crate::lemmas::{
    lemma_bit_at_above, lemma_bit_at_bit_range, lemma_bit_at_from_bits, lemma_bit_at_shifted_left,
    lemma_bit_at_with_bit, lemma_bit_at_with_bit_range, lemma_bit_range_bound,
    lemma_bound_from_bits, lemma_equal_bits_equal, lemma_from_bits_bound, lemma_pow2_128,
    lemma_pow2_monotonic, lemma_with_bit_bound, lemma_with_bit_range_bound,
    lemma_zero_is_from_bits,
};
use crate::model::{
    bit_at, bit_positions, bit_range, bits_of, first_bit_is, fits_width, from_bits, reversed,
    shifted_left, shifted_right, with_bit, with_bit_flipped, with_bit_range,
};
use vstd::arithmetic::div_mod::lemma_basic_div;
use vstd::arithmetic::power2::{lemma_pow2_pos, pow2};
use vstd::bits::lemma_u128_shr_is_div;
use vstd::prelude::*;

verus! {

/// Bit `pos` of `x`, as shifting and masking read it.
spec fn raw_bit(x: u128, pos: u32) -> bool {
    (x >> pos) & 1 == 1
}

/// Flipping, at `pos`, the bits in which `x` differs from `fill` gives that
/// place the bit of `fill` and leaves the other places alone.
proof fn lemma_bv_assign(x: u128, fill: u128, pos: u32, j: u32)
    by (bit_vector)
    requires
        pos < 128,
        j < 128,
        fill == 0 || fill == u128::MAX,
    ensures
        raw_bit(x ^ ((fill ^ x) & (1u128 << pos)), j) == (if j == pos {
            fill != 0
        } else {
            raw_bit(x, j)
        }),
{
}

/// An exclusive or with a single bit flips that place and no other.
proof fn lemma_bv_flip(x: u128, pos: u32, j: u32)
    by (bit_vector)
    requires
        pos < 128,
        j < 128,
    ensures
        raw_bit(x ^ (1u128 << pos), j) == (if j == pos {
            !raw_bit(x, j)
        } else {
            raw_bit(x, j)
        }),
{
}

/// An or with a single bit sets that place and no other.
proof fn lemma_bv_raise(x: u128, pos: u32, j: u32)
    by (bit_vector)
    requires
        pos < 128,
        j < 128,
    ensures
        raw_bit(x | (1u128 << pos), j) == (j == pos || raw_bit(x, j)),
{
}

/// All ones, shifted right until `len` of them are left, has exactly the
/// places below `len` set.
proof fn lemma_bv_mask(len: u32, shift: u32, j: u32)
    by (bit_vector)
    requires
        1 <= len <= 128,
        shift == 128 - len,
        j < 128,
    ensures
        raw_bit(u128::MAX >> shift, j) == (j < len),
{
}

/// Shifting right by `start` and masking brings place `start + j` to `j`
/// wherever the mask is set.
proof fn lemma_bv_extract(x: u128, mask: u128, start: u32, j: u32, from: u32)
    by (bit_vector)
    requires
        start < 128,
        j < 128,
        from == start + j,
    ensures
        raw_bit((x >> start) & mask, j) == (raw_bit(mask, j) && from < 128 && raw_bit(x, from)),
{
}

/// Clearing the places of a mask moved up by `start`, and filling them from
/// `insert`, brings place `j - start` of `insert` to `j` wherever the mask
/// is set, and leaves the other places of `x` alone.
proof fn lemma_bv_insert(x: u128, insert: u128, mask: u128, start: u32, j: u32, from: u32)
    by (bit_vector)
    requires
        start < 128,
        j < 128,
        j >= start ==> from == j - start,
    ensures
        raw_bit((x & !(mask << start)) | ((insert & mask) << start), j) == (if j >= start
            && raw_bit(mask, from) {
            raw_bit(insert, from)
        } else {
            raw_bit(x, j)
        }),
{
}

/// Masking and shifting left by `amount` brings place `j - amount` to `j`
/// wherever the mask is set, and clears the places below `amount`.
proof fn lemma_bv_shift_left(x: u128, mask: u128, amount: u32, j: u32, from: u32)
    by (bit_vector)
    requires
        amount < 128,
        j < 128,
        j >= amount ==> from == j - amount,
    ensures
        raw_bit((x & mask) << amount, j) == (j >= amount && raw_bit(mask, from) && raw_bit(
            x,
            from,
        )),
{
}

/// Shifting and masking read the bit that the model speaks of.
proof fn lemma_raw_bit(x: u128, pos: u32)
    requires
        pos < 128,
    ensures
        raw_bit(x, pos) == bit_at(x as nat, pos as nat),
{
    lemma_u128_shr_is_div(x, pos as u128);
    let y: u128 = x >> pos;
    assert(y & 1 == y % 2) by (bit_vector);
}

/// A `u128` whose 128 bits are those of `target` is `target`.
proof fn lemma_word_is(r: u128, target: nat)
    requires
        target < pow2(128),
        forall|j: u32| j < 128 ==> raw_bit(r, j) == bit_at(target, j as nat),
    ensures
        r == target,
{
    lemma_pow2_128();
    assert forall|i: nat| i < 128 implies bit_at(r as nat, i) == bit_at(target, i) by {
        lemma_raw_bit(r, i as u32);
    }
    lemma_equal_bits_equal(r as nat, target, 128);
}

/// Reads bit `pos` of `x`.
pub fn test_bit(x: u128, pos: u32) -> (flag: bool)
    requires
        pos < 128,
    ensures
        flag == bit_at(x as nat, pos as nat),
{
    proof {
        lemma_raw_bit(x, pos);
    }
    (x >> pos) & 1 == 1
}

/// Returns `x` with bit `pos` forced to `flag`.
///
/// The new bit is chosen without a branch: `fill` holds `flag` in every
/// place, and the one place in which `x` may differ from it is flipped if it
/// does.
pub fn assign_bit(x: u128, pos: u32, flag: bool) -> (r: u128)
    requires
        pos < 128,
    ensures
        r == with_bit(x as nat, pos as nat, flag),
{
    let fill: u128 = 0u128.wrapping_sub(flag as u128);
    let r: u128 = x ^ ((fill ^ x) & (1u128 << pos));
    proof {
        let target = with_bit(x as nat, pos as nat, flag);
        lemma_pow2_128();
        lemma_with_bit_bound(x as nat, 128, pos as nat, flag);
        assert forall|j: u32| j < 128 implies raw_bit(r, j) == bit_at(target, j as nat) by {
            lemma_bv_assign(x, fill, pos, j);
            lemma_bit_at_with_bit(x as nat, pos as nat, flag, j as nat);
            lemma_raw_bit(x, j);
        }
        lemma_word_is(r, target);
    }
    r
}

/// Returns `x` with bit `pos` flipped.
pub fn flip_bit(x: u128, pos: u32) -> (r: u128)
    requires
        pos < 128,
    ensures
        r == with_bit_flipped(x as nat, pos as nat),
{
    let r: u128 = x ^ (1u128 << pos);
    proof {
        let flag = !bit_at(x as nat, pos as nat);
        let target = with_bit(x as nat, pos as nat, flag);
        lemma_pow2_128();
        lemma_with_bit_bound(x as nat, 128, pos as nat, flag);
        assert forall|j: u32| j < 128 implies raw_bit(r, j) == bit_at(target, j as nat) by {
            lemma_bv_flip(x, pos, j);
            lemma_bit_at_with_bit(x as nat, pos as nat, flag, j as nat);
            lemma_raw_bit(x, j);
        }
        lemma_word_is(r, target);
    }
    r
}

/// The word whose lowest `len` bits are set and whose other bits are clear.
fn low_mask(len: u32) -> (mask: u128)
    requires
        1 <= len <= 128,
    ensures
        forall|j: u32| j < 128 ==> raw_bit(mask, j) == (j < len),
{
    let shift: u32 = 128 - len;
    proof {
        assert forall|j: u32| j < 128 implies raw_bit(u128::MAX >> shift, j) == (j < len) by {
            lemma_bv_mask(len, shift, j);
        }
    }
    u128::MAX >> shift
}

/// Returns bits `start..end` of `x`, with bit `start` moved to position 0.
pub fn extract_range(x: u128, start: u32, end: u32) -> (r: u128)
    requires
        start < end <= 128,
    ensures
        r == bit_range(x as nat, start as nat, end as nat),
{
    let len: u32 = end - start;
    let mask: u128 = low_mask(len);
    let r: u128 = (x >> start) & mask;
    proof {
        let target = bit_range(x as nat, start as nat, end as nat);
        lemma_bit_range_bound(x as nat, start as nat, end as nat);
        lemma_pow2_monotonic(len as nat, 128);
        assert forall|j: u32| j < 128 implies raw_bit(r, j) == bit_at(target, j as nat) by {
            let from: u32 = (start + j) as u32;
            lemma_bv_extract(x, mask, start, j, from);
            lemma_bit_at_bit_range(x as nat, start as nat, end as nat, j as nat);
            if j < len {
                lemma_raw_bit(x, from);
            }
        }
        lemma_word_is(r, target);
    }
    r
}

/// Returns `x` with bits `start..end` replaced by the lowest `end - start`
/// bits of `insert`; the other bits of `insert` are ignored.
pub fn insert_range(x: u128, start: u32, end: u32, insert: u128) -> (r: u128)
    requires
        start < end <= 128,
    ensures
        r == with_bit_range(x as nat, start as nat, end as nat, insert as nat),
{
    let len: u32 = end - start;
    let mask: u128 = low_mask(len);
    let r: u128 = (x & !(mask << start)) | ((insert & mask) << start);
    proof {
        let target = with_bit_range(x as nat, start as nat, end as nat, insert as nat);
        lemma_pow2_128();
        lemma_with_bit_range_bound(x as nat, 128, start as nat, end as nat, insert as nat);
        assert forall|j: u32| j < 128 implies raw_bit(r, j) == bit_at(target, j as nat) by {
            let from: u32 = if j >= start {
                (j - start) as u32
            } else {
                0
            };
            lemma_bv_insert(x, insert, mask, start, j, from);
            lemma_bit_at_with_bit_range(
                x as nat,
                start as nat,
                end as nat,
                insert as nat,
                j as nat,
            );
            lemma_raw_bit(x, j);
            lemma_raw_bit(insert, from);
        }
        lemma_word_is(r, target);
    }
    r
}

/// Returns `x` shifted left by `amount` inside a word of `width` bits: what
/// is moved to position `width` or beyond is lost, and a shift by the width
/// or more leaves nothing.
pub fn shift_left(x: u128, width: u32, amount: u32) -> (r: u128)
    requires
        width <= 128,
    ensures
        r == shifted_left(x as nat, width as nat, amount as nat),
{
    let ghost target: nat = shifted_left(x as nat, width as nat, amount as nat);
    proof {
        lemma_pow2_pos(width as nat);
        lemma_pow2_monotonic(width as nat, 128);
    }
    if amount >= width {
        proof {
            assert forall|i: nat| i < width implies bit_at(target, i) == bit_at(0, i) by {
                lemma_bit_at_shifted_left(x as nat, width as nat, amount as nat, i);
                lemma_pow2_pos(i);
                lemma_bit_at_above(0, i);
            }
            lemma_equal_bits_equal(target, 0, width as nat);
        }
        0
    } else {
        let mask: u128 = low_mask(width - amount);
        let r: u128 = (x & mask) << amount;
        proof {
            assert forall|j: u32| j < 128 implies raw_bit(r, j) == bit_at(target, j as nat) by {
                let from: u32 = if j >= amount {
                    (j - amount) as u32
                } else {
                    0
                };
                lemma_bv_shift_left(x, mask, amount, j, from);
                lemma_raw_bit(x, from);
                lemma_bit_at_shifted_left(x as nat, width as nat, amount as nat, j as nat);
            }
            lemma_word_is(r, target);
        }
        r
    }
}

/// Returns `x` shifted right by `amount`: the lowest `amount` bits are lost,
/// and a shift by 128 or more leaves nothing.
pub fn shift_right(x: u128, amount: u32) -> (r: u128)
    ensures
        r == shifted_right(x as nat, amount as nat),
{
    if amount >= 128 {
        proof {
            lemma_pow2_128();
            lemma_pow2_monotonic(128, amount as nat);
            lemma_basic_div(x as int, pow2(amount as nat) as int);
        }
        0
    } else {
        proof {
            lemma_u128_shr_is_div(x, amount as u128);
        }
        x >> amount
    }
}

/// The first `done` steps of reversing the lowest `width` bits of `n`: bit
/// `i` has reached its place `width - 1 - i` for every `i` below `done`, and
/// the other places are still clear.
spec fn partly_reversed(n: nat, width: nat, done: nat) -> Seq<bool> {
    Seq::new(width, |j: int| j >= width - done && bit_at(n, (width - 1 - j) as nat))
}

/// Returns the lowest `width` bits of `x` in reverse order: bit `i` goes to
/// position `width - 1 - i`.
pub fn reverse_bits(x: u128, width: u32) -> (r: u128)
    requires
        width <= 128,
    ensures
        r == reversed(x as nat, width as nat),
{
    let mut r: u128 = 0;
    let mut i: u32 = 0;
    proof {
        lemma_zero_is_from_bits(partly_reversed(x as nat, width as nat, 0));
    }
    while i < width
        invariant
            i <= width <= 128,
            r == from_bits(partly_reversed(x as nat, width as nat, i as nat)),
        decreases width - i,
    {
        let flag: bool = test_bit(x, i);
        let pos: u32 = width - 1 - i;
        proof {
            let before = partly_reversed(x as nat, width as nat, i as nat);
            let after = partly_reversed(x as nat, width as nat, (i + 1) as nat);
            lemma_from_bits_bound(before);
            lemma_from_bits_bound(after);
            lemma_with_bit_bound(r as nat, width as nat, pos as nat, flag);
            assert forall|j: nat| j < width implies bit_at(
                with_bit(r as nat, pos as nat, flag),
                j,
            ) == bit_at(from_bits(after), j) by {
                lemma_bit_at_with_bit(r as nat, pos as nat, flag, j);
                lemma_bit_at_from_bits(before, j);
                lemma_bit_at_from_bits(after, j);
            }
            lemma_equal_bits_equal(
                with_bit(r as nat, pos as nat, flag),
                from_bits(after),
                width as nat,
            );
        }
        r = assign_bit(r, pos, flag);
        i += 1;
    }
    proof {
        assert(partly_reversed(x as nat, width as nat, width as nat) =~= bits_of(
            x as nat,
            width as nat,
        ).reverse());
    }
    r
}

/// Returns the lowest `width` bits of `x`, least significant first.
pub fn to_flags(x: u128, width: u32) -> (flags: Vec<bool>)
    requires
        width <= 128,
    ensures
        flags@.len() == width,
        flags@ == bits_of(x as nat, width as nat),
{
    let mut flags: Vec<bool> = Vec::new();
    let mut i: u32 = 0;
    while i < width
        invariant
            i <= width <= 128,
            flags@ == bits_of(x as nat, i as nat),
        decreases width - i,
    {
        flags.push(test_bit(x, i));
        i += 1;
    }
    flags
}

/// Returns the positions below `width` at which `x` holds `flag`, in
/// ascending order.
pub fn flag_positions(x: u128, width: u32, flag: bool) -> (found: Vec<u32>)
    requires
        width <= 128,
    ensures
        found@.len() == bit_positions(x as nat, width as nat, flag).len(),
        forall|k: int|
            0 <= k < found@.len() ==> found@[k] == bit_positions(x as nat, width as nat, flag)[k],
{
    let mut found: Vec<u32> = Vec::new();
    let mut i: u32 = 0;
    while i < width
        invariant
            i <= width <= 128,
            found@.len() == bit_positions(x as nat, i as nat, flag).len(),
            forall|k: int|
                0 <= k < found@.len() ==> found@[k] == bit_positions(x as nat, i as nat, flag)[k],
        decreases width - i,
    {
        if test_bit(x, i) == flag {
            found.push(i);
        }
        i += 1;
    }
    found
}

/// Returns the lowest position below `width` at which `x` holds `flag`, if
/// there is one.
pub fn first_position(x: u128, width: u32, flag: bool) -> (first: Option<u32>)
    requires
        width <= 128,
    ensures
        first_bit_is(x as nat, width as nat, flag, first),
{
    let mut i: u32 = 0;
    while i < width
        invariant
            i <= width <= 128,
            forall|j: nat| j < i ==> bit_at(x as nat, j) != flag,
        decreases width - i,
    {
        if test_bit(x, i) == flag {
            return Some(i);
        }
        i += 1;
    }
    None
}

/// Folds `flags` into a word of `width` bits, least significant bit first,
/// by an or of `1 << i` for every `true` at index `i`; `None` when a flag at
/// or beyond the width is set.
pub fn pack_flags(flags: &Vec<bool>, width: u32) -> (packed: Option<u128>)
    requires
        width <= 128,
    ensures
        match packed {
            Some(word) => fits_width(flags@, width as nat) && word == from_bits(flags@) && word
                < pow2(width as nat),
            None => !fits_width(flags@, width as nat),
        },
{
    let mut r: u128 = 0;
    let mut i: usize = 0;
    proof {
        lemma_zero_is_from_bits(flags@.take(0));
    }
    while i < flags.len()
        invariant
            i <= flags.len(),
            width <= 128,
            r == from_bits(flags@.take(i as int)),
            fits_width(flags@.take(i as int), width as nat),
        decreases flags.len() - i,
    {
        let ghost before = flags@.take(i as int);
        let ghost after = flags@.take(i + 1);
        proof {
            assert(after.drop_last() =~= before);
        }
        if flags[i] {
            if i >= width as usize {
                proof {
                    assert(flags@[i as int]);
                }
                return None;
            }
            let pos: u32 = i as u32;
            let raised: u128 = r | (1u128 << pos);
            proof {
                lemma_from_bits_bound(after);
                lemma_pow2_monotonic((i + 1) as nat, 128);
                assert forall|j: u32| j < 128 implies raw_bit(raised, j) == bit_at(
                    from_bits(after),
                    j as nat,
                ) by {
                    lemma_bv_raise(r, pos, j);
                    lemma_raw_bit(r, j);
                    lemma_bit_at_from_bits(after, j as nat);
                    lemma_bit_at_from_bits(before, j as nat);
                }
                lemma_word_is(raised, from_bits(after));
            }
            r = raised;
        }
        i += 1;
    }
    proof {
        assert(flags@.take(flags.len() as int) =~= flags@);
        assert forall|j: nat| j >= width implies !bit_at(from_bits(flags@), j) by {
            lemma_bit_at_from_bits(flags@, j);
        }
        lemma_bound_from_bits(from_bits(flags@), width as nat);
    }
    Some(r)
}

} // verus!
