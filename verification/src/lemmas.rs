//! Facts about the model that the proofs of the library rest on.
//!
//! First how the bits of a number follow its arithmetic (a sum, a quotient,
//! a remainder, a product with a power of two), then how numbers and bit
//! sequences determine each other, and last, for each operation of the
//! model, which bit ends up where and how large the result can be.

use crate::model::{
    bit_at, bit_range, bits_of, from_bits, shifted_left, shifted_right, with_bit,
    with_bit_range,
};
use vstd::arithmetic::div_mod::{
    lemma_basic_div, lemma_div_by_multiple, lemma_div_denominator, lemma_div_nonincreasing,
    lemma_div_multiples_vanish_fancy, lemma_fundamental_div_mod, lemma_hoist_over_denominator,
    lemma_mod_breakdown, lemma_small_mod,
};
use vstd::arithmetic::mul::{lemma_mul_is_associative, lemma_mul_is_commutative};
use vstd::arithmetic::power2::{
    lemma2_to64, lemma_pow2_adds, lemma_pow2_pos, lemma_pow2_strictly_increases,
    lemma_pow2_unfold, pow2,
};
use vstd::prelude::*;

verus! {

/// Powers of two never decrease with the exponent.
pub proof fn lemma_pow2_monotonic(low: nat, high: nat)
    requires
        low <= high,
    ensures
        pow2(low) <= pow2(high),
{
    if low < high {
        lemma_pow2_strictly_increases(low, high);
    }
}

/// `2^128` is one more than the largest `u128`.
pub proof fn lemma_pow2_128()
    ensures
        pow2(128) == u128::MAX + 1,
{
    lemma2_to64();
    lemma_pow2_adds(64, 64);
    assert(0x10000000000000000 * 0x10000000000000000 == u128::MAX + 1) by (nonlinear_arith);
}

/// A number below `2^pos` has bit `pos` clear.
pub proof fn lemma_bit_at_above(n: nat, pos: nat)
    requires
        n < pow2(pos),
    ensures
        !bit_at(n, pos),
{
    lemma_basic_div(n as int, pow2(pos) as int);
}

/// Adding a multiple of `2^high` leaves every bit below `high` as it was.
pub proof fn lemma_bit_at_add_multiple(n: nat, factor: nat, high: nat, pos: nat)
    requires
        pos < high,
    ensures
        bit_at(n + factor * pow2(high), pos) == bit_at(n, pos),
{
    let d = pow2(pos);
    let rest = pow2((high - pos - 1) as nat);
    lemma_pow2_pos(pos);
    assert(pow2(high) == d * (2 * rest)) by {
        lemma_pow2_adds(pos, (high - pos) as nat);
        lemma_pow2_unfold((high - pos) as nat);
    }
    let k = factor * (2 * rest);
    assert(factor * pow2(high) == k * d) by {
        lemma_mul_is_commutative(d as int, (2 * rest) as int);
        lemma_mul_is_associative(factor as int, (2 * rest) as int, d as int);
    }
    assert(k == 2 * (factor * rest)) by {
        lemma_mul_is_associative(factor as int, 2, rest as int);
        lemma_mul_is_associative(2, factor as int, rest as int);
    }
    lemma_hoist_over_denominator(n as int, k as int, d);
    assert((n + factor * pow2(high)) / d == n / d + k);
}

/// Bit `pos` of `n / 2^amount` is bit `pos + amount` of `n`.
pub proof fn lemma_bit_at_div(n: nat, amount: nat, pos: nat)
    ensures
        bit_at(n / pow2(amount), pos) == bit_at(n, pos + amount),
{
    lemma_pow2_pos(amount);
    lemma_pow2_pos(pos);
    lemma_div_denominator(n as int, pow2(amount) as int, pow2(pos) as int);
    lemma_pow2_adds(amount, pos);
}

/// `n % 2^width` keeps the bits of `n` below `width` and clears the others.
pub proof fn lemma_bit_at_mod(n: nat, width: nat, pos: nat)
    ensures
        bit_at(n % pow2(width), pos) == (pos < width && bit_at(n, pos)),
{
    let m = pow2(width);
    lemma_pow2_pos(width);
    if pos < width {
        lemma_fundamental_div_mod(n as int, m as int);
        lemma_mul_is_commutative(m as int, (n / m) as int);
        lemma_bit_at_add_multiple(n % m, n / m, width, pos);
    } else {
        lemma_pow2_monotonic(width, pos);
        lemma_bit_at_above(n % m, pos);
    }
}

/// Bit `pos` of `n * 2^amount` is bit `pos - amount` of `n`, and clear
/// below `amount`.
pub proof fn lemma_bit_at_mul(n: nat, amount: nat, pos: nat)
    ensures
        bit_at(n * pow2(amount), pos) == (pos >= amount && bit_at(n, (pos - amount) as nat)),
{
    lemma_pow2_pos(amount);
    if pos >= amount {
        let rest = (pos - amount) as nat;
        lemma_pow2_pos(rest);
        lemma_pow2_adds(amount, rest);
        lemma_div_denominator((n * pow2(amount)) as int, pow2(amount) as int, pow2(rest) as int);
        lemma_div_by_multiple(n as int, pow2(amount) as int);
    } else {
        lemma_bit_at_add_multiple(0, n, amount, pos);
        lemma_pow2_pos(pos);
        lemma_bit_at_above(0, pos);
    }
}

/// The number that a bit sequence stands for has as many bits as the
/// sequence is long, at most.
pub proof fn lemma_from_bits_bound(bits: Seq<bool>)
    ensures
        from_bits(bits) < pow2(bits.len()),
    decreases bits.len(),
{
    if bits.len() == 0 {
        lemma_pow2_pos(0);
    } else {
        lemma_from_bits_bound(bits.drop_last());
        lemma_pow2_unfold(bits.len());
    }
}

/// Bit `pos` of the number that `bits` stands for is `bits[pos]`, and clear
/// beyond the end of `bits`.
pub proof fn lemma_bit_at_from_bits(bits: Seq<bool>, pos: nat)
    ensures
        bit_at(from_bits(bits), pos) == (pos < bits.len() && bits[pos as int]),
    decreases bits.len(),
{
    lemma_from_bits_bound(bits);
    if pos >= bits.len() {
        lemma_pow2_monotonic(bits.len(), pos);
        lemma_bit_at_above(from_bits(bits), pos);
    } else {
        let top = (bits.len() - 1) as nat;
        let low = from_bits(bits.drop_last());
        let factor: nat = if bits.last() { 1 } else { 0 };
        assert(from_bits(bits) == low + factor * pow2(top));
        lemma_from_bits_bound(bits.drop_last());
        if pos < top {
            lemma_bit_at_add_multiple(low, factor, top, pos);
            lemma_bit_at_from_bits(bits.drop_last(), pos);
        } else {
            lemma_pow2_pos(top);
            lemma_hoist_over_denominator(low as int, factor as int, pow2(top));
            lemma_basic_div(low as int, pow2(top) as int);
        }
    }
}

/// Reading `width` bits of a number and folding them again gives the number
/// modulo `2^width`.
pub proof fn lemma_from_bits_of(n: nat, width: nat)
    ensures
        from_bits(bits_of(n, width)) == n % pow2(width),
    decreases width,
{
    if width == 0 {
        lemma2_to64();
    } else {
        let lower = (width - 1) as nat;
        assert(bits_of(n, width).drop_last() =~= bits_of(n, lower));
        lemma_from_bits_of(n, lower);
        lemma_pow2_pos(lower);
        lemma_pow2_unfold(width);
        lemma_mul_is_commutative(2, pow2(lower) as int);
        lemma_mod_breakdown(n as int, pow2(lower) as int, 2);
    }
}

/// A number of `width` bits at most is the number that its `width` bits
/// stand for.
pub proof fn lemma_from_bits_of_small(n: nat, width: nat)
    requires
        n < pow2(width),
    ensures
        from_bits(bits_of(n, width)) == n,
{
    lemma_from_bits_of(n, width);
    lemma_small_mod(n, pow2(width));
}

/// The bits of the number that `bits` stands for are `bits` again.
pub proof fn lemma_bits_of_from_bits(bits: Seq<bool>)
    ensures
        bits_of(from_bits(bits), bits.len()) == bits,
{
    assert forall|i: int| 0 <= i < bits.len() implies bits_of(from_bits(bits), bits.len())[i]
        == bits[i] by {
        lemma_bit_at_from_bits(bits, i as nat);
    }
    assert(bits_of(from_bits(bits), bits.len()) =~= bits);
}

/// Two numbers of `width` bits at most that agree on every bit are equal.
pub proof fn lemma_equal_bits_equal(a: nat, b: nat, width: nat)
    requires
        a < pow2(width),
        b < pow2(width),
        forall|i: nat| i < width ==> bit_at(a, i) == bit_at(b, i),
    ensures
        a == b,
{
    assert(bits_of(a, width) =~= bits_of(b, width));
    lemma_from_bits_of_small(a, width);
    lemma_from_bits_of_small(b, width);
}

/// A sequence without a set bit stands for zero.
pub proof fn lemma_zero_is_from_bits(bits: Seq<bool>)
    requires
        forall|i: int| 0 <= i < bits.len() ==> !bits[i],
    ensures
        from_bits(bits) == 0,
    decreases bits.len(),
{
    if bits.len() > 0 {
        lemma_zero_is_from_bits(bits.drop_last());
    }
}

/// Every number is below two to its own power.
pub proof fn lemma_below_own_power(n: nat)
    ensures
        n < pow2(n),
    decreases n,
{
    if n == 0 {
        lemma_pow2_pos(0);
    } else {
        lemma_below_own_power((n - 1) as nat);
        lemma_pow2_unfold(n);
    }
}

/// A number without a set bit at or beyond `width` is below `2^width`.
pub proof fn lemma_bound_from_bits(n: nat, width: nat)
    requires
        forall|i: nat| i >= width ==> !bit_at(n, i),
    ensures
        n < pow2(width),
{
    let total = if n >= width {
        n
    } else {
        width
    };
    let reduced = n % pow2(width);
    lemma_pow2_pos(width);
    lemma_below_own_power(n);
    lemma_pow2_monotonic(n, total);
    lemma_pow2_monotonic(width, total);
    assert forall|i: nat| i < total implies bit_at(n, i) == bit_at(reduced, i) by {
        lemma_bit_at_mod(n, width, i);
    }
    lemma_equal_bits_equal(n, reduced, total);
}

/// A number below `2^width` has no set bit at or beyond `width`.
pub proof fn lemma_bits_from_bound(n: nat, width: nat)
    requires
        n < pow2(width),
    ensures
        forall|i: nat| i >= width ==> !bit_at(n, i),
{
    assert forall|i: nat| i >= width implies !bit_at(n, i) by {
        lemma_pow2_monotonic(width, i);
        lemma_bit_at_above(n, i);
    }
}

/// Forcing bit `pos` gives that bit the new flag and leaves every other bit
/// as it was.
pub proof fn lemma_bit_at_with_bit(n: nat, pos: nat, flag: bool, i: nat)
    ensures
        bit_at(with_bit(n, pos, flag), i) == (if i == pos {
            flag
        } else {
            bit_at(n, i)
        }),
{
    if bit_at(n, pos) != flag {
        let d = pow2(pos);
        let m = with_bit(n, pos, flag);
        let q = n / d;
        lemma_pow2_pos(pos);
        lemma_fundamental_div_mod(n as int, d as int);
        assert(flag ==> q % 2 == 0);
        assert(!flag ==> q % 2 == 1);
        if !flag {
            assert(n >= d) by {
                if n < d {
                    lemma_basic_div(n as int, d as int);
                }
            }
        }
        if i < pos {
            if flag {
                lemma_bit_at_add_multiple(n, 1, pos, i);
            } else {
                lemma_bit_at_add_multiple(m, 1, pos, i);
            }
        } else {
            let step: int = if flag {
                1
            } else {
                -1
            };
            assert(m == n + step * d) by (nonlinear_arith)
                requires
                    flag ==> m == n + d,
                    !flag ==> m == n - d,
                    step == (if flag {
                        1int
                    } else {
                        -1int
                    }),
            ;
            lemma_hoist_over_denominator(n as int, step, d);
            assert(m / d == q + step);
            let k = (i - pos) as nat;
            lemma_bit_at_div(m, pos, k);
            lemma_bit_at_div(n, pos, k);
            lemma2_to64();
            if k > 0 {
                lemma_bit_at_div(m / d, 1, (k - 1) as nat);
                lemma_bit_at_div(q, 1, (k - 1) as nat);
                assert((q + step) / 2 == q / 2);
            }
        }
    }
}

/// Forcing a bit below `width` keeps a number below `2^width`.
pub proof fn lemma_with_bit_bound(n: nat, width: nat, pos: nat, flag: bool)
    requires
        n < pow2(width),
        pos < width,
    ensures
        with_bit(n, pos, flag) < pow2(width),
{
    lemma_bits_from_bound(n, width);
    assert forall|i: nat| i >= width implies !bit_at(with_bit(n, pos, flag), i) by {
        lemma_bit_at_with_bit(n, pos, flag, i);
    }
    lemma_bound_from_bits(with_bit(n, pos, flag), width);
}

/// Bit `pos` of bits `start..end` of `n` is bit `start + pos` of `n`, and
/// clear from the length of the range upward.
pub proof fn lemma_bit_at_bit_range(n: nat, start: nat, end: nat, pos: nat)
    requires
        start <= end,
    ensures
        bit_at(bit_range(n, start, end), pos) == (pos < end - start && bit_at(n, start + pos)),
{
    lemma_bit_at_mod(n / pow2(start), (end - start) as nat, pos);
    lemma_bit_at_div(n, start, pos);
}

/// A range of bits, moved down, is below two to the power of its length.
pub proof fn lemma_bit_range_bound(n: nat, start: nat, end: nat)
    requires
        start <= end,
    ensures
        bit_range(n, start, end) < pow2((end - start) as nat),
{
    lemma_pow2_pos((end - start) as nat);
}

/// Replacing bits `start..end` gives those places the lowest bits of the
/// inserted number and leaves every other bit as it was.
pub proof fn lemma_bit_at_with_bit_range(n: nat, start: nat, end: nat, insert: nat, pos: nat)
    requires
        start <= end,
    ensures
        bit_at(with_bit_range(n, start, end, insert), pos) == (if start <= pos < end {
            bit_at(insert, (pos - start) as nat)
        } else {
            bit_at(n, pos)
        }),
{
    let len = (end - start) as nat;
    let low = n % pow2(start);
    let field = insert % pow2(len);
    let high = n / pow2(end);
    let made = with_bit_range(n, start, end, insert);
    lemma_pow2_pos(start);
    lemma_pow2_pos(len);
    lemma_pow2_pos(end);
    lemma_pow2_adds(start, len);
    assert(low + field * pow2(start) < pow2(end)) by (nonlinear_arith)
        requires
            low < pow2(start),
            field < pow2(len),
            pow2(end) == pow2(start) * pow2(len),
    ;
    if pos < start {
        let factor = field + high * pow2(len);
        assert(made == low + factor * pow2(start)) by (nonlinear_arith)
            requires
                made == low + field * pow2(start) + high * pow2(end),
                pow2(end) == pow2(start) * pow2(len),
                factor == field + high * pow2(len),
        ;
        lemma_bit_at_add_multiple(low, factor, start, pos);
        lemma_bit_at_mod(n, start, pos);
    } else if pos < end {
        lemma_bit_at_add_multiple(low + field * pow2(start), high, end, pos);
        lemma_mul_is_commutative(field as int, pow2(start) as int);
        lemma_div_multiples_vanish_fancy(field as int, low as int, pow2(start) as int);
        lemma_bit_at_div(low + field * pow2(start), start, (pos - start) as nat);
        lemma_bit_at_mod(insert, len, (pos - start) as nat);
    } else {
        lemma_mul_is_commutative(high as int, pow2(end) as int);
        lemma_div_multiples_vanish_fancy(
            high as int,
            (low + field * pow2(start)) as int,
            pow2(end) as int,
        );
        lemma_bit_at_div(made, end, (pos - end) as nat);
        lemma_bit_at_div(n, end, (pos - end) as nat);
    }
}

/// Replacing bits below `width` keeps a number below `2^width`.
pub proof fn lemma_with_bit_range_bound(n: nat, width: nat, start: nat, end: nat, insert: nat)
    requires
        n < pow2(width),
        start <= end <= width,
    ensures
        with_bit_range(n, start, end, insert) < pow2(width),
{
    lemma_bits_from_bound(n, width);
    assert forall|i: nat| i >= width implies !bit_at(
        with_bit_range(n, start, end, insert),
        i,
    ) by {
        lemma_bit_at_with_bit_range(n, start, end, insert, i);
    }
    lemma_bound_from_bits(with_bit_range(n, start, end, insert), width);
}

/// Bit `pos` of a number shifted left inside `width` bits is bit
/// `pos - amount` of the number, and clear below `amount` and from `width`
/// upward.
pub proof fn lemma_bit_at_shifted_left(n: nat, width: nat, amount: nat, pos: nat)
    ensures
        bit_at(shifted_left(n, width, amount), pos) == (amount <= pos < width && bit_at(
            n,
            (pos - amount) as nat,
        )),
{
    lemma_bit_at_mod(n * pow2(amount), width, pos);
    lemma_bit_at_mul(n, amount, pos);
}

/// Bit `pos` of a number shifted right is bit `pos + amount` of the number.
pub proof fn lemma_bit_at_shifted_right(n: nat, amount: nat, pos: nat)
    ensures
        bit_at(shifted_right(n, amount), pos) == bit_at(n, pos + amount),
{
    lemma_bit_at_div(n, amount, pos);
}

/// Shifting a number below `2^width`, either way, keeps it below `2^width`.
pub proof fn lemma_shifted_bound(n: nat, width: nat, amount: nat)
    requires
        n < pow2(width),
    ensures
        shifted_left(n, width, amount) < pow2(width),
        shifted_right(n, amount) < pow2(width),
{
    lemma_pow2_pos(width);
    lemma_pow2_pos(amount);
    lemma_div_nonincreasing(n as int, pow2(amount) as int);
}

} // verus!
