//! What the operators of expressions do to numbers.
use vstd::arithmetic::div_mod::{
    lemma_div_is_ordered, lemma_fundamental_div_mod, lemma_fundamental_div_mod_converse,
    lemma_mod_bound,
};
use vstd::arithmetic::power2::{
    lemma2_to64, lemma_pow2_adds, lemma_pow2_pos, lemma_pow2_strictly_increases, lemma_pow2_unfold,
    pow2,
};
use vstd::bits::lemma_u128_shr_is_div;
use vstd::prelude::*;

use crate::const_eval::{
    canonical, difference, lemma_canonical_is_mod, lemma_canonical_small, lemma_mask,
    lemma_negative, mask, negative, ones, rotated_right, shifted_right, shifted_right_signed,
    signed, valid_width, AssocCommOp,
};
use crate::evaluation::{eval, lemma_eval_is_word, State, Word};
use crate::instruction_semantics::ExprV;
use crate::product_laws::{lemma_shifted_left, lemma_shl};
use crate::rewrite_laws::{lemma_complement_value, lemma_sign_extended};
use crate::word_laws::{fits, lemma_combine_fits, lemma_fits};

verus! {

/// The number that a word of the width stands for in two's complement.
pub open spec fn in_twos(value: int, width: u16) -> int {
    if value >= pow2((width - 1) as nat) {
        value - pow2(width as nat)
    } else {
        value
    }
}

/// The words of both expressions.
pub open spec fn have(lhs: ExprV, a: Word, rhs: ExprV, b: Word, state: State) -> bool {
    eval(lhs, state) == Some(a) && eval(rhs, state) == Some(b) && a.width == b.width
}

/// The expression has the number as a word of the width.
pub open spec fn gives(expr: ExprV, value: int, width: u16, state: State) -> bool {
    eval(expr, state) matches Some(w) && w.value == value && w.width == width
}

/// One where the statement holds, else zero.
pub open spec fn flag(b: bool) -> int {
    if b {
        1
    } else {
        0
    }
}

proof fn lemma_is_fitting(expr: ExprV, state: State)
    requires
        eval(expr, state) is Some,
    ensures
        fits(eval(expr, state)->0.value, eval(expr, state)->0.width),
        valid_width(eval(expr, state)->0.width),
        eval(expr, state)->0.value < pow2(eval(expr, state)->0.width as nat),
{
    lemma_eval_is_word(expr, state);
    let w = eval(expr, state)->0;
    lemma_fits(w.value, w.width);
}

proof fn lemma_kept(value: u128, width: u16)
    requires
        valid_width(width),
        value < pow2(width as nat),
    ensures
        canonical(value, width) == value,
{
    lemma_canonical_small(value, width);
}

proof fn lemma_bits_kept()
    ensures
        canonical(0, 1) == 0,
        canonical(1, 1) == 1,
{
    lemma2_to64();
    lemma_kept(0, 1);
    lemma_kept(1, 1);
}

proof fn lemma_signed_is_twos(value: u128, width: u16)
    requires
        fits(value, width),
        valid_width(width),
    ensures
        signed(value, width) == in_twos(value as int, width),
        negative(value, width) <==> value >= pow2((width - 1) as nat),
        canonical(value, width) == value,
{
    lemma_fits(value, width);
    lemma_negative(value, width);
    lemma_kept(value, width);
}

/// Sums, differences and products are those of the numbers, modulo the range of the width, and the
/// bitwise operators are those of the numbers.
pub proof fn lemma_sums(lhs: ExprV, a: Word, rhs: ExprV, b: Word, state: State)
    requires
        have(lhs, a, rhs, b, state),
    ensures
        ({
            let (l, r) = (Box::new(lhs), Box::new(rhs));
            let p = pow2(a.width as nat) as int;
            &&& gives(ExprV::Add(l, r), (a.value + b.value) % p, a.width, state)
            &&& gives(ExprV::Sub(l, r), (a.value - b.value) % p, a.width, state)
            &&& gives(ExprV::Mul(l, r), (a.value * b.value) % p, a.width, state)
            &&& gives(ExprV::And(l, r), (a.value & b.value) as int, a.width, state)
            &&& gives(ExprV::Or(l, r), (a.value | b.value) as int, a.width, state)
            &&& gives(ExprV::Xor(l, r), (a.value ^ b.value) as int, a.width, state)
        }),
{
    lemma_is_fitting(lhs, state);
    lemma_is_fitting(rhs, state);
    let p = pow2(a.width as nat) as int;
    lemma_fits(a.value, a.width);
    lemma_combine_fits(AssocCommOp::Add, a.value, b.value, a.width);
    lemma_combine_fits(AssocCommOp::Mul, a.value, b.value, a.width);
    lemma_combine_fits(AssocCommOp::And, a.value, b.value, a.width);
    lemma_combine_fits(AssocCommOp::Or, a.value, b.value, a.width);
    lemma_combine_fits(AssocCommOp::Xor, a.value, b.value, a.width);
    lemma_mod_bound(a.value - b.value, p);
    let d = difference(a.value, b.value, a.width);
    assert(d == (a.value - b.value) % p);
    lemma_kept(d, a.width);
}

/// A complement is what is missing to the largest word of the width.
pub proof fn lemma_complement(expr: ExprV, a: Word, state: State)
    requires
        eval(expr, state) == Some(a),
    ensures
        gives(
            ExprV::Not(Box::new(expr)),
            pow2(a.width as nat) - 1 - a.value,
            a.width,
            state,
        ),
{
    lemma_is_fitting(expr, state);
    lemma_complement_value(a.value, a.width);
}

/// Comparisons compare the numbers, or the numbers in two's complement.
pub proof fn lemma_comparisons(lhs: ExprV, a: Word, rhs: ExprV, b: Word, state: State)
    requires
        have(lhs, a, rhs, b, state),
    ensures
        ({
            let (l, r) = (Box::new(lhs), Box::new(rhs));
            &&& gives(ExprV::Equal(l, r), flag(a.value == b.value), 1, state)
            &&& gives(ExprV::UnsignedLessThan(l, r), flag(a.value < b.value), 1, state)
            &&& gives(
                ExprV::SignedLessThan(l, r),
                flag(in_twos(a.value as int, a.width) < in_twos(b.value as int, a.width)),
                1,
                state,
            )
        }),
{
    lemma_is_fitting(lhs, state);
    lemma_is_fitting(rhs, state);
    lemma_signed_is_twos(a.value, a.width);
    lemma_signed_is_twos(b.value, b.width);
    lemma_bits_kept();
}

/// A left shift multiplies by a power of two, and a right shift divides by one.
pub proof fn lemma_shifts(lhs: ExprV, a: Word, rhs: ExprV, b: Word, state: State)
    requires
        have(lhs, a, rhs, b, state),
    ensures
        ({
            let (l, r) = (Box::new(lhs), Box::new(rhs));
            let (p, d) = (pow2(a.width as nat) as int, pow2(b.value as nat) as int);
            &&& gives(ExprV::ShiftLeft(l, r), (a.value * d) % p, a.width, state)
            &&& gives(ExprV::LogicalShiftRight(l, r), a.value as int / d, a.width, state)
        }),
{
    lemma_is_fitting(lhs, state);
    lemma_is_fitting(rhs, state);
    let (v, s, w) = (a.value, b.value, a.width);
    lemma_shifted_left(v, s, w);
    lemma_shifted_right(v, s, w);
}

proof fn lemma_shifted_right(v: u128, s: u128, w: u16)
    requires
        fits(v, w),
        valid_width(w),
    ensures
        shifted_right(v, s, w) == v as int / pow2(s as nat) as int,
        shifted_right(v, s, w) <= v,
        fits(shifted_right(v, s, w), w),
        canonical(v, w) == v,
{
    lemma_fits(v, w);
    lemma_kept(v, w);
    lemma_pow2_pos(s as nat);
    if s < w {
        lemma_u128_shr_is_div(v, s);
        vstd::arithmetic::div_mod::lemma_div_nonincreasing(v as int, pow2(s as nat) as int);
    } else {
        if w < s {
            lemma_pow2_strictly_increases(w as nat, s as nat);
        }
        vstd::arithmetic::div_mod::lemma_basic_div(v as int, pow2(s as nat) as int);
    }
    lemma_fits(shifted_right(v, s, w), w);
}

/// An arithmetic right shift divides the number in two's complement by a power of two, and rounds
/// down.
pub proof fn lemma_signed_shift(lhs: ExprV, a: Word, rhs: ExprV, b: Word, state: State)
    requires
        have(lhs, a, rhs, b, state),
    ensures
        eval(ExprV::ArithmeticShiftRight(Box::new(lhs), Box::new(rhs)), state) matches Some(w)
            && w.width == a.width && in_twos(w.value as int, w.width) == in_twos(
            a.value as int,
            a.width,
        ) / pow2(b.value as nat) as int,
{
    lemma_is_fitting(lhs, state);
    lemma_is_fitting(rhs, state);
    let (v, s, w) = (a.value, b.value, a.width);
    lemma_shifted_right_signed(v, s, w);
    let r = shifted_right_signed(v, s, w);
    lemma_fits(r, w);
    lemma_kept(r, w);
}

proof fn lemma_shifted_right_signed(v: u128, s: u128, w: u16)
    requires
        fits(v, w),
        valid_width(w),
    ensures
        fits(shifted_right_signed(v, s, w), w),
        in_twos(shifted_right_signed(v, s, w) as int, w) == in_twos(v as int, w) / pow2(
            s as nat,
        ) as int,
{
    lemma_signed_is_twos(v, w);
    lemma_shifted_right(v, s, w);
    lemma_mask(w);
    lemma_fits(v, w);
    lemma_pow2_pos(s as nat);
    let p = pow2(w as nat) as int;
    let h = pow2((w - 1) as nat) as int;
    let d = pow2(s as nat) as int;
    let x = shifted_right(v, s, w);
    let r = shifted_right_signed(v, s, w);
    let m = mask(w);
    if !negative(v, w) {
        assert(r == x);
        lemma_fits(x, w);
    } else if s >= w {
        assert(x == 0);
        assert(0u128 | m == m) by (bit_vector);
        assert(r == m);
        lemma_fits(m, w);
        if w < s {
            lemma_pow2_strictly_increases(w as nat, s as nat);
        }
        assert(in_twos(r as int, w) == -1);
        lemma_fundamental_div_mod_converse(v - p, d, -1, v - p + d);
    } else {
        let y = m >> s;
        let e = pow2((w - s) as nat) as int;
        lemma_pow2_adds((w - s) as nat, s as nat);
        lemma_pow2_pos((w - s) as nat);
        lemma_u128_shr_is_div(m, s);
        assert(y == e - 1) by {
            assert(m == (e - 1) * d + (d - 1)) by (nonlinear_arith)
                requires
                    m == p - 1,
                    p == e * d,
            ;
            lemma_fundamental_div_mod_converse(m as int, d, e - 1, d - 1);
        }
        lemma_mask((w - s) as u16);
        assert(x <= y) by {
            lemma_div_is_ordered(v as int, m as int, d);
        }
        lemma_fits(x, (w - s) as u16);
        assert(x & y == x);
        if s > 0 {
            lemma_pow2_strictly_increases((w - s) as nat, w as nat);
        }
        lemma_fits(y, w);
        assert(y & m == y);
        assert(x | (m ^ y) == x + (m - y)) by (bit_vector)
            requires
                x & y == x,
                y & m == y,
        ;
        assert(r == x + p - e);
        // The number is negative still, and divided.
        let half = pow2((w - 1 - s) as nat) as int;
        lemma_pow2_adds((w - 1 - s) as nat, s as nat);
        lemma_pow2_unfold((w - s) as nat);
        assert(x >= half) by {
            lemma_div_is_ordered(h, v as int, d);
            assert(h == half * d);
            vstd::arithmetic::div_mod::lemma_div_multiples_vanish(half, d);
            vstd::arithmetic::mul::lemma_mul_is_commutative(half, d);
        }
        assert(half <= h) by {
            if s > 0 {
                lemma_pow2_strictly_increases((w - 1 - s) as nat, (w - 1) as nat);
            }
        }
        assert(r >= h);
        assert(r < p);
        lemma_fits(r, w);
        assert(in_twos(r as int, w) == x - e);
        lemma_fundamental_div_mod(v as int, d);
        let q = v as int % d;
        assert(v - p == (x - e) * d + q) by (nonlinear_arith)
            requires
                v == d * x + q,
                p == e * d,
        ;
        lemma_mod_bound(v as int, d);
        lemma_fundamental_div_mod_converse(v - p, d, x - e, q);
    }
}

/// A rotation to the right moves the low bits above the others.
pub proof fn lemma_rotation(lhs: ExprV, a: Word, rhs: ExprV, b: Word, state: State)
    requires
        have(lhs, a, rhs, b, state),
    ensures
        ({
            let s = b.value as int % a.width as int;
            let (d, e) = (pow2(s as nat) as int, pow2((a.width - s) as nat) as int);
            gives(
                ExprV::RotateRight(Box::new(lhs), Box::new(rhs)),
                a.value as int / d + (a.value as int % d) * e,
                a.width,
                state,
            )
        }),
{
    lemma_is_fitting(lhs, state);
    lemma_is_fitting(rhs, state);
    let (v, w) = (a.value, a.width);
    let s = b.value as int % w as int;
    lemma_mod_bound(b.value as int, w as int);
    lemma_rotated(v, b.value, w);
    let r = rotated_right(v, b.value, w);
    lemma_fits(r, w);
    lemma_kept(r, w);
}

proof fn lemma_rotated(v: u128, amount: u128, w: u16)
    requires
        fits(v, w),
        valid_width(w),
    ensures
        ({
            let s = amount as int % w as int;
            let (d, e) = (pow2(s as nat) as int, pow2((w - s) as nat) as int);
            rotated_right(v, amount, w) == v as int / d + (v as int % d) * e
        }),
        fits(rotated_right(v, amount, w), w),
{
    lemma_fits(v, w);
    lemma_kept(v, w);
    let s = amount as int % w as int;
    lemma_mod_bound(amount as int, w as int);
    let p = pow2(w as nat) as int;
    let (d, e) = (pow2(s as nat) as int, pow2((w - s) as nat) as int);
    lemma2_to64();
    if s == 0 {
        assert(v as int / 1 == v && v as int % 1 == 0);
        assert((v as int % d) * e == 0) by (nonlinear_arith)
            requires
                v as int % d == 0,
        ;
    } else {
        let shift = s as u128;
        let k = (w - shift) as u128;
        let x = v >> shift;
        let y = v << k;
        lemma_pow2_adds(s as nat, k as nat);
        lemma_pow2_pos(s as nat);
        lemma_pow2_pos(k as nat);
        assert(p == d * e);
        lemma_u128_shr_is_div(v, shift);
        lemma_shl(v, k);
        crate::const_eval::lemma_reduced_word(y, v * pow2(k as nat), w);
        let m = mask(w);
        let hi = canonical(y, w);
        assert((x | y) & m == (x & m) | (y & m)) by (bit_vector);
        vstd::arithmetic::div_mod::lemma_div_nonincreasing(v as int, d);
        lemma_fits(x, w);
        assert(x & m == x);
        // The high part is the low bits of the word, moved up.
        assert(hi == (v as int % d) * e) by {
            vstd::arithmetic::div_mod::lemma_truncate_middle(v as int, e, d);
            vstd::arithmetic::mul::lemma_mul_is_commutative(v as int, e);
            vstd::arithmetic::mul::lemma_mul_is_commutative(v as int % d, e);
            vstd::arithmetic::mul::lemma_mul_is_commutative(d, e);
        }
        // It leaves the place of the low part free.
        assert(x < e) by {
            lemma_fundamental_div_mod(v as int, d);
            lemma_mod_bound(v as int, d);
            assert(x < e) by (nonlinear_arith)
                requires
                    v == d * x + v as int % d,
                    v as int % d >= 0,
                    v < d * e,
                    d > 0,
            ;
        }
        let mk = mask(k as u16);
        lemma_mask(k as u16);
        lemma_fits(x, k as u16);
        assert(x & mk == x);
        lemma_canonical_is_mod(hi, k as u16);
        assert(hi & mk == 0) by {
            vstd::arithmetic::div_mod::lemma_mod_multiples_basic(v as int % d, e);
        }
        assert(x | hi == x + hi) by (bit_vector)
            requires
                x & mk == x,
                hi & mk == 0,
        ;
        assert(rotated_right(v, amount, w) == x + hi);
    }
    lemma_fits(rotated_right(v, amount, w), w);
    if s == 0 {
        assert(rotated_right(v, amount, w) == v);
    }
    lemma_kept_low(v, amount, w);
}

proof fn lemma_kept_low(v: u128, amount: u128, w: u16)
    requires
        valid_width(w),
    ensures
        fits(rotated_right(v, amount, w), w),
{
    lemma_canonical_small(v, w);
    let s = (amount as int % w as int) as u128;
    let whole = (canonical(v, w) >> s) | (canonical(v, w) << ((w - s) as u128));
    lemma_canonical_small(whole, w);
}

/// A range of bits is the number without the lower bits, modulo the range's width; an extension
/// keeps the number, or the number in two's complement.
pub proof fn lemma_ranges(expr: ExprV, a: Word, high: u16, low: u16, to: u16, state: State)
    requires
        eval(expr, state) == Some(a),
        low <= high < a.width <= to <= 128,
    ensures
        gives(
            ExprV::Extract { value: Box::new(expr), high, low },
            (a.value as int / pow2(low as nat) as int) % pow2((high - low + 1) as nat) as int,
            (high - low + 1) as u16,
            state,
        ),
        gives(
            ExprV::ZeroExtend { value: Box::new(expr), to_width: to },
            a.value as int,
            to,
            state,
        ),
        eval(ExprV::SignExtend { value: Box::new(expr), to_width: to }, state) matches Some(w)
            && w.width == to && in_twos(w.value as int, to) == in_twos(a.value as int, a.width),
{
    lemma_is_fitting(expr, state);
    let v = a.value;
    lemma_u128_shr_is_div(v, low as u128);
    assert(v >> low == v >> (low as u128)) by (bit_vector);
    lemma_canonical_is_mod(v >> low, (high - low + 1) as u16);
    if a.width < to {
        lemma_pow2_strictly_increases(a.width as nat, to as nat);
    }
    lemma_kept(v, to);
    lemma_sign_extended(v, a.width, to);
    lemma_signed_is_twos(v, a.width);
    let s = crate::const_eval::sign_extended(v, a.width, to);
    lemma_signed_is_twos(s, to);
}

/// The carry of a sum is set where the sum leaves the range of the width, the carry of a difference
/// where no borrow is needed, and the overflows where the numbers in two's complement leave theirs.
pub proof fn lemma_flags(
    lhs: ExprV,
    a: Word,
    rhs: ExprV,
    b: Word,
    carry: ExprV,
    c: Word,
    state: State,
)
    requires
        have(lhs, a, rhs, b, state),
        eval(carry, state) == Some(c),
        c.width == 1,
    ensures
        ({
            let (l, r, f) = (Box::new(lhs), Box::new(rhs), Box::new(carry));
            let w = a.width;
            let p = pow2(w as nat) as int;
            let h = pow2((w - 1) as nat) as int;
            let sum = in_twos(a.value as int, w) + in_twos(b.value as int, w) + c.value;
            let rest = in_twos(a.value as int, w) - in_twos(b.value as int, w) - c.value;
            &&& gives(
                ExprV::AddCarryOut { lhs: l, rhs: r, carry_in: f, width: w },
                flag(a.value + b.value + c.value >= p),
                1,
                state,
            )
            &&& gives(
                ExprV::SubCarryOut { lhs: l, rhs: r, borrow_in: f, width: w },
                flag(a.value - b.value - c.value >= 0),
                1,
                state,
            )
            &&& gives(
                ExprV::AddOverflow { lhs: l, rhs: r, carry_in: f, width: w },
                flag(sum < -h || sum >= h),
                1,
                state,
            )
            &&& gives(
                ExprV::SubOverflow { lhs: l, rhs: r, borrow_in: f, width: w },
                flag(rest < -h || rest >= h),
                1,
                state,
            )
        }),
{
    lemma_is_fitting(lhs, state);
    lemma_is_fitting(rhs, state);
    lemma_is_fitting(carry, state);
    lemma_signed_is_twos(a.value, a.width);
    lemma_signed_is_twos(b.value, b.width);
    lemma_kept(c.value, 1);
    lemma_bits_kept();
}

/// A selection has the word of one side, by the bit of the condition.
pub proof fn lemma_selection(
    condition: ExprV,
    c: Word,
    when_true: ExprV,
    a: Word,
    when_false: ExprV,
    b: Word,
    state: State,
)
    requires
        eval(condition, state) == Some(c),
        c.width == 1,
        have(when_true, a, when_false, b, state),
    ensures
        ({
            let whole = ExprV::Select {
                condition: Box::new(condition),
                when_true: Box::new(when_true),
                when_false: Box::new(when_false),
            };
            &&& c.value == 1 ==> eval(whole, state) == Some(a)
            &&& c.value == 0 ==> eval(whole, state) == Some(b)
        }),
{
}

/// Two chunks make the word with the first one above the second one.
pub proof fn lemma_two_chunks(lhs: ExprV, a: Word, rhs: ExprV, b: Word, state: State)
    requires
        eval(lhs, state) == Some(a),
        eval(rhs, state) == Some(b),
        a.width + b.width <= 128,
    ensures
        gives(
            ExprV::Concat(seq![lhs, rhs]),
            a.value * pow2(b.width as nat) + b.value,
            (a.width + b.width) as u16,
            state,
        ),
{
    lemma_is_fitting(lhs, state);
    lemma_is_fitting(rhs, state);
    let chunks = seq![lhs, rhs];
    assert(chunks.drop_last() =~= seq![lhs]);
    assert(crate::evaluation::eval_chunks(seq![lhs], state) == Some(a));
    let total = (a.width + b.width) as u16;
    let (x, y) = (pow2(a.width as nat) as int, pow2(b.width as nat) as int);
    lemma_pow2_adds(a.width as nat, b.width as nat);
    lemma_mask(total);
    let value = a.value * y + b.value;
    assert(0 <= value < x * y) by (nonlinear_arith)
        requires
            0 <= a.value < x,
            0 <= b.value < y,
            value == a.value * y + b.value,
    ;
    lemma_kept(value as u128, total);
    assert(crate::evaluation::eval_chunks(chunks, state) == crate::evaluation::joined_word(
        Some(a),
        Some(b),
    ));
}

/// Counting the set bits of a number: none of zero, and one more with another one behind.
pub proof fn lemma_set_bits(value: u128)
    requires
        value <= u128::MAX / 2,
    ensures
        ones(0) == 0,
        ones((2 * value) as u128) == ones(value),
        ones((2 * value + 1) as u128) == ones(value) + 1,
{
    assert(ones(0) == 0);
    let even = (2 * value) as u128;
    let odd = (2 * value + 1) as u128;
    assert(even / 2 == value && even % 2 == 0);
    assert(odd / 2 == value && odd % 2 == 1);
}

/// The count of the set bits of a word is a word of the same width, cut to it.
pub proof fn lemma_count(expr: ExprV, a: Word, state: State)
    requires
        eval(expr, state) == Some(a),
        ones(a.value) <= u128::MAX,
    ensures
        gives(
            ExprV::CountOnes(Box::new(expr)),
            ones(a.value) as int % pow2(a.width as nat) as int,
            a.width,
            state,
        ),
{
    lemma_is_fitting(expr, state);
    lemma_canonical_is_mod(ones(a.value) as u128, a.width);
}

/// What the leaves of an expression stand for: literals and fixed registers for their numbers,
/// cut to their widths.
pub proof fn lemma_leaves(value: u128, width: u16, register: u8, state: State)
    requires
        valid_width(width),
    ensures
        gives(
            ExprV::Const { value, width },
            value as int % pow2(width as nat) as int,
            width,
            state,
        ),
        gives(
            ExprV::Operand(
                crate::instruction_semantics::OperandV::RegisterField(
                    crate::instruction_semantics::RegisterV::Fixed {
                        register,
                        identifier_width: width,
                    },
                ),
            ),
            register as int % pow2(width as nat) as int,
            width,
            state,
        ),
{
    lemma_canonical_is_mod(value, width);
    lemma_canonical_is_mod(register as u128, width);
}

} // verus!
