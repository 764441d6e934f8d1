//! Why a product with a constant may become a sum of shifts.
use vstd::arithmetic::div_mod::{
    lemma_add_mod_noop, lemma_mod_bound, lemma_mod_twice, lemma_mul_mod_noop, lemma_small_mod,
};
use vstd::arithmetic::power2::{lemma_pow2_adds, lemma_pow2_unfold, pow2};
use vstd::prelude::*;

use crate::canonical_form::{doubled, lit, mul_step, shifted_sum, sum_of, Step};
use crate::canonical_shape::plain;
use crate::const_eval::{
    canonical, lemma_canonical_is_mod, lemma_mask, lemma_reduced_word, mask, shifted_left,
    AssocCommOp,
};
use crate::evaluation::{eval, lemma_eval_is_word, lemma_eval_width, State, Word};
use crate::expr_shape::width_of;
use crate::instruction_semantics::ExprV;
use crate::tree_laws::{has_width, lemma_value_fits, value_of};
use crate::word_laws::{fits, lemma_combine_fits, lemma_fits};

verus! {

/// The place of the highest set bit.
pub open spec fn high_bit(n: u128) -> nat
    decreases n,
{
    if n <= 1 {
        0
    } else {
        high_bit(n / 2) + 1
    }
}

/// The amount that a term is already shifted by.
pub open spec fn base_shift(term: ExprV, state: State) -> u128 {
    match term {
        ExprV::ShiftLeft(_, amount) => value_of(*amount, state),
        _ => 0,
    }
}

/// No amount that the term is shifted by on behalf of the factor wraps around.
pub open spec fn amounts_fit(term: ExprV, factor: u128, state: State, width: u16) -> bool {
    base_shift(term, state) + high_bit(factor) < pow2(width as nat)
}

/// A product of a shifted term and a literal has no amount that wraps around.
pub open spec fn product_fits(expr: ExprV, state: State) -> bool {
    match expr {
        ExprV::Mul(lhs, rhs) => match (*lhs, *rhs) {
            (ExprV::Const { .. }, ExprV::Const { .. }) => true,
            (ExprV::Const { value, width }, term) | (term, ExprV::Const { value, width }) => {
                term is ShiftLeft ==> amounts_fit(term, value, state, width)
            },
            _ => true,
        },
        _ => true,
    }
}

/// A left shift of a word within a 128-bit word is a product modulo the range.
pub(crate) proof fn lemma_shl(v: u128, amount: u128)
    requires
        amount < 128,
    ensures
        v << amount == (v * pow2(amount as nat)) % (u128::MAX + 1),
    decreases amount,
{
    let q = (u128::MAX + 1) as int;
    if amount == 0 {
        assert(v << 0u128 == v) by (bit_vector);
        assert(pow2(0) == 1) by {
            vstd::arithmetic::power2::lemma2_to64();
        }
        lemma_small_mod(v as nat, q as nat);
    } else {
        let less = (amount - 1) as u128;
        lemma_shl(v, less);
        lemma_pow2_unfold(amount as nat);
        let y = v << less;
        assert(v << amount == 2 * (y & 0x7fff_ffff_ffff_ffff_ffff_ffff_ffff_ffffu128))
            by (bit_vector)
            requires
                0 < amount < 128,
                less == amount - 1,
                y == v << less,
        ;
        lemma_mask(127);
        lemma_mask(128);
        assert(mask(127) == 0x7fff_ffff_ffff_ffff_ffff_ffff_ffff_ffffu128);
        lemma_canonical_is_mod(y, 127);
        let h = pow2(127) as int;
        assert(q == 2 * h);
        let x = v * pow2(less as nat);
        assert(2 * (y as int % h) == (2 * y) % q) by {
            vstd::arithmetic::div_mod::lemma_truncate_middle(y as int, 2, h);
        }
        lemma_mul_mod_noop(2, x, q);
        lemma_mul_mod_noop(2, y as int, q);
        lemma_mod_twice(x, q);
        assert((2 * y) % q == (2 * x) % q);
        assert(v * pow2(amount as nat) == 2 * x) by (nonlinear_arith)
            requires
                x == v * pow2(less as nat),
                pow2(amount as nat) == 2 * pow2(less as nat),
        ;
    }
}

/// A left shift is a product with a power of two, modulo the width.
pub proof fn lemma_shifted_left(v: u128, amount: u128, width: u16)
    requires
        fits(v, width),
    ensures
        shifted_left(v, amount, width) == (v * pow2(amount as nat)) % pow2(width as nat) as int,
        fits(shifted_left(v, amount, width), width),
{
    let p = pow2(width as nat) as int;
    lemma_fits(v, width);
    lemma_mod_bound(v * pow2(amount as nat), p);
    if amount >= width {
        let rest = (amount - width) as nat;
        lemma_pow2_adds(width as nat, rest);
        let k = v * pow2(rest);
        assert(v * pow2(amount as nat) == p * k) by (nonlinear_arith)
            requires
                k == v * pow2(rest),
                pow2(amount as nat) == p * pow2(rest),
        ;
        vstd::arithmetic::div_mod::lemma_mod_multiples_basic(k as int, p);
        vstd::arithmetic::mul::lemma_mul_is_commutative(p, k as int);
    } else {
        lemma_shl(v, amount);
        lemma_reduced_word(v << amount, v * pow2(amount as nat), width);
    }
    lemma_fits(shifted_left(v, amount, width), width);
}

/// One more place to the left doubles a word.
proof fn lemma_shift_doubles(v: u128, amount: u128, width: u16)
    requires
        fits(v, width),
        amount < u128::MAX,
    ensures
        shifted_left(v, (amount + 1) as u128, width) == (2 * shifted_left(v, amount, width))
            % pow2(width as nat) as int,
{
    let p = pow2(width as nat) as int;
    lemma_fits(v, width);
    lemma_shifted_left(v, amount, width);
    lemma_shifted_left(v, (amount + 1) as u128, width);
    lemma_pow2_unfold((amount + 1) as nat);
    let x = v * pow2(amount as nat);
    assert(v * pow2((amount + 1) as nat) == 2 * x) by (nonlinear_arith)
        requires
            x == v * pow2(amount as nat),
            pow2((amount + 1) as nat) == 2 * pow2(amount as nat),
    ;
    lemma_mul_mod_noop(2, x, p);
    lemma_mul_mod_noop(2, x % p, p);
    lemma_mod_twice(x, p);
}

/// The doubled term means twice the term, and is shifted by one place more.
proof fn lemma_doubled(term: ExprV, state: State, width: u16)
    requires
        has_width(term, state, width),
        base_shift(term, state) + 1 < pow2(width as nat),
    ensures
        has_width(doubled(term, width), state, width),
        value_of(doubled(term, width), state) == (2 * value_of(term, state)) % pow2(
            width as nat,
        ) as int,
        base_shift(doubled(term, width), state) == base_shift(term, state) + 1,
{
    lemma_value_fits(term, state, width);
    lemma_fits(1, width);
    assert(eval(lit(1, width), state) == Some(Word { value: 1, width }));
    match term {
        ExprV::ShiftLeft(value, amount) => {
            lemma_eval_is_word(*value, state);
            lemma_eval_is_word(*amount, state);
            let v = value_of(*value, state);
            let a = value_of(*amount, state);
            lemma_combine_fits(AssocCommOp::Add, a, 1, width);
            lemma_small_mod((a + 1) as nat, pow2(width as nat));
            let more = sum_of(*amount, lit(1, width));
            assert(eval(more, state) == Some(Word { value: (a + 1) as u128, width }));
            lemma_shift_doubles(v, a, width);
            lemma_shifted_left(v, a, width);
            lemma_shifted_left(v, (a + 1) as u128, width);
        },
        _ => {
            let v = value_of(term, state);
            lemma_shift_doubles(v, 0, width);
            lemma_shifted_left(v, 1, width);
            lemma_shifted_left(v, 0, width);
            assert(pow2(0) == 1) by {
                vstd::arithmetic::power2::lemma2_to64();
            }
            lemma_fits(v, width);
            lemma_small_mod(v as nat, pow2(width as nat));
        },
    }
}

/// The sum of the shifted terms means the sum with the product.
pub proof fn lemma_shifted_sum(
    term: ExprV,
    factor: u128,
    sum: ExprV,
    state: State,
    width: u16,
)
    requires
        has_width(term, state, width),
        has_width(sum, state, width),
        amounts_fit(term, factor, state, width),
    ensures
        eval(shifted_sum(term, factor, sum, width), state) == Some(
            Word {
                value: ((value_of(sum, state) + value_of(term, state) * factor) % pow2(
                    width as nat,
                ) as int) as u128,
                width,
            },
        ),
    decreases factor,
{
    let p = pow2(width as nat) as int;
    let t = value_of(term, state);
    let s = value_of(sum, state);
    lemma_value_fits(term, state, width);
    lemma_value_fits(sum, state, width);
    lemma_fits(s, width);
    lemma_fits(t, width);
    if factor == 0 {
        assert(t * 0 == 0) by (nonlinear_arith);
        lemma_small_mod(s as nat, p as nat);
    } else {
        let half = factor / 2;
        let next_sum = if factor % 2 == 1 {
            sum_of(sum, term)
        } else {
            sum
        };
        let bit = factor as int % 2;
        lemma_combine_fits(AssocCommOp::Add, s, t, width);
        assert(t * 1 == t && t * 0 == 0) by (nonlinear_arith);
        lemma_small_mod(s as nat, p as nat);
        assert(value_of(next_sum, state) == (s + t * bit) % p);
        assert(has_width(next_sum, state, width));
        if half == 0 {
            assert(factor == 1);
            assert(shifted_sum(doubled(term, width), half, next_sum, width) == next_sum);
            lemma_value_fits(next_sum, state, width);
        } else {
            lemma_doubled(term, state, width);
            lemma_shifted_sum(doubled(term, width), half, next_sum, state, width);
            let n = value_of(next_sum, state) as int;
            let d = value_of(doubled(term, width), state) as int;
            assert((n + d * half) % p == (s + t * factor) % p) by {
                lemma_add_mod_noop(n, d * half, p);
                lemma_mul_mod_noop(d, half as int, p);
                lemma_mod_twice(2 * t, p);
                lemma_mul_mod_noop(2 * t, half as int, p);
                assert((d * half) % p == ((2 * t) * half) % p);
                lemma_mod_twice(s + t * bit, p);
                lemma_add_mod_noop(s + t * bit, (2 * t) * half, p);
                assert(s + t * bit + (2 * t) * half == s + t * factor) by (nonlinear_arith)
                    requires
                        factor == 2 * half + bit,
                ;
            }
        }
    }
}

/// A number below a power of two has its highest bit below the exponent.
proof fn lemma_high_bit(n: u128, width: nat)
    requires
        n < pow2(width),
        width >= 1,
    ensures
        high_bit(n) < width,
        width < pow2(width),
    decreases width,
{
    lemma_pow2_unfold(width);
    assert(pow2(0) == 1 && pow2(1) == 2) by {
        vstd::arithmetic::power2::lemma2_to64();
    }
    if width > 1 {
        lemma_high_bit(n / 2, (width - 1) as nat);
    }
}

/// What a product with a constant is rewritten to means the product.
pub proof fn lemma_mul_step(expr: ExprV, state: State)
    requires
        eval(expr, state) is Some,
        product_fits(expr, state),
        plain(expr),
    ensures
        mul_step(Some(expr)) matches Step::Done(e) ==> eval(e, state) == eval(expr, state),
        mul_step(Some(expr)) matches Step::Rewrite(e) ==> eval(e, state) == eval(expr, state),
{
    if width_of(expr) is Some {
        lemma_eval_width(expr, state);
        let width = eval(expr, state)->0.width;
        match expr {
            ExprV::Mul(lhs, rhs) => {
                lemma_eval_is_word(*lhs, state);
                lemma_eval_is_word(*rhs, state);
                let p = pow2(width as nat) as int;
                let l = value_of(*lhs, state);
                let r = value_of(*rhs, state);
                lemma_combine_fits(AssocCommOp::Mul, l, r, width);
                lemma_fits(0, width);
                assert(eval(expr, state) == Some(
                    Word { value: ((l * r) % p) as u128, width },
                ));
                assert(eval(lit(0, width), state) == Some(Word { value: 0, width }));
                if *lhs is Const {
                    let a = lhs->Const_value;
                    lemma_canonical_is_mod(a, width);
                    if *rhs is Const {
                        let b = rhs->Const_value;
                        lemma_canonical_is_mod(b, width);
                        lemma_mul_mod_noop(a as int, b as int, p);
                        if a * b <= u128::MAX {
                            lemma_fits((a * b) as u128, width);
                            lemma_canonical_is_mod((a * b) as u128, width);
                            lemma_fits(canonical((a * b) as u128, width), width);
                        }
                    } else {
                        assert(plain(*lhs));
                        lemma_fits(a, width);
                        lemma_high_bit(a, width as nat);
                        lemma_shifted_sum(*rhs, a, lit(0, width), state, width);
                        lemma_mul_mod_noop(a as int, r as int, p);
                        lemma_mul_mod_noop(l as int, r as int, p);
                        lemma_mod_twice(a as int, p);
                        vstd::arithmetic::mul::lemma_mul_is_commutative(a as int, r as int);
                    }
                } else if *rhs is Const {
                    let b = rhs->Const_value;
                    lemma_canonical_is_mod(b, width);
                    assert(plain(*rhs));
                    lemma_fits(b, width);
                    lemma_high_bit(b, width as nat);
                    lemma_shifted_sum(*lhs, b, lit(0, width), state, width);
                    lemma_mul_mod_noop(l as int, b as int, p);
                    lemma_mul_mod_noop(l as int, r as int, p);
                    lemma_mod_twice(b as int, p);
                }
            },
            _ => {},
        }
    }
}

} // verus!
