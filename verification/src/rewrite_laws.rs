//! Why each rewriting step of the canonical form keeps what an expression means.
use vstd::arithmetic::div_mod::{lemma_add_mod_noop, lemma_mod_bound, lemma_small_mod};
use vstd::arithmetic::power2::{lemma_pow2_strictly_increases, pow2};
use vstd::prelude::*;

use crate::canonical_form::{
    and_of, canon_equal, canon_extension, canon_extract, canon_less, canon_not, canon_shift,
    extension_node, lit, masked_select, not_of, or_of, shift_node, strip_nested, sub_step, sum_of,
    ExtensionOp, ShiftOp, Step,
};
use crate::collapse::{BinaryOp, FlagOp};
use crate::const_eval::{
    add_overflows, borrows_not, canonical, carries, combine, difference, lemma_mask, lemma_negative,
    mask, negative, sign_extended, signed, sub_overflows, top_bit, valid_width, AssocCommOp,
};
use crate::evaluation::{
    assoc_word, binary_result, binary_word, eval, extension_word, extract_word, flag_word, is_word,
    lemma_eval_is_word, lemma_eval_width, not_word, select_word, shift_binary, word, State, Word,
};
use crate::expr_shape::width_of;
use crate::instruction_semantics::{bool_view, truth, ExprV};
use crate::word_laws::{fits, lemma_combine_boolean, lemma_combine_fits, lemma_fits};

verus! {

/// The complement of a word is what is missing to the mask.
pub proof fn lemma_complement_value(a: u128, width: u16)
    requires
        fits(a, width),
    ensures
        canonical(!a, width) == pow2(width as nat) - 1 - a,
        fits(canonical(!a, width), width),
{
    lemma_mask(width);
    lemma_fits(!a, width);
    let m = mask(width);
    assert(!a & m == m - a) by (bit_vector)
        requires
            a & m == a,
    ;
}

/// A complement of a literal is folded and a complement of a complement undone.
pub proof fn lemma_not_step(value: ExprV, state: State)
    requires
        eval(value, state) is Some,
        canon_not(Some(value)) is Some,
    ensures
        eval(canon_not(Some(value))->0, state) == not_word(eval(value, state)),
{
    lemma_eval_is_word(value, state);
    match value {
        ExprV::Const { value: v, width } => {
            let m = mask(width);
            assert((!v & m) & m == !(v & m) & m) by (bit_vector);
        },
        ExprV::Not(inner) => {
            lemma_eval_is_word(*inner, state);
            let a = eval(*inner, state)->0;
            lemma_combine_boolean(AssocCommOp::And, a.value, a.value, a.width);
        },
        _ => {},
    }
}

/// Shifts and rotations by zero keep the word, and those of zero give zero.
proof fn lemma_shift_zero(op: ShiftOp, v: u128, amount: u128, width: u16)
    requires
        fits(v, width),
        fits(amount, width),
    ensures
        amount == 0 ==> binary_result(shift_binary(op), v, amount, width) == Some(
            Word { value: v, width },
        ),
        v == 0 ==> binary_result(shift_binary(op), v, amount, width) == Some(
            Word { value: 0, width },
        ),
{
    let m = mask(width);
    let t = top_bit(width);
    lemma_fits(v, width);
    if amount == 0 {
        assert(v << 0u128 == v && v >> 0u128 == v && m ^ (m >> 0u128) == 0 && v | 0 == v)
            by (bit_vector);
        lemma_small_mod(0, width as nat);
    }
    if v == 0 {
        let shift = (amount as int % width as int) as u128;
        let back = (width - shift) as u128;
        assert(0u128 << amount == 0 && 0u128 >> amount == 0 && 0u128 & t == 0 && 0u128 & m == 0
            && (0u128 >> shift) | (0u128 << back) == 0) by (bit_vector);
    }
}

/// A shift of canonical operands keeps its meaning.
pub proof fn lemma_shift_step(op: ShiftOp, value: ExprV, amount: ExprV, state: State)
    requires
        eval(shift_node(op, value, amount), state) is Some,
        canon_shift(op, Some(value), Some(amount)) is Some,
    ensures
        eval(canon_shift(op, Some(value), Some(amount))->0, state) == eval(
            shift_node(op, value, amount),
            state,
        ),
{
    lemma_eval_is_word(value, state);
    lemma_eval_is_word(amount, state);
    assert(eval(shift_node(op, value, amount), state) == binary_word(
        shift_binary(op),
        eval(value, state),
        eval(amount, state),
    ));
    let v = eval(value, state)->0;
    let a = eval(amount, state)->0;
    lemma_shift_zero(op, v.value, a.value, v.width);
    lemma_fits(0, v.width);
}

/// Sign extension keeps the number that a word stands for in two's complement.
pub proof fn lemma_sign_extended(v: u128, from: u16, to: u16)
    requires
        fits(v, from),
        valid_width(to),
        from <= to,
    ensures
        fits(sign_extended(v, from, to), to),
        signed(sign_extended(v, from, to), to) == signed(v, from),
        from == to ==> sign_extended(v, from, to) == v,
{
    let ma = mask(from);
    let mb = mask(to);
    let s = sign_extended(v, from, to);
    lemma_mask(from);
    lemma_mask(to);
    lemma_fits(v, from);
    lemma_fits(ma, to);
    lemma_negative(v, from);
    if from < to {
        lemma_pow2_strictly_increases(from as nat, to as nat);
    }
    assert(fits(ma, to));
    if negative(v, from) {
        assert(v | (mb ^ ma) == v + (mb - ma)) by (bit_vector)
            requires
                v & ma == v,
                ma & mb == ma,
        ;
    }
    lemma_fits(s, to);
    lemma_negative(s, to);
}

/// Words of one width with the same signed number are the same.
proof fn lemma_signed_unique(a: u128, b: u128, width: u16)
    requires
        fits(a, width),
        fits(b, width),
        signed(a, width) == signed(b, width),
    ensures
        a == b,
{
    lemma_fits(a, width);
    lemma_fits(b, width);
    lemma_negative(a, width);
    lemma_negative(b, width);
}

/// An extension of an extension of the same kind extends at once.
pub proof fn lemma_extension_step(op: ExtensionOp, value: ExprV, to_width: u16, state: State)
    requires
        eval(extension_node(op, value, to_width), state) is Some,
        canon_extension(op, Some(value), to_width) is Some,
    ensures
        eval(canon_extension(op, Some(value), to_width)->0, state) == eval(
            extension_node(op, value, to_width),
            state,
        ),
{
    assert(eval(extension_node(op, value, to_width), state) == extension_word(
        op,
        eval(value, state),
        to_width,
    ));
    lemma_eval_is_word(value, state);
    let v = eval(value, state)->0;
    lemma_fits(v.value, to_width);
    if v.width < to_width {
        lemma_pow2_strictly_increases(v.width as nat, to_width as nat);
    }
    lemma_sign_extended(v.value, v.width, to_width);
    if width_of(value) is Some {
        lemma_eval_width(value, state);
    }
    let inner = strip_nested(op, value);
    if width_of(value) != Some(to_width) && inner != value {
        lemma_eval_is_word(inner, state);
        let x = eval(inner, state)->0;
        assert(eval(value, state) == extension_word(op, eval(inner, state), v.width));
        lemma_fits(x.value, to_width);
        lemma_fits(x.value, v.width);
        if x.width < v.width {
            lemma_pow2_strictly_increases(x.width as nat, v.width as nat);
        }
        lemma_sign_extended(x.value, x.width, v.width);
        lemma_sign_extended(x.value, x.width, to_width);
        if op == ExtensionOp::Sign {
            lemma_signed_unique(
                sign_extended(x.value, x.width, to_width),
                sign_extended(v.value, v.width, to_width),
                to_width,
            );
        }
        assert(eval(extension_node(op, inner, to_width), state) == extension_word(
            op,
            eval(inner, state),
            to_width,
        ));
    }
}

/// The full bit range is the value.
pub proof fn lemma_extract_step(value: ExprV, high: u16, low: u16, state: State)
    requires
        extract_word(eval(value, state), high, low) is Some,
        canon_extract(Some(value), high, low) is Some,
    ensures
        eval(canon_extract(Some(value), high, low)->0, state) == extract_word(
            eval(value, state),
            high,
            low,
        ),
{
    lemma_eval_is_word(value, state);
    let v = eval(value, state)->0.value;
    assert(v >> 0u16 == v) by (bit_vector);
    if width_of(value) is Some {
        lemma_eval_width(value, state);
    }
}

/// The words of the truth values.
pub proof fn lemma_truth(b: bool, state: State)
    ensures
        eval(bool_view(b), state) == word(truth(b), 1),
        word(truth(b), 1) == Some(Word { value: truth(b), width: 1 }),
{
    lemma_fits(truth(b), 1);
}

/// An equality may exchange its sides.
pub proof fn lemma_equal_step(lhs: ExprV, rhs: ExprV, state: State)
    requires
        binary_word(BinaryOp::Equal, eval(lhs, state), eval(rhs, state)) is Some,
    ensures
        eval(canon_equal(Some(lhs), Some(rhs))->0, state) == binary_word(
            BinaryOp::Equal,
            eval(lhs, state),
            eval(rhs, state),
        ),
{
    lemma_truth(true, state);
}

/// Nothing is less than itself.
pub proof fn lemma_less_step(is_signed: bool, lhs: ExprV, rhs: ExprV, state: State)
    requires
        binary_word(
            if is_signed {
                BinaryOp::SignedLessThan
            } else {
                BinaryOp::UnsignedLessThan
            },
            eval(lhs, state),
            eval(rhs, state),
        ) is Some,
    ensures
        eval(canon_less(is_signed, Some(lhs), Some(rhs))->0, state) == binary_word(
            if is_signed {
                BinaryOp::SignedLessThan
            } else {
                BinaryOp::UnsignedLessThan
            },
            eval(lhs, state),
            eval(rhs, state),
        ),
{
    lemma_truth(false, state);
}

/// The flags of a difference are those of a sum with the complements.
pub(crate) proof fn lemma_flag_values(l: u128, r: u128, b: u128, width: u16)
    requires
        fits(l, width),
        fits(r, width),
        fits(b, 1),
    ensures
        carries(l, canonical(!r, width), canonical(!b, 1), width) == borrows_not(l, r, b, width),
        add_overflows(l, canonical(!r, width), canonical(!b, 1), width) == sub_overflows(
            l,
            r,
            b,
            width,
        ),
{
    lemma_complement_value(r, width);
    lemma_complement_value(b, 1);
    lemma_mask(width);
    lemma_mask(1);
    lemma_fits(l, width);
    lemma_fits(r, width);
    lemma_fits(b, 1);
    let nr = canonical(!r, width);
    lemma_negative(r, width);
    lemma_negative(nr, width);
    assert(pow2(1) == 2) by {
        vstd::arithmetic::power2::lemma2_to64();
    }
}

/// The flags of a difference are written with a sum.
pub proof fn lemma_flag_step(
    overflow: bool,
    lhs: Option<Word>,
    rhs: Option<Word>,
    borrow: Option<Word>,
    width: u16,
)
    requires
        lhs matches Some(w) ==> is_word(w),
        rhs matches Some(w) ==> is_word(w),
        borrow matches Some(w) ==> is_word(w),
        flag_word(
            if overflow {
                FlagOp::SubOverflow
            } else {
                FlagOp::SubCarryOut
            },
            lhs,
            rhs,
            borrow,
            width,
        ) is Some,
    ensures
        flag_word(
            if overflow {
                FlagOp::SubOverflow
            } else {
                FlagOp::SubCarryOut
            },
            lhs,
            rhs,
            borrow,
            width,
        ) == flag_word(
            if overflow {
                FlagOp::AddOverflow
            } else {
                FlagOp::AddCarryOut
            },
            lhs,
            not_word(rhs),
            not_word(borrow),
            width,
        ),
{
    lemma_flag_values(lhs->0.value, rhs->0.value, borrow->0.value, width);
}

/// A difference is a sum with the complement and one.
pub(crate) proof fn lemma_difference_value(l: u128, r: u128, width: u16)
    requires
        fits(l, width),
        fits(r, width),
    ensures
        combine(
            AssocCommOp::Add,
            combine(AssocCommOp::Add, l, canonical(!r, width), width),
            1,
            width,
        ) == difference(l, r, width),
        fits(difference(l, r, width), width),
        r == 0 ==> difference(l, r, width) == l,
        l == r ==> difference(l, r, width) == 0,
{
    let p = pow2(width as nat) as int;
    lemma_complement_value(r, width);
    lemma_fits(l, width);
    lemma_fits(r, width);
    let nr = canonical(!r, width);
    lemma_combine_fits(AssocCommOp::Add, l, nr, width);
    lemma_combine_fits(
        AssocCommOp::Add,
        combine(AssocCommOp::Add, l, nr, width),
        1,
        width,
    );
    lemma_add_mod_noop(l + nr, 1, p);
    lemma_small_mod(1, p as nat);
    assert(((l + nr) % p + 1) % p == (l + nr + 1) % p);
    assert(l + nr + 1 == p + (l - r));
    vstd::arithmetic::div_mod::lemma_mod_add_multiples_vanish(l - r, p);
    lemma_mod_bound(l - r, p);
    lemma_fits(difference(l, r, width), width);
    lemma_small_mod(l as nat, p as nat);
    lemma_small_mod(0, p as nat);
}

/// What a difference is rewritten to means the difference.
pub proof fn lemma_sub_step(lhs: ExprV, rhs: ExprV, state: State)
    requires
        binary_word(BinaryOp::Sub, eval(lhs, state), eval(rhs, state)) is Some,
    ensures
        sub_step(Some(lhs), Some(rhs)) matches Step::Done(e) ==> eval(e, state) == binary_word(
            BinaryOp::Sub,
            eval(lhs, state),
            eval(rhs, state),
        ),
        sub_step(Some(lhs), Some(rhs)) matches Step::Rewrite(e) ==> eval(e, state) == binary_word(
            BinaryOp::Sub,
            eval(lhs, state),
            eval(rhs, state),
        ),
{
    lemma_eval_is_word(lhs, state);
    lemma_eval_is_word(rhs, state);
    let l = eval(lhs, state)->0;
    let r = eval(rhs, state)->0;
    let w = l.width;
    lemma_difference_value(l.value, r.value, w);
    lemma_fits(0, w);
    if width_of(lhs) is Some {
        lemma_eval_width(lhs, state);
        let nr = canonical(!r.value, w);
        lemma_complement_value(r.value, w);
        lemma_combine_fits(AssocCommOp::Add, l.value, nr, w);
        let first = combine(AssocCommOp::Add, l.value, nr, w);
        lemma_combine_fits(AssocCommOp::Add, first, 1, w);
        assert(eval(not_of(rhs), state) == Some(Word { value: nr, width: w }));
        assert(eval(lit(1, w), state) == Some(Word { value: 1, width: w }));
        assert(eval(sum_of(lhs, not_of(rhs)), state) == Some(Word { value: first, width: w }));
    }
}

/// Disjunctions written with conjunctions and complements mean the same.
pub proof fn lemma_or_lowered(lhs: ExprV, rhs: ExprV, state: State)
    requires
        assoc_word(AssocCommOp::Or, eval(lhs, state), eval(rhs, state)) is Some,
    ensures
        eval(not_of(and_of(not_of(lhs), not_of(rhs))), state) == assoc_word(
            AssocCommOp::Or,
            eval(lhs, state),
            eval(rhs, state),
        ),
{
    lemma_eval_is_word(lhs, state);
    lemma_eval_is_word(rhs, state);
    let a = eval(lhs, state)->0;
    let b = eval(rhs, state)->0;
    let w = a.width;
    let na = canonical(!a.value, w);
    let nb = canonical(!b.value, w);
    lemma_combine_boolean(AssocCommOp::Or, a.value, b.value, w);
    lemma_combine_boolean(AssocCommOp::Or, b.value, a.value, w);
    lemma_combine_fits(AssocCommOp::And, na, nb, w);
    lemma_combine_fits(AssocCommOp::Or, a.value, b.value, w);
    assert(eval(not_of(lhs), state) == Some(Word { value: na, width: w }));
    assert(eval(not_of(rhs), state) == Some(Word { value: nb, width: w }));
    assert(eval(and_of(not_of(lhs), not_of(rhs)), state) == Some(
        Word { value: combine(AssocCommOp::And, na, nb, w), width: w },
    ));
}

/// Exclusive disjunctions written with the other operators mean the same.
pub proof fn lemma_xor_lowered(lhs: ExprV, rhs: ExprV, state: State)
    requires
        assoc_word(AssocCommOp::Xor, eval(lhs, state), eval(rhs, state)) is Some,
    ensures
        eval(or_of(and_of(lhs, not_of(rhs)), and_of(not_of(lhs), rhs)), state) == assoc_word(
            AssocCommOp::Xor,
            eval(lhs, state),
            eval(rhs, state),
        ),
{
    lemma_eval_is_word(lhs, state);
    lemma_eval_is_word(rhs, state);
    let a = eval(lhs, state)->0;
    let b = eval(rhs, state)->0;
    let w = a.width;
    let na = canonical(!a.value, w);
    let nb = canonical(!b.value, w);
    lemma_combine_boolean(AssocCommOp::Or, a.value, b.value, w);
    lemma_combine_boolean(AssocCommOp::Or, b.value, a.value, w);
    lemma_combine_fits(AssocCommOp::And, a.value, nb, w);
    lemma_combine_fits(AssocCommOp::And, na, b.value, w);
    lemma_combine_fits(AssocCommOp::Xor, a.value, b.value, w);
    assert(eval(not_of(lhs), state) == Some(Word { value: na, width: w }));
    assert(eval(not_of(rhs), state) == Some(Word { value: nb, width: w }));
    assert(eval(and_of(lhs, not_of(rhs)), state) == Some(
        Word { value: combine(AssocCommOp::And, a.value, nb, w), width: w },
    ));
    assert(eval(and_of(not_of(lhs), rhs), state) == Some(
        Word { value: combine(AssocCommOp::And, na, b.value, w), width: w },
    ));
}

/// A selection written with a mask means the same.
pub proof fn lemma_select_lowered(
    condition: ExprV,
    when_true: ExprV,
    when_false: ExprV,
    width: u16,
    state: State,
)
    requires
        select_word(eval(condition, state), eval(when_true, state), eval(when_false, state))
            is Some,
        eval(when_true, state)->0.width == width,
    ensures
        eval(masked_select(condition, when_true, when_false, width), state) == select_word(
            eval(condition, state),
            eval(when_true, state),
            eval(when_false, state),
        ),
{
    lemma_eval_is_word(condition, state);
    lemma_eval_is_word(when_true, state);
    lemma_eval_is_word(when_false, state);
    let c = eval(condition, state)->0.value;
    let t = eval(when_true, state)->0.value;
    let f = eval(when_false, state)->0.value;
    let k = mask(width);
    let wide = ExprV::SignExtend { value: Box::new(condition), to_width: width };
    let s = sign_extended(c, 1, width);
    lemma_sign_extended(c, 1, width);
    lemma_fits(c, 1);
    lemma_fits(s, width);
    lemma_negative(c, 1);
    lemma_negative(s, width);
    assert(pow2(0) == 1 && pow2(1) == 2) by {
        vstd::arithmetic::power2::lemma2_to64();
    }
    assert(c == 0 || c == 1);
    assert(c == 1 ==> s == k);
    assert(c == 0 ==> s == 0);
    let ns = !s & k;
    let x = ns & f;
    let y = s & t;
    let nx = !x & k;
    let ny = !y & k;
    let z = nx & ny;
    assert(x & k == x && y & k == y && nx & k == nx && ny & k == ny && z & k == z && ns & k == ns
        && (s == k ==> !z & k == t) && (s == 0 ==> !z & k == f)) by (bit_vector)
        requires
            s & k == s,
            t & k == t,
            f & k == f,
            ns == !s & k,
            x == ns & f,
            y == s & t,
            nx == !x & k,
            ny == !y & k,
            z == nx & ny,
    ;
    let w = width;
    assert(eval(wide, state) == Some(Word { value: s, width: w }));
    assert(eval(not_of(wide), state) == Some(Word { value: ns, width: w }));
    assert(eval(and_of(not_of(wide), when_false), state) == Some(Word { value: x, width: w }));
    assert(eval(and_of(wide, when_true), state) == Some(Word { value: y, width: w }));
    assert(eval(not_of(and_of(not_of(wide), when_false)), state) == Some(
        Word { value: nx, width: w },
    ));
    assert(eval(not_of(and_of(wide, when_true)), state) == Some(Word { value: ny, width: w }));
    assert(eval(
        and_of(
            not_of(and_of(not_of(wide), when_false)),
            not_of(and_of(wide, when_true)),
        ),
        state,
    ) == Some(Word { value: z, width: w }));
}

} // verus!
