//! Identities that canonical forms decide.
use vstd::arithmetic::power2::{lemma2_to64, pow2};
use vstd::prelude::*;

use crate::canonical_fixed::{lemma_canon_settled, lemma_nothing_absorbed, settled};
use crate::canonical_form::{
    absorbed, at_end, cancel_pairs, cancelled_width, canon, canon_all, canon_assoc, canon_extension,
    canon_not, canon_shift, combine_terms, contains_term, dedup, doubled, extension_node,
    first_width, flatten, flatten_all, has_complement, includes, insert_by_key, is_node, joined,
    kept, known, lit, lower_step, merge_chunks, mul_step, node, not_of, opposite, reaches_end,
    rebuild, reduced, reduced_constant, run_length, select_step, settle, shift_node, shifted_sum,
    sorted_by_key, strip_nested, sub_step, sum_of, unabsorbed, unknowns, weight, ExtensionOp,
    ShiftOp, Step,
};
use crate::canonical_weight::{lemma_steps_shrink, lemma_tree_parts, next_step};
use crate::canonicalize::{lemma_canon_all, lemma_canon_each};
use crate::const_eval::{
    canonical, is_annihilator, is_identity, lemma_canonical_is_mod, lemma_mask, mask, valid_width,
    AssocCommOp,
};
use crate::expr_shape::{key_le, shared_width, width_of};
use crate::expr_weight::lemma_weight_children;
use crate::instruction_semantics::{children, ExprV};
use crate::order_laws::lemma_known_met;
use crate::word_laws::fits;

verus! {

/// A canonical literal is one within its width.
proof fn lemma_canonical_literal(expr: ExprV)
    requires
        canon(expr) is Some,
        canon(expr)->0 is Const,
    ensures
        ({
            let value = canon(expr)->0->Const_value;
            let width = canon(expr)->0->Const_width;
            valid_width(width) && canonical(value, width) == value
        }),
{
    lemma_canon_settled(expr);
    let made = canon(expr)->0;
    assert(canon(made) == Some(made));
}

/// A complement that is undone leaves the canonical form.
pub proof fn lemma_double_complement(expr: ExprV)
    requires
        canon(expr) is Some,
    ensures
        canon(ExprV::Not(Box::new(ExprV::Not(Box::new(expr))))) == canon(expr),
{
    let made = canon(expr)->0;
    let once = ExprV::Not(Box::new(expr));
    let twice = ExprV::Not(Box::new(once));
    assert(canon(once) == canon_not(Some(made)));
    assert(canon(twice) == canon_not(canon(once)));
    match made {
        ExprV::Const { value, width } => {
            lemma_canonical_literal(expr);
            let m = mask(width);
            let low = canonical(!value, width);
            assert(low == (!value) & m);
            assert((!((!value) & m)) & m == value) by (bit_vector)
                requires
                    value & m == value,
            ;
            assert(canonical(!low, width) == value);
        },
        ExprV::Not(inner) => {
            lemma_canon_settled(expr);
            assert(settled(made));
            assert(settled(*inner));
            assert(canon(*inner) == Some(*inner));
            assert(canon(made) == canon_not(canon(*inner)));
            assert(!(*inner is Not)) by {
                if let ExprV::Not(deep) = *inner {
                    assert(canon_not(Some(*inner)) == Some(*deep));
                    assert(made == *deep);
                    assert(false) by {
                        assert(*deep == ExprV::Not(Box::new(ExprV::Not(deep))));
                        lemma_no_loop(*deep);
                    }
                }
            }
            assert(!(*inner is Const)) by {
                if let ExprV::Const { value, width } = *inner {
                    assert(canon_not(Some(*inner)) != Some(made));
                }
            }
        },
        _ => {},
    }
}

proof fn lemma_no_loop(expr: ExprV)
    ensures
        expr != not_of(not_of(expr)),
    decreases expr,
{
    if expr == not_of(not_of(expr)) {
        if let ExprV::Not(one) = expr {
            if let ExprV::Not(two) = *one {
                assert(*two == expr);
                lemma_no_loop(*two);
            }
        }
    }
}

/// A difference of an expression and itself is zero, and a difference by zero is the expression.
pub proof fn lemma_difference_identities(expr: ExprV, width: u16)
    requires
        canon(expr) is Some,
        valid_width(width),
        width_of(canon(expr)->0) == Some(width),
    ensures
        canon(ExprV::Sub(Box::new(expr), Box::new(expr))) == Some(
            ExprV::Const { value: 0, width },
        ),
        canon(
            ExprV::Sub(Box::new(expr), Box::new(ExprV::Const { value: 0, width })),
        ) == canon(expr),
{
    let made = canon(expr)->0;
    let zero = lit(0, width);
    assert(0u128 & mask(width) == 0) by {
        let m = mask(width);
        assert(0u128 & m == 0) by (bit_vector);
    }
    assert(canon(zero) == Some(zero));
    let same = ExprV::Sub(Box::new(expr), Box::new(expr));
    assert(canon(same) == settle(sub_step(Some(made), Some(made)), weight(same)));
    if let ExprV::Const { value, width: w } = made {
        lemma_canonical_literal(expr);
    }
    assert(sub_step(Some(made), Some(made)) == Step::Done(zero));
    let by_zero = ExprV::Sub(Box::new(expr), Box::new(zero));
    assert(canon(by_zero) == settle(sub_step(Some(made), Some(zero)), weight(by_zero)));
}

/// An expression equals itself and is not less than itself, and an equality has no order.
pub proof fn lemma_comparison_identities(expr: ExprV)
    requires
        canon(expr) is Some,
    ensures
        canon(ExprV::Equal(Box::new(expr), Box::new(expr))) == Some(
            ExprV::Const { value: 1, width: 1 },
        ),
        canon(ExprV::UnsignedLessThan(Box::new(expr), Box::new(expr))) == Some(
            ExprV::Const { value: 0, width: 1 },
        ),
        canon(ExprV::SignedLessThan(Box::new(expr), Box::new(expr))) == Some(
            ExprV::Const { value: 0, width: 1 },
        ),
{
}

/// A shift or a rotation by zero leaves the expression, and zero stays zero.
pub proof fn lemma_shift_identities(op: ShiftOp, expr: ExprV, width: u16, amount: ExprV)
    requires
        canon(expr) is Some,
        valid_width(width),
        canon(amount) is Some,
    ensures
        canon(shift_node(op, expr, ExprV::Const { value: 0, width })) == canon(expr),
        canon(shift_node(op, ExprV::Const { value: 0, width }, amount)) == Some(
            ExprV::Const { value: 0, width },
        ),
{
    let zero = lit(0, width);
    let m = mask(width);
    assert(0u128 & m == 0) by (bit_vector);
    assert(canon(zero) == Some(zero));
    let a = shift_node(op, expr, zero);
    let b = shift_node(op, zero, amount);
    assert(canon(a) == canon_shift(op, canon(expr), Some(zero)));
    assert(canon(b) == canon_shift(op, Some(zero), canon(amount)));
    if canon(amount)->0 is Const {
        lemma_canonical_literal(amount);
    }
}

/// An extension to the width that an expression has, and the range of all of its bits, are the
/// expression.
pub proof fn lemma_width_identities(expr: ExprV, width: u16)
    requires
        canon(expr) is Some,
        valid_width(width),
        width_of(canon(expr)->0) == Some(width),
    ensures
        canon(ExprV::ZeroExtend { value: Box::new(expr), to_width: width }) == canon(expr),
        canon(ExprV::SignExtend { value: Box::new(expr), to_width: width }) == canon(expr),
        canon(
            ExprV::Extract { value: Box::new(expr), high: (width - 1) as u16, low: 0 },
        ) == canon(expr),
{
}

/// A selection with a known condition is the arm that it selects, and one of equal arms is the arm.
pub proof fn lemma_selection_identities(condition: ExprV, a: ExprV, b: ExprV)
    requires
        canon(condition) is Some,
        canon(condition)->0 is Const ==> canon(condition)->0->Const_width == 1,
        canon(a) is Some,
        canon(b) is Some,
    ensures
        canon(condition) == Some(ExprV::Const { value: 1, width: 1 }) ==> canon(
            ExprV::Select {
                condition: Box::new(condition),
                when_true: Box::new(a),
                when_false: Box::new(b),
            },
        ) == canon(a),
        canon(condition) == Some(ExprV::Const { value: 0, width: 1 }) ==> canon(
            ExprV::Select {
                condition: Box::new(condition),
                when_true: Box::new(a),
                when_false: Box::new(b),
            },
        ) == canon(b),
        canon(
            ExprV::Select {
                condition: Box::new(condition),
                when_true: Box::new(a),
                when_false: Box::new(a),
            },
        ) == canon(a),
{
    let first = ExprV::Select {
        condition: Box::new(condition),
        when_true: Box::new(a),
        when_false: Box::new(b),
    };
    let second = ExprV::Select {
        condition: Box::new(condition),
        when_true: Box::new(a),
        when_false: Box::new(a),
    };
    assert(canon(first) == settle(
        select_step(canon(condition), canon(a), canon(b)),
        weight(first),
    ));
    assert(canon(second) == settle(
        select_step(canon(condition), canon(a), canon(a)),
        weight(second),
    ));
    lemma_mask_one();
    assert(1u128 & 1 == 1 && 0u128 & 1 == 0) by (bit_vector);
}

proof fn lemma_mask_one()
    ensures
        mask(1) == 1,
{
    lemma_mask(1);
    lemma2_to64();
}

/// The flags of a difference are those of the sum with the complement and the flipped borrow.
pub proof fn lemma_borrow_flags(lhs: ExprV, rhs: ExprV, borrow: ExprV, width: u16)
    ensures
        canon(
            ExprV::SubCarryOut {
                lhs: Box::new(lhs),
                rhs: Box::new(rhs),
                borrow_in: Box::new(borrow),
                width,
            },
        ) == canon(
            ExprV::AddCarryOut {
                lhs: Box::new(lhs),
                rhs: Box::new(ExprV::Not(Box::new(rhs))),
                carry_in: Box::new(ExprV::Not(Box::new(borrow))),
                width,
            },
        ),
        canon(
            ExprV::SubOverflow {
                lhs: Box::new(lhs),
                rhs: Box::new(rhs),
                borrow_in: Box::new(borrow),
                width,
            },
        ) == canon(
            ExprV::AddOverflow {
                lhs: Box::new(lhs),
                rhs: Box::new(ExprV::Not(Box::new(rhs))),
                carry_in: Box::new(ExprV::Not(Box::new(borrow))),
                width,
            },
        ),
{
}

/// An expression that reads a register or memory, of a valid width.
pub open spec fn reads(expr: ExprV, width: u16) -> bool {
    &&& valid_width(width)
    &&& canon(expr) is Some
    &&& match expr {
        ExprV::ReadRegister { width: w, .. } => w == width,
        ExprV::ReadMemory { width: w, .. } => w == width,
        _ => false,
    }
}

proof fn lemma_read_form(expr: ExprV, width: u16)
    requires
        reads(expr, width),
    ensures
        canon(expr)->0 is ReadRegister || canon(expr)->0 is ReadMemory,
        width_of(canon(expr)->0) == Some(width),
        forall|op: AssocCommOp| #[trigger] flatten(op, expr) == seq![expr],
        forall|op: AssocCommOp| #[trigger]
            flatten(op, canon(expr)->0) == seq![canon(expr)->0],
{
    let made = canon(expr)->0;
    assert forall|op: AssocCommOp| #[trigger] flatten(op, expr) == seq![expr] by {
        match op {
            AssocCommOp::Add => {},
            AssocCommOp::Mul => {},
            AssocCommOp::And => {},
            AssocCommOp::Or => {},
            AssocCommOp::Xor => {},
        }
    }
    assert forall|op: AssocCommOp| #[trigger] flatten(op, made) == seq![made] by {
        match op {
            AssocCommOp::Add => {},
            AssocCommOp::Mul => {},
            AssocCommOp::And => {},
            AssocCommOp::Or => {},
            AssocCommOp::Xor => {},
        }
    }
}

proof fn lemma_part_weights(op: AssocCommOp, a: ExprV, b: ExprV)
    requires
        flatten(op, a) == seq![a],
        flatten(op, b) == seq![b],
    ensures
        weight(a) < weight(node(op, a, b)),
        weight(b) < weight(node(op, a, b)),
{
    lemma_tree_parts(op, a, b);
    let all = flatten(op, a) + flatten(op, b);
    assert(all[0] == a && all[1] == b);
}

/// The canonical tree of two parts that are no trees.
proof fn lemma_pair_tree(op: AssocCommOp, a: ExprV, b: ExprV, bound: nat)
    requires
        canon(a) is Some,
        canon(b) is Some,
        weight(a) < bound,
        weight(b) < bound,
        flatten(op, a) == seq![a],
        flatten(op, b) == seq![b],
        flatten(op, canon(a)->0) == seq![canon(a)->0],
        flatten(op, canon(b)->0) == seq![canon(b)->0],
        !is_node(opposite(op), a),
        !is_node(opposite(op), b),
    ensures
        canon_assoc(op, a, b, bound) == combine_terms(op, seq![canon(a)->0, canon(b)->0]),
{
    let row = seq![a, b];
    assert(flatten(op, a) + flatten(op, b) =~= row);
    assert forall|i: int| 0 <= i < row.len() implies weight(#[trigger] row[i]) < bound && canon(
        row[i],
    ) is Some by {}
    lemma_canon_each(row, bound);
    lemma_canon_all(row, bound);
    let forms = canon_all(row, bound)->0;
    let made = seq![canon(a)->0, canon(b)->0];
    assert(forms =~= made) by {
        assert(canon(row[0]) == Some(forms[0]) && canon(row[1]) == Some(forms[1]));
    }
    assert(unabsorbed(op, row, bound) == Some(row)) by {
        if op == AssocCommOp::And || op == AssocCommOp::Or {
            assert forall|i: int| 0 <= i < row.len() implies !is_node(
                opposite(op),
                #[trigger] row[i],
            ) by {}
            lemma_nothing_absorbed(op, row, forms, row.len(), bound);
            assert(row.take(row.len() as int) =~= row);
        }
    }
    let one = seq![made[0]];
    let none = Seq::<ExprV>::empty();
    assert(made.drop_last() =~= one);
    assert(one.drop_last() =~= none);
    assert(flatten_all(op, none) =~= none);
    assert(flatten_all(op, one) =~= one) by {
        assert(flatten_all(op, one) == flatten_all(op, one.drop_last()) + flatten(op, one.last()));
    }
    assert(flatten_all(op, made) =~= made) by {
        assert(flatten_all(op, made) == flatten_all(op, made.drop_last()) + flatten(
            op,
            made.last(),
        ));
    }
}

proof fn lemma_one_sorted(term: ExprV)
    ensures
        sorted_by_key(seq![term]) == seq![term],
        dedup(seq![term]) == seq![term],
        cancel_pairs(seq![term], 0) == seq![term],
{
    let one = seq![term];
    let none = Seq::<ExprV>::empty();
    assert(one.drop_last() =~= none);
    assert(sorted_by_key(none) =~= none);
    assert(insert_by_key(none, term) =~= one);
    assert(run_length(one, 0, 1) == 1);
    assert(cancel_pairs(one, 1) =~= none);
    assert(cancel_pairs(one, 0) =~= one);
}

/// What an operator makes of a term and a literal.
proof fn lemma_term_and_literal(op: AssocCommOp, term: ExprV, value: u128, width: u16)
    requires
        !(term is Const),
        width_of(term) == Some(width),
        fits(value, width),
    ensures
        combine_terms(op, seq![term, lit(value, width)]) == (if is_annihilator(op, value, width) {
            Some(lit(value, width))
        } else if is_identity(op, value, width) {
            Some(term)
        } else {
            Some(node(op, term, lit(value, width)))
        }),
{
    let row = seq![term, lit(value, width)];
    let one = seq![term];
    let none = Seq::<ExprV>::empty();
    assert(row.drop_last() =~= one);
    assert(one.drop_last() =~= none);
    lemma_known_met(op, row);
    lemma_known_met(op, one);
    assert(known(op, none) == Some(None::<(u128, u16)>));
    assert(known(op, one) == Some(None::<(u128, u16)>));
    assert(known(op, row) == Some(Some((value, width))));
    assert(unknowns(none) =~= none);
    assert(unknowns(one) =~= one) by {
        assert(unknowns(one) == unknowns(one.drop_last()).push(term));
    }
    assert(unknowns(row) == unknowns(row.drop_last()));
    lemma_one_sorted(term);
    assert(reduced(op, one) == one);
    assert(reduced_constant(op, one, Some((value, width))) == Some((value, width)));
    assert(!has_complement(one));
    assert(rebuild(op, one) == term);
    let two = one.push(lit(value, width));
    assert(two.drop_last() =~= one);
    assert(rebuild(op, two) == node(op, term, lit(value, width)));
}

/// A literal that decides an operator decides it, and one that it ignores goes: zero and all ones of
/// a conjunction and a disjunction, zero of a sum and an exclusive or, zero and one of a product.
pub proof fn lemma_literal_identities(expr: ExprV, width: u16)
    requires
        reads(expr, width),
    ensures
        ({
            let e = Box::new(expr);
            let zero = Box::new(ExprV::Const { value: 0, width });
            let one = Box::new(ExprV::Const { value: 1, width });
            let ones = Box::new(ExprV::Const { value: (pow2(width as nat) - 1) as u128, width });
            &&& canon(ExprV::And(e, zero)) == Some(*zero)
            &&& canon(ExprV::And(e, ones)) == canon(expr)
            &&& canon(ExprV::Or(e, zero)) == canon(expr)
            &&& canon(ExprV::Or(e, ones)) == Some(*ones)
            &&& canon(ExprV::Xor(e, zero)) == canon(expr)
            &&& canon(ExprV::Add(e, zero)) == canon(expr)
            &&& canon(ExprV::Mul(e, zero)) == Some(*zero)
            &&& canon(ExprV::Mul(e, one)) == canon(expr)
        }),
{
    let made = canon(expr)->0;
    lemma_read_form(expr, width);
    lemma_mask(width);
    let m = mask(width);
    assert(0u128 & m == 0 && m & m == m) by (bit_vector);
    assert(1u128 & m == 1) by {
        vstd::arithmetic::power2::lemma_pow2_pos((width - 1) as nat);
        lemma_canonical_is_mod(1, width);
        assert(pow2(width as nat) >= 2);
        vstd::arithmetic::div_mod::lemma_small_mod(1, pow2(width as nat));
    }
    lemma_literal_tree(AssocCommOp::And, expr, 0, width);
    lemma_literal_tree(AssocCommOp::And, expr, m, width);
    lemma_literal_tree(AssocCommOp::Or, expr, 0, width);
    lemma_literal_tree(AssocCommOp::Or, expr, m, width);
    lemma_literal_tree(AssocCommOp::Xor, expr, 0, width);
    lemma_literal_tree(AssocCommOp::Add, expr, 0, width);
    lemma_literal_tree(AssocCommOp::Mul, expr, 0, width);
    lemma_literal_tree(AssocCommOp::Mul, expr, 1, width);
}

/// A read and a literal below an operator that the literal decides or that ignores it.
proof fn lemma_literal_tree(op: AssocCommOp, expr: ExprV, value: u128, width: u16)
    requires
        reads(expr, width),
        fits(value, width),
        is_annihilator(op, value, width) || is_identity(op, value, width),
    ensures
        canon(node(op, expr, lit(value, width))) == (if is_annihilator(op, value, width) {
            Some(lit(value, width))
        } else {
            canon(expr)
        }),
{
    let made = canon(expr)->0;
    let literal = lit(value, width);
    let whole = node(op, expr, literal);
    let bound = weight(whole);
    lemma_read_form(expr, width);
    assert(canon(literal) == Some(literal));
    assert(flatten(op, literal) == seq![literal]) by {
        match op {
            AssocCommOp::Add => {},
            AssocCommOp::Mul => {},
            AssocCommOp::And => {},
            AssocCommOp::Or => {},
            AssocCommOp::Xor => {},
        }
    }
    lemma_part_weights(op, expr, literal);
    lemma_pair_tree(op, expr, literal, bound);
    lemma_term_and_literal(op, made, value, width);
    let tree = canon_assoc(op, expr, literal, bound);
    match op {
        AssocCommOp::Add => {
            assert(canon(whole) == settle(mul_step(tree), bound));
        },
        AssocCommOp::Mul => {
            assert(canon(whole) == settle(mul_step(tree), bound));
        },
        AssocCommOp::And => {
            assert(canon(whole) == tree);
        },
        AssocCommOp::Or => {
            assert(canon(whole) == settle(lower_step(tree), bound));
        },
        AssocCommOp::Xor => {
            assert(canon(whole) == settle(lower_step(tree), bound));
        },
    }
}

proof fn lemma_two_alike(op: AssocCommOp, term: ExprV, width: u16)
    requires
        op == AssocCommOp::And || op == AssocCommOp::Or || op == AssocCommOp::Xor,
        !(term is Const),
        !(term is Not),
        width_of(term) == Some(width),
        valid_width(width),
    ensures
        combine_terms(op, seq![term, term]) == (if op == AssocCommOp::Xor {
            Some(lit(0, width))
        } else {
            Some(term)
        }),
{
    let row = seq![term, term];
    let one = seq![term];
    let none = Seq::<ExprV>::empty();
    assert(row.drop_last() =~= one);
    assert(one.drop_last() =~= none);
    assert(known(op, none) == Some(None::<(u128, u16)>));
    assert(known(op, one) == Some(None::<(u128, u16)>));
    assert(known(op, row) == Some(None::<(u128, u16)>));
    assert(unknowns(none) =~= none);
    assert(unknowns(one) =~= one) by {
        assert(unknowns(one) == unknowns(one.drop_last()).push(term));
    }
    assert(unknowns(row) =~= row) by {
        assert(unknowns(row) == unknowns(row.drop_last()).push(term));
    }
    lemma_one_sorted(term);
    let sorted = sorted_by_key(row);
    assert(sorted == insert_by_key(one, term));
    assert(insert_by_key(none, term) =~= one);
    assert(sorted =~= row) by {
        if !key_le(term, term) {
            assert(insert_by_key(one, term) == insert_by_key(one.drop_last(), term).push(term));
        }
    }
    assert(dedup(row) =~= one) by {
        assert(row.last() == row[row.len() - 2]);
    }
    assert(run_length(row, 0, 2) == 2);
    assert(run_length(row, 0, 1) == 2);
    assert(cancel_pairs(row, 2) =~= none);
    assert(cancel_pairs(row, 0) =~= none);
    assert(cancelled_width(row, 2, Some(width)) == Some(width));
    assert(cancelled_width(row, 0, None) == Some(width));
    assert(!has_complement(one));
    assert(rebuild(op, one) == term);
    let m = mask(width);
    assert(0u128 & m == 0) by (bit_vector);
    assert(none.push(lit(0, width)).len() == 1);
    assert(first_width(none) is None);
}

/// A read in conjunction or disjunction with itself is the read, and its exclusive or with itself is
/// zero.
pub proof fn lemma_repetition_identities(expr: ExprV, width: u16)
    requires
        reads(expr, width),
    ensures
        ({
            let e = Box::new(expr);
            &&& canon(ExprV::And(e, e)) == canon(expr)
            &&& canon(ExprV::Or(e, e)) == canon(expr)
            &&& canon(ExprV::Xor(e, e)) == Some(ExprV::Const { value: 0, width })
        }),
{
    let made = canon(expr)->0;
    lemma_read_form(expr, width);
    let both = node(AssocCommOp::And, expr, expr);
    lemma_part_weights(AssocCommOp::And, expr, expr);
    lemma_pair_tree(AssocCommOp::And, expr, expr, weight(both));
    lemma_two_alike(AssocCommOp::And, made, width);
    assert(canon(both) == canon_assoc(AssocCommOp::And, expr, expr, weight(both)));
    let either = node(AssocCommOp::Or, expr, expr);
    lemma_part_weights(AssocCommOp::Or, expr, expr);
    lemma_pair_tree(AssocCommOp::Or, expr, expr, weight(either));
    lemma_two_alike(AssocCommOp::Or, made, width);
    assert(canon(either) == settle(
        lower_step(canon_assoc(AssocCommOp::Or, expr, expr, weight(either))),
        weight(either),
    ));
    let apart = node(AssocCommOp::Xor, expr, expr);
    lemma_part_weights(AssocCommOp::Xor, expr, expr);
    lemma_pair_tree(AssocCommOp::Xor, expr, expr, weight(apart));
    lemma_two_alike(AssocCommOp::Xor, made, width);
    assert(canon(apart) == settle(
        lower_step(canon_assoc(AssocCommOp::Xor, expr, expr, weight(apart))),
        weight(apart),
    ));
}

proof fn lemma_complement_pair(op: AssocCommOp, term: ExprV, width: u16)
    requires
        op == AssocCommOp::And || op == AssocCommOp::Or,
        !(term is Const),
        !(term is Not),
        width_of(term) == Some(width),
        valid_width(width),
    ensures
        combine_terms(op, seq![term, not_of(term)]) == Some(
            if op == AssocCommOp::And {
                lit(0, width)
            } else {
                lit(mask(width), width)
            },
        ),
{
    let other = not_of(term);
    let row = seq![term, other];
    let one = seq![term];
    let none = Seq::<ExprV>::empty();
    assert(row.drop_last() =~= one);
    assert(one.drop_last() =~= none);
    assert(known(op, none) == Some(None::<(u128, u16)>));
    assert(known(op, one) == Some(None::<(u128, u16)>));
    assert(known(op, row) == Some(None::<(u128, u16)>));
    assert(unknowns(none) =~= none);
    assert(unknowns(one) =~= one) by {
        assert(unknowns(one) == unknowns(one.drop_last()).push(term));
    }
    assert(unknowns(row) =~= row) by {
        assert(unknowns(row) == unknowns(row.drop_last()).push(other));
    }
    lemma_one_sorted(term);
    let sorted = sorted_by_key(row);
    let swapped = seq![other, term];
    assert(sorted == insert_by_key(one, other));
    assert(insert_by_key(none, other) =~= seq![other]);
    assert(sorted =~= row || sorted =~= swapped);
    assert(term != other);
    assert(width_of(other) == Some(width));
    assert(swapped.drop_last() =~= seq![other]);
    assert(dedup(one) == one && dedup(seq![other]) == seq![other]);
    assert(dedup(sorted) =~= sorted) by {
        assert(sorted.last() != sorted[sorted.len() - 2]);
        assert(dedup(sorted) == dedup(sorted.drop_last()).push(sorted.last()));
    }
    assert(has_complement(sorted)) by {
        assert(sorted[0] == not_of(sorted[1]) || sorted[1] == not_of(sorted[0]));
    }
    assert(first_width(none) is None);
    assert(first_width(seq![sorted[0]]) == Some(width)) by {
        assert(seq![sorted[0]].drop_last() =~= none);
    }
    assert(sorted.drop_last() =~= seq![sorted[0]]);
    assert(first_width(sorted) == Some(width));
}

/// A read and its complement have nothing in common, and together everything.
pub proof fn lemma_complement_identities(expr: ExprV, width: u16)
    requires
        reads(expr, width),
    ensures
        ({
            let e = Box::new(expr);
            let not_e = Box::new(ExprV::Not(e));
            &&& canon(ExprV::And(e, not_e)) == Some(ExprV::Const { value: 0, width })
            &&& canon(ExprV::Or(e, not_e)) == Some(
                ExprV::Const { value: (pow2(width as nat) - 1) as u128, width },
            )
        }),
{
    let made = canon(expr)->0;
    lemma_read_form(expr, width);
    lemma_mask(width);
    let other = not_of(expr);
    let form = not_of(made);
    assert(canon(other) == canon_not(canon(expr)));
    assert(canon(other) == Some(form));
    let both = node(AssocCommOp::And, expr, other);
    let either = node(AssocCommOp::Or, expr, other);
    assert(flatten(AssocCommOp::And, other) == seq![other] && flatten(AssocCommOp::Or, other)
        == seq![other]);
    assert(flatten(AssocCommOp::And, form) == seq![form] && flatten(AssocCommOp::Or, form) == seq![
        form,
    ]);
    lemma_part_weights(AssocCommOp::And, expr, other);
    lemma_part_weights(AssocCommOp::Or, expr, other);
    lemma_pair_tree(AssocCommOp::And, expr, other, weight(both));
    lemma_pair_tree(AssocCommOp::Or, expr, other, weight(either));
    lemma_complement_pair(AssocCommOp::And, made, width);
    lemma_complement_pair(AssocCommOp::Or, made, width);
    assert(canon(both) == canon_assoc(AssocCommOp::And, expr, other, weight(both)));
    assert(canon(either) == settle(
        lower_step(canon_assoc(AssocCommOp::Or, expr, other, weight(either))),
        weight(either),
    ));
}

/// A read absorbs what holds it: a conjunction with a disjunction of the read, and a disjunction with
/// a conjunction of it, are the read.
pub proof fn lemma_absorption(op: AssocCommOp, expr: ExprV, other: ExprV, width: u16)
    requires
        op == AssocCommOp::And || op == AssocCommOp::Or,
        reads(expr, width),
        canon(node(opposite(op), expr, other)) is Some,
        canon(node(opposite(op), expr, other)) != canon(expr),
    ensures
        canon(node(op, expr, node(opposite(op), expr, other))) == canon(expr),
{
    let made = canon(expr)->0;
    let pair = node(opposite(op), expr, other);
    let whole = node(op, expr, pair);
    let bound = weight(whole);
    lemma_read_form(expr, width);
    assert(flatten(op, pair) == seq![pair]);
    lemma_part_weights(op, expr, pair);
    let row = seq![expr, pair];
    assert(flatten(op, expr) + flatten(op, pair) =~= row);
    assert forall|i: int| 0 <= i < row.len() implies weight(#[trigger] row[i]) < bound && canon(
        row[i],
    ) is Some by {}
    lemma_canon_each(row, bound);
    lemma_canon_all(row, bound);
    let forms = canon_all(row, bound)->0;
    assert(canon(row[0]) == Some(forms[0]) && canon(row[1]) == Some(forms[1]));
    let relation = includes(op, row, forms, bound);
    assert(contains_term(opposite(op), expr, made));
    assert(contains_term(opposite(op), pair, made));
    assert(relation(1, 0));
    assert(at_end(relation, forms.len(), 0));
    assert(reaches_end(relation, forms.len(), 0, 1));
    assert(reaches_end(relation, forms.len(), 1, 2));
    assert(!at_end(relation, forms.len(), 1));
    assert(absorbed(op, row, forms, 1, bound));
    assert(!absorbed(op, row, forms, 0, bound));
    assert(kept(op, row, forms, 0, bound) =~= Seq::<ExprV>::empty());
    assert(kept(op, row, forms, 1, bound) =~= seq![expr]);
    assert(kept(op, row, forms, 2, bound) =~= seq![expr]);
    let one = seq![expr];
    assert(unabsorbed(op, row, bound) == Some(one));
    assert forall|i: int| 0 <= i < one.len() implies weight(#[trigger] one[i]) < bound && canon(
        one[i],
    ) is Some by {}
    lemma_canon_each(one, bound);
    lemma_canon_all(one, bound);
    let left = canon_all(one, bound)->0;
    assert(canon(one[0]) == Some(left[0]));
    let single = seq![made];
    assert(left =~= single);
    let none = Seq::<ExprV>::empty();
    assert(single.drop_last() =~= none);
    assert(flatten_all(op, none) =~= none);
    assert(flatten_all(op, single) =~= single) by {
        assert(flatten_all(op, single) == flatten_all(op, single.drop_last()) + flatten(
            op,
            single.last(),
        ));
    }
    assert(known(op, none) == Some(None::<(u128, u16)>));
    assert(known(op, single) == Some(None::<(u128, u16)>));
    assert(unknowns(none) =~= none);
    assert(unknowns(single) =~= single) by {
        assert(unknowns(single) == unknowns(single.drop_last()).push(made));
    }
    lemma_one_sorted(made);
    assert(reduced(op, single) == single);
    assert(!has_complement(single));
    assert(rebuild(op, single) == made);
    assert(combine_terms(op, single) == Some(made));
    let tree = canon_assoc(op, expr, pair, bound);
    assert(tree == Some(made));
    if op == AssocCommOp::And {
        assert(canon(whole) == tree);
    } else {
        assert(canon(whole) == settle(lower_step(tree), bound));
    }
}

/// What an operator makes of a literal that it ignores and a term.
proof fn lemma_literal_and_term(op: AssocCommOp, value: u128, term: ExprV, width: u16)
    requires
        !(term is Const),
        width_of(term) == Some(width),
        fits(value, width),
        is_identity(op, value, width),
        !is_annihilator(op, value, width),
    ensures
        combine_terms(op, seq![lit(value, width), term]) == Some(term),
{
    let row = seq![lit(value, width), term];
    let first = seq![lit(value, width)];
    let one = seq![term];
    let none = Seq::<ExprV>::empty();
    assert(row.drop_last() =~= first);
    assert(first.drop_last() =~= none);
    lemma_known_met(op, row);
    lemma_known_met(op, first);
    assert(known(op, none) == Some(None::<(u128, u16)>));
    assert(known(op, first) == Some(Some((value, width))));
    assert(known(op, row) == Some(Some((value, width))));
    assert(unknowns(none) =~= none);
    assert(unknowns(first) =~= none);
    assert(unknowns(row) =~= one) by {
        assert(unknowns(row) == unknowns(row.drop_last()).push(term));
    }
    lemma_one_sorted(term);
    assert(reduced(op, one) == one);
    assert(reduced_constant(op, one, Some((value, width))) == Some((value, width)));
    assert(!has_complement(one));
    assert(rebuild(op, one) == term);
}

/// Zero, one and two fit a width of two bits or more.
proof fn lemma_small_literals(width: u16)
    requires
        2 <= width <= 128,
    ensures
        fits(0, width),
        fits(1, width),
        fits(2, width),
{
    lemma_mask(width);
    let m = mask(width);
    assert(0u128 & m == 0) by (bit_vector);
    lemma2_to64();
    lemma_canonical_is_mod(1, width);
    lemma_canonical_is_mod(2, width);
    if width > 2 {
        vstd::arithmetic::power2::lemma_pow2_strictly_increases(2, width as nat);
    }
    assert(pow2(width as nat) >= 4);
    vstd::arithmetic::div_mod::lemma_small_mod(1, pow2(width as nat));
    vstd::arithmetic::div_mod::lemma_small_mod(2, pow2(width as nat));
}

/// The sum of zero and a shifted canonical term is the shifted term.
#[verifier::spinoff_prover]
#[verifier::rlimit(40)]
proof fn lemma_shift_alone(made: ExprV, width: u16)
    requires
        canon(made) == Some(made),
        !(made is Const),
        width_of(made) == Some(width),
        2 <= width <= 128,
    ensures
        ({
            let shifted = ExprV::ShiftLeft(Box::new(made), Box::new(lit(1, width)));
            canon(shifted) == Some(shifted) && canon(sum_of(lit(0, width), shifted)) == Some(shifted)
        }),
{
    lemma_small_literals(width);
    let zero = lit(0, width);
    let one = lit(1, width);
    let shifted = ExprV::ShiftLeft(Box::new(made), Box::new(one));
    let sum = sum_of(zero, shifted);
    assert(canon(one) == Some(one) && canon(zero) == Some(zero));
    assert(canon(shifted) == canon_shift(ShiftOp::Left, Some(made), Some(one)));
    assert(canon(shifted) == Some(shifted));
    let add = AssocCommOp::Add;
    assert(flatten(add, zero) == seq![zero]);
    assert(flatten(add, shifted) == seq![shifted]);
    lemma_part_weights(add, zero, shifted);
    lemma_pair_tree(add, zero, shifted, weight(sum));
    assert(width_of(one) == Some(width));
    assert(width_of(shifted) == Some(width));
    lemma_literal_and_term(add, 0, shifted, width);
    let tree = canon_assoc(add, zero, shifted, weight(sum));
    assert(tree == Some(shifted));
    assert(mul_step(tree) == Step::Done(shifted));
    assert(canon(sum) == settle(mul_step(tree), weight(sum)));
}

/// A product of a read and two is the sum of zero and the shifted read.
#[verifier::spinoff_prover]
#[verifier::rlimit(40)]
proof fn lemma_twice_rewritten(expr: ExprV, width: u16)
    requires
        reads(expr, width),
        width >= 2,
    ensures
        ({
            let shifted = ExprV::ShiftLeft(Box::new(canon(expr)->0), Box::new(lit(1, width)));
            canon(node(AssocCommOp::Mul, expr, lit(2, width))) == canon(
                sum_of(lit(0, width), shifted),
            )
        }),
{
    lemma_small_literals(width);
    let made = canon(expr)->0;
    let zero = lit(0, width);
    let one = lit(1, width);
    let two = lit(2, width);
    lemma_read_form(expr, width);
    let op = AssocCommOp::Mul;
    let whole = node(op, expr, two);
    let bound = weight(whole);
    assert(canon(two) == Some(two));
    assert(flatten(op, two) == seq![two]);
    lemma_part_weights(op, expr, two);
    lemma_pair_tree(op, expr, two, bound);
    lemma_term_and_literal(op, made, 2, width);
    let product = node(op, made, two);
    assert(canon_assoc(op, expr, two, bound) == Some(product));
    assert(width_of(two) == Some(width));
    assert(width_of(product) == shared_width(width_of(made), width_of(two)));
    let shifted = ExprV::ShiftLeft(Box::new(made), Box::new(one));
    let sum = sum_of(zero, shifted);
    lemma_two_places(made, width);
    let step = mul_step(Some(product));
    assert(step == Step::Rewrite(sum));
    lemma_steps_shrink(whole);
    assert(next_step(whole) == step);
    assert(canon(whole) == settle(step, bound));
}

proof fn lemma_two_places(made: ExprV, width: u16)
    requires
        made is ReadRegister || made is ReadMemory,
    ensures
        shifted_sum(made, 2, lit(0, width), width) == sum_of(
            lit(0, width),
            ExprV::ShiftLeft(Box::new(made), Box::new(lit(1, width))),
        ),
{
    let zero = lit(0, width);
    let shifted = doubled(made, width);
    let sum = sum_of(zero, shifted);
    assert(shifted_sum(doubled(shifted, width), 0, sum, width) == sum);
    assert(shifted_sum(shifted, 1, zero, width) == sum);
}

/// Twice a read is the read shifted by one place.
pub proof fn lemma_doubling(expr: ExprV, width: u16)
    requires
        reads(expr, width),
        width >= 2,
    ensures
        canon(ExprV::Mul(Box::new(expr), Box::new(ExprV::Const { value: 2, width }))) == canon(
            ExprV::ShiftLeft(Box::new(expr), Box::new(ExprV::Const { value: 1, width })),
        ),
        canon(
            ExprV::ShiftLeft(Box::new(expr), Box::new(ExprV::Const { value: 1, width })),
        ) is Some,
{
    let made = canon(expr)->0;
    let one = lit(1, width);
    lemma_small_literals(width);
    lemma_read_form(expr, width);
    lemma_canon_settled(expr);
    lemma_twice_rewritten(expr, width);
    lemma_shift_alone(made, width);
    let direct = ExprV::ShiftLeft(Box::new(expr), Box::new(one));
    assert(canon(one) == Some(one));
    assert(canon(direct) == canon_shift(ShiftOp::Left, Some(made), Some(one)));
}

/// Of nested extensions of one kind the outer one is enough.
pub proof fn lemma_nested_extensions(op: ExtensionOp, expr: ExprV, width: u16, inner: u16, outer: u16)
    requires
        canon(expr) is Some,
        width_of(canon(expr)->0) == Some(width),
        width < inner < outer,
    ensures
        canon(extension_node(op, extension_node(op, expr, inner), outer)) == canon(
            extension_node(op, expr, outer),
        ),
        canon(extension_node(op, expr, outer)) is Some,
{
    let made = canon(expr)->0;
    let first = extension_node(op, expr, inner);
    let nested = extension_node(op, first, outer);
    let direct = extension_node(op, expr, outer);
    let form = extension_node(op, strip_nested(op, made), inner);
    assert(canon(first) == canon_extension(op, Some(made), inner));
    assert(canon(first) == Some(form));
    assert(width_of(form) == Some(inner));
    assert(canon(nested) == canon_extension(op, Some(form), outer));
    assert(canon(direct) == canon_extension(op, Some(made), outer));
}

/// A concatenation of one chunk is the chunk.
#[verifier::spinoff_prover]
pub proof fn lemma_chunk_alone(expr: ExprV)
    requires
        canon(expr) is Some,
    ensures
        canon(ExprV::Concat(seq![expr])) == canon(expr),
{
    let made = canon(expr)->0;
    let none = Seq::<ExprV>::empty();
    let row = seq![expr];
    let whole = ExprV::Concat(row);
    lemma_weight_children(whole);
    assert(children(whole)[0] == expr);
    assert forall|i: int| 0 <= i < row.len() implies weight(#[trigger] row[i]) < weight(whole)
        && canon(row[i]) is Some by {}
    lemma_canon_each(row, weight(whole));
    lemma_canon_all(row, weight(whole));
    let forms = canon_all(row, weight(whole))->0;
    assert(canon(row[0]) == Some(forms[0]));
    assert(forms =~= seq![made]);
    assert(forms.drop_last() =~= none);
    assert(merge_chunks(none) == Some(none));
    if made is Const {
        lemma_canonical_literal(expr);
    }
    assert(merge_chunks(forms) == Some(none.push(made)));
    assert(canon(whole) == joined(forms));
}

/// A concatenation of two literals is a literal of both widths.
#[verifier::spinoff_prover]
pub proof fn lemma_literals_joined(a: u128, b: u128, high: u16, low: u16)
    requires
        fits(a, high),
        fits(b, low),
        high + low <= 128,
    ensures
        canon(
            ExprV::Concat(
                seq![ExprV::Const { value: a, width: high }, ExprV::Const { value: b, width: low }],
            ),
        ) matches Some(ExprV::Const { width, .. }) && width == high + low,
{
    let none = Seq::<ExprV>::empty();
    let (x, y) = (lit(a, high), lit(b, low));
    let pair = seq![x, y];
    let both = ExprV::Concat(pair);
    lemma_weight_children(both);
    assert(children(both)[0] == x);
    assert(children(both)[1] == y);
    assert(canon(x) == Some(x) && canon(y) == Some(y));
    assert forall|i: int| 0 <= i < pair.len() implies weight(#[trigger] pair[i]) < weight(both)
        && canon(pair[i]) is Some by {}
    lemma_canon_each(pair, weight(both));
    lemma_canon_all(pair, weight(both));
    let chunks = canon_all(pair, weight(both))->0;
    assert(canon(pair[0]) == Some(chunks[0]) && canon(pair[1]) == Some(chunks[1]));
    assert(chunks =~= pair);
    lemma_two_merged(a, b, high, low);
    assert(canon(both) == joined(chunks));
}

proof fn lemma_two_merged(a: u128, b: u128, high: u16, low: u16)
    requires
        fits(a, high),
        fits(b, low),
        high + low <= 128,
    ensures
        merge_chunks(seq![lit(a, high), lit(b, low)]) matches Some(merged) && merged.len() == 1
            && merged[0] is Const && merged[0]->Const_width == high + low,
{
    let none = Seq::<ExprV>::empty();
    let (x, y) = (lit(a, high), lit(b, low));
    let pair = seq![x, y];
    let one = seq![x];
    assert(pair.drop_last() =~= one);
    assert(one.drop_last() =~= none);
    assert(merge_chunks(none) == Some(none));
    let first = none.push(x);
    assert(merge_chunks(one) == Some(first));
    assert(first.last() == x && first.len() == 1);
}

} // verus!
