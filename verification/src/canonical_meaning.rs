//! The canonical form of an expression means what the expression means.
use vstd::prelude::*;

use crate::canonical_form::{
    absorbed, at_end, below, canon, canon_all, canon_assoc, canon_flag, canon_shift, contains_term,
    flatten, flatten_all, includes, is_node, kept, lower_step, mul_step, node, not_of, opposite,
    reaches_end, select_step, settle, shared_arms, shift_node, sub_step, unabsorbed, weight,
    ExtensionOp, ShiftOp, Step,
};
use crate::canonical_shape::{lemma_assoc_plain, plain};
use crate::collapse::{BinaryOp, FlagOp};
use crate::concat_laws::lemma_joined;
use crate::const_eval::{combine, AssocCommOp};
use crate::evaluation::{
    assoc_word, binary_word, eval, eval_chunks, lemma_eval_is_word, lemma_eval_width, not_word,
    select_word, State, Word,
};
use crate::instruction_semantics::ExprV;
use crate::product_laws::{lemma_mul_step, product_fits};
use crate::rewrite_laws::{
    lemma_equal_step, lemma_extension_step, lemma_extract_step, lemma_flag_step, lemma_less_step,
    lemma_not_step, lemma_or_lowered, lemma_select_lowered, lemma_shift_step, lemma_sub_step,
    lemma_xor_lowered,
};
use crate::tree_laws::{
    all_width, has_width, lemma_combine_terms, lemma_flatten, lemma_flatten_all, lemma_member,
    lemma_total_concat, lemma_total_fits, lemma_total_push, lemma_value_fits, total, value_of,
};
use crate::word_laws::{
    fits, lemma_combine_boolean, lemma_combine_fits, lemma_combine_monoid, lemma_combine_unit, unit,
};

verus! {

/// The steps of a row of expressions that weigh less than the bound are steady.
pub open spec fn steady_all(exprs: Seq<ExprV>, bound: nat, state: State) -> bool
    decreases bound, 1nat,
{
    forall|i: int|
        0 <= i < exprs.len() && weight(#[trigger] exprs[i]) < bound ==> steady(exprs[i], state)
}

/// The expression that a step rewrites to is steady.
pub open spec fn steady_step(step: Step, bound: nat, state: State) -> bool
    decreases bound, 0nat,
{
    match step {
        Step::Rewrite(expr) => weight(expr) < bound ==> steady(expr, state),
        _ => true,
    }
}

/// The terms of an operator are steady.
pub open spec fn steady_assoc(
    op: AssocCommOp,
    lhs: ExprV,
    rhs: ExprV,
    bound: nat,
    state: State,
) -> bool
    decreases bound, 2nat,
{
    steady_all(flatten(op, lhs) + flatten(op, rhs), bound, state)
}

/// A tree of terms is no product of a shifted term whose amount wraps around.
pub open spec fn tree_fits(tree: Option<ExprV>, state: State) -> bool {
    match tree {
        Some(expr) => product_fits(expr, state),
        None => true,
    }
}

/// On the way to the canonical form, no amount wraps around by which a product with a literal
/// shifts an already shifted factor.
pub open spec fn steady(expr: ExprV, state: State) -> bool
    decreases weight(expr), 3nat,
{
    let bound = weight(expr);
    match expr {
        ExprV::Const { .. } | ExprV::Operand(_) | ExprV::DerivedValue(_) => true,
        ExprV::ReadRegister { register, .. } => steady(*register, state),
        ExprV::ReadMemory { address, .. } => steady(*address, state),
        ExprV::Add(lhs, rhs) => {
            let tree = canon_assoc(AssocCommOp::Add, *lhs, *rhs, bound);
            &&& steady_assoc(AssocCommOp::Add, *lhs, *rhs, bound, state)
            &&& tree_fits(tree, state)
            &&& steady_step(mul_step(tree), bound, state)
        },
        ExprV::Mul(lhs, rhs) => {
            let tree = canon_assoc(AssocCommOp::Mul, *lhs, *rhs, bound);
            &&& steady_assoc(AssocCommOp::Mul, *lhs, *rhs, bound, state)
            &&& tree_fits(tree, state)
            &&& steady_step(mul_step(tree), bound, state)
        },
        ExprV::And(lhs, rhs) => steady_assoc(AssocCommOp::And, *lhs, *rhs, bound, state),
        ExprV::Or(lhs, rhs) => {
            &&& steady_assoc(AssocCommOp::Or, *lhs, *rhs, bound, state)
            &&& steady_step(
                lower_step(canon_assoc(AssocCommOp::Or, *lhs, *rhs, bound)),
                bound,
                state,
            )
        },
        ExprV::Xor(lhs, rhs) => {
            &&& steady_assoc(AssocCommOp::Xor, *lhs, *rhs, bound, state)
            &&& steady_step(
                lower_step(canon_assoc(AssocCommOp::Xor, *lhs, *rhs, bound)),
                bound,
                state,
            )
        },
        ExprV::Sub(lhs, rhs) => {
            &&& steady(*lhs, state)
            &&& steady(*rhs, state)
            &&& steady_step(sub_step(canon(*lhs), canon(*rhs)), bound, state)
        },
        ExprV::ShiftLeft(lhs, rhs)
        | ExprV::LogicalShiftRight(lhs, rhs)
        | ExprV::ArithmeticShiftRight(lhs, rhs)
        | ExprV::RotateRight(lhs, rhs)
        | ExprV::Equal(lhs, rhs)
        | ExprV::UnsignedLessThan(lhs, rhs)
        | ExprV::SignedLessThan(lhs, rhs) => steady(*lhs, state) && steady(*rhs, state),
        ExprV::Not(value)
        | ExprV::CountOnes(value)
        | ExprV::Extract { value, .. }
        | ExprV::ZeroExtend { value, .. }
        | ExprV::SignExtend { value, .. } => steady(*value, state),
        ExprV::Concat(values) => steady_all(values, bound, state),
        ExprV::AddCarryOut { lhs, rhs, carry_in, .. }
        | ExprV::AddOverflow { lhs, rhs, carry_in, .. } => {
            steady(*lhs, state) && steady(*rhs, state) && steady(*carry_in, state)
        },
        ExprV::SubCarryOut { lhs, rhs, borrow_in, .. }
        | ExprV::SubOverflow { lhs, rhs, borrow_in, .. } => {
            steady(*lhs, state) && steady(*rhs, state) && steady(*borrow_in, state)
        },
        ExprV::Select { condition, when_true, when_false } => {
            &&& steady(*condition, state)
            &&& steady(*when_true, state)
            &&& steady(*when_false, state)
            &&& steady_step(
                select_step(canon(*condition), canon(*when_true), canon(*when_false)),
                bound,
                state,
            )
        },
    }
}

/// Rows with the same words have the same total.
pub(crate) proof fn lemma_same_total(
    op: AssocCommOp,
    a: Seq<ExprV>,
    b: Seq<ExprV>,
    state: State,
    width: u16,
)
    requires
        a.len() == b.len(),
        forall|i: int| 0 <= i < a.len() ==> eval(#[trigger] a[i], state) == eval(b[i], state),
        all_width(a, state, width),
    ensures
        all_width(b, state, width),
        total(op, a, state, width) == total(op, b, state, width),
    decreases a.len(),
{
    assert forall|i: int| 0 <= i < b.len() implies has_width(#[trigger] b[i], state, width) by {
        assert(has_width(a[i], state, width));
    }
    if a.len() > 0 {
        assert forall|i: int| 0 <= i < a.drop_last().len() implies eval(
            #[trigger] a.drop_last()[i],
            state,
        ) == eval(b.drop_last()[i], state) && has_width(a.drop_last()[i], state, width) by {
            assert(a.drop_last()[i] == a[i]);
            assert(b.drop_last()[i] == b[i]);
            assert(has_width(a[i], state, width));
        }
        lemma_same_total(op, a.drop_last(), b.drop_last(), state, width);
        assert(a[a.len() - 1] == a.last());
    }
}

/// What the absorbed ones among the first `n` terms make together.
spec fn lost_total(
    op: AssocCommOp,
    terms: Seq<ExprV>,
    forms: Seq<ExprV>,
    n: nat,
    bound: nat,
    state: State,
    width: u16,
) -> u128
    decreases n,
{
    if n == 0 {
        unit(op, width)
    } else {
        let before = lost_total(op, terms, forms, (n - 1) as nat, bound, state, width);
        if absorbed(op, terms, forms, n - 1, bound) {
            combine(op, before, value_of(terms[n - 1], state), width)
        } else {
            before
        }
    }
}

/// The terms that stay and those that are absorbed make all terms.
proof fn lemma_kept_and_lost(
    op: AssocCommOp,
    terms: Seq<ExprV>,
    forms: Seq<ExprV>,
    n: nat,
    bound: nat,
    state: State,
    width: u16,
)
    requires
        n <= terms.len(),
        all_width(terms, state, width),
        crate::const_eval::valid_width(width),
        steady_all(terms, bound, state),
    ensures
        all_width(kept(op, terms, forms, n, bound), state, width),
        steady_all(kept(op, terms, forms, n, bound), bound, state),
        fits(lost_total(op, terms, forms, n, bound, state, width), width),
        total(op, terms.take(n as int), state, width) == combine(
            op,
            total(op, kept(op, terms, forms, n, bound), state, width),
            lost_total(op, terms, forms, n, bound, state, width),
            width,
        ),
    decreases n,
{
    crate::word_laws::lemma_fits(0, width);
    if n == 0 {
        assert(terms.take(0) =~= Seq::empty());
        lemma_combine_unit(op, unit(op, width), width);
    } else {
        let m = (n - 1) as nat;
        let term = terms[n - 1];
        lemma_kept_and_lost(op, terms, forms, m, bound, state, width);
        let stay = kept(op, terms, forms, m, bound);
        let k = total(op, stay, state, width);
        let l = lost_total(op, terms, forms, m, bound, state, width);
        let v = value_of(term, state);
        assert(has_width(terms[n - 1], state, width));
        lemma_value_fits(term, state, width);
        lemma_total_fits(op, stay, state, width);
        assert(terms.take(n as int).drop_last() =~= terms.take(m as int));
        assert(terms.take(n as int).last() == term);
        lemma_combine_monoid(op, k, l, v, width);
        lemma_combine_monoid(op, l, v, v, width);
        lemma_combine_fits(op, l, v, width);
        if !absorbed(op, terms, forms, n - 1, bound) {
            lemma_total_push(op, stay, term, state, width);
            lemma_combine_monoid(op, k, v, l, width);
            assert forall|i: int|
                0 <= i < stay.push(term).len() && weight(#[trigger] stay.push(term)[i])
                    < bound implies steady(stay.push(term)[i], state) by {
                if i < stay.len() {
                    assert(stay.push(term)[i] == stay[i]);
                } else {
                    assert(stay.push(term)[i] == terms[n - 1]);
                }
            }
        }
    }
}

/// A term that stays is among those that stay.
pub(crate) proof fn lemma_kept_member(
    op: AssocCommOp,
    terms: Seq<ExprV>,
    forms: Seq<ExprV>,
    n: nat,
    j: int,
    bound: nat,
) -> (k: int)
    requires
        0 <= j < n <= terms.len(),
        !absorbed(op, terms, forms, j, bound),
    ensures
        0 <= k < kept(op, terms, forms, n, bound).len(),
        kept(op, terms, forms, n, bound)[k] == terms[j],
    decreases n,
{
    if j == n - 1 {
        kept(op, terms, forms, n, bound).len() - 1
    } else {
        lemma_kept_member(op, terms, forms, (n - 1) as nat, j, bound)
    }
}

/// What is absorbed adds nothing to what stays.
proof fn lemma_lost_nothing(
    op: AssocCommOp,
    terms: Seq<ExprV>,
    forms: Seq<ExprV>,
    n: nat,
    bound: nat,
    state: State,
    width: u16,
    stays: u128,
)
    requires
        n <= terms.len(),
        all_width(terms, state, width),
        crate::const_eval::valid_width(width),
        steady_all(terms, bound, state),
        fits(stays, width),
        forall|i: int|
            0 <= i < n && absorbed(op, terms, forms, i, bound) ==> combine(
                op,
                stays,
                value_of(#[trigger] terms[i], state),
                width,
            ) == stays,
    ensures
        combine(op, stays, lost_total(op, terms, forms, n, bound, state, width), width) == stays,
    decreases n,
{
    if n == 0 {
        lemma_combine_unit(op, stays, width);
    } else {
        let m = (n - 1) as nat;
        lemma_lost_nothing(op, terms, forms, m, bound, state, width, stays);
        lemma_kept_and_lost(op, terms, forms, m, bound, state, width);
        assert(has_width(terms[n - 1], state, width));
        lemma_value_fits(terms[n - 1], state, width);
        lemma_combine_monoid(
            op,
            stays,
            lost_total(op, terms, forms, m, bound, state, width),
            value_of(terms[n - 1], state),
            width,
        );
    }
}

/// A term absorbs a tree of the opposite operator in which its form occurs.
proof fn lemma_contains(
    op: AssocCommOp,
    expr: ExprV,
    needle: ExprV,
    bound: nat,
    state: State,
    width: u16,
)
    requires
        op == AssocCommOp::And || op == AssocCommOp::Or,
        contains_term(opposite(op), expr, needle),
        has_width(expr, state, width),
        has_width(needle, state, width),
        steady_all(flatten(opposite(op), expr), bound, state),
        weight(expr) < bound || (is_node(opposite(op), expr) && weight(expr) <= bound),
    ensures
        combine(op, value_of(needle, state), value_of(expr, state), width) == value_of(
            needle,
            state,
        ),
    decreases weight(expr), 7nat, 0nat,
{
    let opp = opposite(op);
    let v = value_of(needle, state);
    lemma_value_fits(needle, state, width);
    lemma_value_fits(expr, state, width);
    if is_node(opp, expr) {
        let (lhs, rhs) = match expr {
            ExprV::And(lhs, rhs) => (*lhs, *rhs),
            ExprV::Or(lhs, rhs) => (*lhs, *rhs),
            _ => (expr, expr),
        };
        crate::expr_weight::lemma_weight_positive(lhs);
        crate::expr_weight::lemma_weight_positive(rhs);
        assert(eval(expr, state) == assoc_word(opp, eval(lhs, state), eval(rhs, state)));
        assert(has_width(lhs, state, width) && has_width(rhs, state, width));
        lemma_value_fits(lhs, state, width);
        lemma_value_fits(rhs, state, width);
        let l = value_of(lhs, state);
        let r = value_of(rhs, state);
        lemma_combine_fits(opp, l, r, width);
        let left = flatten(opp, lhs);
        let right = flatten(opp, rhs);
        assert(flatten(opp, expr) == left + right);
        assert(steady_all(left, bound, state)) by {
            assert forall|i: int| 0 <= i < left.len() && weight(#[trigger] left[i]) < bound implies
                steady(left[i], state) by {
                assert((left + right)[i] == left[i]);
            }
        }
        assert(steady_all(right, bound, state)) by {
            assert forall|i: int| 0 <= i < right.len() && weight(#[trigger] right[i])
                < bound implies steady(right[i], state) by {
                assert((left + right)[left.len() + i] == right[i]);
            }
        }
        // v absorbs l or r, so it absorbs what the opposite operator makes of them.
        if contains_term(opp, lhs, needle) {
            lemma_contains(op, lhs, needle, bound, state, width);
            lemma_absorbs_joined(op, v, l, r, width);
        } else {
            lemma_contains(op, rhs, needle, bound, state, width);
            lemma_absorbs_joined(op, v, r, l, width);
            lemma_combine_monoid(opp, l, r, r, width);
        }
    } else {
        assert(flatten(opp, expr) == seq![expr]);
        assert(seq![expr][0] == expr);
        assert(steady(expr, state));
        lemma_canon_keeps_meaning(expr, state);
        lemma_combine_boolean(op, v, v, width);
    }
}

/// A word that absorbs another one absorbs what the opposite operator adds to that one.
proof fn lemma_absorbs_joined(op: AssocCommOp, v: u128, a: u128, b: u128, width: u16)
    requires
        op == AssocCommOp::And || op == AssocCommOp::Or,
        fits(v, width),
        fits(a, width),
        fits(b, width),
        combine(op, v, a, width) == v,
    ensures
        combine(op, v, combine(opposite(op), a, b, width), width) == v,
{
    let j = combine(opposite(op), a, b, width);
    lemma_combine_fits(op, v, a, width);
    lemma_combine_fits(opposite(op), a, b, width);
    lemma_combine_fits(op, v, j, width);
    assert((v & a == v ==> v & (a | b) == v) && (v | a == v ==> v | (a & b) == v))
        by (bit_vector);
}

/// The canonical forms of a row of expressions mean what the expressions mean.
pub(crate) proof fn lemma_all_keep(exprs: Seq<ExprV>, bound: nat, state: State)
    requires
        steady_all(exprs, bound, state),
        canon_all(exprs, bound) is Some,
        forall|i: int| 0 <= i < exprs.len() ==> eval(#[trigger] exprs[i], state) is Some,
    ensures
        canon_all(exprs, bound)->0.len() == exprs.len(),
        forall|i: int|
            0 <= i < exprs.len() ==> eval(#[trigger] canon_all(exprs, bound)->0[i], state) == eval(
                exprs[i],
                state,
            ),
    decreases bound, 1nat, exprs.len(),
{
    if exprs.len() > 0 {
        let front = exprs.drop_last();
        let last = exprs.last();
        assert forall|i: int| 0 <= i < front.len() implies eval(#[trigger] front[i], state)
            is Some && (weight(front[i]) < bound ==> steady(front[i], state)) by {
            assert(front[i] == exprs[i]);
        }
        lemma_all_keep(front, bound, state);
        assert(exprs[exprs.len() - 1] == last);
        let made = below(last, bound);
        assert(made is Some);
        assert(weight(last) < bound);
        assert(made == canon(last));
        lemma_canon_keeps_meaning(last, state);
        let forms = canon_all(exprs, bound)->0;
        assert forall|i: int| 0 <= i < exprs.len() implies eval(#[trigger] forms[i], state) == eval(
            exprs[i],
            state,
        ) by {
            if i < front.len() {
                assert(forms[i] == canon_all(front, bound)->0[i]);
                assert(front[i] == exprs[i]);
            }
        }
    }
}

/// A term that leads to one that stays adds nothing to the terms that stay.
proof fn lemma_absorbed_adds_nothing(
    op: AssocCommOp,
    terms: Seq<ExprV>,
    forms: Seq<ExprV>,
    i: int,
    steps: nat,
    bound: nat,
    state: State,
    width: u16,
)
    requires
        op == AssocCommOp::And || op == AssocCommOp::Or,
        0 <= i < terms.len(),
        forms.len() == terms.len(),
        all_width(terms, state, width),
        crate::const_eval::valid_width(width),
        steady_all(terms, bound, state),
        all_width(kept(op, terms, forms, terms.len(), bound), state, width),
        forall|j: int|
            0 <= j < terms.len() ==> eval(#[trigger] forms[j], state) == eval(terms[j], state),
        reaches_end(includes(op, terms, forms, bound), forms.len(), i, steps),
    ensures
        ({
            let stays = total(
                op,
                kept(op, terms, forms, terms.len(), bound),
                state,
                width,
            );
            combine(op, stays, value_of(terms[i], state), width) == stays
        }),
    decreases bound, 2nat, steps,
{
    let n = terms.len();
    let relation = includes(op, terms, forms, bound);
    let stay = kept(op, terms, forms, n, bound);
    let stays = total(op, stay, state, width);
    if at_end(relation, n, i) {
        let k = lemma_kept_member(op, terms, forms, n, i, bound);
        lemma_member(op, stay, k, state, width);
    } else {
        let j = choose|j: int|
            0 <= j < n && #[trigger] relation(i, j) && reaches_end(
                relation,
                n,
                j,
                (steps - 1) as nat,
            );
        lemma_absorbed_adds_nothing(
            op,
            terms,
            forms,
            j,
            (steps - 1) as nat,
            bound,
            state,
            width,
        );
        assert(relation(i, j));
        assert(has_width(terms[i], state, width));
        assert(has_width(terms[j], state, width));
        assert(eval(forms[j], state) == eval(terms[j], state));
        lemma_steady_leaves(opposite(op), terms[i], state);
        lemma_contains(op, terms[i], forms[j], weight(terms[i]), state, width);
        let vi = value_of(terms[i], state);
        let vj = value_of(terms[j], state);
        lemma_value_fits(terms[i], state, width);
        lemma_value_fits(terms[j], state, width);
        lemma_total_fits(op, stay, state, width);
        lemma_combine_monoid(op, stays, vj, vi, width);
    }
}

/// The leaves of a steady tree are steady.
proof fn lemma_steady_leaves(op: AssocCommOp, expr: ExprV, state: State)
    requires
        op == AssocCommOp::And || op == AssocCommOp::Or,
        is_node(op, expr),
        steady(expr, state),
    ensures
        steady_all(flatten(op, expr), weight(expr), state),
{
    match expr {
        ExprV::And(lhs, rhs) => {
            assert(steady_assoc(op, *lhs, *rhs, weight(expr), state));
        },
        ExprV::Or(lhs, rhs) => {
            assert(steady_assoc(op, *lhs, *rhs, weight(expr), state));
        },
        _ => {},
    }
}

/// The terms that stay make what all terms make.
pub(crate) proof fn lemma_unabsorbed(
    op: AssocCommOp,
    terms: Seq<ExprV>,
    bound: nat,
    state: State,
    width: u16,
)
    requires
        all_width(terms, state, width),
        crate::const_eval::valid_width(width),
        steady_all(terms, bound, state),
        unabsorbed(op, terms, bound) is Some,
    ensures
        all_width(unabsorbed(op, terms, bound)->0, state, width),
        steady_all(unabsorbed(op, terms, bound)->0, bound, state),
        total(op, unabsorbed(op, terms, bound)->0, state, width) == total(op, terms, state, width),
    decreases bound, 3nat, 0nat,
{
    if op == AssocCommOp::And || op == AssocCommOp::Or {
        let forms = canon_all(terms, bound)->0;
        let n = terms.len();
        let stay = kept(op, terms, forms, n, bound);
        assert forall|i: int| 0 <= i < terms.len() implies eval(#[trigger] terms[i], state)
            is Some by {
            assert(has_width(terms[i], state, width));
        }
        lemma_all_keep(terms, bound, state);
        lemma_kept_and_lost(op, terms, forms, n, bound, state, width);
        lemma_total_fits(op, stay, state, width);
        let stays = total(op, stay, state, width);
        assert forall|i: int| 0 <= i < n && absorbed(op, terms, forms, i, bound) implies combine(
            op,
            stays,
            value_of(#[trigger] terms[i], state),
            width,
        ) == stays by {
            lemma_absorbed_adds_nothing(op, terms, forms, i, n, bound, state, width);
        }
        lemma_lost_nothing(op, terms, forms, n, bound, state, width, stays);
        assert(terms.take(n as int) =~= terms);
    }
}

/// The canonical tree of an operator means the operator on its sides.
pub(crate) proof fn lemma_assoc_keeps(
    op: AssocCommOp,
    lhs: ExprV,
    rhs: ExprV,
    bound: nat,
    state: State,
)
    requires
        assoc_word(op, eval(lhs, state), eval(rhs, state)) is Some,
        steady_assoc(op, lhs, rhs, bound, state),
        canon_assoc(op, lhs, rhs, bound) is Some,
    ensures
        eval(canon_assoc(op, lhs, rhs, bound)->0, state) == assoc_word(
            op,
            eval(lhs, state),
            eval(rhs, state),
        ),
    decreases bound, 4nat, 0nat,
{
    let width = eval(lhs, state)->0.width;
    let terms = flatten(op, lhs) + flatten(op, rhs);
    lemma_value_fits(lhs, state, width);
    lemma_value_fits(rhs, state, width);
    lemma_flatten(op, lhs, state, width);
    lemma_flatten(op, rhs, state, width);
    lemma_total_concat(op, flatten(op, lhs), flatten(op, rhs), state, width);
    lemma_combine_fits(op, value_of(lhs, state), value_of(rhs, state), width);
    lemma_unabsorbed(op, terms, bound, state, width);
    let stay = unabsorbed(op, terms, bound)->0;
    let forms = canon_all(stay, bound)->0;
    assert forall|i: int| 0 <= i < stay.len() implies eval(#[trigger] stay[i], state) is Some by {
        assert(has_width(stay[i], state, width));
    }
    lemma_all_keep(stay, bound, state);
    lemma_same_total(op, stay, forms, state, width);
    lemma_flatten_all(op, forms, state, width);
    lemma_combine_terms(op, flatten_all(op, forms), state, width);
}

/// The canonical form means what the expression means, in every state in which the
/// expression has a word and every step towards the form is steady.
pub proof fn lemma_canon_keeps_meaning(expr: ExprV, state: State)
    requires
        canon(expr) is Some,
        eval(expr, state) is Some,
        steady(expr, state),
    ensures
        eval(canon(expr)->0, state) == eval(expr, state),
    decreases weight(expr), 6nat, 0nat,
{
    match expr {
        ExprV::Const { .. }
        | ExprV::Operand(_)
        | ExprV::DerivedValue(_)
        | ExprV::ReadRegister { .. }
        | ExprV::ReadMemory { .. }
        | ExprV::CountOnes(_)
        | ExprV::Not(_) => {
            lemma_node_leaf_keeps(expr, state);
        },
        ExprV::Add(_, _)
        | ExprV::Mul(_, _)
        | ExprV::And(_, _)
        | ExprV::Or(_, _)
        | ExprV::Xor(_, _) => {
            lemma_node_tree_keeps(expr, state);
        },
        ExprV::Sub(_, _) => {
            lemma_node_sub_keeps(expr, state);
        },
        ExprV::ShiftLeft(_, _)
        | ExprV::LogicalShiftRight(_, _)
        | ExprV::ArithmeticShiftRight(_, _)
        | ExprV::RotateRight(_, _) => {
            lemma_node_shift_keeps(expr, state);
        },
        ExprV::Equal(_, _)
        | ExprV::UnsignedLessThan(_, _)
        | ExprV::SignedLessThan(_, _) => {
            lemma_node_compare_keeps(expr, state);
        },
        ExprV::Extract { .. }
        | ExprV::ZeroExtend { .. }
        | ExprV::SignExtend { .. }
        | ExprV::Concat(_) => {
            lemma_node_width_keeps(expr, state);
        },
        ExprV::AddCarryOut { .. }
        | ExprV::AddOverflow { .. }
        | ExprV::SubCarryOut { .. }
        | ExprV::SubOverflow { .. } => {
            lemma_node_flag_keeps(expr, state);
        },
        ExprV::Select { .. } => {
            lemma_node_select_keeps(expr, state);
        },
    }
}

proof fn lemma_node_leaf_keeps(expr: ExprV, state: State)
    requires
        canon(expr) is Some,
        eval(expr, state) is Some,
        steady(expr, state),
        expr is Const || expr is Operand || expr is DerivedValue || expr is ReadRegister || expr is ReadMemory || expr is CountOnes || expr is Not,
    ensures
        eval(canon(expr)->0, state) == eval(expr, state),
    decreases weight(expr), 5nat, 1nat,
{
    let bound = weight(expr);
    crate::expr_weight::lemma_weight_children(expr);
    match expr {
        ExprV::Const { value, width } => {
            crate::const_eval::lemma_canonical_small(value, width);
        },
        ExprV::Operand(_) | ExprV::DerivedValue(_) => {},
        ExprV::ReadRegister { register, .. } => {
            lemma_canon_keeps_meaning(*register, state);
        },
        ExprV::ReadMemory { address, .. } => {
            lemma_canon_keeps_meaning(*address, state);
        },
        ExprV::Not(value) => {
            lemma_canon_keeps_meaning(*value, state);
            lemma_not_step(canon(*value)->0, state);
        },
        ExprV::CountOnes(value) => {
            lemma_canon_keeps_meaning(*value, state);
        },
        _ => {},
    }
}

proof fn lemma_node_tree_keeps(expr: ExprV, state: State)
    requires
        canon(expr) is Some,
        eval(expr, state) is Some,
        steady(expr, state),
        expr is Add || expr is Mul || expr is And || expr is Or || expr is Xor,
    ensures
        eval(canon(expr)->0, state) == eval(expr, state),
    decreases weight(expr), 5nat, 1nat,
{
    let bound = weight(expr);
    let (op, lhs, rhs) = match expr {
        ExprV::Add(lhs, rhs) => (AssocCommOp::Add, *lhs, *rhs),
        ExprV::Mul(lhs, rhs) => (AssocCommOp::Mul, *lhs, *rhs),
        ExprV::And(lhs, rhs) => (AssocCommOp::And, *lhs, *rhs),
        ExprV::Or(lhs, rhs) => (AssocCommOp::Or, *lhs, *rhs),
        ExprV::Xor(lhs, rhs) => (AssocCommOp::Xor, *lhs, *rhs),
        _ => (AssocCommOp::Add, expr, expr),
    };
    let tree = canon_assoc(op, lhs, rhs, bound);
    lemma_unfold_tree(op, lhs, rhs, state);
    assert(expr == node(op, lhs, rhs));
    let meaning = eval(expr, state)->0;
    lemma_tree_defined(op, tree, bound);
    lemma_assoc_keeps(op, lhs, rhs, bound, state);
    match op {
        AssocCommOp::Add | AssocCommOp::Mul => {
            lemma_assoc_plain(op, lhs, rhs, bound);
            lemma_mul_settled(tree, bound, state, meaning);
        },
        AssocCommOp::Or | AssocCommOp::Xor => {
            lemma_lower_settled(tree, bound, state, meaning);
        },
        AssocCommOp::And => {},
    }
}

/// What becomes of the canonical tree of an operator.
pub open spec fn tree_settled(op: AssocCommOp, tree: Option<ExprV>, bound: nat) -> Option<ExprV> {
    match op {
        AssocCommOp::Add | AssocCommOp::Mul => settle(mul_step(tree), bound),
        AssocCommOp::Or | AssocCommOp::Xor => settle(lower_step(tree), bound),
        AssocCommOp::And => tree,
    }
}

/// Without a tree there is no canonical form.
proof fn lemma_tree_defined(op: AssocCommOp, tree: Option<ExprV>, bound: nat)
    requires
        tree_settled(op, tree, bound) is Some,
    ensures
        tree is Some,
{
}

/// The canonical form and the steadiness of a node of an operator.
proof fn lemma_unfold_tree(op: AssocCommOp, lhs: ExprV, rhs: ExprV, state: State)
    ensures
        ({
            let expr = node(op, lhs, rhs);
            let bound = weight(expr);
            let tree = canon_assoc(op, lhs, rhs, bound);
            &&& eval(expr, state) == assoc_word(op, eval(lhs, state), eval(rhs, state))
            &&& canon(expr) == tree_settled(op, tree, bound)
            &&& steady(expr, state) ==> {
                &&& steady_assoc(op, lhs, rhs, bound, state)
                &&& op == AssocCommOp::Add || op == AssocCommOp::Mul ==> tree_fits(tree, state)
                    && steady_step(mul_step(tree), bound, state)
                &&& op == AssocCommOp::Or || op == AssocCommOp::Xor ==> steady_step(
                    lower_step(tree),
                    bound,
                    state,
                )
            }
        }),
{
}

/// A tree that may hold a product with a literal settles on its meaning.
proof fn lemma_mul_settled(tree: Option<ExprV>, bound: nat, state: State, meaning: Word)
    requires
        tree is Some,
        eval(tree->0, state) == Some(meaning),
        tree_fits(tree, state),
        plain(tree->0),
        settle(mul_step(tree), bound) is Some,
        steady_step(mul_step(tree), bound, state),
    ensures
        eval(settle(mul_step(tree), bound)->0, state) == Some(meaning),
    decreases bound, 0nat, 1nat,
{
    lemma_mul_step(tree->0, state);
    let step = mul_step(tree);
    assert(tree == Some(tree->0));
    lemma_settle_keeps(step, bound, state, meaning);
}

/// A tree that is lowered settles on its meaning.
proof fn lemma_lower_settled(tree: Option<ExprV>, bound: nat, state: State, meaning: Word)
    requires
        tree is Some,
        eval(tree->0, state) == Some(meaning),
        settle(lower_step(tree), bound) is Some,
        steady_step(lower_step(tree), bound, state),
    ensures
        eval(settle(lower_step(tree), bound)->0, state) == Some(meaning),
    decreases bound, 0nat, 1nat,
{
    lemma_lower_step(tree->0, state);
    let step = lower_step(tree);
    assert(tree == Some(tree->0));
    lemma_settle_keeps(step, bound, state, meaning);
}

proof fn lemma_node_sub_keeps(expr: ExprV, state: State)
    requires
        canon(expr) is Some,
        eval(expr, state) is Some,
        steady(expr, state),
        expr is Sub,
    ensures
        eval(canon(expr)->0, state) == eval(expr, state),
    decreases weight(expr), 5nat, 1nat,
{
    let bound = weight(expr);
    let (lhs, rhs) = match expr {
        ExprV::Sub(lhs, rhs) => (*lhs, *rhs),
        _ => (expr, expr),
    };
    let step = sub_step(canon(lhs), canon(rhs));
    lemma_unfold_sub(lhs, rhs, state);
    assert(expr == ExprV::Sub(Box::new(lhs), Box::new(rhs)));
    lemma_sub_defined(canon(lhs), canon(rhs), bound);
    lemma_canon_keeps_meaning(lhs, state);
    lemma_canon_keeps_meaning(rhs, state);
    lemma_sub_settled(canon(lhs)->0, canon(rhs)->0, step, bound, state);
}

proof fn lemma_sub_defined(lhs: Option<ExprV>, rhs: Option<ExprV>, bound: nat)
    requires
        settle(sub_step(lhs, rhs), bound) is Some,
    ensures
        lhs is Some,
        rhs is Some,
{
}

proof fn lemma_unfold_sub(lhs: ExprV, rhs: ExprV, state: State)
    ensures
        ({
            let expr = ExprV::Sub(Box::new(lhs), Box::new(rhs));
            let bound = weight(expr);
            let step = sub_step(canon(lhs), canon(rhs));
            &&& weight(lhs) < bound
            &&& weight(rhs) < bound
            &&& eval(expr, state) == binary_word(
                BinaryOp::Sub,
                eval(lhs, state),
                eval(rhs, state),
            )
            &&& canon(expr) == settle(step, bound)
            &&& steady(expr, state) ==> {
                &&& steady(lhs, state)
                &&& steady(rhs, state)
                &&& steady_step(step, bound, state)
            }
        }),
{
}

proof fn lemma_sub_settled(lhs: ExprV, rhs: ExprV, step: Step, bound: nat, state: State)
    requires
        step == sub_step(Some(lhs), Some(rhs)),
        binary_word(BinaryOp::Sub, eval(lhs, state), eval(rhs, state)) is Some,
        settle(step, bound) is Some,
        steady_step(step, bound, state),
    ensures
        eval(settle(step, bound)->0, state) == binary_word(
            BinaryOp::Sub,
            eval(lhs, state),
            eval(rhs, state),
        ),
    decreases bound, 0nat, 1nat,
{
    lemma_sub_step(lhs, rhs, state);
    lemma_settle_keeps(
        step,
        bound,
        state,
        binary_word(BinaryOp::Sub, eval(lhs, state), eval(rhs, state))->0,
    );
}

proof fn lemma_node_shift_keeps(expr: ExprV, state: State)
    requires
        canon(expr) is Some,
        eval(expr, state) is Some,
        steady(expr, state),
        expr is ShiftLeft || expr is LogicalShiftRight || expr is ArithmeticShiftRight || expr is RotateRight,
    ensures
        eval(canon(expr)->0, state) == eval(expr, state),
    decreases weight(expr), 5nat, 1nat,
{
    let bound = weight(expr);
    crate::expr_weight::lemma_weight_children(expr);
    match expr {
        ExprV::ShiftLeft(value, amount) => {
            lemma_shift_keeps(ShiftOp::Left, *value, *amount, bound, state);
        },
        ExprV::LogicalShiftRight(value, amount) => {
            lemma_shift_keeps(ShiftOp::LogicalRight, *value, *amount, bound, state);
        },
        ExprV::ArithmeticShiftRight(value, amount) => {
            lemma_shift_keeps(ShiftOp::ArithmeticRight, *value, *amount, bound, state);
        },
        ExprV::RotateRight(value, amount) => {
            lemma_shift_keeps(ShiftOp::RotateRight, *value, *amount, bound, state);
        },
        _ => {},
    }
}

proof fn lemma_node_compare_keeps(expr: ExprV, state: State)
    requires
        canon(expr) is Some,
        eval(expr, state) is Some,
        steady(expr, state),
        expr is Equal || expr is UnsignedLessThan || expr is SignedLessThan,
    ensures
        eval(canon(expr)->0, state) == eval(expr, state),
    decreases weight(expr), 5nat, 1nat,
{
    let bound = weight(expr);
    crate::expr_weight::lemma_weight_children(expr);
    match expr {
        ExprV::Equal(lhs, rhs) => {
            lemma_canon_keeps_meaning(*lhs, state);
            lemma_canon_keeps_meaning(*rhs, state);
            lemma_equal_step(canon(*lhs)->0, canon(*rhs)->0, state);
        },
        ExprV::UnsignedLessThan(lhs, rhs) => {
            lemma_canon_keeps_meaning(*lhs, state);
            lemma_canon_keeps_meaning(*rhs, state);
            lemma_less_step(false, canon(*lhs)->0, canon(*rhs)->0, state);
        },
        ExprV::SignedLessThan(lhs, rhs) => {
            lemma_canon_keeps_meaning(*lhs, state);
            lemma_canon_keeps_meaning(*rhs, state);
            lemma_less_step(true, canon(*lhs)->0, canon(*rhs)->0, state);
        },
        _ => {},
    }
}

proof fn lemma_node_width_keeps(expr: ExprV, state: State)
    requires
        canon(expr) is Some,
        eval(expr, state) is Some,
        steady(expr, state),
        expr is Extract || expr is ZeroExtend || expr is SignExtend || expr is Concat,
    ensures
        eval(canon(expr)->0, state) == eval(expr, state),
    decreases weight(expr), 5nat, 1nat,
{
    let bound = weight(expr);
    crate::expr_weight::lemma_weight_children(expr);
    match expr {
        ExprV::Extract { value, high, low } => {
            lemma_canon_keeps_meaning(*value, state);
            lemma_extract_step(canon(*value)->0, high, low, state);
        },
        ExprV::ZeroExtend { value, to_width } => {
            lemma_canon_keeps_meaning(*value, state);
            lemma_extension_step(ExtensionOp::Zero, canon(*value)->0, to_width, state);
        },
        ExprV::SignExtend { value, to_width } => {
            lemma_canon_keeps_meaning(*value, state);
            lemma_extension_step(ExtensionOp::Sign, canon(*value)->0, to_width, state);
        },
        ExprV::Concat(values) => {
            lemma_chunks_defined(values, state);
            lemma_all_keep(values, bound, state);
            lemma_same_chunks(values, canon_all(values, bound)->0, state);
            lemma_joined(canon_all(values, bound)->0, state);
        },
        _ => {},
    }
}

proof fn lemma_node_flag_keeps(expr: ExprV, state: State)
    requires
        canon(expr) is Some,
        eval(expr, state) is Some,
        steady(expr, state),
        expr is AddCarryOut || expr is AddOverflow || expr is SubCarryOut || expr is SubOverflow,
    ensures
        eval(canon(expr)->0, state) == eval(expr, state),
    decreases weight(expr), 5nat, 1nat,
{
    let bound = weight(expr);
    crate::expr_weight::lemma_weight_children(expr);
    match expr {
        ExprV::AddCarryOut { lhs, rhs, carry_in, .. }
        | ExprV::AddOverflow { lhs, rhs, carry_in, .. } => {
            lemma_canon_keeps_meaning(*lhs, state);
            lemma_canon_keeps_meaning(*rhs, state);
            lemma_canon_keeps_meaning(*carry_in, state);
        },
        ExprV::SubCarryOut { lhs, rhs, borrow_in, width } => {
            lemma_flags_keep(false, *lhs, *rhs, *borrow_in, width, bound, state);
        },
        ExprV::SubOverflow { lhs, rhs, borrow_in, width } => {
            lemma_flags_keep(true, *lhs, *rhs, *borrow_in, width, bound, state);
        },
        _ => {},
    }
}

proof fn lemma_node_select_keeps(expr: ExprV, state: State)
    requires
        canon(expr) is Some,
        eval(expr, state) is Some,
        steady(expr, state),
        expr is Select,
    ensures
        eval(canon(expr)->0, state) == eval(expr, state),
    decreases weight(expr), 5nat, 1nat,
{
    let bound = weight(expr);
    let (c, t, f) = match expr {
        ExprV::Select { condition, when_true, when_false } => (
            *condition,
            *when_true,
            *when_false,
        ),
        _ => (expr, expr, expr),
    };
    let step = select_step(canon(c), canon(t), canon(f));
    lemma_unfold_select(c, t, f, state);
    assert(expr == ExprV::Select {
        condition: Box::new(c),
        when_true: Box::new(t),
        when_false: Box::new(f),
    });
    lemma_select_defined(canon(c), canon(t), canon(f), bound);
    lemma_canon_keeps_meaning(c, state);
    lemma_canon_keeps_meaning(t, state);
    lemma_canon_keeps_meaning(f, state);
    lemma_select_settled(canon(c)->0, canon(t)->0, canon(f)->0, step, bound, state);
}

proof fn lemma_select_defined(
    condition: Option<ExprV>,
    when_true: Option<ExprV>,
    when_false: Option<ExprV>,
    bound: nat,
)
    requires
        settle(select_step(condition, when_true, when_false), bound) is Some,
    ensures
        condition is Some,
        when_true is Some,
        when_false is Some,
{
}

proof fn lemma_unfold_select(c: ExprV, t: ExprV, f: ExprV, state: State)
    ensures
        ({
            let expr = ExprV::Select {
                condition: Box::new(c),
                when_true: Box::new(t),
                when_false: Box::new(f),
            };
            let bound = weight(expr);
            let step = select_step(canon(c), canon(t), canon(f));
            &&& weight(c) < bound
            &&& weight(t) < bound
            &&& weight(f) < bound
            &&& eval(expr, state) == select_word(eval(c, state), eval(t, state), eval(f, state))
            &&& canon(expr) == settle(step, bound)
            &&& steady(expr, state) ==> {
                &&& steady(c, state)
                &&& steady(t, state)
                &&& steady(f, state)
                &&& steady_step(step, bound, state)
            }
        }),
{
}

proof fn lemma_select_settled(
    condition: ExprV,
    when_true: ExprV,
    when_false: ExprV,
    step: Step,
    bound: nat,
    state: State,
)
    requires
        step == select_step(Some(condition), Some(when_true), Some(when_false)),
        select_word(eval(condition, state), eval(when_true, state), eval(when_false, state))
            is Some,
        settle(step, bound) is Some,
        steady_step(step, bound, state),
    ensures
        eval(settle(step, bound)->0, state) == select_word(
            eval(condition, state),
            eval(when_true, state),
            eval(when_false, state),
        ),
    decreases bound, 0nat, 1nat,
{
    lemma_select_step(condition, when_true, when_false, state);
    lemma_settle_keeps(
        step,
        bound,
        state,
        select_word(eval(condition, state), eval(when_true, state), eval(when_false, state))->0,
    );
}

/// What a step leads to means what the step has found.
proof fn lemma_settle_keeps(step: Step, bound: nat, state: State, meaning: Word)
    requires
        settle(step, bound) is Some,
        steady_step(step, bound, state),
        step matches Step::Done(e) ==> eval(e, state) == Some(meaning),
        step matches Step::Rewrite(e) ==> eval(e, state) == Some(meaning),
    ensures
        eval(settle(step, bound)->0, state) == Some(meaning),
    decreases bound, 0nat, 0nat,
{
    match step {
        Step::Rewrite(e) => {
            lemma_canon_keeps_meaning(e, state);
        },
        _ => {},
    }
}

proof fn lemma_shift_keeps(op: ShiftOp, value: ExprV, amount: ExprV, bound: nat, state: State)
    requires
        weight(value) < bound,
        weight(amount) < bound,
        steady(value, state),
        steady(amount, state),
        eval(shift_node(op, value, amount), state) is Some,
        canon_shift(op, canon(value), canon(amount)) is Some,
    ensures
        eval(canon_shift(op, canon(value), canon(amount))->0, state) == eval(
            shift_node(op, value, amount),
            state,
        ),
    decreases bound, 5nat, 0nat,
{
    lemma_canon_keeps_meaning(value, state);
    lemma_canon_keeps_meaning(amount, state);
    lemma_shift_step(op, canon(value)->0, canon(amount)->0, state);
}

proof fn lemma_flags_keep(
    overflow: bool,
    lhs: ExprV,
    rhs: ExprV,
    borrow: ExprV,
    width: u16,
    bound: nat,
    state: State,
)
    requires
        weight(lhs) < bound,
        weight(rhs) + 1 < bound,
        weight(borrow) + 1 < bound,
        steady(lhs, state),
        steady(rhs, state),
        steady(borrow, state),
        crate::evaluation::flag_word(
            if overflow {
                FlagOp::SubOverflow
            } else {
                FlagOp::SubCarryOut
            },
            eval(lhs, state),
            eval(rhs, state),
            eval(borrow, state),
            width,
        ) is Some,
        canon_flag(overflow, canon(lhs), canon(not_of(rhs)), canon(not_of(borrow)), width) is Some,
    ensures
        eval(
            canon_flag(overflow, canon(lhs), canon(not_of(rhs)), canon(not_of(borrow)), width)->0,
            state,
        ) == crate::evaluation::flag_word(
            if overflow {
                FlagOp::SubOverflow
            } else {
                FlagOp::SubCarryOut
            },
            eval(lhs, state),
            eval(rhs, state),
            eval(borrow, state),
            width,
        ),
    decreases bound, 5nat, 0nat,
{
    lemma_canon_keeps_meaning(lhs, state);
    lemma_eval_is_word(lhs, state);
    lemma_eval_is_word(rhs, state);
    lemma_eval_is_word(borrow, state);
    assert(steady(not_of(rhs), state));
    assert(steady(not_of(borrow), state));
    assert(eval(not_of(rhs), state) == not_word(eval(rhs, state)));
    assert(eval(not_of(borrow), state) == not_word(eval(borrow, state)));
    lemma_canon_keeps_meaning(not_of(rhs), state);
    lemma_canon_keeps_meaning(not_of(borrow), state);
    lemma_flag_step(overflow, eval(lhs, state), eval(rhs, state), eval(borrow, state), width);
}

/// Every chunk of a concatenation with a word has one.
pub(crate) proof fn lemma_chunks_defined(chunks: Seq<ExprV>, state: State)
    requires
        eval_chunks(chunks, state) is Some,
    ensures
        forall|i: int| 0 <= i < chunks.len() ==> eval(#[trigger] chunks[i], state) is Some,
    decreases chunks.len(),
{
    if chunks.len() > 1 {
        lemma_chunks_defined(chunks.drop_last(), state);
        assert forall|i: int| 0 <= i < chunks.len() implies eval(#[trigger] chunks[i], state)
            is Some by {
            if i < chunks.len() - 1 {
                assert(chunks.drop_last()[i] == chunks[i]);
            }
        }
    }
}

/// Chunks with the same words make the same word.
pub(crate) proof fn lemma_same_chunks(a: Seq<ExprV>, b: Seq<ExprV>, state: State)
    requires
        a.len() == b.len(),
        forall|i: int| 0 <= i < a.len() ==> eval(#[trigger] b[i], state) == eval(a[i], state),
    ensures
        eval_chunks(a, state) == eval_chunks(b, state),
    decreases a.len(),
{
    if a.len() > 0 {
        assert(eval(b[0], state) == eval(a[0], state));
        assert(eval(b[b.len() - 1], state) == eval(a[a.len() - 1], state));
        assert forall|i: int| 0 <= i < a.drop_last().len() implies eval(
            #[trigger] b.drop_last()[i],
            state,
        ) == eval(a.drop_last()[i], state) by {
            assert(b.drop_last()[i] == b[i]);
            assert(a.drop_last()[i] == a[i]);
        }
        lemma_same_chunks(a.drop_last(), b.drop_last(), state);
    }
}

/// What `Or`, `Xor` and `Select` are lowered to means the same.
pub(crate) proof fn lemma_lower_step(expr: ExprV, state: State)
    requires
        eval(expr, state) is Some,
    ensures
        lower_step(Some(expr)) matches Step::Done(e) ==> eval(e, state) == eval(expr, state),
        lower_step(Some(expr)) matches Step::Rewrite(e) ==> eval(e, state) == eval(expr, state),
{
    match expr {
        ExprV::Or(lhs, rhs) => {
            lemma_or_lowered(*lhs, *rhs, state);
        },
        ExprV::Xor(lhs, rhs) => {
            lemma_xor_lowered(*lhs, *rhs, state);
        },
        ExprV::Select { condition, when_true, when_false } => {
            if shared_arms(*when_true, *when_false) is Some {
                lemma_eval_width(*when_true, state);
                let width = shared_arms(*when_true, *when_false)->0;
                lemma_select_lowered(*condition, *when_true, *when_false, width, state);
            }
        },
        _ => {},
    }
}

/// What a selection becomes means the selection.
pub(crate) proof fn lemma_select_step(condition: ExprV, when_true: ExprV, when_false: ExprV, state: State)
    requires
        select_word(eval(condition, state), eval(when_true, state), eval(when_false, state))
            is Some,
    ensures
        ({
            let meaning = select_word(
                eval(condition, state),
                eval(when_true, state),
                eval(when_false, state),
            );
            let step = select_step(Some(condition), Some(when_true), Some(when_false));
            &&& step matches Step::Done(e) ==> eval(e, state) == meaning
            &&& step matches Step::Rewrite(e) ==> eval(e, state) == meaning
        }),
{
    let whole = ExprV::Select {
        condition: Box::new(condition),
        when_true: Box::new(when_true),
        when_false: Box::new(when_false),
    };
    lemma_lower_step(whole, state);
}

} // verus!
