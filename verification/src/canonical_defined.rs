//! When an expression has a canonical form.
use vstd::prelude::*;

use crate::canonical_fixed::{drawn_from, lemma_dedup, lemma_not_two_literals, lemma_sorted_drawn};
use crate::canonical_form::{
    absorbed, at_end, below, cancel_pairs, cancelled_width, canon, canon_all, canon_assoc,
    canon_not, combine_terms, flatten, flatten_all, includes, kept, known, lower_step, merge_chunks,
    mul_step, node, not_of, reaches_end, reduced, reduced_constant, run_length, select_step, settle,
    sorted_by_key, sub_step, unabsorbed, unknowns, weight, Step,
};
use crate::canonical_meaning::{
    lemma_all_keep, lemma_assoc_keeps, lemma_canon_keeps_meaning, lemma_chunks_defined,
    lemma_kept_member, lemma_lower_step, lemma_same_chunks, lemma_same_total, lemma_select_step,
    lemma_unabsorbed, steady, steady_all, steady_assoc, steady_step,
};
use crate::canonical_resolved::{
    all_resolved, lemma_all_resolved, lemma_assoc_resolved, lemma_canon_resolved,
    lemma_resolved_flatten, lemma_resolved_flatten_all, lemma_resolved_lower_step,
    lemma_resolved_mul_step, lemma_resolved_reduced, lemma_resolved_select_step,
    lemma_resolved_sub_step, lemma_resolved_unabsorbed, lemma_resolved_width, resolved,
};
use crate::canonical_shape::lemma_assoc_plain;
use crate::canonicalize::lemma_canon_all;
use crate::canonical_weight::{lemma_steps_shrink, lemma_tree_parts, next_step};
use crate::concat_laws::lemma_merge;
use crate::const_eval::{valid_width, AssocCommOp};
use crate::evaluation::{assoc_word, eval, eval_chunks, lemma_eval_is_word, State};
use crate::expr_shape::width_of;
use crate::expr_weight::lemma_weights_part;
use crate::instruction_semantics::ExprV;
use crate::product_laws::lemma_mul_step;
use crate::rewrite_laws::lemma_sub_step;
use crate::sort_laws::lemma_sorted_by_key;
use crate::terms::lemma_run;
use crate::tree_laws::{
    all_width, has_width, lemma_first_width, lemma_flatten, lemma_flatten_all, lemma_literals,
    lemma_sorted, lemma_total_concat, lemma_value_fits,
};

verus! {

/// Literals of one width combine, and terms without literals stay as they are.
pub(crate) proof fn lemma_known_defined(op: AssocCommOp, terms: Seq<ExprV>, state: State, width: u16)
    requires
        all_width(terms, state, width),
        valid_width(width),
    ensures
        known(op, terms) is Some,
        known(op, terms)->0 is None ==> unknowns(terms).len() == terms.len(),
    decreases terms.len(),
{
    if terms.len() > 0 {
        let front = terms.drop_last();
        assert(has_width(terms[terms.len() - 1], state, width));
        assert forall|i: int| 0 <= i < front.len() implies has_width(
            #[trigger] front[i],
            state,
            width,
        ) by {
            assert(front[i] == terms[i]);
        }
        lemma_known_defined(op, front, state, width);
        lemma_literals(op, front, state, width);
    }
}

/// A width once found stays found.
proof fn lemma_cancelled_found(terms: Seq<ExprV>, start: int, before: Option<u16>)
    requires
        before is Some,
    ensures
        cancelled_width(terms, start, before) is Some,
    decreases terms.len() - start,
{
    if 0 <= start < terms.len() {
        let run = run_length(terms, start, start + 1);
        let here = if run % 2 != 1 && width_of(terms[start]) is Some {
            width_of(terms[start])
        } else {
            before
        };
        if 1 <= run <= terms.len() - start {
            lemma_cancelled_found(terms, start + run, here);
        }
    }
}

/// Of terms with known widths either one is left or the width of a cancelled pair is found.
proof fn lemma_cancel_leaves(terms: Seq<ExprV>)
    requires
        terms.len() > 0,
        width_of(terms[0]) is Some,
    ensures
        cancel_pairs(terms, 0).len() > 0 || cancelled_width(terms, 0, None) is Some,
{
    let run = run_length(terms, 0, 1);
    lemma_run(terms, 0, 1);
    if run % 2 != 1 {
        lemma_cancelled_found(terms, run, width_of(terms[0]));
    }
}

/// Resolved leaves of one width combine to a tree.
proof fn lemma_terms_defined(op: AssocCommOp, leaves: Seq<ExprV>, state: State, width: u16)
    requires
        all_width(leaves, state, width),
        all_resolved(leaves),
        leaves.len() > 0,
        valid_width(width),
    ensures
        combine_terms(op, leaves) is Some,
{
    lemma_known_defined(op, leaves, state, width);
    lemma_literals(op, leaves, state, width);
    let literal = known(op, leaves)->0;
    let found = unknowns(leaves);
    let sorted = sorted_by_key(found);
    let terms = reduced(op, sorted);
    let constant = reduced_constant(op, sorted, literal);
    lemma_sorted(op, found, state, width);
    lemma_sorted_drawn(found);
    lemma_sorted_by_key(found);
    lemma_resolved_reduced(op, leaves);
    if op == AssocCommOp::And || op == AssocCommOp::Or {
        crate::tree_laws::lemma_dedup(op, sorted, state, width);
        lemma_dedup(sorted);
        lemma_first_width(terms, state, width);
    }
    if literal is None {
        assert(sorted.len() > 0);
        assert(has_width(sorted[0], state, width));
        assert(resolved(sorted[0]));
        lemma_resolved_width(sorted[0], state);
        lemma_cancel_leaves(sorted);
        if op == AssocCommOp::Xor {
            crate::tree_laws::lemma_cancelled_width(sorted, 0, None, state, width);
        }
    }
}

/// A row of defined expressions has canonical forms.
proof fn lemma_all_defined(exprs: Seq<ExprV>, bound: nat, state: State)
    requires
        all_resolved(exprs),
        steady_all(exprs, bound, state),
        forall|i: int|
            0 <= i < exprs.len() ==> eval(#[trigger] exprs[i], state) is Some && weight(exprs[i])
                < bound,
    ensures
        canon_all(exprs, bound) is Some,
    decreases bound, 1nat, exprs.len(),
{
    if exprs.len() > 0 {
        let front = exprs.drop_last();
        let last = exprs.last();
        assert forall|i: int| 0 <= i < front.len() implies eval(#[trigger] front[i], state)
            is Some && weight(front[i]) < bound && resolved(front[i]) && steady(
            front[i],
            state,
        ) by {
            assert(front[i] == exprs[i]);
            assert(resolved(exprs[i]));
        }
        lemma_all_defined(front, bound, state);
        assert(exprs[exprs.len() - 1] == last);
        assert(resolved(exprs[exprs.len() - 1]));
        lemma_canon_defined(last, state);
        let made = below(last, bound);
        assert(made == canon(last));
    }
}

/// The terms that stay are terms.
proof fn lemma_kept_drawn(
    op: AssocCommOp,
    terms: Seq<ExprV>,
    forms: Seq<ExprV>,
    n: nat,
    bound: nat,
)
    requires
        n <= terms.len(),
    ensures
        drawn_from(kept(op, terms, forms, n, bound), terms),
    decreases n,
{
    if n > 0 {
        let before = kept(op, terms, forms, (n - 1) as nat, bound);
        let after = kept(op, terms, forms, n, bound);
        lemma_kept_drawn(op, terms, forms, (n - 1) as nat, bound);
        assert forall|i: int| 0 <= i < after.len() implies terms.contains(#[trigger] after[i]) by {
            if i < before.len() {
                assert(after[i] == before[i]);
            } else {
                assert(terms[n - 1] == after[i]);
            }
        }
    }
}

/// What leads to an end leads to one that is there.
proof fn lemma_end(relation: spec_fn(int, int) -> bool, n: nat, i: int, steps: nat) -> (j: int)
    requires
        0 <= i < n,
        reaches_end(relation, n, i, steps),
    ensures
        0 <= j < n,
        at_end(relation, n, j),
    decreases steps,
{
    if at_end(relation, n, i) {
        i
    } else {
        let j = choose|j: int|
            0 <= j < n && #[trigger] relation(i, j) && reaches_end(
                relation,
                n,
                j,
                (steps - 1) as nat,
            );
        lemma_end(relation, n, j, (steps - 1) as nat)
    }
}

/// Some term stays.
proof fn lemma_some_kept(op: AssocCommOp, terms: Seq<ExprV>, forms: Seq<ExprV>, bound: nat)
    requires
        terms.len() > 0,
        forms.len() == terms.len(),
    ensures
        kept(op, terms, forms, terms.len(), bound).len() > 0,
{
    let j = if absorbed(op, terms, forms, 0, bound) {
        lemma_end(includes(op, terms, forms, bound), forms.len(), 0, forms.len())
    } else {
        0
    };
    let k = lemma_kept_member(op, terms, forms, terms.len(), j, bound);
}

/// The leaves of trees are at least as many as the trees.
proof fn lemma_flatten_len(op: AssocCommOp, exprs: Seq<ExprV>)
    ensures
        flatten_all(op, exprs).len() >= exprs.len(),
    decreases exprs.len(),
{
    if exprs.len() > 0 {
        lemma_flatten_len(op, exprs.drop_last());
        lemma_flatten_some(op, exprs.last());
    }
}

pub(crate) proof fn lemma_flatten_some(op: AssocCommOp, expr: ExprV)
    ensures
        flatten(op, expr).len() > 0,
    decreases expr,
{
    match (op, expr) {
        (AssocCommOp::Add, ExprV::Add(lhs, rhs))
        | (AssocCommOp::Mul, ExprV::Mul(lhs, rhs))
        | (AssocCommOp::And, ExprV::And(lhs, rhs))
        | (AssocCommOp::Or, ExprV::Or(lhs, rhs))
        | (AssocCommOp::Xor, ExprV::Xor(lhs, rhs)) => {
            lemma_flatten_some(op, *lhs);
        },
        _ => {},
    }
}

/// Of terms with canonical forms some stay, and these are as light, defined and resolved.
proof fn lemma_left_over(
    op: AssocCommOp,
    terms: Seq<ExprV>,
    bound: nat,
    state: State,
    width: u16,
)
    requires
        terms.len() > 0,
        canon_all(terms, bound) is Some,
        all_width(terms, state, width),
        all_resolved(terms),
        valid_width(width),
        steady_all(terms, bound, state),
        forall|i: int| 0 <= i < terms.len() ==> weight(#[trigger] terms[i]) < bound,
    ensures
        ({
            let left = unabsorbed(op, terms, bound);
            &&& left is Some
            &&& left->0.len() > 0
            &&& all_width(left->0, state, width)
            &&& all_resolved(left->0)
            &&& steady_all(left->0, bound, state)
            &&& forall|i: int|
                0 <= i < left->0.len() ==> eval(#[trigger] left->0[i], state) is Some && weight(
                    left->0[i],
                ) < bound
        }),
{
    let all_forms = canon_all(terms, bound)->0;
    if op == AssocCommOp::And || op == AssocCommOp::Or {
        lemma_canon_all(terms, bound);
        lemma_kept_drawn(op, terms, all_forms, terms.len(), bound);
        lemma_some_kept(op, terms, all_forms, bound);
    }
    let left = unabsorbed(op, terms, bound)->0;
    assert(unabsorbed(op, terms, bound) is Some && left.len() > 0);
    lemma_unabsorbed(op, terms, bound, state, width);
    lemma_resolved_unabsorbed(op, terms, bound);
    assert forall|i: int| 0 <= i < left.len() implies eval(#[trigger] left[i], state) is Some
        && weight(left[i]) < bound by {
        assert(has_width(left[i], state, width));
        if op == AssocCommOp::And || op == AssocCommOp::Or {
            let j = choose|j: int| 0 <= j < terms.len() && terms[j] == left[i];
            assert(weight(terms[j]) < bound);
        }
    }
}

/// A node of an operator over defined sides has a canonical tree.
proof fn lemma_assoc_defined(op: AssocCommOp, lhs: ExprV, rhs: ExprV, state: State)
    requires
        resolved(lhs),
        resolved(rhs),
        assoc_word(op, eval(lhs, state), eval(rhs, state)) is Some,
        steady_assoc(op, lhs, rhs, weight(node(op, lhs, rhs)), state),
    ensures
        canon_assoc(op, lhs, rhs, weight(node(op, lhs, rhs))) is Some,
    decreases weight(node(op, lhs, rhs)), 4nat, 0nat,
{
    let bound = weight(node(op, lhs, rhs));
    let width = eval(lhs, state)->0.width;
    let terms = flatten(op, lhs) + flatten(op, rhs);
    lemma_value_fits(lhs, state, width);
    lemma_value_fits(rhs, state, width);
    lemma_flatten(op, lhs, state, width);
    lemma_flatten(op, rhs, state, width);
    lemma_total_concat(op, flatten(op, lhs), flatten(op, rhs), state, width);
    lemma_resolved_flatten(op, lhs);
    lemma_resolved_flatten(op, rhs);
    lemma_tree_parts(op, lhs, rhs);
    lemma_flatten_some(op, lhs);
    assert(all_resolved(terms)) by {
        let left = flatten(op, lhs);
        assert forall|i: int| 0 <= i < terms.len() implies resolved(#[trigger] terms[i]) by {
            if i < left.len() {
                assert(terms[i] == left[i]);
            } else {
                assert(terms[i] == flatten(op, rhs)[i - left.len()]);
            }
        }
    }
    assert forall|i: int| 0 <= i < terms.len() implies eval(#[trigger] terms[i], state) is Some
        && weight(terms[i]) < bound by {
        assert(has_width(terms[i], state, width));
    }
    lemma_all_defined(terms, bound, state);
    lemma_left_over(op, terms, bound, state, width);
    let left = unabsorbed(op, terms, bound)->0;
    lemma_all_defined(left, bound, state);
    let forms = canon_all(left, bound)->0;
    lemma_all_keep(left, bound, state);
    lemma_same_total(op, left, forms, state, width);
    lemma_all_resolved(left, bound);
    lemma_flatten_all(op, forms, state, width);
    lemma_resolved_flatten_all(op, forms);
    lemma_flatten_len(op, forms);
    lemma_terms_defined(op, flatten_all(op, forms), state, width);
}

/// Chunks that make a word merge.
pub(crate) proof fn lemma_merge_defined(chunks: Seq<ExprV>, state: State)
    requires
        eval_chunks(chunks, state) is Some,
    ensures
        merge_chunks(chunks) is Some,
    decreases chunks.len(),
{
    let front = chunks.drop_last();
    let last = chunks.last();
    lemma_eval_is_word(last, state);
    if chunks.len() == 1 {
        assert(merge_chunks(front) == Some(Seq::<ExprV>::empty()));
    } else {
        lemma_merge_defined(front, state);
        lemma_merge(front, state);
        let before = merge_chunks(front)->0;
        let above = before.last();
        lemma_eval_is_word(above, state);
        if before.len() > 1 {
            lemma_eval_is_word(ExprV::Concat(before.drop_last()), state);
        }
        if last is Const && above is Const {
            assert(eval_chunks(before, state) is Some);
            assert(eval(above, state) is Some);
            assert(above->Const_width <= eval_chunks(before, state)->0.width);
        }
    }
}

/// An expression without instruction fields and derived values that has a word in some state,
/// with steady steps in that state, has a canonical form.
pub proof fn lemma_canon_defined(expr: ExprV, state: State)
    requires
        resolved(expr),
        eval(expr, state) is Some,
        steady(expr, state),
    ensures
        canon(expr) is Some,
    decreases weight(expr), 6nat, 0nat,
{
    match expr {
        ExprV::Add(lhs, rhs) => {
            lemma_product_defined(AssocCommOp::Add, *lhs, *rhs, state);
        },
        ExprV::Mul(lhs, rhs) => {
            lemma_product_defined(AssocCommOp::Mul, *lhs, *rhs, state);
        },
        ExprV::And(lhs, rhs) => {
            lemma_assoc_defined(AssocCommOp::And, *lhs, *rhs, state);
        },
        ExprV::Or(lhs, rhs) => {
            lemma_lowered_defined(AssocCommOp::Or, *lhs, *rhs, state);
        },
        ExprV::Xor(lhs, rhs) => {
            lemma_lowered_defined(AssocCommOp::Xor, *lhs, *rhs, state);
        },
        ExprV::Sub(_, _) | ExprV::Select { .. } => {
            lemma_rewritten_defined(expr, state);
        },
        ExprV::Concat(values) => {
            let bound = weight(expr);
            lemma_chunks_defined(values, state);
            assert forall|i: int| 0 <= i < values.len() implies eval(#[trigger] values[i], state)
                is Some && weight(values[i]) < bound by {
                lemma_weights_part(values, i);
            }
            lemma_all_defined(values, bound, state);
            lemma_all_keep(values, bound, state);
            let chunks = canon_all(values, bound)->0;
            lemma_same_chunks(values, chunks, state);
            lemma_merge_defined(chunks, state);
        },
        _ => {
            lemma_part_defined(expr, state);
        },
    }
}

proof fn lemma_product_defined(op: AssocCommOp, lhs: ExprV, rhs: ExprV, state: State)
    requires
        op == AssocCommOp::Add || op == AssocCommOp::Mul,
        resolved(lhs),
        resolved(rhs),
        eval(node(op, lhs, rhs), state) is Some,
        steady(node(op, lhs, rhs), state),
    ensures
        canon(node(op, lhs, rhs)) is Some,
    decreases weight(node(op, lhs, rhs)), 5nat, 0nat,
{
    let expr = node(op, lhs, rhs);
    let bound = weight(expr);
    let tree = canon_assoc(op, lhs, rhs, bound);
    let step = mul_step(tree);
    assert(steady_assoc(op, lhs, rhs, bound, state));
    assert(steady_step(step, bound, state));
    lemma_assoc_defined(op, lhs, rhs, state);
    lemma_assoc_keeps(op, lhs, rhs, bound, state);
    lemma_assoc_resolved(op, lhs, rhs, bound);
    lemma_assoc_plain(op, lhs, rhs, bound);
    lemma_resolved_width(tree->0, state);
    lemma_not_two_literals(op, lhs, rhs, bound);
    lemma_mul_step(tree->0, state);
    lemma_resolved_mul_step(tree->0);
    lemma_steps_shrink(expr);
    assert(next_step(expr) == step);
    assert(!(step is Undefined));
    lemma_settle_defined(step, bound, state);
    let made = settle(step, bound);
    assert(canon(expr) == made);
}

proof fn lemma_lowered_defined(op: AssocCommOp, lhs: ExprV, rhs: ExprV, state: State)
    requires
        op == AssocCommOp::Or || op == AssocCommOp::Xor,
        resolved(lhs),
        resolved(rhs),
        eval(node(op, lhs, rhs), state) is Some,
        steady(node(op, lhs, rhs), state),
    ensures
        canon(node(op, lhs, rhs)) is Some,
    decreases weight(node(op, lhs, rhs)), 5nat, 0nat,
{
    let expr = node(op, lhs, rhs);
    let bound = weight(expr);
    let tree = canon_assoc(op, lhs, rhs, bound);
    let step = lower_step(tree);
    assert(steady_assoc(op, lhs, rhs, bound, state));
    assert(steady_step(step, bound, state));
    lemma_assoc_defined(op, lhs, rhs, state);
    lemma_assoc_keeps(op, lhs, rhs, bound, state);
    lemma_assoc_resolved(op, lhs, rhs, bound);
    crate::canonical_shape::lemma_assoc_plain(op, lhs, rhs, bound);
    lemma_lower_step(tree->0, state);
    lemma_resolved_lower_step(tree->0);
    lemma_steps_shrink(expr);
    assert(next_step(expr) == step);
    assert(!(step is Undefined));
    lemma_settle_defined(step, bound, state);
    let made = settle(step, bound);
    assert(canon(expr) == made);
}

/// A step that is not undefined settles.
proof fn lemma_settle_defined(step: Step, bound: nat, state: State)
    requires
        !(step is Undefined),
        step matches Step::Rewrite(e) ==> weight(e) < bound && resolved(e) && steady(e, state)
            && eval(e, state) is Some,
    ensures
        settle(step, bound) is Some,
    decreases bound, 0nat, 0nat,
{
    match step {
        Step::Rewrite(e) => {
            lemma_canon_defined(e, state);
        },
        _ => {},
    }
}

proof fn lemma_rewritten_defined(expr: ExprV, state: State)
    requires
        expr is Sub || expr is Select,
        resolved(expr),
        eval(expr, state) is Some,
        steady(expr, state),
    ensures
        canon(expr) is Some,
    decreases weight(expr), 5nat, 0nat,
{
    let bound = weight(expr);
    match expr {
        ExprV::Sub(lhs, rhs) => {
            lemma_part_forms(*lhs, state);
            lemma_part_forms(*rhs, state);
            let (l, r) = (canon(*lhs)->0, canon(*rhs)->0);
            let step = sub_step(canon(*lhs), canon(*rhs));
            assert(steady_step(step, bound, state));
            lemma_sub_step(l, r, state);
            lemma_resolved_sub_step(l, r);
            lemma_steps_shrink(expr);
            assert(next_step(expr) == step);
            assert(!(step is Undefined));
            lemma_settle_defined(step, bound, state);
            let made = settle(step, bound);
            assert(canon(expr) == made);
        },
        ExprV::Select { condition, when_true, when_false } => {
            lemma_part_forms(*condition, state);
            lemma_part_forms(*when_true, state);
            lemma_part_forms(*when_false, state);
            let (c, t, f) = (canon(*condition)->0, canon(*when_true)->0, canon(*when_false)->0);
            let step = select_step(canon(*condition), canon(*when_true), canon(*when_false));
            assert(steady_step(step, bound, state));
            lemma_select_step(c, t, f, state);
            lemma_resolved_select_step(c, t, f);
            lemma_steps_shrink(expr);
            assert(next_step(expr) == step);
            assert(!(step is Undefined));
            lemma_settle_defined(step, bound, state);
            let made = settle(step, bound);
            assert(canon(expr) == made);
        },
        _ => {},
    }
}

/// The canonical form of a defined part: it means the part, and its width is known.
proof fn lemma_part_forms(part: ExprV, state: State)
    requires
        resolved(part),
        eval(part, state) is Some,
        steady(part, state),
    ensures
        canon(part) is Some,
        eval(canon(part)->0, state) == eval(part, state),
        resolved(canon(part)->0),
        width_of(canon(part)->0) == Some(eval(part, state)->0.width),
        valid_width(eval(part, state)->0.width),
    decreases weight(part), 7nat, 0nat,
{
    lemma_canon_defined(part, state);
    lemma_canon_keeps_meaning(part, state);
    lemma_canon_resolved(part);
    lemma_resolved_width(canon(part)->0, state);
    lemma_eval_is_word(part, state);
}

proof fn lemma_part_defined(expr: ExprV, state: State)
    requires
        resolved(expr),
        eval(expr, state) is Some,
        steady(expr, state),
        !(expr is Add || expr is Mul || expr is And || expr is Or || expr is Xor || expr is Sub
            || expr is Select || expr is Concat),
    ensures
        canon(expr) is Some,
    decreases weight(expr), 5nat, 0nat,
{
    match expr {
        ExprV::ReadRegister { register: part, .. }
        | ExprV::ReadMemory { address: part, .. }
        | ExprV::Not(part)
        | ExprV::CountOnes(part)
        | ExprV::Extract { value: part, .. }
        | ExprV::ZeroExtend { value: part, .. }
        | ExprV::SignExtend { value: part, .. } => {
            lemma_part_forms(*part, state);
        },
        ExprV::ShiftLeft(lhs, rhs)
        | ExprV::LogicalShiftRight(lhs, rhs)
        | ExprV::ArithmeticShiftRight(lhs, rhs)
        | ExprV::RotateRight(lhs, rhs)
        | ExprV::Equal(lhs, rhs)
        | ExprV::UnsignedLessThan(lhs, rhs)
        | ExprV::SignedLessThan(lhs, rhs) => {
            lemma_part_forms(*lhs, state);
            lemma_part_forms(*rhs, state);
        },
        ExprV::AddCarryOut { lhs, rhs, carry_in, .. }
        | ExprV::AddOverflow { lhs, rhs, carry_in, .. } => {
            lemma_part_forms(*lhs, state);
            lemma_part_forms(*rhs, state);
            lemma_part_forms(*carry_in, state);
        },
        ExprV::SubCarryOut { lhs, rhs, borrow_in, .. }
        | ExprV::SubOverflow { lhs, rhs, borrow_in, .. } => {
            lemma_part_forms(*lhs, state);
            lemma_part_forms(*rhs, state);
            lemma_part_forms(*borrow_in, state);
            assert(canon(not_of(*rhs)) == canon_not(canon(*rhs)));
            assert(canon(not_of(*borrow_in)) == canon_not(canon(*borrow_in)));
        },
        _ => {},
    }
}

} // verus!
