//! Expressions without open operands keep having none, and their widths are known.
use vstd::prelude::*;

use crate::canonical_fixed::{
    drawn_from, lemma_cancel_drawn, lemma_dedup, lemma_sorted_drawn, lemma_unknowns_drawn,
};
use crate::canonical_form::{
    below, canon, canon_all, canon_assoc, combine_terms, doubled, flatten, flatten_all, kept, lit,
    lower_step, merge_chunks, mul_step, node, not_of, rebuild, reduced, reduced_constant,
    select_step, settle, shifted_sum, sorted_by_key, sub_step, sum_of, unabsorbed, unknowns, weight,
    with_constant, Step,
};
use crate::const_eval::{canonical, AssocCommOp};
use crate::evaluation::{eval, eval_chunks, lemma_eval_is_word, State};
use crate::expr_shape::{chunks_width, width_of};
use crate::instruction_semantics::{ExprV, OperandV, RegisterV};
use crate::sort_laws::lemma_sorted_by_key;

verus! {

/// All expressions of a row are resolved.
pub open spec fn all_resolved(exprs: Seq<ExprV>) -> bool
    decreases exprs, 0nat,
{
    forall|i: int| 0 <= i < exprs.len() ==> resolved(#[trigger] exprs[i])
}

/// The expression has no instruction field and no derived value in it.
pub open spec fn resolved(expr: ExprV) -> bool
    decreases expr, 1nat,
{
    match expr {
        ExprV::Const { .. } => true,
        ExprV::Operand(OperandV::RegisterField(RegisterV::Fixed { .. })) => true,
        ExprV::Operand(_) | ExprV::DerivedValue(_) => false,
        ExprV::ReadRegister { register: part, .. }
        | ExprV::ReadMemory { address: part, .. }
        | ExprV::Not(part)
        | ExprV::CountOnes(part)
        | ExprV::Extract { value: part, .. }
        | ExprV::ZeroExtend { value: part, .. }
        | ExprV::SignExtend { value: part, .. } => resolved(*part),
        ExprV::Add(lhs, rhs)
        | ExprV::Sub(lhs, rhs)
        | ExprV::Mul(lhs, rhs)
        | ExprV::And(lhs, rhs)
        | ExprV::Or(lhs, rhs)
        | ExprV::Xor(lhs, rhs)
        | ExprV::ShiftLeft(lhs, rhs)
        | ExprV::LogicalShiftRight(lhs, rhs)
        | ExprV::ArithmeticShiftRight(lhs, rhs)
        | ExprV::RotateRight(lhs, rhs)
        | ExprV::Equal(lhs, rhs)
        | ExprV::UnsignedLessThan(lhs, rhs)
        | ExprV::SignedLessThan(lhs, rhs) => resolved(*lhs) && resolved(*rhs),
        ExprV::Concat(values) => all_resolved(values),
        ExprV::AddCarryOut { lhs, rhs, carry_in: flag, .. }
        | ExprV::AddOverflow { lhs, rhs, carry_in: flag, .. }
        | ExprV::SubCarryOut { lhs, rhs, borrow_in: flag, .. }
        | ExprV::SubOverflow { lhs, rhs, borrow_in: flag, .. } => {
            resolved(*lhs) && resolved(*rhs) && resolved(*flag)
        },
        ExprV::Select { condition, when_true, when_false } => {
            resolved(*condition) && resolved(*when_true) && resolved(*when_false)
        },
    }
}

/// The width of a resolved expression that has a word is known without a state.
pub proof fn lemma_resolved_width(expr: ExprV, state: State)
    requires
        resolved(expr),
        eval(expr, state) is Some,
    ensures
        width_of(expr) == Some(eval(expr, state)->0.width),
    decreases expr, 1nat,
{
    match expr {
        ExprV::Add(lhs, rhs)
        | ExprV::Sub(lhs, rhs)
        | ExprV::Mul(lhs, rhs)
        | ExprV::And(lhs, rhs)
        | ExprV::Or(lhs, rhs)
        | ExprV::Xor(lhs, rhs)
        | ExprV::ShiftLeft(lhs, rhs)
        | ExprV::LogicalShiftRight(lhs, rhs)
        | ExprV::ArithmeticShiftRight(lhs, rhs)
        | ExprV::RotateRight(lhs, rhs) => {
            lemma_resolved_width(*lhs, state);
            lemma_resolved_width(*rhs, state);
        },
        ExprV::Not(part) | ExprV::CountOnes(part) => {
            lemma_resolved_width(*part, state);
        },
        ExprV::Extract { value, .. } => {
            lemma_eval_is_word(*value, state);
        },
        ExprV::Select { when_true, when_false, .. } => {
            lemma_resolved_width(*when_true, state);
            lemma_resolved_width(*when_false, state);
        },
        ExprV::Concat(values) => {
            lemma_resolved_chunks(values, state);
        },
        _ => {},
    }
}

proof fn lemma_resolved_chunks(chunks: Seq<ExprV>, state: State)
    requires
        all_resolved(chunks),
        eval_chunks(chunks, state) is Some,
    ensures
        chunks_width(chunks) == Some(eval_chunks(chunks, state)->0.width),
    decreases chunks, 0nat,
{
    assert(resolved(chunks[chunks.len() - 1]));
    lemma_resolved_width(chunks.last(), state);
    lemma_eval_is_word(chunks.last(), state);
    let front = chunks.drop_last();
    if chunks.len() > 1 {
        assert(all_resolved(front)) by {
            assert forall|i: int| 0 <= i < front.len() implies resolved(#[trigger] front[i]) by {
                assert(front[i] == chunks[i]);
            }
        }
        lemma_resolved_chunks(front, state);
    } else {
        assert(chunks_width(front) == Some(0u16));
    }
}

proof fn lemma_resolved_drawn(a: Seq<ExprV>, b: Seq<ExprV>)
    requires
        drawn_from(a, b),
        all_resolved(b),
    ensures
        all_resolved(a),
{
    assert forall|i: int| 0 <= i < a.len() implies resolved(#[trigger] a[i]) by {
        let j = choose|j: int| 0 <= j < b.len() && b[j] == a[i];
        assert(resolved(b[j]));
    }
}

proof fn lemma_resolved_concat(a: Seq<ExprV>, b: Seq<ExprV>)
    requires
        all_resolved(a),
        all_resolved(b),
    ensures
        all_resolved(a + b),
{
    assert forall|i: int| 0 <= i < (a + b).len() implies resolved(#[trigger] (a + b)[i]) by {
        if i < a.len() {
            assert((a + b)[i] == a[i]);
        } else {
            assert((a + b)[i] == b[i - a.len()]);
        }
    }
}

proof fn lemma_resolved_push(a: Seq<ExprV>, b: ExprV)
    requires
        all_resolved(a),
        resolved(b),
    ensures
        all_resolved(a.push(b)),
{
    assert forall|i: int| 0 <= i < a.push(b).len() implies resolved(#[trigger] a.push(b)[i]) by {
        if i < a.len() {
            assert(a.push(b)[i] == a[i]);
        }
    }
}

proof fn lemma_resolved_parts(a: Seq<ExprV>)
    requires
        all_resolved(a),
        a.len() > 0,
    ensures
        all_resolved(a.drop_last()),
        resolved(a.last()),
{
    assert(resolved(a[a.len() - 1]));
    assert forall|i: int| 0 <= i < a.drop_last().len() implies resolved(
        #[trigger] a.drop_last()[i],
    ) by {
        assert(a.drop_last()[i] == a[i]);
    }
}

/// The leaves of a resolved tree are resolved.
pub proof fn lemma_resolved_flatten(op: AssocCommOp, expr: ExprV)
    requires
        resolved(expr),
    ensures
        all_resolved(flatten(op, expr)),
    decreases expr,
{
    match (op, expr) {
        (AssocCommOp::Add, ExprV::Add(lhs, rhs))
        | (AssocCommOp::Mul, ExprV::Mul(lhs, rhs))
        | (AssocCommOp::And, ExprV::And(lhs, rhs))
        | (AssocCommOp::Or, ExprV::Or(lhs, rhs))
        | (AssocCommOp::Xor, ExprV::Xor(lhs, rhs)) => {
            lemma_resolved_flatten(op, *lhs);
            lemma_resolved_flatten(op, *rhs);
            lemma_resolved_concat(flatten(op, *lhs), flatten(op, *rhs));
        },
        _ => {
            assert(flatten(op, expr) == seq![expr]);
        },
    }
}

pub(crate) proof fn lemma_resolved_flatten_all(op: AssocCommOp, exprs: Seq<ExprV>)
    requires
        all_resolved(exprs),
    ensures
        all_resolved(flatten_all(op, exprs)),
    decreases exprs.len(),
{
    if exprs.len() > 0 {
        lemma_resolved_parts(exprs);
        lemma_resolved_flatten_all(op, exprs.drop_last());
        lemma_resolved_flatten(op, exprs.last());
        lemma_resolved_concat(flatten_all(op, exprs.drop_last()), flatten(op, exprs.last()));
    }
}

/// The tree over resolved terms is resolved.
proof fn lemma_resolved_rebuild(op: AssocCommOp, terms: Seq<ExprV>)
    requires
        all_resolved(terms),
        terms.len() > 0,
    ensures
        resolved(rebuild(op, terms)),
    decreases terms.len(),
{
    lemma_resolved_parts(terms);
    if terms.len() > 1 {
        lemma_resolved_rebuild(op, terms.drop_last());
    } else {
        assert(resolved(terms[0]));
    }
}

/// What an operator leaves of resolved leaves is resolved.
pub(crate) proof fn lemma_resolved_reduced(op: AssocCommOp, leaves: Seq<ExprV>)
    requires
        all_resolved(leaves),
    ensures
        all_resolved(reduced(op, sorted_by_key(unknowns(leaves)))),
        all_resolved(sorted_by_key(unknowns(leaves))),
{
    let found = unknowns(leaves);
    let sorted = sorted_by_key(found);
    lemma_unknowns_drawn(leaves);
    lemma_sorted_drawn(found);
    lemma_sorted_by_key(found);
    lemma_resolved_drawn(found, leaves);
    lemma_resolved_drawn(sorted, found);
    lemma_dedup(sorted);
    lemma_resolved_drawn(crate::canonical_form::dedup(sorted), sorted);
    lemma_cancel_drawn(sorted, 0);
    lemma_resolved_drawn(crate::canonical_form::cancel_pairs(sorted, 0), sorted);
}

proof fn lemma_resolved_terms(op: AssocCommOp, leaves: Seq<ExprV>)
    requires
        all_resolved(leaves),
        combine_terms(op, leaves) is Some,
    ensures
        resolved(combine_terms(op, leaves)->0),
{
    let sorted = sorted_by_key(unknowns(leaves));
    let terms = reduced(op, sorted);
    lemma_resolved_reduced(op, leaves);
    let tree = combine_terms(op, leaves)->0;
    let literal = crate::canonical_form::known(op, leaves)->0;
    let constant = reduced_constant(op, sorted, literal);
    if with_constant(op, terms, constant) == Some(tree) {
        match constant {
            None => {
                lemma_resolved_rebuild(op, terms);
            },
            Some((value, width)) => {
                let row = terms.push(lit(canonical(value, width), width));
                lemma_resolved_push(terms, lit(canonical(value, width), width));
                lemma_resolved_rebuild(op, row);
                if terms.len() > 0 {
                    lemma_resolved_rebuild(op, terms);
                }
            },
        }
    }
}

/// The terms that stay are resolved.
proof fn lemma_resolved_kept(
    op: AssocCommOp,
    terms: Seq<ExprV>,
    forms: Seq<ExprV>,
    n: nat,
    bound: nat,
)
    requires
        n <= terms.len(),
        all_resolved(terms),
    ensures
        all_resolved(kept(op, terms, forms, n, bound)),
    decreases n,
{
    if n > 0 {
        lemma_resolved_kept(op, terms, forms, (n - 1) as nat, bound);
        assert(resolved(terms[n - 1]));
        lemma_resolved_push(kept(op, terms, forms, (n - 1) as nat, bound), terms[n - 1]);
    }
}

pub(crate) proof fn lemma_resolved_unabsorbed(op: AssocCommOp, terms: Seq<ExprV>, bound: nat)
    requires
        all_resolved(terms),
        unabsorbed(op, terms, bound) is Some,
    ensures
        all_resolved(unabsorbed(op, terms, bound)->0),
{
    if op == AssocCommOp::And || op == AssocCommOp::Or {
        lemma_resolved_kept(op, terms, canon_all(terms, bound)->0, terms.len(), bound);
    }
}

pub(crate) proof fn lemma_all_resolved(exprs: Seq<ExprV>, bound: nat)
    requires
        all_resolved(exprs),
        canon_all(exprs, bound) is Some,
    ensures
        all_resolved(canon_all(exprs, bound)->0),
    decreases bound, 1nat, exprs.len(),
{
    if exprs.len() > 0 {
        let last = exprs.last();
        let made = below(last, bound);
        assert(made is Some);
        assert(weight(last) < bound);
        assert(made == canon(last));
        lemma_resolved_parts(exprs);
        lemma_all_resolved(exprs.drop_last(), bound);
        lemma_canon_resolved(last);
        lemma_resolved_push(canon_all(exprs.drop_last(), bound)->0, canon(last)->0);
    }
}

pub(crate) proof fn lemma_assoc_resolved(op: AssocCommOp, lhs: ExprV, rhs: ExprV, bound: nat)
    requires
        resolved(lhs),
        resolved(rhs),
        canon_assoc(op, lhs, rhs, bound) is Some,
    ensures
        resolved(canon_assoc(op, lhs, rhs, bound)->0),
    decreases bound, 4nat, 0nat,
{
    lemma_resolved_flatten(op, lhs);
    lemma_resolved_flatten(op, rhs);
    lemma_resolved_concat(flatten(op, lhs), flatten(op, rhs));
    let terms = flatten(op, lhs) + flatten(op, rhs);
    let left = unabsorbed(op, terms, bound)->0;
    let forms = canon_all(left, bound)->0;
    lemma_resolved_unabsorbed(op, terms, bound);
    lemma_all_resolved(left, bound);
    lemma_resolved_flatten_all(op, forms);
    lemma_resolved_terms(op, flatten_all(op, forms));
}

/// A sum of shifts of a resolved term is resolved.
proof fn lemma_resolved_shifts(term: ExprV, factor: u128, sum: ExprV, width: u16)
    requires
        resolved(term),
        resolved(sum),
    ensures
        resolved(shifted_sum(term, factor, sum, width)),
    decreases factor,
{
    if factor > 0 {
        reveal_with_fuel(resolved, 3);
        let next = if factor % 2 == 1 {
            sum_of(sum, term)
        } else {
            sum
        };
        assert(resolved(next));
        assert(resolved(doubled(term, width)));
        lemma_resolved_shifts(doubled(term, width), factor / 2, next, width);
    }
}

/// What a product becomes is resolved.
pub(crate) proof fn lemma_resolved_mul_step(tree: ExprV)
    requires
        resolved(tree),
    ensures
        mul_step(Some(tree)) matches Step::Done(e) ==> resolved(e),
        mul_step(Some(tree)) matches Step::Rewrite(e) ==> resolved(e),
{
    if width_of(tree) is Some {
        let width = width_of(tree)->0;
        match tree {
            ExprV::Mul(lhs, rhs) => {
                if *lhs is Const {
                    lemma_resolved_shifts(*rhs, lhs->Const_value, lit(0, width), width);
                } else if *rhs is Const {
                    lemma_resolved_shifts(*lhs, rhs->Const_value, lit(0, width), width);
                }
            },
            _ => {},
        }
    }
}

/// What `Or`, `Xor` and `Select` become is resolved.
pub(crate) proof fn lemma_resolved_lower_step(tree: ExprV)
    requires
        resolved(tree),
    ensures
        lower_step(Some(tree)) matches Step::Done(e) ==> resolved(e),
        lower_step(Some(tree)) matches Step::Rewrite(e) ==> resolved(e),
{
    reveal_with_fuel(resolved, 7);
}

/// What a difference becomes is resolved.
pub(crate) proof fn lemma_resolved_sub_step(lhs: ExprV, rhs: ExprV)
    requires
        resolved(lhs),
        resolved(rhs),
    ensures
        sub_step(Some(lhs), Some(rhs)) matches Step::Done(e) ==> resolved(e),
        sub_step(Some(lhs), Some(rhs)) matches Step::Rewrite(e) ==> resolved(e),
{
    reveal_with_fuel(resolved, 4);
}

/// What a selection becomes is resolved.
pub(crate) proof fn lemma_resolved_select_step(c: ExprV, t: ExprV, f: ExprV)
    requires
        resolved(c),
        resolved(t),
        resolved(f),
    ensures
        select_step(Some(c), Some(t), Some(f)) matches Step::Done(e) ==> resolved(e),
        select_step(Some(c), Some(t), Some(f)) matches Step::Rewrite(e) ==> resolved(e),
{
    let whole = ExprV::Select {
        condition: Box::new(c),
        when_true: Box::new(t),
        when_false: Box::new(f),
    };
    lemma_resolved_lower_step(whole);
}

proof fn lemma_settle_resolved(step: Step, bound: nat)
    requires
        settle(step, bound) is Some,
        step matches Step::Done(e) ==> resolved(e),
        step matches Step::Rewrite(e) ==> resolved(e),
    ensures
        resolved(settle(step, bound)->0),
    decreases bound, 0nat, 0nat,
{
    match step {
        Step::Rewrite(e) => {
            lemma_canon_resolved(e);
        },
        _ => {},
    }
}

proof fn lemma_merged_resolved(chunks: Seq<ExprV>)
    requires
        all_resolved(chunks),
        merge_chunks(chunks) is Some,
    ensures
        all_resolved(merge_chunks(chunks)->0),
    decreases chunks.len(),
{
    if chunks.len() > 0 {
        lemma_resolved_parts(chunks);
        lemma_merged_resolved(chunks.drop_last());
        let before = merge_chunks(chunks.drop_last())->0;
        let after = merge_chunks(chunks)->0;
        let fresh = after.last();
        if chunks.last() is Const && before.len() > 0 && before.last() is Const {
            lemma_resolved_parts(before);
            assert(after == before.drop_last().push(fresh));
            lemma_resolved_push(before.drop_last(), fresh);
        } else {
            assert(after == before.push(fresh));
            lemma_resolved_push(before, fresh);
        }
    }
}

/// A canonical form has no instruction field or derived value that the expression has not.
pub proof fn lemma_canon_resolved(expr: ExprV)
    requires
        canon(expr) is Some,
        resolved(expr),
    ensures
        resolved(canon(expr)->0),
    decreases weight(expr), 6nat, 0nat,
{
    match expr {
        ExprV::Add(lhs, rhs) => {
            lemma_tree_resolved(AssocCommOp::Add, *lhs, *rhs);
        },
        ExprV::Mul(lhs, rhs) => {
            lemma_tree_resolved(AssocCommOp::Mul, *lhs, *rhs);
        },
        ExprV::And(lhs, rhs) => {
            lemma_tree_resolved(AssocCommOp::And, *lhs, *rhs);
        },
        ExprV::Or(lhs, rhs) => {
            lemma_tree_resolved(AssocCommOp::Or, *lhs, *rhs);
        },
        ExprV::Xor(lhs, rhs) => {
            lemma_tree_resolved(AssocCommOp::Xor, *lhs, *rhs);
        },
        ExprV::Sub(_, _) | ExprV::Select { .. } => {
            lemma_rewritten_resolved(expr);
        },
        ExprV::Concat(values) => {
            let bound = weight(expr);
            let chunks = canon_all(values, bound);
            assert(chunks is Some);
            lemma_all_resolved(values, bound);
            lemma_merged_resolved(chunks->0);
            let merged = merge_chunks(chunks->0)->0;
            if merged.len() == 1 {
                assert(resolved(merged[0]));
            }
        },
        _ => {
            lemma_part_resolved(expr);
        },
    }
}

proof fn lemma_tree_resolved(op: AssocCommOp, lhs: ExprV, rhs: ExprV)
    requires
        canon(node(op, lhs, rhs)) is Some,
        resolved(lhs),
        resolved(rhs),
    ensures
        resolved(canon(node(op, lhs, rhs))->0),
    decreases weight(node(op, lhs, rhs)), 5nat, 0nat,
{
    let expr = node(op, lhs, rhs);
    let bound = weight(expr);
    let tree = canon_assoc(op, lhs, rhs, bound);
    match op {
        AssocCommOp::And => {
            assert(canon(expr) == tree);
            lemma_assoc_resolved(op, lhs, rhs, bound);
        },
        AssocCommOp::Add | AssocCommOp::Mul => {
            let made = settle(mul_step(tree), bound);
            assert(canon(expr) == made);
            assert(tree is Some);
            lemma_assoc_resolved(op, lhs, rhs, bound);
            lemma_resolved_mul_step(tree->0);
            lemma_settle_resolved(mul_step(tree), bound);
        },
        AssocCommOp::Or | AssocCommOp::Xor => {
            let made = settle(lower_step(tree), bound);
            assert(canon(expr) == made);
            assert(tree is Some);
            lemma_assoc_resolved(op, lhs, rhs, bound);
            lemma_resolved_lower_step(tree->0);
            lemma_settle_resolved(lower_step(tree), bound);
        },
    }
}

proof fn lemma_rewritten_resolved(expr: ExprV)
    requires
        canon(expr) is Some,
        expr is Sub || expr is Select,
        resolved(expr),
    ensures
        resolved(canon(expr)->0),
    decreases weight(expr), 5nat, 0nat,
{
    let bound = weight(expr);
    match expr {
        ExprV::Sub(lhs, rhs) => {
            let step = sub_step(canon(*lhs), canon(*rhs));
            let made = settle(step, bound);
            assert(canon(expr) == made);
            assert(canon(*lhs) is Some && canon(*rhs) is Some);
            lemma_canon_resolved(*lhs);
            lemma_canon_resolved(*rhs);
            lemma_resolved_sub_step(canon(*lhs)->0, canon(*rhs)->0);
            lemma_settle_resolved(step, bound);
        },
        ExprV::Select { condition, when_true, when_false } => {
            let step = select_step(canon(*condition), canon(*when_true), canon(*when_false));
            let made = settle(step, bound);
            assert(canon(expr) == made);
            assert(canon(*condition) is Some && canon(*when_true) is Some && canon(
                *when_false,
            ) is Some);
            lemma_canon_resolved(*condition);
            lemma_canon_resolved(*when_true);
            lemma_canon_resolved(*when_false);
            lemma_resolved_select_step(
                canon(*condition)->0,
                canon(*when_true)->0,
                canon(*when_false)->0,
            );
            lemma_settle_resolved(step, bound);
        },
        _ => {},
    }
}

proof fn lemma_part_resolved(expr: ExprV)
    requires
        canon(expr) is Some,
        resolved(expr),
        !(expr is Add || expr is Mul || expr is And || expr is Or || expr is Xor || expr is Sub
            || expr is Select || expr is Concat),
    ensures
        resolved(canon(expr)->0),
    decreases weight(expr), 5nat, 0nat,
{
    match expr {
        ExprV::ReadRegister { register: part, .. }
        | ExprV::ReadMemory { address: part, .. }
        | ExprV::Not(part)
        | ExprV::CountOnes(part)
        | ExprV::Extract { value: part, .. }
        | ExprV::ZeroExtend { value: part, .. }
        | ExprV::SignExtend { value: part, .. } => {
            lemma_canon_resolved(*part);
        },
        ExprV::ShiftLeft(lhs, rhs)
        | ExprV::LogicalShiftRight(lhs, rhs)
        | ExprV::ArithmeticShiftRight(lhs, rhs)
        | ExprV::RotateRight(lhs, rhs)
        | ExprV::Equal(lhs, rhs)
        | ExprV::UnsignedLessThan(lhs, rhs)
        | ExprV::SignedLessThan(lhs, rhs) => {
            lemma_canon_resolved(*lhs);
            lemma_canon_resolved(*rhs);
        },
        ExprV::AddCarryOut { lhs, rhs, carry_in, .. }
        | ExprV::AddOverflow { lhs, rhs, carry_in, .. } => {
            lemma_canon_resolved(*lhs);
            lemma_canon_resolved(*rhs);
            lemma_canon_resolved(*carry_in);
        },
        ExprV::SubCarryOut { lhs, rhs, borrow_in, .. }
        | ExprV::SubOverflow { lhs, rhs, borrow_in, .. } => {
            lemma_canon_resolved(*lhs);
            lemma_canon_resolved(not_of(*rhs));
            lemma_canon_resolved(not_of(*borrow_in));
        },
        _ => {},
    }
}

} // verus!
