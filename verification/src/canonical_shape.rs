//! The shape of canonical forms: which operators and literals they hold.
use vstd::prelude::*;

use crate::canonical_form::{
    cancel_pairs, canon, canon_all, canon_assoc, combine_terms, dedup, flatten, flatten_all,
    insert_by_key, known, lit, lower_step, merge_chunks, mul_step, node, not_of, rebuild, reduced,
    reduced_constant, run_length, select_step, settle, sorted_by_key, sub_step, unabsorbed,
    unknowns, weight, with_constant, Step,
};
use crate::const_eval::{canonical, mask, valid_width, AssocCommOp};
use crate::expr_shape::{key_le, width_of};
use crate::instruction_semantics::{bool_view, ExprV};
use crate::terms::lemma_run;
use crate::word_laws::lemma_fits;

verus! {

/// All expressions of a row are plain.
pub open spec fn plain_all(exprs: Seq<ExprV>) -> bool
    decreases exprs, 0nat,
{
    forall|i: int| 0 <= i < exprs.len() ==> plain(#[trigger] exprs[i])
}

/// The expression has no difference, disjunction or selection in it, and its literals are
/// numbers within their widths.
pub open spec fn plain(expr: ExprV) -> bool
    decreases expr, 1nat,
{
    match expr {
        ExprV::Const { value, width } => valid_width(width) && canonical(value, width) == value,
        ExprV::Operand(_) | ExprV::DerivedValue(_) => true,
        ExprV::ReadRegister { register, .. } => plain(*register),
        ExprV::ReadMemory { address, .. } => plain(*address),
        ExprV::Sub(_, _)
        | ExprV::Or(_, _)
        | ExprV::Xor(_, _)
        | ExprV::SubCarryOut { .. }
        | ExprV::SubOverflow { .. }
        | ExprV::Select { .. } => false,
        ExprV::Add(lhs, rhs)
        | ExprV::Mul(lhs, rhs)
        | ExprV::And(lhs, rhs)
        | ExprV::ShiftLeft(lhs, rhs)
        | ExprV::LogicalShiftRight(lhs, rhs)
        | ExprV::ArithmeticShiftRight(lhs, rhs)
        | ExprV::RotateRight(lhs, rhs)
        | ExprV::Equal(lhs, rhs)
        | ExprV::UnsignedLessThan(lhs, rhs)
        | ExprV::SignedLessThan(lhs, rhs) => plain(*lhs) && plain(*rhs),
        ExprV::Not(value)
        | ExprV::CountOnes(value)
        | ExprV::Extract { value, .. }
        | ExprV::ZeroExtend { value, .. }
        | ExprV::SignExtend { value, .. } => plain(*value),
        ExprV::Concat(values) => plain_all(values),
        ExprV::AddCarryOut { lhs, rhs, carry_in, .. }
        | ExprV::AddOverflow { lhs, rhs, carry_in, .. } => {
            plain(*lhs) && plain(*rhs) && plain(*carry_in)
        },
    }
}

/// The operator may stand in a canonical form.
pub open spec fn stays(op: AssocCommOp) -> bool {
    op == AssocCommOp::Add || op == AssocCommOp::Mul || op == AssocCommOp::And
}

/// A literal of low bits is plain.
proof fn lemma_plain_literal(value: u128, width: u16)
    requires
        valid_width(width),
    ensures
        plain(lit(canonical(value, width), width)),
        plain(lit(0, width)),
        plain(lit(mask(width), width)),
{
    lemma_fits(value, width);
}

proof fn lemma_plain_bool(value: bool)
    ensures
        plain(bool_view(value)),
{
    lemma_fits(0, 1);
}

/// The leaves of a plain tree are plain.
proof fn lemma_plain_flatten(op: AssocCommOp, expr: ExprV)
    requires
        plain(expr),
    ensures
        plain_all(flatten(op, expr)),
    decreases expr,
{
    match (op, expr) {
        (AssocCommOp::Add, ExprV::Add(lhs, rhs))
        | (AssocCommOp::Mul, ExprV::Mul(lhs, rhs))
        | (AssocCommOp::And, ExprV::And(lhs, rhs))
        | (AssocCommOp::Or, ExprV::Or(lhs, rhs))
        | (AssocCommOp::Xor, ExprV::Xor(lhs, rhs)) => {
            lemma_plain_flatten(op, *lhs);
            lemma_plain_flatten(op, *rhs);
            lemma_plain_concat(flatten(op, *lhs), flatten(op, *rhs));
        },
        _ => {
            assert(flatten(op, expr) == seq![expr]);
        },
    }
}

proof fn lemma_plain_concat(a: Seq<ExprV>, b: Seq<ExprV>)
    requires
        plain_all(a),
        plain_all(b),
    ensures
        plain_all(a + b),
{
    assert forall|i: int| 0 <= i < (a + b).len() implies plain(#[trigger] (a + b)[i]) by {
        if i < a.len() {
            assert((a + b)[i] == a[i]);
        } else {
            assert((a + b)[i] == b[i - a.len()]);
        }
    }
}

proof fn lemma_plain_push(a: Seq<ExprV>, b: ExprV)
    requires
        plain_all(a),
        plain(b),
    ensures
        plain_all(a.push(b)),
{
    assert forall|i: int| 0 <= i < a.push(b).len() implies plain(#[trigger] a.push(b)[i]) by {
        if i < a.len() {
            assert(a.push(b)[i] == a[i]);
        }
    }
}

proof fn lemma_plain_parts(a: Seq<ExprV>)
    requires
        plain_all(a),
        a.len() > 0,
    ensures
        plain_all(a.drop_last()),
        plain(a.last()),
{
    assert(plain(a[a.len() - 1]));
    assert forall|i: int| 0 <= i < a.drop_last().len() implies plain(
        #[trigger] a.drop_last()[i],
    ) by {
        assert(a.drop_last()[i] == a[i]);
    }
}

pub(crate) proof fn lemma_plain_flatten_all(op: AssocCommOp, exprs: Seq<ExprV>)
    requires
        plain_all(exprs),
    ensures
        plain_all(flatten_all(op, exprs)),
    decreases exprs.len(),
{
    if exprs.len() > 0 {
        lemma_plain_parts(exprs);
        lemma_plain_flatten_all(op, exprs.drop_last());
        lemma_plain_flatten(op, exprs.last());
        lemma_plain_concat(flatten_all(op, exprs.drop_last()), flatten(op, exprs.last()));
    }
}

proof fn lemma_plain_unknowns(terms: Seq<ExprV>)
    requires
        plain_all(terms),
    ensures
        plain_all(unknowns(terms)),
    decreases terms.len(),
{
    if terms.len() > 0 {
        lemma_plain_parts(terms);
        lemma_plain_unknowns(terms.drop_last());
        if !(terms.last() is Const) {
            lemma_plain_push(unknowns(terms.drop_last()), terms.last());
        }
    }
}

proof fn lemma_plain_insert(sorted: Seq<ExprV>, term: ExprV)
    requires
        plain_all(sorted),
        plain(term),
    ensures
        plain_all(insert_by_key(sorted, term)),
    decreases sorted.len(),
{
    if sorted.len() == 0 || key_le(sorted.last(), term) {
        lemma_plain_push(sorted, term);
    } else {
        lemma_plain_parts(sorted);
        lemma_plain_insert(sorted.drop_last(), term);
        lemma_plain_push(insert_by_key(sorted.drop_last(), term), sorted.last());
    }
}

proof fn lemma_plain_sorted(terms: Seq<ExprV>)
    requires
        plain_all(terms),
    ensures
        plain_all(sorted_by_key(terms)),
    decreases terms.len(),
{
    if terms.len() > 0 {
        lemma_plain_parts(terms);
        lemma_plain_sorted(terms.drop_last());
        lemma_plain_insert(sorted_by_key(terms.drop_last()), terms.last());
    }
}

proof fn lemma_plain_dedup(terms: Seq<ExprV>)
    requires
        plain_all(terms),
    ensures
        plain_all(dedup(terms)),
    decreases terms.len(),
{
    if terms.len() > 1 {
        lemma_plain_parts(terms);
        lemma_plain_dedup(terms.drop_last());
        lemma_plain_push(dedup(terms.drop_last()), terms.last());
    }
}

proof fn lemma_plain_cancel(terms: Seq<ExprV>, start: int)
    requires
        plain_all(terms),
        0 <= start <= terms.len(),
    ensures
        plain_all(cancel_pairs(terms, start)),
    decreases terms.len() - start,
{
    if start < terms.len() {
        let run = run_length(terms, start, start + 1);
        lemma_run(terms, start, start + 1);
        lemma_plain_cancel(terms, start + run);
        let rest = cancel_pairs(terms, start + run);
        assert(plain(terms[start]));
        lemma_plain_concat(seq![terms[start]], rest);
        lemma_plain_concat(seq![terms[start], terms[start]], rest);
    }
}

/// The tree over plain terms is plain, or a node of an operator that does not stay.
proof fn lemma_plain_rebuild(op: AssocCommOp, terms: Seq<ExprV>)
    requires
        plain_all(terms),
        terms.len() > 0,
    ensures
        stays(op) || terms.len() == 1 ==> plain(rebuild(op, terms)),
        terms.len() > 1 ==> rebuild(op, terms) == node(
            op,
            rebuild(op, terms.drop_last()),
            terms.last(),
        ),
    decreases terms.len(),
{
    lemma_plain_parts(terms);
    if terms.len() > 1 {
        lemma_plain_rebuild(op, terms.drop_last());
    } else {
        assert(plain(terms[0]));
    }
}

/// The tree of an operator is plain, or a node of an operator that does not stay.
pub open spec fn tree_plain(op: AssocCommOp, tree: ExprV) -> bool {
    ||| plain(tree)
    ||| op == AssocCommOp::Or && tree is Or
    ||| op == AssocCommOp::Xor && tree is Xor
}

proof fn lemma_plain_with_constant(
    op: AssocCommOp,
    terms: Seq<ExprV>,
    constant: Option<(u128, u16)>,
)
    requires
        plain_all(terms),
        with_constant(op, terms, constant) is Some,
    ensures
        tree_plain(op, with_constant(op, terms, constant)->0),
{
    match constant {
        None => {
            lemma_plain_rebuild(op, terms);
        },
        Some((value, width)) => {
            lemma_plain_literal(value, width);
            let literal = lit(canonical(value, width), width);
            lemma_plain_push(terms, literal);
            lemma_plain_rebuild(op, terms.push(literal));
            if terms.len() > 0 {
                lemma_plain_rebuild(op, terms);
            }
        },
    }
}

proof fn lemma_plain_terms(op: AssocCommOp, leaves: Seq<ExprV>)
    requires
        plain_all(leaves),
        combine_terms(op, leaves) is Some,
    ensures
        tree_plain(op, combine_terms(op, leaves)->0),
{
    lemma_plain_unknowns(leaves);
    let sorted = sorted_by_key(unknowns(leaves));
    lemma_plain_sorted(unknowns(leaves));
    lemma_plain_dedup(sorted);
    lemma_plain_cancel(sorted, 0);
    let terms = reduced(op, sorted);
    assert(plain_all(terms));
    let constant = reduced_constant(op, sorted, known(op, leaves)->0);
    if with_constant(op, terms, constant) is Some {
        lemma_plain_with_constant(op, terms, constant);
    }
    let tree = combine_terms(op, leaves)->0;
    if with_constant(op, terms, constant) != Some(tree) {
        let width = tree->Const_width;
        lemma_plain_literal(0, width);
    }
}

/// The canonical forms of a row are plain.
proof fn lemma_all_plain(exprs: Seq<ExprV>, bound: nat)
    requires
        canon_all(exprs, bound) is Some,
    ensures
        plain_all(canon_all(exprs, bound)->0),
    decreases bound, 1nat, exprs.len(),
{
    if exprs.len() > 0 {
        let last = exprs.last();
        let made = crate::canonical_form::below(last, bound);
        assert(made is Some);
        assert(weight(last) < bound);
        assert(made == canon(last));
        lemma_all_plain(exprs.drop_last(), bound);
        lemma_canon_plain(last);
        lemma_plain_push(canon_all(exprs.drop_last(), bound)->0, canon(last)->0);
    }
}

/// The canonical tree of an operator that stays is plain.
pub(crate) proof fn lemma_assoc_plain(op: AssocCommOp, lhs: ExprV, rhs: ExprV, bound: nat)
    requires
        canon_assoc(op, lhs, rhs, bound) is Some,
    ensures
        stays(op) ==> plain(canon_assoc(op, lhs, rhs, bound)->0),
        tree_plain(op, canon_assoc(op, lhs, rhs, bound)->0),
    decreases bound, 4nat, 0nat,
{
    let terms = unabsorbed(op, flatten(op, lhs) + flatten(op, rhs), bound)->0;
    let forms = canon_all(terms, bound)->0;
    lemma_all_plain(terms, bound);
    lemma_plain_flatten_all(op, forms);
    lemma_plain_terms(op, flatten_all(op, forms));
}

proof fn lemma_settle_plain(step: Step, bound: nat)
    requires
        settle(step, bound) is Some,
        step matches Step::Done(e) ==> plain(e),
    ensures
        plain(settle(step, bound)->0),
    decreases bound, 0nat, 0nat,
{
    match step {
        Step::Rewrite(e) => {
            lemma_canon_plain(e);
        },
        _ => {},
    }
}

proof fn lemma_plain_merge(chunks: Seq<ExprV>)
    requires
        plain_all(chunks),
        merge_chunks(chunks) is Some,
    ensures
        plain_all(merge_chunks(chunks)->0),
    decreases chunks.len(),
{
    if chunks.len() > 0 {
        lemma_plain_parts(chunks);
        let last = chunks.last();
        let before = merge_chunks(chunks.drop_last())->0;
        lemma_plain_merge(chunks.drop_last());
        let merged = merge_chunks(chunks)->0;
        if last is Const {
            lemma_plain_literal(last->Const_value, last->Const_width);
            if before.len() > 0 && before.last() is Const {
                lemma_plain_parts(before);
                let whole = merged.last();
                let total = whole->Const_width;
                let joint = (canonical(before.last()->Const_value, before.last()->Const_width)
                    << last->Const_width) | canonical(last->Const_value, last->Const_width);
                lemma_plain_literal(joint, total);
                lemma_plain_push(before.drop_last(), whole);
            } else {
                lemma_plain_push(before, merged.last());
            }
        } else {
            lemma_plain_push(before, last);
        }
    }
}

/// A canonical form writes differences, disjunctions and selections with sums, conjunctions
/// and complements, and holds only literals within their widths.
pub proof fn lemma_canon_plain(expr: ExprV)
    requires
        canon(expr) is Some,
    ensures
        plain(canon(expr)->0),
    decreases weight(expr), 6nat, 0nat,
{
    let bound = weight(expr);
    crate::expr_weight::lemma_weight_children(expr);
    match expr {
        ExprV::Add(_, _)
        | ExprV::Mul(_, _)
        | ExprV::And(_, _)
        | ExprV::Or(_, _)
        | ExprV::Xor(_, _) => {
            lemma_tree_canon_plain(expr);
        },
        ExprV::Sub(_, _) | ExprV::Select { .. } => {
            lemma_lowered_canon_plain(expr);
        },
        ExprV::Concat(values) => {
            lemma_all_plain(values, bound);
            lemma_plain_merge(canon_all(values, bound)->0);
            let merged = merge_chunks(canon_all(values, bound)->0)->0;
            if merged.len() == 1 {
                assert(plain(merged[0]));
            }
        },
        _ => {
            lemma_part_canon_plain(expr);
        },
    }
}

proof fn lemma_tree_canon_plain(expr: ExprV)
    requires
        canon(expr) is Some,
        expr is Add || expr is Mul || expr is And || expr is Or || expr is Xor,
    ensures
        plain(canon(expr)->0),
    decreases weight(expr), 5nat, 0nat,
{
    let bound = weight(expr);
    match expr {
        ExprV::Add(lhs, rhs) => {
            let tree = canon_assoc(AssocCommOp::Add, *lhs, *rhs, bound);
            let made = settle(mul_step(tree), bound);
            assert(canon(expr) == made);
            assert(tree is Some);
            lemma_assoc_plain(AssocCommOp::Add, *lhs, *rhs, bound);
            lemma_mul_plain(tree->0, bound);
        },
        ExprV::Mul(lhs, rhs) => {
            let tree = canon_assoc(AssocCommOp::Mul, *lhs, *rhs, bound);
            let made = settle(mul_step(tree), bound);
            assert(canon(expr) == made);
            assert(tree is Some);
            lemma_assoc_plain(AssocCommOp::Mul, *lhs, *rhs, bound);
            lemma_mul_plain(tree->0, bound);
        },
        ExprV::And(lhs, rhs) => {
            lemma_assoc_plain(AssocCommOp::And, *lhs, *rhs, bound);
        },
        ExprV::Or(lhs, rhs) => {
            let tree = canon_assoc(AssocCommOp::Or, *lhs, *rhs, bound);
            let made = settle(lower_step(tree), bound);
            assert(canon(expr) == made);
            assert(tree is Some);
            lemma_assoc_plain(AssocCommOp::Or, *lhs, *rhs, bound);
            lemma_settle_plain(lower_step(tree), bound);
        },
        ExprV::Xor(lhs, rhs) => {
            let tree = canon_assoc(AssocCommOp::Xor, *lhs, *rhs, bound);
            let made = settle(lower_step(tree), bound);
            assert(canon(expr) == made);
            assert(tree is Some);
            lemma_assoc_plain(AssocCommOp::Xor, *lhs, *rhs, bound);
            lemma_settle_plain(lower_step(tree), bound);
        },
        _ => {},
    }
}

proof fn lemma_mul_plain(tree: ExprV, bound: nat)
    requires
        plain(tree),
        settle(mul_step(Some(tree)), bound) is Some,
    ensures
        plain(settle(mul_step(Some(tree)), bound)->0),
    decreases bound, 0nat, 1nat,
{
    let step = mul_step(Some(tree));
    if step is Done {
        match step {
            Step::Done(e) => {
                if e != tree {
                    let width = width_of(tree)->0;
                    match tree {
                        ExprV::Mul(lhs, rhs) => {
                            lemma_plain_literal(
                                (lhs->Const_value * rhs->Const_value) as u128,
                                width,
                            );
                        },
                        _ => {},
                    }
                }
            },
            _ => {},
        }
    }
    lemma_settle_plain(step, bound);
}

proof fn lemma_lowered_canon_plain(expr: ExprV)
    requires
        canon(expr) is Some,
        expr is Sub || expr is Select,
    ensures
        plain(canon(expr)->0),
    decreases weight(expr), 5nat, 0nat,
{
    let bound = weight(expr);
    match expr {
        ExprV::Sub(lhs, rhs) => {
            let step = sub_step(canon(*lhs), canon(*rhs));
            let made = settle(step, bound);
            assert(canon(expr) == made);
            assert(canon(*lhs) is Some);
            lemma_canon_plain(*lhs);
            if width_of(canon(*lhs)->0) is Some && valid_width(width_of(canon(*lhs)->0)->0) {
                lemma_plain_literal(0, width_of(canon(*lhs)->0)->0);
            }
            lemma_settle_plain(step, bound);
        },
        ExprV::Select { condition, when_true, when_false } => {
            let step = select_step(canon(*condition), canon(*when_true), canon(*when_false));
            let made = settle(step, bound);
            assert(canon(expr) == made);
            assert(canon(*when_true) is Some && canon(*when_false) is Some);
            lemma_canon_plain(*when_true);
            lemma_canon_plain(*when_false);
            lemma_settle_plain(step, bound);
        },
        _ => {},
    }
}

proof fn lemma_part_canon_plain(expr: ExprV)
    requires
        canon(expr) is Some,
        !(expr is Add || expr is Mul || expr is And || expr is Or || expr is Xor || expr is Sub
            || expr is Select || expr is Concat),
    ensures
        plain(canon(expr)->0),
    decreases weight(expr), 5nat, 0nat,
{
    match expr {
        ExprV::Const { value, width } => {
            lemma_plain_literal(value, width);
        },
        ExprV::ReadRegister { register, .. } => {
            lemma_canon_plain(*register);
        },
        ExprV::ReadMemory { address, .. } => {
            lemma_canon_plain(*address);
        },
        ExprV::ShiftLeft(lhs, rhs)
        | ExprV::LogicalShiftRight(lhs, rhs)
        | ExprV::ArithmeticShiftRight(lhs, rhs)
        | ExprV::RotateRight(lhs, rhs) => {
            lemma_canon_plain(*lhs);
            lemma_canon_plain(*rhs);
            if canon(*lhs)->0 is Const {
                lemma_plain_literal(0, canon(*lhs)->0->Const_width);
            }
        },
        ExprV::Equal(lhs, rhs)
        | ExprV::UnsignedLessThan(lhs, rhs)
        | ExprV::SignedLessThan(lhs, rhs) => {
            lemma_canon_plain(*lhs);
            lemma_canon_plain(*rhs);
            lemma_plain_bool(true);
            lemma_plain_bool(false);
        },
        ExprV::Not(value) => {
            lemma_canon_plain(*value);
            let form = canon(*value)->0;
            if form is Const {
                lemma_plain_literal(!form->Const_value, form->Const_width);
            }
        },
        ExprV::CountOnes(value)
        | ExprV::Extract { value, .. }
        | ExprV::ZeroExtend { value, .. }
        | ExprV::SignExtend { value, .. } => {
            lemma_canon_plain(*value);
        },
        ExprV::AddCarryOut { lhs, rhs, carry_in, .. }
        | ExprV::AddOverflow { lhs, rhs, carry_in, .. } => {
            lemma_canon_plain(*lhs);
            lemma_canon_plain(*rhs);
            lemma_canon_plain(*carry_in);
        },
        ExprV::SubCarryOut { lhs, rhs, borrow_in, .. }
        | ExprV::SubOverflow { lhs, rhs, borrow_in, .. } => {
            lemma_canon_plain(*lhs);
            lemma_canon_plain(not_of(*rhs));
            lemma_canon_plain(not_of(*borrow_in));
        },
        _ => {},
    }
}

} // verus!
