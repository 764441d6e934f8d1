//! The canonical form of a canonical form is itself.
use vstd::prelude::*;

use crate::canonical_form::{
    absorbed, below, cancel_pairs, canon, canon_all, canon_assoc, canon_extension, canon_not,
    canon_shift, combine_terms, dedup, extension_node, first_width, flatten, flatten_all,
    has_complement, is_node, joined, kept, known, known_width, lit, lower_step, merge_chunks,
    mul_step, node, not_of, opposite, rebuild, reduced, reduced_constant, run_length, select_step,
    settle, shift_node, sorted_by_key, strip_nested, sub_step, unabsorbed, unknowns, weight,
    with_constant, ExtensionOp, ShiftOp, Step,
};
use crate::canonical_shape::{lemma_canon_plain, lemma_plain_flatten_all, plain, plain_all};
use crate::const_eval::{
    canonical, is_annihilator, is_identity, lemma_canonical_small, mask, valid_width, AssocCommOp,
};
use crate::expr_shape::{key_le, width_of};
use crate::expr_weight::{lemma_weight_children, lemma_weight_positive, lemma_weights_part};
use crate::instruction_semantics::ExprV;
use crate::sort_laws::{lemma_sorted_by_key, ordered};
use crate::terms::lemma_run;
use crate::key_laws::lemma_key_total;
use crate::word_laws::lemma_fits;

verus! {

/// All expressions of a row are settled.
pub open spec fn all_settled(exprs: Seq<ExprV>) -> bool
    decreases exprs, 0nat,
{
    forall|i: int| 0 <= i < exprs.len() ==> settled(#[trigger] exprs[i])
}

/// The expression and all of its parts are their own canonical forms.
pub open spec fn settled(expr: ExprV) -> bool
    decreases expr, 1nat,
{
    canon(expr) == Some(expr) && match expr {
        ExprV::Const { .. } | ExprV::Operand(_) | ExprV::DerivedValue(_) => true,
        ExprV::ReadRegister { register: part, .. }
        | ExprV::ReadMemory { address: part, .. }
        | ExprV::Not(part)
        | ExprV::CountOnes(part)
        | ExprV::Extract { value: part, .. }
        | ExprV::ZeroExtend { value: part, .. }
        | ExprV::SignExtend { value: part, .. } => settled(*part),
        ExprV::Add(lhs, rhs)
        | ExprV::Sub(lhs, rhs)
        | ExprV::Mul(lhs, rhs)
        | ExprV::And(lhs, rhs)
        | ExprV::Or(lhs, rhs)
        | ExprV::Xor(lhs, rhs)
        | ExprV::ShiftLeft(lhs, rhs)
        | ExprV::LogicalShiftRight(lhs, rhs)
        | ExprV::ArithmeticShiftRight(lhs, rhs)
        | ExprV::RotateRight(lhs, rhs)
        | ExprV::Equal(lhs, rhs)
        | ExprV::UnsignedLessThan(lhs, rhs)
        | ExprV::SignedLessThan(lhs, rhs) => settled(*lhs) && settled(*rhs),
        ExprV::Concat(values) => all_settled(values),
        ExprV::AddCarryOut { lhs, rhs, carry_in: flag, .. }
        | ExprV::AddOverflow { lhs, rhs, carry_in: flag, .. }
        | ExprV::SubCarryOut { lhs, rhs, borrow_in: flag, .. }
        | ExprV::SubOverflow { lhs, rhs, borrow_in: flag, .. } => {
            settled(*lhs) && settled(*rhs) && settled(*flag)
        },
        ExprV::Select { condition, when_true, when_false } => {
            settled(*condition) && settled(*when_true) && settled(*when_false)
        },
    }
}

/// All terms are settled, and none is a node of the operator.
spec fn leaves_of(op: AssocCommOp, terms: Seq<ExprV>) -> bool {
    forall|i: int|
        0 <= i < terms.len() ==> settled(#[trigger] terms[i]) && !is_node(op, terms[i])
}

/// Every term of the first row is one of the second row.
pub open spec fn drawn_from(a: Seq<ExprV>, b: Seq<ExprV>) -> bool {
    forall|i: int| 0 <= i < a.len() ==> b.contains(#[trigger] a[i])
}

proof fn lemma_leaves_drawn(op: AssocCommOp, a: Seq<ExprV>, b: Seq<ExprV>)
    requires
        drawn_from(a, b),
        leaves_of(op, b),
    ensures
        leaves_of(op, a),
{
    assert forall|i: int| 0 <= i < a.len() implies settled(#[trigger] a[i]) && !is_node(
        op,
        a[i],
    ) by {
        let j = choose|j: int| 0 <= j < b.len() && b[j] == a[i];
        assert(settled(b[j]));
    }
}

/// The leaves of a settled tree are settled, and no nodes of the operator.
proof fn lemma_flatten_leaves(op: AssocCommOp, expr: ExprV)
    requires
        settled(expr),
    ensures
        leaves_of(op, flatten(op, expr)),
        !is_node(op, expr) ==> flatten(op, expr) == seq![expr],
    decreases expr,
{
    match (op, expr) {
        (AssocCommOp::Add, ExprV::Add(lhs, rhs))
        | (AssocCommOp::Mul, ExprV::Mul(lhs, rhs))
        | (AssocCommOp::And, ExprV::And(lhs, rhs))
        | (AssocCommOp::Or, ExprV::Or(lhs, rhs))
        | (AssocCommOp::Xor, ExprV::Xor(lhs, rhs)) => {
            lemma_flatten_leaves(op, *lhs);
            lemma_flatten_leaves(op, *rhs);
            lemma_leaves_concat(op, flatten(op, *lhs), flatten(op, *rhs));
        },
        _ => {
            assert(flatten(op, expr) == seq![expr]);
        },
    }
}

proof fn lemma_leaves_concat(op: AssocCommOp, a: Seq<ExprV>, b: Seq<ExprV>)
    requires
        leaves_of(op, a),
        leaves_of(op, b),
    ensures
        leaves_of(op, a + b),
{
    assert forall|i: int| 0 <= i < (a + b).len() implies settled(#[trigger] (a + b)[i])
        && !is_node(op, (a + b)[i]) by {
        if i < a.len() {
            assert((a + b)[i] == a[i]);
        } else {
            assert((a + b)[i] == b[i - a.len()]);
        }
    }
}

proof fn lemma_flatten_all_leaves(op: AssocCommOp, exprs: Seq<ExprV>)
    requires
        all_settled(exprs),
    ensures
        leaves_of(op, flatten_all(op, exprs)),
    decreases exprs.len(),
{
    if exprs.len() > 0 {
        let front = exprs.drop_last();
        assert(settled(exprs[exprs.len() - 1]));
        assert forall|i: int| 0 <= i < front.len() implies settled(#[trigger] front[i]) by {
            assert(front[i] == exprs[i]);
        }
        lemma_flatten_all_leaves(op, front);
        lemma_flatten_leaves(op, exprs.last());
        lemma_leaves_concat(op, flatten_all(op, front), flatten(op, exprs.last()));
    }
}

/// Leaves are their own flattened row.
proof fn lemma_flatten_all_same(op: AssocCommOp, terms: Seq<ExprV>)
    requires
        leaves_of(op, terms),
    ensures
        flatten_all(op, terms) == terms,
    decreases terms.len(),
{
    if terms.len() > 0 {
        let front = terms.drop_last();
        assert(settled(terms[terms.len() - 1]) && !is_node(op, terms[terms.len() - 1]));
        assert forall|i: int| 0 <= i < front.len() implies settled(#[trigger] front[i]) && !is_node(
            op,
            front[i],
        ) by {
            assert(front[i] == terms[i]);
        }
        lemma_flatten_all_same(op, front);
        lemma_flatten_leaves(op, terms.last());
        assert(front + seq![terms.last()] =~= terms);
    } else {
        assert(terms =~= Seq::empty());
    }
}

/// The unknown terms are terms that are no literals.
pub(crate) proof fn lemma_unknowns_drawn(terms: Seq<ExprV>)
    ensures
        drawn_from(unknowns(terms), terms),
        forall|i: int| 0 <= i < unknowns(terms).len() ==> !(#[trigger] unknowns(terms)[i] is Const),
    decreases terms.len(),
{
    if terms.len() > 0 {
        let front = terms.drop_last();
        lemma_unknowns_drawn(front);
        let r = unknowns(terms);
        let before = unknowns(front);
        assert forall|i: int| 0 <= i < r.len() implies terms.contains(#[trigger] r[i]) && !(
        r[i] is Const) by {
            if i < before.len() {
                assert(r[i] == before[i]);
                let j = choose|j: int| 0 <= j < front.len() && front[j] == before[i];
                assert(terms[j] == before[i]);
            } else {
                assert(terms[terms.len() - 1] == terms.last());
            }
        }
    }
}

/// Sorted terms are the terms.
pub(crate) proof fn lemma_sorted_drawn(terms: Seq<ExprV>)
    ensures
        drawn_from(sorted_by_key(terms), terms),
        sorted_by_key(terms).len() == terms.len(),
{
    let r = sorted_by_key(terms);
    lemma_sorted_by_key(terms);
    broadcast use vstd::seq_lib::group_to_multiset_ensures;

    assert(r.to_multiset().len() == r.len());
    assert(terms.to_multiset().len() == terms.len());
    assert forall|i: int| 0 <= i < r.len() implies terms.contains(#[trigger] r[i]) by {
        assert(r.contains(r[i]));
        assert(r.to_multiset().count(r[i]) > 0);
        assert(terms.to_multiset().count(r[i]) > 0);
    }
}

/// Ordered terms stay as they are.
proof fn lemma_sorted_same(terms: Seq<ExprV>)
    requires
        ordered(terms),
    ensures
        sorted_by_key(terms) == terms,
    decreases terms.len(),
{
    if terms.len() > 0 {
        let front = terms.drop_last();
        assert forall|i: int, j: int| 0 <= i < j < front.len() implies key_le(
            #[trigger] front[i],
            #[trigger] front[j],
        ) by {
            assert(front[i] == terms[i] && front[j] == terms[j]);
        }
        lemma_sorted_same(front);
        if front.len() > 0 {
            assert(key_le(terms[terms.len() - 2], terms[terms.len() - 1]));
            assert(front.last() == terms[terms.len() - 2]);
        }
        assert(front.push(terms.last()) =~= terms);
    } else {
        assert(terms =~= Seq::empty());
    }
}

/// No term equals the one before it.
pub open spec fn no_repeats(terms: Seq<ExprV>) -> bool {
    forall|i: int| 0 < i < terms.len() ==> #[trigger] terms[i] != terms[i - 1]
}

/// Terms without repetitions stay ordered, and lose nothing but repetitions.
pub(crate) proof fn lemma_dedup(terms: Seq<ExprV>)
    requires
        ordered(terms),
    ensures
        drawn_from(dedup(terms), terms),
        ordered(dedup(terms)),
        no_repeats(dedup(terms)),
        terms.len() > 0 ==> dedup(terms).len() > 0 && dedup(terms).last() == terms.last(),
    decreases terms.len(),
{
    let r = dedup(terms);
    if terms.len() > 1 {
        let front = terms.drop_last();
        assert forall|i: int, j: int| 0 <= i < j < front.len() implies key_le(
            #[trigger] front[i],
            #[trigger] front[j],
        ) by {
            assert(front[i] == terms[i] && front[j] == terms[j]);
        }
        lemma_dedup(front);
        let before = dedup(front);
        assert(front.last() == terms[terms.len() - 2]);
        assert forall|i: int| 0 <= i < r.len() implies terms.contains(#[trigger] r[i]) by {
            if i < before.len() {
                assert(r[i] == before[i]);
                let j = choose|j: int| 0 <= j < front.len() && front[j] == before[i];
                assert(terms[j] == before[i]);
            } else {
                assert(terms[terms.len() - 1] == terms.last());
            }
        }
        if r != before {
            assert forall|i: int, j: int| 0 <= i < j < r.len() implies key_le(
                #[trigger] r[i],
                #[trigger] r[j],
            ) by {
                assert(r[i] == before[i]);
                if j < before.len() {
                    assert(r[j] == before[j]);
                } else {
                    let k = choose|k: int| 0 <= k < front.len() && front[k] == before[i];
                    assert(terms[k] == before[i]);
                    assert(key_le(terms[k], terms[terms.len() - 1]));
                }
            }
            assert forall|i: int| 0 < i < r.len() implies #[trigger] r[i] != r[i - 1] by {
                if i < before.len() {
                    assert(before[i] != before[i - 1]);
                } else {
                    assert(r[i - 1] == before.last());
                }
            }
        }
    } else {
        assert forall|i: int| 0 <= i < r.len() implies terms.contains(#[trigger] r[i]) by {
            assert(terms[i] == r[i]);
        }
    }
}

proof fn lemma_dedup_same(terms: Seq<ExprV>)
    requires
        no_repeats(terms),
    ensures
        dedup(terms) == terms,
    decreases terms.len(),
{
    if terms.len() > 1 {
        let front = terms.drop_last();
        assert forall|i: int| 0 < i < front.len() implies #[trigger] front[i] != front[i - 1] by {
            assert(terms[i] != terms[i - 1]);
        }
        lemma_dedup_same(front);
        assert(terms[terms.len() - 1] != terms[terms.len() - 2]);
        assert(front.push(terms.last()) =~= terms);
    }
}

/// The terms may stand in a canonical tree of the operator, in front of a literal.
spec fn canonical_terms(op: AssocCommOp, terms: Seq<ExprV>, constant: Option<(u128, u16)>) -> bool {
    &&& op == AssocCommOp::Add || op == AssocCommOp::Mul || op == AssocCommOp::And
    &&& leaves_of(op, terms)
    &&& forall|i: int|
        0 <= i < terms.len() ==> !(#[trigger] terms[i] is Const) && !(terms[i] is Or)
    &&& ordered(terms)
    &&& op == AssocCommOp::And ==> no_repeats(terms)
    &&& op == AssocCommOp::And && has_complement(terms) ==> first_width(terms) is None
        && constant is None
    &&& constant matches Some((value, width)) ==> {
        &&& valid_width(width)
        &&& canonical(value, width) == value
        &&& !is_annihilator(op, value, width)
        &&& !is_identity(op, value, width)
    }
}

/// The row of terms with the literal behind them.
spec fn with_literal(terms: Seq<ExprV>, constant: Option<(u128, u16)>) -> Seq<ExprV> {
    match constant {
        Some((value, width)) => terms.push(lit(value, width)),
        None => terms,
    }
}

/// Terms without literals combine no literal.
proof fn lemma_known_none(op: AssocCommOp, terms: Seq<ExprV>)
    requires
        forall|i: int| 0 <= i < terms.len() ==> !(#[trigger] terms[i] is Const),
    ensures
        known(op, terms) == Some(None::<(u128, u16)>),
        unknowns(terms) == terms,
    decreases terms.len(),
{
    if terms.len() > 0 {
        let front = terms.drop_last();
        assert(!(terms[terms.len() - 1] is Const));
        assert forall|i: int| 0 <= i < front.len() implies !(#[trigger] front[i] is Const) by {
            assert(front[i] == terms[i]);
        }
        lemma_known_none(op, front);
        assert(front.push(terms.last()) =~= terms);
    } else {
        assert(terms =~= Seq::empty());
    }
}

/// A literal with a valid width and canonical value is settled.
proof fn lemma_literal_settled(value: u128, width: u16)
    requires
        valid_width(width),
    ensures
        settled(lit(canonical(value, width), width)),
        settled(lit(0, width)),
        settled(lit(mask(width), width)),
{
    lemma_fits(value, width);
    lemma_canonical_small(value, width);
}

/// Terms of a canonical tree combine to the tree.
proof fn lemma_terms_combine(op: AssocCommOp, terms: Seq<ExprV>, constant: Option<(u128, u16)>)
    requires
        canonical_terms(op, terms, constant),
        with_literal(terms, constant).len() > 0,
    ensures
        combine_terms(op, with_literal(terms, constant)) == Some(
            rebuild(op, with_literal(terms, constant)),
        ),
{
    let row = with_literal(terms, constant);
    lemma_known_none(op, terms);
    lemma_sorted_same(terms);
    if op == AssocCommOp::And {
        lemma_dedup_same(terms);
    }
    match constant {
        None => {},
        Some((value, width)) => {
            assert(row.drop_last() =~= terms);
            assert(row.last() == lit(value, width));
        },
    }
    assert(known(op, row) == Some(constant));
    assert(unknowns(row) == terms);
    assert(reduced(op, terms) == terms);
    assert(reduced_constant(op, terms, constant) == constant);
    assert(with_constant(op, terms, constant) == Some(rebuild(op, row)));
}

/// Settled expressions that weigh less than the bound are their canonical forms.
proof fn lemma_canon_all_same(exprs: Seq<ExprV>, bound: nat)
    requires
        forall|i: int|
            0 <= i < exprs.len() ==> canon(#[trigger] exprs[i]) == Some(exprs[i]) && weight(
                exprs[i],
            ) < bound,
    ensures
        canon_all(exprs, bound) == Some(exprs),
    decreases exprs.len(),
{
    if exprs.len() > 0 {
        let front = exprs.drop_last();
        let last = exprs.last();
        assert forall|i: int| 0 <= i < front.len() implies canon(#[trigger] front[i]) == Some(
            front[i],
        ) && weight(front[i]) < bound by {
            assert(front[i] == exprs[i]);
        }
        lemma_canon_all_same(front, bound);
        assert(canon(exprs[exprs.len() - 1]) == Some(exprs[exprs.len() - 1]));
        let made = below(last, bound);
        assert(made == Some(last));
        assert(front.push(last) =~= exprs);
    } else {
        assert(exprs =~= Seq::empty());
    }
}

/// Without nodes of the opposite operator nothing is absorbed.
pub(crate) proof fn lemma_nothing_absorbed(
    op: AssocCommOp,
    terms: Seq<ExprV>,
    forms: Seq<ExprV>,
    n: nat,
    bound: nat,
)
    requires
        n <= terms.len(),
        forall|i: int| 0 <= i < terms.len() ==> !is_node(opposite(op), #[trigger] terms[i]),
    ensures
        kept(op, terms, forms, n, bound) == terms.take(n as int),
    decreases n,
{
    if n > 0 {
        lemma_nothing_absorbed(op, terms, forms, (n - 1) as nat, bound);
        assert(!is_node(opposite(op), terms[n - 1]));
        assert(!absorbed(op, terms, forms, n - 1, bound));
        assert(terms.take(n - 1).push(terms[n - 1]) =~= terms.take(n as int));
    } else {
        assert(terms.take(0) =~= Seq::empty());
    }
}

/// A tree over leaves flattens to them, and every leaf weighs less than the tree.
proof fn lemma_rebuild_flat(op: AssocCommOp, terms: Seq<ExprV>)
    requires
        leaves_of(op, terms),
        terms.len() > 0,
    ensures
        flatten(op, rebuild(op, terms)) == terms,
        forall|i: int|
            0 <= i < terms.len() ==> weight(#[trigger] terms[i]) <= weight(rebuild(op, terms)),
        terms.len() > 1 ==> forall|i: int|
            0 <= i < terms.len() ==> weight(#[trigger] terms[i]) < weight(rebuild(op, terms)),
    decreases terms.len(),
{
    assert(settled(terms[terms.len() - 1]) && !is_node(op, terms[terms.len() - 1]));
    lemma_flatten_leaves(op, terms.last());
    if terms.len() == 1 {
        assert(seq![terms[0]] =~= terms);
    } else {
        let front = terms.drop_last();
        assert forall|i: int| 0 <= i < front.len() implies settled(#[trigger] front[i]) && !is_node(
            op,
            front[i],
        ) by {
            assert(front[i] == terms[i]);
        }
        lemma_rebuild_flat(op, front);
        let tree = rebuild(op, terms);
        let left = rebuild(op, front);
        assert(tree == node(op, left, terms.last()));
        assert(flatten(op, tree) == flatten(op, left) + flatten(op, terms.last()));
        assert(front + seq![terms.last()] =~= terms);
        lemma_node_weight(op, left, terms.last());
        assert forall|i: int| 0 <= i < terms.len() implies weight(#[trigger] terms[i]) < weight(
            tree,
        ) by {
            if i < front.len() {
                assert(front[i] == terms[i]);
            }
        }
    }
}

proof fn lemma_node_weight(op: AssocCommOp, lhs: ExprV, rhs: ExprV)
    ensures
        weight(lhs) < weight(node(op, lhs, rhs)),
        weight(rhs) < weight(node(op, lhs, rhs)),
{
    let whole = node(op, lhs, rhs);
    lemma_weight_children(whole);
    let parts = crate::instruction_semantics::children(whole);
    assert(parts[0] == lhs && parts[1] == rhs);
}

/// The canonical tree over canonical terms is the tree over them.
proof fn lemma_tree_canon(op: AssocCommOp, terms: Seq<ExprV>, constant: Option<(u128, u16)>)
    requires
        canonical_terms(op, terms, constant),
        with_literal(terms, constant).len() > 1,
    ensures
        ({
            let row = with_literal(terms, constant);
            let tree = rebuild(op, row);
            canon_assoc(op, rebuild(op, row.drop_last()), row.last(), weight(tree)) == Some(tree)
        }),
{
    let row = with_literal(terms, constant);
    let tree = rebuild(op, row);
    let bound = weight(tree);
    lemma_row_leaves(op, terms, constant);
    lemma_rebuild_flat(op, row);
    let lhs = rebuild(op, row.drop_last());
    let rhs = row.last();
    assert(tree == node(op, lhs, rhs));
    assert(flatten(op, tree) == flatten(op, lhs) + flatten(op, rhs));
    assert forall|i: int| 0 <= i < row.len() implies canon(#[trigger] row[i]) == Some(row[i])
        && weight(row[i]) < bound by {
        assert(settled(row[i]));
    }
    lemma_canon_all_same(row, bound);
    if op == AssocCommOp::And {
        assert forall|i: int| 0 <= i < row.len() implies !is_node(
            opposite(op),
            #[trigger] row[i],
        ) by {
            if i < terms.len() {
                assert(row[i] == terms[i]);
            }
        }
        lemma_nothing_absorbed(op, row, row, row.len(), bound);
        assert(row.take(row.len() as int) =~= row);
    }
    assert(unabsorbed(op, row, bound) == Some(row));
    lemma_flatten_all_same(op, row);
    lemma_terms_combine(op, terms, constant);
}

/// A row of canonical terms with its literal holds leaves only.
proof fn lemma_row_leaves(op: AssocCommOp, terms: Seq<ExprV>, constant: Option<(u128, u16)>)
    requires
        canonical_terms(op, terms, constant),
    ensures
        leaves_of(op, with_literal(terms, constant)),
{
    let row = with_literal(terms, constant);
    match constant {
        None => {},
        Some((value, width)) => {
            lemma_literal_settled(value, width);
        },
    }
    assert forall|i: int| 0 <= i < row.len() implies settled(#[trigger] row[i]) && !is_node(
        op,
        row[i],
    ) by {
        if i < terms.len() {
            assert(row[i] == terms[i]);
        }
    }
}

/// All terms but the last of a canonical tree make a canonical tree.
proof fn lemma_terms_shorter(op: AssocCommOp, terms: Seq<ExprV>)
    requires
        canonical_terms(op, terms, None),
        terms.len() > 0,
    ensures
        canonical_terms(op, terms.drop_last(), None),
{
    let front = terms.drop_last();
    assert forall|i: int| 0 <= i < front.len() implies settled(#[trigger] front[i]) && !is_node(
        op,
        front[i],
    ) && !(front[i] is Const) && !(front[i] is Or) by {
        assert(front[i] == terms[i]);
    }
    assert forall|i: int, j: int| 0 <= i < j < front.len() implies key_le(
        #[trigger] front[i],
        #[trigger] front[j],
    ) by {
        assert(front[i] == terms[i] && front[j] == terms[j]);
    }
    if op == AssocCommOp::And {
        assert forall|i: int| 0 < i < front.len() implies #[trigger] front[i] != front[i - 1] by {
            assert(terms[i] != terms[i - 1]);
        }
        if has_complement(front) {
            let (i, j) = choose|i: int, j: int|
                0 <= i < j < front.len() && (#[trigger] front[i] == not_of(#[trigger] front[j])
                    || front[j] == not_of(front[i]));
            assert(terms[i] == front[i] && terms[j] == front[j]);
            assert(has_complement(terms));
            assert(first_width(terms) is None);
        }
    }
}

/// The tree over canonical terms, whose width is known where it has to be, is settled.
proof fn lemma_tree_settled(op: AssocCommOp, terms: Seq<ExprV>, constant: Option<(u128, u16)>)
    requires
        canonical_terms(op, terms, constant),
        with_literal(terms, constant).len() > 0,
        op == AssocCommOp::Mul ==> constant is None,
        op != AssocCommOp::And && with_literal(terms, constant).len() > 1 ==> width_of(
            rebuild(op, with_literal(terms, constant)),
        ) is Some,
    ensures
        settled(rebuild(op, with_literal(terms, constant))),
    decreases with_literal(terms, constant).len(),
{
    let row = with_literal(terms, constant);
    let tree = rebuild(op, row);
    lemma_row_leaves(op, terms, constant);
    assert(settled(row[row.len() - 1]));
    if row.len() > 1 {
        let front = row.drop_last();
        let lhs = rebuild(op, front);
        let rhs = row.last();
        assert(tree == node(op, lhs, rhs));
        if constant is Some {
            assert(front =~= terms);
            assert(canonical_terms(op, terms, None));
        } else {
            lemma_terms_shorter(op, terms);
            assert(front =~= with_literal(terms.drop_last(), None));
        }
        assert(canonical_terms(op, front, None));
        lemma_tree_settled(op, front, None);
        lemma_tree_canon(op, terms, constant);
        if op == AssocCommOp::Mul {
            assert(!(row[row.len() - 1] is Const));
            if front.len() == 1 {
                assert(lhs == front[0]);
                assert(!(front[0] is Const));
            } else {
                assert(lhs == node(op, rebuild(op, front.drop_last()), front.last()));
            }
        }
        lemma_tree_done(op, lhs, rhs);
    } else {
        assert(tree == row[0]);
    }
}

/// A tree that is its own canonical tree is its own canonical form.
proof fn lemma_tree_done(op: AssocCommOp, lhs: ExprV, rhs: ExprV)
    requires
        op == AssocCommOp::Add || op == AssocCommOp::Mul || op == AssocCommOp::And,
        canon_assoc(op, lhs, rhs, weight(node(op, lhs, rhs))) == Some(node(op, lhs, rhs)),
        op != AssocCommOp::And ==> width_of(node(op, lhs, rhs)) is Some,
        op == AssocCommOp::Mul ==> !(lhs is Const) && !(rhs is Const),
        settled(lhs),
        settled(rhs),
    ensures
        settled(node(op, lhs, rhs)),
{
    let tree = node(op, lhs, rhs);
    let bound = weight(tree);
    let step = mul_step(Some(tree));
    if op != AssocCommOp::And {
        assert(step == Step::Done(tree));
        let made = settle(step, bound);
        assert(made == Some(tree));
    }
    assert(canon(tree) == Some(tree));
}

/// The tree that an operator makes of leaves is settled, or a node of the operator over
/// canonical terms.
proof fn lemma_combined(op: AssocCommOp, leaves: Seq<ExprV>) -> (parts: (
    Seq<ExprV>,
    Option<(u128, u16)>,
))
    requires
        op == AssocCommOp::Add || op == AssocCommOp::Mul || op == AssocCommOp::And,
        leaves_of(op, leaves),
        forall|i: int| 0 <= i < leaves.len() ==> plain(#[trigger] leaves[i]),
        combine_terms(op, leaves) is Some,
    ensures
        settled(combine_terms(op, leaves)->0) || {
            &&& canonical_terms(op, parts.0, parts.1)
            &&& with_literal(parts.0, parts.1).len() > 1
            &&& combine_terms(op, leaves)->0 == rebuild(op, with_literal(parts.0, parts.1))
        },
{
    let literal = known(op, leaves)->0;
    let found = unknowns(leaves);
    let sorted = sorted_by_key(found);
    let terms = reduced(op, sorted);
    let tree = combine_terms(op, leaves)->0;
    lemma_unknowns_drawn(leaves);
    lemma_sorted_drawn(found);
    lemma_sorted_by_key(found);
    lemma_leaves_drawn(op, found, leaves);
    lemma_leaves_drawn(op, sorted, found);
    lemma_dedup(sorted);
    lemma_leaves_drawn(op, dedup(sorted), sorted);
    assert forall|i: int| 0 <= i < sorted.len() implies !(#[trigger] sorted[i] is Const) && !(
    sorted[i] is Or) by {
        let j = choose|j: int| 0 <= j < found.len() && found[j] == sorted[i];
        let k = choose|k: int| 0 <= k < leaves.len() && leaves[k] == found[j];
        assert(plain(leaves[k]));
    }
    assert forall|i: int| 0 <= i < terms.len() implies !(#[trigger] terms[i] is Const) && !(
    terms[i] is Or) by {
        if op == AssocCommOp::And {
            let j = choose|j: int| 0 <= j < sorted.len() && sorted[j] == terms[i];
            assert(sorted[j] == terms[i]);
        }
    }
    let decided = op == AssocCommOp::And && has_complement(terms) && (first_width(terms) is Some
        || known_width(literal) is Some);
    if decided {
        let width = tree->Const_width;
        lemma_literal_settled(0, width);
        (terms, literal)
    } else {
        match literal {
            None => {
                if terms.len() == 1 {
                    assert(settled(terms[0]));
                }
                (terms, None)
            },
            Some((value, width)) => {
                lemma_literal_settled(value, width);
                let kept_value = canonical(value, width);
                lemma_known_value(op, leaves);
                if is_annihilator(op, value, width) {
                    (terms, None)
                } else if is_identity(op, value, width) && terms.len() > 0 {
                    if terms.len() == 1 {
                        assert(settled(terms[0]));
                    }
                    (terms, None)
                } else {
                    let row = terms.push(lit(kept_value, width));
                    if terms.len() == 0 {
                        assert(tree == row[0]);
                    }
                    (terms, Some((kept_value, width)))
                }
            },
        }
    }
}

/// A combined literal has a valid width and a number within it.
proof fn lemma_known_value(op: AssocCommOp, terms: Seq<ExprV>)
    requires
        known(op, terms) is Some,
    ensures
        known(op, terms)->0 matches Some((value, width)) ==> valid_width(width) && canonical(
            value,
            width,
        ) == value,
    decreases terms.len(),
{
    if terms.len() > 0 {
        lemma_known_value(op, terms.drop_last());
        if terms.last() is Const {
            let width = terms.last()->Const_width;
            if valid_width(width) {
                let v = terms.last()->Const_value;
                lemma_canonical_small(v, width);
                match known(op, terms.drop_last())->0 {
                    None => {},
                    Some((acc, acc_width)) => {
                        if acc_width == width {
                            crate::word_laws::lemma_combine_fits(
                                op,
                                acc,
                                canonical(v, width),
                                width,
                            );
                        }
                    },
                }
            }
        }
    }
}

/// The canonical forms of a row are settled.
proof fn lemma_all_settled(exprs: Seq<ExprV>, bound: nat)
    requires
        canon_all(exprs, bound) is Some,
    ensures
        all_settled(canon_all(exprs, bound)->0),
        forall|i: int|
            0 <= i < canon_all(exprs, bound)->0.len() ==> plain(
                #[trigger] canon_all(exprs, bound)->0[i],
            ),
    decreases bound, 1nat, exprs.len(),
{
    if exprs.len() > 0 {
        let front = exprs.drop_last();
        let last = exprs.last();
        let made = below(last, bound);
        assert(made is Some);
        assert(weight(last) < bound);
        assert(made == canon(last));
        lemma_all_settled(front, bound);
        lemma_canon_settled(last);
        lemma_canon_plain(last);
        let before = canon_all(front, bound)->0;
        let forms = canon_all(exprs, bound)->0;
        assert forall|i: int| 0 <= i < forms.len() implies settled(#[trigger] forms[i]) && plain(
            forms[i],
        ) by {
            if i < before.len() {
                assert(forms[i] == before[i]);
            }
        }
    }
}

/// The leaves of plain trees are plain.
proof fn lemma_plain_leaves(op: AssocCommOp, exprs: Seq<ExprV>)
    requires
        forall|i: int| 0 <= i < exprs.len() ==> plain(#[trigger] exprs[i]),
    ensures
        forall|i: int|
            0 <= i < flatten_all(op, exprs).len() ==> plain(#[trigger] flatten_all(op, exprs)[i]),
{
    assert(plain_all(exprs));
    lemma_plain_flatten_all(op, exprs);
}

/// The canonical tree of an operator is settled once its step is done.
proof fn lemma_assoc_settled(op: AssocCommOp, lhs: ExprV, rhs: ExprV, bound: nat)
    requires
        op == AssocCommOp::Add || op == AssocCommOp::Mul || op == AssocCommOp::And,
        canon_assoc(op, lhs, rhs, bound) is Some,
    ensures
        ({
            let tree = canon_assoc(op, lhs, rhs, bound)->0;
            &&& op == AssocCommOp::And ==> settled(tree)
            &&& mul_step(Some(tree)) == Step::Done(tree) ==> settled(tree)
        }),
    decreases bound, 4nat, 0nat,
{
    let terms = unabsorbed(op, flatten(op, lhs) + flatten(op, rhs), bound)->0;
    let forms = canon_all(terms, bound)->0;
    let leaves = flatten_all(op, forms);
    lemma_all_settled(terms, bound);
    lemma_flatten_all_leaves(op, forms);
    lemma_plain_leaves(op, forms);
    let tree = combine_terms(op, leaves)->0;
    assert(canon_assoc(op, lhs, rhs, bound) == Some(tree));
    let (parts, constant) = lemma_combined(op, leaves);
    if !settled(tree) {
        if op == AssocCommOp::And {
            lemma_tree_settled(op, parts, constant);
        } else if mul_step(Some(tree)) == Step::Done(tree) {
            let row = with_literal(parts, constant);
            assert(tree == node(op, rebuild(op, row.drop_last()), row.last()));
            lemma_tree_settled(op, parts, constant);
        }
    }
}

/// What an operator that is lowered makes of leaves is settled or a node of the operator.
proof fn lemma_lowered_settled(op: AssocCommOp, lhs: ExprV, rhs: ExprV, bound: nat)
    requires
        op == AssocCommOp::Or || op == AssocCommOp::Xor,
        canon_assoc(op, lhs, rhs, bound) is Some,
    ensures
        ({
            let tree = canon_assoc(op, lhs, rhs, bound)->0;
            lower_step(Some(tree)) matches Step::Done(e) ==> settled(e)
        }),
    decreases bound, 4nat, 0nat,
{
    let terms = unabsorbed(op, flatten(op, lhs) + flatten(op, rhs), bound)->0;
    let forms = canon_all(terms, bound)->0;
    let leaves = flatten_all(op, forms);
    lemma_all_settled(terms, bound);
    lemma_flatten_all_leaves(op, forms);
    let tree = combine_terms(op, leaves)->0;
    assert(canon_assoc(op, lhs, rhs, bound) == Some(tree));
    let literal = known(op, leaves)->0;
    let found = unknowns(leaves);
    let sorted = sorted_by_key(found);
    let left = reduced(op, sorted);
    lemma_unknowns_drawn(leaves);
    lemma_sorted_drawn(found);
    lemma_sorted_by_key(found);
    lemma_leaves_drawn(op, found, leaves);
    lemma_leaves_drawn(op, sorted, found);
    if op == AssocCommOp::Or {
        lemma_dedup(sorted);
        lemma_leaves_drawn(op, left, sorted);
    } else {
        lemma_cancel_drawn(sorted, 0);
        lemma_leaves_drawn(op, left, sorted);
    }
    let constant = reduced_constant(op, sorted, literal);
    if tree is Const {
        if valid_width(tree->Const_width) {
            lemma_literal_settled(tree->Const_value, tree->Const_width);
        }
        if with_constant(op, left, constant) == Some(tree) {
            match constant {
                None => {
                    assert(left.len() == 1 ==> tree == left[0]);
                    if left.len() == 1 {
                        assert(settled(left[0]));
                    } else {
                        assert(tree == node(op, rebuild(op, left.drop_last()), left.last()));
                    }
                },
                Some((value, width)) => {
                    lemma_literal_settled(value, width);
                    let row = left.push(lit(canonical(value, width), width));
                    if row.len() > 1 {
                        assert(rebuild(op, row) == node(
                            op,
                            rebuild(op, row.drop_last()),
                            row.last(),
                        ));
                    }
                    if left.len() == 1 {
                        assert(settled(left[0]));
                    }
                },
            }
        } else {
            lemma_literal_settled(0, tree->Const_width);
        }
    } else if !is_node(op, tree) {
        assert(with_constant(op, left, constant) == Some(tree));
        match constant {
            None => {
                if left.len() > 1 {
                    assert(tree == node(op, rebuild(op, left.drop_last()), left.last()));
                } else {
                    assert(settled(left[0]));
                }
            },
            Some((value, width)) => {
                let row = left.push(lit(canonical(value, width), width));
                if row.len() > 1 {
                    assert(rebuild(op, row) == node(
                        op,
                        rebuild(op, row.drop_last()),
                        row.last(),
                    ));
                }
                if left.len() == 1 {
                    assert(settled(left[0]));
                } else if left.len() > 1 {
                    assert(rebuild(op, left) == node(
                        op,
                        rebuild(op, left.drop_last()),
                        left.last(),
                    ));
                }
            },
        }
    }
}

/// What remains of cancelled pairs are terms.
pub(crate) proof fn lemma_cancel_drawn(terms: Seq<ExprV>, start: int)
    requires
        0 <= start <= terms.len(),
    ensures
        drawn_from(cancel_pairs(terms, start), terms),
    decreases terms.len() - start,
{
    if start < terms.len() {
        let run = run_length(terms, start, start + 1);
        lemma_run(terms, start, start + 1);
        lemma_cancel_drawn(terms, start + run);
        let rest = cancel_pairs(terms, start + run);
        let r = cancel_pairs(terms, start);
        let first = terms[start];
        assert(terms.contains(first));
        assert forall|i: int| 0 <= i < r.len() implies terms.contains(#[trigger] r[i]) by {
            let skipped = r.len() - rest.len();
            if i >= skipped {
                assert(r[i] == rest[i - skipped]);
            }
        }
    }
}

/// The literals of merged chunks are canonical, and no two of them are neighbours.
proof fn lemma_merged_chunks(chunks: Seq<ExprV>)
    requires
        all_settled(chunks),
        merge_chunks(chunks) is Some,
    ensures
        all_settled(merge_chunks(chunks)->0),
        merge_chunks(merge_chunks(chunks)->0) == Some(merge_chunks(chunks)->0),
    decreases chunks.len(),
{
    if chunks.len() > 0 {
        let front = chunks.drop_last();
        let last = chunks.last();
        assert(settled(chunks[chunks.len() - 1]));
        assert forall|i: int| 0 <= i < front.len() implies settled(#[trigger] front[i]) by {
            assert(front[i] == chunks[i]);
        }
        lemma_merged_chunks(front);
        let before = merge_chunks(front)->0;
        let after = merge_chunks(chunks)->0;
        let fresh = after.last();
        if last is Const {
            lemma_literal_settled(last->Const_value, last->Const_width);
            if before.len() > 0 && before.last() is Const {
                let joint = (canonical(before.last()->Const_value, before.last()->Const_width)
                    << last->Const_width) | canonical(last->Const_value, last->Const_width);
                lemma_literal_settled(joint, fresh->Const_width);
                let rest = before.drop_last();
                assert(after == rest.push(fresh));
                assert(after.drop_last() =~= rest);
                lemma_merged_prefix(before);
                assert(settled(fresh));
            } else {
                assert(after == before.push(fresh));
                assert(after.drop_last() =~= before);
            }
        } else {
            assert(after == before.push(last));
            assert(after.drop_last() =~= before);
        }
        assert forall|i: int| 0 <= i < after.len() implies settled(#[trigger] after[i]) by {
            if i < after.len() - 1 {
                assert(after[i] == before[i]);
            }
        }
    } else {
        assert(merge_chunks(chunks)->0 =~= Seq::empty());
    }
}

/// Merged chunks without a literal at their end stay as they are.
proof fn lemma_merged_prefix(chunks: Seq<ExprV>)
    requires
        chunks.len() > 0,
        chunks.last() is Const,
        merge_chunks(chunks) == Some(chunks),
    ensures
        merge_chunks(chunks.drop_last()) == Some(chunks.drop_last()),
        chunks.len() > 1 ==> !(chunks.drop_last().last() is Const),
{
    let front = chunks.drop_last();
    let before = merge_chunks(front)->0;
    lemma_merged_len(front);
    if before.len() > 0 && before.last() is Const {
        assert(chunks.len() == before.len());
        assert(before.len() <= front.len());
        assert(false);
    } else {
        assert(chunks == before.push(chunks.last()));
        assert(before =~= front);
    }
}

/// Merging makes no chunks.
proof fn lemma_merged_len(chunks: Seq<ExprV>)
    requires
        merge_chunks(chunks) is Some,
    ensures
        merge_chunks(chunks)->0.len() <= chunks.len(),
    decreases chunks.len(),
{
    if chunks.len() > 0 {
        lemma_merged_len(chunks.drop_last());
    }
}

proof fn lemma_settle_settled(step: Step, bound: nat)
    requires
        settle(step, bound) is Some,
        step matches Step::Done(e) ==> settled(e),
    ensures
        settled(settle(step, bound)->0),
    decreases bound, 0nat, 0nat,
{
    match step {
        Step::Rewrite(e) => {
            lemma_canon_settled(e);
        },
        _ => {},
    }
}

/// A canonical form and all of its parts are their own canonical forms: canonicalizing twice
/// is canonicalizing once.
pub proof fn lemma_canon_settled(expr: ExprV)
    requires
        canon(expr) is Some,
    ensures
        settled(canon(expr)->0),
        canon(canon(expr)->0) == canon(expr),
    decreases weight(expr), 6nat, 0nat,
{
    let bound = weight(expr);
    match expr {
        ExprV::Add(_, _)
        | ExprV::Mul(_, _)
        | ExprV::And(_, _)
        | ExprV::Or(_, _)
        | ExprV::Xor(_, _) => {
            lemma_tree_form_settled(expr);
        },
        ExprV::Sub(_, _) | ExprV::Select { .. } => {
            lemma_rewritten_form_settled(expr);
        },
        ExprV::Concat(values) => {
            lemma_concat_form_settled(values);
        },
        ExprV::ZeroExtend { value, to_width } => {
            lemma_extension_form_settled(ExtensionOp::Zero, *value, to_width);
        },
        ExprV::SignExtend { value, to_width } => {
            lemma_extension_form_settled(ExtensionOp::Sign, *value, to_width);
        },
        _ => {
            lemma_part_form_settled(expr);
        },
    }
}

proof fn lemma_tree_form_settled(expr: ExprV)
    requires
        canon(expr) is Some,
        expr is Add || expr is Mul || expr is And || expr is Or || expr is Xor,
    ensures
        settled(canon(expr)->0),
    decreases weight(expr), 5nat, 0nat,
{
    let bound = weight(expr);
    match expr {
        ExprV::Add(lhs, rhs) => {
            let tree = canon_assoc(AssocCommOp::Add, *lhs, *rhs, bound);
            let made = settle(mul_step(tree), bound);
            assert(canon(expr) == made);
            assert(tree is Some);
            lemma_assoc_settled(AssocCommOp::Add, *lhs, *rhs, bound);
            lemma_mul_form_settled(tree->0, bound);
        },
        ExprV::Mul(lhs, rhs) => {
            let tree = canon_assoc(AssocCommOp::Mul, *lhs, *rhs, bound);
            let made = settle(mul_step(tree), bound);
            assert(canon(expr) == made);
            assert(tree is Some);
            lemma_assoc_settled(AssocCommOp::Mul, *lhs, *rhs, bound);
            lemma_mul_form_settled(tree->0, bound);
        },
        ExprV::And(lhs, rhs) => {
            lemma_assoc_settled(AssocCommOp::And, *lhs, *rhs, bound);
        },
        ExprV::Or(lhs, rhs) => {
            let tree = canon_assoc(AssocCommOp::Or, *lhs, *rhs, bound);
            let made = settle(lower_step(tree), bound);
            assert(canon(expr) == made);
            assert(tree is Some);
            lemma_lowered_settled(AssocCommOp::Or, *lhs, *rhs, bound);
            lemma_settle_settled(lower_step(tree), bound);
        },
        ExprV::Xor(lhs, rhs) => {
            let tree = canon_assoc(AssocCommOp::Xor, *lhs, *rhs, bound);
            let made = settle(lower_step(tree), bound);
            assert(canon(expr) == made);
            assert(tree is Some);
            lemma_lowered_settled(AssocCommOp::Xor, *lhs, *rhs, bound);
            lemma_settle_settled(lower_step(tree), bound);
        },
        _ => {},
    }
}

proof fn lemma_mul_form_settled(tree: ExprV, bound: nat)
    requires
        settle(mul_step(Some(tree)), bound) is Some,
        mul_step(Some(tree)) == Step::Done(tree) ==> settled(tree),
    ensures
        settled(settle(mul_step(Some(tree)), bound)->0),
    decreases bound, 0nat, 1nat,
{
    let step = mul_step(Some(tree));
    match step {
        Step::Done(e) => {
            if e != tree {
                match tree {
                    ExprV::Mul(lhs, rhs) => {
                        lemma_literal_settled(
                            (lhs->Const_value * rhs->Const_value) as u128,
                            width_of(tree)->0,
                        );
                    },
                    _ => {},
                }
            }
        },
        _ => {},
    }
    lemma_settle_settled(step, bound);
}

proof fn lemma_rewritten_form_settled(expr: ExprV)
    requires
        canon(expr) is Some,
        expr is Sub || expr is Select,
    ensures
        settled(canon(expr)->0),
    decreases weight(expr), 5nat, 0nat,
{
    let bound = weight(expr);
    match expr {
        ExprV::Sub(lhs, rhs) => {
            let step = sub_step(canon(*lhs), canon(*rhs));
            let made = settle(step, bound);
            assert(canon(expr) == made);
            assert(canon(*lhs) is Some);
            lemma_canon_settled(*lhs);
            if width_of(canon(*lhs)->0) is Some && valid_width(width_of(canon(*lhs)->0)->0) {
                lemma_literal_settled(0, width_of(canon(*lhs)->0)->0);
            }
            lemma_settle_settled(step, bound);
        },
        ExprV::Select { condition, when_true, when_false } => {
            let step = select_step(canon(*condition), canon(*when_true), canon(*when_false));
            let made = settle(step, bound);
            assert(canon(expr) == made);
            assert(canon(*when_true) is Some && canon(*when_false) is Some);
            lemma_canon_settled(*when_true);
            lemma_canon_settled(*when_false);
            lemma_settle_settled(step, bound);
        },
        _ => {},
    }
}

proof fn lemma_concat_form_settled(values: Seq<ExprV>)
    requires
        canon(ExprV::Concat(values)) is Some,
    ensures
        settled(canon(ExprV::Concat(values))->0),
    decreases weight(ExprV::Concat(values)), 5nat, 0nat,
{
    let bound = weight(ExprV::Concat(values));
    let chunks = canon_all(values, bound);
    assert(chunks is Some);
    lemma_all_settled(values, bound);
    lemma_merged_chunks(chunks->0);
    let merged = merge_chunks(chunks->0)->0;
    if merged.len() == 1 {
        assert(settled(merged[0]));
    } else {
        let whole = ExprV::Concat(merged);
        assert forall|i: int| 0 <= i < merged.len() implies canon(#[trigger] merged[i]) == Some(
            merged[i],
        ) && weight(merged[i]) < weight(whole) by {
            assert(settled(merged[i]));
            lemma_weights_part(merged, i);
        }
        lemma_canon_all_same(merged, weight(whole));
        assert(joined(merged) == Some(whole));
        assert(canon(whole) == Some(whole));
    }
}

proof fn lemma_extension_form_settled(op: ExtensionOp, value: ExprV, to_width: u16)
    requires
        canon_extension(op, canon(value), to_width) is Some,
    ensures
        settled(canon_extension(op, canon(value), to_width)->0),
    decreases weight(value), 7nat, 0nat,
{
    lemma_canon_settled(value);
    let form = canon(value)->0;
    let inner = strip_nested(op, form);
    let whole = extension_node(op, inner, to_width);
    if canon_extension(op, canon(value), to_width) != Some(form) {
        assert(settled(inner));
        if inner != form {
            match op {
                ExtensionOp::Zero => {
                    assert(canon(form) == canon_extension(
                        op,
                        canon(inner),
                        form->ZeroExtend_to_width,
                    ));
                },
                ExtensionOp::Sign => {
                    assert(canon(form) == canon_extension(
                        op,
                        canon(inner),
                        form->SignExtend_to_width,
                    ));
                },
            }
        }
        assert(canon_extension(op, Some(inner), to_width) == Some(whole));
        assert(canon(whole) == Some(whole));
    }
}

proof fn lemma_part_form_settled(expr: ExprV)
    requires
        canon(expr) is Some,
        !(expr is Add || expr is Mul || expr is And || expr is Or || expr is Xor || expr is Sub
            || expr is Select || expr is Concat || expr is ZeroExtend || expr is SignExtend),
    ensures
        settled(canon(expr)->0),
    decreases weight(expr), 5nat, 0nat,
{
    match expr {
        ExprV::Const { value, width } => {
            lemma_literal_settled(value, width);
        },
        ExprV::ReadRegister { register, .. } => {
            lemma_canon_settled(*register);
        },
        ExprV::ReadMemory { address, .. } => {
            lemma_canon_settled(*address);
        },
        ExprV::ShiftLeft(lhs, rhs) => {
            lemma_shift_form_settled(ShiftOp::Left, *lhs, *rhs);
        },
        ExprV::LogicalShiftRight(lhs, rhs) => {
            lemma_shift_form_settled(ShiftOp::LogicalRight, *lhs, *rhs);
        },
        ExprV::ArithmeticShiftRight(lhs, rhs) => {
            lemma_shift_form_settled(ShiftOp::ArithmeticRight, *lhs, *rhs);
        },
        ExprV::RotateRight(lhs, rhs) => {
            lemma_shift_form_settled(ShiftOp::RotateRight, *lhs, *rhs);
        },
        ExprV::Equal(lhs, rhs)
        | ExprV::UnsignedLessThan(lhs, rhs)
        | ExprV::SignedLessThan(lhs, rhs) => {
            lemma_canon_settled(*lhs);
            lemma_canon_settled(*rhs);
            lemma_key_total(canon(*lhs)->0, canon(*rhs)->0);
            lemma_literal_settled(0, 1);
            lemma_fits(1, 1);
            lemma_literal_settled(1, 1);
        },
        ExprV::Not(value) => {
            lemma_not_form_settled(*value);
        },
        ExprV::CountOnes(value) | ExprV::Extract { value, .. } => {
            lemma_canon_settled(*value);
        },
        ExprV::AddCarryOut { lhs, rhs, carry_in, .. }
        | ExprV::AddOverflow { lhs, rhs, carry_in, .. } => {
            lemma_canon_settled(*lhs);
            lemma_canon_settled(*rhs);
            lemma_canon_settled(*carry_in);
        },
        ExprV::SubCarryOut { lhs, rhs, borrow_in, .. }
        | ExprV::SubOverflow { lhs, rhs, borrow_in, .. } => {
            lemma_canon_settled(*lhs);
            lemma_canon_settled(not_of(*rhs));
            lemma_canon_settled(not_of(*borrow_in));
        },
        _ => {},
    }
}

proof fn lemma_not_form_settled(value: ExprV)
    requires
        canon_not(canon(value)) is Some,
    ensures
        settled(canon_not(canon(value))->0),
    decreases weight(value), 7nat, 0nat,
{
    lemma_canon_settled(value);
    let form = canon(value)->0;
    match form {
        ExprV::Const { value: v, width } => {
            lemma_literal_settled(!v, width);
        },
        ExprV::Not(inner) => {
            assert(settled(*inner));
        },
        _ => {
            assert(canon(not_of(form)) == canon_not(canon(form)));
        },
    }
}

proof fn lemma_shift_form_settled(op: ShiftOp, value: ExprV, amount: ExprV)
    requires
        canon_shift(op, canon(value), canon(amount)) is Some,
    ensures
        settled(canon_shift(op, canon(value), canon(amount))->0),
    decreases weight(value) + weight(amount), 7nat, 0nat,
{
    lemma_weight_positive(value);
    lemma_weight_positive(amount);
    lemma_canon_settled(value);
    lemma_canon_settled(amount);
    let v = canon(value)->0;
    let a = canon(amount)->0;
    if v is Const {
        if valid_width(v->Const_width) {
            lemma_literal_settled(0, v->Const_width);
        }
    }
    assert(canon(shift_node(op, v, a)) == canon_shift(op, canon(v), canon(a)));
}

/// A product of two literals is no canonical form.
proof fn lemma_no_literal_product(a: u128, a_width: u16, b: u128, b_width: u16)
    ensures
        !settled(node(AssocCommOp::Mul, lit(a, a_width), lit(b, b_width))),
{
    let op = AssocCommOp::Mul;
    let (lhs, rhs) = (lit(a, a_width), lit(b, b_width));
    let whole = node(op, lhs, rhs);
    let bound = weight(whole);
    if settled(whole) {
        let terms = flatten(op, lhs) + flatten(op, rhs);
        lemma_flatten_leaves(op, lhs);
        lemma_flatten_leaves(op, rhs);
        assert(terms =~= seq![lhs, rhs]);
        lemma_node_weight(op, lhs, rhs);
        lemma_canon_all_same(terms, bound);
        assert(leaves_of(op, terms)) by {
            assert forall|i: int| 0 <= i < terms.len() implies settled(#[trigger] terms[i])
                && !is_node(op, terms[i]) by {}
        }
        lemma_flatten_all_same(op, terms);
        assert(terms.drop_last() =~= seq![lhs]);
        assert(seq![lhs].drop_last() =~= Seq::<ExprV>::empty());
        reveal_with_fuel(unknowns, 3);
        reveal_with_fuel(known, 3);
        assert(unknowns(terms) =~= Seq::<ExprV>::empty());
        let tree = canon_assoc(op, lhs, rhs, bound);
        assert(tree == combine_terms(op, terms));
        let made = settle(mul_step(tree), bound);
        assert(canon(whole) == made);
        assert(tree is Some);
        assert(sorted_by_key(unknowns(terms)) =~= Seq::<ExprV>::empty());
        assert(tree->0 is Const);
    }
}

/// The canonical tree of a sum or a product is no product of two literals.
pub(crate) proof fn lemma_not_two_literals(op: AssocCommOp, lhs: ExprV, rhs: ExprV, bound: nat)
    requires
        op == AssocCommOp::Add || op == AssocCommOp::Mul,
        canon_assoc(op, lhs, rhs, bound) is Some,
    ensures
        canon_assoc(op, lhs, rhs, bound)->0 matches ExprV::Mul(l, r) ==> !(*l is Const) || !(
        *r is Const),
{
    let terms = unabsorbed(op, flatten(op, lhs) + flatten(op, rhs), bound)->0;
    let forms = canon_all(terms, bound)->0;
    let leaves = flatten_all(op, forms);
    lemma_all_settled(terms, bound);
    lemma_flatten_all_leaves(op, forms);
    lemma_plain_leaves(op, forms);
    let tree = combine_terms(op, leaves)->0;
    assert(canon_assoc(op, lhs, rhs, bound) == Some(tree));
    let (parts, constant) = lemma_combined(op, leaves);
    if settled(tree) {
        match tree {
            ExprV::Mul(l, r) => {
                if *l is Const && *r is Const {
                    lemma_no_literal_product(
                        l->Const_value,
                        l->Const_width,
                        r->Const_value,
                        r->Const_width,
                    );
                }
            },
            _ => {},
        }
    } else {
        let row = with_literal(parts, constant);
        let front = row.drop_last();
        assert(tree == node(op, rebuild(op, front), row.last()));
        if front.len() == 1 {
            assert(front[0] == parts[0]);
        } else {
            assert(rebuild(op, front) == node(op, rebuild(op, front.drop_last()), front.last()));
        }
    }
}

} // verus!
