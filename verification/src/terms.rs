//! Rows of terms under an associative and commutative operator.
use vstd::prelude::*;

use crate::canonical_form::{
    cancel_pairs, cancelled_width, combine_terms, dedup, first_width, flatten, has_complement,
    insert_by_key, joined, known, lit, merge_chunks, node, not_of, rebuild, reduced,
    reduced_constant, run_length, sorted_by_key, unknowns, with_constant,
};
use crate::collections::viewed_option;
use crate::const_eval::{
    bit_mask, canonical, canonical_word, fold_assoc_comm_const, is_assoc_comm_annihilator,
    is_assoc_comm_identity, mask, valid_width, AssocCommOp,
};
use crate::expr_shape::{canonical_sort_key, key, key_le, key_not_after};
use crate::instruction_semantics::{constant, views, Expr, ExprV};

verus! {

/// The shapes of a row grow with the row.
pub(crate) proof fn lemma_views_push(exprs: Seq<Expr>, expr: Expr)
    ensures
        views(exprs.push(expr)) == views(exprs).push(expr@),
{
    assert(views(exprs.push(expr)) =~= views(exprs).push(expr@));
}

/// The shapes of a row without its first expression.
pub(crate) proof fn lemma_views_rest(exprs: Seq<Expr>)
    requires
        exprs.len() > 0,
    ensures
        views(exprs.remove(0)) == views(exprs).drop_first(),
        views(exprs)[0] == exprs[0]@,
{
    assert(views(exprs.remove(0)) =~= views(exprs).drop_first());
}

/// Constructs a width-validated constant truncated to `width` bits.
pub(crate) fn const_bits(value: u128, width: u16) -> (r: Expr)
    requires
        valid_width(width),
    ensures
        r@ == lit(canonical(value, width), width),
{
    constant(canonical_word(value, width), width)
}

/// Constructs the binary expression associated with `op`.
pub(crate) fn make_assoc_comm_expr(op: AssocCommOp, lhs: Expr, rhs: Expr) -> (r: Expr)
    ensures
        r@ == node(op, lhs@, rhs@),
{
    match op {
        AssocCommOp::Add => Expr::Add(Box::new(lhs), Box::new(rhs)),
        AssocCommOp::Mul => Expr::Mul(Box::new(lhs), Box::new(rhs)),
        AssocCommOp::And => Expr::And(Box::new(lhs), Box::new(rhs)),
        AssocCommOp::Or => Expr::Or(Box::new(lhs), Box::new(rhs)),
        AssocCommOp::Xor => Expr::Xor(Box::new(lhs), Box::new(rhs)),
    }
}

/// Appends the leaves of a same-operator associative tree to `terms`.
///
/// This only flattens `op`; child expressions are otherwise left untouched.
pub(crate) fn flatten_assoc_comm_op(op: AssocCommOp, expr: Expr, terms: &mut Vec<Expr>)
    ensures
        views(final(terms)@) == views(old(terms)@) + flatten(op, expr@),
    decreases expr,
{
    match (op, expr) {
        (AssocCommOp::Add, Expr::Add(lhs, rhs))
        | (AssocCommOp::Mul, Expr::Mul(lhs, rhs))
        | (AssocCommOp::And, Expr::And(lhs, rhs))
        | (AssocCommOp::Or, Expr::Or(lhs, rhs))
        | (AssocCommOp::Xor, Expr::Xor(lhs, rhs)) => {
            flatten_assoc_comm_op(op, *lhs, terms);
            flatten_assoc_comm_op(op, *rhs, terms);
            assert(views(terms@) =~= views(old(terms)@) + flatten(op, expr@));
        },
        (_, expr) => {
            proof {
                lemma_views_push(terms@, expr);
            }
            terms.push(expr);
            assert(views(terms@) =~= views(old(terms)@) + flatten(op, expr@));
        },
    }
}

/// Rebuilds a nonempty left-associated tree from ordered terms.
pub(crate) fn rebuild_assoc_comm_op(op: AssocCommOp, terms: Vec<Expr>) -> (r: Expr)
    requires
        terms@.len() > 0,
    ensures
        r@ == rebuild(op, views(terms@)),
{
    let ghost all = views(terms@);
    let mut rest = terms;
    proof {
        lemma_views_rest(rest@);
        assert(all.take(1)[0] == all[0]);
        assert(all.drop_first() =~= all.skip(1));
    }
    let mut acc = rest.remove(0);
    let ghost mut k: int = 1;
    while rest.len() > 0
        invariant
            1 <= k <= all.len(),
            acc@ == rebuild(op, all.take(k)),
            views(rest@) == all.skip(k),
        decreases rest@.len(),
    {
        proof {
            assert(views(rest@).len() == rest@.len());
            lemma_views_rest(rest@);
            assert(all.take(k + 1).drop_last() =~= all.take(k));
            assert(all.skip(k).drop_first() =~= all.skip(k + 1));
        }
        let term = rest.remove(0);
        acc = make_assoc_comm_expr(op, acc, term);
        proof {
            k = k + 1;
        }
    }
    assert(views(rest@).len() == 0);
    assert(all.take(k) =~= all);
    acc
}

/// Literals that combine for a whole row combine for each of its prefixes.
proof fn lemma_known_prefix(op: AssocCommOp, terms: Seq<ExprV>, k: int)
    requires
        0 <= k <= terms.len(),
        known(op, terms) is Some,
    ensures
        known(op, terms.take(k)) is Some,
    decreases terms.len(),
{
    if k == terms.len() {
        assert(terms.take(k) =~= terms);
    } else {
        lemma_known_prefix(op, terms.drop_last(), k);
        assert(terms.drop_last().take(k) =~= terms.take(k));
    }
}

/// Combined literals have a valid width and fit it.
pub(crate) proof fn lemma_known_fits(op: AssocCommOp, terms: Seq<ExprV>)
    ensures
        known(op, terms) matches Some(Some((value, width))) ==> valid_width(width) && value <= mask(
            width,
        ),
    decreases terms.len(),
{
    if terms.len() > 0 {
        lemma_known_fits(op, terms.drop_last());
        match terms.last() {
            ExprV::Const { value, width } => {
                if valid_width(width) {
                    crate::const_eval::lemma_canonical_is_mod(value, width);
                    crate::const_eval::lemma_mask(width);
                    match known(op, terms.drop_last()) {
                        Some(Some((acc, acc_width))) => {
                            let c = canonical(value, width);
                            crate::const_eval::lemma_canonical_is_mod(acc & c, width);
                            crate::const_eval::lemma_canonical_is_mod(acc | c, width);
                            crate::const_eval::lemma_canonical_is_mod(acc ^ c, width);
                        },
                        _ => {},
                    }
                }
            },
            _ => {},
        }
    }
}

/// Parts the terms into one combined literal and the others; `None` where literals have invalid
/// or different widths.
pub(crate) fn split_literals(op: AssocCommOp, terms: Vec<Expr>) -> (r: Option<
    (Vec<Expr>, Option<(u128, u16)>),
>)
    ensures
        match r {
            Some((others, folded)) => views(others@) == unknowns(views(terms@)) && known(
                op,
                views(terms@),
            ) == Some(folded),
            None => known(op, views(terms@)) is None,
        },
{
    let ghost all = views(terms@);
    let mut rest = terms;
    let mut others: Vec<Expr> = Vec::new();
    let mut folded: Option<(u128, u16)> = None;
    let ghost mut k: int = 0;
    assert(all.skip(0) =~= all);
    assert(all.take(0) =~= Seq::empty());
    assert(views(others@) =~= Seq::empty());
    while rest.len() > 0
        invariant
            0 <= k <= all.len(),
            views(rest@) == all.skip(k),
            all == views(terms@),
            views(others@) == unknowns(all.take(k)),
            known(op, all.take(k)) == Some(folded),
        decreases rest@.len(),
    {
        proof {
            assert(views(rest@).len() == rest@.len());
            lemma_views_rest(rest@);
            assert(all.take(k + 1).drop_last() =~= all.take(k));
            assert(all.take(k + 1).last() == all[k]);
            assert(all.skip(k).drop_first() =~= all.skip(k + 1));
            if known(op, all) is Some {
                lemma_known_prefix(op, all, k + 1);
            }
            lemma_known_fits(op, all.take(k));
        }
        let term = rest.remove(0);
        match term {
            Expr::Const { value, width } => {
                if width == 0 || width > 128 {
                    return None;
                }
                let value = canonical_word(value, width);
                folded = match folded {
                    Some((acc, acc_width)) => {
                        if acc_width != width {
                            return None;
                        }
                        Some((fold_assoc_comm_const(op, acc, value, width), width))
                    },
                    None => Some((value, width)),
                };
            },
            term => {
                proof {
                    lemma_views_push(others@, term);
                }
                others.push(term);
            },
        }
        proof {
            k = k + 1;
        }
    }
    assert(views(rest@).len() == 0);
    assert(all.take(k) =~= all);
    Some((others, folded))
}

/// Where scanning from the right stops, the term is inserted.
proof fn lemma_insert_position(sorted: Seq<ExprV>, term: ExprV, at: int)
    requires
        0 <= at <= sorted.len(),
        at > 0 ==> key_le(sorted[at - 1], term),
        forall|i: int| at <= i < sorted.len() ==> !key_le(#[trigger] sorted[i], term),
    ensures
        insert_by_key(sorted, term) == sorted.insert(at, term),
    decreases sorted.len(),
{
    if at == sorted.len() {
        assert(sorted.insert(at, term) =~= sorted.push(term));
    } else {
        assert(!key_le(sorted[sorted.len() - 1], term));
        lemma_insert_position(sorted.drop_last(), term, at);
        assert(sorted.insert(at, term) =~= sorted.drop_last().insert(at, term).push(sorted.last()));
    }
}

/// Sorts the terms by their keys; equal keys keep their order.
pub(crate) fn sort_by_key(terms: Vec<Expr>) -> (r: Vec<Expr>)
    ensures
        views(r@) == sorted_by_key(views(terms@)),
{
    let ghost all = views(terms@);
    let mut rest = terms;
    let mut sorted: Vec<Expr> = Vec::new();
    let ghost mut k: int = 0;
    assert(all.skip(0) =~= all);
    assert(all.take(0) =~= Seq::empty());
    assert(views(sorted@) =~= Seq::empty());
    while rest.len() > 0
        invariant
            0 <= k <= all.len(),
            views(rest@) == all.skip(k),
            views(sorted@) == sorted_by_key(all.take(k)),
        decreases rest@.len(),
    {
        proof {
            assert(views(rest@).len() == rest@.len());
            lemma_views_rest(rest@);
            assert(all.take(k + 1).drop_last() =~= all.take(k));
            assert(all.take(k + 1).last() == all[k]);
            assert(all.skip(k).drop_first() =~= all.skip(k + 1));
        }
        let term = rest.remove(0);
        let term_key = canonical_sort_key(&term);
        let mut at: usize = sorted.len();
        let mut searching = true;
        while at > 0 && searching
            invariant
                at <= sorted@.len(),
                term_key@ == key(term@, false),
                !searching ==> at > 0 && key_le(views(sorted@)[at - 1], term@),
                forall|i: int|
                    at <= i < sorted@.len() ==> !key_le(#[trigger] views(sorted@)[i], term@),
            decreases at + (if searching { 1int } else { 0int }),
        {
            let other = canonical_sort_key(&sorted[at - 1]);
            assert(views(sorted@)[at - 1] == sorted@[at - 1]@);
            if key_not_after(&sorted[at - 1], &other, &term, &term_key) {
                searching = false;
            } else {
                at = at - 1;
            }
        }
        proof {
            lemma_insert_position(views(sorted@), term@, at as int);
            assert(views(sorted@.insert(at as int, term)) =~= views(sorted@).insert(
                at as int,
                term@,
            ));
        }
        sorted.insert(at, term);
        proof {
            k = k + 1;
        }
    }
    assert(views(rest@).len() == 0);
    assert(all.take(k) =~= all);
    sorted
}

/// Removes immediate repetitions.
pub(crate) fn dedup_terms(terms: Vec<Expr>) -> (r: Vec<Expr>)
    ensures
        views(r@) == dedup(views(terms@)),
{
    let ghost all = views(terms@);
    let mut rest = terms;
    let mut distinct: Vec<Expr> = Vec::new();
    let ghost mut k: int = 0;
    assert(all.skip(0) =~= all);
    assert(all.take(0) =~= Seq::empty());
    assert(views(distinct@) =~= Seq::empty());
    while rest.len() > 0
        invariant
            0 <= k <= all.len(),
            views(rest@) == all.skip(k),
            views(distinct@) == dedup(all.take(k)),
            k > 0 ==> distinct@.len() > 0 && distinct@.last()@ == all[k - 1],
            k == 0 ==> distinct@.len() == 0,
        decreases rest@.len(),
    {
        proof {
            assert(views(rest@).len() == rest@.len());
            lemma_views_rest(rest@);
            assert(all.take(k + 1).drop_last() =~= all.take(k));
            assert(all.take(k + 1).last() == all[k]);
            assert(all.skip(k).drop_first() =~= all.skip(k + 1));
            assert(k > 0 ==> all.take(k + 1)[k - 1] == all[k - 1]);
        }
        let term = rest.remove(0);
        let repeated = distinct.len() > 0 && distinct[distinct.len() - 1].same(&term);
        if !repeated {
            proof {
                lemma_views_push(distinct@, term);
                assert(k == 0 ==> all.take(1) =~= seq![term@]);
            }
            distinct.push(term);
            assert(views(distinct@) =~= dedup(all.take(k + 1)));
        }
        proof {
            k = k + 1;
        }
    }
    assert(views(rest@).len() == 0);
    assert(all.take(k) =~= all);
    distinct
}

/// A run ends within the row and holds only equal terms.
pub(crate) proof fn lemma_run(terms: Seq<ExprV>, start: int, from: int)
    requires
        0 <= start < from <= terms.len(),
        forall|i: int| start <= i < from ==> terms[i] == terms[start],
    ensures
        from - start <= run_length(terms, start, from) <= terms.len() - start,
        forall|i: int|
            start <= i < start + run_length(terms, start, from) ==> terms[i] == terms[start],
    decreases terms.len() - from,
{
    if from < terms.len() && terms[from] == terms[start] {
        lemma_run(terms, start, from + 1);
    }
}

/// Cancels pairs of equal neighbours; the second result is the width of the last one.
pub(crate) fn cancel_equal_pairs(terms: &Vec<Expr>, before: Option<u16>) -> (r: (
    Vec<Expr>,
    Option<u16>,
))
    ensures
        views(r.0@) == cancel_pairs(views(terms@), 0),
        r.1 == cancelled_width(views(terms@), 0, before),
{
    let ghost all = views(terms@);
    let mut reduced: Vec<Expr> = Vec::new();
    let mut cancelled = before;
    let mut index: usize = 0;
    assert(views(reduced@) =~= Seq::empty());
    while index < terms.len()
        invariant
            index <= terms@.len(),
            all == views(terms@),
            cancel_pairs(all, 0) =~= views(reduced@) + cancel_pairs(all, index as int),
            cancelled_width(all, 0, before) == cancelled_width(all, index as int, cancelled),
        decreases terms@.len() - index,
    {
        let mut count: usize = 1;
        while count < terms.len() - index && terms[index + count].same(&terms[index])
            invariant
                1 <= count <= terms@.len() - index,
                index < terms@.len(),
                all == views(terms@),
                run_length(all, index as int, index + 1) == run_length(
                    all,
                    index as int,
                    index + count,
                ),
            decreases terms@.len() - count,
        {
            assert(all[index + count] == terms@[index + count]@);
            assert(all[index as int] == terms@[index as int]@);
            count += 1;
        }
        proof {
            assert(all[index as int] == terms@[index as int]@);
            if index + count < terms@.len() {
                assert(all[index + count] == terms@[index + count]@);
            }
            assert(run_length(all, index as int, index + 1) == count);
            assert forall|i: int| index <= i < index + 1 implies all[i] == all[index as int] by {}
        }
        let term = &terms[index];
        let ghost before_reduced = views(reduced@);
        if count % 2 == 1 {
            let copy = term.clone();
            proof {
                lemma_views_push(reduced@, copy);
            }
            reduced.push(copy);
            assert(views(reduced@) =~= before_reduced + seq![term@]);
        } else {
            match term.expr_width() {
                Some(width) => {
                    cancelled = Some(width);
                },
                None => {
                    let copy = term.clone();
                    let copy2 = term.clone();
                    proof {
                        lemma_views_push(reduced@, copy);
                        lemma_views_push(reduced@.push(copy), copy2);
                    }
                    reduced.push(copy);
                    reduced.push(copy2);
                    assert(views(reduced@) =~= before_reduced + seq![term@, term@]);
                },
            }
        }
        index += count;
        assert(cancel_pairs(all, 0) =~= views(reduced@) + cancel_pairs(all, index as int));
    }
    assert(cancel_pairs(all, index as int) =~= Seq::empty());
    assert(views(reduced@) =~= cancel_pairs(all, 0));
    (reduced, cancelled)
}

/// The first expression is the complement of the second.
fn is_complement_of(outer: &Expr, inner: &Expr) -> (r: bool)
    ensures
        r == (outer@ == not_of(inner@)),
{
    match outer {
        Expr::Not(value) => value.same(inner),
        _ => false,
    }
}

/// Reports whether two of the terms are complements of each other.
pub(crate) fn any_complement(terms: &Vec<Expr>) -> (r: bool)
    ensures
        r == has_complement(views(terms@)),
{
    let ghost all = views(terms@);
    let mut i: usize = 0;
    while i < terms.len()
        invariant
            i <= terms@.len(),
            all == views(terms@),
            forall|a: int, b: int|
                0 <= a < i && a < b < terms@.len() ==> #[trigger] all[a] != not_of(
                    #[trigger] all[b],
                ) && all[b] != not_of(all[a]),
        decreases terms@.len() - i,
    {
        let mut j: usize = i + 1;
        while j < terms.len()
            invariant
                i < j <= terms@.len(),
                i < terms@.len(),
                all == views(terms@),
                forall|b: int|
                    i < b < j ==> all[i as int] != not_of(#[trigger] all[b]) && all[b] != not_of(
                        all[i as int],
                    ),
            decreases terms@.len() - j,
        {
            assert(all[i as int] == terms@[i as int]@);
            assert(all[j as int] == terms@[j as int]@);
            if is_complement_of(&terms[i], &terms[j]) || is_complement_of(&terms[j], &terms[i]) {
                return true;
            }
            j += 1;
        }
        i += 1;
    }
    false
}

/// The first known width among the terms.
pub(crate) fn first_known_width(terms: &Vec<Expr>) -> (r: Option<u16>)
    ensures
        r == first_width(views(terms@)),
{
    let ghost all = views(terms@);
    let mut found: Option<u16> = None;
    let mut i: usize = 0;
    assert(all.take(0) =~= Seq::empty());
    while i < terms.len()
        invariant
            i <= terms@.len(),
            all == views(terms@),
            found == first_width(all.take(i as int)),
        decreases terms@.len() - i,
    {
        proof {
            assert(all.take(i + 1).drop_last() =~= all.take(i as int));
            assert(all.take(i + 1).last() == terms@[i as int]@);
        }
        if found.is_none() {
            found = terms[i].expr_width();
        }
        i += 1;
    }
    assert(all.take(i as int) =~= all);
    found
}

/// Builds the tree over terms and a literal; `None` where there is nothing to build it of, or
/// where the literal has an invalid width.
pub(crate) fn attach_constant(op: AssocCommOp, terms: Vec<Expr>, folded: Option<(u128, u16)>) -> (r:
    Option<Expr>)
    ensures
        viewed_option(r) == with_constant(op, views(terms@), folded),
{
    assert(views(terms@).len() == terms@.len());
    let mut terms = terms;
    match folded {
        None => {
            if terms.len() == 0 {
                return None;
            }
            Some(rebuild_assoc_comm_op(op, terms))
        },
        Some((value, width)) => {
            if width == 0 || width > 128 {
                return None;
            }
            if is_assoc_comm_annihilator(op, value, width) {
                Some(const_bits(value, width))
            } else {
                if !is_assoc_comm_identity(op, value, width) || terms.len() == 0 {
                    let literal = const_bits(value, width);
                    proof {
                        lemma_views_push(terms@, literal);
                    }
                    terms.push(literal);
                }
                Some(rebuild_assoc_comm_op(op, terms))
            }
        },
    }
}

/// Combines canonical leaves: folds literals, sorts, removes repetitions, identities and
/// annihilators, and applies the complement laws.
pub(crate) fn combine_leaves(op: AssocCommOp, leaves: Vec<Expr>) -> (r: Option<Expr>)
    ensures
        viewed_option(r) == combine_terms(op, views(leaves@)),
{
    let (others, folded) = split_literals(op, leaves)?;
    let sorted = sort_by_key(others);
    let ghost sorted_views = views(sorted@);
    let mut folded = folded;
    let ghost literal = folded;
    let terms: Vec<Expr>;
    match op {
        AssocCommOp::And | AssocCommOp::Or => {
            terms = dedup_terms(sorted);
        },
        AssocCommOp::Xor => {
            let (rest, cancelled) = cancel_equal_pairs(&sorted, None);
            assert(views(rest@).len() == rest@.len());
            if folded.is_none() && rest.len() == 0 {
                if let Some(width) = cancelled {
                    folded = Some((0, width));
                }
            }
            terms = rest;
        },
        AssocCommOp::Add | AssocCommOp::Mul => {
            terms = sorted;
        },
    }
    assert(views(terms@) == reduced(op, sorted_views));
    assert(folded == reduced_constant(op, sorted_views, literal));
    if (op == AssocCommOp::And || op == AssocCommOp::Or) && any_complement(&terms) {
        let width = match first_known_width(&terms) {
            Some(width) => Some(width),
            None => match folded {
                Some((_, width)) => Some(width),
                None => None,
            },
        };
        if let Some(width) = width {
            if width == 0 || width > 128 {
                return None;
            }
            return match op {
                AssocCommOp::And => {
                    proof {
                        crate::const_eval::lemma_mask(width);
                        crate::const_eval::lemma_canonical_small(0, width);
                    }
                    Some(const_bits(0, width))
                },
                _ => {
                    proof {
                        crate::const_eval::lemma_mask(width);
                        crate::const_eval::lemma_canonical_small(mask(width), width);
                    }
                    Some(const_bits(bit_mask(width), width))
                },
            };
        }
    }
    attach_constant(op, terms, folded)
}

/// Merging a whole row of chunks merges each of its prefixes.
proof fn lemma_merge_prefix(chunks: Seq<ExprV>, k: int)
    requires
        0 <= k <= chunks.len(),
        merge_chunks(chunks) is Some,
    ensures
        merge_chunks(chunks.take(k)) is Some,
    decreases chunks.len(),
{
    if k == chunks.len() {
        assert(chunks.take(k) =~= chunks);
    } else {
        lemma_merge_prefix(chunks.drop_last(), k);
        assert(chunks.drop_last().take(k) =~= chunks.take(k));
    }
}

/// Rebuilds a concatenation while merging adjacent constant chunks.
///
/// Inputs must already have undergone the caller's recursive transform
/// (`collapse` or `canonicalize`). A single remaining chunk is returned
/// directly; an empty input remains an empty `Concat`. `None` where a constant
/// chunk has an invalid width or merged ones are too wide.
pub(crate) fn rebuild_concat(values: Vec<Expr>) -> (r: Option<Expr>)
    ensures
        viewed_option(r) == joined(views(values@)),
{
    let ghost all = views(values@);
    let mut rest = values;
    let mut merged: Vec<Expr> = Vec::new();
    let ghost mut k: int = 0;
    assert(all.skip(0) =~= all);
    assert(all.take(0) =~= Seq::empty());
    assert(views(merged@) =~= Seq::empty());
    while rest.len() > 0
        invariant
            0 <= k <= all.len(),
            views(rest@) == all.skip(k),
            all == views(values@),
            merge_chunks(all.take(k)) == Some(views(merged@)),
        decreases rest@.len(),
    {
        proof {
            assert(views(rest@).len() == rest@.len());
            assert(views(merged@).len() == merged@.len());
            lemma_views_rest(rest@);
            assert(all.take(k + 1).drop_last() =~= all.take(k));
            assert(all.take(k + 1).last() == all[k]);
            assert(all.skip(k).drop_first() =~= all.skip(k + 1));
            if merge_chunks(all) is Some {
                lemma_merge_prefix(all, k + 1);
            }
        }
        let value = rest.remove(0);
        let ghost before = views(merged@);
        let next = match value {
            Expr::Const { value, width } => {
                if width == 0 || width > 128 {
                    return None;
                }
                let mut literal: Option<(u128, u16)> = None;
                if merged.len() > 0 {
                    assert(before.last() == merged@[merged@.len() - 1]@);
                    if let Expr::Const { value: above, width: above_width } = merged[merged.len()
                        - 1] {
                        literal = Some((above, above_width));
                    }
                }
                match literal {
                    Some((above, above_width)) => {
                        if above_width == 0 || above_width > 128 - width {
                            return None;
                        }
                        let total: u16 = above_width + width;
                        let word = (canonical_word(above, above_width) << width) | canonical_word(
                            value,
                            width,
                        );
                        assert(views(merged@.drop_last()) =~= before.drop_last());
                        merged.pop();
                        constant(canonical_word(word, total), total)
                    },
                    None => const_bits(value, width),
                }
            },
            value => value,
        };
        proof {
            lemma_views_push(merged@, next);
        }
        merged.push(next);
        proof {
            k = k + 1;
        }
    }
    assert(views(rest@).len() == 0);
    assert(all.take(k) =~= all);
    assert(views(merged@).len() == merged@.len());
    if merged.len() == 1 {
        assert(views(merged@)[0] == merged@[0]@);
        Some(merged.remove(0))
    } else {
        Some(Expr::Concat(merged))
    }
}

} // verus!
