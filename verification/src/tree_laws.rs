//! What trees of one operator mean, and why reordering and reducing their terms keeps it.
use vstd::prelude::*;

use crate::canonical_form::{
    cancel_pairs, cancelled_width, combine_terms, dedup, first_width, flatten, flatten_all,
    has_complement, insert_by_key, known, known_width, lit, node, not_of, rebuild, reduced,
    reduced_constant, run_length, sorted_by_key, unknowns, with_constant,
};
use crate::const_eval::{
    canonical, combine, is_annihilator, is_identity, mask, valid_width, AssocCommOp,
};
use crate::evaluation::{assoc_word, eval, lemma_eval_is_word, lemma_eval_width, State, Word};
use crate::expr_shape::{key_le, width_of};
use crate::instruction_semantics::ExprV;
use crate::terms::lemma_run;
use crate::word_laws::{
    fits, lemma_combine_annihilator, lemma_combine_boolean, lemma_combine_fits,
    lemma_combine_monoid, lemma_combine_unit, lemma_fits, unit,
};

verus! {

/// The expression has a word of the width.
pub open spec fn has_width(expr: ExprV, state: State, width: u16) -> bool {
    eval(expr, state) is Some && eval(expr, state)->0.width == width
}

/// The number that an expression with a word has.
pub open spec fn value_of(expr: ExprV, state: State) -> u128 {
    eval(expr, state)->0.value
}

/// All terms have words of the width.
pub open spec fn all_width(terms: Seq<ExprV>, state: State, width: u16) -> bool {
    forall|i: int| 0 <= i < terms.len() ==> has_width(#[trigger] terms[i], state, width)
}

/// What an operator makes of the words of all terms.
pub open spec fn total(op: AssocCommOp, terms: Seq<ExprV>, state: State, width: u16) -> u128
    decreases terms.len(),
{
    if terms.len() == 0 {
        unit(op, width)
    } else {
        combine(
            op,
            total(op, terms.drop_last(), state, width),
            value_of(terms.last(), state),
            width,
        )
    }
}

/// The number of an expression fits its width.
pub proof fn lemma_value_fits(expr: ExprV, state: State, width: u16)
    requires
        has_width(expr, state, width),
    ensures
        fits(value_of(expr, state), width),
        eval(expr, state) == Some(Word { value: value_of(expr, state), width }),
{
    lemma_eval_is_word(expr, state);
}

/// All terms but the last, and the last one, have words of the width.
proof fn lemma_all_width_parts(terms: Seq<ExprV>, state: State, width: u16)
    requires
        all_width(terms, state, width),
        terms.len() > 0,
    ensures
        all_width(terms.drop_last(), state, width),
        has_width(terms.last(), state, width),
        fits(value_of(terms.last(), state), width),
{
    assert(has_width(terms[terms.len() - 1], state, width));
    lemma_value_fits(terms.last(), state, width);
    assert forall|i: int| 0 <= i < terms.drop_last().len() implies has_width(
        #[trigger] terms.drop_last()[i],
        state,
        width,
    ) by {
        assert(terms.drop_last()[i] == terms[i]);
    }
}

/// The total of terms fits their width.
pub proof fn lemma_total_fits(op: AssocCommOp, terms: Seq<ExprV>, state: State, width: u16)
    requires
        all_width(terms, state, width),
        valid_width(width),
    ensures
        fits(total(op, terms, state, width), width),
    decreases terms.len(),
{
    lemma_fits(0, width);
    if terms.len() > 0 {
        lemma_all_width_parts(terms, state, width);
        lemma_total_fits(op, terms.drop_last(), state, width);
        lemma_combine_fits(
            op,
            total(op, terms.drop_last(), state, width),
            value_of(terms.last(), state),
            width,
        );
    }
}

/// One more term.
pub proof fn lemma_total_push(
    op: AssocCommOp,
    terms: Seq<ExprV>,
    term: ExprV,
    state: State,
    width: u16,
)
    requires
        all_width(terms, state, width),
        has_width(term, state, width),
        valid_width(width),
    ensures
        all_width(terms.push(term), state, width),
        total(op, terms.push(term), state, width) == combine(
            op,
            total(op, terms, state, width),
            value_of(term, state),
            width,
        ),
{
    assert(terms.push(term).drop_last() =~= terms);
}

/// The total of two rows is the total of their totals.
pub proof fn lemma_total_concat(
    op: AssocCommOp,
    a: Seq<ExprV>,
    b: Seq<ExprV>,
    state: State,
    width: u16,
)
    requires
        all_width(a, state, width),
        all_width(b, state, width),
        valid_width(width),
    ensures
        all_width(a + b, state, width),
        total(op, a + b, state, width) == combine(
            op,
            total(op, a, state, width),
            total(op, b, state, width),
            width,
        ),
    decreases b.len(),
{
    lemma_total_fits(op, a, state, width);
    if b.len() == 0 {
        assert(a + b =~= a);
        lemma_combine_unit(op, total(op, a, state, width), width);
    } else {
        lemma_all_width_parts(b, state, width);
        lemma_total_concat(op, a, b.drop_last(), state, width);
        assert((a + b).drop_last() =~= a + b.drop_last());
        assert((a + b).last() == b.last());
        lemma_total_fits(op, b.drop_last(), state, width);
        lemma_combine_monoid(
            op,
            total(op, a, state, width),
            total(op, b.drop_last(), state, width),
            value_of(b.last(), state),
            width,
        );
    }
}

/// A single term is its own total.
proof fn lemma_total_single(op: AssocCommOp, term: ExprV, state: State, width: u16)
    requires
        has_width(term, state, width),
    ensures
        all_width(seq![term], state, width),
        total(op, seq![term], state, width) == value_of(term, state),
{
    lemma_value_fits(term, state, width);
    reveal_with_fuel(total, 2);
    assert(seq![term].drop_last() =~= Seq::empty());
    lemma_combine_unit(op, value_of(term, state), width);
}

/// A node means its operator on its parts.
pub proof fn lemma_node(op: AssocCommOp, lhs: ExprV, rhs: ExprV, state: State)
    ensures
        eval(node(op, lhs, rhs), state) == assoc_word(op, eval(lhs, state), eval(rhs, state)),
{
}

/// A tree means the total of its leaves.
pub proof fn lemma_flatten(op: AssocCommOp, expr: ExprV, state: State, width: u16)
    requires
        has_width(expr, state, width),
    ensures
        all_width(flatten(op, expr), state, width),
        total(op, flatten(op, expr), state, width) == value_of(expr, state),
    decreases expr,
{
    lemma_value_fits(expr, state, width);
    match (op, expr) {
        (AssocCommOp::Add, ExprV::Add(lhs, rhs))
        | (AssocCommOp::Mul, ExprV::Mul(lhs, rhs))
        | (AssocCommOp::And, ExprV::And(lhs, rhs))
        | (AssocCommOp::Or, ExprV::Or(lhs, rhs))
        | (AssocCommOp::Xor, ExprV::Xor(lhs, rhs)) => {
            assert(eval(expr, state) == assoc_word(op, eval(*lhs, state), eval(*rhs, state)));
            assert(has_width(*lhs, state, width) && has_width(*rhs, state, width));
            lemma_flatten(op, *lhs, state, width);
            lemma_flatten(op, *rhs, state, width);
            lemma_total_concat(op, flatten(op, *lhs), flatten(op, *rhs), state, width);
            lemma_value_fits(*lhs, state, width);
            lemma_value_fits(*rhs, state, width);
            lemma_combine_fits(op, value_of(*lhs, state), value_of(*rhs, state), width);
        },
        _ => {
            assert(flatten(op, expr) == seq![expr]);
            lemma_total_single(op, expr, state, width);
        },
    }
}

/// Several trees mean the total of all their leaves.
pub proof fn lemma_flatten_all(op: AssocCommOp, exprs: Seq<ExprV>, state: State, width: u16)
    requires
        all_width(exprs, state, width),
        valid_width(width),
    ensures
        all_width(flatten_all(op, exprs), state, width),
        total(op, flatten_all(op, exprs), state, width) == total(op, exprs, state, width),
    decreases exprs.len(),
{
    if exprs.len() > 0 {
        lemma_all_width_parts(exprs, state, width);
        lemma_flatten_all(op, exprs.drop_last(), state, width);
        lemma_flatten(op, exprs.last(), state, width);
        lemma_total_concat(
            op,
            flatten_all(op, exprs.drop_last()),
            flatten(op, exprs.last()),
            state,
            width,
        );
    }
}

/// The tree over terms means their total.
pub proof fn lemma_rebuild(op: AssocCommOp, terms: Seq<ExprV>, state: State, width: u16)
    requires
        all_width(terms, state, width),
        terms.len() > 0,
    ensures
        eval(rebuild(op, terms), state) == Some(
            Word { value: total(op, terms, state, width), width },
        ),
    decreases terms.len(),
{
    lemma_all_width_parts(terms, state, width);
    lemma_value_fits(terms.last(), state, width);
    if terms.len() == 1 {
        assert(terms =~= seq![terms[0]]);
        lemma_total_single(op, terms[0], state, width);
    } else {
        lemma_rebuild(op, terms.drop_last(), state, width);
        lemma_node(op, rebuild(op, terms.drop_last()), terms.last(), state);
        lemma_total_fits(op, terms.drop_last(), state, width);
        lemma_total_fits(op, terms, state, width);
    }
}

/// Literals split off: the total is that of the unknown terms with the combined literal.
pub proof fn lemma_literals(op: AssocCommOp, terms: Seq<ExprV>, state: State, width: u16)
    requires
        all_width(terms, state, width),
        valid_width(width),
        known(op, terms) is Some,
    ensures
        all_width(unknowns(terms), state, width),
        known(op, terms)->0 is None ==> total(op, unknowns(terms), state, width) == total(
            op,
            terms,
            state,
            width,
        ),
        known(op, terms)->0 matches Some((value, literal_width)) ==> literal_width == width && fits(
            value,
            width,
        ) && combine(op, total(op, unknowns(terms), state, width), value, width) == total(
            op,
            terms,
            state,
            width,
        ),
    decreases terms.len(),
{
    if terms.len() > 0 {
        let front = terms.drop_last();
        let last = terms.last();
        lemma_all_width_parts(terms, state, width);
        lemma_literals(op, front, state, width);
        lemma_total_fits(op, unknowns(front), state, width);
        lemma_value_fits(last, state, width);
        let sum = total(op, unknowns(front), state, width);
        let v = value_of(last, state);
        if last is Const {
            assert(v == canonical(last->Const_value, width));
            match known(op, front)->0 {
                None => {},
                Some((acc, _)) => {
                    lemma_combine_monoid(op, sum, acc, v, width);
                    lemma_combine_fits(op, acc, v, width);
                },
            }
        } else {
            lemma_total_push(op, unknowns(front), last, state, width);
            match known(op, front)->0 {
                None => {},
                Some((acc, _)) => {
                    lemma_combine_monoid(op, sum, acc, v, width);
                    lemma_combine_monoid(op, acc, v, v, width);
                    lemma_combine_monoid(op, sum, v, acc, width);
                },
            }
        }
    }
}

/// A term put in its place adds to the total.
proof fn lemma_insert(
    op: AssocCommOp,
    sorted: Seq<ExprV>,
    term: ExprV,
    state: State,
    width: u16,
)
    requires
        all_width(sorted, state, width),
        has_width(term, state, width),
        valid_width(width),
    ensures
        all_width(insert_by_key(sorted, term), state, width),
        total(op, insert_by_key(sorted, term), state, width) == combine(
            op,
            total(op, sorted, state, width),
            value_of(term, state),
            width,
        ),
    decreases sorted.len(),
{
    if sorted.len() == 0 || key_le(sorted.last(), term) {
        lemma_total_push(op, sorted, term, state, width);
    } else {
        lemma_all_width_parts(sorted, state, width);
        lemma_insert(op, sorted.drop_last(), term, state, width);
        lemma_total_push(
            op,
            insert_by_key(sorted.drop_last(), term),
            sorted.last(),
            state,
            width,
        );
        let front = total(op, sorted.drop_last(), state, width);
        let v = value_of(term, state);
        let l = value_of(sorted.last(), state);
        lemma_total_fits(op, sorted.drop_last(), state, width);
        lemma_value_fits(term, state, width);
        lemma_combine_monoid(op, front, v, l, width);
        lemma_combine_monoid(op, v, l, l, width);
        lemma_combine_monoid(op, front, l, v, width);
    }
}

/// Sorting keeps the total.
pub proof fn lemma_sorted(op: AssocCommOp, terms: Seq<ExprV>, state: State, width: u16)
    requires
        all_width(terms, state, width),
        valid_width(width),
    ensures
        all_width(sorted_by_key(terms), state, width),
        total(op, sorted_by_key(terms), state, width) == total(op, terms, state, width),
    decreases terms.len(),
{
    if terms.len() > 0 {
        lemma_all_width_parts(terms, state, width);
        lemma_sorted(op, terms.drop_last(), state, width);
        lemma_insert(op, sorted_by_key(terms.drop_last()), terms.last(), state, width);
    }
}

/// A repeated term adds nothing to a conjunction or a disjunction.
pub proof fn lemma_dedup(op: AssocCommOp, terms: Seq<ExprV>, state: State, width: u16)
    requires
        all_width(terms, state, width),
        valid_width(width),
        op == AssocCommOp::And || op == AssocCommOp::Or,
    ensures
        all_width(dedup(terms), state, width),
        total(op, dedup(terms), state, width) == total(op, terms, state, width),
    decreases terms.len(),
{
    if terms.len() > 1 {
        let front = terms.drop_last();
        lemma_all_width_parts(terms, state, width);
        lemma_all_width_parts(front, state, width);
        lemma_dedup(op, front, state, width);
        if terms.last() == terms[terms.len() - 2] {
            let before = total(op, front.drop_last(), state, width);
            let v = value_of(terms.last(), state);
            assert(front.last() == terms.last());
            lemma_total_fits(op, front.drop_last(), state, width);
            lemma_combine_monoid(op, before, v, v, width);
            lemma_combine_boolean(op, v, v, width);
        } else {
            lemma_total_push(op, dedup(front), terms.last(), state, width);
        }
    }
}

/// Equal terms make an exclusive disjunction of one of them or of none.
proof fn lemma_run_total(terms: Seq<ExprV>, start: int, end: int, state: State, width: u16)
    requires
        0 <= start < end <= terms.len(),
        all_width(terms, state, width),
        valid_width(width),
        forall|i: int| start <= i < end ==> #[trigger] terms[i] == terms[start],
    ensures
        all_width(terms.subrange(start, end), state, width),
        total(AssocCommOp::Xor, terms.subrange(start, end), state, width) == if (end - start) % 2
            == 1 {
            value_of(terms[start], state)
        } else {
            0
        },
    decreases end - start,
{
    let op = AssocCommOp::Xor;
    let row = terms.subrange(start, end);
    let v = value_of(terms[start], state);
    assert(has_width(terms[start], state, width));
    lemma_value_fits(terms[start], state, width);
    lemma_combine_unit(op, v, width);
    lemma_combine_boolean(op, v, v, width);
    assert(row.last() == terms[end - 1]);
    if end == start + 1 {
        assert(row =~= seq![terms[start]]);
        lemma_total_single(op, terms[start], state, width);
    } else {
        lemma_run_total(terms, start, end - 1, state, width);
        assert(row.drop_last() =~= terms.subrange(start, end - 1));
        assert forall|i: int| 0 <= i < row.len() implies has_width(
            #[trigger] row[i],
            state,
            width,
        ) by {
            assert(row[i] == terms[start + i]);
        }
    }
}

/// A term in front of a row adds to the total, and two equal terms add nothing.
proof fn lemma_run_in_front(term: ExprV, rest: Seq<ExprV>, state: State, width: u16)
    requires
        has_width(term, state, width),
        all_width(rest, state, width),
        valid_width(width),
    ensures
        all_width(seq![term] + rest, state, width),
        total(AssocCommOp::Xor, seq![term] + rest, state, width) == combine(
            AssocCommOp::Xor,
            value_of(term, state),
            total(AssocCommOp::Xor, rest, state, width),
            width,
        ),
        all_width(seq![term, term] + rest, state, width),
        total(AssocCommOp::Xor, seq![term, term] + rest, state, width) == total(
            AssocCommOp::Xor,
            rest,
            state,
            width,
        ),
        combine(AssocCommOp::Xor, 0, total(AssocCommOp::Xor, rest, state, width), width) == total(
            AssocCommOp::Xor,
            rest,
            state,
            width,
        ),
{
    let op = AssocCommOp::Xor;
    let v = value_of(term, state);
    lemma_value_fits(term, state, width);
    lemma_total_single(op, term, state, width);
    lemma_total_fits(op, rest, state, width);
    lemma_combine_unit(op, total(op, rest, state, width), width);
    lemma_total_concat(op, seq![term], rest, state, width);
    let pair = seq![term, term];
    assert(pair.drop_last() =~= seq![term]);
    assert(all_width(pair, state, width));
    lemma_combine_boolean(op, v, v, width);
    lemma_total_concat(op, pair, rest, state, width);
}

/// The row behind a place keeps its widths.
proof fn lemma_all_width_skip(terms: Seq<ExprV>, n: int, state: State, width: u16)
    requires
        0 <= n <= terms.len(),
        all_width(terms, state, width),
    ensures
        all_width(terms.skip(n), state, width),
{
    assert forall|i: int| 0 <= i < terms.skip(n).len() implies has_width(
        #[trigger] terms.skip(n)[i],
        state,
        width,
    ) by {
        assert(terms.skip(n)[i] == terms[n + i]);
    }
}

/// Pairs of equal terms cancel in an exclusive disjunction.
#[verifier::spinoff_prover]
proof fn lemma_cancel(terms: Seq<ExprV>, start: int, state: State, width: u16)
    requires
        0 <= start <= terms.len(),
        all_width(terms, state, width),
        valid_width(width),
    ensures
        all_width(cancel_pairs(terms, start), state, width),
        total(AssocCommOp::Xor, cancel_pairs(terms, start), state, width) == total(
            AssocCommOp::Xor,
            terms.skip(start),
            state,
            width,
        ),
    decreases terms.len() - start,
{
    let op = AssocCommOp::Xor;
    if start == terms.len() {
        assert(terms.skip(start) =~= Seq::empty());
    } else {
        let end = lemma_next_run(terms, start);
        lemma_cancel(terms, end, state, width);
        let (run, behind) = (terms.subrange(start, end), terms.skip(end));
        let (first, left) = (terms[start], cancel_pairs(terms, end));
        assert(has_width(first, state, width));
        lemma_run_total(terms, start, end, state, width);
        lemma_all_width_skip(terms, end, state, width);
        assert(total(op, terms.skip(start), state, width) == combine(
            op,
            total(op, run, state, width),
            total(op, left, state, width),
            width,
        )) by {
            lemma_total_concat(op, run, behind, state, width);
        }
        lemma_run_in_front(first, left, state, width);
        if (end - start) % 2 == 1 {
            assert(cancel_pairs(terms, start) == seq![first] + left);
        } else if width_of(first) is Some {
            assert(cancel_pairs(terms, start) == left);
        } else {
            assert(cancel_pairs(terms, start) == seq![first, first] + left);
        }
    }
}

/// Where the run of equal terms from a place on ends, and what cancelling makes of it.
proof fn lemma_next_run(terms: Seq<ExprV>, start: int) -> (end: int)
    requires
        0 <= start < terms.len(),
    ensures
        start < end <= terms.len(),
        forall|i: int| start <= i < end ==> #[trigger] terms[i] == terms[start],
        terms.skip(start) == terms.subrange(start, end) + terms.skip(end),
        cancel_pairs(terms, start) == if (end - start) % 2 == 1 {
            seq![terms[start]] + cancel_pairs(terms, end)
        } else if width_of(terms[start]) is Some {
            cancel_pairs(terms, end)
        } else {
            seq![terms[start], terms[start]] + cancel_pairs(terms, end)
        },
{
    let run = run_length(terms, start, start + 1);
    lemma_run(terms, start, start + 1);
    let end = start + run;
    assert(terms.skip(start) =~= terms.subrange(start, end) + terms.skip(end));
    end
}

/// The width of a cancelled pair is the width of the terms.
pub(crate) proof fn lemma_cancelled_width(
    terms: Seq<ExprV>,
    start: int,
    before: Option<u16>,
    state: State,
    width: u16,
)
    requires
        0 <= start <= terms.len(),
        all_width(terms, state, width),
        before is Some ==> before->0 == width,
    ensures
        cancelled_width(terms, start, before) matches Some(w) ==> w == width,
    decreases terms.len() - start,
{
    if start < terms.len() {
        let run = run_length(terms, start, start + 1);
        assert(has_width(terms[start], state, width));
        if width_of(terms[start]) is Some {
            lemma_eval_width(terms[start], state);
        }
        let here = if run % 2 != 1 && width_of(terms[start]) is Some {
            width_of(terms[start])
        } else {
            before
        };
        if 1 <= run <= terms.len() - start {
            lemma_cancelled_width(terms, start + run, here, state, width);
        }
    }
}

/// A known width among the terms is the width of all.
pub(crate) proof fn lemma_first_width(terms: Seq<ExprV>, state: State, width: u16)
    requires
        all_width(terms, state, width),
    ensures
        first_width(terms) matches Some(w) ==> w == width,
    decreases terms.len(),
{
    if terms.len() > 0 {
        lemma_all_width_parts(terms, state, width);
        lemma_first_width(terms.drop_last(), state, width);
        if width_of(terms.last()) is Some {
            lemma_eval_width(terms.last(), state);
        }
    }
}

/// A term of a conjunction or disjunction adds nothing to the total when it is added again.
pub proof fn lemma_member(
    op: AssocCommOp,
    terms: Seq<ExprV>,
    i: int,
    state: State,
    width: u16,
)
    requires
        0 <= i < terms.len(),
        all_width(terms, state, width),
        valid_width(width),
        op == AssocCommOp::And || op == AssocCommOp::Or,
    ensures
        combine(op, total(op, terms, state, width), value_of(terms[i], state), width) == total(
            op,
            terms,
            state,
            width,
        ),
    decreases terms.len(),
{
    let front = terms.drop_last();
    let sum = total(op, front, state, width);
    let l = value_of(terms.last(), state);
    let v = value_of(terms[i], state);
    assert(has_width(terms[i], state, width));
    lemma_value_fits(terms[i], state, width);
    lemma_all_width_parts(terms, state, width);
    lemma_total_fits(op, front, state, width);
    if i == terms.len() - 1 {
        lemma_combine_monoid(op, sum, l, l, width);
        lemma_combine_boolean(op, l, l, width);
    } else {
        lemma_member(op, front, i, state, width);
        assert(front[i] == terms[i]);
        lemma_combine_monoid(op, sum, l, v, width);
        lemma_combine_monoid(op, l, v, v, width);
        lemma_combine_monoid(op, sum, v, l, width);
    }
}

/// A term and its complement determine a conjunction or a disjunction.
proof fn lemma_complement(op: AssocCommOp, terms: Seq<ExprV>, state: State, width: u16)
    requires
        all_width(terms, state, width),
        valid_width(width),
        op == AssocCommOp::And || op == AssocCommOp::Or,
        has_complement(terms),
    ensures
        total(op, terms, state, width) == if op == AssocCommOp::And {
            0
        } else {
            mask(width)
        },
{
    let (i, j) = choose|i: int, j: int|
        0 <= i < j < terms.len() && (#[trigger] terms[i] == not_of(#[trigger] terms[j]) || terms[j]
            == not_of(terms[i]));
    let (plain, inverted) = if terms[i] == not_of(terms[j]) {
        (j, i)
    } else {
        (i, j)
    };
    let sum = total(op, terms, state, width);
    let a = value_of(terms[plain], state);
    let b = value_of(terms[inverted], state);
    assert(has_width(terms[plain], state, width) && has_width(terms[inverted], state, width));
    lemma_value_fits(terms[plain], state, width);
    lemma_value_fits(terms[inverted], state, width);
    assert(b == canonical(!a, width));
    lemma_member(op, terms, plain, state, width);
    lemma_member(op, terms, inverted, state, width);
    lemma_total_fits(op, terms, state, width);
    lemma_combine_monoid(op, sum, a, b, width);
    lemma_combine_boolean(op, a, b, width);
    lemma_fits(0, width);
    lemma_combine_annihilator(op, sum, combine(op, a, b, width), width);
}

/// The tree over terms and a literal means their total.
pub proof fn lemma_with_constant(
    op: AssocCommOp,
    terms: Seq<ExprV>,
    constant: Option<(u128, u16)>,
    state: State,
    width: u16,
    sum: u128,
)
    requires
        all_width(terms, state, width),
        valid_width(width),
        with_constant(op, terms, constant) is Some,
        constant is None ==> sum == total(op, terms, state, width),
        constant matches Some((value, literal_width)) ==> literal_width == width && fits(
            value,
            width,
        ) && sum == combine(op, total(op, terms, state, width), value, width),
    ensures
        eval(with_constant(op, terms, constant)->0, state) == Some(Word { value: sum, width }),
{
    lemma_total_fits(op, terms, state, width);
    match constant {
        None => {
            lemma_rebuild(op, terms, state, width);
        },
        Some((value, _)) => {
            let literal = lit(canonical(value, width), width);
            assert(eval(literal, state) == Some(Word { value, width }));
            lemma_combine_unit(op, total(op, terms, state, width), width);
            lemma_combine_unit(op, value, width);
            if is_annihilator(op, value, width) {
                lemma_combine_annihilator(op, total(op, terms, state, width), value, width);
            } else if is_identity(op, value, width) && terms.len() > 0 {
                lemma_rebuild(op, terms, state, width);
            } else {
                lemma_total_push(op, terms, literal, state, width);
                lemma_rebuild(op, terms.push(literal), state, width);
            }
        },
    }
}

/// The tree that an operator makes of leaves means their total.
pub proof fn lemma_combine_terms(op: AssocCommOp, leaves: Seq<ExprV>, state: State, width: u16)
    requires
        all_width(leaves, state, width),
        valid_width(width),
        combine_terms(op, leaves) is Some,
    ensures
        eval(combine_terms(op, leaves)->0, state) == Some(
            Word { value: total(op, leaves, state, width), width },
        ),
{
    let sum = total(op, leaves, state, width);
    let literal = known(op, leaves)->0;
    let sorted = sorted_by_key(unknowns(leaves));
    let terms = reduced(op, sorted);
    let constant = reduced_constant(op, sorted, literal);
    lemma_literals(op, leaves, state, width);
    lemma_sorted(op, unknowns(leaves), state, width);
    match op {
        AssocCommOp::And | AssocCommOp::Or => {
            lemma_dedup(op, sorted, state, width);
        },
        AssocCommOp::Xor => {
            lemma_cancel(sorted, 0, state, width);
            assert(sorted.skip(0) =~= sorted);
            lemma_cancelled_width(sorted, 0, None, state, width);
        },
        _ => {},
    }
    assert(total(op, terms, state, width) == total(op, unknowns(leaves), state, width));
    lemma_total_fits(op, terms, state, width);
    lemma_first_width(terms, state, width);
    if constant != literal {
        lemma_combine_unit(op, total(op, terms, state, width), width);
        lemma_fits(0, width);
    }
    let decided = (op == AssocCommOp::And || op == AssocCommOp::Or) && has_complement(terms) && (
    first_width(terms) is Some || known_width(constant) is Some);
    if decided {
        lemma_complement(op, terms, state, width);
        lemma_fits(0, width);
        match constant {
            None => {},
            Some((value, _)) => {
                let t = total(op, terms, state, width);
                lemma_combine_monoid(op, t, value, value, width);
                lemma_combine_annihilator(op, value, t, width);
            },
        }
    } else {
        lemma_with_constant(op, terms, constant, state, width, sum);
    }
}

} // verus!
