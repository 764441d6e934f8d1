//! Canonical forms weigh no more than what they are made of, so that no rewriting step is cut
//! short: an expression has no canonical form only where a width is at fault.
use vstd::arithmetic::mul::{
    lemma_mul_inequality, lemma_mul_is_associative, lemma_mul_is_commutative,
};
use vstd::prelude::*;

use crate::canonical_form::{
    below, cancel_pairs, canon, canon_all, canon_assoc, combine_terms, dedup, doubled, first_width,
    flatten, flatten_all, has_complement, insert_by_key, kept, known, known_width, leaf_weight, lit,
    lower_step, merge_chunks, mul_step, node, not_of, rebuild, reduced, reduced_constant,
    run_length, select_step, settle, shifted_sum, sorted_by_key, sub_step, sum_of, unabsorbed,
    unknowns, weight, weights, Step,
};
use crate::const_eval::{canonical, AssocCommOp};
use crate::expr_shape::{key_le, width_of};
use crate::expr_weight::{lemma_weight_children, lemma_weight_positive, lemma_weights_part};
use crate::instruction_semantics::ExprV;
use crate::terms::lemma_run;

verus! {

/// The operator multiplies the weights of its operands.
pub open spec fn multiplies(op: AssocCommOp) -> bool {
    op == AssocCommOp::Mul || op == AssocCommOp::Xor
}

/// What the node of an operator that adds weights weighs itself.
pub open spec fn node_weight(op: AssocCommOp) -> nat {
    if op == AssocCommOp::Or {
        6
    } else {
        1
    }
}

/// What an operand counts below a node of the operator.
pub open spec fn item(op: AssocCommOp, expr: ExprV) -> nat {
    if multiplies(op) {
        weight(expr)
    } else {
        weight(expr) + node_weight(op)
    }
}

/// What two counts make together.
pub open spec fn both(op: AssocCommOp, a: nat, b: nat) -> nat {
    if multiplies(op) {
        a * b
    } else {
        a + b
    }
}

/// What a row of operands counts.
pub open spec fn measure(op: AssocCommOp, terms: Seq<ExprV>) -> nat
    decreases terms.len(),
{
    if terms.len() == 0 {
        if multiplies(op) {
            1
        } else {
            0
        }
    } else {
        both(op, measure(op, terms.drop_last()), item(op, terms.last()))
    }
}

/// Counts make a commutative monoid in which nothing gets smaller.
pub(crate) proof fn lemma_both(op: AssocCommOp, a: nat, b: nat, c: nat)
    ensures
        both(op, a, b) == both(op, b, a),
        both(op, both(op, a, b), c) == both(op, a, both(op, b, c)),
        a >= 1 && b >= 1 ==> both(op, a, b) >= a && both(op, a, b) >= b,
        a <= b ==> both(op, a, c) <= both(op, b, c) && both(op, c, a) <= both(op, c, b),
        multiplies(op) ==> both(op, 1, a) == a && both(op, a, 1) == a,
        !multiplies(op) ==> both(op, 0, a) == a && both(op, a, 0) == a,
{
    lemma_mul_is_commutative(a as int, b as int);
    lemma_mul_is_associative(a as int, b as int, c as int);
    if a >= 1 && b >= 1 {
        assert(a * b >= a && a * b >= b) by (nonlinear_arith)
            requires
                a >= 1,
                b >= 1,
        ;
    }
    if a <= b {
        lemma_mul_inequality(a as int, b as int, c as int);
        lemma_mul_is_commutative(a as int, c as int);
        lemma_mul_is_commutative(b as int, c as int);
    }
}

/// Every operand counts at least as much as one without parts.
proof fn lemma_item(op: AssocCommOp, expr: ExprV)
    ensures
        item(op, expr) >= leaf_weight(),
        expr is Const ==> forall|other: ExprV| item(op, expr) <= #[trigger] item(op, other),
{
    lemma_weight_positive(expr);
    assert forall|other: ExprV| expr is Const implies item(op, expr) <= #[trigger] item(
        op,
        other,
    ) by {
        lemma_weight_positive(other);
    }
}

/// A node counts what its operands count together.
pub(crate) proof fn lemma_item_node(op: AssocCommOp, lhs: ExprV, rhs: ExprV)
    ensures
        item(op, node(op, lhs, rhs)) == both(op, item(op, lhs), item(op, rhs)),
{
}

proof fn lemma_measure_positive(op: AssocCommOp, terms: Seq<ExprV>)
    ensures
        multiplies(op) ==> measure(op, terms) >= 1,
        terms.len() > 0 ==> measure(op, terms) >= leaf_weight(),
    decreases terms.len(),
{
    if terms.len() > 0 {
        let front = terms.drop_last();
        lemma_measure_positive(op, front);
        lemma_item(op, terms.last());
        lemma_both(op, measure(op, front), item(op, terms.last()), 0);
    }
}

proof fn lemma_measure_concat(op: AssocCommOp, a: Seq<ExprV>, b: Seq<ExprV>)
    ensures
        measure(op, a + b) == both(op, measure(op, a), measure(op, b)),
    decreases b.len(),
{
    if b.len() == 0 {
        assert(a + b =~= a);
        lemma_both(op, measure(op, a), 0, 0);
    } else {
        assert((a + b).drop_last() =~= a + b.drop_last());
        assert((a + b).last() == b.last());
        lemma_measure_concat(op, a, b.drop_last());
        lemma_both(op, measure(op, a), measure(op, b.drop_last()), item(op, b.last()));
    }
}

proof fn lemma_measure_single(op: AssocCommOp, term: ExprV)
    ensures
        measure(op, seq![term]) == item(op, term),
{
    reveal_with_fuel(measure, 2);
    assert(seq![term].drop_last() =~= Seq::empty());
    lemma_both(op, item(op, term), 0, 0);
}

proof fn lemma_measure_push(op: AssocCommOp, terms: Seq<ExprV>, term: ExprV)
    ensures
        measure(op, terms.push(term)) == both(op, measure(op, terms), item(op, term)),
        measure(op, terms) <= measure(op, terms.push(term)),
{
    assert(terms.push(term).drop_last() =~= terms);
    lemma_measure_positive(op, terms);
    lemma_item(op, term);
    lemma_both(op, measure(op, terms), item(op, term), 0);
}

/// A tree counts what its leaves count.
pub(crate) proof fn lemma_measure_flatten(op: AssocCommOp, expr: ExprV)
    ensures
        measure(op, flatten(op, expr)) == item(op, expr),
    decreases expr,
{
    match (op, expr) {
        (AssocCommOp::Add, ExprV::Add(lhs, rhs))
        | (AssocCommOp::Mul, ExprV::Mul(lhs, rhs))
        | (AssocCommOp::And, ExprV::And(lhs, rhs))
        | (AssocCommOp::Or, ExprV::Or(lhs, rhs))
        | (AssocCommOp::Xor, ExprV::Xor(lhs, rhs)) => {
            lemma_measure_flatten(op, *lhs);
            lemma_measure_flatten(op, *rhs);
            lemma_measure_concat(op, flatten(op, *lhs), flatten(op, *rhs));
            assert(expr == node(op, *lhs, *rhs));
            lemma_item_node(op, *lhs, *rhs);
        },
        _ => {
            assert(flatten(op, expr) == seq![expr]);
            lemma_measure_single(op, expr);
        },
    }
}

proof fn lemma_measure_flatten_all(op: AssocCommOp, exprs: Seq<ExprV>)
    ensures
        measure(op, flatten_all(op, exprs)) == measure(op, exprs),
    decreases exprs.len(),
{
    if exprs.len() > 0 {
        lemma_measure_flatten_all(op, exprs.drop_last());
        lemma_measure_flatten(op, exprs.last());
        lemma_measure_concat(op, flatten_all(op, exprs.drop_last()), flatten(op, exprs.last()));
    }
}

/// The tree over terms counts what they count.
proof fn lemma_measure_rebuild(op: AssocCommOp, terms: Seq<ExprV>)
    requires
        terms.len() > 0,
    ensures
        item(op, rebuild(op, terms)) == measure(op, terms),
    decreases terms.len(),
{
    if terms.len() == 1 {
        assert(terms =~= seq![terms[0]]);
        lemma_measure_single(op, terms[0]);
    } else {
        lemma_measure_rebuild(op, terms.drop_last());
        lemma_item_node(op, rebuild(op, terms.drop_last()), terms.last());
    }
}

/// Lighter terms count less.
proof fn lemma_measure_lighter(op: AssocCommOp, a: Seq<ExprV>, b: Seq<ExprV>)
    requires
        a.len() == b.len(),
        forall|i: int| 0 <= i < a.len() ==> weight(#[trigger] a[i]) <= weight(b[i]),
    ensures
        measure(op, a) <= measure(op, b),
    decreases a.len(),
{
    if a.len() > 0 {
        assert forall|i: int| 0 <= i < a.drop_last().len() implies weight(
            #[trigger] a.drop_last()[i],
        ) <= weight(b.drop_last()[i]) by {
            assert(a.drop_last()[i] == a[i] && b.drop_last()[i] == b[i]);
        }
        lemma_measure_lighter(op, a.drop_last(), b.drop_last());
        assert(weight(a[a.len() - 1]) <= weight(b[a.len() - 1]));
        let (x, y) = (measure(op, a.drop_last()), measure(op, b.drop_last()));
        let (p, q) = (item(op, a.last()), item(op, b.last()));
        lemma_both(op, x, y, p);
        lemma_both(op, p, q, y);
    }
}

proof fn lemma_measure_kept(
    op: AssocCommOp,
    terms: Seq<ExprV>,
    forms: Seq<ExprV>,
    n: nat,
    bound: nat,
)
    requires
        n <= terms.len(),
    ensures
        measure(op, kept(op, terms, forms, n, bound)) <= measure(op, terms.take(n as int)),
    decreases n,
{
    if n > 0 {
        let m = (n - 1) as nat;
        lemma_measure_kept(op, terms, forms, m, bound);
        let before = kept(op, terms, forms, m, bound);
        assert(terms.take(n as int) =~= terms.take(m as int).push(terms[n - 1]));
        lemma_measure_push(op, terms.take(m as int), terms[n - 1]);
        lemma_measure_push(op, before, terms[n - 1]);
        lemma_both(
            op,
            measure(op, before),
            measure(op, terms.take(m as int)),
            item(op, terms[n - 1]),
        );
    }
}

/// The unknown terms with one literal for all literals count no more than the terms.
proof fn lemma_measure_unknowns(op: AssocCommOp, terms: Seq<ExprV>, literal: ExprV)
    requires
        literal is Const,
    ensures
        measure(op, unknowns(terms)) <= measure(op, terms),
        known(op, terms) is Some && known(op, terms)->0 is Some ==> both(
            op,
            measure(op, unknowns(terms)),
            item(op, literal),
        ) <= measure(op, terms),
    decreases terms.len(),
{
    if terms.len() > 0 {
        let front = terms.drop_last();
        let last = terms.last();
        lemma_measure_unknowns(op, front, literal);
        lemma_item(op, literal);
        lemma_item(op, last);
        lemma_measure_positive(op, front);
        lemma_measure_positive(op, unknowns(front));
        let (u, m) = (measure(op, unknowns(front)), measure(op, front));
        let (l, t) = (item(op, literal), item(op, last));
        lemma_both(op, u, m, t);
        lemma_both(op, u, m, l);
        lemma_both(op, l, t, m);
        lemma_both(op, m, t, l);
        lemma_both(op, u, l, t);
        lemma_both(op, u, t, l);
        lemma_both(op, l, t, u);
        lemma_both(op, both(op, u, l), m, t);
        if !(last is Const) {
            lemma_measure_push(op, unknowns(front), last);
        }
    }
}

proof fn lemma_measure_insert(op: AssocCommOp, sorted: Seq<ExprV>, term: ExprV)
    ensures
        measure(op, insert_by_key(sorted, term)) == both(op, measure(op, sorted), item(op, term)),
    decreases sorted.len(),
{
    if sorted.len() == 0 || key_le(sorted.last(), term) {
        lemma_measure_push(op, sorted, term);
    } else {
        let front = sorted.drop_last();
        let last = sorted.last();
        lemma_measure_insert(op, front, term);
        lemma_measure_push(op, insert_by_key(front, term), last);
        let (m, t, l) = (measure(op, front), item(op, term), item(op, last));
        lemma_both(op, m, t, l);
        lemma_both(op, t, l, m);
        lemma_both(op, m, l, t);
    }
}

proof fn lemma_measure_sorted(op: AssocCommOp, terms: Seq<ExprV>)
    ensures
        measure(op, sorted_by_key(terms)) == measure(op, terms),
        sorted_by_key(terms).len() == terms.len(),
    decreases terms.len(),
{
    if terms.len() > 0 {
        lemma_measure_sorted(op, terms.drop_last());
        lemma_measure_insert(op, sorted_by_key(terms.drop_last()), terms.last());
        lemma_insert_len(sorted_by_key(terms.drop_last()), terms.last());
    }
}

proof fn lemma_insert_len(sorted: Seq<ExprV>, term: ExprV)
    ensures
        insert_by_key(sorted, term).len() == sorted.len() + 1,
    decreases sorted.len(),
{
    if sorted.len() > 0 && !key_le(sorted.last(), term) {
        lemma_insert_len(sorted.drop_last(), term);
    }
}

proof fn lemma_measure_dedup(op: AssocCommOp, terms: Seq<ExprV>)
    ensures
        measure(op, dedup(terms)) <= measure(op, terms),
        terms.len() > 0 ==> dedup(terms).len() > 0,
    decreases terms.len(),
{
    if terms.len() > 1 {
        let front = terms.drop_last();
        lemma_measure_dedup(op, front);
        assert(terms =~= front.push(terms.last()));
        lemma_measure_push(op, front, terms.last());
        lemma_measure_push(op, dedup(front), terms.last());
        lemma_both(op, measure(op, dedup(front)), measure(op, front), item(op, terms.last()));
    }
}

proof fn lemma_measure_cancel(terms: Seq<ExprV>, start: int)
    requires
        0 <= start <= terms.len(),
    ensures
        measure(AssocCommOp::Xor, cancel_pairs(terms, start)) <= measure(
            AssocCommOp::Xor,
            terms.skip(start),
        ),
    decreases terms.len() - start,
{
    let op = AssocCommOp::Xor;
    if start == terms.len() {
        assert(terms.skip(start) =~= Seq::empty());
    } else {
        let run = run_length(terms, start, start + 1);
        lemma_run(terms, start, start + 1);
        let end = start + run;
        lemma_measure_cancel(terms, end);
        let rest = cancel_pairs(terms, end);
        let front = terms.subrange(start, end);
        let first = terms[start];
        assert(terms.skip(start) =~= front + terms.skip(end));
        lemma_measure_concat(op, front, terms.skip(end));
        lemma_measure_positive(op, terms.skip(end));
        lemma_measure_positive(op, rest);
        lemma_measure_positive(op, front);
        let (f, m, r) = (measure(op, front), measure(op, terms.skip(end)), measure(op, rest));
        lemma_both(op, f, m, 0);
        lemma_both(op, r, m, f);
        // The run has its first term, and a second one if its length is even.
        let behind = front.skip(1);
        assert(front =~= seq![first] + behind);
        lemma_measure_concat(op, seq![first], behind);
        lemma_measure_single(op, first);
        lemma_measure_positive(op, behind);
        lemma_item(op, first);
        lemma_both(op, item(op, first), measure(op, behind), 0);
        lemma_measure_concat(op, seq![first], rest);
        lemma_both(op, item(op, first), f, r);
        if run % 2 != 1 && width_of(first) is None {
            let third = front.skip(2);
            let pair = seq![first, first];
            assert(front[1] == terms[start + 1]);
            assert(front =~= pair + third);
            lemma_measure_concat(op, pair, third);
            lemma_measure_positive(op, third);
            lemma_measure_positive(op, pair);
            lemma_both(op, measure(op, pair), measure(op, third), 0);
            lemma_measure_concat(op, pair, rest);
            lemma_both(op, measure(op, pair), f, r);
        }
    }
}

/// The tree that an operator makes of leaves counts no more than they do.
proof fn lemma_measure_combined(op: AssocCommOp, leaves: Seq<ExprV>)
    requires
        combine_terms(op, leaves) is Some,
    ensures
        item(op, combine_terms(op, leaves)->0) <= measure(op, leaves),
{
    let literal = known(op, leaves)->0;
    let found = unknowns(leaves);
    let sorted = sorted_by_key(found);
    let terms = reduced(op, sorted);
    let constant = reduced_constant(op, sorted, literal);
    let any = lit(0, 1);
    lemma_measure_unknowns(op, leaves, any);
    lemma_measure_sorted(op, found);
    lemma_measure_dedup(op, sorted);
    if op == AssocCommOp::Xor {
        lemma_measure_cancel(sorted, 0);
        assert(sorted.skip(0) =~= sorted);
    }
    assert(measure(op, terms) <= measure(op, found));
    lemma_item(op, any);
    lemma_measure_positive(op, found);
    lemma_measure_positive(op, terms);
    let tree = combine_terms(op, leaves)->0;
    let l = item(op, any);
    if literal is Some {
        lemma_both(op, measure(op, terms), measure(op, found), l);
        lemma_both(op, l, measure(op, found), 0);
        if found.len() == 0 {
            lemma_both(op, l, 0, 0);
        }
    }
    let decided = (op == AssocCommOp::And || op == AssocCommOp::Or) && has_complement(terms) && (
    first_width(terms) is Some || known_width(constant) is Some);
    if decided {
        assert(terms.len() > 0);
        lemma_first_item(op, terms);
    } else {
        match constant {
            None => {
                lemma_measure_rebuild(op, terms);
            },
            Some((value, width)) => {
                let fresh = lit(canonical(value, width), width);
                assert(item(op, fresh) == l);
                let row = terms.push(fresh);
                lemma_measure_push(op, terms, fresh);
                lemma_measure_rebuild(op, row);
                if terms.len() > 0 {
                    lemma_measure_rebuild(op, terms);
                }
                if literal is None {
                    assert(terms.len() == 0);
                    assert(sorted.len() > 0);
                    lemma_first_item(op, sorted);
                    lemma_both(op, l, 0, 0);
                }
            },
        }
    }
}

/// A literal counts no more than a row of terms.
proof fn lemma_first_item(op: AssocCommOp, terms: Seq<ExprV>)
    requires
        terms.len() > 0,
    ensures
        forall|literal: ExprV|
            literal is Const ==> #[trigger] item(op, literal) <= measure(op, terms),
{
    let last = terms.last();
    lemma_item(op, last);
    lemma_measure_positive(op, terms.drop_last());
    lemma_both(op, measure(op, terms.drop_last()), item(op, last), 0);
    assert forall|literal: ExprV| literal is Const implies #[trigger] item(op, literal) <= measure(
        op,
        terms,
    ) by {
        lemma_item(op, literal);
    }
}

/// One more place to the left weighs the literal that counts it and two nodes.
proof fn lemma_doubled_weight(term: ExprV, width: u16)
    ensures
        weight(doubled(term, width)) == weight(term) + leaf_weight() + 1,
{
    reveal_with_fuel(weight, 4);
}

/// A sum of shifted terms for a factor of `n` bits weighs no more than its terms together.
proof fn lemma_shifted_sum_weight(
    term: ExprV,
    factor: u128,
    sum: ExprV,
    width: u16,
    n: nat,
)
    requires
        factor < vstd::arithmetic::power2::pow2(n),
    ensures
        2 * weight(shifted_sum(term, factor, sum, width)) <= 2 * weight(sum) + 2 * n * (weight(term)
            + 1) + (leaf_weight() + 1) * n * (n - 1),
    decreases n,
{
    let t = weight(term) as int;
    let s = weight(sum) as int;
    if factor == 0 {
        assert(2 * n * (t + 1) + (leaf_weight() + 1) * n * (n - 1) >= 0) by (nonlinear_arith)
            requires
                t >= 0,
                n >= 0,
                leaf_weight() >= 0,
        ;
    } else {
        assert(n > 0) by {
            vstd::arithmetic::power2::lemma2_to64();
        }
        vstd::arithmetic::power2::lemma_pow2_unfold(n);
        let m = (n - 1) as nat;
        let next = if factor % 2 == 1 {
            sum_of(sum, term)
        } else {
            sum
        };
        assert(weight(next) <= s + t + 1) by {
            reveal_with_fuel(weight, 2);
        }
        lemma_doubled_weight(term, width);
        lemma_shifted_sum_weight(doubled(term, width), factor / 2, next, width, m);
        let c = (leaf_weight() + 1) as int;
        let d = weight(next) as int;
        assert(2 * d + 2 * m * (t + c + 1) + c * m * (m - 1) <= 2 * s + 2 * n * (t + 1) + c * n * (n
            - 1)) by (nonlinear_arith)
            requires
                d <= s + t + 1,
                m == n - 1,
        ;
    }
}

/// The sum of shifts weighs less than the product that it stands for.
proof fn lemma_shifted_product_weight(term: ExprV, factor: u128, width: u16)
    ensures
        weight(shifted_sum(term, factor, lit(0, width), width)) < leaf_weight() * weight(term),
{
    crate::const_eval::lemma_mask(128);
    lemma_shifted_sum_weight(term, factor, lit(0, width), width, 128);
    lemma_weight_positive(term);
    let t = weight(term) as int;
    let whole = weight(shifted_sum(term, factor, lit(0, width), width)) as int;
    let n = 128int;
    assert(whole < 10000 * t) by (nonlinear_arith)
        requires
            n == 128,
            t >= 10000,
            2 * whole <= 2 * 10000 + 2 * n * (t + 1) + 10001 * n * (n - 1),
    ;
}

/// A product with a literal weighs more than the sum of shifts that it becomes.
proof fn lemma_mul_step_weight(tree: ExprV)
    ensures
        mul_step(Some(tree)) matches Step::Done(e) ==> weight(e) <= weight(tree),
        mul_step(Some(tree)) matches Step::Rewrite(e) ==> weight(e) < weight(tree),
{
    lemma_weight_positive(tree);
    match tree {
        ExprV::Mul(lhs, rhs) => {
            lemma_weight_positive(*lhs);
            lemma_weight_positive(*rhs);
            if width_of(tree) is Some {
                let width = width_of(tree)->0;
                let (l, r) = (weight(*lhs) as int, weight(*rhs) as int);
                lemma_mul_is_commutative(l, r);
                if *lhs is Const && !(*rhs is Const) {
                    lemma_shifted_product_weight(*rhs, lhs->Const_value, width);
                } else if *rhs is Const && !(*lhs is Const) {
                    lemma_shifted_product_weight(*lhs, rhs->Const_value, width);
                }
            }
        },
        _ => {},
    }
}

/// `Or`, `Xor` and `Select` weigh more than what they are lowered to.
proof fn lemma_lower_step_weight(tree: ExprV)
    ensures
        lower_step(Some(tree)) matches Step::Done(e) ==> weight(e) <= weight(tree),
        lower_step(Some(tree)) matches Step::Rewrite(e) ==> weight(e) < weight(tree),
{
    reveal_with_fuel(weight, 7);
    match tree {
        ExprV::Xor(lhs, rhs) => {
            lemma_weight_positive(*lhs);
            lemma_weight_positive(*rhs);
            let (l, r) = (weight(*lhs) as int, weight(*rhs) as int);
            assert(2 * l + 2 * r + 10 < l * r) by (nonlinear_arith)
                requires
                    l >= 10000,
                    r >= 10000,
            ;
        },
        _ => {},
    }
}

/// The canonical forms of a row weigh no more than the expressions.
proof fn lemma_all_light(exprs: Seq<ExprV>, bound: nat)
    requires
        canon_all(exprs, bound) is Some,
    ensures
        canon_all(exprs, bound)->0.len() == exprs.len(),
        forall|i: int|
            0 <= i < exprs.len() ==> weight(#[trigger] canon_all(exprs, bound)->0[i]) <= weight(
                exprs[i],
            ),
    decreases bound, 1nat, exprs.len(),
{
    if exprs.len() > 0 {
        let front = exprs.drop_last();
        let last = exprs.last();
        let made = below(last, bound);
        assert(made is Some);
        assert(weight(last) < bound);
        assert(made == canon(last));
        lemma_all_light(front, bound);
        lemma_canon_light(last);
        let before = canon_all(front, bound)->0;
        let forms = canon_all(exprs, bound)->0;
        assert forall|i: int| 0 <= i < exprs.len() implies weight(#[trigger] forms[i]) <= weight(
            exprs[i],
        ) by {
            if i < before.len() {
                assert(forms[i] == before[i]);
                assert(front[i] == exprs[i]);
            }
        }
    }
}

/// The canonical tree of an operator weighs no more than the node that it is made of.
proof fn lemma_assoc_light(op: AssocCommOp, lhs: ExprV, rhs: ExprV, bound: nat)
    requires
        canon_assoc(op, lhs, rhs, bound) is Some,
    ensures
        weight(canon_assoc(op, lhs, rhs, bound)->0) <= weight(node(op, lhs, rhs)),
    decreases bound, 4nat, 0nat,
{
    let terms = flatten(op, lhs) + flatten(op, rhs);
    let left = unabsorbed(op, terms, bound)->0;
    let forms = canon_all(left, bound)->0;
    lemma_measure_flatten(op, lhs);
    lemma_measure_flatten(op, rhs);
    lemma_measure_concat(op, flatten(op, lhs), flatten(op, rhs));
    lemma_item_node(op, lhs, rhs);
    if op == AssocCommOp::And || op == AssocCommOp::Or {
        let all_forms = canon_all(terms, bound)->0;
        lemma_measure_kept(op, terms, all_forms, terms.len(), bound);
        assert(terms.take(terms.len() as int) =~= terms);
    }
    lemma_all_light(left, bound);
    lemma_measure_lighter(op, forms, left);
    lemma_measure_flatten_all(op, forms);
    lemma_measure_combined(op, flatten_all(op, forms));
}

proof fn lemma_settle_light(step: Step, bound: nat)
    requires
        settle(step, bound) is Some,
        step matches Step::Done(e) ==> weight(e) <= bound,
    ensures
        weight(settle(step, bound)->0) <= bound,
    decreases bound, 0nat, 0nat,
{
    match step {
        Step::Rewrite(e) => {
            lemma_canon_light(e);
        },
        _ => {},
    }
}

/// Merged chunks weigh no more than the chunks.
proof fn lemma_merged_light(chunks: Seq<ExprV>)
    requires
        merge_chunks(chunks) is Some,
    ensures
        weights(merge_chunks(chunks)->0) <= weights(chunks),
    decreases chunks.len(),
{
    if chunks.len() > 0 {
        let front = chunks.drop_last();
        lemma_merged_light(front);
        let before = merge_chunks(front)->0;
        let after = merge_chunks(chunks)->0;
        let fresh = after.last();
        if chunks.last() is Const && before.len() > 0 && before.last() is Const {
            assert(after == before.drop_last().push(fresh));
            assert(after.drop_last() =~= before.drop_last());
            assert(weight(fresh) == weight(before.last()));
            assert(weights(before) == weights(before.drop_last()) + weight(before.last()));
            assert(weights(after) == weights(after.drop_last()) + weight(fresh));
        } else {
            assert(after == before.push(fresh));
            assert(after.drop_last() =~= before);
            assert(weight(fresh) == weight(chunks.last()));
            assert(weights(after) == weights(after.drop_last()) + weight(fresh));
        }
        assert(weights(chunks) == weights(front) + weight(chunks.last()));
    }
}

proof fn lemma_weights_lighter(a: Seq<ExprV>, b: Seq<ExprV>)
    requires
        a.len() == b.len(),
        forall|i: int| 0 <= i < a.len() ==> weight(#[trigger] a[i]) <= weight(b[i]),
    ensures
        weights(a) <= weights(b),
    decreases a.len(),
{
    if a.len() > 0 {
        assert forall|i: int| 0 <= i < a.drop_last().len() implies weight(
            #[trigger] a.drop_last()[i],
        ) <= weight(b.drop_last()[i]) by {
            assert(a.drop_last()[i] == a[i] && b.drop_last()[i] == b[i]);
        }
        lemma_weights_lighter(a.drop_last(), b.drop_last());
        assert(weight(a[a.len() - 1]) <= weight(b[a.len() - 1]));
    }
}

/// A canonical form weighs no more than the expression.
pub proof fn lemma_canon_light(expr: ExprV)
    requires
        canon(expr) is Some,
    ensures
        weight(canon(expr)->0) <= weight(expr),
    decreases weight(expr), 6nat, 0nat,
{
    match expr {
        ExprV::Add(lhs, rhs) => {
            lemma_tree_light(AssocCommOp::Add, *lhs, *rhs);
        },
        ExprV::Mul(lhs, rhs) => {
            lemma_tree_light(AssocCommOp::Mul, *lhs, *rhs);
        },
        ExprV::And(lhs, rhs) => {
            lemma_tree_light(AssocCommOp::And, *lhs, *rhs);
        },
        ExprV::Or(lhs, rhs) => {
            lemma_tree_light(AssocCommOp::Or, *lhs, *rhs);
        },
        ExprV::Xor(lhs, rhs) => {
            lemma_tree_light(AssocCommOp::Xor, *lhs, *rhs);
        },
        ExprV::Sub(_, _) | ExprV::Select { .. } => {
            lemma_rewritten_light(expr);
        },
        ExprV::Concat(values) => {
            let bound = weight(expr);
            let chunks = canon_all(values, bound);
            assert(chunks is Some);
            lemma_all_light(values, bound);
            lemma_weights_lighter(chunks->0, values);
            lemma_merged_light(chunks->0);
            let merged = merge_chunks(chunks->0)->0;
            if merged.len() == 1 {
                lemma_weights_part(merged, 0);
            }
        },
        _ => {
            lemma_part_light(expr);
        },
    }
}

proof fn lemma_tree_light(op: AssocCommOp, lhs: ExprV, rhs: ExprV)
    requires
        canon(node(op, lhs, rhs)) is Some,
    ensures
        weight(canon(node(op, lhs, rhs))->0) <= weight(node(op, lhs, rhs)),
    decreases weight(node(op, lhs, rhs)), 5nat, 0nat,
{
    let expr = node(op, lhs, rhs);
    let bound = weight(expr);
    let tree = canon_assoc(op, lhs, rhs, bound);
    match op {
        AssocCommOp::And => {
            assert(canon(expr) == tree);
            lemma_assoc_light(op, lhs, rhs, bound);
        },
        AssocCommOp::Add | AssocCommOp::Mul => {
            let made = settle(mul_step(tree), bound);
            assert(canon(expr) == made);
            assert(tree is Some);
            lemma_assoc_light(op, lhs, rhs, bound);
            lemma_mul_step_weight(tree->0);
            lemma_settle_light(mul_step(tree), bound);
        },
        AssocCommOp::Or | AssocCommOp::Xor => {
            let made = settle(lower_step(tree), bound);
            assert(canon(expr) == made);
            assert(tree is Some);
            lemma_assoc_light(op, lhs, rhs, bound);
            lemma_lower_step_weight(tree->0);
            lemma_settle_light(lower_step(tree), bound);
        },
    }
}

/// A difference weighs more than the sum that it becomes.
proof fn lemma_sub_step_weight(lhs: ExprV, rhs: ExprV)
    ensures
        sub_step(Some(lhs), Some(rhs)) matches Step::Done(e) ==> weight(e) <= weight(lhs) + weight(
            rhs,
        ),
        sub_step(Some(lhs), Some(rhs)) matches Step::Rewrite(e) ==> weight(e) < weight(lhs)
            + weight(rhs) + leaf_weight() + 4,
{
    reveal_with_fuel(weight, 4);
    lemma_weight_positive(lhs);
}

/// A selection weighs more than the masked terms that it becomes.
proof fn lemma_select_step_weight(condition: ExprV, when_true: ExprV, when_false: ExprV)
    ensures
        ({
            let step = select_step(Some(condition), Some(when_true), Some(when_false));
            let whole = 2 * weight(condition) + weight(when_true) + weight(when_false) + 12;
            &&& step matches Step::Done(e) ==> weight(e) <= whole
            &&& step matches Step::Rewrite(e) ==> weight(e) < whole
        }),
{
    let whole = ExprV::Select {
        condition: Box::new(condition),
        when_true: Box::new(when_true),
        when_false: Box::new(when_false),
    };
    lemma_lower_step_weight(whole);
}

proof fn lemma_rewritten_light(expr: ExprV)
    requires
        canon(expr) is Some,
        expr is Sub || expr is Select,
    ensures
        weight(canon(expr)->0) <= weight(expr),
    decreases weight(expr), 5nat, 0nat,
{
    let bound = weight(expr);
    match expr {
        ExprV::Sub(lhs, rhs) => {
            let step = sub_step(canon(*lhs), canon(*rhs));
            let made = settle(step, bound);
            assert(canon(expr) == made);
            assert(canon(*lhs) is Some && canon(*rhs) is Some);
            lemma_canon_light(*lhs);
            lemma_canon_light(*rhs);
            lemma_sub_step_weight(canon(*lhs)->0, canon(*rhs)->0);
            lemma_settle_light(step, bound);
        },
        ExprV::Select { condition, when_true, when_false } => {
            let step = select_step(canon(*condition), canon(*when_true), canon(*when_false));
            let made = settle(step, bound);
            assert(canon(expr) == made);
            assert(canon(*condition) is Some && canon(*when_true) is Some && canon(
                *when_false,
            ) is Some);
            lemma_canon_light(*condition);
            lemma_canon_light(*when_true);
            lemma_canon_light(*when_false);
            lemma_select_step_weight(
                canon(*condition)->0,
                canon(*when_true)->0,
                canon(*when_false)->0,
            );
            lemma_settle_light(step, bound);
        },
        _ => {},
    }
}

proof fn lemma_part_light(expr: ExprV)
    requires
        canon(expr) is Some,
        !(expr is Add || expr is Mul || expr is And || expr is Or || expr is Xor || expr is Sub
            || expr is Select || expr is Concat),
    ensures
        weight(canon(expr)->0) <= weight(expr),
    decreases weight(expr), 5nat, 0nat,
{
    match expr {
        ExprV::ReadRegister { register: part, .. }
        | ExprV::ReadMemory { address: part, .. }
        | ExprV::CountOnes(part)
        | ExprV::Extract { value: part, .. } => {
            lemma_canon_light(*part);
        },
        ExprV::Not(part) => {
            lemma_canon_light(*part);
            lemma_weight_positive(*part);
        },
        ExprV::ZeroExtend { value: part, .. } | ExprV::SignExtend { value: part, .. } => {
            lemma_canon_light(*part);
            reveal_with_fuel(weight, 2);
        },
        ExprV::ShiftLeft(lhs, rhs)
        | ExprV::LogicalShiftRight(lhs, rhs)
        | ExprV::ArithmeticShiftRight(lhs, rhs)
        | ExprV::RotateRight(lhs, rhs)
        | ExprV::Equal(lhs, rhs)
        | ExprV::UnsignedLessThan(lhs, rhs)
        | ExprV::SignedLessThan(lhs, rhs) => {
            lemma_canon_light(*lhs);
            lemma_canon_light(*rhs);
            lemma_weight_positive(*lhs);
        },
        ExprV::AddCarryOut { lhs, rhs, carry_in, .. }
        | ExprV::AddOverflow { lhs, rhs, carry_in, .. } => {
            lemma_canon_light(*lhs);
            lemma_canon_light(*rhs);
            lemma_canon_light(*carry_in);
        },
        ExprV::SubCarryOut { lhs, rhs, borrow_in, .. }
        | ExprV::SubOverflow { lhs, rhs, borrow_in, .. } => {
            lemma_canon_light(*lhs);
            lemma_canon_light(not_of(*rhs));
            lemma_canon_light(not_of(*borrow_in));
        },
        _ => {},
    }
}

/// The step that a node takes once its parts are canonical; a node that takes none is done.
pub open spec fn next_step(expr: ExprV) -> Step {
    let bound = weight(expr);
    match expr {
        ExprV::Add(lhs, rhs) => mul_step(canon_assoc(AssocCommOp::Add, *lhs, *rhs, bound)),
        ExprV::Mul(lhs, rhs) => mul_step(canon_assoc(AssocCommOp::Mul, *lhs, *rhs, bound)),
        ExprV::Or(lhs, rhs) => lower_step(canon_assoc(AssocCommOp::Or, *lhs, *rhs, bound)),
        ExprV::Xor(lhs, rhs) => lower_step(canon_assoc(AssocCommOp::Xor, *lhs, *rhs, bound)),
        ExprV::Sub(lhs, rhs) => sub_step(canon(*lhs), canon(*rhs)),
        ExprV::Select { condition, when_true, when_false } => select_step(
            canon(*condition),
            canon(*when_true),
            canon(*when_false),
        ),
        _ => Step::Done(expr),
    }
}

/// The parts of a node that its canonical form is made of: terms, chunks or operands.
pub open spec fn parts_of(expr: ExprV) -> Seq<ExprV> {
    match expr {
        ExprV::Add(lhs, rhs) => flatten(AssocCommOp::Add, *lhs) + flatten(AssocCommOp::Add, *rhs),
        ExprV::Mul(lhs, rhs) => flatten(AssocCommOp::Mul, *lhs) + flatten(AssocCommOp::Mul, *rhs),
        ExprV::And(lhs, rhs) => flatten(AssocCommOp::And, *lhs) + flatten(AssocCommOp::And, *rhs),
        ExprV::Or(lhs, rhs) => flatten(AssocCommOp::Or, *lhs) + flatten(AssocCommOp::Or, *rhs),
        ExprV::Xor(lhs, rhs) => flatten(AssocCommOp::Xor, *lhs) + flatten(AssocCommOp::Xor, *rhs),
        _ => crate::instruction_semantics::children(expr),
    }
}

/// The leaves of a tree weigh no more than the tree.
proof fn lemma_leaf_weight(op: AssocCommOp, expr: ExprV)
    ensures
        forall|i: int|
            0 <= i < flatten(op, expr).len() ==> weight(#[trigger] flatten(op, expr)[i]) <= weight(
                expr,
            ),
    decreases expr,
{
    match (op, expr) {
        (AssocCommOp::Add, ExprV::Add(lhs, rhs))
        | (AssocCommOp::Mul, ExprV::Mul(lhs, rhs))
        | (AssocCommOp::And, ExprV::And(lhs, rhs))
        | (AssocCommOp::Or, ExprV::Or(lhs, rhs))
        | (AssocCommOp::Xor, ExprV::Xor(lhs, rhs)) => {
            lemma_leaf_weight(op, *lhs);
            lemma_leaf_weight(op, *rhs);
            lemma_weight_children(expr);
            let parts = crate::instruction_semantics::children(expr);
            assert(parts[0] == *lhs && parts[1] == *rhs);
            let left = flatten(op, *lhs);
            assert forall|i: int| 0 <= i < flatten(op, expr).len() implies weight(
                #[trigger] flatten(op, expr)[i],
            ) <= weight(expr) by {
                if i < left.len() {
                    assert(flatten(op, expr)[i] == left[i]);
                } else {
                    assert(flatten(op, expr)[i] == flatten(op, *rhs)[i - left.len()]);
                }
            }
        },
        _ => {
            assert(flatten(op, expr) == seq![expr]);
        },
    }
}

pub(crate) proof fn lemma_tree_parts(op: AssocCommOp, lhs: ExprV, rhs: ExprV)
    ensures
        forall|i: int|
            0 <= i < (flatten(op, lhs) + flatten(op, rhs)).len() ==> weight(
                #[trigger] (flatten(op, lhs) + flatten(op, rhs))[i],
            ) < weight(node(op, lhs, rhs)),
{
    let whole = node(op, lhs, rhs);
    lemma_leaf_weight(op, lhs);
    lemma_leaf_weight(op, rhs);
    lemma_weight_children(whole);
    let parts = crate::instruction_semantics::children(whole);
    assert(parts[0] == lhs && parts[1] == rhs);
    let left = flatten(op, lhs);
    let all = left + flatten(op, rhs);
    assert forall|i: int| 0 <= i < all.len() implies weight(#[trigger] all[i]) < weight(whole) by {
        if i < left.len() {
            assert(all[i] == left[i]);
        } else {
            assert(all[i] == flatten(op, rhs)[i - left.len()]);
        }
    }
}

/// No canonical form is cut short: what a node is made of and what it is rewritten to weigh
/// less than the node, for every expression.
pub proof fn lemma_steps_shrink(expr: ExprV)
    ensures
        forall|i: int|
            0 <= i < parts_of(expr).len() ==> weight(#[trigger] parts_of(expr)[i]) < weight(expr),
        next_step(expr) matches Step::Rewrite(e) ==> weight(e) < weight(expr),
{
    let bound = weight(expr);
    lemma_weight_children(expr);
    match expr {
        ExprV::Add(lhs, rhs) => {
            lemma_tree_parts(AssocCommOp::Add, *lhs, *rhs);
            let tree = canon_assoc(AssocCommOp::Add, *lhs, *rhs, bound);
            if tree is Some {
                lemma_assoc_light(AssocCommOp::Add, *lhs, *rhs, bound);
                lemma_mul_step_weight(tree->0);
            }
        },
        ExprV::Mul(lhs, rhs) => {
            lemma_tree_parts(AssocCommOp::Mul, *lhs, *rhs);
            let tree = canon_assoc(AssocCommOp::Mul, *lhs, *rhs, bound);
            if tree is Some {
                lemma_assoc_light(AssocCommOp::Mul, *lhs, *rhs, bound);
                lemma_mul_step_weight(tree->0);
            }
        },
        ExprV::And(lhs, rhs) => {
            lemma_tree_parts(AssocCommOp::And, *lhs, *rhs);
        },
        ExprV::Or(lhs, rhs) => {
            lemma_tree_parts(AssocCommOp::Or, *lhs, *rhs);
            let tree = canon_assoc(AssocCommOp::Or, *lhs, *rhs, bound);
            if tree is Some {
                lemma_assoc_light(AssocCommOp::Or, *lhs, *rhs, bound);
                lemma_lower_step_weight(tree->0);
            }
        },
        ExprV::Xor(lhs, rhs) => {
            lemma_tree_parts(AssocCommOp::Xor, *lhs, *rhs);
            let tree = canon_assoc(AssocCommOp::Xor, *lhs, *rhs, bound);
            if tree is Some {
                lemma_assoc_light(AssocCommOp::Xor, *lhs, *rhs, bound);
                lemma_lower_step_weight(tree->0);
            }
        },
        ExprV::Sub(lhs, rhs) => {
            if canon(*lhs) is Some && canon(*rhs) is Some {
                lemma_canon_light(*lhs);
                lemma_canon_light(*rhs);
                lemma_sub_step_weight(canon(*lhs)->0, canon(*rhs)->0);
            }
        },
        ExprV::Select { condition, when_true, when_false } => {
            if canon(*condition) is Some && canon(*when_true) is Some && canon(*when_false) is Some {
                lemma_canon_light(*condition);
                lemma_canon_light(*when_true);
                lemma_canon_light(*when_false);
                lemma_select_step_weight(
                    canon(*condition)->0,
                    canon(*when_true)->0,
                    canon(*when_false)->0,
                );
            }
        },
        _ => {},
    }
}

} // verus!
