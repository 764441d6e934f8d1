//! Over literals the canonical form folds to what the expression itself folds to.
use vstd::prelude::*;

use crate::canonical_fixed::lemma_nothing_absorbed;
use crate::canonical_form::{
    canon, canon_all, canon_assoc, canon_flag, combine_terms, flag_node, flatten, flatten_all,
    is_node, kept, known, leaf_weight, lit, lower_step, mul_step, node, not_of, opposite, rebuild,
    settle, sub_step, sum_of, unabsorbed, unknowns, weight, with_constant, Step,
};
use crate::canonical_weight::{lemma_steps_shrink, lemma_tree_parts, next_step};
use crate::canonicalize::{lemma_canon_all, lemma_canon_each};
use crate::collapse::{collapse_assoc, collapse_flag, collapsed, flag_expr, fold_flag, FlagOp};
use crate::const_eval::{canonical, combine, difference, AssocCommOp};
use crate::instruction_semantics::{bool_view, truth, ExprV};
use crate::isa_specification::DecodedV;
use crate::order_laws::lemma_known_met;
use crate::rewrite_laws::{lemma_difference_value, lemma_flag_values};
use crate::word_laws::{fits, lemma_combine_fits, lemma_fits};

verus! {

/// Every term is a literal of the width that fits it.
spec fn literals(terms: Seq<ExprV>, width: u16) -> bool {
    forall|i: int|
        0 <= i < terms.len() ==> (#[trigger] terms[i]) is Const && terms[i]->Const_width == width
            && fits(terms[i]->Const_value, width)
}

proof fn lemma_literal(value: u128, width: u16)
    requires
        fits(value, width),
    ensures
        canon(lit(value, width)) == Some(lit(value, width)),
        forall|op: AssocCommOp| #[trigger] flatten(op, lit(value, width)) == seq![lit(value, width)],
        weight(lit(value, width)) == leaf_weight(),
{
    assert forall|op: AssocCommOp| #[trigger] flatten(op, lit(value, width)) == seq![
        lit(value, width),
    ] by {
        match op {
            AssocCommOp::Add => {},
            AssocCommOp::Mul => {},
            AssocCommOp::And => {},
            AssocCommOp::Or => {},
            AssocCommOp::Xor => {},
        }
    }
}

proof fn lemma_no_unknowns(terms: Seq<ExprV>, width: u16)
    requires
        literals(terms, width),
    ensures
        unknowns(terms) == Seq::<ExprV>::empty(),
    decreases terms.len(),
{
    if terms.len() > 0 {
        let front = terms.drop_last();
        assert forall|i: int| 0 <= i < front.len() implies (#[trigger] front[i]) is Const
            && front[i]->Const_width == width && fits(front[i]->Const_value, width) by {
            assert(front[i] == terms[i]);
        }
        lemma_no_unknowns(front, width);
        assert(terms[terms.len() - 1] is Const);
    }
}

/// Leaves that are literals make a literal.
proof fn lemma_literals_combined(op: AssocCommOp, terms: Seq<ExprV>, value: u128, width: u16)
    requires
        literals(terms, width),
        fits(value, width),
        known(op, terms) == Some(Some((value, width))),
    ensures
        combine_terms(op, terms) == Some(lit(value, width)),
        with_constant(op, unknowns(terms), Some((value, width))) == Some(lit(value, width)),
{
    lemma_no_unknowns(terms, width);
    let none = Seq::<ExprV>::empty();
    assert(none.push(lit(value, width)).len() == 1);
    assert(rebuild(op, none.push(lit(value, width))) == lit(value, width));
    assert(crate::canonical_form::sorted_by_key(none) == none);
    assert(crate::canonical_form::reduced(op, none) == none);
    assert(crate::canonical_form::first_width(none) is None);
    assert(!crate::canonical_form::has_complement(none));
}

proof fn lemma_flat_literals(op: AssocCommOp, terms: Seq<ExprV>, width: u16)
    requires
        literals(terms, width),
    ensures
        flatten_all(op, terms) == terms,
    decreases terms.len(),
{
    if terms.len() > 0 {
        let front = terms.drop_last();
        assert forall|i: int| 0 <= i < front.len() implies (#[trigger] front[i]) is Const
            && front[i]->Const_width == width && fits(front[i]->Const_value, width) by {
            assert(front[i] == terms[i]);
        }
        lemma_flat_literals(op, front, width);
        let last = terms[terms.len() - 1];
        assert(last == lit(last->Const_value, width));
        lemma_literal(last->Const_value, width);
        assert(flatten(op, last) == seq![last]);
        assert(front + seq![last] =~= terms);
    } else {
        assert(flatten_all(op, terms) =~= terms);
    }
}

/// Two literals below an operator combine.
proof fn lemma_two_known(op: AssocCommOp, a: u128, b: u128, width: u16)
    requires
        fits(a, width),
        fits(b, width),
    ensures
        known(op, seq![lit(a, width), lit(b, width)]) == Some(
            Some((combine(op, a, b, width), width)),
        ),
        fits(combine(op, a, b, width), width),
        literals(seq![lit(a, width), lit(b, width)], width),
{
    let row = seq![lit(a, width), lit(b, width)];
    let one = seq![lit(a, width)];
    assert(row.drop_last() =~= one);
    assert(one.drop_last() =~= Seq::<ExprV>::empty());
    lemma_known_met(op, row);
    lemma_known_met(op, one);
    assert(known(op, Seq::<ExprV>::empty()) == Some(None::<(u128, u16)>));
    lemma_combine_fits(op, a, b, width);
}

/// The canonical tree of two literals is the literal they combine to.
proof fn lemma_assoc_literals(op: AssocCommOp, a: u128, b: u128, width: u16, bound: nat)
    requires
        fits(a, width),
        fits(b, width),
        bound > leaf_weight(),
    ensures
        canon_assoc(op, lit(a, width), lit(b, width), bound) == Some(
            lit(combine(op, a, b, width), width),
        ),
{
    let (l, r) = (lit(a, width), lit(b, width));
    let row = seq![l, r];
    lemma_literal(a, width);
    lemma_literal(b, width);
    assert(flatten(op, l) + flatten(op, r) =~= row);
    lemma_two_known(op, a, b, width);
    assert forall|i: int| 0 <= i < row.len() implies weight(#[trigger] row[i]) < bound && canon(
        row[i],
    ) is Some by {}
    lemma_canon_each(row, bound);
    lemma_canon_all(row, bound);
    let forms = canon_all(row, bound)->0;
    assert(forms =~= row) by {
        assert(canon(row[0]) == Some(forms[0]) && canon(row[1]) == Some(forms[1]));
    }
    assert(unabsorbed(op, row, bound) == Some(row)) by {
        if op == AssocCommOp::And || op == AssocCommOp::Or {
            assert forall|i: int| 0 <= i < row.len() implies !is_node(
                opposite(op),
                #[trigger] row[i],
            ) by {}
            lemma_nothing_absorbed(op, row, forms, row.len(), bound);
            assert(row.take(row.len() as int) =~= row);
            assert(kept(op, row, forms, row.len(), bound) == row);
        }
    }
    lemma_flat_literals(op, row, width);
    lemma_literals_combined(op, row, combine(op, a, b, width), width);
}

/// Two literals below an operator have the literal they combine to as their canonical form, and
/// this is what they fold to.
pub proof fn lemma_literal_operator(
    op: AssocCommOp,
    a: u128,
    b: u128,
    width: u16,
    instruction: DecodedV,
    depth: nat,
)
    requires
        fits(a, width),
        fits(b, width),
    ensures
        canon(node(op, lit(a, width), lit(b, width))) == Some(
            lit(combine(op, a, b, width), width),
        ),
        collapsed(node(op, lit(a, width), lit(b, width)), instruction, depth) == canon(
            node(op, lit(a, width), lit(b, width)),
        ),
        collapsed(
            canon(node(op, lit(a, width), lit(b, width)))->0,
            instruction,
            depth,
        ) == collapsed(node(op, lit(a, width), lit(b, width)), instruction, depth),
{
    let (l, r) = (lit(a, width), lit(b, width));
    let whole = node(op, l, r);
    let bound = weight(whole);
    let made = lit(combine(op, a, b, width), width);
    lemma_literal(a, width);
    lemma_literal(b, width);
    lemma_tree_parts(op, l, r);
    assert((flatten(op, l) + flatten(op, r))[0] == l);
    lemma_assoc_literals(op, a, b, width, bound);
    let tree = canon_assoc(op, l, r, bound);
    assert(tree == Some(made));
    assert(mul_step(tree) == Step::Done(made));
    assert(lower_step(tree) == Step::Done(made));
    assert(settle(Step::Done(made), bound) == Some(made));
    assert(canon(whole) == Some(made));
    let row = seq![l, r];
    assert(flatten(op, l) + flatten(op, r) =~= row);
    lemma_two_known(op, a, b, width);
    lemma_literals_combined(op, row, combine(op, a, b, width), width);
    assert(collapse_assoc(op, Some(l), Some(r)) == Some(made));
    assert(collapsed(l, instruction, depth) == Some(l));
    assert(collapsed(r, instruction, depth) == Some(r));
    assert(collapsed(whole, instruction, depth) == collapse_assoc(op, Some(l), Some(r)));
    assert(collapsed(made, instruction, depth) == Some(made));
}

/// The sum that stands for a difference of two literals.
proof fn lemma_difference_sum(a: u128, b: u128, width: u16)
    requires
        fits(a, width),
        fits(b, width),
    ensures
        canon(sum_of(sum_of(lit(a, width), not_of(lit(b, width))), lit(1, width))) == Some(
            lit(difference(a, b, width), width),
        ),
{
    let op = AssocCommOp::Add;
    let (l, r, one) = (lit(a, width), lit(b, width), lit(1, width));
    let nb = canonical(!b, width);
    let lhs = sum_of(l, not_of(r));
    let whole = sum_of(lhs, one);
    let bound = weight(whole);
    lemma_difference_value(a, b, width);
    lemma_fits(!b, width);
    lemma_fits(a, width);
    lemma_fits(1, width);
    lemma_literal(a, width);
    lemma_literal(b, width);
    lemma_literal(1, width);
    let first = combine(op, a, nb, width);
    let row = seq![l, not_of(r), one];
    let forms = seq![l, lit(nb, width), one];
    assert(flatten(op, not_of(r)) == seq![not_of(r)]);
    assert(flatten(op, lhs) == flatten(op, l) + flatten(op, not_of(r)));
    assert(flatten(op, lhs) + flatten(op, one) =~= row);
    lemma_tree_parts(op, lhs, one);
    assert(canon(not_of(r)) == Some(lit(nb, width)));
    assert forall|i: int| 0 <= i < row.len() implies weight(#[trigger] row[i]) < bound && canon(
        row[i],
    ) is Some by {
        assert((flatten(op, lhs) + flatten(op, one))[i] == row[i]);
    }
    lemma_canon_each(row, bound);
    lemma_canon_all(row, bound);
    let made = canon_all(row, bound)->0;
    assert(made =~= forms) by {
        assert(canon(row[0]) == Some(made[0]) && canon(row[1]) == Some(made[1]) && canon(row[2])
            == Some(made[2]));
    }
    let two = seq![l, lit(nb, width)];
    assert(forms.drop_last() =~= two);
    lemma_two_known(op, a, nb, width);
    lemma_known_met(op, forms);
    let total = combine(op, first, 1, width);
    lemma_combine_fits(op, first, 1, width);
    assert(known(op, forms) == Some(Some((total, width))));
    assert forall|i: int| 0 <= i < forms.len() implies (#[trigger] forms[i]) is Const
        && forms[i]->Const_width == width && fits(forms[i]->Const_value, width) by {}
    lemma_flat_literals(op, forms, width);
    lemma_literals_combined(op, forms, total, width);
    let tree = canon_assoc(op, lhs, one, bound);
    assert(unabsorbed(op, row, bound) == Some(row));
    assert(tree == Some(lit(total, width)));
    assert(settle(mul_step(tree), bound) == Some(lit(total, width)));
    assert(canon(whole) == Some(lit(total, width)));
}

/// A difference of two literals has the literal of its value as its canonical form, and this is
/// what it folds to.
pub proof fn lemma_literal_difference(
    a: u128,
    b: u128,
    width: u16,
    instruction: DecodedV,
    depth: nat,
)
    requires
        fits(a, width),
        fits(b, width),
    ensures
        ({
            let whole = ExprV::Sub(Box::new(lit(a, width)), Box::new(lit(b, width)));
            &&& canon(whole) == Some(lit(difference(a, b, width), width))
            &&& collapsed(whole, instruction, depth) == canon(whole)
            &&& collapsed(canon(whole)->0, instruction, depth) == collapsed(
                whole,
                instruction,
                depth,
            )
        }),
{
    let (l, r) = (lit(a, width), lit(b, width));
    let whole = ExprV::Sub(Box::new(l), Box::new(r));
    let made = lit(difference(a, b, width), width);
    lemma_literal(a, width);
    lemma_literal(b, width);
    lemma_difference_value(a, b, width);
    lemma_difference_sum(a, b, width);
    lemma_steps_shrink(whole);
    let step = sub_step(Some(l), Some(r));
    assert(next_step(whole) == step);
    let settled = settle(step, weight(whole));
    assert(settled == Some(made)) by {
        match step {
            Step::Rewrite(e) => {
                assert(e == sum_of(sum_of(l, not_of(r)), lit(1, width)));
            },
            _ => {},
        }
    }
    assert(canon(whole) == settled);
    assert(collapsed(l, instruction, depth) == Some(l));
    assert(collapsed(r, instruction, depth) == Some(r));
    assert(collapsed(whole, instruction, depth) == Some(made));
    assert(collapsed(made, instruction, depth) == Some(made));
}

/// A flag over literals and its canonical form fold to the same bit, the flag's.
pub proof fn lemma_literal_flag(
    op: FlagOp,
    a: u128,
    b: u128,
    flag: bool,
    width: u16,
    instruction: DecodedV,
    depth: nat,
)
    requires
        fits(a, width),
        fits(b, width),
    ensures
        ({
            let whole = flag_expr(op, lit(a, width), lit(b, width), bool_view(flag), width);
            let bit = bool_view(
                fold_flag(op, a, b, truth(flag), width),
            );
            &&& collapsed(whole, instruction, depth) == Some(bit)
            &&& canon(whole) is Some
            &&& collapsed(canon(whole)->0, instruction, depth) == Some(bit)
        }),
{
    let (l, r, f) = (lit(a, width), lit(b, width), bool_view(flag));
    let c = truth(flag);
    let whole = flag_expr(op, l, r, f, width);
    lemma_literal(a, width);
    lemma_literal(b, width);
    assert(fits(c, 1)) by {
        lemma_fits(c, 1);
    }
    lemma_literal(c, 1);
    lemma_flag_values(a, b, c, width);
    lemma_fits(!b, width);
    lemma_fits(!c, 1);
    assert(collapsed(l, instruction, depth) == Some(l));
    assert(collapsed(r, instruction, depth) == Some(r));
    assert(collapsed(f, instruction, depth) == Some(f));
    assert(collapsed(whole, instruction, depth) == collapse_flag(
        op,
        Some(l),
        Some(r),
        Some(f),
        width,
    ));
    let nr = lit(canonical(!b, width), width);
    let nf = lit(canonical(!c, 1), 1);
    assert(canon(not_of(r)) == Some(nr));
    assert(canon(not_of(f)) == Some(nf));
    assert(collapsed(nr, instruction, depth) == Some(nr));
    assert(collapsed(nf, instruction, depth) == Some(nf));
    let overflow = op == FlagOp::AddOverflow || op == FlagOp::SubOverflow;
    let plain = if overflow {
        FlagOp::AddOverflow
    } else {
        FlagOp::AddCarryOut
    };
    if op == FlagOp::SubCarryOut || op == FlagOp::SubOverflow {
        let form = flag_node(overflow, l, nr, nf, width);
        assert(canon(whole) == canon_flag(overflow, Some(l), Some(nr), Some(nf), width));
        assert(collapsed(form, instruction, depth) == collapse_flag(
            plain,
            Some(l),
            Some(nr),
            Some(nf),
            width,
        ));
    } else {
        let form = flag_node(overflow, l, r, f, width);
        assert(canon(whole) == canon_flag(overflow, Some(l), Some(r), Some(f), width));
        assert(collapsed(form, instruction, depth) == collapse_flag(
            plain,
            Some(l),
            Some(r),
            Some(f),
            width,
        ));
    }
}

} // verus!
