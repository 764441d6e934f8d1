//! Rewriting expressions into their canonical form.
use vstd::prelude::*;

use crate::canonical_form::{
    absorbed, at_end, below, canon, canon_all, canon_assoc, canon_equal, canon_extension,
    canon_extract, canon_less, canon_not, canon_shift, contains_term, flatten, flatten_all,
    includes, is_node, is_zero, kept, lit, literal_valid, lower_step, mul_step, node, opposite,
    reaches_end, select_step, settle, shifted_sum, sub_step, unabsorbed, weight, ExtensionOp,
    ShiftOp, Step,
};
use crate::canonical_weight::{lemma_steps_shrink, next_step, parts_of};
use crate::collections::viewed_option;
use crate::const_eval::{canonical_word, AssocCommOp};
use crate::expr_shape::{canonical_sort_key, key_not_after};
use crate::instruction_semantics::{
    add_carry_out, add_overflow, and_expr, bool_const, constant, not_expr, or_expr, shift_left,
    sign_extend, views, zero_extend, Expr, ExprV,
};
use crate::terms::{
    combine_leaves, const_bits, flatten_assoc_comm_op, lemma_views_push, lemma_views_rest,
    rebuild_concat,
};

verus! {

/// The canonical forms of a row are those of its parts.
pub(crate) proof fn lemma_canon_all(exprs: Seq<ExprV>, bound: nat)
    requires
        canon_all(exprs, bound) is Some,
    ensures
        canon_all(exprs, bound)->0.len() == exprs.len(),
        forall|i: int|
            0 <= i < exprs.len() ==> {
                &&& weight(#[trigger] exprs[i]) < bound
                &&& canon(exprs[i]) == Some(canon_all(exprs, bound)->0[i])
            },
    decreases exprs.len(),
{
    if exprs.len() > 0 {
        assert(canon_all(exprs.drop_last(), bound) is Some);
        assert(below(exprs.last(), bound) is Some);
        lemma_canon_all(exprs.drop_last(), bound);
        assert forall|i: int| 0 <= i < exprs.len() implies weight(#[trigger] exprs[i]) < bound
            && canon(exprs[i]) == Some(canon_all(exprs, bound)->0[i]) by {
            if i < exprs.len() - 1 {
                assert(exprs.drop_last()[i] == exprs[i]);
            }
        }
    }
}

/// A row has canonical forms when each of its parts has one.
pub(crate) proof fn lemma_canon_each(exprs: Seq<ExprV>, bound: nat)
    requires
        forall|i: int|
            0 <= i < exprs.len() ==> weight(#[trigger] exprs[i]) < bound && canon(exprs[i])
                is Some,
    ensures
        canon_all(exprs, bound) is Some,
    decreases exprs.len(),
{
    if exprs.len() > 0 {
        assert forall|i: int| 0 <= i < exprs.drop_last().len() implies weight(
            #[trigger] exprs.drop_last()[i],
        ) < bound && canon(exprs.drop_last()[i]) is Some by {
            assert(exprs.drop_last()[i] == exprs[i]);
        }
        lemma_canon_each(exprs.drop_last(), bound);
        assert(weight(exprs[exprs.len() - 1]) < bound);
        assert(below(exprs.last(), bound) is Some);
    }
}

/// The expressions of a row weigh less than the bound.
spec fn lighter(exprs: Seq<ExprV>, bound: nat) -> bool {
    forall|i: int| 0 <= i < exprs.len() ==> weight(#[trigger] exprs[i]) < bound
}

/// What a step rewrites to weighs less than the bound.
spec fn shrinks(step: Step, bound: nat) -> bool {
    step matches Step::Rewrite(expr) ==> weight(expr) < bound
}

/// A row of expressions that have canonical forms begins with such rows.
proof fn lemma_canon_prefix(exprs: Seq<ExprV>, bound: nat, k: int)
    requires
        0 <= k <= exprs.len(),
        canon_all(exprs, bound) is Some,
    ensures
        canon_all(exprs.take(k), bound) is Some,
    decreases exprs.len(),
{
    if k == exprs.len() {
        assert(exprs.take(k) =~= exprs);
    } else {
        assert(canon_all(exprs.drop_last(), bound) is Some);
        lemma_canon_prefix(exprs.drop_last(), bound, k);
        assert(exprs.drop_last().take(k) =~= exprs.take(k));
    }
}

/// Canonicalizes each expression of a row.
fn canonicalize_each(exprs: Vec<Expr>, Ghost(bound): Ghost<nat>) -> (r: Option<Vec<Expr>>)
    requires
        lighter(views(exprs@), bound),
    ensures
        match r {
            Some(forms) => canon_all(views(exprs@), bound) == Some(views(forms@)),
            None => canon_all(views(exprs@), bound) is None,
        },
    decreases bound, 1nat,
{
    let ghost all = views(exprs@);
    let mut rest = exprs;
    let mut r: Vec<Expr> = Vec::new();
    let ghost mut k: int = 0;
    assert(all.skip(0) =~= all);
    assert(all.take(0) =~= Seq::empty());
    assert(views(r@) =~= Seq::empty());
    while rest.len() > 0
        invariant
            0 <= k <= all.len(),
            all == views(exprs@),
            views(rest@) == all.skip(k),
            canon_all(all.take(k), bound) == Some(views(r@)),
            lighter(all, bound),
        decreases rest@.len(),
    {
        proof {
            assert(views(rest@).len() == rest@.len());
            lemma_views_rest(rest@);
            assert(all.skip(k).drop_first() =~= all.skip(k + 1));
            assert(all.skip(k)[0] == all[k]);
            assert(all.take(k + 1).drop_last() =~= all.take(k));
            assert(all.take(k + 1).last() == all[k]);
            assert(below(all[k], bound) == canon(all[k]));
            if canon_all(all, bound) is Some {
                lemma_canon_prefix(all, bound, k + 1);
            }
        }
        let expr = rest.remove(0);
        let form = canonicalize_expr(expr)?;
        proof {
            lemma_views_push(r@, form);
        }
        r.push(form);
        proof {
            k = k + 1;
        }
    }
    assert(views(rest@).len() == 0);
    assert(all.take(k) =~= all);
    Some(r)
}

/// Searches an `op` tree for a term equal to canonical `needle`.
fn assoc_comm_expr_contains(op: AssocCommOp, expr: &Expr, needle: &Expr) -> (r: bool)
    ensures
        r == contains_term(op, expr@, needle@),
    decreases weight(expr@), 9nat,
{
    match (op, expr) {
        (AssocCommOp::And, Expr::And(lhs, rhs)) | (AssocCommOp::Or, Expr::Or(lhs, rhs)) => {
            assoc_comm_expr_contains(op, lhs, needle) || assoc_comm_expr_contains(op, rhs, needle)
        },
        (_, expr) => match canonicalize_expr(expr.clone()) {
            Some(form) => form.same(needle),
            None => false,
        },
    }
}

/// Reports of which terms a term contains the canonical form, where it is not its own.
fn included_forms(
    op: AssocCommOp,
    candidate: &Expr,
    forms: &Vec<Expr>,
    i: usize,
    Ghost(all): Ghost<Seq<ExprV>>,
    Ghost(bound): Ghost<nat>,
) -> (r: Vec<bool>)
    requires
        op == AssocCommOp::And || op == AssocCommOp::Or,
        0 <= i < all.len(),
        i < forms@.len(),
        candidate@ == all[i as int],
        weight(candidate@) < bound,
    ensures
        row_of(r@, includes(op, all, views(forms@), bound), forms@.len(), i as int),
    decreases bound, 2nat,
{
    let opposite_op = if op == AssocCommOp::And {
        AssocCommOp::Or
    } else {
        AssocCommOp::And
    };
    let is_candidate = match (opposite_op, candidate) {
        (AssocCommOp::And, Expr::And(_, _)) | (AssocCommOp::Or, Expr::Or(_, _)) => true,
        _ => false,
    };
    assert(is_candidate == is_node(opposite_op, candidate@));
    let ghost form_views = views(forms@);
    let ghost relation = includes(op, all, form_views, bound);
    let mut r: Vec<bool> = Vec::new();
    while r.len() < forms.len()
        invariant
            r@.len() <= forms@.len(),
            form_views == views(forms@),
            relation == includes(op, all, form_views, bound),
            weight(candidate@) < bound,
            forall|n: int| 0 <= n < r@.len() ==> #[trigger] r@[n] == relation(i as int, n),
            i < forms@.len(),
            opposite_op == opposite(op),
            is_candidate == is_node(opposite_op, candidate@),
            candidate@ == all[i as int],
        decreases forms@.len() - r@.len(),
    {
        let j: usize = r.len();
        assert(form_views[j as int] == forms@[j as int]@);
        assert(form_views[i as int] == forms@[i as int]@);
        let included = is_candidate && !forms[i].same(&forms[j]) && assoc_comm_expr_contains(
            opposite_op,
            candidate,
            &forms[j],
        );
        assert(included == relation(i as int, j as int));
        r.push(included);
    }
    r
}

/// The flags say to which of the first `n` the relation leads from `i`.
spec fn row_of(flags: Seq<bool>, relation: spec_fn(int, int) -> bool, n: nat, i: int) -> bool {
    flags.len() == n && forall|j: int| 0 <= j < n ==> #[trigger] flags[j] == relation(i, j)
}

/// The rows of flags tell the relation among the first `n`.
spec fn rows_of(rows: Seq<Vec<bool>>, relation: spec_fn(int, int) -> bool, n: nat) -> bool {
    rows.len() == n && forall|i: int| 0 <= i < n ==> row_of(#[trigger] rows[i]@, relation, n, i)
}

/// Reports whether a row of flags holds one that is set in another one, or any at all.
fn any_set(row: &Vec<bool>, among: Option<&Vec<bool>>) -> (r: bool)
    requires
        among matches Some(flags) ==> flags@.len() == row@.len(),
    ensures
        r == exists|j: int|
            0 <= j < row@.len() && #[trigger] row@[j] && (among matches Some(flags) ==> flags@[j]),
{
    let mut j: usize = 0;
    while j < row.len()
        invariant
            j <= row@.len(),
            among matches Some(flags) ==> flags@.len() == row@.len(),
            forall|k: int|
                0 <= k < j && #[trigger] row@[k] ==> (among matches Some(flags) && !flags@[k]),
        decreases row@.len() - j,
    {
        if row[j] {
            let set = match among {
                Some(flags) => flags[j],
                None => true,
            };
            if set {
                assert(row@[j as int]);
                return true;
            }
        }
        j += 1;
    }
    false
}

/// Reports which terms at most that many steps of the relation lead to an end.
fn leading_to_end(
    rows: &Vec<Vec<bool>>,
    steps: usize,
    Ghost(relation): Ghost<spec_fn(int, int) -> bool>,
) -> (r: Vec<bool>)
    requires
        rows_of(rows@, relation, rows@.len()),
    ensures
        r@.len() == rows@.len(),
        forall|i: int|
            0 <= i < rows@.len() ==> #[trigger] r@[i] == reaches_end(
                relation,
                rows@.len(),
                i,
                steps as nat,
            ),
    decreases steps,
{
    let ghost n = rows@.len();
    let before = if steps > 0 {
        Some(leading_to_end(rows, steps - 1, Ghost(relation)))
    } else {
        None
    };
    let mut r: Vec<bool> = Vec::new();
    while r.len() < rows.len()
        invariant
            r@.len() <= n,
            n == rows@.len(),
            rows_of(rows@, relation, n),
            steps > 0 <==> before is Some,
            before matches Some(flags) ==> flags@.len() == n && forall|i: int|
                0 <= i < n ==> #[trigger] flags@[i] == reaches_end(
                    relation,
                    n,
                    i,
                    (steps - 1) as nat,
                ),
            forall|i: int|
                0 <= i < r@.len() ==> #[trigger] r@[i] == reaches_end(
                    relation,
                    n,
                    i,
                    steps as nat,
                ),
        decreases n - r@.len(),
    {
        let i: usize = r.len();
        let row = &rows[i];
        assert(row_of(rows@[i as int]@, relation, n, i as int));
        let ends = !any_set(row, None);
        assert(ends == at_end(relation, n, i as int)) by {
            assert forall|j: int| 0 <= j < n implies row@[j] == #[trigger] relation(
                i as int,
                j,
            ) by {}
        }
        let leads = match &before {
            Some(flags) => any_set(row, Some(flags)),
            None => false,
        };
        assert((ends || leads) == reaches_end(relation, n, i as int, steps as nat)) by {
            assert forall|j: int| 0 <= j < n implies row@[j] == #[trigger] relation(
                i as int,
                j,
            ) by {}
            if leads {
                let flags = before->0;
                let j = choose|j: int| 0 <= j < n && #[trigger] row@[j] && flags@[j];
                assert(relation(i as int, j));
            }
        }
        r.push(ends || leads);
    }
    r
}

/// Reports which terms are made redundant by terms that stay.
fn absorbed_terms(op: AssocCommOp, terms: &Vec<Expr>, forms: &Vec<Expr>, Ghost(bound): Ghost<nat>) -> (r:
    Vec<bool>)
    requires
        op == AssocCommOp::And || op == AssocCommOp::Or,
        terms@.len() == forms@.len(),
        lighter(views(terms@), bound),
    ensures
        r@.len() == terms@.len(),
        forall|i: int|
            0 <= i < terms@.len() ==> #[trigger] r@[i] == absorbed(
                op,
                views(terms@),
                views(forms@),
                i,
                bound,
            ),
    decreases bound, 3nat,
{
    let ghost all = views(terms@);
    let ghost n = terms@.len();
    let ghost relation = includes(op, all, views(forms@), bound);
    let mut rows: Vec<Vec<bool>> = Vec::new();
    while rows.len() < terms.len()
        invariant
            rows@.len() <= n,
            n == terms@.len(),
            n == forms@.len(),
            all == views(terms@),
            op == AssocCommOp::And || op == AssocCommOp::Or,
            relation == includes(op, all, views(forms@), bound),
            lighter(all, bound),
            forall|i: int|
                0 <= i < rows@.len() ==> row_of(#[trigger] rows@[i]@, relation, n, i),
        decreases n - rows@.len(),
    {
        let i: usize = rows.len();
        assert(all[i as int] == terms@[i as int]@);
        let row = included_forms(op, &terms[i], forms, i, Ghost(all), Ghost(bound));
        rows.push(row);
    }
    let leading = leading_to_end(&rows, rows.len(), Ghost(relation));
    let mut r: Vec<bool> = Vec::new();
    while r.len() < rows.len()
        invariant
            r@.len() <= n,
            n == rows@.len(),
            n == leading@.len(),
            n == views(forms@).len(),
            relation == includes(op, all, views(forms@), bound),
            rows_of(rows@, relation, n),
            forall|i: int|
                0 <= i < n ==> #[trigger] leading@[i] == reaches_end(relation, n, i, n),
            forall|i: int|
                0 <= i < r@.len() ==> #[trigger] r@[i] == absorbed(
                    op,
                    all,
                    views(forms@),
                    i,
                    bound,
                ),
        decreases n - r@.len(),
    {
        let i: usize = r.len();
        assert(row_of(rows@[i as int]@, relation, n, i as int));
        let ends = !any_set(&rows[i], None);
        assert(ends == at_end(relation, n, i as int)) by {
            assert forall|j: int| 0 <= j < n implies rows@[i as int]@[j] == #[trigger] relation(
                i as int,
                j,
            ) by {}
        }
        let gone = !ends && leading[i];
        assert(gone == absorbed(op, all, views(forms@), i as int, bound));
        r.push(gone);
    }
    r
}

/// Removes terms made redundant by Boolean absorption.
///
/// For an outer `And`, this removes `x | ...` terms containing another
/// top-level term `x`; for an outer `Or`, it analogously removes `x & ...`.
/// Terms that only contain each other all stay.
/// This must run before nested `Or` nodes are lowered to `And`/`Not`.
fn remove_absorbed_terms(op: AssocCommOp, terms: Vec<Expr>, Ghost(bound): Ghost<nat>) -> (r: Option<
    Vec<Expr>,
>)
    requires
        lighter(views(terms@), bound),
    ensures
        match r {
            Some(left) => unabsorbed(op, views(terms@), bound) == Some(views(left@)) && lighter(
                views(left@),
                bound,
            ),
            None => unabsorbed(op, views(terms@), bound) is None,
        },
    decreases bound, 4nat,
{
    if op != AssocCommOp::And && op != AssocCommOp::Or {
        return Some(terms);
    }
    let ghost all = views(terms@);
    let forms = canonicalize_each(
        crate::instruction_semantics::clone_exprs(&terms),
        Ghost(bound),
    )?;
    let ghost form_views = views(forms@);
    proof {
        lemma_canon_all(all, bound);
    }
    let gone = absorbed_terms(op, &terms, &forms, Ghost(bound));
    let mut rest = terms;
    let mut r: Vec<Expr> = Vec::new();
    let mut i: usize = 0;
    assert(all.skip(0) =~= all);
    assert(views(r@) =~= Seq::empty());
    while rest.len() > 0
        invariant
            i <= all.len(),
            all.len() == forms@.len(),
            form_views == views(forms@),
            op == AssocCommOp::And || op == AssocCommOp::Or,
            views(rest@) == all.skip(i as int),
            views(r@) == kept(op, all, form_views, i as nat, bound),
            lighter(all, bound),
            lighter(views(r@), bound),
            gone@.len() == all.len(),
            forall|j: int|
                0 <= j < all.len() ==> #[trigger] gone@[j] == absorbed(
                    op,
                    all,
                    form_views,
                    j,
                    bound,
                ),
        decreases rest@.len(),
    {
        proof {
            assert(views(rest@).len() == rest@.len());
            lemma_views_rest(rest@);
            assert(all.skip(i as int).drop_first() =~= all.skip(i + 1));
            assert(all.skip(i as int)[0] == all[i as int]);
            assert(i < forms.len());
        }
        let candidate = rest.remove(0);
        if !gone[i] {
            proof {
                lemma_views_push(r@, candidate);
            }
            r.push(candidate);
        }
        i += 1;
    }
    assert(views(rest@).len() == 0);
    Some(r)
}

/// Fully canonicalizes an associative/commutative operation.
///
/// The pass flattens before and after recursively canonicalizing children,
/// folds constants, sorts terms, removes identities and annihilators,
/// deduplicates `And`/`Or`, cancels even `Xor` multiplicities, applies
/// complement laws, and performs Boolean absorption before logical
/// lowering. Callers lower `Or`/`Xor` only after this returns.
fn canonicalize_assoc_comm_op(op: AssocCommOp, lhs: Expr, rhs: Expr, Ghost(bound): Ghost<nat>) -> (r:
    Option<Expr>)
    requires
        lighter(flatten(op, lhs@) + flatten(op, rhs@), bound),
    ensures
        viewed_option(r) == canon_assoc(op, lhs@, rhs@, bound),
    decreases bound, 5nat,
{
    let mut terms: Vec<Expr> = Vec::new();
    assert(views(terms@) =~= Seq::empty());
    flatten_assoc_comm_op(op, lhs, &mut terms);
    flatten_assoc_comm_op(op, rhs, &mut terms);
    assert(views(terms@) =~= flatten(op, lhs@) + flatten(op, rhs@));
    let terms = remove_absorbed_terms(op, terms, Ghost(bound))?;
    let forms = canonicalize_each(terms, Ghost(bound))?;
    let ghost all = views(forms@);
    let mut rest = forms;
    let mut leaves: Vec<Expr> = Vec::new();
    let ghost mut k: int = 0;
    assert(all.skip(0) =~= all);
    assert(all.take(0) =~= Seq::empty());
    assert(views(leaves@) =~= Seq::empty());
    while rest.len() > 0
        invariant
            0 <= k <= all.len(),
            views(rest@) == all.skip(k),
            views(leaves@) == flatten_all(op, all.take(k)),
        decreases rest@.len(),
    {
        proof {
            assert(views(rest@).len() == rest@.len());
            lemma_views_rest(rest@);
            assert(all.take(k + 1).drop_last() =~= all.take(k));
            assert(all.take(k + 1).last() == all[k]);
            assert(all.skip(k).drop_first() =~= all.skip(k + 1));
        }
        let form = rest.remove(0);
        flatten_assoc_comm_op(op, form, &mut leaves);
        proof {
            k = k + 1;
        }
    }
    assert(views(rest@).len() == 0);
    assert(all.take(k) =~= all);
    combine_leaves(op, leaves)
}

/// Given a variable term x (ie unknown) and a constant term a, convert x * a to
/// a series of shifts and adds.
fn mul_to_shift_add(term: Expr, factor: u128, width: u16, Ghost(bound): Ghost<nat>) -> (r: Option<
    Expr,
>)
    requires
        weight(shifted_sum(term@, factor, lit(0, width), width)) < bound,
    ensures
        viewed_option(r) == canon(shifted_sum(term@, factor, lit(0, width), width)),
    decreases bound, 0nat,
{
    let mut sum = constant(0, width);
    let mut term = term;
    let mut left: u128 = factor;
    let ghost whole = shifted_sum(term@, factor, lit(0, width), width);
    while left != 0
        invariant
            shifted_sum(term@, left, sum@, width) == whole,
        decreases left,
    {
        // If the LSB of the constant term is 1, shifting it right by one
        // will result in a lost bit, so we need to add the term.
        if left % 2 == 1 {
            sum = crate::instruction_semantics::add(sum, term.clone());
        }
        // If the variable term is already a shift, we can just add one to its amount.
        term = match term {
            Expr::ShiftLeft(value, amount) => {
                shift_left(
                    *value,
                    crate::instruction_semantics::add(*amount, constant(1, width)),
                )
            },
            other => shift_left(other, constant(1, width)),
        };
        left = left / 2;
    }
    canonicalize_expr(sum)
}

/// Reduces multiplies, where one operand is a constant, to a combination of shift and add.
fn canonicalize_mul(expr: Expr, Ghost(bound): Ghost<nat>) -> (r: Option<Expr>)
    requires
        shrinks(mul_step(Some(expr@)), bound),
    ensures
        viewed_option(r) == settle(mul_step(Some(expr@)), bound),
    decreases bound, 4nat,
{
    let ghost whole = expr@;
    let width = expr.expr_width()?;
    match expr {
        Expr::Mul(lhs, rhs) => {
            let lhs = *lhs;
            let rhs = *rhs;
            assert(whole == ExprV::Mul(Box::new(lhs@), Box::new(rhs@)));
            match (lhs, rhs) {
                (Expr::Const { value: a, .. }, Expr::Const { value: b, .. }) => {
                    let product = a.checked_mul(b)?;
                    if width == 0 || width > 128 {
                        return None;
                    }
                    Some(constant(canonical_word(product, width), width))
                },
                (Expr::Const { value, .. }, term) => mul_to_shift_add(
                    term,
                    value,
                    width,
                    Ghost(bound),
                ),
                (term, Expr::Const { value, .. }) => mul_to_shift_add(
                    term,
                    value,
                    width,
                    Ghost(bound),
                ),
                (lhs, rhs) => Some(crate::instruction_semantics::mul(lhs, rhs)),
            }
        },
        expr => Some(expr),
    }
}

/// Lowers `Or`, `Xor`, and `Select` into the primitive operator set.
///
/// `Or` and `Xor` become combinations of `And` and `Not`. `Select`
/// sign-extends its 1-bit condition into an all-zero/all-one mask and uses
/// the same primitive operators. Call this only after child expressions and
/// same-operator associative terms have been canonicalized.
fn lower_operators(expr: Expr, Ghost(bound): Ghost<nat>) -> (r: Option<Expr>)
    requires
        shrinks(lower_step(Some(expr@)), bound),
    ensures
        viewed_option(r) == settle(lower_step(Some(expr@)), bound),
    decreases bound, 4nat,
{
    match expr {
        Expr::Or(lhs, rhs) => canonicalize_expr(
            not_expr(and_expr(not_expr(*lhs), not_expr(*rhs))),
        ),
        Expr::Xor(lhs, rhs) => {
            let lhs = *lhs;
            let rhs = *rhs;
            canonicalize_expr(
                or_expr(
                    and_expr(lhs.clone(), not_expr(rhs.clone())),
                    and_expr(not_expr(lhs), rhs),
                ),
            )
        },
        Expr::Select { condition, when_true, when_false } => {
            if let Some(condition_width) = condition.expr_width() {
                if condition_width != 1 {
                    return None;
                }
            }
            let width = when_true.expr_width()?;
            if when_false.expr_width()? != width {
                return None;
            }
            let wide = sign_extend(*condition, width);
            canonicalize_expr(
                not_expr(
                    and_expr(
                        not_expr(and_expr(not_expr(wide.clone()), *when_false)),
                        not_expr(and_expr(wide, *when_true)),
                    ),
                ),
            )
        },
        expr => Some(expr),
    }
}

/// Reports whether the expression is no literal of an invalid width.
fn is_literal_valid(expr: &Expr) -> (r: bool)
    ensures
        r == literal_valid(expr@),
{
    match expr {
        Expr::Const { width, .. } => 1 <= *width && *width <= 128,
        _ => true,
    }
}

/// The expression is a zero literal.
fn zero_literal(expr: &Expr) -> (r: bool)
    requires
        literal_valid(expr@),
    ensures
        r == is_zero(expr@),
{
    match expr {
        Expr::Const { value, width } => canonical_word(*value, *width) == 0,
        _ => false,
    }
}

/// Canonicalizes a shift/rotate and removes zero-value identities.
///
/// Both children are canonical. A zero amount returns the input;
/// a zero input returns a zero constant. Constant evaluation itself is done
/// by `collapse`.
fn canonicalize_shift_like_op(op: ShiftOp, value: Expr, amount: Expr) -> (r: Option<Expr>)
    ensures
        viewed_option(r) == canon_shift(op, Some(value@), Some(amount@)),
{
    if !is_literal_valid(&amount) {
        return None;
    }
    if zero_literal(&amount) {
        return Some(value);
    }
    if !is_literal_valid(&value) {
        return None;
    }
    if zero_literal(&value) {
        if let Expr::Const { width, .. } = value {
            return Some(constant(0, width));
        }
    }
    let value = Box::new(value);
    let amount = Box::new(amount);
    Some(
        match op {
            ShiftOp::Left => Expr::ShiftLeft(value, amount),
            ShiftOp::LogicalRight => Expr::LogicalShiftRight(value, amount),
            ShiftOp::ArithmeticRight => Expr::ArithmeticShiftRight(value, amount),
            ShiftOp::RotateRight => Expr::RotateRight(value, amount),
        },
    )
}

/// Canonicalizes an extension of a canonical value and removes redundant nesting.
///
/// Equal-width extensions disappear and nested extensions of the same kind collapse
/// to the outer width.
fn canonicalize_extension(op: ExtensionOp, value: Expr, to_width: u16) -> (r: Option<Expr>)
    ensures
        viewed_option(r) == canon_extension(op, Some(value@), to_width),
{
    if let Some(width) = value.expr_width() {
        if width > to_width {
            return None;
        }
        if width == to_width {
            return Some(value);
        }
    }
    Some(
        match op {
            ExtensionOp::Zero => match value {
                Expr::ZeroExtend { value, .. } => zero_extend(*value, to_width),
                value => zero_extend(value, to_width),
            },
            ExtensionOp::Sign => match value {
                Expr::SignExtend { value, .. } => sign_extend(*value, to_width),
                value => sign_extend(value, to_width),
            },
        },
    )
}

/// Canonicalizes a difference of canonical operands.
fn canonicalize_sub(lhs: Expr, rhs: Expr, Ghost(bound): Ghost<nat>) -> (r: Option<Expr>)
    requires
        shrinks(sub_step(Some(lhs@), Some(rhs@)), bound),
    ensures
        viewed_option(r) == settle(sub_step(Some(lhs@), Some(rhs@)), bound),
    decreases bound, 4nat,
{
    if !is_literal_valid(&rhs) {
        return None;
    }
    if zero_literal(&rhs) {
        return Some(lhs);
    }
    let width = lhs.expr_width()?;
    if lhs.same(&rhs) {
        if width == 0 || width > 128 {
            return None;
        }
        Some(constant(0, width))
    } else {
        canonicalize_expr(
            crate::instruction_semantics::add(
                crate::instruction_semantics::add(lhs, not_expr(rhs)),
                constant(1, width),
            ),
        )
    }
}

/// Canonicalizes a bit range of a canonical value.
fn canonicalize_extract(value: Expr, high: u16, low: u16) -> (r: Option<Expr>)
    ensures
        viewed_option(r) == canon_extract(Some(value@), high, low),
{
    if high < low || high - low > 127 {
        return None;
    }
    if let Some(width) = value.expr_width() {
        if high >= width {
            return None;
        }
        if low == 0 && high - low + 1 == width {
            return Some(value);
        }
    }
    Some(crate::instruction_semantics::extract(value, high, low))
}

/// Canonicalizes an equality of canonical operands.
fn canonicalize_equal(lhs: Expr, rhs: Expr) -> (r: Expr)
    ensures
        canon_equal(Some(lhs@), Some(rhs@)) == Some(r@),
{
    if lhs.same(&rhs) {
        bool_const(true)
    } else if key_not_after(&lhs, &canonical_sort_key(&lhs), &rhs, &canonical_sort_key(&rhs)) {
        Expr::Equal(Box::new(lhs), Box::new(rhs))
    } else {
        Expr::Equal(Box::new(rhs), Box::new(lhs))
    }
}

/// Canonicalizes a comparison of canonical operands.
fn canonicalize_less(signed: bool, lhs: Expr, rhs: Expr) -> (r: Expr)
    ensures
        canon_less(signed, Some(lhs@), Some(rhs@)) == Some(r@),
{
    if lhs.same(&rhs) {
        bool_const(false)
    } else if signed {
        Expr::SignedLessThan(Box::new(lhs), Box::new(rhs))
    } else {
        Expr::UnsignedLessThan(Box::new(lhs), Box::new(rhs))
    }
}

/// Canonicalizes the complement of a canonical value.
fn canonicalize_not(value: Expr) -> (r: Option<Expr>)
    ensures
        viewed_option(r) == canon_not(Some(value@)),
{
    match value {
        Expr::Const { value, width } => {
            if width == 0 || width > 128 {
                return None;
            }
            Some(const_bits(!value, width))
        },
        Expr::Not(inner) => Some(*inner),
        value => Some(not_expr(value)),
    }
}

/// Canonicalizes a selection over canonical parts.
fn canonicalize_select(
    condition: Expr,
    when_true: Expr,
    when_false: Expr,
    Ghost(bound): Ghost<nat>,
) -> (r: Option<Expr>)
    requires
        shrinks(select_step(Some(condition@), Some(when_true@), Some(when_false@)), bound),
    ensures
        viewed_option(r) == settle(
            select_step(Some(condition@), Some(when_true@), Some(when_false@)),
            bound,
        ),
    decreases bound, 5nat,
{
    match condition {
        Expr::Const { value, width } => {
            if width != 1 {
                return None;
            }
            if canonical_word(value, 1) == 1 {
                Some(when_true)
            } else {
                Some(when_false)
            }
        },
        condition => {
            if when_true.same(&when_false) {
                Some(when_true)
            } else {
                lower_operators(
                    crate::instruction_semantics::select(condition, when_true, when_false),
                    Ghost(bound),
                )
            }
        },
    }
}

/// Canonicalizes a node of an associative/commutative operator.
fn canonicalize_tree(op: AssocCommOp, lhs: Expr, rhs: Expr) -> (r: Option<Expr>)
    ensures
        viewed_option(r) == canon(node(op, lhs@, rhs@)),
    decreases weight(node(op, lhs@, rhs@)), 7nat,
{
    let ghost whole = node(op, lhs@, rhs@);
    let ghost bound = weight(whole);
    let ghost tree_view = canon_assoc(op, lhs@, rhs@, bound);
    proof {
        lemma_steps_shrink(whole);
        assert(parts_of(whole) == flatten(op, lhs@) + flatten(op, rhs@));
    }
    let tree = canonicalize_assoc_comm_op(op, lhs, rhs, Ghost(bound));
    match op {
        AssocCommOp::Add | AssocCommOp::Mul => {
            proof {
                let made = settle(mul_step(tree_view), bound);
                assert(canon(whole) == made);
                assert(next_step(whole) == mul_step(tree_view));
            }
            canonicalize_mul(tree?, Ghost(bound))
        },
        AssocCommOp::And => tree,
        AssocCommOp::Or | AssocCommOp::Xor => {
            proof {
                let made = settle(lower_step(tree_view), bound);
                assert(canon(whole) == made);
                assert(next_step(whole) == lower_step(tree_view));
            }
            lower_operators(tree?, Ghost(bound))
        },
    }
}

/// Canonicalizes an expression, where it has a canonical form.
pub(crate) fn canonicalize_expr(expr: Expr) -> (r: Option<Expr>)
    ensures
        viewed_option(r) == canon(expr@),
    decreases weight(expr@), 8nat,
{
    let ghost bound = weight(expr@);
    match expr {
        Expr::Const { value, width } => {
            if width == 0 || width > 128 {
                return None;
            }
            Some(const_bits(value, width))
        },
        Expr::Operand(_) | Expr::DerivedValue(_) => Some(expr),
        Expr::ReadRegister { register, width } => {
            let register = canonicalize_expr(*register)?;
            Some(crate::instruction_semantics::read_register(register, width))
        },
        Expr::ReadMemory { address, width } => {
            let address = canonicalize_expr(*address)?;
            Some(crate::instruction_semantics::read_memory(address, width))
        },
        Expr::Add(lhs, rhs) => canonicalize_tree(AssocCommOp::Add, *lhs, *rhs),
        Expr::Sub(lhs, rhs) => {
            let ghost step = sub_step(canon(lhs@), canon(rhs@));
            proof {
                lemma_steps_shrink(expr@);
                assert(next_step(expr@) == step);
                let made = settle(step, bound);
                assert(canon(expr@) == made);
            }
            let lhs = canonicalize_expr(*lhs)?;
            let rhs = canonicalize_expr(*rhs)?;
            canonicalize_sub(lhs, rhs, Ghost(bound))
        },
        Expr::Mul(lhs, rhs) => canonicalize_tree(AssocCommOp::Mul, *lhs, *rhs),
        Expr::And(lhs, rhs) => canonicalize_tree(AssocCommOp::And, *lhs, *rhs),
        Expr::Or(lhs, rhs) => canonicalize_tree(AssocCommOp::Or, *lhs, *rhs),
        Expr::Xor(lhs, rhs) => canonicalize_tree(AssocCommOp::Xor, *lhs, *rhs),
        Expr::Not(value) => canonicalize_not(canonicalize_expr(*value)?),
        Expr::ShiftLeft(value, amount) => {
            let value = canonicalize_expr(*value)?;
            let amount = canonicalize_expr(*amount)?;
            canonicalize_shift_like_op(ShiftOp::Left, value, amount)
        },
        Expr::LogicalShiftRight(value, amount) => {
            let value = canonicalize_expr(*value)?;
            let amount = canonicalize_expr(*amount)?;
            canonicalize_shift_like_op(ShiftOp::LogicalRight, value, amount)
        },
        Expr::ArithmeticShiftRight(value, amount) => {
            let value = canonicalize_expr(*value)?;
            let amount = canonicalize_expr(*amount)?;
            canonicalize_shift_like_op(ShiftOp::ArithmeticRight, value, amount)
        },
        Expr::RotateRight(value, amount) => {
            let value = canonicalize_expr(*value)?;
            let amount = canonicalize_expr(*amount)?;
            canonicalize_shift_like_op(ShiftOp::RotateRight, value, amount)
        },
        Expr::Equal(lhs, rhs) => {
            let lhs = canonicalize_expr(*lhs)?;
            let rhs = canonicalize_expr(*rhs)?;
            Some(canonicalize_equal(lhs, rhs))
        },
        Expr::UnsignedLessThan(lhs, rhs) => {
            let lhs = canonicalize_expr(*lhs)?;
            let rhs = canonicalize_expr(*rhs)?;
            Some(canonicalize_less(false, lhs, rhs))
        },
        Expr::SignedLessThan(lhs, rhs) => {
            let lhs = canonicalize_expr(*lhs)?;
            let rhs = canonicalize_expr(*rhs)?;
            Some(canonicalize_less(true, lhs, rhs))
        },
        Expr::Extract { value, high, low } => {
            let value = canonicalize_expr(*value)?;
            canonicalize_extract(value, high, low)
        },
        Expr::Concat(values) => {
            assert(expr@ == ExprV::Concat(views(values@)));
            proof {
                lemma_steps_shrink(expr@);
                assert(parts_of(expr@) == views(values@));
            }
            let chunks = canonicalize_each(values, Ghost(bound))?;
            rebuild_concat(chunks)
        },
        Expr::ZeroExtend { value, to_width } => {
            let value = canonicalize_expr(*value)?;
            canonicalize_extension(ExtensionOp::Zero, value, to_width)
        },
        Expr::SignExtend { value, to_width } => {
            let value = canonicalize_expr(*value)?;
            canonicalize_extension(ExtensionOp::Sign, value, to_width)
        },
        Expr::CountOnes(value) => {
            let value = canonicalize_expr(*value)?;
            Some(crate::instruction_semantics::count_ones(value))
        },
        Expr::AddCarryOut { lhs, rhs, carry_in, width } => {
            let lhs = canonicalize_expr(*lhs)?;
            let rhs = canonicalize_expr(*rhs)?;
            let carry_in = canonicalize_expr(*carry_in)?;
            Some(add_carry_out(lhs, rhs, carry_in, width))
        },
        Expr::AddOverflow { lhs, rhs, carry_in, width } => {
            let lhs = canonicalize_expr(*lhs)?;
            let rhs = canonicalize_expr(*rhs)?;
            let carry_in = canonicalize_expr(*carry_in)?;
            Some(add_overflow(lhs, rhs, carry_in, width))
        },
        Expr::SubCarryOut { lhs, rhs, borrow_in, width } => {
            let lhs = canonicalize_expr(*lhs)?;
            let rhs = canonicalize_expr(not_expr(*rhs))?;
            let carry_in = canonicalize_expr(not_expr(*borrow_in))?;
            Some(add_carry_out(lhs, rhs, carry_in, width))
        },
        Expr::SubOverflow { lhs, rhs, borrow_in, width } => {
            let lhs = canonicalize_expr(*lhs)?;
            let rhs = canonicalize_expr(not_expr(*rhs))?;
            let carry_in = canonicalize_expr(not_expr(*borrow_in))?;
            Some(add_overflow(lhs, rhs, carry_in, width))
        },
        Expr::Select { condition, when_true, when_false } => {
            let ghost step = select_step(canon(condition@), canon(when_true@), canon(when_false@));
            proof {
                lemma_steps_shrink(expr@);
                assert(next_step(expr@) == step);
                let made = settle(step, bound);
                assert(canon(expr@) == made);
            }
            let condition = canonicalize_expr(*condition)?;
            let when_true = canonicalize_expr(*when_true)?;
            let when_false = canonicalize_expr(*when_false)?;
            canonicalize_select(condition, when_true, when_false, Ghost(bound))
        },
    }
}

} // verus!
