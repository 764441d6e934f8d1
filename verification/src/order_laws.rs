//! The canonical form of a tree of one operator does not depend on the order and the grouping of
//! its leaves.
use vstd::multiset::{group_multiset_axioms, Multiset};
use vstd::prelude::*;
use vstd::seq_lib::{
    lemma_multiset_commutative, lemma_seq_union_to_multiset_commutative, to_multiset_build,
    to_multiset_contains, to_multiset_len, to_multiset_remove,
};

use crate::canonical_form::{
    absorbed, at_end, below, canon, canon_all, canon_assoc, combine_terms, flatten, flatten_all,
    includes, kept, known, node, reaches_end, sorted_by_key, unabsorbed, unknowns, weight,
};
use crate::canonical_weight::{both, item, lemma_both, lemma_measure_flatten, measure};
use crate::canonicalize::{lemma_canon_all, lemma_canon_each};
use crate::const_eval::{canonical, combine, valid_width, AssocCommOp};
use crate::instruction_semantics::ExprV;
use crate::expr_shape::key_le;
use crate::key_laws::lemma_key_total;
use crate::sort_laws::{lemma_sorted_by_key, ordered};
use crate::word_laws::{fits, lemma_combine_fits, lemma_combine_monoid, lemma_fits};

verus! {

/// The rows hold the same terms, each as often.
pub open spec fn rearranged(a: Seq<ExprV>, b: Seq<ExprV>) -> bool {
    a.to_multiset() == b.to_multiset()
}

/// The last term of a row stands somewhere in a rearranged one, and the rest is rearranged too.
proof fn lemma_last_found(a: Seq<ExprV>, b: Seq<ExprV>) -> (k: int)
    requires
        rearranged(a, b),
        a.len() > 0,
    ensures
        0 <= k < b.len(),
        a.len() == b.len(),
        b[k] == a.last(),
        rearranged(a.drop_last(), b.remove(k)),
{
    broadcast use group_multiset_axioms, to_multiset_contains, to_multiset_len;

    lemma_rearranged(a, b);
    assert(a.contains(a.last()));
    assert(b.to_multiset().contains(a.last()));
    assert(b.contains(a.last()));
    let k = b.index_of(a.last());
    to_multiset_remove(b, k);
    assert(a =~= a.drop_last().push(a.last()));
    to_multiset_build(a.drop_last(), a.last());
    assert(a.drop_last().to_multiset() =~= b.remove(k).to_multiset());
    k
}

/// Rearranged rows are of the same length and hold the same terms.
proof fn lemma_rearranged(a: Seq<ExprV>, b: Seq<ExprV>)
    requires
        rearranged(a, b),
    ensures
        a.len() == b.len(),
        forall|term: ExprV| a.contains(term) <==> b.contains(term),
{
    broadcast use group_multiset_axioms, to_multiset_contains, to_multiset_len;

    to_multiset_len(a);
    to_multiset_len(b);
    assert forall|term: ExprV| a.contains(term) <==> b.contains(term) by {
        assert(a.to_multiset().contains(term) <==> b.to_multiset().contains(term));
    }
}

/// What the terms of a row make together, each by itself.
spec fn gathered(terms: Seq<ExprV>, make: spec_fn(ExprV) -> Multiset<ExprV>) -> Multiset<ExprV>
    decreases terms.len(),
{
    if terms.len() == 0 {
        Multiset::empty()
    } else {
        gathered(terms.drop_last(), make).add(make(terms.last()))
    }
}

proof fn lemma_gathered_remove(
    terms: Seq<ExprV>,
    k: int,
    make: spec_fn(ExprV) -> Multiset<ExprV>,
)
    requires
        0 <= k < terms.len(),
    ensures
        gathered(terms, make) == gathered(terms.remove(k), make).add(make(terms[k])),
    decreases terms.len(),
{
    broadcast use group_multiset_axioms;

    let rest = terms.remove(k);
    if k == terms.len() - 1 {
        assert(rest =~= terms.drop_last());
    } else {
        let front = terms.drop_last();
        lemma_gathered_remove(front, k, make);
        assert(rest.drop_last() =~= front.remove(k));
        assert(rest.last() == terms.last());
        assert(gathered(terms, make) =~= gathered(rest, make).add(make(terms[k])));
    }
}

proof fn lemma_gathered(
    a: Seq<ExprV>,
    b: Seq<ExprV>,
    make: spec_fn(ExprV) -> Multiset<ExprV>,
)
    requires
        rearranged(a, b),
    ensures
        gathered(a, make) == gathered(b, make),
    decreases a.len(),
{
    lemma_rearranged(a, b);
    if a.len() > 0 {
        let k = lemma_last_found(a, b);
        lemma_gathered(a.drop_last(), b.remove(k), make);
        lemma_gathered_remove(b, k, make);
    }
}

/// A row as what its terms make.
spec fn alone_in(drop: spec_fn(ExprV) -> bool) -> spec_fn(ExprV) -> Multiset<ExprV> {
    |term: ExprV|
        if drop(term) {
            Multiset::empty()
        } else {
            Multiset::singleton(term)
        }
}

proof fn lemma_unknowns_gathered(terms: Seq<ExprV>)
    ensures
        unknowns(terms).to_multiset() == gathered(terms, alone_in(|term: ExprV| term is Const)),
    decreases terms.len(),
{
    broadcast use group_multiset_axioms, to_multiset_build;

    let make = alone_in(|term: ExprV| term is Const);
    if terms.len() > 0 {
        lemma_unknowns_gathered(terms.drop_last());
        assert(unknowns(terms).to_multiset() =~= gathered(terms, make));
    } else {
        assert(unknowns(terms).to_multiset() =~= Multiset::empty()) by {
            unknowns(terms).to_multiset_ensures();
        }
    }
}

proof fn lemma_flatten_gathered(op: AssocCommOp, terms: Seq<ExprV>)
    ensures
        flatten_all(op, terms).to_multiset() == gathered(
            terms,
            |term: ExprV| flatten(op, term).to_multiset(),
        ),
    decreases terms.len(),
{
    if terms.len() > 0 {
        lemma_flatten_gathered(op, terms.drop_last());
        lemma_multiset_commutative(
            flatten_all(op, terms.drop_last()),
            flatten(op, terms.last()),
        );
    } else {
        flatten_all(op, terms).to_multiset_ensures();
        assert(flatten_all(op, terms).to_multiset() =~= Multiset::empty());
    }
}

proof fn lemma_forms_gathered(terms: Seq<ExprV>, bound: nat)
    requires
        canon_all(terms, bound) is Some,
    ensures
        canon_all(terms, bound)->0.to_multiset() == gathered(
            terms,
            |term: ExprV| Multiset::singleton(canon(term)->0),
        ),
    decreases terms.len(),
{
    broadcast use group_multiset_axioms, to_multiset_build;

    let forms = canon_all(terms, bound)->0;
    if terms.len() > 0 {
        let front = terms.drop_last();
        assert(canon_all(front, bound) is Some);
        let made = below(terms.last(), bound);
        assert(made is Some);
        assert(made == canon(terms.last()));
        lemma_forms_gathered(front, bound);
        assert(forms == canon_all(front, bound)->0.push(made->0));
        assert(forms.to_multiset() =~= gathered(
            terms,
            |term: ExprV| Multiset::singleton(canon(term)->0),
        ));
    } else {
        forms.to_multiset_ensures();
        assert(forms.to_multiset() =~= Multiset::empty());
    }
}

proof fn lemma_kept_gathered(
    op: AssocCommOp,
    terms: Seq<ExprV>,
    forms: Seq<ExprV>,
    n: nat,
    bound: nat,
    drop: spec_fn(ExprV) -> bool,
)
    requires
        n <= terms.len(),
        forall|i: int|
            0 <= i < terms.len() ==> drop(#[trigger] terms[i]) == absorbed(
                op,
                terms,
                forms,
                i,
                bound,
            ),
    ensures
        kept(op, terms, forms, n, bound).to_multiset() == gathered(
            terms.take(n as int),
            alone_in(drop),
        ),
    decreases n,
{
    broadcast use group_multiset_axioms, to_multiset_build;

    if n > 0 {
        lemma_kept_gathered(op, terms, forms, (n - 1) as nat, bound, drop);
        assert(terms.take(n as int).drop_last() =~= terms.take(n - 1));
        assert(terms.take(n as int).last() == terms[n - 1]);
        assert(drop(terms[n - 1]) == absorbed(op, terms, forms, n - 1, bound));
        assert(kept(op, terms, forms, n, bound).to_multiset() =~= gathered(
            terms.take(n as int),
            alone_in(drop),
        ));
    } else {
        kept(op, terms, forms, n, bound).to_multiset_ensures();
        assert(kept(op, terms, forms, n, bound).to_multiset() =~= Multiset::empty());
    }
}

/// Rearranged rows have canonical forms together, and these are rearranged.
proof fn lemma_forms_rearranged(a: Seq<ExprV>, b: Seq<ExprV>, bound: nat)
    requires
        rearranged(a, b),
    ensures
        canon_all(a, bound) is Some <==> canon_all(b, bound) is Some,
        canon_all(a, bound) is Some ==> rearranged(canon_all(a, bound)->0, canon_all(b, bound)->0),
{
    if canon_all(a, bound) is Some {
        lemma_forms_carried(a, b, bound);
    }
    if canon_all(b, bound) is Some {
        lemma_forms_carried(b, a, bound);
    }
    if canon_all(a, bound) is Some {
        lemma_forms_gathered(a, bound);
        lemma_forms_gathered(b, bound);
        lemma_gathered(a, b, |term: ExprV| Multiset::singleton(canon(term)->0));
    }
}

proof fn lemma_forms_carried(a: Seq<ExprV>, b: Seq<ExprV>, bound: nat)
    requires
        rearranged(a, b),
        canon_all(a, bound) is Some,
    ensures
        canon_all(b, bound) is Some,
{
    lemma_rearranged(a, b);
    lemma_canon_all(a, bound);
    assert forall|i: int| 0 <= i < b.len() implies weight(#[trigger] b[i]) < bound && canon(b[i])
        is Some by {
        assert(b.contains(b[i]));
        let j = a.index_of(b[i]);
        assert(a[j] == b[i]);
    }
    lemma_canon_each(b, bound);
}

/// The forms of two rows of the same terms.
spec fn same_rows(
    a: Seq<ExprV>,
    a_forms: Seq<ExprV>,
    b: Seq<ExprV>,
    b_forms: Seq<ExprV>,
    bound: nat,
) -> bool {
    &&& rearranged(a, b)
    &&& canon_all(a, bound) == Some(a_forms)
    &&& canon_all(b, bound) == Some(b_forms)
}

/// A step of the one row is a step of the other one.
proof fn lemma_same_step(
    op: AssocCommOp,
    a: Seq<ExprV>,
    a_forms: Seq<ExprV>,
    b: Seq<ExprV>,
    b_forms: Seq<ExprV>,
    i: int,
    k: int,
    j: int,
    bound: nat,
) -> (l: int)
    requires
        same_rows(a, a_forms, b, b_forms, bound),
        0 <= i < a.len(),
        0 <= k < b.len(),
        a[i] == b[k],
        0 <= j < a.len(),
        includes(op, a, a_forms, bound)(i, j),
    ensures
        0 <= l < b.len(),
        a[j] == b[l],
        includes(op, b, b_forms, bound)(k, l),
{
    lemma_rearranged(a, b);
    lemma_canon_all(a, bound);
    lemma_canon_all(b, bound);
    assert(a.contains(a[j]));
    let l = b.index_of(a[j]);
    assert(b[l] == a[j]);
    assert(canon(a[i]) == Some(a_forms[i]) && canon(b[k]) == Some(b_forms[k]));
    assert(canon(a[j]) == Some(a_forms[j]) && canon(b[l]) == Some(b_forms[l]));
    l
}

proof fn lemma_same_end(
    op: AssocCommOp,
    a: Seq<ExprV>,
    a_forms: Seq<ExprV>,
    b: Seq<ExprV>,
    b_forms: Seq<ExprV>,
    i: int,
    k: int,
    bound: nat,
)
    requires
        same_rows(a, a_forms, b, b_forms, bound),
        0 <= i < a.len(),
        0 <= k < b.len(),
        a[i] == b[k],
        at_end(includes(op, b, b_forms, bound), b.len(), k),
    ensures
        at_end(includes(op, a, a_forms, bound), a.len(), i),
{
    let relation = includes(op, a, a_forms, bound);
    assert forall|j: int| 0 <= j < a.len() implies !(#[trigger] relation(i, j)) by {
        if relation(i, j) {
            let l = lemma_same_step(op, a, a_forms, b, b_forms, i, k, j, bound);
            assert(includes(op, b, b_forms, bound)(k, l));
        }
    }
}

proof fn lemma_same_reach(
    op: AssocCommOp,
    a: Seq<ExprV>,
    a_forms: Seq<ExprV>,
    b: Seq<ExprV>,
    b_forms: Seq<ExprV>,
    i: int,
    k: int,
    steps: nat,
    bound: nat,
)
    requires
        same_rows(a, a_forms, b, b_forms, bound),
        0 <= i < a.len(),
        0 <= k < b.len(),
        a[i] == b[k],
        reaches_end(includes(op, a, a_forms, bound), a.len(), i, steps),
    ensures
        reaches_end(includes(op, b, b_forms, bound), b.len(), k, steps),
    decreases steps,
{
    let from = includes(op, a, a_forms, bound);
    let to = includes(op, b, b_forms, bound);
    lemma_rearranged(a, b);
    if at_end(from, a.len(), i) {
        lemma_same_end(op, b, b_forms, a, a_forms, k, i, bound);
    } else {
        let j = choose|j: int|
            0 <= j < a.len() && #[trigger] from(i, j) && reaches_end(
                from,
                a.len(),
                j,
                (steps - 1) as nat,
            );
        let l = lemma_same_step(op, a, a_forms, b, b_forms, i, k, j, bound);
        lemma_same_reach(op, a, a_forms, b, b_forms, j, l, (steps - 1) as nat, bound);
        assert(to(k, l));
    }
}

/// Equal terms of rearranged rows are absorbed together.
proof fn lemma_same_absorbed(
    op: AssocCommOp,
    a: Seq<ExprV>,
    a_forms: Seq<ExprV>,
    b: Seq<ExprV>,
    b_forms: Seq<ExprV>,
    i: int,
    k: int,
    bound: nat,
)
    requires
        same_rows(a, a_forms, b, b_forms, bound),
        0 <= i < a.len(),
        0 <= k < b.len(),
        a[i] == b[k],
        absorbed(op, a, a_forms, i, bound),
    ensures
        absorbed(op, b, b_forms, k, bound),
{
    lemma_rearranged(a, b);
    lemma_canon_all(a, bound);
    lemma_canon_all(b, bound);
    lemma_same_reach(op, a, a_forms, b, b_forms, i, k, a.len(), bound);
    if at_end(includes(op, b, b_forms, bound), b.len(), k) {
        lemma_same_end(op, a, a_forms, b, b_forms, i, k, bound);
    }
}

/// What stays of rearranged rows is rearranged.
proof fn lemma_unabsorbed_rearranged(op: AssocCommOp, a: Seq<ExprV>, b: Seq<ExprV>, bound: nat)
    requires
        rearranged(a, b),
    ensures
        unabsorbed(op, a, bound) is Some <==> unabsorbed(op, b, bound) is Some,
        unabsorbed(op, a, bound) is Some ==> rearranged(
            unabsorbed(op, a, bound)->0,
            unabsorbed(op, b, bound)->0,
        ),
{
    lemma_forms_rearranged(a, b, bound);
    if (op == AssocCommOp::And || op == AssocCommOp::Or) && canon_all(a, bound) is Some {
        let a_forms = canon_all(a, bound)->0;
        let b_forms = canon_all(b, bound)->0;
        let drop = |term: ExprV|
            exists|i: int|
                0 <= i < a.len() && a[i] == term && #[trigger] absorbed(op, a, a_forms, i, bound);
        assert forall|i: int| 0 <= i < a.len() implies drop(#[trigger] a[i]) == absorbed(
            op,
            a,
            a_forms,
            i,
            bound,
        ) by {
            if drop(a[i]) {
                let j = choose|j: int|
                    0 <= j < a.len() && a[j] == a[i] && #[trigger] absorbed(
                        op,
                        a,
                        a_forms,
                        j,
                        bound,
                    );
                lemma_same_absorbed(op, a, a_forms, a, a_forms, j, i, bound);
            }
        }
        assert forall|k: int| 0 <= k < b.len() implies drop(#[trigger] b[k]) == absorbed(
            op,
            b,
            b_forms,
            k,
            bound,
        ) by {
            lemma_rearranged(a, b);
            assert(b.contains(b[k]));
            let i = a.index_of(b[k]);
            assert(a[i] == b[k]);
            assert(drop(a[i]) == absorbed(op, a, a_forms, i, bound));
            if absorbed(op, a, a_forms, i, bound) {
                lemma_same_absorbed(op, a, a_forms, b, b_forms, i, k, bound);
            }
            if absorbed(op, b, b_forms, k, bound) {
                lemma_same_absorbed(op, b, b_forms, a, a_forms, k, i, bound);
            }
        }
        lemma_kept_gathered(op, a, a_forms, a.len(), bound, drop);
        lemma_kept_gathered(op, b, b_forms, b.len(), bound, drop);
        assert(a.take(a.len() as int) =~= a);
        assert(b.take(b.len() as int) =~= b);
        lemma_gathered(a, b, alone_in(drop));
    }
}

/// Two literals met in one word; a missing one is ignored, and widths must agree.
pub(crate) open spec fn met(
    op: AssocCommOp,
    a: Option<Option<(u128, u16)>>,
    b: Option<Option<(u128, u16)>>,
) -> Option<Option<(u128, u16)>> {
    match (a, b) {
        (Some(None), _) => b,
        (_, Some(None)) => a,
        (Some(Some((x, width))), Some(Some((y, other)))) => if width == other {
            Some(Some((combine(op, x, y, width), width)))
        } else {
            None
        },
        _ => None,
    }
}

/// What a single term contributes to the literals.
pub(crate) open spec fn literal_of(term: ExprV) -> Option<Option<(u128, u16)>> {
    match term {
        ExprV::Const { value, width } => if valid_width(width) {
            Some(Some((canonical(value, width), width)))
        } else {
            None
        },
        _ => Some(None),
    }
}

/// A literal fits its width.
pub(crate) open spec fn sound(a: Option<Option<(u128, u16)>>) -> bool {
    a matches Some(Some((x, width))) ==> fits(x, width)
}

proof fn lemma_met(
    op: AssocCommOp,
    a: Option<Option<(u128, u16)>>,
    b: Option<Option<(u128, u16)>>,
    c: Option<Option<(u128, u16)>>,
)
    requires
        sound(a),
        sound(b),
        sound(c),
    ensures
        sound(met(op, a, b)),
        met(op, a, b) == met(op, b, a),
        met(op, met(op, a, b), c) == met(op, a, met(op, b, c)),
{
    if let (Some(Some((x, w))), Some(Some((y, v)))) = (a, b) {
        if w == v {
            lemma_combine_fits(op, x, y, w);
            lemma_combine_monoid(op, x, y, x, w);
        }
        if let Some(Some((z, u))) = c {
            if w == v && v == u {
                lemma_combine_monoid(op, x, y, z, w);
            }
        }
    }
}

proof fn lemma_literal_sound(term: ExprV)
    ensures
        sound(literal_of(term)),
{
    if let ExprV::Const { value, width } = term {
        if valid_width(width) {
            lemma_fits(value, width);
        }
    }
}

pub(crate) proof fn lemma_known_met(op: AssocCommOp, terms: Seq<ExprV>)
    ensures
        sound(known(op, terms)),
        terms.len() > 0 ==> known(op, terms) == met(
            op,
            known(op, terms.drop_last()),
            literal_of(terms.last()),
        ),
    decreases terms.len(),
{
    if terms.len() > 0 {
        lemma_known_met(op, terms.drop_last());
        lemma_literal_sound(terms.last());
        lemma_met(op, known(op, terms.drop_last()), literal_of(terms.last()), None);
    }
}

proof fn lemma_known_remove(op: AssocCommOp, terms: Seq<ExprV>, k: int)
    requires
        0 <= k < terms.len(),
    ensures
        known(op, terms) == met(op, known(op, terms.remove(k)), literal_of(terms[k])),
    decreases terms.len(),
{
    let rest = terms.remove(k);
    lemma_known_met(op, terms);
    if k == terms.len() - 1 {
        assert(rest =~= terms.drop_last());
    } else {
        let front = terms.drop_last();
        lemma_known_remove(op, front, k);
        assert(rest.drop_last() =~= front.remove(k));
        assert(rest.last() == terms.last());
        lemma_known_met(op, rest);
        lemma_known_met(op, rest.drop_last());
        let (x, y, z) = (
            known(op, rest.drop_last()),
            literal_of(terms[k]),
            literal_of(terms.last()),
        );
        lemma_literal_sound(terms[k]);
        lemma_literal_sound(terms.last());
        lemma_met(op, x, y, z);
        lemma_met(op, x, z, y);
        lemma_met(op, y, z, y);
    }
}

proof fn lemma_known_same(op: AssocCommOp, a: Seq<ExprV>, b: Seq<ExprV>)
    requires
        rearranged(a, b),
    ensures
        known(op, a) == known(op, b),
    decreases a.len(),
{
    lemma_rearranged(a, b);
    if a.len() > 0 {
        let k = lemma_last_found(a, b);
        lemma_known_same(op, a.drop_last(), b.remove(k));
        lemma_known_remove(op, b, k);
        lemma_known_met(op, a);
    }
}

proof fn lemma_measure_remove(op: AssocCommOp, terms: Seq<ExprV>, k: int)
    requires
        0 <= k < terms.len(),
    ensures
        measure(op, terms) == both(op, measure(op, terms.remove(k)), item(op, terms[k])),
    decreases terms.len(),
{
    let rest = terms.remove(k);
    if k == terms.len() - 1 {
        assert(rest =~= terms.drop_last());
    } else {
        let front = terms.drop_last();
        lemma_measure_remove(op, front, k);
        assert(rest.drop_last() =~= front.remove(k));
        assert(rest.last() == terms.last());
        let (x, y, z) = (
            measure(op, rest.drop_last()),
            item(op, terms[k]),
            item(op, terms.last()),
        );
        lemma_both(op, x, y, z);
        lemma_both(op, x, z, y);
        lemma_both(op, y, z, y);
    }
}

proof fn lemma_measure_same(op: AssocCommOp, a: Seq<ExprV>, b: Seq<ExprV>)
    requires
        rearranged(a, b),
    ensures
        measure(op, a) == measure(op, b),
    decreases a.len(),
{
    lemma_rearranged(a, b);
    if a.len() > 0 {
        let k = lemma_last_found(a, b);
        lemma_measure_same(op, a.drop_last(), b.remove(k));
        lemma_measure_remove(op, b, k);
    }
}

/// Rows of the same terms in the order of their keys are the same.
proof fn lemma_ordered_same(a: Seq<ExprV>, b: Seq<ExprV>)
    requires
        rearranged(a, b),
        ordered(a),
        ordered(b),
    ensures
        a == b,
    decreases a.len(),
{
    lemma_rearranged(a, b);
    if a.len() == 0 {
        assert(a =~= b);
    } else {
        let n = a.len() - 1;
        let k = lemma_last_found(a, b);
        assert(b.contains(b[n]));
        let j = a.index_of(b[n]);
        assert(a[j] == b[n]);
        lemma_key_total(a[n], b[n]);
        assert(a[n] == b[n]) by {
            if k < n {
                assert(b[k] == a[n]);
            }
            if j < n {
                assert(a[j] == b[n]);
            }
        }
        let front = a.drop_last();
        let rest = b.drop_last();
        to_multiset_remove(b, n);
        to_multiset_remove(a, n);
        assert(a.remove(n) =~= front);
        assert(b.remove(n) =~= rest);
        assert forall|x: int, y: int| 0 <= x < y < n implies key_le(
            #[trigger] front[x],
            #[trigger] front[y],
        ) by {
            assert(front[x] == a[x] && front[y] == a[y]);
        }
        assert forall|x: int, y: int| 0 <= x < y < n implies key_le(
            #[trigger] rest[x],
            #[trigger] rest[y],
        ) by {
            assert(rest[x] == b[x] && rest[y] == b[y]);
        }
        lemma_ordered_same(front, rest);
        assert(a =~= front.push(a[n]));
        assert(b =~= rest.push(b[n]));
    }
}

/// Rearranged leaves make the same tree.
proof fn lemma_combined_same(op: AssocCommOp, a: Seq<ExprV>, b: Seq<ExprV>)
    requires
        rearranged(a, b),
    ensures
        combine_terms(op, a) == combine_terms(op, b),
{
    lemma_known_same(op, a, b);
    let make = alone_in(|term: ExprV| term is Const);
    lemma_unknowns_gathered(a);
    lemma_unknowns_gathered(b);
    lemma_gathered(a, b, make);
    let (x, y) = (sorted_by_key(unknowns(a)), sorted_by_key(unknowns(b)));
    lemma_sorted_by_key(unknowns(a));
    lemma_sorted_by_key(unknowns(b));
    lemma_ordered_same(x, y);
}

/// Two trees of an operator over the same leaves have the same canonical form, in whatever order
/// and grouping the leaves stand.
pub proof fn lemma_canon_any_order(op: AssocCommOp, a: ExprV, b: ExprV, c: ExprV, d: ExprV)
    requires
        rearranged(flatten(op, a) + flatten(op, b), flatten(op, c) + flatten(op, d)),
    ensures
        canon(node(op, a, b)) == canon(node(op, c, d)),
{
    let (from, to) = (flatten(op, a) + flatten(op, b), flatten(op, c) + flatten(op, d));
    let bound = weight(node(op, a, b));
    assert(weight(node(op, c, d)) == bound) by {
        lemma_measure_same(op, from, to);
        assert(flatten(op, node(op, a, b)) == from);
        assert(flatten(op, node(op, c, d)) == to);
        lemma_measure_flatten(op, node(op, a, b));
        lemma_measure_flatten(op, node(op, c, d));
    }
    assert(canon_assoc(op, a, b, bound) == canon_assoc(op, c, d, bound)) by {
        lemma_unabsorbed_rearranged(op, from, to, bound);
        if unabsorbed(op, from, bound) is Some {
            let (x, y) = (unabsorbed(op, from, bound)->0, unabsorbed(op, to, bound)->0);
            lemma_forms_rearranged(x, y, bound);
            if canon_all(x, bound) is Some {
                let (f, g) = (canon_all(x, bound)->0, canon_all(y, bound)->0);
                lemma_flatten_gathered(op, f);
                lemma_flatten_gathered(op, g);
                lemma_gathered(f, g, |term: ExprV| flatten(op, term).to_multiset());
                lemma_combined_same(op, flatten_all(op, f), flatten_all(op, g));
            }
        }
    }
    let made = canon_assoc(op, a, b, bound);
    assert(canon(node(op, a, b)) == canon(node(op, c, d)));
}

/// Swapping the operands of an operator and grouping them otherwise does not change the canonical
/// form.
pub proof fn lemma_canon_order_free(op: AssocCommOp, a: ExprV, b: ExprV, c: ExprV)
    ensures
        canon(node(op, a, b)) == canon(node(op, b, a)),
        canon(node(op, node(op, a, b), c)) == canon(node(op, c, node(op, b, a))),
        canon(node(op, node(op, a, b), c)) == canon(node(op, a, node(op, b, c))),
{
    broadcast use group_multiset_axioms;

    let (x, y, z) = (flatten(op, a), flatten(op, b), flatten(op, c));
    lemma_seq_union_to_multiset_commutative(x, y);
    lemma_canon_any_order(op, a, b, b, a);
    assert(flatten(op, node(op, a, b)) == x + y);
    assert(flatten(op, node(op, b, a)) == y + x);
    assert(flatten(op, node(op, b, c)) == y + z);
    lemma_multiset_commutative(x, y);
    lemma_multiset_commutative(y, x);
    lemma_multiset_commutative(x + y, z);
    lemma_multiset_commutative(z, y + x);
    assert((x + y + z).to_multiset() =~= (z + (y + x)).to_multiset());
    assert(x + y + z =~= x + (y + z));
    lemma_canon_any_order(op, node(op, a, b), c, c, node(op, b, a));
    lemma_canon_any_order(op, node(op, a, b), c, a, node(op, b, c));
}

/// Swapping the sides of an equality does not change the canonical form.
pub proof fn lemma_canon_equal_order_free(lhs: ExprV, rhs: ExprV)
    ensures
        canon(ExprV::Equal(Box::new(lhs), Box::new(rhs))) == canon(
            ExprV::Equal(Box::new(rhs), Box::new(lhs)),
        ),
{
    if canon(lhs) is Some && canon(rhs) is Some {
        lemma_key_total(canon(lhs)->0, canon(rhs)->0);
    }
    let forth = crate::canonical_form::canon_equal(canon(lhs), canon(rhs));
    let back = crate::canonical_form::canon_equal(canon(rhs), canon(lhs));
    assert(forth == back);
    assert(canon(ExprV::Equal(Box::new(lhs), Box::new(rhs))) == forth);
    assert(canon(ExprV::Equal(Box::new(rhs), Box::new(lhs))) == back);
}

} // verus!
