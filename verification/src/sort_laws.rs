//! The order of terms in canonical forms.
use vstd::prelude::*;
use vstd::seq_lib::to_multiset_build;

use crate::canonical_form::{insert_by_key, sorted_by_key};
use crate::expr_shape::key_le;
use crate::instruction_semantics::ExprV;
use crate::key_laws::{lemma_key_total, lemma_key_transitive};

verus! {

/// No key is followed by a smaller one.
pub open spec fn ordered(terms: Seq<ExprV>) -> bool {
    forall|i: int, j: int|
        0 <= i < j < terms.len() ==> key_le(#[trigger] terms[i], #[trigger] terms[j])
}

proof fn lemma_insert_ordered(sorted: Seq<ExprV>, term: ExprV)
    requires
        ordered(sorted),
    ensures
        ordered(insert_by_key(sorted, term)),
        insert_by_key(sorted, term).to_multiset() == sorted.to_multiset().insert(term),
        forall|bound: ExprV|
            key_le(term, bound) && (forall|i: int|
                0 <= i < sorted.len() ==> key_le(#[trigger] sorted[i], bound)) ==> (forall|
                i: int,
            |
                0 <= i < insert_by_key(sorted, term).len() ==> key_le(
                    #[trigger] insert_by_key(sorted, term)[i],
                    bound,
                )),
    decreases sorted.len(),
{
    let r = insert_by_key(sorted, term);
    broadcast use to_multiset_build;

    if sorted.len() == 0 || key_le(sorted.last(), term) {
        assert forall|i: int, j: int| 0 <= i < j < r.len() implies key_le(
            #[trigger] r[i],
            #[trigger] r[j],
        ) by {
            if j == sorted.len() {
                if i < sorted.len() - 1 {
                    assert(key_le(sorted[i], sorted[sorted.len() - 1]));
                    lemma_key_transitive(sorted[i], sorted.last(), term);
                }
            } else {
                assert(r[i] == sorted[i] && r[j] == sorted[j]);
            }
        }
    } else {
        let front = sorted.drop_last();
        let last = sorted.last();
        lemma_key_total(last, term);
        assert forall|i: int, j: int| 0 <= i < j < front.len() implies key_le(
            #[trigger] front[i],
            #[trigger] front[j],
        ) by {
            assert(front[i] == sorted[i] && front[j] == sorted[j]);
        }
        lemma_insert_ordered(front, term);
        let inner = insert_by_key(front, term);
        assert forall|i: int| 0 <= i < front.len() implies key_le(#[trigger] front[i], last) by {
            assert(front[i] == sorted[i]);
            assert(last == sorted[sorted.len() - 1]);
        }
        assert(forall|i: int|
            0 <= i < inner.len() ==> key_le(#[trigger] inner[i], last));
        assert forall|i: int, j: int| 0 <= i < j < r.len() implies key_le(
            #[trigger] r[i],
            #[trigger] r[j],
        ) by {
            assert(r[i] == inner[i]);
            if j < inner.len() {
                assert(r[j] == inner[j]);
            }
        }
        assert(sorted =~= front.push(last));
        assert(r.to_multiset() =~= sorted.to_multiset().insert(term));
        assert forall|bound: ExprV|
            key_le(term, bound) && (forall|i: int|
                0 <= i < sorted.len() ==> key_le(#[trigger] sorted[i], bound)) implies (
        forall|i: int| 0 <= i < r.len() ==> key_le(#[trigger] r[i], bound)) by {
            assert forall|i: int| 0 <= i < front.len() implies key_le(
                #[trigger] front[i],
                bound,
            ) by {
                assert(front[i] == sorted[i]);
            }
            assert(key_le(sorted[sorted.len() - 1], bound));
            assert forall|i: int| 0 <= i < r.len() implies key_le(#[trigger] r[i], bound) by {
                if i < inner.len() {
                    assert(r[i] == inner[i]);
                }
            }
        }
    }
}

/// Sorting orders the terms by their keys, and neither loses a term nor brings one in.
pub proof fn lemma_sorted_by_key(terms: Seq<ExprV>)
    ensures
        ordered(sorted_by_key(terms)),
        sorted_by_key(terms).to_multiset() == terms.to_multiset(),
    decreases terms.len(),
{
    broadcast use to_multiset_build;

    if terms.len() > 0 {
        let front = terms.drop_last();
        lemma_sorted_by_key(front);
        lemma_insert_ordered(sorted_by_key(front), terms.last());
        assert(terms =~= front.push(terms.last()));
    } else {
        assert(terms =~= Seq::empty());
    }
}

} // verus!
