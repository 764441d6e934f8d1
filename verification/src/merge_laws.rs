//! Merging patterns keeps the points that they stand for.
use vstd::prelude::*;

use crate::bit::{
    all_concrete, bit_accepts, cube_contains, differ_only_at, mergeable, merged, occurrences,
    pattern_matches, Bit,
};
use crate::field_uses::{
    all_of_len, has_partner, is_merge, lemma_maximal_twice, lemma_no_partners,
    lemma_occurrences_bound, lemma_round_progress, lemma_round_settled, maximal, merge_round,
    merge_rounds, merged_patterns, partners_variable, subsumed,
};
use crate::pattern_cover::{all_testless, covered, testless};

verus! {

/// Two adjacent patterns merge into one that stands for the points of both, and no others.
pub proof fn lemma_merged_points(a: Seq<Bit>, b: Seq<Bit>, bits: Seq<Bit>)
    requires
        mergeable(a, b),
    ensures
        pattern_matches(a, bits) || pattern_matches(b, bits) ==> pattern_matches(
            merged(a, b),
            bits,
        ),
        all_concrete(bits) && pattern_matches(merged(a, b), bits) ==> pattern_matches(a, bits)
            || pattern_matches(b, bits),
{
    let at = choose|at: int| differ_only_at(a, b, at);
    let m = merged(a, b);
    assert(m =~= a.update(at, Bit::Var));
    if pattern_matches(a, bits) || pattern_matches(b, bits) {
        assert forall|i: int| 0 <= i < bits.len() implies bit_accepts(#[trigger] m[i], bits[i]) by {
            if i != at {
                assert(a[i] == b[i]);
                assert(pattern_matches(a, bits) ==> bit_accepts(a[i], bits[i]));
                assert(pattern_matches(b, bits) ==> bit_accepts(b[i], bits[i]));
            }
        }
    }
    if all_concrete(bits) && pattern_matches(m, bits) {
        assert(bits[at].concrete());
        let side = if a[at] == bits[at] {
            a
        } else {
            b
        };
        assert forall|i: int| 0 <= i < bits.len() implies bit_accepts(
            #[trigger] side[i],
            bits[i],
        ) by {
            if i != at {
                assert(a[i] == b[i]);
                assert(bit_accepts(m[i], bits[i]));
            }
        }
    }
}

/// A pattern that contains another one stands for its points.
proof fn lemma_contains_points(a: Seq<Bit>, b: Seq<Bit>, bits: Seq<Bit>)
    requires
        a.len() == b.len(),
        cube_contains(a, b),
        pattern_matches(b, bits),
    ensures
        pattern_matches(a, bits),
{
    assert forall|i: int| 0 <= i < bits.len() implies bit_accepts(#[trigger] a[i], bits[i]) by {
        assert(bit_accepts(b[i], bits[i]));
    }
}

/// A pattern that contains another one has more variable bits.
pub(crate) proof fn lemma_contains_variable(a: Seq<Bit>, b: Seq<Bit>)
    requires
        a.len() == b.len(),
        cube_contains(a, b),
    ensures
        occurrences(a, Bit::Var) >= occurrences(b, Bit::Var),
        a != b ==> occurrences(a, Bit::Var) > occurrences(b, Bit::Var),
    decreases a.len(),
{
    if a.len() > 0 {
        let c = a.drop_last();
        let d = b.drop_last();
        assert forall|i: int| 0 <= i < c.len() && i < d.len() implies (#[trigger] c[i] == Bit::Var
            || c[i] == d[i]) by {
            assert(a[i] == Bit::Var || a[i] == b[i]);
        }
        lemma_contains_variable(c, d);
        assert(a[a.len() - 1] == Bit::Var || a[a.len() - 1] == b[a.len() - 1]);
        if a.last() == b.last() && c == d {
            assert(a =~= c.push(a.last()));
            assert(b =~= d.push(b.last()));
        }
    } else {
        assert(a =~= b);
    }
}

/// Some maximal pattern stands for a point that a pattern of the set stands for.
proof fn lemma_maximal_reaches(
    patterns: Set<Seq<Bit>>,
    p: Seq<Bit>,
    bits: Seq<Bit>,
    len: nat,
)
    requires
        all_of_len(patterns, len),
        patterns.contains(p),
        pattern_matches(p, bits),
    ensures
        covered(maximal(patterns), bits),
    decreases len - occurrences(p, Bit::Var),
{
    lemma_occurrences_bound(p, Bit::Var);
    if subsumed(patterns, p) {
        let other = choose|other: Seq<Bit>|
            #[trigger] patterns.contains(other) && other != p && cube_contains(other, p);
        lemma_contains_points(other, p, bits);
        lemma_contains_variable(other, p);
        lemma_occurrences_bound(other, Bit::Var);
        lemma_maximal_reaches(patterns, other, bits, len);
    } else {
        assert(maximal(patterns).contains(p));
    }
}

/// Dropping the patterns that others contain keeps the points.
pub proof fn lemma_maximal_points(patterns: Set<Seq<Bit>>, bits: Seq<Bit>, len: nat)
    requires
        all_of_len(patterns, len),
    ensures
        covered(maximal(patterns), bits) == covered(patterns, bits),
{
    if covered(patterns, bits) {
        let p = choose|p: Seq<Bit>| #[trigger] patterns.contains(p) && pattern_matches(p, bits);
        lemma_maximal_reaches(patterns, p, bits, len);
    }
    if covered(maximal(patterns), bits) {
        let p = choose|p: Seq<Bit>|
            #[trigger] maximal(patterns).contains(p) && pattern_matches(p, bits);
        assert(patterns.contains(p));
    }
}

/// A round of merging loses no point and gains none.
proof fn lemma_round_points(patterns: Set<Seq<Bit>>, bits: Seq<Bit>, len: nat)
    requires
        all_of_len(patterns, len),
    ensures
        all_of_len(merge_round(patterns), len),
        covered(patterns, bits) ==> covered(merge_round(patterns), bits),
        all_concrete(bits) && covered(merge_round(patterns), bits) ==> covered(patterns, bits),
{
    let next = Set::new(
        |p: Seq<Bit>| (patterns.contains(p) && !has_partner(patterns, p)) || is_merge(patterns, p),
    );
    assert(partners_variable(patterns, 0));
    lemma_round_progress(patterns, 0, len);
    assert forall|p: Seq<Bit>| #[trigger] next.contains(p) implies p.len() == len by {
        if is_merge(patterns, p) {
            let (a, b) = choose|a: Seq<Bit>, b: Seq<Bit>|
                #[trigger] patterns.contains(a) && #[trigger] patterns.contains(b) && mergeable(
                    a,
                    b,
                ) && p == merged(a, b);
            assert(p.len() == a.len());
        }
    }
    if covered(patterns, bits) {
        let p = choose|p: Seq<Bit>| #[trigger] patterns.contains(p) && pattern_matches(p, bits);
        if has_partner(patterns, p) {
            let q = choose|q: Seq<Bit>| #[trigger] patterns.contains(q) && mergeable(p, q);
            lemma_merged_points(p, q, bits);
            assert(is_merge(patterns, merged(p, q)));
            assert(next.contains(merged(p, q)));
        } else {
            assert(next.contains(p));
        }
        assert(covered(next, bits));
    }
    lemma_maximal_points(next, bits, len);
    if all_concrete(bits) && covered(next, bits) {
        let p = choose|p: Seq<Bit>| #[trigger] next.contains(p) && pattern_matches(p, bits);
        if is_merge(patterns, p) {
            let (a, b) = choose|a: Seq<Bit>, b: Seq<Bit>|
                #[trigger] patterns.contains(a) && #[trigger] patterns.contains(b) && mergeable(
                    a,
                    b,
                ) && p == merged(a, b);
            lemma_merged_points(a, b, bits);
        } else {
            assert(patterns.contains(p));
        }
    }
}

proof fn lemma_rounds_points(patterns: Set<Seq<Bit>>, rounds: nat, bits: Seq<Bit>, len: nat)
    requires
        all_of_len(patterns, len),
    ensures
        covered(patterns, bits) ==> covered(merge_rounds(patterns, rounds), bits),
        all_concrete(bits) && covered(merge_rounds(patterns, rounds), bits) ==> covered(
            patterns,
            bits,
        ),
    decreases rounds,
{
    if rounds > 0 && merge_round(patterns) != patterns {
        lemma_round_points(patterns, bits, len);
        lemma_rounds_points(merge_round(patterns), (rounds - 1) as nat, bits, len);
    }
}

/// Merging keeps the points that the patterns stand for; whatever a pattern accepts is
/// still accepted.
pub proof fn lemma_merging_keeps_points(patterns: Set<Seq<Bit>>, bits: Seq<Bit>, len: nat)
    requires
        all_of_len(patterns, len),
    ensures
        covered(patterns, bits) ==> covered(merged_patterns(patterns, len), bits),
        all_concrete(bits) ==> covered(merged_patterns(patterns, len), bits) == covered(
            patterns,
            bits,
        ),
{
    lemma_maximal_points(patterns, bits, len);
    lemma_rounds_points(maximal(patterns), len + 1, bits, len);
}

proof fn lemma_rounds_settle(patterns: Set<Seq<Bit>>, k: nat, len: nat)
    requires
        all_of_len(patterns, len),
        maximal(patterns) == patterns,
        partners_variable(patterns, k),
        k <= len,
    ensures
        merge_round(merge_rounds(patterns, (len + 1 - k) as nat)) == merge_rounds(
            patterns,
            (len + 1 - k) as nat,
        ),
        maximal(merge_rounds(patterns, (len + 1 - k) as nat)) == merge_rounds(
            patterns,
            (len + 1 - k) as nat,
        ),
    decreases len - k,
{
    if merge_round(patterns) != patterns {
        lemma_round_progress(patterns, k, len);
        lemma_maximal_twice(
            Set::new(
                |p: Seq<Bit>|
                    (patterns.contains(p) && !has_partner(patterns, p)) || is_merge(patterns, p),
            ),
        );
        if k >= len {
            lemma_no_partners(patterns, k, len);
            lemma_round_settled(patterns);
        } else {
            lemma_rounds_settle(merge_round(patterns), k + 1, len);
        }
    }
}

/// Merging goes on until nothing is left to do: a further round changes nothing, and no
/// pattern is contained in another one.
pub proof fn lemma_merging_settles(patterns: Set<Seq<Bit>>, len: nat)
    requires
        all_of_len(patterns, len),
    ensures
        merge_round(merged_patterns(patterns, len)) == merged_patterns(patterns, len),
        maximal(merged_patterns(patterns, len)) == merged_patterns(patterns, len),
{
    lemma_maximal_twice(patterns);
    assert(partners_variable(maximal(patterns), 0));
    lemma_rounds_settle(maximal(patterns), 0, len);
}

/// Merging brings in no `Test` bit.
pub proof fn lemma_merging_testless(patterns: Set<Seq<Bit>>, len: nat)
    requires
        all_testless(patterns),
    ensures
        all_testless(merged_patterns(patterns, len)),
{
    lemma_rounds_testless(maximal(patterns), len + 1);
}

proof fn lemma_rounds_testless(patterns: Set<Seq<Bit>>, rounds: nat)
    requires
        all_testless(patterns),
    ensures
        all_testless(merge_rounds(patterns, rounds)),
    decreases rounds,
{
    if rounds > 0 && merge_round(patterns) != patterns {
        let next = merge_round(patterns);
        assert forall|p: Seq<Bit>| #[trigger] next.contains(p) implies testless(p) by {
            if is_merge(patterns, p) {
                let (a, b) = choose|a: Seq<Bit>, b: Seq<Bit>|
                    #[trigger] patterns.contains(a) && #[trigger] patterns.contains(b) && mergeable(
                        a,
                        b,
                    ) && p == merged(a, b);
                assert(testless(a));
            }
        }
        lemma_rounds_testless(next, (rounds - 1) as nat);
    }
}

} // verus!
