//! The values that a field may take, and their merging into fewer patterns.
use vstd::prelude::*;

use crate::bit::{cube_contains, differ_only_at, mergeable, merged, occurrences, Bit, BitPattern};
use crate::collections::{duplicate_option, same_option, viewed_option, OrderedSet, Value};

verus! {

/// The values that a field takes.
#[derive(Debug, PartialEq)]
pub enum FieldUses {
    /// The used values of the field is represented by a single bit pattern (eg 01 and 11 can be represented by x1)
    VariableBits { name: String, pattern: Option<BitPattern>, len: usize },
    /// The used values of the field is represented by a set of distinct bit patterns (eg 00, 01, and 11 can be represented by {00, 01, 11}, but not by a single pattern)
    Uses { name: String, patterns: OrderedSet<BitPattern>, len: usize },
}

/// The shape of the uses of a field.
pub enum FieldUsesV {
    VariableBits { name: Seq<char>, pattern: Option<Seq<Bit>>, len: usize },
    Uses { name: Seq<char>, patterns: Set<Seq<Bit>>, len: usize },
}

impl View for FieldUses {
    type V = FieldUsesV;

    open spec fn view(&self) -> FieldUsesV {
        match *self {
            FieldUses::VariableBits { name, pattern, len } => FieldUsesV::VariableBits {
                name: name@,
                pattern: viewed_option(pattern),
                len,
            },
            FieldUses::Uses { name, patterns, len } => FieldUsesV::Uses {
                name: name@,
                patterns: patterns@,
                len,
            },
        }
    }
}

impl Value for FieldUses {
    fn same(&self, other: &Self) -> (r: bool) {
        match (self, other) {
            (
                FieldUses::VariableBits { name, pattern, len },
                FieldUses::VariableBits { name: name2, pattern: pattern2, len: len2 },
            ) => *name == *name2 && same_option(pattern, pattern2) && *len == *len2,
            (
                FieldUses::Uses { name, patterns, len },
                FieldUses::Uses { name: name2, patterns: patterns2, len: len2 },
            ) => *name == *name2 && patterns.same(patterns2) && *len == *len2,
            _ => false,
        }
    }

    fn duplicate(&self) -> (r: Self) {
        match self {
            FieldUses::VariableBits { name, pattern, len } => FieldUses::VariableBits {
                name: name.clone(),
                pattern: duplicate_option(pattern),
                len: *len,
            },
            FieldUses::Uses { name, patterns, len } => FieldUses::Uses {
                name: name.clone(),
                patterns: patterns.duplicate(),
                len: *len,
            },
        }
    }
}

impl Clone for FieldUses {
    fn clone(&self) -> (r: Self)
        ensures
            r@ == self@,
    {
        self.duplicate()
    }
}

/// Another pattern of the set contains this one.
pub open spec fn subsumed(patterns: Set<Seq<Bit>>, pattern: Seq<Bit>) -> bool {
    exists|other: Seq<Bit>|
        #[trigger] patterns.contains(other) && other != pattern && cube_contains(other, pattern)
}

/// The patterns that no other one contains.
pub open spec fn maximal(patterns: Set<Seq<Bit>>) -> Set<Seq<Bit>> {
    patterns.filter(|p: Seq<Bit>| !subsumed(patterns, p))
}

/// The pattern merges with another one of the set.
pub open spec fn has_partner(patterns: Set<Seq<Bit>>, pattern: Seq<Bit>) -> bool {
    exists|other: Seq<Bit>| #[trigger] patterns.contains(other) && mergeable(pattern, other)
}

/// The pattern comes from merging two patterns of the set.
pub open spec fn is_merge(patterns: Set<Seq<Bit>>, pattern: Seq<Bit>) -> bool {
    exists|a: Seq<Bit>, b: Seq<Bit>|
        #[trigger] patterns.contains(a) && #[trigger] patterns.contains(b) && mergeable(a, b)
            && pattern == merged(a, b)
}

/// One round of merging: patterns with a partner give way to what they merge into.
pub open spec fn merge_round(patterns: Set<Seq<Bit>>) -> Set<Seq<Bit>> {
    maximal(
        Set::new(
            |p: Seq<Bit>|
                (patterns.contains(p) && !has_partner(patterns, p)) || is_merge(patterns, p),
        ),
    )
}

/// Rounds of merging until nothing changes, at most `rounds` of them.
pub open spec fn merge_rounds(patterns: Set<Seq<Bit>>, rounds: nat) -> Set<Seq<Bit>>
    decreases rounds,
{
    if rounds == 0 || merge_round(patterns) == patterns {
        patterns
    } else {
        merge_rounds(merge_round(patterns), (rounds - 1) as nat)
    }
}

/// The patterns after Quine–McCluskey merging.
///
/// Each round makes the merging patterns more variable, so patterns of `len` bits settle
/// within `len + 1` rounds.
pub open spec fn merged_patterns(patterns: Set<Seq<Bit>>, len: nat) -> Set<Seq<Bit>> {
    merge_rounds(maximal(patterns), len + 1)
}

/// The uses after merging.
pub open spec fn merged_uses(uses: FieldUsesV) -> FieldUsesV {
    match uses {
        FieldUsesV::Uses { name, patterns, len } => FieldUsesV::Uses {
            name,
            patterns: merged_patterns(patterns, len as nat),
            len,
        },
        other => other,
    }
}

/// All patterns have the length.
pub open spec fn all_of_len(patterns: Set<Seq<Bit>>, len: nat) -> bool {
    forall|p: Seq<Bit>| #[trigger] patterns.contains(p) ==> p.len() == len
}

/// Patterns that merge now have at least `k` variable bits.
pub open spec fn partners_variable(patterns: Set<Seq<Bit>>, k: nat) -> bool {
    forall|p: Seq<Bit>|
        #[trigger] patterns.contains(p) && has_partner(patterns, p) ==> occurrences(p, Bit::Var)
            >= k
}

/// The counts of equal rows but for one place differ by that place.
pub(crate) proof fn lemma_occurrences_update(bits: Seq<Bit>, at: int, bit: Bit, value: Bit)
    requires
        0 <= at < bits.len(),
    ensures
        occurrences(bits.update(at, value), bit) == occurrences(bits, bit) - (if bits[at] == bit {
            1int
        } else {
            0
        }) + (if value == bit {
            1int
        } else {
            0
        }),
    decreases bits.len(),
{
    let updated = bits.update(at, value);
    if at == bits.len() - 1 {
        assert(updated.drop_last() =~= bits.drop_last());
    } else {
        lemma_occurrences_update(bits.drop_last(), at, bit, value);
        assert(updated.drop_last() =~= bits.drop_last().update(at, value));
    }
}

pub(crate) proof fn lemma_occurrences_bound(bits: Seq<Bit>, bit: Bit)
    ensures
        occurrences(bits, bit) <= bits.len(),
        (exists|i: int| 0 <= i < bits.len() && bits[i] != bit) ==> occurrences(bits, bit)
            < bits.len(),
    decreases bits.len(),
{
    if bits.len() > 0 {
        lemma_occurrences_bound(bits.drop_last(), bit);
        if exists|i: int| 0 <= i < bits.len() && bits[i] != bit {
            let i = choose|i: int| 0 <= i < bits.len() && bits[i] != bit;
            if i < bits.len() - 1 {
                assert(bits.drop_last()[i] != bit);
            }
        }
    }
}

/// Merging two patterns makes one more bit variable; both have equally many variable bits.
pub proof fn lemma_merged_variable(a: Seq<Bit>, b: Seq<Bit>)
    requires
        mergeable(a, b),
    ensures
        occurrences(merged(a, b), Bit::Var) == occurrences(a, Bit::Var) + 1,
        occurrences(a, Bit::Var) == occurrences(b, Bit::Var),
        occurrences(a, Bit::Var) < a.len(),
        mergeable(b, a),
        merged(a, b) == merged(b, a),
        merged(a, b).len() == a.len(),
{
    let at = choose|at: int| differ_only_at(a, b, at);
    assert(b =~= a.update(at, b[at]));
    lemma_occurrences_update(a, at, Bit::Var, b[at]);
    assert(merged(a, b) =~= a.update(at, Bit::Var));
    lemma_occurrences_update(a, at, Bit::Var, Bit::Var);
    lemma_occurrences_bound(a, Bit::Var);
    assert(differ_only_at(b, a, at));
    assert(merged(a, b) =~= merged(b, a));
}

/// A round of merging makes the patterns that merge next more variable.
pub(crate) proof fn lemma_round_progress(patterns: Set<Seq<Bit>>, k: nat, len: nat)
    requires
        all_of_len(patterns, len),
        partners_variable(patterns, k),
    ensures
        all_of_len(merge_round(patterns), len),
        partners_variable(merge_round(patterns), k + 1),
{
    let next = merge_round(patterns);
    assert forall|p: Seq<Bit>| #[trigger] next.contains(p) implies p.len() == len by {
        if is_merge(patterns, p) {
            let (a, b) = choose|a: Seq<Bit>, b: Seq<Bit>|
                #[trigger] patterns.contains(a) && #[trigger] patterns.contains(b) && mergeable(
                    a,
                    b,
                ) && p == merged(a, b);
            assert(p.len() == a.len());
        }
    }
    assert forall|p: Seq<Bit>|
        #[trigger] next.contains(p) && has_partner(next, p) implies occurrences(p, Bit::Var) >= k
        + 1 by {
        let q = choose|q: Seq<Bit>| #[trigger] next.contains(q) && mergeable(p, q);
        lemma_merged_variable(p, q);
        if is_merge(patterns, p) {
            lemma_new_variable(patterns, k, p);
        } else if is_merge(patterns, q) {
            lemma_new_variable(patterns, k, q);
        } else {
            assert(patterns.contains(p) && patterns.contains(q));
            assert(has_partner(patterns, p));
        }
    }
}

proof fn lemma_new_variable(patterns: Set<Seq<Bit>>, k: nat, p: Seq<Bit>)
    requires
        partners_variable(patterns, k),
        is_merge(patterns, p),
    ensures
        occurrences(p, Bit::Var) >= k + 1,
{
    let (a, b) = choose|a: Seq<Bit>, b: Seq<Bit>|
        #[trigger] patterns.contains(a) && #[trigger] patterns.contains(b) && mergeable(a, b) && p
            == merged(a, b);
    lemma_merged_variable(a, b);
    assert(has_partner(patterns, a));
}

/// Taking the maximal patterns twice is taking them once.
pub(crate) proof fn lemma_maximal_twice(patterns: Set<Seq<Bit>>)
    ensures
        maximal(maximal(patterns)) == maximal(patterns),
{
    assert forall|p: Seq<Bit>| maximal(patterns).contains(p) implies !subsumed(
        maximal(patterns),
        p,
    ) by {
        if subsumed(maximal(patterns), p) {
            let other = choose|other: Seq<Bit>|
                #[trigger] maximal(patterns).contains(other) && other != p && cube_contains(
                    other,
                    p,
                );
            assert(patterns.contains(other));
            assert(subsumed(patterns, p));
        }
    }
    assert(maximal(maximal(patterns)) =~= maximal(patterns));
}

/// A round changes nothing where no two patterns merge and all are maximal.
pub(crate) proof fn lemma_round_settled(patterns: Set<Seq<Bit>>)
    requires
        maximal(patterns) == patterns,
        forall|p: Seq<Bit>| #[trigger] patterns.contains(p) ==> !has_partner(patterns, p),
    ensures
        merge_round(patterns) == patterns,
{
    assert forall|p: Seq<Bit>| !is_merge(patterns, p) by {
        if is_merge(patterns, p) {
            let (a, b) = choose|a: Seq<Bit>, b: Seq<Bit>|
                #[trigger] patterns.contains(a) && #[trigger] patterns.contains(b) && mergeable(
                    a,
                    b,
                ) && p == merged(a, b);
            assert(has_partner(patterns, a));
        }
    }
    assert(Set::new(
        |p: Seq<Bit>| (patterns.contains(p) && !has_partner(patterns, p)) || is_merge(patterns, p),
    ) =~= patterns);
}

/// A round that finds more variable partners than a pattern has bits finds none.
pub(crate) proof fn lemma_no_partners(patterns: Set<Seq<Bit>>, k: nat, len: nat)
    requires
        all_of_len(patterns, len),
        partners_variable(patterns, k),
        k >= len,
    ensures
        forall|p: Seq<Bit>| #[trigger] patterns.contains(p) ==> !has_partner(patterns, p),
{
    assert forall|p: Seq<Bit>| #[trigger] patterns.contains(p) implies !has_partner(patterns, p) by {
        if has_partner(patterns, p) {
            let q = choose|q: Seq<Bit>| #[trigger] patterns.contains(q) && mergeable(p, q);
            lemma_merged_variable(p, q);
        }
    }
}

/// Rounds of merging keep the length of the patterns.
proof fn lemma_rounds_len(patterns: Set<Seq<Bit>>, rounds: nat, len: nat)
    requires
        all_of_len(patterns, len),
    ensures
        all_of_len(merge_rounds(patterns, rounds), len),
    decreases rounds,
{
    if rounds > 0 && merge_round(patterns) != patterns {
        assert(partners_variable(patterns, 0));
        lemma_round_progress(patterns, 0, len);
        lemma_rounds_len(merge_round(patterns), (rounds - 1) as nat, len);
    }
}

/// Merging keeps the length of the patterns.
pub proof fn lemma_merged_len(patterns: Set<Seq<Bit>>, len: nat)
    requires
        all_of_len(patterns, len),
    ensures
        all_of_len(merged_patterns(patterns, len), len),
{
    lemma_rounds_len(maximal(patterns), len + 1, len);
}

/// Keeps the patterns that no other one contains.
fn remove_subsumed(patterns: &OrderedSet<BitPattern>) -> (r: OrderedSet<BitPattern>)
    ensures
        r@ == maximal(patterns@),
        r.distinct(),
{
    broadcast use OrderedSet::lemma_rows;

    let ghost rows = patterns.rows();
    let mut r: OrderedSet<BitPattern> = OrderedSet::new();
    let mut i: usize = 0;
    assert(rows.take(0).to_set() =~= Set::empty());
    assert(r@ =~= rows.take(0).to_set().filter(|p: Seq<Bit>| !subsumed(patterns@, p)));
    while i < patterns.len()
        invariant
            rows == patterns.rows(),
            i <= rows.len(),
            r.distinct(),
            patterns@ == rows.to_set(),
            r@ == rows.take(i as int).to_set().filter(|p: Seq<Bit>| !subsumed(patterns@, p)),
        decreases rows.len() - i,
    {
        let pattern = patterns.get(i);
        let mut contained = false;
        let mut j: usize = 0;
        while j < patterns.len()
            invariant
                rows == patterns.rows(),
                j <= rows.len(),
                patterns@ == rows.to_set(),
                contained ==> subsumed(patterns@, pattern@),
                !contained ==> forall|k: int|
                    0 <= k < j ==> !((#[trigger] rows[k]) != pattern@ && cube_contains(
                        rows[k],
                        pattern@,
                    )),
            decreases rows.len() - j,
        {
            let other = patterns.get(j);
            if !other.same(pattern) && other.covers(pattern) {
                assert(patterns@.contains(other@));
                contained = true;
            }
            j += 1;
        }
        assert(contained == subsumed(patterns@, pattern@)) by {
            if subsumed(patterns@, pattern@) && !contained {
                let other = choose|other: Seq<Bit>|
                    #[trigger] patterns@.contains(other) && other != pattern@ && cube_contains(
                        other,
                        pattern@,
                    );
                let k = choose|k: int| 0 <= k < rows.len() && rows[k] == other;
                assert(rows[k] == other);
            }
        }
        let ghost before = r@;
        if !contained {
            r.insert(pattern.clone());
        }
        proof {
            assert(rows.take(i + 1) =~= rows.take(i as int).push(rows[i as int]));
            crate::collections::lemma_push_to_set(rows.take(i as int), rows[i as int]);
            assert(r@ =~= rows.take(i + 1).to_set().filter(
                |p: Seq<Bit>| !subsumed(patterns@, p),
            ));
        }
        i += 1;
    }
    assert(rows.take(i as int) =~= rows);
    r
}

/// The pattern comes from merging a pattern with one of the row.
spec fn merge_with_row(a: Seq<Bit>, rows: Seq<Seq<Bit>>, n: int, p: Seq<Bit>) -> bool {
    exists|k: int| 0 <= k < n && mergeable(a, #[trigger] rows[k]) && p == merged(a, rows[k])
}

/// The pattern comes from merging two patterns, the first of which is in the prefix.
spec fn merge_of_rows(rows: Seq<Seq<Bit>>, n: int, p: Seq<Bit>) -> bool {
    exists|i: int| 0 <= i < n && merge_with_row(#[trigger] rows[i], rows, rows.len() as int, p)
}

/// Performs one round of merging.
fn merge_once(patterns: &OrderedSet<BitPattern>) -> (r: OrderedSet<BitPattern>)
    ensures
        r@ == merge_round(patterns@),
        r.distinct(),
{
    broadcast use OrderedSet::lemma_rows;

    let ghost rows = patterns.rows();
    let mut next: OrderedSet<BitPattern> = OrderedSet::new();
    let mut i: usize = 0;
    assert(next@ =~= Set::new(
        |p: Seq<Bit>|
            (rows.take(0).to_set().contains(p) && !has_partner(patterns@, p)) || merge_of_rows(
                rows,
                0,
                p,
            ),
    ));
    while i < patterns.len()
        invariant
            rows == patterns.rows(),
            i <= rows.len(),
            patterns@ == rows.to_set(),
            next.distinct(),
            next@ == Set::new(
                |p: Seq<Bit>|
                    (rows.take(i as int).to_set().contains(p) && !has_partner(patterns@, p))
                        || merge_of_rows(rows, i as int, p),
            ),
        decreases rows.len() - i,
    {
        let b1 = patterns.get(i);
        let ghost before = next@;
        let mut used = false;
        let mut j: usize = 0;
        assert(next@ =~= before.union(
            Set::new(|p: Seq<Bit>| merge_with_row(b1@, rows, 0, p)),
        ));
        while j < patterns.len()
            invariant
                rows == patterns.rows(),
                j <= rows.len(),
                patterns@ == rows.to_set(),
                next.distinct(),
                b1@ == rows[i as int],
                used ==> has_partner(patterns@, b1@),
                !used ==> forall|k: int| 0 <= k < j ==> !mergeable(b1@, #[trigger] rows[k]),
                next@ == before.union(
                    Set::new(|p: Seq<Bit>| merge_with_row(b1@, rows, j as int, p)),
                ),
            decreases rows.len() - j,
        {
            let b2 = patterns.get(j);
            if b1.can_merge_with(b2) {
                assert(patterns@.contains(b2@));
                next.insert(b1.merge_with(b2));
                used = true;
            }
            j += 1;
            assert(next@ =~= before.union(
                Set::new(|p: Seq<Bit>| merge_with_row(b1@, rows, j as int, p)),
            ));
        }
        assert(used == has_partner(patterns@, b1@)) by {
            if has_partner(patterns@, b1@) && !used {
                let other = choose|other: Seq<Bit>|
                    #[trigger] patterns@.contains(other) && mergeable(b1@, other);
                let k = choose|k: int| 0 <= k < rows.len() && rows[k] == other;
                assert(rows[k] == other);
            }
        }
        if !used {
            next.insert(b1.clone());
        }
        proof {
            assert(rows.take(i + 1) =~= rows.take(i as int).push(rows[i as int]));
            crate::collections::lemma_push_to_set(rows.take(i as int), rows[i as int]);
            assert forall|p: Seq<Bit>| merge_of_rows(rows, i + 1, p) == (merge_of_rows(
                rows,
                i as int,
                p,
            ) || merge_with_row(b1@, rows, rows.len() as int, p)) by {
                if merge_with_row(b1@, rows, rows.len() as int, p) {
                    assert(merge_with_row(rows[i as int], rows, rows.len() as int, p));
                }
            }
            assert(next@ =~= Set::new(
                |p: Seq<Bit>|
                    (rows.take(i + 1).to_set().contains(p) && !has_partner(patterns@, p))
                        || merge_of_rows(rows, i + 1, p),
            ));
        }
        i += 1;
    }
    proof {
        assert(rows.take(i as int) =~= rows);
        assert forall|p: Seq<Bit>| merge_of_rows(rows, rows.len() as int, p) == is_merge(
            patterns@,
            p,
        ) by {
            if merge_of_rows(rows, rows.len() as int, p) {
                let a = choose|a: int|
                    0 <= a < rows.len() && merge_with_row(
                        #[trigger] rows[a],
                        rows,
                        rows.len() as int,
                        p,
                    );
                let b = choose|b: int|
                    0 <= b < rows.len() && mergeable(rows[a], #[trigger] rows[b]) && p == merged(
                        rows[a],
                        rows[b],
                    );
                assert(patterns@.contains(rows[a]) && patterns@.contains(rows[b]));
            }
            if is_merge(patterns@, p) {
                let (a, b) = choose|a: Seq<Bit>, b: Seq<Bit>|
                    #[trigger] patterns@.contains(a) && #[trigger] patterns@.contains(b)
                        && mergeable(a, b) && p == merged(a, b);
                let x = choose|x: int| 0 <= x < rows.len() && rows[x] == a;
                let y = choose|y: int| 0 <= y < rows.len() && rows[y] == b;
                assert(mergeable(rows[x], rows[y]));
                assert(merge_with_row(rows[x], rows, rows.len() as int, p));
            }
        }
        assert(next@ =~= Set::new(
            |p: Seq<Bit>|
                (patterns@.contains(p) && !has_partner(patterns@, p)) || is_merge(patterns@, p),
        ));
    }
    remove_subsumed(&next)
}

/// Merges patterns of one length until nothing changes.
pub fn merge_pattern_set(patterns: &OrderedSet<BitPattern>, len: usize) -> (r: OrderedSet<
    BitPattern,
>)
    requires
        all_of_len(patterns@, len as nat),
    ensures
        r@ == merged_patterns(patterns@, len as nat),
        r.distinct(),
{
    let mut current = remove_subsumed(patterns);
    let ghost whole = merged_patterns(patterns@, len as nat);
    let ghost mut k: nat = 0;
    proof {
        lemma_maximal_twice(patterns@);
    }
    loop
        invariant
            k <= len,
            current.distinct(),
            all_of_len(current@, len as nat),
            maximal(current@) == current@,
            partners_variable(current@, k),
            merge_rounds(current@, (len + 1 - k) as nat) == whole,
        ensures
            current@ == whole,
            current.distinct(),
        decreases len + 1 - k,
    {
        let next = merge_once(&current);
        if next.same(&current) {
            break;
        }
        proof {
            lemma_round_progress(current@, k, len as nat);
            lemma_maximal_twice(
                Set::new(
                    |p: Seq<Bit>|
                        (current@.contains(p) && !has_partner(current@, p)) || is_merge(
                            current@,
                            p,
                        ),
                ),
            );
            if k >= len {
                lemma_no_partners(current@, k, len as nat);
                lemma_round_settled(current@);
            }
            k = k + 1;
        }
        current = next;
    }
    current
}

impl FieldUses {
    /// Uses Quine-McCluskey style merging to attempt to merge the patterns in this FieldUses, returning a new FieldUses with the merged patterns. Only applicable for FieldUses::Uses.
    pub fn merge(&self) -> (r: Self)
        requires
            self@ matches FieldUsesV::Uses { patterns, len, .. } ==> all_of_len(
                patterns,
                len as nat,
            ),
        ensures
            r@ == merged_uses(self@),
    {
        match self {
            FieldUses::VariableBits { .. } => self.duplicate(),
            FieldUses::Uses { name, patterns, len } => FieldUses::Uses {
                name: name.clone(),
                patterns: merge_pattern_set(patterns, *len),
                len: *len,
            },
        }
    }
}

} // verus!
