//! How many points patterns stand for.
use vstd::arithmetic::power2::{lemma_pow2_pos, lemma_pow2_unfold, pow2};
use vstd::prelude::*;

use crate::bit::{
    all_concrete, bit_accepts, cubes_disjoint, occurrences, opposed, pattern_matches, Bit,
    BitPattern,
};
use crate::collections::OrderedSet;
use crate::pattern_cover::{covered, frequency, is_partition_of_rest, testless};

verus! {

/// How many points of `n` more bits after the prefix satisfy a condition.
pub open spec fn point_count(condition: spec_fn(Seq<Bit>) -> bool, prefix: Seq<Bit>, n: nat) -> nat
    decreases n,
{
    if n == 0 {
        if condition(prefix) {
            1
        } else {
            0
        }
    } else {
        point_count(condition, prefix.push(Bit::Low), (n - 1) as nat) + point_count(
            condition,
            prefix.push(Bit::High),
            (n - 1) as nat,
        )
    }
}

/// How many points of the width no pattern covers.
pub open spec fn uncovered_count(patterns: Set<Seq<Bit>>, width: nat) -> nat {
    point_count(|point: Seq<Bit>| !covered(patterns, point), seq![], width)
}

/// The sum of the frequencies of a row of patterns.
pub open spec fn total_frequency(rows: Seq<Seq<Bit>>) -> nat
    decreases rows.len(),
{
    if rows.len() == 0 {
        0
    } else {
        total_frequency(rows.drop_last()) + frequency(rows.last())
    }
}

/// The first bits of the row accept the prefix.
spec fn starts_with(row: Seq<Bit>, prefix: Seq<Bit>) -> bool {
    forall|i: int| 0 <= i < prefix.len() ==> bit_accepts(#[trigger] row[i], prefix[i])
}

/// How many points of a row start with the prefix.
spec fn weight_after(row: Seq<Bit>, prefix: Seq<Bit>) -> nat {
    if starts_with(row, prefix) {
        frequency(row.skip(prefix.len() as int))
    } else {
        0
    }
}

spec fn total_after(rows: Seq<Seq<Bit>>, prefix: Seq<Bit>) -> nat
    decreases rows.len(),
{
    if rows.len() == 0 {
        0
    } else {
        total_after(rows.drop_last(), prefix) + weight_after(rows.last(), prefix)
    }
}

proof fn lemma_weight_splits(row: Seq<Bit>, prefix: Seq<Bit>)
    requires
        prefix.len() < row.len(),
        testless(row),
    ensures
        weight_after(row, prefix) == weight_after(row, prefix.push(Bit::Low)) + weight_after(
            row,
            prefix.push(Bit::High),
        ),
{
    let m = prefix.len() as int;
    let low = prefix.push(Bit::Low);
    let high = prefix.push(Bit::High);
    let rest = row.skip(m);
    assert(row[m] != Bit::Test);
    assert(rest[0] == row[m]);
    assert(rest.skip(1) =~= row.skip(m + 1));
    lemma_occurrences_front(rest, Bit::Var);
    if starts_with(row, prefix) {
        assert(starts_with(row, low) == bit_accepts(row[m], Bit::Low)) by {
            if bit_accepts(row[m], Bit::Low) {
                assert forall|i: int| 0 <= i < low.len() implies bit_accepts(
                    #[trigger] row[i],
                    low[i],
                ) by {
                    if i < m {
                        assert(low[i] == prefix[i]);
                    }
                }
            } else {
                assert(!bit_accepts(row[m], low[m]));
            }
        }
        assert(starts_with(row, high) == bit_accepts(row[m], Bit::High)) by {
            if bit_accepts(row[m], Bit::High) {
                assert forall|i: int| 0 <= i < high.len() implies bit_accepts(
                    #[trigger] row[i],
                    high[i],
                ) by {
                    if i < m {
                        assert(high[i] == prefix[i]);
                    }
                }
            } else {
                assert(!bit_accepts(row[m], high[m]));
            }
        }
        if row[m] == Bit::Var {
            lemma_pow2_unfold(occurrences(rest, Bit::Var));
        }
    } else {
        let i = choose|i: int| 0 <= i < prefix.len() && !bit_accepts(#[trigger] row[i], prefix[i]);
        assert(!bit_accepts(row[i], low[i]));
        assert(!bit_accepts(row[i], high[i]));
    }
}

/// Counting from the front counts the same.
proof fn lemma_occurrences_front(bits: Seq<Bit>, bit: Bit)
    requires
        bits.len() > 0,
    ensures
        occurrences(bits, bit) == occurrences(bits.skip(1), bit) + if bits[0] == bit {
            1nat
        } else {
            0nat
        },
    decreases bits.len(),
{
    if bits.len() == 1 {
        assert(bits.skip(1) =~= Seq::empty());
        assert(bits.drop_last() =~= Seq::empty());
        assert(occurrences(bits.drop_last(), bit) == 0);
    } else {
        lemma_occurrences_front(bits.drop_last(), bit);
        assert(bits.drop_last().skip(1) =~= bits.skip(1).drop_last());
        assert(bits.skip(1).last() == bits.last());
    }
}

proof fn lemma_total_splits(rows: Seq<Seq<Bit>>, prefix: Seq<Bit>, width: nat)
    requires
        prefix.len() < width,
        forall|i: int| 0 <= i < rows.len() ==> (#[trigger] rows[i]).len() == width && testless(
            rows[i],
        ),
    ensures
        total_after(rows, prefix) == total_after(rows, prefix.push(Bit::Low)) + total_after(
            rows,
            prefix.push(Bit::High),
        ),
    decreases rows.len(),
{
    if rows.len() > 0 {
        let shorter = rows.drop_last();
        assert forall|i: int| 0 <= i < shorter.len() implies (#[trigger] shorter[i]).len() == width
            && testless(shorter[i]) by {
            assert(shorter[i] == rows[i]);
        }
        lemma_total_splits(shorter, prefix, width);
        assert(rows.last() == rows[rows.len() - 1]);
        lemma_weight_splits(rows.last(), prefix);
    }
}

/// At a whole point a row counts one if it accepts the point.
proof fn lemma_weight_at_point(row: Seq<Bit>, point: Seq<Bit>)
    requires
        row.len() == point.len(),
    ensures
        weight_after(row, point) == if pattern_matches(row, point) {
            1nat
        } else {
            0nat
        },
{
    assert(row.skip(point.len() as int) =~= Seq::empty());
    assert(occurrences(Seq::<Bit>::empty(), Bit::Var) == 0);
    vstd::arithmetic::power2::lemma2_to64();
    if starts_with(row, point) {
        assert(pattern_matches(row, point));
    } else {
        let i = choose|i: int| 0 <= i < point.len() && !bit_accepts(#[trigger] row[i], point[i]);
        assert(!bit_accepts(row[i], point[i]));
    }
}

/// The rows pairwise share no point.
spec fn rows_disjoint(rows: Seq<Seq<Bit>>) -> bool {
    forall|i: int, j: int|
        0 <= i < j < rows.len() ==> cubes_disjoint(#[trigger] rows[i], #[trigger] rows[j])
}

proof fn lemma_disjoint_at_point(a: Seq<Bit>, b: Seq<Bit>, point: Seq<Bit>)
    requires
        cubes_disjoint(a, b),
        pattern_matches(a, point),
    ensures
        !pattern_matches(b, point),
{
    let i = choose|i: int| 0 <= i < a.len() && i < b.len() && opposed(#[trigger] a[i], b[i]);
    assert(bit_accepts(a[i], point[i]));
    if pattern_matches(b, point) {
        assert(bit_accepts(b[i], point[i]));
    }
}

proof fn lemma_total_at_point(rows: Seq<Seq<Bit>>, point: Seq<Bit>)
    requires
        forall|i: int| 0 <= i < rows.len() ==> (#[trigger] rows[i]).len() == point.len(),
        rows_disjoint(rows),
    ensures
        total_after(rows, point) == if (exists|i: int|
            0 <= i < rows.len() && pattern_matches(#[trigger] rows[i], point)) {
            1nat
        } else {
            0nat
        },
    decreases rows.len(),
{
    if rows.len() > 0 {
        let shorter = rows.drop_last();
        let n = rows.len() - 1;
        assert(forall|i: int| 0 <= i < shorter.len() ==> #[trigger] shorter[i] == rows[i]);
        lemma_total_at_point(shorter, point);
        lemma_weight_at_point(rows[n], point);
        if pattern_matches(rows[n], point) {
            assert forall|i: int| 0 <= i < shorter.len() implies !pattern_matches(
                #[trigger] shorter[i],
                point,
            ) by {
                assert(cubes_disjoint(rows[i], rows[n]));
                if pattern_matches(rows[i], point) {
                    lemma_disjoint_at_point(rows[i], rows[n], point);
                }
            }
        }
        if exists|i: int| 0 <= i < shorter.len() && pattern_matches(#[trigger] shorter[i], point) {
            let i = choose|i: int|
                0 <= i < shorter.len() && pattern_matches(#[trigger] shorter[i], point);
            assert(pattern_matches(rows[i], point));
        }
        if exists|i: int| 0 <= i < rows.len() && pattern_matches(#[trigger] rows[i], point) {
            let i = choose|i: int|
                0 <= i < rows.len() && pattern_matches(#[trigger] rows[i], point);
            if i < n {
                assert(pattern_matches(shorter[i], point));
            }
        }
    }
}

proof fn lemma_total_counts(
    rows: Seq<Seq<Bit>>,
    condition: spec_fn(Seq<Bit>) -> bool,
    prefix: Seq<Bit>,
    n: nat,
)
    requires
        forall|i: int|
            0 <= i < rows.len() ==> (#[trigger] rows[i]).len() == prefix.len() + n && testless(
                rows[i],
            ),
        rows_disjoint(rows),
        all_concrete(prefix),
        forall|point: Seq<Bit>|
            point.len() == prefix.len() + n && all_concrete(point) ==> #[trigger] condition(point)
                == exists|i: int| 0 <= i < rows.len() && pattern_matches(#[trigger] rows[i], point),
    ensures
        total_after(rows, prefix) == point_count(condition, prefix, n),
    decreases n,
{
    if n == 0 {
        lemma_total_at_point(rows, prefix);
        assert(condition(prefix) == exists|i: int|
            0 <= i < rows.len() && pattern_matches(#[trigger] rows[i], prefix));
    } else {
        lemma_total_splits(rows, prefix, prefix.len() + n);
        assert(all_concrete(prefix.push(Bit::Low)));
        assert(all_concrete(prefix.push(Bit::High)));
        lemma_total_counts(rows, condition, prefix.push(Bit::Low), (n - 1) as nat);
        lemma_total_counts(rows, condition, prefix.push(Bit::High), (n - 1) as nat);
    }
}

proof fn lemma_total_frequency(rows: Seq<Seq<Bit>>)
    ensures
        total_frequency(rows) == total_after(rows, seq![]),
    decreases rows.len(),
{
    if rows.len() > 0 {
        lemma_total_frequency(rows.drop_last());
        assert(rows.last().skip(0) =~= rows.last());
        assert(starts_with(rows.last(), seq![]));
    }
}

/// The cubes of a partition of what patterns leave uncovered stand together for as many points
/// as are uncovered.
pub proof fn lemma_partition_counts(
    rows: Seq<Seq<Bit>>,
    patterns: Set<Seq<Bit>>,
    width: nat,
)
    requires
        rows.no_duplicates(),
        is_partition_of_rest(rows.to_set(), patterns, width),
    ensures
        total_frequency(rows) == uncovered_count(patterns, width),
{
    let cubes = rows.to_set();
    let condition = |point: Seq<Bit>| !covered(patterns, point);
    assert forall|i: int| 0 <= i < rows.len() implies (#[trigger] rows[i]).len() == width
        && testless(rows[i]) by {
        assert(cubes.contains(rows[i]));
    }
    assert forall|i: int, j: int| 0 <= i < j < rows.len() implies cubes_disjoint(
        #[trigger] rows[i],
        #[trigger] rows[j],
    ) by {
        assert(cubes.contains(rows[i]) && cubes.contains(rows[j]));
        assert(rows[i] != rows[j]);
    }
    assert forall|point: Seq<Bit>| point.len() == width && all_concrete(
        point,
    ) implies #[trigger] condition(point) == exists|i: int|
        0 <= i < rows.len() && pattern_matches(#[trigger] rows[i], point) by {
        assert(covered(cubes, point) == !covered(patterns, point));
        if covered(cubes, point) {
            let p = choose|p: Seq<Bit>| #[trigger] cubes.contains(p) && pattern_matches(p, point);
            let i = choose|i: int| 0 <= i < rows.len() && rows[i] == p;
            assert(pattern_matches(rows[i], point));
        }
        if exists|i: int| 0 <= i < rows.len() && pattern_matches(#[trigger] rows[i], point) {
            let i = choose|i: int|
                0 <= i < rows.len() && pattern_matches(#[trigger] rows[i], point);
            assert(cubes.contains(rows[i]));
        }
    }
    lemma_total_frequency(rows);
    lemma_total_counts(rows, condition, seq![], width);
}

/// The frequency of one of the patterns is part of the sum.
pub proof fn lemma_frequency_bounded(rows: Seq<Seq<Bit>>, i: int)
    requires
        0 <= i < rows.len(),
    ensures
        0 < frequency(rows[i]) <= total_frequency(rows),
    decreases rows.len(),
{
    lemma_pow2_pos(occurrences(rows[i], Bit::Var));
    if i < rows.len() - 1 {
        lemma_frequency_bounded(rows.drop_last(), i);
    }
}

/// A frequency that fits a word comes from fewer variable bits than the word has bits.
pub proof fn lemma_frequency_fits(pattern: Seq<Bit>)
    requires
        frequency(pattern) <= u128::MAX,
    ensures
        occurrences(pattern, Bit::Var) < 128,
{
    if occurrences(pattern, Bit::Var) >= 128 {
        if occurrences(pattern, Bit::Var) > 128 {
            vstd::arithmetic::power2::lemma_pow2_strictly_increases(
                128,
                occurrences(pattern, Bit::Var),
            );
        }
        lemma_pow2_128();
    }
}

proof fn lemma_pow2_128()
    ensures
        pow2(128) == u128::MAX + 1,
{
    vstd::arithmetic::power2::lemma2_to64();
    vstd::arithmetic::power2::lemma_pow2_adds(64, 64);
    assert(0x10000000000000000int * 0x10000000000000000int == u128::MAX + 1) by (nonlinear_arith);
}

/// The sum of the frequencies of a set of patterns.
pub open spec fn set_frequency(patterns: Set<Seq<Bit>>) -> nat
    decreases patterns.len(),
    when patterns.finite()
{
    if patterns.len() == 0 {
        0
    } else {
        let p = patterns.choose();
        frequency(p) + set_frequency(patterns.remove(p))
    }
}

proof fn lemma_set_frequency_remove(patterns: Set<Seq<Bit>>, p: Seq<Bit>)
    requires
        patterns.finite(),
        patterns.contains(p),
    ensures
        set_frequency(patterns) == frequency(p) + set_frequency(patterns.remove(p)),
    decreases patterns.len(),
{
    let q = patterns.choose();
    if p != q {
        assert(patterns.remove(q).contains(p));
        assert(patterns.remove(p).contains(q));
        lemma_set_frequency_remove(patterns.remove(q), p);
        lemma_set_frequency_remove(patterns.remove(p), q);
        assert(patterns.remove(q).remove(p) =~= patterns.remove(p).remove(q));
    }
}

/// Listing a set once sums its frequencies.
pub proof fn lemma_set_frequency(rows: Seq<Seq<Bit>>)
    requires
        rows.no_duplicates(),
    ensures
        total_frequency(rows) == set_frequency(rows.to_set()),
    decreases rows.len(),
{
    rows.unique_seq_to_set();
    if rows.len() > 0 {
        let shorter = rows.drop_last();
        assert(forall|i: int| 0 <= i < shorter.len() ==> #[trigger] shorter[i] == rows[i]);
        lemma_set_frequency(shorter);
        assert(rows =~= shorter.push(rows.last()));
        crate::collections::lemma_push_to_set(shorter, rows.last());
        assert(!shorter.to_set().contains(rows.last())) by {
            if shorter.to_set().contains(rows.last()) {
                let i = choose|i: int| 0 <= i < shorter.len() && shorter[i] == rows.last();
                assert(rows[i] == rows[rows.len() - 1]);
            }
        }
        assert(rows.to_set().contains(rows.last()));
        lemma_set_frequency_remove(rows.to_set(), rows.last());
        assert(rows.to_set().remove(rows.last()) =~= shorter.to_set());
    }
}

/// Sums the frequencies of patterns.
pub(crate) fn sum_frequencies(patterns: &OrderedSet<BitPattern>) -> (r: u128)
    requires
        total_frequency(patterns.rows()) <= u128::MAX,
    ensures
        r == total_frequency(patterns.rows()),
{
    checked_frequencies(patterns).unwrap()
}

/// Sums the frequencies of patterns; `None` where the sum does not fit a word.
pub(crate) fn checked_frequencies(patterns: &OrderedSet<BitPattern>) -> (r: Option<u128>)
    ensures
        match r {
            Some(sum) => sum == total_frequency(patterns.rows()),
            None => total_frequency(patterns.rows()) > u128::MAX,
        },
{
    let ghost rows = patterns.rows();
    let mut sum: u128 = 0;
    let mut i: usize = 0;
    assert(rows.take(0) =~= Seq::empty());
    while i < patterns.len()
        invariant
            rows == patterns.rows(),
            i <= rows.len(),
            sum == total_frequency(rows.take(i as int)),
        decreases rows.len() - i,
    {
        proof {
            assert(rows.take(i + 1).drop_last() =~= rows.take(i as int));
            assert(rows.take(i + 1).last() == rows[i as int]);
            lemma_frequency_bounded(rows, i as int);
            lemma_total_prefix(rows, i + 1);
            if frequency(rows[i as int]) <= u128::MAX {
                lemma_frequency_fits(rows[i as int]);
            }
        }
        let variable = patterns.get(i).num_variable();
        if variable >= 128 {
            return None;
        }
        match sum.checked_add(crate::pattern_cover::power_of_two(variable)) {
            Some(more) => {
                sum = more;
            },
            None => {
                return None;
            },
        }
        i += 1;
    }
    assert(rows.take(i as int) =~= rows);
    Some(sum)
}

proof fn lemma_total_prefix(rows: Seq<Seq<Bit>>, n: int)
    requires
        0 <= n <= rows.len(),
    ensures
        total_frequency(rows.take(n)) <= total_frequency(rows),
    decreases rows.len(),
{
    if n == rows.len() {
        assert(rows.take(n) =~= rows);
    } else {
        lemma_total_prefix(rows.drop_last(), n);
        assert(rows.drop_last().take(n) =~= rows.take(n));
    }
}

} // verus!
