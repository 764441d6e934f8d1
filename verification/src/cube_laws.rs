//! What merging makes of a set of points: its maximal cubes.
use vstd::prelude::*;

use crate::bit::{
    all_concrete, bit_accepts, cube_contains, differ_only_at, mergeable, merged, occurrences,
    pattern_matches, Bit,
};
use crate::field_uses::{
    has_partner, is_merge, lemma_occurrences_bound, lemma_occurrences_update, maximal, merge_round,
    merge_rounds, merged_patterns, subsumed,
};
use crate::merge_laws::{lemma_contains_variable, lemma_merged_points};
use crate::pattern_cover::testless;

verus! {

/// The set holds rows of zeros and ones, all of the length.
pub open spec fn points_of_len(points: Set<Seq<Bit>>, len: nat) -> bool {
    forall|p: Seq<Bit>| #[trigger] points.contains(p) ==> p.len() == len && all_concrete(p)
}

/// The pattern stands for points of the set only.
pub open spec fn is_cube(points: Set<Seq<Bit>>, len: nat, cube: Seq<Bit>) -> bool {
    &&& cube.len() == len
    &&& testless(cube)
    &&& forall|point: Seq<Bit>|
        all_concrete(point) && #[trigger] pattern_matches(cube, point) ==> points.contains(point)
}

/// The pattern stands for points of the set only, and no larger one does.
pub open spec fn is_maximal_cube(points: Set<Seq<Bit>>, len: nat, cube: Seq<Bit>) -> bool {
    &&& is_cube(points, len, cube)
    &&& forall|other: Seq<Bit>| #[trigger]
        is_cube(points, len, other) && cube_contains(other, cube) ==> other == cube
}

/// The patterns that stand for points of the set and that no larger such pattern contains.
pub open spec fn maximal_cubes(points: Set<Seq<Bit>>, len: nat) -> Set<Seq<Bit>> {
    Set::new(|cube: Seq<Bit>| is_maximal_cube(points, len, cube))
}

/// The cubes with `k` variable bits, and the maximal ones with fewer.
spec fn cubes_by(points: Set<Seq<Bit>>, len: nat, k: nat) -> Set<Seq<Bit>> {
    Set::new(
        |cube: Seq<Bit>|
            {
                ||| is_cube(points, len, cube) && occurrences(cube, Bit::Var) == k
                ||| is_maximal_cube(points, len, cube) && occurrences(cube, Bit::Var) < k
            },
    )
}

/// What a cube contains is a cube.
proof fn lemma_smaller_cube(points: Set<Seq<Bit>>, len: nat, large: Seq<Bit>, small: Seq<Bit>)
    requires
        is_cube(points, len, large),
        small.len() == len,
        testless(small),
        cube_contains(large, small),
    ensures
        is_cube(points, len, small),
{
    assert forall|point: Seq<Bit>|
        all_concrete(point) && #[trigger] pattern_matches(small, point) implies points.contains(
        point,
    ) by {
        assert forall|i: int| 0 <= i < point.len() implies bit_accepts(
            #[trigger] large[i],
            point[i],
        ) by {
            assert(bit_accepts(small[i], point[i]));
            assert(large[i] == Bit::Var || large[i] == small[i]);
        }
        assert(pattern_matches(large, point));
    }
}

/// Two adjacent cubes merge into a cube with one more variable bit that contains both.
proof fn lemma_merged_cube(points: Set<Seq<Bit>>, len: nat, a: Seq<Bit>, b: Seq<Bit>)
    requires
        is_cube(points, len, a),
        is_cube(points, len, b),
        mergeable(a, b),
    ensures
        is_cube(points, len, merged(a, b)),
        cube_contains(merged(a, b), a),
        merged(a, b) != a,
        occurrences(merged(a, b), Bit::Var) == occurrences(a, Bit::Var) + 1,
{
    let at = choose|at: int| differ_only_at(a, b, at);
    let m = merged(a, b);
    assert(m =~= a.update(at, Bit::Var));
    lemma_occurrences_update(a, at, Bit::Var, Bit::Var);
    assert forall|i: int| 0 <= i < m.len() implies #[trigger] m[i] != Bit::Test by {
        assert(a[i] != Bit::Test);
    }
    assert forall|point: Seq<Bit>|
        all_concrete(point) && #[trigger] pattern_matches(m, point) implies points.contains(
        point,
    ) by {
        lemma_merged_points(a, b, point);
        assert(pattern_matches(a, point) || pattern_matches(b, point));
    }
    assert(m[at] != a[at]);
}

/// The two halves of a pattern at a variable bit.
proof fn lemma_halves(cube: Seq<Bit>, at: int)
    requires
        0 <= at < cube.len(),
        cube[at] == Bit::Var,
        testless(cube),
    ensures
        ({
            let (low, high) = (cube.update(at, Bit::Low), cube.update(at, Bit::High));
            &&& mergeable(low, high)
            &&& merged(low, high) == cube
            &&& testless(low)
            &&& testless(high)
            &&& cube_contains(cube, low)
            &&& cube_contains(cube, high)
            &&& occurrences(low, Bit::Var) == occurrences(cube, Bit::Var) - 1
            &&& occurrences(high, Bit::Var) == occurrences(cube, Bit::Var) - 1
        }),
{
    let (low, high) = (cube.update(at, Bit::Low), cube.update(at, Bit::High));
    assert(differ_only_at(low, high, at));
    assert(merged(low, high) =~= cube);
    lemma_occurrences_update(cube, at, Bit::Var, Bit::Low);
    lemma_occurrences_update(cube, at, Bit::Var, Bit::High);
    assert forall|i: int| 0 <= i < low.len() implies #[trigger] low[i] != Bit::Test by {
        assert(cube[i] != Bit::Test);
    }
    assert forall|i: int| 0 <= i < high.len() implies #[trigger] high[i] != Bit::Test by {
        assert(cube[i] != Bit::Test);
    }
}

/// A pattern with a variable bit has one somewhere.
proof fn lemma_some_variable(bits: Seq<Bit>) -> (at: int)
    requires
        occurrences(bits, Bit::Var) > 0,
    ensures
        0 <= at < bits.len(),
        bits[at] == Bit::Var,
    decreases bits.len(),
{
    if bits.last() == Bit::Var {
        bits.len() - 1
    } else {
        lemma_some_variable(bits.drop_last())
    }
}

/// A cube that a larger one contains has an adjacent cube.
proof fn lemma_neighbour(points: Set<Seq<Bit>>, len: nat, large: Seq<Bit>, small: Seq<Bit>) -> (b:
    Seq<Bit>)
    requires
        is_cube(points, len, large),
        is_cube(points, len, small),
        cube_contains(large, small),
        large != small,
    ensures
        is_cube(points, len, b),
        mergeable(small, b),
        occurrences(b, Bit::Var) == occurrences(small, Bit::Var),
{
    if forall|i: int| 0 <= i < len ==> large[i] == small[i] {
        assert(large =~= small);
    }
    let at = choose|i: int| 0 <= i < len && large[i] != small[i];
    assert(large[at] == Bit::Var);
    assert(small[at] != Bit::Test && small[at] != Bit::Var);
    let other = if small[at] == Bit::Low {
        Bit::High
    } else {
        Bit::Low
    };
    let b = small.update(at, other);
    assert(differ_only_at(small, b, at));
    assert forall|i: int| 0 <= i < b.len() implies #[trigger] b[i] != Bit::Test by {
        assert(small[i] != Bit::Test);
    }
    assert forall|i: int| 0 <= i < large.len() && i < b.len() implies (#[trigger] large[i]
        == Bit::Var || large[i] == b[i]) by {}
    lemma_smaller_cube(points, len, large, b);
    lemma_occurrences_update(small, at, Bit::Var, other);
    b
}

/// Among the cubes with up to `k` variable bits, those without a partner are the maximal ones.
proof fn lemma_partnerless(points: Set<Seq<Bit>>, len: nat, k: nat, cube: Seq<Bit>)
    requires
        cubes_by(points, len, k).contains(cube),
    ensures
        !has_partner(cubes_by(points, len, k), cube) <==> is_maximal_cube(points, len, cube),
{
    let row = cubes_by(points, len, k);
    if has_partner(row, cube) {
        let other = choose|other: Seq<Bit>| #[trigger] row.contains(other) && mergeable(cube, other);
        lemma_merged_cube(points, len, cube, other);
        assert(is_cube(points, len, merged(cube, other)));
    } else if !is_maximal_cube(points, len, cube) {
        let large = choose|large: Seq<Bit>| #[trigger]
            is_cube(points, len, large) && cube_contains(large, cube) && large != cube;
        let b = lemma_neighbour(points, len, large, cube);
        assert(row.contains(b));
    }
}

/// What a round makes before contained patterns are dropped.
spec fn next_row(patterns: Set<Seq<Bit>>) -> Set<Seq<Bit>> {
    Set::new(
        |p: Seq<Bit>| (patterns.contains(p) && !has_partner(patterns, p)) || is_merge(patterns, p),
    )
}

/// A round of merging goes from the cubes with `k` variable bits to those with one more.
proof fn lemma_round_cubes(points: Set<Seq<Bit>>, len: nat, k: nat)
    ensures
        merge_round(cubes_by(points, len, k)) == cubes_by(points, len, k + 1),
{
    let row = cubes_by(points, len, k);
    let after = cubes_by(points, len, k + 1);
    let next = next_row(row);
    assert forall|p: Seq<Bit>| next.contains(p) <==> after.contains(p) by {
        if row.contains(p) {
            lemma_partnerless(points, len, k, p);
        }
        if is_merge(row, p) {
            let (a, b) = choose|a: Seq<Bit>, b: Seq<Bit>|
                #[trigger] row.contains(a) && #[trigger] row.contains(b) && mergeable(a, b) && p
                    == merged(a, b);
            lemma_merged_cube(points, len, a, b);
            lemma_partnerless(points, len, k, a);
            assert(has_partner(row, a));
            assert(after.contains(p));
        }
        if after.contains(p) && occurrences(p, Bit::Var) == k + 1 {
            let at = lemma_some_variable(p);
            lemma_halves(p, at);
            let (low, high) = (p.update(at, Bit::Low), p.update(at, Bit::High));
            lemma_smaller_cube(points, len, p, low);
            lemma_smaller_cube(points, len, p, high);
            assert(row.contains(low) && row.contains(high));
            assert(is_merge(row, p));
        }
    }
    assert(next =~= after);
    lemma_cubes_maximal(points, len, k + 1);
    assert(merge_round(row) == maximal(next));
}

/// None of these cubes contains another one.
proof fn lemma_cubes_maximal(points: Set<Seq<Bit>>, len: nat, k: nat)
    ensures
        maximal(cubes_by(points, len, k)) == cubes_by(points, len, k),
{
    let row = cubes_by(points, len, k);
    assert forall|p: Seq<Bit>| #[trigger] row.contains(p) implies !subsumed(row, p) by {
        if subsumed(row, p) {
            let other = choose|other: Seq<Bit>|
                #[trigger] row.contains(other) && other != p && cube_contains(other, p);
            lemma_contains_variable(other, p);
            assert(is_cube(points, len, other));
        }
    }
    assert(maximal(row) =~= row);
}

/// Rounds of merging from the cubes with `k` variable bits end at the maximal cubes.
proof fn lemma_rounds_cubes(points: Set<Seq<Bit>>, len: nat, k: nat)
    requires
        k <= len + 1,
    ensures
        merge_rounds(cubes_by(points, len, k), (len + 1 - k) as nat) == maximal_cubes(points, len),
    decreases len + 1 - k,
{
    let row = cubes_by(points, len, k);
    lemma_round_cubes(points, len, k);
    if k == len + 1 {
        lemma_last_cubes(points, len, k);
    } else if merge_round(row) == row {
        lemma_last_cubes(points, len, k);
    } else {
        lemma_rounds_cubes(points, len, k + 1);
    }
}

/// Where there is no cube with more variable bits, all cubes of the row are maximal.
proof fn lemma_last_cubes(points: Set<Seq<Bit>>, len: nat, k: nat)
    requires
        k == len + 1 || cubes_by(points, len, k + 1) == cubes_by(points, len, k),
    ensures
        cubes_by(points, len, k) == maximal_cubes(points, len),
{
    let row = cubes_by(points, len, k);
    assert forall|p: Seq<Bit>| row.contains(p) <==> maximal_cubes(points, len).contains(p) by {
        lemma_occurrences_bound(p, Bit::Var);
        if k != len + 1 {
            let after = cubes_by(points, len, k + 1);
            if row.contains(p) {
                assert(after.contains(p));
            }
            if is_maximal_cube(points, len, p) && occurrences(p, Bit::Var) > k {
                let q = lemma_shrunk(points, len, p, k + 1);
                assert(after.contains(q));
                assert(row.contains(q));
            }
        }
    }
    assert(row =~= maximal_cubes(points, len));
}

/// A cube contains cubes with any smaller number of variable bits.
proof fn lemma_shrunk(points: Set<Seq<Bit>>, len: nat, cube: Seq<Bit>, k: nat) -> (q: Seq<Bit>)
    requires
        is_cube(points, len, cube),
        occurrences(cube, Bit::Var) >= k,
    ensures
        is_cube(points, len, q),
        occurrences(q, Bit::Var) == k,
    decreases occurrences(cube, Bit::Var),
{
    if occurrences(cube, Bit::Var) == k {
        cube
    } else {
        let at = lemma_some_variable(cube);
        lemma_halves(cube, at);
        let low = cube.update(at, Bit::Low);
        lemma_smaller_cube(points, len, cube, low);
        lemma_shrunk(points, len, low, k)
    }
}

proof fn lemma_no_variable(bits: Seq<Bit>)
    ensures
        occurrences(bits, Bit::Var) == 0 <==> forall|i: int|
            0 <= i < bits.len() ==> #[trigger] bits[i] != Bit::Var,
    decreases bits.len(),
{
    if bits.len() > 0 {
        let front = bits.drop_last();
        lemma_no_variable(front);
        if forall|i: int| 0 <= i < bits.len() ==> #[trigger] bits[i] != Bit::Var {
            assert forall|i: int| 0 <= i < front.len() implies #[trigger] front[i]
                != Bit::Var by {
                assert(front[i] == bits[i]);
            }
            assert(bits[bits.len() - 1] != Bit::Var);
        }
        if occurrences(bits, Bit::Var) == 0 {
            assert forall|i: int| 0 <= i < bits.len() implies #[trigger] bits[i] != Bit::Var by {
                if i < front.len() {
                    assert(front[i] == bits[i]);
                }
            }
        }
    }
}

/// The cubes without variable bits are the points.
proof fn lemma_point_cubes(points: Set<Seq<Bit>>, len: nat)
    requires
        points_of_len(points, len),
    ensures
        cubes_by(points, len, 0) == points,
{
    let row = cubes_by(points, len, 0);
    assert forall|p: Seq<Bit>| row.contains(p) <==> points.contains(p) by {
        lemma_no_variable(p);
        if row.contains(p) {
            assert forall|i: int| 0 <= i < p.len() implies (#[trigger] p[i]).concrete() by {
                assert(p[i] != Bit::Var && p[i] != Bit::Test);
            }
            assert(pattern_matches(p, p));
        }
        if points.contains(p) {
            assert forall|i: int| 0 <= i < p.len() implies #[trigger] p[i] != Bit::Var && p[i]
                != Bit::Test by {
                assert(p[i].concrete());
            }
            assert forall|point: Seq<Bit>|
                all_concrete(point) && #[trigger] pattern_matches(p, point) implies points.contains(
                point,
            ) by {
                assert forall|i: int| 0 <= i < p.len() implies p[i] == point[i] by {
                    assert(p[i].concrete() && bit_accepts(p[i], point[i]));
                }
                assert(p =~= point);
            }
        }
    }
    assert(row =~= points);
}

/// Merging a set of points gives its maximal cubes: the patterns that stand for points of the set
/// only and that no larger such pattern contains.
pub proof fn lemma_merging_points(points: Set<Seq<Bit>>, len: nat)
    requires
        points_of_len(points, len),
    ensures
        merged_patterns(points, len) == maximal_cubes(points, len),
{
    lemma_point_cubes(points, len);
    lemma_cubes_maximal(points, len, 0);
    lemma_rounds_cubes(points, len, 0);
}

} // verus!
