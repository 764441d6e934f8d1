//! Which points a set of patterns leaves uncovered, and how many points patterns stand for.
use vstd::arithmetic::power2::pow2;
use vstd::prelude::*;

use crate::bit::{
    all_concrete, bit_accepts, cubes_disjoint, occurrences, opposed, pattern_matches, piece, sharp,
    sharp_defined, splits_at, variable_pattern, Bit, BitPattern,
};
use crate::collections::{lemma_push_to_set, OrderedSet};
use crate::field_uses::all_of_len;

verus! {

/// The row holds no `Test` bit.
pub open spec fn testless(bits: Seq<Bit>) -> bool {
    forall|i: int| 0 <= i < bits.len() ==> #[trigger] bits[i] != Bit::Test
}

/// No pattern of the set holds a `Test` bit.
pub open spec fn all_testless(patterns: Set<Seq<Bit>>) -> bool {
    forall|p: Seq<Bit>| #[trigger] patterns.contains(p) ==> testless(p)
}

/// Some pattern of the set accepts the point.
pub open spec fn covered(patterns: Set<Seq<Bit>>, point: Seq<Bit>) -> bool {
    exists|p: Seq<Bit>| #[trigger] patterns.contains(p) && pattern_matches(p, point)
}

/// The patterns of the set pairwise share no point.
pub open spec fn pairwise_disjoint(patterns: Set<Seq<Bit>>) -> bool {
    forall|a: Seq<Bit>, b: Seq<Bit>|
        #[trigger] patterns.contains(a) && #[trigger] patterns.contains(b) && a != b
            ==> cubes_disjoint(a, b)
}

/// Subtracting cubes keeps their length and brings in no `Test` bit.
pub proof fn lemma_piece_shape(a: Seq<Bit>, b: Seq<Bit>, k: int)
    requires
        a.len() == b.len(),
        splits_at(a, b, k),
        testless(a),
    ensures
        piece(a, b, k).len() == a.len(),
        testless(piece(a, b, k)),
{
    let p = piece(a, b, k);
    assert forall|i: int| 0 <= i < p.len() implies #[trigger] p[i] != Bit::Test by {
        assert(a[i] != Bit::Test);
    }
}

/// The sharp product holds exactly the points of the first cube that the second one lacks.
pub proof fn lemma_sharp_points(a: Seq<Bit>, b: Seq<Bit>, point: Seq<Bit>)
    requires
        a.len() == b.len(),
        testless(a),
        testless(b),
        point.len() == a.len(),
        all_concrete(point),
    ensures
        covered(sharp(a, b), point) == (pattern_matches(a, point) && !pattern_matches(b, point)),
{
    if cubes_disjoint(a, b) {
        let i = choose|i: int| 0 <= i < a.len() && i < b.len() && opposed(#[trigger] a[i], b[i]);
        assert(sharp(a, b).contains(a));
        assert(bit_accepts(a[i], point[i]) ==> !bit_accepts(b[i], point[i]));
        if pattern_matches(b, point) {
            assert(bit_accepts(b[i], point[i]));
        }
        if covered(sharp(a, b), point) {
            let p = choose|p: Seq<Bit>|
                #[trigger] sharp(a, b).contains(p) && pattern_matches(p, point);
            assert(p == a);
            assert(bit_accepts(a[i], point[i]));
        }
    } else {
        if covered(sharp(a, b), point) {
            let p = choose|p: Seq<Bit>|
                #[trigger] sharp(a, b).contains(p) && pattern_matches(p, point);
            let k = choose|k: int| splits_at(a, b, k) && p == #[trigger] piece(a, b, k);
            assert forall|i: int| 0 <= i < a.len() implies bit_accepts(
                #[trigger] a[i],
                point[i],
            ) by {
                assert(bit_accepts(p[i], point[i]));
            }
            assert(bit_accepts(p[k], point[k]));
            assert(!bit_accepts(b[k], point[k]));
        }
        if pattern_matches(a, point) && !pattern_matches(b, point) {
            let bad = choose|i: int|
                0 <= i < b.len() && !bit_accepts(#[trigger] b[i], point[i]);
            assert(bit_accepts(a[bad], point[bad]));
            assert(!opposed(a[bad], b[bad]));
            assert(splits_at(a, b, bad));
            lemma_first_leaving(a, b, point, bad);
        }
    }
}

/// A point outside of `b` leaves it first at some splitting place, and lies in that piece.
proof fn lemma_first_leaving(a: Seq<Bit>, b: Seq<Bit>, point: Seq<Bit>, k: int)
    requires
        a.len() == b.len(),
        point.len() == a.len(),
        all_concrete(point),
        pattern_matches(a, point),
        !cubes_disjoint(a, b),
        splits_at(a, b, k),
        !bit_accepts(b[k], point[k]),
    ensures
        covered(sharp(a, b), point),
    decreases k,
{
    if exists|j: int| 0 <= j < k && splits_at(a, b, j) && !bit_accepts(#[trigger] b[j], point[j]) {
        let j = choose|j: int|
            0 <= j < k && splits_at(a, b, j) && !bit_accepts(#[trigger] b[j], point[j]);
        lemma_first_leaving(a, b, point, j);
    } else {
        let p = piece(a, b, k);
        assert forall|i: int| 0 <= i < p.len() implies bit_accepts(#[trigger] p[i], point[i]) by {
            assert(bit_accepts(a[i], point[i]));
            assert(point[i].concrete());
            if i < k && splits_at(a, b, i) {
                assert(bit_accepts(b[i], point[i]));
            }
        }
        assert(sharp(a, b).contains(p));
    }
}

/// The pieces of a sharp product share no point, and none has a point outside of the cube.
pub proof fn lemma_sharp_disjoint(a: Seq<Bit>, b: Seq<Bit>)
    requires
        a.len() == b.len(),
    ensures
        pairwise_disjoint(sharp(a, b)),
{
    if !cubes_disjoint(a, b) {
        assert forall|p: Seq<Bit>, q: Seq<Bit>|
            #[trigger] sharp(a, b).contains(p) && #[trigger] sharp(a, b).contains(q) && p
                != q implies cubes_disjoint(p, q) by {
            let j = choose|k: int| splits_at(a, b, k) && p == #[trigger] piece(a, b, k);
            let k = choose|k: int| splits_at(a, b, k) && q == #[trigger] piece(a, b, k);
            if j < k {
                assert(opposed(p[j], q[j]));
            } else if k < j {
                assert(opposed(p[k], q[k]));
            }
        }
    }
}

/// Cubes that share no point still share none after pieces are cut from them.
proof fn lemma_pieces_stay_disjoint(a: Seq<Bit>, b: Seq<Bit>, other: Seq<Bit>, p: Seq<Bit>)
    requires
        a.len() == b.len(),
        cubes_disjoint(a, other),
        sharp(a, b).contains(p),
        a.len() == other.len(),
    ensures
        cubes_disjoint(p, other),
        p.len() == a.len(),
{
    let i = choose|i: int|
        0 <= i < a.len() && i < other.len() && opposed(#[trigger] a[i], other[i]);
    if !cubes_disjoint(a, b) {
        let k = choose|k: int| splits_at(a, b, k) && p == #[trigger] piece(a, b, k);
        assert(a[i].concrete());
        assert(p[i] == a[i]);
    }
    assert(opposed(p[i], other[i]));
}

proof fn lemma_disjoint_symmetric(a: Seq<Bit>, b: Seq<Bit>)
    requires
        cubes_disjoint(a, b),
    ensures
        cubes_disjoint(b, a),
{
    let i = choose|i: int| 0 <= i < a.len() && i < b.len() && opposed(#[trigger] a[i], b[i]);
    assert(opposed(b[i], a[i]));
}

/// What remains of the cubes of a row when a pattern is subtracted from each.
spec fn remainder(rows: Seq<Seq<Bit>>, pattern: Seq<Bit>) -> Set<Seq<Bit>> {
    Set::new(
        |p: Seq<Bit>|
            exists|k: int| 0 <= k < rows.len() && #[trigger] sharp(rows[k], pattern).contains(p),
    )
}

/// Cubes that partition what was left of the points.
pub open spec fn is_partition_of_rest(
    cubes: Set<Seq<Bit>>,
    patterns: Set<Seq<Bit>>,
    width: nat,
) -> bool {
    &&& all_of_len(cubes, width)
    &&& all_testless(cubes)
    &&& pairwise_disjoint(cubes)
    &&& forall|point: Seq<Bit>|
        point.len() == width && all_concrete(point) ==> #[trigger] covered(cubes, point)
            == !covered(patterns, point)
}

/// Subtracting one more pattern leaves a partition of what is then left.
proof fn lemma_remainder(
    rows: Seq<Seq<Bit>>,
    patterns: Set<Seq<Bit>>,
    pattern: Seq<Bit>,
    width: nat,
)
    requires
        is_partition_of_rest(rows.to_set(), patterns, width),
        pattern.len() == width,
        testless(pattern),
    ensures
        is_partition_of_rest(remainder(rows, pattern), patterns.insert(pattern), width),
{
    let cubes = rows.to_set();
    let left = remainder(rows, pattern);
    let more = patterns.insert(pattern);
    assert forall|p: Seq<Bit>| #[trigger] left.contains(p) implies p.len() == width && testless(
        p,
    ) by {
        let k = choose|k: int| 0 <= k < rows.len() && #[trigger] sharp(rows[k], pattern).contains(p);
        assert(cubes.contains(rows[k]));
        if !cubes_disjoint(rows[k], pattern) {
            let at = choose|at: int|
                splits_at(rows[k], pattern, at) && p == #[trigger] piece(rows[k], pattern, at);
            lemma_piece_shape(rows[k], pattern, at);
        }
    }
    assert forall|p: Seq<Bit>, q: Seq<Bit>|
        #[trigger] left.contains(p) && #[trigger] left.contains(q) && p != q implies cubes_disjoint(
        p,
        q,
    ) by {
        let j = choose|k: int| 0 <= k < rows.len() && #[trigger] sharp(rows[k], pattern).contains(p);
        let k = choose|k: int| 0 <= k < rows.len() && #[trigger] sharp(rows[k], pattern).contains(q);
        assert(cubes.contains(rows[j]) && cubes.contains(rows[k]));
        if rows[j] == rows[k] {
            lemma_sharp_disjoint(rows[j], pattern);
        } else {
            assert(cubes_disjoint(rows[j], rows[k]));
            lemma_pieces_stay_disjoint(rows[j], pattern, rows[k], p);
            lemma_disjoint_symmetric(p, rows[k]);
            lemma_pieces_stay_disjoint(rows[k], pattern, p, q);
            lemma_disjoint_symmetric(q, p);
        }
    }
    assert forall|point: Seq<Bit>| point.len() == width && all_concrete(
        point,
    ) implies #[trigger] covered(left, point) == !covered(more, point) by {
        assert(covered(cubes, point) == !covered(patterns, point));
        if covered(left, point) {
            let p = choose|p: Seq<Bit>| #[trigger] left.contains(p) && pattern_matches(p, point);
            let k = choose|k: int|
                0 <= k < rows.len() && #[trigger] sharp(rows[k], pattern).contains(p);
            assert(cubes.contains(rows[k]));
            lemma_sharp_points(rows[k], pattern, point);
            assert(covered(sharp(rows[k], pattern), point));
            assert(covered(cubes, point));
            if covered(more, point) {
                let q = choose|q: Seq<Bit>| #[trigger] more.contains(q) && pattern_matches(q, point);
                if q != pattern {
                    assert(patterns.contains(q));
                    assert(covered(patterns, point));
                }
            }
        }
        if !covered(more, point) {
            assert(!covered(patterns, point)) by {
                if covered(patterns, point) {
                    let q = choose|q: Seq<Bit>|
                        #[trigger] patterns.contains(q) && pattern_matches(q, point);
                    assert(more.contains(q));
                }
            }
            assert(more.contains(pattern));
            let c = choose|c: Seq<Bit>| #[trigger] cubes.contains(c) && pattern_matches(c, point);
            let k = choose|k: int| 0 <= k < rows.len() && rows[k] == c;
            lemma_sharp_points(rows[k], pattern, point);
            let p = choose|p: Seq<Bit>|
                #[trigger] sharp(rows[k], pattern).contains(p) && pattern_matches(p, point);
            assert(sharp(rows[k], pattern).contains(p));
            assert(left.contains(p));
        }
    }
}

/// Subtracts a pattern from each cube.
fn subtract_from_each(cubes: &OrderedSet<BitPattern>, pattern: &BitPattern) -> (r: OrderedSet<
    BitPattern,
>)
    requires
        forall|k: int|
            0 <= k < cubes.rows().len() ==> sharp_defined(#[trigger] cubes.rows()[k], pattern@),
    ensures
        r@ == remainder(cubes.rows(), pattern@),
        r.distinct(),
{
    let ghost rows = cubes.rows();
    let mut r: OrderedSet<BitPattern> = OrderedSet::new();
    let mut k: usize = 0;
    assert(r@ =~= remainder(rows.take(0), pattern@));
    while k < cubes.len()
        invariant
            rows == cubes.rows(),
            k <= rows.len(),
            r.distinct(),
            forall|k: int|
                0 <= k < cubes.rows().len() ==> sharp_defined(
                    #[trigger] cubes.rows()[k],
                    pattern@,
                ),
            r@ == remainder(rows.take(k as int), pattern@),
        decreases rows.len() - k,
    {
        let cube = cubes.get(k);
        assert(sharp_defined(cubes.rows()[k as int], pattern@));
        let pieces = cube.cube_subtract(pattern);
        r.extend(&pieces);
        proof {
            let was = rows.take(k as int);
            let now = rows.take(k + 1);
            assert forall|p: Seq<Bit>| remainder(now, pattern@).contains(p) == (remainder(
                was,
                pattern@,
            ).contains(p) || pieces@.contains(p)) by {
                if remainder(was, pattern@).contains(p) {
                    let j = choose|j: int|
                        0 <= j < was.len() && #[trigger] sharp(was[j], pattern@).contains(p);
                    assert(sharp(now[j], pattern@).contains(p));
                }
                if pieces@.contains(p) {
                    assert(sharp(now[k as int], pattern@).contains(p));
                }
                if remainder(now, pattern@).contains(p) {
                    let j = choose|j: int|
                        0 <= j < now.len() && #[trigger] sharp(now[j], pattern@).contains(p);
                    if j < k {
                        assert(sharp(was[j], pattern@).contains(p));
                    }
                }
            }
            assert(r@ =~= remainder(now, pattern@));
        }
        k += 1;
    }
    assert(rows.take(k as int) =~= rows);
    r
}

/// Cubes that hold exactly the points that no pattern covers; no point is in two of them.
pub fn uncovered_patterns(patterns: &OrderedSet<BitPattern>, field_width: usize) -> (r: OrderedSet<
    BitPattern,
>)
    requires
        all_of_len(patterns@, field_width as nat),
        all_testless(patterns@),
    ensures
        is_partition_of_rest(r@, patterns@, field_width as nat),
        r.distinct(),
{
    broadcast use OrderedSet::lemma_rows;

    let ghost width = field_width as nat;
    let ghost rows = patterns.rows();
    let mut cubes: OrderedSet<BitPattern> = OrderedSet::new();
    cubes.insert(BitPattern::variable(field_width));
    proof {
        let whole = variable_pattern(width);
        assert(rows.take(0).to_set() =~= Set::empty());
        assert forall|point: Seq<Bit>| point.len() == width && all_concrete(
            point,
        ) implies #[trigger] covered(cubes@, point) == !covered(rows.take(0).to_set(), point) by {
            assert(cubes@.contains(whole));
            assert(pattern_matches(whole, point));
        }
    }
    let mut i: usize = 0;
    while i < patterns.len()
        invariant
            width == field_width,
            rows == patterns.rows(),
            patterns@ == rows.to_set(),
            i <= rows.len(),
            all_of_len(patterns@, width),
            all_testless(patterns@),
            cubes.distinct(),
            is_partition_of_rest(cubes@, rows.take(i as int).to_set(), width),
        decreases rows.len() - i,
    {
        let pattern = patterns.get(i);
        proof {
            cubes.lemma_rows();
            assert forall|k: int| 0 <= k < cubes.rows().len() implies sharp_defined(
                #[trigger] cubes.rows()[k],
                pattern@,
            ) by {
                assert(cubes@.contains(cubes.rows()[k]));
                assert(testless(pattern@));
            }
            lemma_remainder(cubes.rows(), rows.take(i as int).to_set(), pattern@, width);
            assert(rows.take(i + 1) =~= rows.take(i as int).push(rows[i as int]));
            lemma_push_to_set(rows.take(i as int), rows[i as int]);
        }
        cubes = subtract_from_each(&cubes, pattern);
        i += 1;
    }
    assert(rows.take(i as int) =~= rows);
    cubes
}

/// How many points a pattern stands for, as far as its variable bits go.
pub open spec fn frequency(pattern: Seq<Bit>) -> nat {
    pow2(occurrences(pattern, Bit::Var))
}

/// A power of two below the word range, as a shifted one.
pub(crate) fn power_of_two(exponent: usize) -> (r: u128)
    requires
        exponent < 128,
    ensures
        r == pow2(exponent as nat),
{
    proof {
        vstd::arithmetic::power2::lemma2_to64();
        if exponent > 0 {
            crate::const_eval::lemma_mask(exponent as u16);
        } else {
            assert(1u128 << 0u16 == 1u128) by (bit_vector);
        }
    }
    1u128 << (exponent as u16)
}

/// The weights by which patterns are drawn: each counts its points.
pub fn construct_bitpatterns_frequencies(patterns: &Vec<BitPattern>) -> (r: Vec<u128>)
    requires
        forall|i: int|
            0 <= i < patterns@.len() ==> occurrences((#[trigger] patterns@[i])@, Bit::Var) < 128,
    ensures
        r@.len() == patterns@.len(),
        forall|i: int|
            0 <= i < r@.len() ==> #[trigger] r@[i] == frequency(patterns@[i]@),
{
    let mut freqs: Vec<u128> = Vec::new();
    let mut i: usize = 0;
    while i < patterns.len()
        invariant
            i <= patterns@.len(),
            forall|i: int|
                0 <= i < patterns@.len() ==> occurrences((#[trigger] patterns@[i])@, Bit::Var)
                    < 128,
            freqs@.len() == i,
            forall|j: int| 0 <= j < i ==> #[trigger] freqs@[j] == frequency(patterns@[j]@),
        decreases patterns@.len() - i,
    {
        freqs.push(power_of_two(patterns[i].num_variable()));
        i += 1;
    }
    freqs
}

} // verus!
