//! Mutation of candidates.
use rand::rngs::StdRng;
use vstd::prelude::*;

use crate::bit::{
    all_concrete, bit_accepts, occurrences, pattern_matches, sharp, sharp_defined, Bit, BitPattern,
};
use crate::collections::{duplicate_all, lemma_map_of, viewed, OrderedMap, OrderedSet, Value};
use crate::crossover::row_names;
use crate::drawn_patterns::{
    any_bit, bit_of_draw, constants_of_draws, pattern_of_draws, point_of_draws, truth_bit,
};
use crate::field_uses::{all_of_len, merged_uses, FieldUses, FieldUsesV};
use crate::isa_candidate::{form_active, form_names, single_pattern, CandidateV, ISACandidate};
use crate::isa_optimization::{IsaOptimizationManager, RulesV};
use crate::isa_specification::{FormV, Instruction, InstructionForm, InstructionV};
use crate::pattern_count::{
    lemma_frequency_bounded, lemma_frequency_fits, lemma_partition_counts, lemma_set_frequency,
    set_frequency, sum_frequencies, total_frequency, uncovered_count,
};
use crate::pattern_cover::{
    all_testless, construct_bitpatterns_frequencies, covered, frequency, is_partition_of_rest,
    testless, uncovered_patterns,
};
use crate::protected_features::{restored, selectable};
use crate::random_draws::{
    choose_bool, draw_between, draw_bool, draw_small, draw_weighted, sample_indices, total_weight,
};
use crate::semantic_matching::{find_instruction, named_instruction};

verus! {

/// The draws that decide about one field: whether it mutates at all, whether it loses its
/// pattern, and whether a constant bit becomes variable.
#[derive(Debug, Clone, Copy, PartialEq, Eq, Structural)]
pub struct FieldDraws {
    pub mutates: bool,
    pub to_none: bool,
    pub const_to_var: bool,
}

/// The row is the pattern with each variable bit made definite.
pub open spec fn point_of(pattern: Seq<Bit>, point: Seq<Bit>) -> bool {
    &&& point.len() == pattern.len()
    &&& forall|i: int|
        0 <= i < pattern.len() ==> if pattern[i] == Bit::Var {
            (#[trigger] point[i]).concrete()
        } else {
            point[i] == pattern[i]
        }
}

/// What a bit can turn into: a constant bit becomes variable or flips, any other one becomes
/// a constant.
pub open spec fn bit_mutates(bit: Bit, const_to_var: bool, new_bit: Bit) -> bool {
    match bit {
        Bit::Low => new_bit == if const_to_var {
            Bit::Var
        } else {
            Bit::High
        },
        Bit::High => new_bit == if const_to_var {
            Bit::Var
        } else {
            Bit::Low
        },
        _ => new_bit.concrete(),
    }
}

/// Some bit of the pattern has mutated.
pub open spec fn one_bit_mutates(pattern: Seq<Bit>, const_to_var: bool, after: Seq<Bit>) -> bool {
    exists|at: int| #[trigger] pattern_mutates(pattern, const_to_var, at, after)
}

/// The bit at a place of the pattern has mutated.
pub open spec fn pattern_mutates(
    pattern: Seq<Bit>,
    const_to_var: bool,
    at: int,
    after: Seq<Bit>,
) -> bool {
    0 <= at < pattern.len() && after == pattern.update(at, after[at]) && bit_mutates(
        pattern[at],
        const_to_var,
        after[at],
    )
}

/// The set without one point of one of its patterns.
pub open spec fn without_point(
    patterns: Set<Seq<Bit>>,
    pattern: Seq<Bit>,
    point: Seq<Bit>,
) -> Set<Seq<Bit>> {
    if occurrences(pattern, Bit::Var) == 0 {
        patterns.remove(pattern)
    } else {
        patterns.remove(pattern).union(sharp(pattern, point))
    }
}

/// The set has gained an uncovered point.
pub open spec fn point_gained(
    patterns: Set<Seq<Bit>>,
    len: nat,
    point: Seq<Bit>,
    after: Set<Seq<Bit>>,
) -> bool {
    &&& point.len() == len
    &&& all_concrete(point)
    &&& !covered(patterns, point)
    &&& after == patterns.insert(point)
}

/// The set has lost a point of one of its patterns.
pub open spec fn point_lost(
    patterns: Set<Seq<Bit>>,
    pattern: Seq<Bit>,
    point: Seq<Bit>,
    after: Set<Seq<Bit>>,
) -> bool {
    &&& patterns.contains(pattern)
    &&& point_of(pattern, point)
    &&& after == without_point(patterns, pattern, point)
}

/// The set has gained or lost a point.
pub open spec fn patterns_mutate(
    patterns: Set<Seq<Bit>>,
    len: nat,
    after: Set<Seq<Bit>>,
) -> bool {
    ||| exists|point: Seq<Bit>| #[trigger] point_gained(patterns, len, point, after)
    ||| exists|pattern: Seq<Bit>, point: Seq<Bit>| #[trigger]
        point_lost(patterns, pattern, point, after)
}

/// What a field's uses can turn into.
///
/// A single pattern appears, disappears or changes in one bit. A set gains or loses one point,
/// and is merged.
pub open spec fn field_mutates(
    uses: FieldUsesV,
    to_none: bool,
    const_to_var: bool,
    after: FieldUsesV,
) -> bool {
    match uses {
        FieldUsesV::VariableBits { name, pattern, len } => {
            &&& after is VariableBits
            &&& after->VariableBits_name == name
            &&& after->VariableBits_len == len
            &&& match pattern {
                None => after->pattern matches Some(p) && p.len() == len && testless(p),
                Some(p) => if to_none {
                    after->pattern is None
                } else {
                    after->pattern is Some && one_bit_mutates(p, const_to_var, after->pattern->0)
                },
            }
        },
        FieldUsesV::Uses { name, patterns, len } => exists|changed: Set<Seq<Bit>>| #[trigger]
            patterns_mutate(patterns, len as nat, changed) && after == merged_uses(
                FieldUsesV::Uses { name, patterns: changed, len },
            ),
    }
}

/// A field's uses can mutate: a pattern has a bit to change, and the weights of a set's
/// patterns can be drawn from.
pub open spec fn mutable(uses: FieldUsesV, to_none: bool) -> bool {
    match uses {
        FieldUsesV::VariableBits { pattern, .. } => pattern matches Some(p) ==> to_none || p.len()
            > 0,
        FieldUsesV::Uses { patterns, len, .. } => {
            &&& all_of_len(patterns, len as nat)
            &&& all_testless(patterns)
            &&& set_frequency(patterns) + uncovered_count(patterns, len as nat) <= u128::MAX
        },
    }
}

/// The bit that a bit turns into; a constant is drawn for one that is none.
pub open spec fn turned_bit(bit: Bit, const_to_var: bool, drawn: bool) -> Bit {
    match bit {
        Bit::Low => if const_to_var {
            Bit::Var
        } else {
            Bit::High
        },
        Bit::High => if const_to_var {
            Bit::Var
        } else {
            Bit::Low
        },
        _ => truth_bit(drawn),
    }
}

/// The bit that a bit turns into; a constant is drawn for one that is none.
pub fn mutate_bit(bit: Bit, const_to_var: bool, drawn: bool) -> (r: Bit)
    ensures
        r == turned_bit(bit, const_to_var, drawn),
        bit_mutates(bit, const_to_var, r),
{
    match bit {
        Bit::Low => if const_to_var {
            Bit::Var
        } else {
            Bit::High
        },
        Bit::High => if const_to_var {
            Bit::Var
        } else {
            Bit::Low
        },
        _ => if drawn {
            Bit::High
        } else {
            Bit::Low
        },
    }
}

/// Changes the bit of a pattern at the drawn place.
pub fn mutate_pattern_at(pattern: &BitPattern, place: usize, const_to_var: bool, drawn: bool) -> (r:
    BitPattern)
    requires
        place < pattern@.len(),
    ensures
        r@ == pattern@.update(
            place as int,
            turned_bit(pattern@[place as int], const_to_var, drawn),
        ),
{
    let mut bits = crate::bit::copy_bits(&pattern.bits);
    bits.set(place, mutate_bit(pattern.bits[place], const_to_var, drawn));
    BitPattern { bits }
}

/// A random constant bit.
pub fn choose_random_bit(rng: &mut StdRng) -> (r: Bit)
    ensures
        r.concrete(),
{
    bit_of_draw(draw_small(rng, 0, 1))
}

/// Draws as many numbers of a range as are wanted.
fn draw_numbers(rng: &mut StdRng, count: usize, high: i32) -> (r: Vec<i32>)
    requires
        high >= 0,
    ensures
        r@.len() == count,
        forall|i: int| 0 <= i < r@.len() ==> 0 <= #[trigger] r@[i] <= high,
{
    let mut drawn: Vec<i32> = Vec::new();
    while drawn.len() < count
        invariant
            high >= 0,
            drawn@.len() <= count,
            forall|i: int| 0 <= i < drawn@.len() ==> 0 <= #[trigger] drawn@[i] <= high,
        decreases count - drawn@.len(),
    {
        drawn.push(draw_small(rng, 0, high));
    }
    drawn
}

/// A random row of zeros, ones and variable bits.
pub fn random_bit_pattern(len: usize, rng: &mut StdRng) -> (r: BitPattern)
    ensures
        r@.len() == len,
        testless(r@),
{
    pattern_of_draws(&draw_numbers(rng, len, 2))
}

/// A random row of zeros and ones.
pub fn random_concrete_pattern(len: usize, rng: &mut StdRng) -> (r: BitPattern)
    ensures
        r@.len() == len,
        all_concrete(r@),
{
    constants_of_draws(&draw_numbers(rng, len, 1))
}

/// Makes each variable bit of a pattern definite, by drawn truth values.
fn random_point(pattern: &BitPattern, rng: &mut StdRng) -> (r: BitPattern)
    ensures
        point_of(pattern@, r@),
{
    let mut drawn: Vec<bool> = Vec::new();
    while drawn.len() < pattern.bits.len()
        invariant
            drawn@.len() <= pattern@.len(),
        decreases pattern@.len() - drawn@.len(),
    {
        let variable = pattern.bits[drawn.len()] == Bit::Var;
        drawn.push(variable && draw_bool(rng));
    }
    point_of_draws(pattern, &drawn)
}

/// Makes each variable bit of a pattern definite, by choosing from zero and one.
fn choose_point(pattern: &BitPattern, rng: &mut StdRng) -> (r: BitPattern)
    ensures
        point_of(pattern@, r@),
{
    let mut drawn: Vec<bool> = Vec::new();
    while drawn.len() < pattern.bits.len()
        invariant
            drawn@.len() <= pattern@.len(),
        decreases pattern@.len() - drawn@.len(),
    {
        let variable = pattern.bits[drawn.len()] == Bit::Var;
        drawn.push(variable && choose_bool(rng));
    }
    point_of_draws(pattern, &drawn)
}

/// The weights of a list of patterns sum up to their frequencies.
proof fn lemma_weights(weights: Seq<u128>, rows: Seq<Seq<Bit>>)
    requires
        weights.len() == rows.len(),
        forall|i: int| 0 <= i < rows.len() ==> #[trigger] weights[i] == frequency(rows[i]),
    ensures
        total_weight(weights) == total_frequency(rows),
    decreases rows.len(),
{
    if rows.len() > 0 {
        assert forall|i: int| 0 <= i < rows.drop_last().len() implies #[trigger] weights.drop_last()[i]
            == frequency(rows.drop_last()[i]) by {
            assert(weights.drop_last()[i] == weights[i]);
        }
        lemma_weights(weights.drop_last(), rows.drop_last());
        assert(weights[weights.len() - 1] == frequency(rows[rows.len() - 1]));
    }
}

/// The weights of patterns, ready to draw from: the number of points of each.
pub fn pattern_weights(ordered: &Vec<BitPattern>) -> (r: Vec<u128>)
    requires
        total_frequency(viewed(ordered@)) <= u128::MAX,
    ensures
        r@.len() == ordered@.len(),
        forall|i: int| 0 <= i < r@.len() ==> #[trigger] r@[i] == frequency(ordered@[i]@),
        total_weight(r@) == total_frequency(viewed(ordered@)),
{
    let ghost rows = viewed(ordered@);
    proof {
        assert forall|i: int| 0 <= i < ordered@.len() implies occurrences(
            (#[trigger] ordered@[i])@,
            Bit::Var,
        ) < 128 by {
            assert(rows[i] == ordered@[i]@);
            lemma_frequency_bounded(rows, i);
            lemma_frequency_fits(rows[i]);
        }
    }
    let weights = construct_bitpatterns_frequencies(ordered);
    proof {
        assert forall|i: int| 0 <= i < rows.len() implies #[trigger] weights@[i] == frequency(
            rows[i],
        ) by {
            assert(rows[i] == ordered@[i]@);
        }
        lemma_weights(weights@, rows);
    }
    weights
}

/// The weights that decide how patterns are changed: the number of points of each pattern, and
/// last the number of points that none of them covers.
pub fn mutation_weights(
    ordered: &Vec<BitPattern>,
    uncovered: &OrderedSet<BitPattern>,
    len: usize,
) -> (r: Vec<u128>)
    requires
        viewed(ordered@).no_duplicates(),
        uncovered.distinct(),
        is_partition_of_rest(uncovered@, viewed(ordered@).to_set(), len as nat),
        set_frequency(viewed(ordered@).to_set()) + uncovered_count(
            viewed(ordered@).to_set(),
            len as nat,
        ) <= u128::MAX,
    ensures
        r@.len() == ordered@.len() + 1,
        forall|i: int|
            0 <= i < ordered@.len() ==> #[trigger] r@[i] == frequency(ordered@[i]@),
        r@[ordered@.len() as int] == uncovered_count(viewed(ordered@).to_set(), len as nat),
        total_weight(r@) == set_frequency(viewed(ordered@).to_set()) + uncovered_count(
            viewed(ordered@).to_set(),
            len as nat,
        ),
{
    let ghost rows = viewed(ordered@);
    proof {
        lemma_set_frequency(rows);
        uncovered.lemma_rows();
        lemma_partition_counts(uncovered.rows(), rows.to_set(), len as nat);
    }
    let mut freqs = pattern_weights(ordered);
    let ghost before = freqs@;
    freqs.push(sum_frequencies(uncovered));
    assert(freqs@.drop_last() =~= before);
    freqs
}

/// A random point of some pattern of the set; patterns with more points are drawn more often.
pub fn random_pattern(patterns: &OrderedSet<BitPattern>, rng: &mut StdRng) -> (r: BitPattern)
    requires
        patterns.rows().len() > 0,
        total_frequency(patterns.rows()) <= u128::MAX,
    ensures
        exists|pattern: Seq<Bit>| #[trigger] patterns@.contains(pattern) && point_of(pattern, r@),
{
    let ordered = patterns.to_vec();
    let ghost rows = patterns.rows();
    proof {
        lemma_frequency_bounded(rows, 0);
        patterns.lemma_rows();
    }
    let weights = pattern_weights(&ordered);
    let mut picked: usize = 0;
    if let Some(drawn) = draw_weighted(rng, &weights) {
        picked = drawn;
    }
    assert(ordered@.len() == rows.len());
    assert(rows[picked as int] == ordered@[picked as int]@);
    assert(patterns@.contains(rows[picked as int]));
    random_point(&ordered[picked], rng)
}

/// Takes one point of a pattern out of a set.
pub fn remove_point(
    patterns: &OrderedSet<BitPattern>,
    pattern: &BitPattern,
    point: &BitPattern,
) -> (r: OrderedSet<BitPattern>)
    requires
        occurrences(pattern@, Bit::Var) != 0 ==> sharp_defined(pattern@, point@),
    ensures
        r@ == without_point(patterns@, pattern@, point@),
{
    let mut left = patterns.difference(&single_pattern(pattern.clone()));
    assert(left@ =~= patterns@.remove(pattern@));
    if pattern.num_variable() != 0 {
        let pieces = pattern.cube_subtract(point);
        left.extend(&pieces);
    }
    left
}

/// A point of one of the cubes that partition what patterns leave uncovered.
proof fn lemma_point_uncovered(
    cubes: Set<Seq<Bit>>,
    patterns: Set<Seq<Bit>>,
    width: nat,
    cube: Seq<Bit>,
    point: Seq<Bit>,
)
    requires
        is_partition_of_rest(cubes, patterns, width),
        cubes.contains(cube),
        point_of(cube, point),
    ensures
        point.len() == width,
        all_concrete(point),
        !covered(patterns, point),
{
    assert(testless(cube));
    assert forall|i: int| 0 <= i < point.len() implies (#[trigger] point[i]).concrete() by {
        assert(cube[i] != Bit::Test);
    }
    assert forall|i: int| 0 <= i < point.len() implies bit_accepts(#[trigger] cube[i], point[i]) by {
        assert(cube[i] == Bit::Var || point[i] == cube[i]);
    }
    assert(pattern_matches(cube, point));
    assert(covered(cubes, point));
}

/// Draws one of the patterns of a set and a point of it, or the place behind them and an uncovered
/// point; the patterns come in the order in which they are counted.
fn draw_point(patterns: &OrderedSet<BitPattern>, len: usize, rng: &mut StdRng) -> (r: (
    Vec<BitPattern>,
    usize,
    BitPattern,
))
    requires
        all_of_len(patterns@, len as nat),
        all_testless(patterns@),
        set_frequency(patterns@) + uncovered_count(patterns@, len as nat) <= u128::MAX,
    ensures
        viewed(r.0@).to_set() == patterns@,
        point_fits(viewed(r.0@), r.1 as int, r.2@),
        r.2@.len() == len,
        patterns_mutate(
            patterns@,
            len as nat,
            patterns_changed(viewed(r.0@), r.1 as int, r.2@),
        ),
{
    // For `Uses`, what is done is constructing a weighted average.
    // Each pattern has a frequency of 2^k where k = number of variable bits, and there
    // is finally a frequency for non-included patterns, equal to the number of patterns
    // that are uncovered
    let once = OrderedSet::from_vec(patterns.to_vec());
    let patterns_ordered = once.to_vec();
    let ghost rows = viewed(patterns_ordered@);
    proof {
        patterns.lemma_rows();
        once.lemma_rows();
        lemma_set_frequency(rows);
        assert(rows.to_set() =~= patterns@);
    }
    let uncovered = uncovered_patterns(patterns, len);
    proof {
        uncovered.lemma_rows();
        lemma_partition_counts(uncovered.rows(), patterns@, len as nat);
    }
    let freqs = mutation_weights(&patterns_ordered, &uncovered, len);
    proof {
        lemma_some_point(patterns@, len as nat);
        if rows.len() > 0 {
            lemma_frequency_bounded(rows, 0);
        } else {
            assert(patterns@ =~= Set::empty());
        }
    }
    let mut picked: usize = 0;
    if let Some(drawn) = draw_weighted(rng, &freqs) {
        picked = drawn;
    } else {
        assert(false);
    }
    // The last place doesn't correspond with a real pattern, it means we want to add a random
    // uncovered pattern
    let point = if picked == patterns_ordered.len() {
        assert(uncovered.rows().len() > 0);
        random_pattern(&uncovered, rng)
    } else {
        choose_point(&patterns_ordered[picked], rng)
    };
    proof {
        if picked == rows.len() {
            let cube = choose|cube: Seq<Bit>| #[trigger]
                uncovered@.contains(cube) && point_of(cube, point@);
            lemma_point_uncovered(uncovered@, patterns@, len as nat, cube, point@);
        } else {
            assert(rows[picked as int] == patterns_ordered@[picked as int]@);
            assert(patterns@.contains(rows[picked as int]));
            assert(testless(rows[picked as int]));
        }
    }
    proof {
        let changed = patterns_changed(rows, picked as int, point@);
        if picked == rows.len() {
            assert(point_gained(patterns@, len as nat, point@, changed));
        } else {
            assert(point_lost(patterns@, rows[picked as int], point@, changed));
        }
    }
    (patterns_ordered, picked, point)
}

/// The patterns after a draw: behind the last pattern the point is added to them, else it is
/// taken out of the pattern at the drawn place.
pub open spec fn patterns_changed(ordered: Seq<Seq<Bit>>, picked: int, point: Seq<Bit>) -> Set<
    Seq<Bit>,
> {
    if picked == ordered.len() {
        ordered.to_set().insert(point)
    } else {
        without_point(ordered.to_set(), ordered[picked], point)
    }
}

/// A drawn point can be added to the patterns, or taken out of the drawn one.
pub open spec fn point_fits(ordered: Seq<Seq<Bit>>, picked: int, point: Seq<Bit>) -> bool {
    &&& 0 <= picked <= ordered.len()
    &&& picked < ordered.len() && occurrences(ordered[picked], Bit::Var) != 0 ==> sharp_defined(
        ordered[picked],
        point,
    )
}

/// The patterns after a draw: behind the last pattern the point is added to them, else it is
/// taken out of the pattern at the drawn place.
pub fn change_patterns(ordered: &Vec<BitPattern>, picked: usize, point: &BitPattern) -> (r:
    OrderedSet<BitPattern>)
    requires
        point_fits(viewed(ordered@), picked as int, point@),
    ensures
        r@ == patterns_changed(viewed(ordered@), picked as int, point@),
{
    let mut patterns = OrderedSet::from_vec(duplicate_all(ordered));
    proof {
        patterns.lemma_rows();
    }
    if picked == ordered.len() {
        patterns.insert(point.clone());
        patterns
    } else {
        remove_point(&patterns, &ordered[picked], point)
    }
}

proof fn lemma_sharp_len(a: Seq<Bit>, b: Seq<Bit>, p: Seq<Bit>)
    requires
        sharp(a, b).contains(p),
    ensures
        p.len() == a.len(),
{
}

/// Where there are no patterns some point is uncovered.
proof fn lemma_some_point(patterns: Set<Seq<Bit>>, width: nat)
    ensures
        patterns =~= Set::empty() ==> uncovered_count(patterns, width) > 0,
{
    if patterns =~= Set::empty() {
        let condition = |point: Seq<Bit>| !covered(patterns, point);
        assert forall|point: Seq<Bit>| #[trigger] condition(point) by {}
        lemma_count_all(condition, seq![], width);
    }
}

proof fn lemma_count_all(condition: spec_fn(Seq<Bit>) -> bool, prefix: Seq<Bit>, n: nat)
    requires
        forall|point: Seq<Bit>| #[trigger] condition(point),
    ensures
        crate::pattern_count::point_count(condition, prefix, n) > 0,
    decreases n,
{
    if n == 0 {
        assert(condition(prefix));
    } else {
        lemma_count_all(condition, prefix.push(Bit::Low), (n - 1) as nat);
    }
}

/// What is drawn about the change of a field's uses.
#[derive(Debug, PartialEq, Eq)]
pub enum FieldChange {
    /// A pattern appears, with a drawn number for each bit.
    Appear(Vec<i32>),
    /// The pattern disappears.
    Vanish,
    /// The bit at the place changes; where it is variable, to the drawn constant.
    Turn { place: usize, drawn: bool },
    /// The point is taken out of the picked one of the ordered patterns; behind the last one, it is
    /// added to them.
    Point { ordered: Vec<BitPattern>, picked: usize, point: BitPattern },
}

/// The change can be made to the uses.
pub open spec fn change_fits(uses: FieldUsesV, change: FieldChange) -> bool {
    match (uses, change) {
        (FieldUsesV::VariableBits { pattern, len, .. }, FieldChange::Appear(drawn)) => pattern
            is None && drawn@.len() == len,
        (FieldUsesV::VariableBits { .. }, FieldChange::Vanish) => true,
        (
            FieldUsesV::VariableBits { pattern, .. },
            FieldChange::Turn { place, .. },
        ) => pattern matches Some(p) && place < p.len(),
        (
            FieldUsesV::Uses { patterns, len, .. },
            FieldChange::Point { ordered, picked, point },
        ) => {
            &&& viewed(ordered@).to_set() == patterns
            &&& all_of_len(patterns, len as nat)
            &&& point@.len() == len
            &&& point_fits(viewed(ordered@), picked as int, point@)
        },
        _ => false,
    }
}

/// The uses after the change.
pub open spec fn field_changed(
    uses: FieldUsesV,
    const_to_var: bool,
    change: FieldChange,
) -> FieldUsesV {
    match (uses, change) {
        (
            FieldUsesV::VariableBits { name, len, .. },
            FieldChange::Appear(drawn),
        ) => FieldUsesV::VariableBits {
            name,
            pattern: Some(Seq::new(drawn@.len(), |i: int| any_bit(drawn@[i]))),
            len,
        },
        (
            FieldUsesV::VariableBits { name, pattern: Some(p), len },
            FieldChange::Turn { place, drawn },
        ) => FieldUsesV::VariableBits {
            name,
            pattern: Some(
                p.update(place as int, turned_bit(p[place as int], const_to_var, drawn)),
            ),
            len,
        },
        (FieldUsesV::VariableBits { name, len, .. }, _) => FieldUsesV::VariableBits {
            name,
            pattern: None,
            len,
        },
        (
            FieldUsesV::Uses { name, len, .. },
            FieldChange::Point { ordered, picked, point },
        ) => merged_uses(
            FieldUsesV::Uses {
                name,
                patterns: patterns_changed(viewed(ordered@), picked as int, point@),
                len,
            },
        ),
        (FieldUsesV::Uses { .. }, _) => uses,
    }
}

/// Changes a field's uses as drawn.
pub fn change_field(field: &FieldUses, const_to_var: bool, change: &FieldChange) -> (r: FieldUses)
    requires
        change_fits(field@, *change),
    ensures
        r@ == field_changed(field@, const_to_var, *change),
{
    match field {
        FieldUses::VariableBits { name, pattern, len } => {
            let after = match (pattern, change) {
                (_, FieldChange::Appear(drawn)) => Some(pattern_of_draws(drawn)),
                (Some(pattern), FieldChange::Turn { place, drawn }) => Some(
                    mutate_pattern_at(pattern, *place, const_to_var, *drawn),
                ),
                _ => None,
            };
            let r = FieldUses::VariableBits { name: name.clone(), pattern: after, len: *len };
            assert(r@->pattern == crate::collections::viewed_option(after));
            r
        },
        FieldUses::Uses { name, patterns: _, len } => {
            if let FieldChange::Point { ordered, picked, point } = change {
                let changed = change_patterns(ordered, *picked, point);
                proof {
                    lemma_changed_len(viewed(ordered@), *picked as int, point@, *len as nat);
                }
                FieldUses::Uses { name: name.clone(), patterns: changed, len: *len }.merge()
            } else {
                field.duplicate()
            }
        },
    }
}

/// Changed patterns keep their length.
pub(crate) proof fn lemma_changed_len(ordered: Seq<Seq<Bit>>, picked: int, point: Seq<Bit>, len: nat)
    requires
        all_of_len(ordered.to_set(), len),
        point.len() == len,
        point_fits(ordered, picked, point),
    ensures
        all_of_len(patterns_changed(ordered, picked, point), len),
{
    let changed = patterns_changed(ordered, picked, point);
    assert forall|p: Seq<Bit>| #[trigger] changed.contains(p) implies p.len() == len by {
        if !ordered.to_set().contains(p) && picked < ordered.len() {
            assert(ordered.to_set().contains(ordered[picked]));
            assert(sharp(ordered[picked], point).contains(p));
            lemma_sharp_len(ordered[picked], point, p);
        }
    }
}

/// Draws how a field's uses change.
///
/// The draw about losing the pattern comes from the caller.
fn draw_change(field: &FieldUses, to_none: bool, rng: &mut StdRng) -> (r: FieldChange)
    requires
        mutable(field@, to_none),
    ensures
        change_fits(field@, r),
        forall|const_to_var: bool|
            field_mutates(
                field@,
                to_none,
                const_to_var,
                #[trigger] field_changed(field@, const_to_var, r),
            ),
{
    match field {
        FieldUses::VariableBits { name: _, pattern, len } => match pattern {
            None => FieldChange::Appear(draw_numbers(rng, *len, 2)),
            Some(pattern) => {
                if to_none {
                    return FieldChange::Vanish;
                }
                // Choose a random bit to flip
                let place: usize = draw_between(rng, 0, pattern.bits.len() - 1);
                let drawn = !pattern.bits[place].is_concrete() && choose_random_bit(rng)
                    == Bit::High;
                let r = FieldChange::Turn { place, drawn };
                assert forall|const_to_var: bool| field_mutates(
                    field@,
                    to_none,
                    const_to_var,
                    #[trigger] field_changed(field@, const_to_var, r),
                ) by {
                    let bit = turned_bit(pattern@[place as int], const_to_var, drawn);
                    let after = pattern@.update(place as int, bit);
                    assert(pattern_mutates(pattern@, const_to_var, place as int, after));
                }
                r
            },
        },
        FieldUses::Uses { name: _, patterns, len } => {
            let (ordered, picked, point) = draw_point(patterns, *len, rng);
            assert(patterns_mutate(
                patterns@,
                *len as nat,
                patterns_changed(viewed(ordered@), picked as int, point@),
            ));
            FieldChange::Point { ordered, picked, point }
        },
    }
}

/// Mutates the provided field
///
/// The draws about losing the pattern and about making a constant bit variable come from the
/// caller.
pub fn mutate_field(field: &FieldUses, to_none: bool, const_to_var: bool, rng: &mut StdRng) -> (r:
    FieldUses)
    requires
        mutable(field@, to_none),
    ensures
        field_mutates(field@, to_none, const_to_var, r@),
{
    // We want to have a chance of either flipping the bit or making it more permissive
    // ie Bit::Low should either go to Bit::High or Bit::Var
    let change = draw_change(field, to_none, rng);
    change_field(field, const_to_var, &change)
}

/// The names of the forms that are listed, or those that are not.
pub open spec fn names_where(forms: Seq<FormV>, listed: Set<Seq<char>>, wanted: bool) -> Seq<
    Seq<char>,
>
    decreases forms.len(),
{
    if forms.len() == 0 {
        seq![]
    } else {
        let before = names_where(forms.drop_last(), listed, wanted);
        if listed.contains(forms.last().name) == wanted {
            before.push(forms.last().name)
        } else {
            before
        }
    }
}

/// The names at the picked places of a row.
pub open spec fn picked_names(names: Seq<Seq<char>>, picks: Seq<usize>) -> Set<Seq<char>> {
    Set::new(
        |name: Seq<char>|
            exists|k: int| 0 <= k < picks.len() && names[#[trigger] picks[k] as int] == name,
    )
}

/// The listed forms of an instruction, and the picked ones of its other forms.
pub open spec fn forms_with(
    instruction: InstructionV,
    listed: Set<Seq<char>>,
    picks: Seq<usize>,
) -> Set<Seq<char>> {
    names_where(instruction.forms, listed, true).to_set().union(
        picked_names(names_where(instruction.forms, listed, false), picks),
    )
}

/// The forms that mutation can leave an instruction: all unrestricted ones, and any others.
pub open spec fn forms_mutate(
    rules: RulesV,
    instruction: InstructionV,
    after: Set<Seq<char>>,
) -> bool {
    &&& after.subset_of(form_names(instruction.forms))
    &&& forall|j: int|
        0 <= j < instruction.forms.len() && form_active(
            rules.unrestricted,
            instruction.name,
            (#[trigger] instruction.forms[j]).name,
        ) ==> after.contains(instruction.forms[j].name)
}

proof fn lemma_names_where(forms: Seq<FormV>, listed: Set<Seq<char>>, wanted: bool)
    ensures
        forall|k: int|
            0 <= k < names_where(forms, listed, wanted).len() ==> form_names(forms).contains(
                #[trigger] names_where(forms, listed, wanted)[k],
            ),
        forall|j: int|
            0 <= j < forms.len() && listed.contains((#[trigger] forms[j]).name) == wanted
                ==> names_where(forms, listed, wanted).to_set().contains(forms[j].name),
    decreases forms.len(),
{
    if forms.len() > 0 {
        let shorter = forms.drop_last();
        lemma_names_where(shorter, listed, wanted);
        let before = names_where(shorter, listed, wanted);
        let names = names_where(forms, listed, wanted);
        let all = Seq::new(forms.len(), |i: int| forms[i].name);
        let fewer = Seq::new(shorter.len(), |i: int| shorter[i].name);
        assert forall|name: Seq<char>| form_names(shorter).contains(name) implies form_names(
            forms,
        ).contains(name) by {
            let i = choose|i: int| 0 <= i < fewer.len() && fewer[i] == name;
            assert(all[i] == name);
        }
        assert(all[forms.len() - 1] == forms.last().name);
        assert forall|k: int| 0 <= k < names.len() implies form_names(forms).contains(
            #[trigger] names[k],
        ) by {
            if k < before.len() {
                assert(names[k] == before[k]);
            }
        }
        assert forall|j: int| 0 <= j < forms.len() && listed.contains(
            (#[trigger] forms[j]).name,
        ) == wanted implies names.to_set().contains(forms[j].name) by {
            if j < shorter.len() {
                assert(shorter[j] == forms[j]);
                assert(before.to_set().contains(forms[j].name));
                let k = choose|k: int| 0 <= k < before.len() && before[k] == forms[j].name;
                assert(names[k] == forms[j].name);
            } else {
                assert(names[before.len() as int] == forms[j].name);
            }
        }
    }
}

/// Lists the names of forms that are listed, or of those that are not.
fn list_names(forms: &Vec<InstructionForm>, listed: &OrderedSet<String>, wanted: bool) -> (r: Vec<
    String,
>)
    ensures
        viewed(r@) == names_where(viewed(forms@), listed@, wanted),
        r@.len() <= forms@.len(),
{
    let ghost all = viewed(forms@);
    let mut names: Vec<String> = Vec::new();
    let mut i: usize = 0;
    assert(all.take(0) =~= Seq::empty());
    assert(viewed(names@) =~= seq![]);
    while i < forms.len()
        invariant
            all == viewed(forms@),
            i <= all.len(),
            names@.len() <= i,
            viewed(names@) == names_where(all.take(i as int), listed@, wanted),
        decreases all.len() - i,
    {
        proof {
            assert(all.take(i + 1).drop_last() =~= all.take(i as int));
            assert(all.take(i + 1).last() == forms@[i as int]@);
        }
        if listed.contains(&forms[i].name) == wanted {
            proof {
                crate::collections::lemma_viewed_push(names@, forms@[i as int].name);
            }
            names.push(forms[i].name.clone());
        }
        i += 1;
    }
    assert(all.take(i as int) =~= all);
    names
}

/// The listed forms of an instruction, and the picked ones of its other forms.
pub fn choose_forms(instruction: &Instruction, listed: &OrderedSet<String>, picks: &Vec<usize>) -> (r:
    OrderedSet<String>)
    requires
        forall|k: int|
            0 <= k < picks@.len() ==> #[trigger] picks@[k] < names_where(
                instruction@.forms,
                listed@,
                false,
            ).len(),
    ensures
        r@ == forms_with(instruction@, listed@, picks@),
        r.distinct(),
{
    let mut forms = OrderedSet::from_vec(list_names(&instruction.forms, listed, true));
    let others = list_names(&instruction.forms, listed, false);
    let ghost names = names_where(instruction@.forms, listed@, false);
    let ghost kept = forms@;
    let mut k: usize = 0;
    assert(forms@ =~= kept.union(picked_names(names, picks@.take(0))));
    while k < picks.len()
        invariant
            k <= picks@.len(),
            names == viewed(others@),
            forall|k: int| 0 <= k < picks@.len() ==> #[trigger] picks@[k] < names.len(),
            forms.distinct(),
            forms@ == kept.union(picked_names(names, picks@.take(k as int))),
        decreases picks@.len() - k,
    {
        let name = &others[picks[k]];
        assert(names[picks@[k as int] as int] == name@);
        forms.insert(name.clone());
        proof {
            let was = picks@.take(k as int);
            let now = picks@.take(k + 1);
            assert forall|name: Seq<char>| picked_names(names, now).contains(name) == (
            picked_names(names, was).contains(name) || name == names[picks@[k as int] as int]) by {
                if picked_names(names, was).contains(name) {
                    let j = choose|j: int|
                        0 <= j < was.len() && names[#[trigger] was[j] as int] == name;
                    assert(names[now[j] as int] == name);
                }
                assert(now[k as int] == picks@[k as int]);
                if picked_names(names, now).contains(name) {
                    let j = choose|j: int|
                        0 <= j < now.len() && names[#[trigger] now[j] as int] == name;
                    if j < k {
                        assert(names[was[j] as int] == name);
                    }
                }
            }
            assert(forms@ =~= kept.union(picked_names(names, now)));
        }
        k += 1;
    }
    assert(picks@.take(k as int) =~= picks@);
    forms
}

/// What a row of drawn fields can turn into.
pub open spec fn fields_mutate(
    rules: RulesV,
    names: Seq<Seq<char>>,
    draws: Seq<FieldDraws>,
    before: Map<Seq<char>, FieldUsesV>,
    after: Map<Seq<char>, FieldUsesV>,
) -> bool {
    &&& after.dom() == before.dom()
    &&& forall|k: int|
        0 <= k < names.len() ==> if draws[k].mutates && selectable(rules, names[k]) {
            field_mutates(
                before[names[k]],
                draws[k].to_none,
                draws[k].const_to_var,
                after[#[trigger] names[k]],
            )
        } else {
            after[names[k]] == before[names[k]]
        }
}

/// One of the first `n` instructions is drawn and has the name.
pub open spec fn drawn_name(
    instructions: Seq<InstructionV>,
    draws: Seq<bool>,
    n: int,
    name: Seq<char>,
) -> bool {
    exists|i: int| 0 <= i < n && draws[i] && (#[trigger] instructions[i]).name == name
}

/// What the forms of the first `n` instructions can turn into.
pub open spec fn active_forms_mutate(
    rules: RulesV,
    draws: Seq<bool>,
    n: int,
    before: Map<Seq<char>, Set<Seq<char>>>,
    after: Map<Seq<char>, Set<Seq<char>>>,
) -> bool {
    &&& after.dom() == before.dom()
    &&& forall|name: Seq<char>| #[trigger]
        before.contains_key(name) ==> if drawn_name(rules.instructions, draws, n, name) {
            forms_mutate(
                rules,
                named_instruction(rules.instructions, name)->0,
                after[name],
            )
        } else {
            after[name] == before[name]
        }
}

/// What a candidate can turn into: drawn fields and drawn instructions' forms mutate, and
/// unrestricted features are put back.
pub open spec fn candidate_mutates(
    rules: RulesV,
    names: Seq<Seq<char>>,
    field_draws: Seq<FieldDraws>,
    form_draws: Seq<bool>,
    before: CandidateV,
    after: CandidateV,
) -> bool {
    exists|changed: CandidateV|
        fields_mutate(
            rules,
            names,
            field_draws,
            before.valid_field_uses,
            changed.valid_field_uses,
        ) && active_forms_mutate(
            rules,
            form_draws,
            rules.instructions.len() as int,
            before.active_forms,
            changed.active_forms,
        ) && after == #[trigger] restored(rules, changed)
}

/// Nothing but the generator differs.
pub open spec fn same_but_rng(a: IsaOptimizationManager, b: IsaOptimizationManager) -> bool {
    &&& a.isa == b.isa
    &&& a.mandatory_forms == b.mandatory_forms
    &&& a.unrestricted_forms == b.unrestricted_forms
    &&& a.fixed_field_uses == b.fixed_field_uses
    &&& a.max_isa_candidate == b.max_isa_candidate
    &&& a.program == b.program
    &&& a.population_size == b.population_size
    &&& a.elite_candidate_count == b.elite_candidate_count
}

impl<'a> IsaOptimizationManager<'a> {
    /// Generates a new, completely random active_forms
    pub fn mutate_active_forms(&mut self, instruction_name: &String) -> (r: OrderedSet<String>)
        requires
            named_instruction(old(self)@.instructions, instruction_name@) is Some,
        ensures
            forms_mutate(
                old(self)@,
                named_instruction(old(self)@.instructions, instruction_name@)->0,
                r@,
            ),
            r.distinct(),
            same_but_rng(*old(self), *final(self)),
    {
        let ghost rules = self@;
        let isa = self.isa;
        match find_instruction(isa, instruction_name) {
            None => OrderedSet::new(),
            Some(instruction) => {
                let unrestricted_forms: OrderedSet<String> = match self.unrestricted_forms.get(
                    instruction_name.as_str(),
                ) {
                    Some(forms) => forms.duplicate(),
                    None => OrderedSet::new(),
                };
                let kept = list_names(&instruction.forms, &unrestricted_forms, true);
                let others = list_names(&instruction.forms, &unrestricted_forms, false);
                let num_forms_to_include: usize = draw_between(
                    &mut self.rng,
                    0,
                    instruction.forms.len() - kept.len(),
                );
                let picks = sample_indices(&mut self.rng, others.len(), num_forms_to_include);
                let ghost names = names_where(instruction@.forms, unrestricted_forms@, false);
                assert(names.len() == others@.len());
                let forms = choose_forms(instruction, &unrestricted_forms, &picks);
                proof {
                    lemma_named(rules.instructions, instruction_name@);
                    lemma_names_where(instruction@.forms, unrestricted_forms@, true);
                    lemma_names_where(instruction@.forms, unrestricted_forms@, false);
                    let first = names_where(instruction@.forms, unrestricted_forms@, true);
                    assert forall|name: Seq<char>| forms@.contains(name) implies form_names(
                        instruction@.forms,
                    ).contains(name) by {
                        if first.to_set().contains(name) {
                            let k = choose|k: int| 0 <= k < first.len() && first[k] == name;
                            assert(form_names(instruction@.forms).contains(first[k]));
                        } else {
                            let k = choose|k: int|
                                0 <= k < picks@.len() && names[#[trigger] picks@[k] as int] == name;
                            assert(form_names(instruction@.forms).contains(
                                names[picks@[k] as int],
                            ));
                        }
                    }
                    assert(forms@.subset_of(form_names(instruction@.forms)));
                }
                forms
            },
        }
    }

    /// Mutates drawn fields of a candidate.
    fn mutate_fields(&mut self, candidate: &ISACandidate, draws: &Vec<FieldDraws>) -> (r:
        OrderedMap<FieldUses>)
        requires
            candidate.wf(),
            draws@.len() == candidate.valid_field_uses.rows().len(),
            fields_mutable(
                old(self)@,
                row_names(candidate.valid_field_uses.rows()),
                draws@,
                candidate@.valid_field_uses,
            ),
        ensures
            fields_mutate(
                old(self)@,
                row_names(candidate.valid_field_uses.rows()),
                draws@,
                candidate@.valid_field_uses,
                r@,
            ),
            r.distinct(),
            same_but_rng(*old(self), *final(self)),
    {
        let ghost rules = self@;
        let ghost start = *self;
        let ghost rows = candidate.valid_field_uses.rows();
        let ghost names = row_names(rows);
        let ghost before = candidate.valid_field_uses@;
        let mut uses = candidate.valid_field_uses.duplicate();
        proof {
            candidate.valid_field_uses.lemma_rows();
            assert forall|k: int| 0 <= k < names.len() implies before.contains_key(
                #[trigger] names[k],
            ) && before[names[k]] == rows[k].1 by {
                lemma_map_of(rows, k);
            }
            assert forall|j: int, k: int| 0 <= j < k < names.len() implies #[trigger] names[j]
                != #[trigger] names[k] by {
                assert(rows[j].0 != rows[k].0);
            }
        }
        let mut k: usize = 0;
        while k < candidate.valid_field_uses.len()
            invariant
                same_but_rng(start, *self),
                rules == self@,
                rows == candidate.valid_field_uses.rows(),
                names == row_names(rows),
                before == candidate.valid_field_uses@,
                draws@.len() == rows.len(),
                fields_mutable(rules, names, draws@, before),
                k <= rows.len(),
                uses.distinct(),
                uses@.dom() == before.dom(),
                forall|k: int|
                    0 <= k < names.len() ==> before.contains_key(#[trigger] names[k])
                        && before[names[k]] == rows[k].1,
                forall|j: int, k: int|
                    0 <= j < k < names.len() ==> #[trigger] names[j] != #[trigger] names[k],
                forall|j: int|
                    k <= j < names.len() ==> uses@[#[trigger] names[j]] == before[names[j]],
                forall|j: int|
                    0 <= j < k ==> if draws@[j].mutates && selectable(rules, names[j]) {
                        field_mutates(
                            before[names[j]],
                            draws@[j].to_none,
                            draws@[j].const_to_var,
                            uses@[#[trigger] names[j]],
                        )
                    } else {
                        uses@[names[j]] == before[names[j]]
                    },
            decreases rows.len() - k,
        {
            let name = candidate.valid_field_uses.name_at(k);
            let draw = draws[k];
            assert(name@ == names[k as int]);
            if draw.mutates && self.field_selectable_for_ga_restriction(name) {
                let field = candidate.valid_field_uses.value_at(k);
                assert(mutable(before[names[k as int]], draw.to_none));
                let changed = mutate_field(
                    field,
                    draw.to_none,
                    draw.const_to_var,
                    &mut self.rng,
                );
                let ghost was = uses@;
                uses.insert(name.clone(), changed);
                assert(was.dom().contains(names[k as int]));
                assert(uses@.dom() =~= before.dom());
            }
            k += 1;
        }
        uses
    }

    /// Mutates the forms of drawn instructions of a candidate.
    fn mutate_forms(&mut self, candidate: &ISACandidate, draws: &Vec<bool>) -> (r: OrderedMap<
        OrderedSet<String>,
    >)
        requires
            candidate.wf(),
            draws@.len() == old(self)@.instructions.len(),
            forall|i: int|
                0 <= i < old(self)@.instructions.len() && draws@[i]
                    ==> candidate@.active_forms.contains_key(
                    (#[trigger] old(self)@.instructions[i]).name,
                ),
        ensures
            active_forms_mutate(
                old(self)@,
                draws@,
                old(self)@.instructions.len() as int,
                candidate@.active_forms,
                r@,
            ),
            r.distinct(),
            same_but_rng(*old(self), *final(self)),
    {
        let ghost rules = self@;
        let ghost start = *self;
        let ghost before = candidate.active_forms@;
        let ghost instructions = rules.instructions;
        let isa = self.isa;
        let mut forms = candidate.active_forms.duplicate();
        let mut i: usize = 0;
        while i < isa.instructions.len()
            invariant
                same_but_rng(start, *self),
                rules == self@,
                isa == self.isa,
                instructions == rules.instructions,
                before == candidate.active_forms@,
                draws@.len() == instructions.len(),
                forall|i: int|
                    0 <= i < instructions.len() && draws@[i] ==> before.contains_key(
                        (#[trigger] instructions[i]).name,
                    ),
                i <= instructions.len(),
                forms.distinct(),
                active_forms_mutate(rules, draws@, i as int, before, forms@),
            decreases instructions.len() - i,
        {
            let instruction = &isa.instructions[i];
            let ghost was = forms@;
            assert(instruction@ == instructions[i as int]);
            if draws[i] {
                proof {
                    lemma_named_listed(instructions, i as int);
                }
                let changed = self.mutate_active_forms(&instruction.name);
                forms.insert(instruction.name.clone(), changed);
                proof {
                    assert(was.dom().contains(instruction.name@)) by {
                        assert(before.dom().contains(instructions[i as int].name));
                    }
                    assert(forms@.dom() =~= before.dom());
                }
            }
            proof {
                assert forall|name: Seq<char>|
                    drawn_name(instructions, draws@, i + 1, name) == (drawn_name(
                        instructions,
                        draws@,
                        i as int,
                        name,
                    ) || (draws@[i as int] && instructions[i as int].name == name)) by {}
            }
            i += 1;
        }
        forms
    }

    /// Mutates an ISA candidate
    ///
    /// The draws come from the caller: for each field of the candidate in its order, and for
    /// each instruction.
    pub fn mutate(
        &mut self,
        candidate: &ISACandidate,
        field_draws: &Vec<FieldDraws>,
        form_draws: &Vec<bool>,
    ) -> (r: ISACandidate)
        requires
            old(self).wf(),
            candidate.wf(),
            field_draws@.len() == candidate.valid_field_uses.rows().len(),
            fields_mutable(
                old(self)@,
                row_names(candidate.valid_field_uses.rows()),
                field_draws@,
                candidate@.valid_field_uses,
            ),
            form_draws@.len() == old(self)@.instructions.len(),
            forall|i: int|
                0 <= i < old(self)@.instructions.len() && form_draws@[i]
                    ==> candidate@.active_forms.contains_key(
                    (#[trigger] old(self)@.instructions[i]).name,
                ),
        ensures
            candidate_mutates(
                old(self)@,
                row_names(candidate.valid_field_uses.rows()),
                field_draws@,
                form_draws@,
                candidate@,
                r@,
            ),
            r.wf(),
            same_but_rng(*old(self), *final(self)),
    {
        let ghost rules = self@;
        let valid_field_uses = self.mutate_fields(candidate, field_draws);
        assert(self@ == rules);
        let active_forms = self.mutate_forms(candidate, form_draws);
        assert(self@ == rules);
        let mut mutated = ISACandidate { valid_field_uses, active_forms };
        let ghost changed = mutated@;
        self.restore_unrestricted_features(&mut mutated);
        assert(mutated@ == restored(rules, changed));
        mutated
    }
}

/// The drawn fields that the search may restrict can mutate.
pub open spec fn fields_mutable(
    rules: RulesV,
    names: Seq<Seq<char>>,
    draws: Seq<FieldDraws>,
    uses: Map<Seq<char>, FieldUsesV>,
) -> bool {
    forall|k: int|
        0 <= k < names.len() && draws[k].mutates && selectable(rules, names[k]) ==> mutable(
            uses[#[trigger] names[k]],
            draws[k].to_none,
        )
}

proof fn lemma_named(instructions: Seq<InstructionV>, name: Seq<char>)
    ensures
        named_instruction(instructions, name) matches Some(found) ==> found.name == name,
    decreases instructions.len(),
{
    if instructions.len() > 0 {
        lemma_named(instructions.drop_last(), name);
    }
}

proof fn lemma_named_listed(instructions: Seq<InstructionV>, i: int)
    requires
        0 <= i < instructions.len(),
    ensures
        named_instruction(instructions, instructions[i].name) is Some,
    decreases instructions.len(),
{
    if i < instructions.len() - 1 {
        lemma_named_listed(instructions.drop_last(), i);
    }
}

/// Mutation leaves the fields alone that the search may not restrict, up to putting
/// unrestricted features back.
pub proof fn lemma_mutation_keeps_unselectable(
    rules: RulesV,
    names: Seq<Seq<char>>,
    field_draws: Seq<FieldDraws>,
    form_draws: Seq<bool>,
    before: CandidateV,
    after: CandidateV,
    k: int,
)
    requires
        candidate_mutates(rules, names, field_draws, form_draws, before, after),
        0 <= k < names.len(),
        before.valid_field_uses.contains_key(names[k]),
        !selectable(rules, names[k]),
    ensures
        after.valid_field_uses.contains_key(names[k]),
        after.valid_field_uses[names[k]] == restored(rules, before).valid_field_uses[names[k]],
{
    let changed = choose|changed: CandidateV|
        fields_mutate(
            rules,
            names,
            field_draws,
            before.valid_field_uses,
            changed.valid_field_uses,
        ) && active_forms_mutate(
            rules,
            form_draws,
            rules.instructions.len() as int,
            before.active_forms,
            changed.active_forms,
        ) && after == #[trigger] restored(rules, changed);
    assert(before.valid_field_uses.dom().contains(names[k]));
    assert(changed.valid_field_uses.dom().contains(names[k]));
    assert(changed.valid_field_uses[names[k]] == before.valid_field_uses[names[k]]);
}

/// A mutated candidate has every unrestricted form and all uses of their fields.
pub proof fn lemma_mutation_keeps_unrestricted(
    rules: RulesV,
    names: Seq<Seq<char>>,
    field_draws: Seq<FieldDraws>,
    form_draws: Seq<bool>,
    before: CandidateV,
    after: CandidateV,
)
    requires
        candidate_mutates(rules, names, field_draws, form_draws, before, after),
    ensures
        restored(rules, after) == after,
{
    let changed = choose|changed: CandidateV|
        fields_mutate(
            rules,
            names,
            field_draws,
            before.valid_field_uses,
            changed.valid_field_uses,
        ) && active_forms_mutate(
            rules,
            form_draws,
            rules.instructions.len() as int,
            before.active_forms,
            changed.active_forms,
        ) && after == #[trigger] restored(rules, changed);
    crate::protected_features::lemma_restored_twice(rules, changed);
}

} // verus!
