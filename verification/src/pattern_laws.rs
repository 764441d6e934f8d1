//! What patterns of bits, their operators and tables over them stand for.
use vstd::arithmetic::power::{lemma_pow_positive, pow};
use vstd::prelude::*;

use crate::bit::{
    all_concrete, bit_accepts, cube_contains, differ_only_at, mergeable, merged, occurrences,
    pattern_matches, pattern_of, Bit,
};
use crate::lookup_table::{formula_table, lemma_row_index, lemma_row_of_index, row_index};
use crate::pattern_cover::testless;

verus! {

/// The operators have their definite neutral and deciding bits, and of two unknown bits the test
/// bit stays.
pub proof fn lemma_operators_decide(b: Bit)
    ensures
        Bit::Low.negated() == Bit::High,
        Bit::High.negated() == Bit::Low,
        !b.concrete() ==> b.negated() == b,
        Bit::Low.conjoined(b) == Bit::Low,
        Bit::High.conjoined(b) == b,
        b.conjoined(b) == b,
        Bit::Var.conjoined(Bit::Test) == Bit::Test,
        Bit::High.disjoined(b) == Bit::High,
        Bit::Low.disjoined(b) == b,
        b.disjoined(b) == b,
        Bit::Var.disjoined(Bit::Test) == Bit::Test,
        Bit::Low.exclusive(b) == b,
        Bit::High.exclusive(b) == b.negated(),
        b.concrete() ==> b.exclusive(b) == Bit::Low,
        !b.concrete() ==> b.exclusive(b) == b,
        Bit::Var.exclusive(Bit::Test) == Bit::Test,
{
}

/// A pattern has a bit for each character: zeros and ones for their digits, else a variable bit.
pub proof fn lemma_pattern_read(text: Seq<char>)
    ensures
        pattern_of(text).len() == text.len(),
        forall|i: int|
            0 <= i < text.len() ==> match #[trigger] pattern_of(text)[i] {
                Bit::Low => text[i] == '0',
                Bit::High => text[i] == '1',
                Bit::Var => text[i] != '0' && text[i] != '1',
                Bit::Test => false,
            },
{
}

/// The places at which a bit stands.
pub open spec fn places_of(bits: Seq<Bit>, bit: Bit) -> Set<int> {
    Set::new(|i: int| 0 <= i < bits.len() && bits[i] == bit)
}

/// A bit occurs as often as there are places where it stands.
pub proof fn lemma_occurrences_counted(bits: Seq<Bit>, bit: Bit)
    ensures
        places_of(bits, bit).finite(),
        occurrences(bits, bit) == places_of(bits, bit).len(),
    decreases bits.len(),
{
    let all = places_of(bits, bit);
    if bits.len() == 0 {
        assert(all =~= Set::empty());
    } else {
        let front = bits.drop_last();
        let last = bits.len() - 1;
        lemma_occurrences_counted(front, bit);
        if bits.last() == bit {
            assert(all =~= places_of(front, bit).insert(last));
        } else {
            assert(all =~= places_of(front, bit));
        }
    }
}

/// A row of definite bits that the pattern accepts, with a chosen bit at a place.
spec fn point_with(pattern: Seq<Bit>, at: int, bit: Bit) -> Seq<Bit> {
    Seq::new(
        pattern.len(),
        |i: int|
            if pattern[i].concrete() {
                pattern[i]
            } else if i == at {
                bit
            } else {
                Bit::Low
            },
    )
}

/// A pattern covers another one exactly when it accepts all definite rows that the other accepts.
pub proof fn lemma_covers(a: Seq<Bit>, b: Seq<Bit>)
    requires
        a.len() == b.len(),
        testless(a),
        testless(b),
    ensures
        cube_contains(a, b) <==> forall|point: Seq<Bit>|
            all_concrete(point) && #[trigger] pattern_matches(b, point) ==> pattern_matches(
                a,
                point,
            ),
{
    if cube_contains(a, b) {
        assert forall|point: Seq<Bit>|
            all_concrete(point) && #[trigger] pattern_matches(b, point) implies pattern_matches(
            a,
            point,
        ) by {
            assert forall|i: int| 0 <= i < point.len() implies bit_accepts(
                #[trigger] a[i],
                point[i],
            ) by {
                assert(bit_accepts(b[i], point[i]));
            }
        }
    } else {
        let at = choose|i: int|
            0 <= i < a.len() && i < b.len() && !(#[trigger] a[i] == Bit::Var || a[i] == b[i]);
        let point = point_with(b, at, a[at].negated());
        assert(a[at] != Bit::Test);
        assert(all_concrete(point)) by {
            assert forall|i: int| 0 <= i < point.len() implies (#[trigger] point[i]).concrete() by {
                assert(b[i] != Bit::Test);
            }
        }
        assert(pattern_matches(b, point));
        assert(!bit_accepts(a[at], point[at]));
        assert(!pattern_matches(a, point));
    }
}

/// Two patterns merge exactly when one place has a zero in one and a one in the other, and all
/// other places are alike; that place becomes variable.
pub proof fn lemma_merge(a: Seq<Bit>, b: Seq<Bit>)
    ensures
        mergeable(a, b) <==> a.len() == b.len() && exists|at: int|
            0 <= at < a.len() && (#[trigger] a[at] == Bit::High && b[at] == Bit::Low || a[at]
                == Bit::Low && b[at] == Bit::High) && a.update(at, Bit::Var) == b.update(
                at,
                Bit::Var,
            ),
        forall|at: int|
            0 <= at < a.len() && mergeable(a, b) && #[trigger] a[at] != b[at] ==> merged(a, b)
                == a.update(at, Bit::Var),
{
    if mergeable(a, b) {
        let at = choose|at: int| differ_only_at(a, b, at);
        assert(a.update(at, Bit::Var) =~= b.update(at, Bit::Var));
        assert(a[at] == Bit::High && b[at] == Bit::Low || a[at] == Bit::Low && b[at] == Bit::High);
        assert(merged(a, b) =~= a.update(at, Bit::Var));
    }
    if a.len() == b.len() && exists|at: int|
        0 <= at < a.len() && (#[trigger] a[at] == Bit::High && b[at] == Bit::Low || a[at]
            == Bit::Low && b[at] == Bit::High) && a.update(at, Bit::Var) == b.update(at, Bit::Var) {
        let at = choose|at: int|
            0 <= at < a.len() && (#[trigger] a[at] == Bit::High && b[at] == Bit::Low || a[at]
                == Bit::Low && b[at] == Bit::High) && a.update(at, Bit::Var) == b.update(
                at,
                Bit::Var,
            );
        assert forall|i: int| 0 <= i < a.len() && i != at implies #[trigger] a[i] == b[i] by {
            assert(a.update(at, Bit::Var)[i] == b.update(at, Bit::Var)[i]);
        }
        assert(differ_only_at(a, b, at));
    }
}

/// The place of operands in a table has two binary digits for each operand, the first one lowest:
/// zero for a zero, one for a one, two for a variable bit and three for a test bit.
pub proof fn lemma_table_place(operands: Seq<Bit>, i: int)
    requires
        0 <= i < operands.len(),
    ensures
        0 <= row_index(operands) < pow(4, operands.len()),
        row_index(operands) / pow(4, i as nat) % 4 == match operands[i] {
            Bit::Low => 0int,
            Bit::High => 1,
            Bit::Var => 2,
            Bit::Test => 3,
        },
    decreases i,
{
    lemma_row_index(operands);
    let rest = operands.skip(1);
    let index = row_index(operands);
    reveal(pow);
    lemma_pow_positive(4, i as nat);
    if i > 0 {
        lemma_table_place(rest, i - 1);
        let p = pow(4, (i - 1) as nat);
        lemma_pow_positive(4, (i - 1) as nat);
        assert(pow(4, i as nat) == 4 * p);
        assert(index / 4 == row_index(rest));
        vstd::arithmetic::div_mod::lemma_div_denominator(index, 4, p);
        assert(rest[i - 1] == operands[i]);
    } else {
        assert(pow(4, 0) == 1);
        assert(index / 1 == index);
    }
}

/// The table of a formula gives at the place of operands what the formula makes of them.
pub proof fn lemma_table_value(formula: Seq<char>, names: Seq<Seq<char>>, operands: Seq<Bit>)
    requires
        operands.len() == names.len(),
    ensures
        formula_table(formula, names).len() == pow(4, names.len()),
        formula_table(formula, names)[row_index(operands)] == crate::lookup_table::formula_value(
            formula,
            names,
            operands,
        )->0,
{
    lemma_row_index(operands);
    lemma_row_of_index(operands);
}

} // verus!
