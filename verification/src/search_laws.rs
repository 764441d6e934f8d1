//! What the steps of a search do to candidates.
use vstd::prelude::*;

use crate::bit::{all_concrete, occurrences, pattern_matches, sharp, Bit};
use crate::crossover::{children, exchanged, field_picks, instruction_names, lemma_exchanged};
use crate::drawn_patterns::{any_bit, constant_bit, truth_bit};
use crate::isa_candidate::{max_candidate, CandidateV};
use crate::isa_optimization::RulesV;
use crate::isa_specification::{FieldV, InstructionV};
use crate::mutation::{point_of, turned_bit, without_point};
use crate::pattern_cover::{all_testless, covered, lemma_sharp_points, testless};
use crate::protected_features::{
    forms_keep_field, keeps_field, names_field, restored, selectable, selects_register,
    unrestricted_names,
};

verus! {

/// A field of a form of an instruction stands at the place.
pub open spec fn has_place(instructions: Seq<InstructionV>, i: int, j: int, k: int) -> bool {
    &&& 0 <= i < instructions.len()
    &&& 0 <= j < instructions[i].forms.len()
    &&& 0 <= k < instructions[i].forms[j].fields.len()
}

/// The field at a place.
pub open spec fn field_at(instructions: Seq<InstructionV>, i: int, j: int, k: int) -> FieldV {
    instructions[i].forms[j].fields[k]
}

/// The form at a place is listed.
pub open spec fn form_listed(
    instructions: Seq<InstructionV>,
    i: int,
    j: int,
    listed: Map<Seq<char>, Set<Seq<char>>>,
) -> bool {
    &&& listed.contains_key(instructions[i].name)
    &&& listed[instructions[i].name].contains(instructions[i].forms[j].name)
}

/// A form that must keep all encodings has a field of the name.
pub open spec fn in_unrestricted(rules: RulesV, name: Seq<char>) -> bool {
    exists|i: int, j: int, k: int| #[trigger]
        has_place(rules.instructions, i, j, k) && field_at(rules.instructions, i, j, k).name == Some(
            name,
        ) && form_listed(rules.instructions, i, j, rules.unrestricted)
}

/// A field of the name selects a register.
pub open spec fn in_register(rules: RulesV, name: Seq<char>) -> bool {
    exists|i: int, j: int, k: int| #[trigger]
        has_place(rules.instructions, i, j, k) && field_at(rules.instructions, i, j, k).name == Some(
            name,
        ) && (field_at(rules.instructions, i, j, k).is_register_read || field_at(
            rules.instructions,
            i,
            j,
            k,
        ).is_register_write)
}

proof fn lemma_unrestricted(rules: RulesV, name: Seq<char>)
    ensures
        unrestricted_names(rules).contains(name) == in_unrestricted(rules, name),
{
    let all = rules.instructions;
    if unrestricted_names(rules).contains(name) {
        let i = choose|i: int|
            0 <= i < all.len() && #[trigger] forms_keep_field(
                rules,
                all[i],
                all[i].forms.len() as int,
                name,
            );
        let j = choose|j: int|
            0 <= j < all[i].forms.len() && #[trigger] keeps_field(rules, all[i], j, name);
        let fields = all[i].forms[j].fields;
        let k = choose|k: int| 0 <= k < fields.len() && (#[trigger] fields[k]).name == Some(name);
        assert(has_place(all, i, j, k));
    }
    if in_unrestricted(rules, name) {
        let (i, j, k) = choose|i: int, j: int, k: int| #[trigger]
            has_place(all, i, j, k) && field_at(all, i, j, k).name == Some(name) && form_listed(
                all,
                i,
                j,
                rules.unrestricted,
            );
        assert(all[i].forms[j].fields[k].name == Some(name));
        assert(names_field(all[i].forms[j].fields, name));
        assert(keeps_field(rules, all[i], j, name));
        assert(forms_keep_field(rules, all[i], all[i].forms.len() as int, name));
    }
}

/// The search may restrict exactly the fields that select no register and that no unrestricted form
/// has.
pub proof fn lemma_selectable(rules: RulesV, name: Seq<char>)
    ensures
        selectable(rules, name) == (!in_register(rules, name) && !in_unrestricted(rules, name)),
{
    let all = rules.instructions;
    lemma_unrestricted(rules, name);
    if crate::protected_features::register_operand(all, name) {
        let i = choose|i: int|
            0 <= i < all.len() && crate::protected_features::form_selects_register(
                (#[trigger] all[i]).forms,
                name,
            );
        let forms = all[i].forms;
        let j = choose|j: int|
            0 <= j < forms.len() && selects_register((#[trigger] forms[j]).fields, name);
        let fields = forms[j].fields;
        let k = choose|k: int|
            0 <= k < fields.len() && (#[trigger] fields[k]).name == Some(name) && (
            fields[k].is_register_read || fields[k].is_register_write);
        assert(has_place(all, i, j, k));
        assert(in_register(rules, name));
    }
    if in_register(rules, name) {
        let (i, j, k) = choose|i: int, j: int, k: int| #[trigger]
            has_place(all, i, j, k) && field_at(all, i, j, k).name == Some(name) && (field_at(
                all,
                i,
                j,
                k,
            ).is_register_read || field_at(all, i, j, k).is_register_write);
        assert(all[i].forms[j].fields[k].name == Some(name));
        assert(selects_register(all[i].forms[j].fields, name));
        assert(crate::protected_features::form_selects_register(all[i].forms, name));
    }
}

/// Restoring gives the fields of unrestricted forms all their values and leaves the uses of other
/// fields; it adds the unrestricted forms and leaves the others.
pub proof fn lemma_restored(rules: RulesV, candidate: CandidateV, name: Seq<char>, form: Seq<char>)
    ensures
        ({
            let after = restored(rules, candidate);
            let full = max_candidate(rules.instructions).valid_field_uses;
            &&& in_unrestricted(rules, name) && full.contains_key(name) ==> {
                &&& after.valid_field_uses.contains_key(name)
                &&& after.valid_field_uses[name] == full[name]
            }
            &&& !in_unrestricted(rules, name) ==> {
                &&& after.valid_field_uses.contains_key(name)
                    == candidate.valid_field_uses.contains_key(name)
                &&& candidate.valid_field_uses.contains_key(name)
                    ==> after.valid_field_uses[name] == candidate.valid_field_uses[name]
            }
            &&& (after.active_forms.contains_key(name) && after.active_forms[name].contains(form))
                <==> (candidate.active_forms.contains_key(name)
                && candidate.active_forms[name].contains(form)) || (
            rules.unrestricted.contains_key(name) && rules.unrestricted[name].contains(form))
        }),
{
    lemma_unrestricted(rules, name);
}

/// A picked name of a row without repetitions has the values of the two maps exchanged, another one
/// has them in place.
proof fn lemma_exchange<A>(
    first: Map<Seq<char>, A>,
    second: Map<Seq<char>, A>,
    names: Seq<Seq<char>>,
    picks: Seq<bool>,
    n: nat,
    k: int,
)
    requires
        n <= names.len(),
        names.no_duplicates(),
        0 <= k < names.len(),
    ensures
        ({
            let (a, b) = exchanged(first, second, names, picks, n);
            if k < n && picks[k] {
                a[names[k]] == second[names[k]] && b[names[k]] == first[names[k]]
            } else {
                a[names[k]] == first[names[k]] && b[names[k]] == second[names[k]]
            }
        }),
    decreases n,
{
    if n > 0 {
        lemma_exchange(first, second, names, picks, (n - 1) as nat, k);
        if k != n - 1 {
            assert(names[k] != names[n - 1]);
        }
    }
}

/// Crossover gives a child the uses of the other parent for the drawn fields that the search may
/// restrict, and its own parent's uses for the others.
pub proof fn lemma_fields_cross(
    rules: RulesV,
    parent1: CandidateV,
    parent2: CandidateV,
    names: Seq<Seq<char>>,
    drawn_fields: Seq<bool>,
    drawn_forms: Seq<bool>,
    k: int,
)
    requires
        names.no_duplicates(),
        0 <= k < names.len(),
        drawn_fields.len() == names.len(),
        parent1.valid_field_uses.dom() == parent2.valid_field_uses.dom(),
        forall|l: int|
            0 <= l < names.len() ==> parent1.valid_field_uses.contains_key(#[trigger] names[l]),
        !in_unrestricted(rules, names[k]),
    ensures
        ({
            let (child1, child2) = children(
                rules,
                parent1,
                parent2,
                names,
                drawn_fields,
                drawn_forms,
            );
            let name = names[k];
            &&& child1.valid_field_uses.contains_key(name)
            &&& child2.valid_field_uses.contains_key(name)
            &&& if drawn_fields[k] && !in_register(rules, name) {
                &&& child1.valid_field_uses[name] == parent2.valid_field_uses[name]
                &&& child2.valid_field_uses[name] == parent1.valid_field_uses[name]
            } else {
                &&& child1.valid_field_uses[name] == parent1.valid_field_uses[name]
                &&& child2.valid_field_uses[name] == parent2.valid_field_uses[name]
            }
        }),
{
    let picks = field_picks(rules, names, drawn_fields);
    let name = names[k];
    assert forall|l: int| 0 <= l < names.len() && picks[l] implies
        parent1.valid_field_uses.contains_key(#[trigger] names[l])
        && parent2.valid_field_uses.contains_key(names[l]) by {
        assert(parent1.valid_field_uses.dom().contains(names[l]));
    }
    lemma_exchanged(
        parent1.valid_field_uses,
        parent2.valid_field_uses,
        names,
        picks,
        names.len(),
    );
    lemma_exchange(
        parent1.valid_field_uses,
        parent2.valid_field_uses,
        names,
        picks,
        names.len(),
        k,
    );
    lemma_selectable(rules, name);
    lemma_unrestricted(rules, name);
    assert(parent1.valid_field_uses.dom().contains(name));
    let fields = exchanged(
        parent1.valid_field_uses,
        parent2.valid_field_uses,
        names,
        picks,
        names.len(),
    );
    assert(fields.0.dom().contains(name) && fields.1.dom().contains(name));
}

/// Crossover gives a child the forms of the other parent for the drawn instructions, and its own
/// parent's forms for the others, with the unrestricted ones added.
pub proof fn lemma_forms_cross(
    rules: RulesV,
    parent1: CandidateV,
    parent2: CandidateV,
    names: Seq<Seq<char>>,
    drawn_fields: Seq<bool>,
    drawn_forms: Seq<bool>,
    i: int,
    form: Seq<char>,
)
    requires
        instruction_names(rules.instructions).no_duplicates(),
        0 <= i < rules.instructions.len(),
        forall|l: int|
            0 <= l < rules.instructions.len() ==> parent1.active_forms.contains_key(
                (#[trigger] rules.instructions[l]).name,
            ) && parent2.active_forms.contains_key(rules.instructions[l].name),
    ensures
        ({
            let (child1, child2) = children(
                rules,
                parent1,
                parent2,
                names,
                drawn_fields,
                drawn_forms,
            );
            let name = rules.instructions[i].name;
            let (from1, from2) = if drawn_forms[i] {
                (parent2, parent1)
            } else {
                (parent1, parent2)
            };
            let always = rules.unrestricted.contains_key(name)
                && rules.unrestricted[name].contains(form);
            &&& child1.active_forms.contains_key(name)
            &&& child2.active_forms.contains_key(name)
            &&& child1.active_forms[name].contains(form) == (from1.active_forms[name].contains(form)
                || always)
            &&& child2.active_forms[name].contains(form) == (from2.active_forms[name].contains(form)
                || always)
        }),
{
    let all = instruction_names(rules.instructions);
    let n = rules.instructions.len();
    assert forall|l: int| 0 <= l < n && drawn_forms[l] implies parent1.active_forms.contains_key(
        #[trigger] all[l],
    ) && parent2.active_forms.contains_key(all[l]) by {
        assert(all[l] == rules.instructions[l].name);
    }
    assert(all[i] == rules.instructions[i].name);
    lemma_exchanged(parent1.active_forms, parent2.active_forms, all, drawn_forms, n);
    lemma_exchange(parent1.active_forms, parent2.active_forms, all, drawn_forms, n, i);
    let forms = exchanged(parent1.active_forms, parent2.active_forms, all, drawn_forms, n);
    assert(parent1.active_forms.dom().contains(all[i]));
    assert(parent2.active_forms.dom().contains(all[i]));
    assert(forms.0.dom().contains(all[i]) && forms.1.dom().contains(all[i]));
}

/// A constant bit never stays as it is: it becomes variable or flips; another bit becomes the
/// constant that was drawn.
pub proof fn lemma_bit_turns(bit: Bit, const_to_var: bool, drawn: bool)
    ensures
        bit == Bit::Low || bit == Bit::High ==> {
            &&& turned_bit(bit, const_to_var, drawn) != bit
            &&& (turned_bit(bit, const_to_var, drawn) == Bit::Var) == const_to_var
            &&& turned_bit(bit, const_to_var, drawn) != Bit::Test
        },
        bit == Bit::Var || bit == Bit::Test ==> {
            &&& (turned_bit(bit, const_to_var, drawn) == Bit::High) == drawn
            &&& (turned_bit(bit, const_to_var, drawn) == Bit::Low) == !drawn
        },
{
}

/// Drawn numbers and truth values stand for bits.
pub proof fn lemma_bits_drawn(number: i32, truth: bool)
    ensures
        (constant_bit(number) == Bit::Low) == (number == 0),
        (constant_bit(number) == Bit::High) == (number != 0),
        (any_bit(number) == Bit::Low) == (number == 0),
        (any_bit(number) == Bit::High) == (number == 1),
        (any_bit(number) == Bit::Var) == (number != 0 && number != 1),
        (truth_bit(truth) == Bit::High) == truth,
        (truth_bit(truth) == Bit::Low) == !truth,
{
}

/// Taking a point out of a pattern of a set takes that point out, unless another pattern has it, and
/// no other point.
pub proof fn lemma_point_taken(
    patterns: Set<Seq<Bit>>,
    pattern: Seq<Bit>,
    point: Seq<Bit>,
    bits: Seq<Bit>,
)
    requires
        patterns.contains(pattern),
        all_testless(patterns),
        point_of(pattern, point),
        all_concrete(bits),
    ensures
        covered(without_point(patterns, pattern, point), bits) == (covered(
            patterns.remove(pattern),
            bits,
        ) || (pattern_matches(pattern, bits) && bits != point)),
{
    let after = without_point(patterns, pattern, point);
    let others = patterns.remove(pattern);
    assert(testless(pattern));
    assert forall|i: int| 0 <= i < point.len() implies (#[trigger] point[i]).concrete() by {
        assert(pattern[i] != Bit::Test);
    }
    if pattern_matches(pattern, bits) {
        lemma_same_point(point, bits);
    }
    if occurrences(pattern, Bit::Var) == 0 {
        lemma_no_occurrence(pattern);
        assert(pattern =~= point) by {
            assert forall|i: int| 0 <= i < pattern.len() implies pattern[i] == point[i] by {
                assert(pattern[i] != Bit::Var);
                assert(point[i] == point[i]);
            }
        }
    } else {
        let pieces = sharp(pattern, point);
        assert(testless(point)) by {
            assert forall|i: int| 0 <= i < point.len() implies #[trigger] point[i] != Bit::Test by {
                assert(point[i].concrete());
            }
        }
        if bits.len() == pattern.len() {
            lemma_sharp_points(pattern, point, bits);
            lemma_same_point(point, bits);
        } else {
            assert(!covered(pieces, bits)) by {
                if covered(pieces, bits) {
                    let p = choose|p: Seq<Bit>| #[trigger]
                        pieces.contains(p) && pattern_matches(p, bits);
                    lemma_piece_len(pattern, point, p);
                }
            }
        }
        if covered(after, bits) {
            let p = choose|p: Seq<Bit>| #[trigger] after.contains(p) && pattern_matches(p, bits);
            assert(others.contains(p) || pieces.contains(p));
        }
        if covered(others, bits) {
            let p = choose|p: Seq<Bit>| #[trigger] others.contains(p) && pattern_matches(p, bits);
            assert(after.contains(p));
        }
        if covered(pieces, bits) {
            let p = choose|p: Seq<Bit>| #[trigger] pieces.contains(p) && pattern_matches(p, bits);
            assert(after.contains(p));
        }
    }
}

pub(crate) proof fn lemma_piece_len(a: Seq<Bit>, b: Seq<Bit>, p: Seq<Bit>)
    requires
        sharp(a, b).contains(p),
        a.len() == b.len(),
    ensures
        p.len() == a.len(),
{
}

proof fn lemma_no_occurrence(pattern: Seq<Bit>)
    requires
        occurrences(pattern, Bit::Var) == 0,
    ensures
        forall|i: int| 0 <= i < pattern.len() ==> #[trigger] pattern[i] != Bit::Var,
    decreases pattern.len(),
{
    if pattern.len() > 0 {
        lemma_no_occurrence(pattern.drop_last());
        assert forall|i: int| 0 <= i < pattern.len() implies #[trigger] pattern[i] != Bit::Var by {
            if i < pattern.len() - 1 {
                assert(pattern.drop_last()[i] == pattern[i]);
            }
        }
    }
}

proof fn lemma_same_point(point: Seq<Bit>, bits: Seq<Bit>)
    requires
        all_concrete(point),
        bits.len() == point.len(),
    ensures
        pattern_matches(point, bits) == (bits == point),
{
    if pattern_matches(point, bits) {
        assert forall|i: int| 0 <= i < bits.len() implies bits[i] == point[i] by {
            assert(point[i].concrete());
            assert(crate::bit::bit_accepts(point[i], bits[i]));
        }
        assert(bits =~= point);
    }
}

} // verus!
