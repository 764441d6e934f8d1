//! After repair, mandatory forms have encodings.
use vstd::prelude::*;

use crate::bit::{all_concrete, bit_accepts, pattern_matches, Bit};
use crate::decode::field_slice;
use crate::encoding_laws::{
    found_in, lemma_allowed_part, lemma_encodes_complete, lemma_encodes_sound, lemma_forms_found,
    lemma_part, meets, narrowable, part_allowed, uses_cover,
};
use crate::encodings::{encodings_of, field_patterns, predicate_name};
use crate::field_uses::{all_of_len, FieldUsesV};
use crate::form_fit::{fits, lemma_fits_encodable, plain_constants, uses_fit};
use crate::form_repair::{
    allows_more, choices_from, fits_kept, form_named, form_repaired, form_to_repair, grown,
    has_encoding, instruction_encoded, instruction_served, is_minimum, joined_uses, lemma_fits_kept,
    lemma_form_named, lemma_form_repaired, lemma_form_to_repair, lemma_instruction_served,
    lemma_joined_allows, lemma_mandatory_grown, lemma_name_served, lemma_names_served,
    lemma_repair_fits, lemma_repairable, lemma_repaired_uses, lists_once, mandatory_served,
    name_served, names_served, protected, repair_bits, repairable, repairable_form,
    repairable_instruction, repaired_uses, with_repair,
};
use crate::isa_candidate::{
    blended, form_active, program_candidate, uses_of_pattern, value_allowed, CandidateV,
    ISACandidateError,
};
use crate::isa_optimization::{
    candidate_encodings, forms_encodings, instruction_encodings, instructions_encodings, RulesV,
};
use crate::isa_specification::{fields_width, lemma_width_prefix, FieldV, FormV, InstructionV};
use crate::minimum_laws::lemma_opened_allows;
use crate::pattern_cover::{all_testless, testless};
use crate::protected_features::{opened_uses, restored_uses, selectable, unrestricted_names};

verus! {

/// The uses of a field have no `Test` bits.
pub open spec fn testless_uses(uses: FieldUsesV) -> bool {
    match uses {
        FieldUsesV::Uses { patterns, .. } => all_testless(patterns),
        FieldUsesV::VariableBits { pattern, .. } => pattern matches Some(p) ==> testless(p),
    }
}

/// No uses have `Test` bits.
pub open spec fn testless_map(uses: Map<Seq<char>, FieldUsesV>) -> bool {
    forall|name: Seq<char>| #[trigger] uses.contains_key(name) ==> testless_uses(uses[name])
}

/// The constants and the condition of the form have no `Test` bits, and its condition speaks of
/// definite bits.
pub open spec fn testless_form(form: FormV) -> bool {
    &&& narrowable(form.when)
    &&& forall|k: int|
        0 <= k < form.fields.len() && (#[trigger] form.fields[k]).name is None ==> testless(
            form.fields[k].bits,
        )
}

/// The forms of instructions with mandatory forms have no `Test` bits.
pub open spec fn testless_rules(rules: RulesV) -> bool {
    &&& testless_map(rules.max_uses())
    &&& forall|i: int, j: int|
        #![trigger rules.instructions[i].forms[j]]
        0 <= i < rules.instructions.len() && rules.mandatory.contains_key(
            rules.instructions[i].name,
        ) && 0 <= j < rules.instructions[i].forms.len() ==> testless_form(
            rules.instructions[i].forms[j],
        )
}

/// The forms of the instruction have no `Test` bits.
spec fn testless_instruction(instruction: InstructionV) -> bool {
    forall|j: int|
        0 <= j < instruction.forms.len() ==> testless_form(#[trigger] instruction.forms[j])
}

/// Uses that fit a form give its fields patterns.
proof fn lemma_cover(form: FormV, uses: Map<Seq<char>, FieldUsesV>)
    requires
        fits(form, uses),
        plain_constants(form),
        testless_map(uses),
        testless_form(form),
    ensures
        uses_cover(form.fields, uses),
{
    assert forall|i: int| 0 <= i < form.fields.len() implies {
        let patterns = field_patterns(#[trigger] form.fields[i], uses);
        &&& patterns is Some
        &&& all_of_len(patterns->0, form.fields[i].bits.len())
        &&& all_testless(patterns->0)
    } by {
        let field = form.fields[i];
        match field.name {
            None => {
                assert(field_patterns(field, Map::empty()) is Some);
                assert(testless(field.bits));
            },
            Some(name) => {
                if uses.contains_key(name) {
                    assert(uses_fit(uses[name], field));
                    assert(testless_uses(uses[name]));
                }
            },
        }
    }
}

/// The pattern with every open bit taken as zero.
spec fn point_of(pattern: Seq<Bit>) -> Seq<Bit> {
    Seq::new(
        pattern.len(),
        |i: int|
            if pattern[i].concrete() {
                pattern[i]
            } else {
                Bit::Low
            },
    )
}

/// An encoding accepts a point, all of whose parts the fields may hold.
proof fn lemma_point(form: FormV, uses: Map<Seq<char>, FieldUsesV>, encoding: Seq<Bit>)
    requires
        fits(form, uses),
        plain_constants(form),
        fields_width(form.fields) <= usize::MAX,
        testless_map(uses),
        testless_form(form),
        encodings_of(form, uses).contains(encoding),
    ensures
        point_of(encoding).len() == fields_width(form.fields),
        all_concrete(point_of(encoding)),
        forall|k: int|
            0 <= k < form.fields.len() ==> #[trigger] part_allowed(
                form,
                uses,
                point_of(encoding),
                k,
            ),
{
    let point = point_of(encoding);
    lemma_cover(form, uses);
    lemma_fits_encodable(form, uses);
    assert(encoding.len() == fields_width(form.fields));
    assert forall|i: int| 0 <= i < point.len() implies (#[trigger] point[i]).concrete() by {}
    assert forall|i: int| 0 <= i < point.len() implies bit_accepts(
        #[trigger] encoding[i],
        point[i],
    ) by {}
    assert(pattern_matches(encoding, point));
    let empty = Seq::<Bit>::empty();
    assert(form.fields.take(0) =~= Seq::empty());
    assert(seq![] =~= empty);
    lemma_encodes_sound(form, uses, point, 0, empty, encoding);
}

/// Where fields may hold all parts of some bits, there is an encoding.
proof fn lemma_some_encoding(form: FormV, uses: Map<Seq<char>, FieldUsesV>, bits: Seq<Bit>)
    requires
        fits(form, uses),
        plain_constants(form),
        testless_map(uses),
        testless_form(form),
        bits.len() == fields_width(form.fields),
        all_concrete(bits),
        forall|k: int|
            0 <= k < form.fields.len() ==> #[trigger] part_allowed(form, uses, bits, k),
    ensures
        encodings_of(form, uses) != Set::<Seq<Bit>>::empty(),
{
    lemma_cover(form, uses);
    let empty = Seq::<Bit>::empty();
    assert(form.fields.take(0) =~= Seq::empty());
    assert(seq![] =~= empty);
    assert(bits.take(0) =~= empty);
    let e = lemma_encodes_complete(form, uses, bits, 0, empty);
    assert(encodings_of(form, uses).contains(e));
}

/// A set that is not empty has a member.
proof fn lemma_member_of(encodings: Set<Seq<Bit>>) -> (e: Seq<Bit>)
    requires
        encodings != Set::<Seq<Bit>>::empty(),
    ensures
        encodings.contains(e),
{
    if forall|e: Seq<Bit>| !(#[trigger] encodings.contains(e)) {
        assert(encodings =~= Set::empty());
    }
    choose|e: Seq<Bit>| #[trigger] encodings.contains(e)
}

/// What has an encoding keeps one when the uses allow more.
proof fn lemma_encoding_stays(
    rules: RulesV,
    form: FormV,
    before: Map<Seq<char>, FieldUsesV>,
    after: Map<Seq<char>, FieldUsesV>,
)
    requires
        repairable_form(rules, form),
        testless_form(form),
        fits(form, before),
        fits(form, after),
        testless_map(before),
        testless_map(after),
        allows_more(before, after),
        encodings_of(form, before) != Set::<Seq<Bit>>::empty(),
    ensures
        encodings_of(form, after) != Set::<Seq<Bit>>::empty(),
{
    let e = lemma_member_of(encodings_of(form, before));
    let bits = point_of(e);
    lemma_point(form, before, e);
    lemma_cover(form, before);
    lemma_cover(form, after);
    assert forall|k: int| 0 <= k < form.fields.len() implies #[trigger] part_allowed(
        form,
        after,
        bits,
        k,
    ) by {
        let field = form.fields[k];
        let part = field_slice(form.fields, bits, k);
        assert(part_allowed(form, before, bits, k));
        lemma_part(form.fields, bits, k);
        assert(field_patterns(form.fields[k], before) is Some);
        assert(field_patterns(form.fields[k], after) is Some);
        if field.name is Some {
            lemma_allowed_part(field, before, part);
            lemma_allowed_part(field, after, part);
            assert(value_allowed(part, before[field.name->0]));
        }
    }
    lemma_some_encoding(form, after, bits);
}

/// The value that an encoding of the unreduced instruction set has in a field is definite, and
/// the form's condition is met by it.
proof fn lemma_repair_value(rules: RulesV, form: FormV, encoding: Seq<Bit>, k: int)
    requires
        repairable_form(rules, form),
        testless_form(form),
        testless_map(rules.max_uses()),
        encodings_of(form, rules.max_uses()).contains(encoding),
        0 <= k < form.fields.len(),
    ensures
        ({
            let value = repair_bits(form, k, encoding);
            &&& value.len() == form.fields[k].bits.len()
            &&& all_concrete(value)
            &&& testless(value)
            &&& meets(
                form.when,
                value,
                fields_width(form.fields.take(k)) as int,
                predicate_name(form.fields[k]),
            )
            &&& form.fields[k].name is None ==> pattern_matches(form.fields[k].bits, value)
        }),
{
    let uses = rules.max_uses();
    let value = repair_bits(form, k, encoding);
    let point = point_of(encoding);
    lemma_point(form, uses, encoding);
    lemma_part(form.fields, point, k);
    assert(testless(encoding));
    let start = fields_width(form.fields.take(k)) as int;
    let part = field_slice(form.fields, point, k);
    assert(value =~= part) by {
        assert forall|i: int| 0 <= i < part.len() implies value[i] == part[i] by {
            assert(part[i] == point[start + i]);
            assert(encoding[start + i] != Bit::Test);
        }
    }
    assert forall|i: int| 0 <= i < value.len() implies #[trigger] value[i] != Bit::Test by {
        assert(value[i].concrete());
    }
    assert(part_allowed(form, uses, point, k));
    if form.fields[k].name is None {
        let patterns = field_patterns(form.fields[k], uses)->0;
        assert(field_patterns(form.fields[k], Map::empty()) is Some);
        let p = choose|p: Seq<Bit>| #[trigger] patterns.contains(p) && pattern_matches(p, part);
        assert(p == form.fields[k].bits);
    }
}

/// One more allowed value without `Test` bits brings none in, and is allowed.
proof fn lemma_with_repair(
    uses: Map<Seq<char>, FieldUsesV>,
    field: FieldV,
    value: Seq<Bit>,
)
    requires
        testless_map(uses),
        testless(value),
        value.len() == field.bits.len(),
        all_concrete(value),
        field.name is Some && uses.contains_key(field.name->0) ==> joined_uses(
            uses[field.name->0],
            uses_of_pattern(field.name->0, value, field.merge_mode, true),
        ) is Some && uses_fit(uses[field.name->0], field),
    ensures
        testless_map(with_repair(uses, field, value)),
        field.name is Some ==> with_repair(uses, field, value).contains_key(field.name->0)
            && value_allowed(value, with_repair(uses, field, value)[field.name->0]),
{
    if let Some(name) = field.name {
        let repair = uses_of_pattern(name, value, field.merge_mode, true);
        let after = with_repair(uses, field, value);
        assert(!crate::isa_candidate::has_variable(value)) by {
            assert forall|i: int| 0 <= i < value.len() implies #[trigger] value[i]
                != Bit::Var by {
                assert(value[i].concrete());
            }
        }
        assert(testless_uses(after[name]) && value_allowed(value, after[name])) by {
            assert(pattern_matches(value, value));
            if uses.contains_key(name) {
                assert(testless_uses(uses[name]));
                match uses[name] {
                    FieldUsesV::Uses { patterns, .. } => {
                        let more = patterns.union(set![value]);
                        assert(more.contains(value));
                    },
                    FieldUsesV::VariableBits { pattern, .. } => {
                        if let Some(old_bits) = pattern {
                            let mixed = blended(old_bits, value);
                            assert forall|i: int| 0 <= i < mixed.len() implies #[trigger] mixed[i]
                                != Bit::Test && bit_accepts(mixed[i], value[i]) by {
                                assert(old_bits[i] != Bit::Test);
                            }
                            assert(pattern_matches(mixed, value));
                        }
                    },
                }
            } else {
                assert(set![value].contains(value));
            }
        }
        assert forall|other: Seq<char>| #[trigger]
            after.contains_key(other) implies testless_uses(after[other]) by {
            if other != name {
                assert(uses.contains_key(other));
            }
        }
    }
}

/// The uses allow the value chosen for the field at `k`.
spec fn choice_allowed(
    uses: Map<Seq<char>, FieldUsesV>,
    form: FormV,
    choices: Seq<Seq<Bit>>,
    k: int,
) -> bool {
    form.fields[k].name matches Some(name) ==> uses.contains_key(name) && value_allowed(
        repair_bits(form, k, choices[k]),
        uses[name],
    )
}

/// Repaired uses have no `Test` bits and allow every chosen value.
proof fn lemma_chosen_allowed(
    rules: RulesV,
    form: FormV,
    uses: Map<Seq<char>, FieldUsesV>,
    choices: Seq<Seq<Bit>>,
)
    requires
        repairable_form(rules, form),
        testless_form(form),
        testless_map(rules.max_uses()),
        fits(form, uses),
        testless_map(uses),
        choices.len() <= form.fields.len(),
        forall|k: int|
            0 <= k < choices.len() ==> encodings_of(form, rules.max_uses()).contains(
                #[trigger] choices[k],
            ),
    ensures
        testless_map(repaired_uses(uses, form, choices)),
        forall|k: int|
            0 <= k < choices.len() ==> #[trigger] choice_allowed(
                repaired_uses(uses, form, choices),
                form,
                choices,
                k,
            ),
    decreases choices.len(),
{
    if choices.len() > 0 {
        let shorter = choices.drop_last();
        let last = choices.len() - 1;
        let field = form.fields[last];
        assert forall|j: int| 0 <= j < shorter.len() implies encodings_of(
            form,
            rules.max_uses(),
        ).contains(#[trigger] shorter[j]) by {
            assert(shorter[j] == choices[j]);
        }
        lemma_chosen_allowed(rules, form, uses, shorter);
        lemma_repaired_uses(rules, form, uses, shorter);
        let between = repaired_uses(uses, form, shorter);
        let after = repaired_uses(uses, form, choices);
        assert(fits(form, between));
        assert(encodings_of(form, rules.max_uses()).contains(choices[last]));
        let value = repair_bits(form, last, choices.last());
        lemma_repair_value(rules, form, choices[last], last);
        lemma_width_prefix(form.fields, last + 1);
        assert(form.fields.take(last + 1).drop_last() =~= form.fields.take(last));
        assert(form.fields.take(last + 1).last() == field);
        lemma_repair_fits(rules, form, last, value, between, form);
        if field.name is Some && between.contains_key(field.name->0) {
            assert(uses_fit(between[form.fields[last].name->0], form.fields[last]));
        }
        lemma_with_repair(between, field, value);
        assert forall|k: int| 0 <= k < choices.len() implies #[trigger] choice_allowed(
            after,
            form,
            choices,
            k,
        ) by {
            if k < last {
                assert(shorter[k] == choices[k]);
                assert(choice_allowed(between, form, shorter, k));
                if field.name is Some && field.name == form.fields[k].name {
                    let name = field.name->0;
                    lemma_joined_allows(
                        between[name],
                        uses_of_pattern(name, value, field.merge_mode, true),
                        repair_bits(form, k, choices[k]),
                    );
                }
            }
        }
    }
}

/// The first values, one after the other.
spec fn assembled(values: Seq<Seq<Bit>>, n: nat) -> Seq<Bit>
    decreases n,
{
    if n == 0 {
        seq![]
    } else {
        assembled(values, (n - 1) as nat) + values[n - 1]
    }
}

/// The bits hold the value of the field at `k` where the field stands.
spec fn in_place(bits: Seq<Bit>, form: FormV, values: Seq<Seq<Bit>>, k: int) -> bool {
    bits.subrange(
        fields_width(form.fields.take(k)) as int,
        fields_width(form.fields.take(k + 1)) as int,
    ) == values[k]
}

/// The value is definite, fits the field at `k`, and the form's condition is met by it.
spec fn value_meets(form: FormV, value: Seq<Bit>, k: int) -> bool {
    &&& value.len() == form.fields[k].bits.len()
    &&& all_concrete(value)
    &&& meets(
        form.when,
        value,
        fields_width(form.fields.take(k)) as int,
        predicate_name(form.fields[k]),
    )
    &&& form.fields[k].name is None ==> pattern_matches(form.fields[k].bits, value)
}

proof fn lemma_width_step(fields: Seq<FieldV>, k: int, n: int)
    requires
        0 <= k < n <= fields.len(),
    ensures
        fields_width(fields.take(k + 1)) == fields_width(fields.take(k)) + fields[k].bits.len(),
        fields_width(fields.take(k + 1)) <= fields_width(fields.take(n)),
{
    assert(fields.take(k + 1).drop_last() =~= fields.take(k));
    assert(fields.take(k + 1).last() == fields[k]);
    lemma_width_prefix(fields.take(n), k + 1);
    assert(fields.take(n).take(k + 1) =~= fields.take(k + 1));
}

/// The values stand where the fields stand.
proof fn lemma_assembled(form: FormV, values: Seq<Seq<Bit>>, n: nat)
    requires
        n <= form.fields.len(),
        forall|k: int| 0 <= k < n ==> #[trigger] value_meets(form, values[k], k),
    ensures
        assembled(values, n).len() == fields_width(form.fields.take(n as int)),
        all_concrete(assembled(values, n)),
        forall|k: int| 0 <= k < n ==> #[trigger] in_place(assembled(values, n), form, values, k),
    decreases n,
{
    if n == 0 {
        assert(form.fields.take(0) =~= Seq::empty());
    } else {
        let m = (n - 1) as nat;
        lemma_assembled(form, values, m);
        let before = assembled(values, m);
        let all = assembled(values, n);
        let value = values[m as int];
        assert(value_meets(form, values[m as int], m as int));
        lemma_width_step(form.fields, m as int, n as int);
        assert(all == before + value);
        assert forall|i: int| 0 <= i < all.len() implies (#[trigger] all[i]).concrete() by {
            if i < before.len() {
                assert(all[i] == before[i]);
            } else {
                assert(all[i] == value[i - before.len()]);
            }
        }
        assert forall|k: int| 0 <= k < n implies #[trigger] in_place(all, form, values, k) by {
            let (start, end) = (
                fields_width(form.fields.take(k)) as int,
                fields_width(form.fields.take(k + 1)) as int,
            );
            if k < m {
                assert(in_place(before, form, values, k));
                lemma_width_step(form.fields, k, m as int);
                assert(all.subrange(start, end) =~= before.subrange(start, end));
            } else {
                assert(all.subrange(start, end) =~= value);
            }
        }
    }
}

/// The field at `k` may hold its value, which meets the form's condition.
spec fn value_serves(
    form: FormV,
    uses: Map<Seq<char>, FieldUsesV>,
    values: Seq<Seq<Bit>>,
    k: int,
) -> bool {
    value_meets(form, values[k], k) && (form.fields[k].name matches Some(name)
        ==> uses.contains_key(name) && value_allowed(values[k], uses[name]))
}

/// A form has an encoding where each field may hold a value that meets the form's condition.
proof fn lemma_values_encoded(form: FormV, uses: Map<Seq<char>, FieldUsesV>, values: Seq<Seq<Bit>>)
    requires
        fits(form, uses),
        plain_constants(form),
        testless_map(uses),
        testless_form(form),
        forall|k: int|
            0 <= k < form.fields.len() ==> #[trigger] value_serves(form, uses, values, k),
    ensures
        encodings_of(form, uses) != Set::<Seq<Bit>>::empty(),
{
    let n = form.fields.len();
    let bits = assembled(values, n);
    assert forall|k: int| 0 <= k < n implies #[trigger] value_meets(form, values[k], k) by {
        assert(value_serves(form, uses, values, k));
    }
    lemma_assembled(form, values, n);
    assert(form.fields.take(n as int) =~= form.fields);
    lemma_cover(form, uses);
    assert forall|k: int| 0 <= k < n implies #[trigger] part_allowed(form, uses, bits, k) by {
        reveal(field_slice);
        let part = field_slice(form.fields, bits, k);
        assert(in_place(bits, form, values, k));
        assert(part == values[k]);
        assert(value_serves(form, uses, values, k));
        assert(field_patterns(form.fields[k], uses) is Some);
        if form.fields[k].name is Some {
            lemma_allowed_part(form.fields[k], uses, part);
        } else {
            assert(field_patterns(form.fields[k], uses)->0.contains(form.fields[k].bits));
        }
    }
    lemma_some_encoding(form, uses, bits);
}

/// A repaired form that has an encoding in the unreduced instruction set has one.
proof fn lemma_repaired_encoded(
    rules: RulesV,
    instruction: Seq<char>,
    form: FormV,
    before: CandidateV,
    after: CandidateV,
)
    requires
        repairable_form(rules, form),
        testless_form(form),
        testless_map(rules.max_uses()),
        fits(form, before.valid_field_uses),
        testless_map(before.valid_field_uses),
        form_repaired(rules, instruction, form, before, after),
    ensures
        testless_map(after.valid_field_uses),
        encodings_of(form, rules.max_uses()) != Set::<Seq<Bit>>::empty() ==> has_encoding(
            after,
            instruction,
            form,
        ),
{
    let full = encodings_of(form, rules.max_uses());
    lemma_form_repaired(rules, instruction, form, before, after);
    if full != Set::<Seq<Bit>>::empty() {
        let uses = before.valid_field_uses;
        let choices = choose|choices: Seq<Seq<Bit>>|
            choices_from(choices, form, full) && after.valid_field_uses
                == #[trigger] repaired_uses(uses, form, choices);
        let now = after.valid_field_uses;
        lemma_chosen_allowed(rules, form, uses, choices);
        lemma_repaired_uses(rules, form, uses, choices);
        assert(fits(form, now));
        let values = Seq::new(
            form.fields.len(),
            |k: int| repair_bits(form, k, choices[k]),
        );
        assert forall|k: int| 0 <= k < form.fields.len() implies #[trigger] value_serves(
            form,
            now,
            values,
            k,
        ) by {
            assert(full.contains(choices[k]));
            lemma_repair_value(rules, form, choices[k], k);
            assert(choice_allowed(now, form, choices, k));
        }
        lemma_values_encoded(form, now, values);
    }
}

/// The form has an encoding where the unreduced instruction set has one.
spec fn encoded_if_possible(
    rules: RulesV,
    candidate: CandidateV,
    instruction: InstructionV,
    j: int,
) -> bool {
    encodings_of(instruction.forms[j], rules.max_uses()) != Set::<Seq<Bit>>::empty()
        ==> has_encoding(candidate, instruction.name, instruction.forms[j])
}

/// What has an encoding keeps it in a candidate that has grown.
proof fn lemma_encoded_stays(
    rules: RulesV,
    instruction: InstructionV,
    j: int,
    before: CandidateV,
    after: CandidateV,
)
    requires
        repairable_instruction(rules, instruction, before.valid_field_uses),
        testless_instruction(instruction),
        0 <= j < instruction.forms.len(),
        testless_map(before.valid_field_uses),
        testless_map(after.valid_field_uses),
        grown(before, after),
        fits_kept(rules, before.valid_field_uses, after.valid_field_uses),
        has_encoding(before, instruction.name, instruction.forms[j]),
    ensures
        has_encoding(after, instruction.name, instruction.forms[j]),
{
    let form = instruction.forms[j];
    assert(repairable_form(rules, form) && fits(form, before.valid_field_uses));
    assert(fits(form, after.valid_field_uses));
    assert(testless_form(form));
    lemma_encoding_stays(rules, form, before.valid_field_uses, after.valid_field_uses);
}

proof fn lemma_name_encoded(
    rules: RulesV,
    instruction: InstructionV,
    name: Seq<char>,
    before: CandidateV,
    after: CandidateV,
)
    requires
        repairable_instruction(rules, instruction, before.valid_field_uses),
        testless_instruction(instruction),
        testless_map(rules.max_uses()),
        testless_map(before.valid_field_uses),
        name_served(rules, instruction, name, before, after),
    ensures
        testless_map(after.valid_field_uses),
        form_named(instruction.forms, name, 0) matches Some(j) ==> encoded_if_possible(
            rules,
            after,
            instruction,
            j,
        ),
{
    lemma_form_named(instruction.forms, name, 0);
    if let Some(j) = form_named(instruction.forms, name, 0) {
        let form = instruction.forms[j];
        assert(repairable_form(rules, form) && fits(form, before.valid_field_uses));
        assert(testless_form(form));
        if !has_encoding(before, instruction.name, form) {
            lemma_repaired_encoded(rules, instruction.name, form, before, after);
        }
    }
}

proof fn lemma_names_encoded(
    rules: RulesV,
    instruction: InstructionV,
    names: Seq<Seq<char>>,
    n: nat,
    before: CandidateV,
    after: CandidateV,
)
    requires
        repairable_instruction(rules, instruction, before.valid_field_uses),
        testless_instruction(instruction),
        testless_map(rules.max_uses()),
        testless_map(before.valid_field_uses),
        n <= names.len(),
        names_served(rules, instruction, names, n, before, after),
    ensures
        testless_map(after.valid_field_uses),
        forall|k: int|
            0 <= k < n ==> (form_named(instruction.forms, #[trigger] names[k], 0) matches Some(j)
                ==> encoded_if_possible(rules, after, instruction, j)),
    decreases n,
{
    if n > 0 {
        let between = choose|between: CandidateV|
            #[trigger] name_served(rules, instruction, names[n - 1], between, after)
                && names_served(rules, instruction, names, (n - 1) as nat, before, between);
        lemma_names_encoded(rules, instruction, names, (n - 1) as nat, before, between);
        lemma_names_served(rules, instruction, names, (n - 1) as nat, before, between);
        lemma_fits_kept(rules, before.valid_field_uses, between.valid_field_uses);
        lemma_name_served(rules, instruction, names[n - 1], between, after);
        lemma_name_encoded(rules, instruction, names[n - 1], between, after);
        assert forall|k: int| 0 <= k < n implies (form_named(
            instruction.forms,
            #[trigger] names[k],
            0,
        ) matches Some(j) ==> encoded_if_possible(rules, after, instruction, j)) by {
            if k < n - 1 {
                if let Some(j) = form_named(instruction.forms, names[k], 0) {
                    lemma_form_named(instruction.forms, names[k], 0);
                    assert(encoded_if_possible(rules, between, instruction, j));
                    if has_encoding(between, instruction.name, instruction.forms[j]) {
                        lemma_encoded_stays(rules, instruction, j, between, after);
                    }
                }
            }
        }
    }
}

/// What serving an instruction owes: every named form has an encoding if it can, or, with no form
/// named, some form has one if all of them can.
pub open spec fn mandatory_encoded(
    rules: RulesV,
    candidate: CandidateV,
    instruction: InstructionV,
) -> bool {
    rules.mandatory.contains_key(instruction.name) ==> {
        &&& forall|j: int|
            0 <= j < instruction.forms.len() && rules.mandatory[instruction.name].contains(
                (#[trigger] instruction.forms[j]).name,
            ) && form_named(instruction.forms, instruction.forms[j].name, 0) == Some(j)
                && encodings_of(instruction.forms[j], rules.max_uses())
                != Set::<Seq<Bit>>::empty() ==> has_encoding(
                candidate,
                instruction.name,
                instruction.forms[j],
            )
        &&& rules.mandatory[instruction.name] == Set::<Seq<char>>::empty()
            && instruction.forms.len() > 0 && (forall|j: int|
            0 <= j < instruction.forms.len() ==> encodings_of(
                #[trigger] instruction.forms[j],
                rules.max_uses(),
            ) != Set::<Seq<Bit>>::empty()) ==> instruction_encoded(candidate, instruction)
    }
}

proof fn lemma_instruction_encoded(
    rules: RulesV,
    instruction: InstructionV,
    before: CandidateV,
    after: CandidateV,
)
    requires
        rules.mandatory.contains_key(instruction.name) ==> repairable_instruction(
            rules,
            instruction,
            before.valid_field_uses,
        ) && testless_instruction(instruction),
        testless_map(rules.max_uses()),
        testless_map(before.valid_field_uses),
        instruction_served(rules, instruction, before, after),
    ensures
        testless_map(after.valid_field_uses),
        mandatory_encoded(rules, after, instruction),
{
    if rules.mandatory.contains_key(instruction.name) {
        let wanted = rules.mandatory[instruction.name];
        if wanted == Set::<Seq<char>>::empty() {
            if !instruction_encoded(before, instruction) && instruction.forms.len() != 0 {
                lemma_form_to_repair(before.active_forms, instruction, 0);
                let j = form_to_repair(before.active_forms, instruction, 0);
                let form = instruction.forms[j];
                assert(repairable_form(rules, form) && fits(form, before.valid_field_uses));
                assert(testless_form(form));
                lemma_repaired_encoded(rules, instruction.name, form, before, after);
                if encodings_of(form, rules.max_uses()) != Set::<Seq<Bit>>::empty() {
                    assert(has_encoding(after, instruction.name, instruction.forms[j]));
                }
            }
        } else {
            let names = choose|names: Seq<Seq<char>>|
                lists_once(names, wanted) && #[trigger] names_served(
                    rules,
                    instruction,
                    names,
                    names.len(),
                    before,
                    after,
                );
            lemma_names_encoded(rules, instruction, names, names.len(), before, after);
            assert forall|j: int|
                0 <= j < instruction.forms.len() && wanted.contains(
                    (#[trigger] instruction.forms[j]).name,
                ) && form_named(instruction.forms, instruction.forms[j].name, 0) == Some(j)
                    && encodings_of(instruction.forms[j], rules.max_uses())
                    != Set::<Seq<Bit>>::empty() implies has_encoding(
                after,
                instruction.name,
                instruction.forms[j],
            ) by {
                assert(names.to_set().contains(instruction.forms[j].name));
                let k = choose|k: int|
                    0 <= k < names.len() && names[k] == instruction.forms[j].name;
                assert(names[k] == instruction.forms[j].name);
                assert(encoded_if_possible(rules, after, instruction, j));
            }
        }
    }
}

/// What is owed stays met in a candidate that has grown.
proof fn lemma_mandatory_stays(
    rules: RulesV,
    instruction: InstructionV,
    before: CandidateV,
    after: CandidateV,
)
    requires
        rules.mandatory.contains_key(instruction.name),
        repairable_instruction(rules, instruction, before.valid_field_uses),
        testless_instruction(instruction),
        testless_map(before.valid_field_uses),
        testless_map(after.valid_field_uses),
        grown(before, after),
        fits_kept(rules, before.valid_field_uses, after.valid_field_uses),
        mandatory_encoded(rules, before, instruction),
    ensures
        mandatory_encoded(rules, after, instruction),
{
    assert forall|j: int|
        0 <= j < instruction.forms.len() && has_encoding(
            before,
            instruction.name,
            #[trigger] instruction.forms[j],
        ) implies has_encoding(after, instruction.name, instruction.forms[j]) by {
        lemma_encoded_stays(rules, instruction, j, before, after);
    }
    if instruction_encoded(before, instruction) {
        let j = choose|j: int|
            0 <= j < instruction.forms.len() && #[trigger] has_encoding(
                before,
                instruction.name,
                instruction.forms[j],
            );
        assert(has_encoding(after, instruction.name, instruction.forms[j]));
    }
}

proof fn lemma_mandatory_encoded(rules: RulesV, n: nat, before: CandidateV, after: CandidateV)
    requires
        repairable(rules, before.valid_field_uses),
        testless_rules(rules),
        testless_map(before.valid_field_uses),
        n <= rules.instructions.len(),
        mandatory_served(rules, n, before, after),
    ensures
        testless_map(after.valid_field_uses),
        forall|i: int|
            0 <= i < n ==> mandatory_encoded(rules, after, #[trigger] rules.instructions[i]),
    decreases n,
{
    if n > 0 {
        let last = rules.instructions[n - 1];
        let between = choose|between: CandidateV|
            #[trigger] instruction_served(rules, rules.instructions[n - 1], between, after)
                && mandatory_served(rules, (n - 1) as nat, before, between);
        lemma_mandatory_encoded(rules, (n - 1) as nat, before, between);
        lemma_mandatory_grown(rules, (n - 1) as nat, before, between);
        lemma_fits_kept(rules, before.valid_field_uses, between.valid_field_uses);
        if rules.mandatory.contains_key(last.name) {
            lemma_repairable(rules, between.valid_field_uses, n - 1);
            lemma_testless(rules, n - 1);
        }
        lemma_instruction_served(rules, last, between, after);
        lemma_instruction_encoded(rules, last, between, after);
        assert forall|i: int| 0 <= i < n implies mandatory_encoded(
            rules,
            after,
            #[trigger] rules.instructions[i],
        ) by {
            let instruction = rules.instructions[i];
            if i < n - 1 && rules.mandatory.contains_key(instruction.name) {
                lemma_repairable(rules, between.valid_field_uses, i);
                lemma_testless(rules, i);
                lemma_mandatory_stays(rules, instruction, between, after);
            }
        }
    }
}

proof fn lemma_testless(rules: RulesV, i: int)
    requires
        testless_rules(rules),
        0 <= i < rules.instructions.len(),
        rules.mandatory.contains_key(rules.instructions[i].name),
    ensures
        testless_instruction(rules.instructions[i]),
{
    assert forall|j: int| 0 <= j < rules.instructions[i].forms.len() implies testless_form(
        #[trigger] rules.instructions[i].forms[j],
    ) by {}
}

/// After repair every mandatory form that has an encoding in the unreduced instruction set is
/// listed and has an encoding; an instruction that is mandatory without named forms has one in
/// some form, where all its forms have one in the unreduced set.
pub proof fn lemma_repair_encodes_mandatory(
    rules: RulesV,
    before: CandidateV,
    after: CandidateV,
    i: int,
)
    requires
        repairable(rules, before.valid_field_uses),
        testless_rules(rules),
        testless_map(before.valid_field_uses),
        mandatory_served(rules, rules.instructions.len(), before, after),
        0 <= i < rules.instructions.len(),
    ensures
        mandatory_encoded(rules, after, rules.instructions[i]),
{
    lemma_mandatory_encoded(rules, rules.instructions.len(), before, after);
}

/// Opening and restoring keep uses that fit, without `Test` bits.
proof fn lemma_protected_fits(
    rules: RulesV,
    form: FormV,
    uses: Map<Seq<char>, FieldUsesV>,
)
    requires
        repairable_form(rules, form),
        fits(form, uses),
        testless_map(uses),
        testless_map(rules.max_uses()),
    ensures
        fits(form, opened_uses(rules, restored_uses(rules, uses))),
        testless_map(opened_uses(rules, restored_uses(rules, uses))),
{
    let max = rules.max_uses();
    let back = restored_uses(rules, uses);
    let after = opened_uses(rules, back);
    assert forall|k: int|
        0 <= k < form.fields.len() && (#[trigger] form.fields[k]).name is Some
            && after.contains_key(form.fields[k].name->0) implies uses_fit(
        after[form.fields[k].name->0],
        form.fields[k],
    ) by {
        let name = form.fields[k].name->0;
        assert(max.contains_key(name) && uses_fit(max[name], form.fields[k]));
        if uses.contains_key(name) {
            assert(uses_fit(uses[name], form.fields[k]));
        }
        assert(uses_fit(back[name], form.fields[k]));
    }
    assert forall|name: Seq<char>| #[trigger] after.contains_key(name) implies testless_uses(
        after[name],
    ) by {
        if uses.contains_key(name) {
            assert(testless_uses(uses[name]));
        }
        if max.contains_key(name) {
            assert(testless_uses(max[name]));
        }
        assert(testless_uses(back[name]));
    }
}

/// The part of a point of an encoding that a field holds.
proof fn lemma_part_serves(form: FormV, uses: Map<Seq<char>, FieldUsesV>, encoding: Seq<Bit>, k: int)
    requires
        fits(form, uses),
        plain_constants(form),
        fields_width(form.fields) <= usize::MAX,
        testless_map(uses),
        testless_form(form),
        encodings_of(form, uses).contains(encoding),
        0 <= k < form.fields.len(),
    ensures
        ({
            let part = field_slice(form.fields, point_of(encoding), k);
            &&& value_meets(form, part, k)
            &&& form.fields[k].name matches Some(name) ==> uses.contains_key(name)
                && value_allowed(part, uses[name])
        }),
{
    let point = point_of(encoding);
    let part = field_slice(form.fields, point, k);
    lemma_point(form, uses, encoding);
    lemma_cover(form, uses);
    lemma_part(form.fields, point, k);
    assert(part_allowed(form, uses, point, k));
    assert(field_patterns(form.fields[k], uses) is Some);
    if form.fields[k].name is Some {
        lemma_allowed_part(form.fields[k], uses, part);
    } else {
        let patterns = field_patterns(form.fields[k], uses)->0;
        let p = choose|p: Seq<Bit>| #[trigger] patterns.contains(p) && pattern_matches(p, part);
        assert(p == form.fields[k].bits);
    }
}

/// A form with an encoding, also in the unreduced instruction set, keeps one when protected
/// features are put back.
proof fn lemma_protected_encoded(
    rules: RulesV,
    instruction: Seq<char>,
    form: FormV,
    candidate: CandidateV,
)
    requires
        repairable_form(rules, form),
        testless_form(form),
        testless_map(rules.max_uses()),
        fits(form, candidate.valid_field_uses),
        testless_map(candidate.valid_field_uses),
        has_encoding(candidate, instruction, form),
        encodings_of(form, rules.max_uses()) != Set::<Seq<Bit>>::empty(),
    ensures
        has_encoding(protected(rules, candidate), instruction, form),
{
    let uses = candidate.valid_field_uses;
    let max = rules.max_uses();
    let back = restored_uses(rules, uses);
    let after = protected(rules, candidate).valid_field_uses;
    lemma_protected_fits(rules, form, uses);
    let own = lemma_member_of(encodings_of(form, uses));
    let full = lemma_member_of(encodings_of(form, max));
    let values = Seq::new(
        form.fields.len(),
        |k: int|
            if form.fields[k].name matches Some(name) && unrestricted_names(rules).contains(name) {
                field_slice(form.fields, point_of(full), k)
            } else {
                field_slice(form.fields, point_of(own), k)
            },
    );
    assert forall|k: int| 0 <= k < form.fields.len() implies #[trigger] value_serves(
        form,
        after,
        values,
        k,
    ) by {
        lemma_part_serves(form, uses, own, k);
        lemma_part_serves(form, max, full, k);
        if let Some(name) = form.fields[k].name {
            let value = values[k];
            assert(form.fields[k].name is Some);
            assert(back.contains_key(name) && value_allowed(value, back[name]));
            if uses.contains_key(name) {
                assert(uses_fit(uses[name], form.fields[k]));
            }
            assert(uses_fit(max[name], form.fields[k]));
            if !selectable(rules, name) {
                assert forall|i: int| 0 <= i < value.len() implies #[trigger] value[i]
                    != Bit::Var by {
                    assert(value[i].concrete());
                }
                let len = match back[name] {
                    FieldUsesV::Uses { len, .. } => len,
                    FieldUsesV::VariableBits { len, .. } => len,
                };
                lemma_opened_allows(back[name], value, len);
            }
        }
    }
    lemma_values_encoded(form, after, values);
    assert(form_active(candidate.active_forms, instruction, form.name));
    assert(form_active(protected(rules, candidate).active_forms, instruction, form.name));
}

/// In the smallest candidate for a program every mandatory form that has an encoding in the
/// unreduced instruction set is listed and has an encoding.
pub proof fn lemma_minimum_encodes_mandatory(rules: RulesV, candidate: CandidateV, i: int)
    requires
        is_minimum(rules, candidate),
        repairable(
            rules,
            program_candidate(rules.instructions, rules.program).valid_field_uses,
        ),
        testless_rules(rules),
        testless_map(program_candidate(rules.instructions, rules.program).valid_field_uses),
        0 <= i < rules.instructions.len(),
    ensures
        mandatory_encoded(rules, candidate, rules.instructions[i]),
{
    let start = program_candidate(rules.instructions, rules.program);
    let instruction = rules.instructions[i];
    let repaired = choose|repaired: CandidateV| #[trigger]
        mandatory_served(rules, rules.instructions.len(), start, repaired) && candidate
            == protected(rules, repaired);
    lemma_mandatory_encoded(rules, rules.instructions.len(), start, repaired);
    lemma_mandatory_grown(rules, rules.instructions.len(), start, repaired);
    lemma_fits_kept(rules, start.valid_field_uses, repaired.valid_field_uses);
    assert(mandatory_encoded(rules, repaired, rules.instructions[i]));
    if rules.mandatory.contains_key(instruction.name) {
        lemma_repairable(rules, repaired.valid_field_uses, i);
        lemma_testless(rules, i);
        assert forall|j: int|
            0 <= j < instruction.forms.len() && has_encoding(
                repaired,
                instruction.name,
                #[trigger] instruction.forms[j],
            ) && encodings_of(instruction.forms[j], rules.max_uses())
                != Set::<Seq<Bit>>::empty() implies has_encoding(
            candidate,
            instruction.name,
            instruction.forms[j],
        ) by {
            let form = instruction.forms[j];
            assert(repairable_form(rules, form) && fits(form, repaired.valid_field_uses));
            assert(testless_form(form));
            lemma_protected_encoded(rules, instruction.name, form, repaired);
        }
        if instruction_encoded(repaired, instruction) {
            let j = choose|j: int|
                0 <= j < instruction.forms.len() && #[trigger] has_encoding(
                    repaired,
                    instruction.name,
                    instruction.forms[j],
                );
            if encodings_of(instruction.forms[j], rules.max_uses()) != Set::<Seq<Bit>>::empty() {
                assert(has_encoding(candidate, instruction.name, instruction.forms[j]));
            }
        }
    }
}

/// What is mandatory can be had: the forms of such an instruction have different names and
/// encodings in the unreduced instruction set, and where forms are named one of them is among them.
pub open spec fn mandatory_possible(rules: RulesV, instruction: InstructionV) -> bool {
    rules.mandatory.contains_key(instruction.name) ==> {
        &&& instruction.forms.len() > 0
        &&& forall|j: int|
            0 <= j < instruction.forms.len() ==> {
                &&& encodings_of(#[trigger] instruction.forms[j], rules.max_uses())
                    != Set::<Seq<Bit>>::empty()
                &&& form_named(instruction.forms, instruction.forms[j].name, 0) == Some(j)
            }
        &&& rules.mandatory[instruction.name] == Set::<Seq<char>>::empty() || exists|j: int|
            0 <= j < instruction.forms.len() && rules.mandatory[instruction.name].contains(
                (#[trigger] instruction.forms[j]).name,
            )
    }
}

/// The outcome is not that a mandatory form is missing.
pub open spec fn mandatory_met(outcome: Option<Result<Set<Seq<Bit>>, ISACandidateError>>) -> bool {
    outcome != Some(Err::<Set<Seq<Bit>>, ISACandidateError>(ISACandidateError::MandatoryFormsError))
}

proof fn lemma_forms_met(
    rules: RulesV,
    candidate: CandidateV,
    instruction: InstructionV,
    n: nat,
)
    requires
        mandatory_encoded(rules, candidate, instruction),
        mandatory_possible(rules, instruction),
        n <= instruction.forms.len(),
    ensures
        mandatory_met(forms_encodings(rules, candidate, instruction, n)),
    decreases n,
{
    if n > 0 {
        lemma_forms_met(rules, candidate, instruction, (n - 1) as nat);
        let form = instruction.forms[n - 1];
        if form_active(rules.mandatory, instruction.name, form.name) {
            assert(form_named(instruction.forms, instruction.forms[n - 1].name, 0) == Some(
                n - 1,
            ));
            assert(has_encoding(candidate, instruction.name, instruction.forms[n - 1]));
        }
    }
}

proof fn lemma_instruction_met(rules: RulesV, candidate: CandidateV, instruction: InstructionV)
    requires
        mandatory_encoded(rules, candidate, instruction),
        mandatory_possible(rules, instruction),
    ensures
        mandatory_met(instruction_encodings(rules, candidate, instruction)),
{
    let n = instruction.forms.len();
    lemma_forms_met(rules, candidate, instruction, n);
    let outcome = forms_encodings(rules, candidate, instruction, n);
    if rules.mandatory.contains_key(instruction.name) && outcome matches Some(Ok(_)) {
        let j = if rules.mandatory[instruction.name] == Set::<Seq<char>>::empty() {
            assert(instruction_encoded(candidate, instruction));
            choose|j: int|
                0 <= j < instruction.forms.len() && #[trigger] has_encoding(
                    candidate,
                    instruction.name,
                    instruction.forms[j],
                )
        } else {
            choose|j: int|
                0 <= j < instruction.forms.len() && rules.mandatory[instruction.name].contains(
                    (#[trigger] instruction.forms[j]).name,
                )
        };
        let form = instruction.forms[j];
        assert(form_named(instruction.forms, instruction.forms[j].name, 0) == Some(j));
        assert(has_encoding(candidate, instruction.name, form));
        let e = lemma_member_of(encodings_of(form, candidate.valid_field_uses));
        lemma_forms_found(rules, candidate, instruction, n, j);
        assert(found_in(outcome).contains(e));
    }
}

proof fn lemma_instructions_met(rules: RulesV, candidate: CandidateV, n: nat)
    requires
        forall|i: int|
            0 <= i < rules.instructions.len() ==> {
                &&& mandatory_encoded(rules, candidate, #[trigger] rules.instructions[i])
                &&& mandatory_possible(rules, rules.instructions[i])
            },
        n <= rules.instructions.len(),
    ensures
        mandatory_met(instructions_encodings(rules, candidate, n)),
    decreases n,
{
    if n > 0 {
        lemma_instructions_met(rules, candidate, (n - 1) as nat);
        assert(mandatory_encoded(rules, candidate, rules.instructions[n - 1]));
        lemma_instruction_met(rules, candidate, rules.instructions[n - 1]);
    }
}

/// Where what is mandatory can be had, no mandatory form speaks against the smallest candidate
/// for a program.
pub proof fn lemma_minimum_meets_mandatory(rules: RulesV, candidate: CandidateV)
    requires
        is_minimum(rules, candidate),
        repairable(
            rules,
            program_candidate(rules.instructions, rules.program).valid_field_uses,
        ),
        testless_rules(rules),
        testless_map(program_candidate(rules.instructions, rules.program).valid_field_uses),
        forall|i: int|
            0 <= i < rules.instructions.len() ==> mandatory_possible(
                rules,
                #[trigger] rules.instructions[i],
            ),
    ensures
        mandatory_met(candidate_encodings(rules, candidate)),
{
    assert forall|i: int| 0 <= i < rules.instructions.len() implies mandatory_encoded(
        rules,
        candidate,
        #[trigger] rules.instructions[i],
    ) by {
        lemma_minimum_encodes_mandatory(rules, candidate, i);
    }
    lemma_instructions_met(rules, candidate, rules.instructions.len());
}

} // verus!
