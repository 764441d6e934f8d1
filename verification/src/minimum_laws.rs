//! The smallest candidate for a program runs the program.
use vstd::prelude::*;

use crate::bit::{bit_accepts, pattern_matches, variable_pattern, Bit};
use crate::candidate_laws::{definite, lemma_program_supported};
use crate::decode::check;
use crate::field_uses::FieldUsesV;
use crate::form_fit::{fits, uses_fit};
use crate::form_repair::{
    is_minimum, lemma_mandatory_grown, mandatory_served, protected, repairable, repairable_form,
};
use crate::isa_candidate::{
    fields_allowed, form_active, has_variable, observed_program, program_candidate, supports,
    value_allowed, CandidateV,
};
use crate::isa_optimization::RulesV;
use crate::isa_specification::DecodedV;
use crate::protected_features::{opened, restored, selectable};

verus! {

/// The decoded fields are those of the form, with values of their widths.
pub open spec fn matches_form(instruction: DecodedV) -> bool {
    &&& instruction.fields.len() == instruction.form.fields.len()
    &&& forall|i: int|
        0 <= i < instruction.fields.len() ==> {
            &&& (#[trigger] instruction.fields[i]).name == instruction.form.fields[i].name
            &&& instruction.fields[i].bits.len() == instruction.form.fields[i].bits.len()
        }
}

/// Uses that allow every value allow a value of their length.
pub(crate) proof fn lemma_opened_allows(uses: FieldUsesV, value: Seq<Bit>, len: usize)
    requires
        !has_variable(value),
        value.len() == len,
        uses matches FieldUsesV::Uses { len: l, .. } ==> l == len,
        uses matches FieldUsesV::VariableBits { len: l, .. } ==> l == len,
    ensures
        value_allowed(value, opened(uses)),
{
    let all = variable_pattern(len as nat);
    assert forall|i: int| 0 <= i < value.len() implies bit_accepts(#[trigger] all[i], value[i]) by {
    }
    assert(pattern_matches(all, value));
    match opened(uses) {
        FieldUsesV::Uses { patterns, .. } => {
            assert(patterns.contains(all));
        },
        _ => {},
    }
}

/// The smallest candidate for a program supports every instruction of the program that the
/// unreduced instruction set has.
pub proof fn lemma_minimum_supports_program(rules: RulesV, candidate: CandidateV, k: int)
    requires
        is_minimum(rules, candidate),
        repairable(
            rules,
            program_candidate(rules.instructions, rules.program).valid_field_uses,
        ),
        observed_program(rules.program) is Some,
        forall|i: int| 0 <= i < rules.program.len() ==> definite(#[trigger] rules.program[i]),
        0 <= k < rules.program.len(),
        check(rules.program[k].form.when, rules.program[k].bits, rules.program[k].fields) == Some(
            true,
        ),
        matches_form(rules.program[k]),
        fields_allowed(rules.program[k].fields, rules.max_uses()),
        repairable_form(rules, rules.program[k].form),
        fits(
            rules.program[k].form,
            program_candidate(rules.instructions, rules.program).valid_field_uses,
        ),
    ensures
        supports(candidate, rules.program[k]),
{
    let own = rules.program[k];
    let start = program_candidate(rules.instructions, rules.program);
    let repaired = choose|repaired: CandidateV| #[trigger]
        mandatory_served(rules, rules.instructions.len(), start, repaired) && candidate
            == protected(rules, repaired);
    lemma_program_supported(rules.instructions, rules.program, k);
    lemma_mandatory_grown(rules, rules.instructions.len(), start, repaired);
    assert(fits(own.form, repaired.valid_field_uses));
    let back = restored(rules, repaired).valid_field_uses;
    let uses = candidate.valid_field_uses;
    assert(definite(rules.program[k]));
    assert forall|i: int| 0 <= i < own.fields.len() && (
    #[trigger] own.fields[i]).name is Some implies uses.contains_key(own.fields[i].name->0)
        && value_allowed(own.fields[i].bits, uses[own.fields[i].name->0]) by {
        let field = own.fields[i];
        let name = field.name->0;
        assert(!has_variable(own.fields[i].bits));
        assert(own.form.fields[i].name == Some(name));
        assert(value_allowed(field.bits, start.valid_field_uses[name]));
        assert(value_allowed(field.bits, repaired.valid_field_uses[name]));
        assert(uses_fit(repaired.valid_field_uses[name], own.form.fields[i]));
        assert(uses_fit(rules.max_uses()[name], own.form.fields[i]));
        assert(value_allowed(field.bits, back[name]));
        assert(uses_fit(back[name], own.form.fields[i]));
        if !selectable(rules, name) {
            let len = match back[name] {
                FieldUsesV::Uses { len, .. } => len,
                FieldUsesV::VariableBits { len, .. } => len,
            };
            lemma_opened_allows(back[name], field.bits, len);
        }
    }
    assert(form_active(repaired.active_forms, own.name, own.form.name));
    assert(form_active(candidate.active_forms, own.name, own.form.name));
}

} // verus!
