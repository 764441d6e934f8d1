//! Repairs and the smallest candidates add no more than is needed.
use vstd::prelude::*;

use crate::bit::Bit;
use crate::encodings::encodings_of;
use crate::field_uses::FieldUsesV;
use crate::form_repair::{
    choices_from, form_named, form_repaired, form_to_repair, has_encoding, instruction_encoded,
    instruction_served, is_minimum, lists_once, mandatory_served, name_served, names_served,
    protected, repaired_uses,
};
use crate::isa_candidate::{form_active, program_candidate, CandidateV};
use crate::isa_optimization::RulesV;
use crate::isa_specification::{FormV, InstructionV};
use crate::search_laws::{field_at, has_place};
use crate::support_laws::{
    form_empty, form_encodes, form_mandatory, instruction_empty, instruction_mandatory,
};

verus! {

proof fn lemma_has_encoding(candidate: CandidateV, instruction: InstructionV, j: int)
    requires
        0 <= j < instruction.forms.len(),
    ensures
        has_encoding(candidate, instruction.name, instruction.forms[j]) == !form_empty(
            candidate,
            instruction,
            j,
        ),
{
    let found = encodings_of(instruction.forms[j], candidate.valid_field_uses);
    if has_encoding(candidate, instruction.name, instruction.forms[j]) {
        if forall|p: Seq<Bit>| !found.contains(p) {
            assert(found =~= Set::empty());
        }
        let p = choose|p: Seq<Bit>| found.contains(p);
        assert(form_encodes(candidate, instruction, j, p));
    }
    if !form_empty(candidate, instruction, j) {
        let p = choose|p: Seq<Bit>| #[trigger] form_encodes(candidate, instruction, j, p);
        assert(found.contains(p));
    }
}

proof fn lemma_form_named(forms: Seq<FormV>, name: Seq<char>, j: int)
    requires
        0 <= j,
    ensures
        form_named(forms, name, j) matches Some(found) ==> j <= found < forms.len()
            && forms[found].name == name,
    decreases forms.len() - j,
{
    if j < forms.len() {
        lemma_form_named(forms, name, j + 1);
    }
}

/// The candidate has what is mandatory.
pub open spec fn serves(rules: RulesV, candidate: CandidateV) -> bool {
    &&& forall|i: int, j: int| #[trigger]
        form_mandatory(rules, i, j) ==> !form_empty(candidate, rules.instructions[i], j)
    &&& forall|i: int| #[trigger]
        instruction_mandatory(rules, i) ==> !instruction_empty(candidate, rules.instructions[i])
}

proof fn lemma_names_idle(
    rules: RulesV,
    i: int,
    names: Seq<Seq<char>>,
    n: nat,
    before: CandidateV,
    after: CandidateV,
)
    requires
        0 <= i < rules.instructions.len(),
        rules.mandatory.contains_key(rules.instructions[i].name),
        n <= names.len(),
        lists_once(names, rules.mandatory[rules.instructions[i].name]),
        serves(rules, before),
        names_served(rules, rules.instructions[i], names, n, before, after),
    ensures
        after == before,
    decreases n,
{
    if n > 0 {
        let instruction = rules.instructions[i];
        let between = choose|between: CandidateV|
            #[trigger] name_served(rules, instruction, names[n - 1], between, after)
                && names_served(rules, instruction, names, (n - 1) as nat, before, between);
        lemma_names_idle(rules, i, names, (n - 1) as nat, before, between);
        lemma_form_named(instruction.forms, names[n - 1], 0);
        if let Some(j) = form_named(instruction.forms, names[n - 1], 0) {
            assert(names.to_set().contains(names[n - 1]));
            assert(form_mandatory(rules, i, j));
            lemma_has_encoding(before, instruction, j);
        }
    }
}

/// A candidate that has what is mandatory is left as it is.
pub proof fn lemma_nothing_repaired(
    rules: RulesV,
    n: nat,
    before: CandidateV,
    after: CandidateV,
)
    requires
        n <= rules.instructions.len(),
        serves(rules, before),
        mandatory_served(rules, n, before, after),
    ensures
        after == before,
    decreases n,
{
    if n > 0 {
        let i = n - 1;
        let instruction = rules.instructions[i];
        let between = choose|between: CandidateV|
            #[trigger] instruction_served(rules, instruction, between, after) && mandatory_served(
                rules,
                (n - 1) as nat,
                before,
                between,
            );
        lemma_nothing_repaired(rules, (n - 1) as nat, before, between);
        if rules.mandatory.contains_key(instruction.name) {
            if rules.mandatory[instruction.name] == Set::<Seq<char>>::empty() {
                assert(instruction_mandatory(rules, i));
                let j = choose|j: int|
                    0 <= j < instruction.forms.len() && !#[trigger] form_empty(
                        before,
                        instruction,
                        j,
                    );
                lemma_has_encoding(before, instruction, j);
                assert(instruction_encoded(before, instruction));
            } else {
                let names = choose|names: Seq<Seq<char>>|
                    lists_once(names, rules.mandatory[instruction.name])
                        && #[trigger] names_served(
                        rules,
                        instruction,
                        names,
                        names.len(),
                        between,
                        after,
                    );
                lemma_names_idle(rules, i, names, names.len(), before, after);
            }
        }
    }
}

/// Where what the program uses serves what is mandatory, the smallest candidate is what the program
/// uses, with protected features put back.
pub proof fn lemma_minimum_is_used(rules: RulesV, candidate: CandidateV)
    requires
        is_minimum(rules, candidate),
        serves(rules, program_candidate(rules.instructions, rules.program)),
    ensures
        candidate == protected(rules, program_candidate(rules.instructions, rules.program)),
{
    let used = program_candidate(rules.instructions, rules.program);
    let repaired = choose|repaired: CandidateV| #[trigger]
        mandatory_served(rules, rules.instructions.len(), used, repaired) && candidate == protected(
            rules,
            repaired,
        );
    lemma_nothing_repaired(rules, rules.instructions.len(), used, repaired);
}

/// The instruction of a mandatory name has a form with a field of the name.
pub open spec fn in_mandatory(rules: RulesV, name: Seq<char>) -> bool {
    exists|i: int, j: int, k: int| #[trigger]
        has_place(rules.instructions, i, j, k) && field_at(rules.instructions, i, j, k).name == Some(
            name,
        ) && rules.mandatory.contains_key(rules.instructions[i].name)
}

/// Only mandatory instructions have other forms, and only fields of their forms have other uses.
pub open spec fn adds_needed(rules: RulesV, before: CandidateV, after: CandidateV) -> bool {
    &&& forall|name: Seq<char>, form: Seq<char>| #[trigger]
        form_active(after.active_forms, name, form) && !form_active(before.active_forms, name, form)
            ==> rules.mandatory.contains_key(name)
    &&& forall|name: Seq<char>|
        !in_mandatory(rules, name) ==> {
            &&& #[trigger] after.valid_field_uses.contains_key(name)
                == before.valid_field_uses.contains_key(name)
            &&& before.valid_field_uses.contains_key(name) ==> after.valid_field_uses[name]
                == before.valid_field_uses[name]
        }
}

proof fn lemma_uses_stay(
    rules: RulesV,
    i: int,
    j: int,
    uses: Map<Seq<char>, FieldUsesV>,
    choices: Seq<Seq<Bit>>,
    name: Seq<char>,
)
    requires
        0 <= i < rules.instructions.len(),
        0 <= j < rules.instructions[i].forms.len(),
        rules.mandatory.contains_key(rules.instructions[i].name),
        choices.len() <= rules.instructions[i].forms[j].fields.len(),
        !in_mandatory(rules, name),
    ensures
        ({
            let after = repaired_uses(uses, rules.instructions[i].forms[j], choices);
            &&& after.contains_key(name) == uses.contains_key(name)
            &&& uses.contains_key(name) ==> after[name] == uses[name]
        }),
    decreases choices.len(),
{
    if choices.len() > 0 {
        let k = choices.len() - 1;
        lemma_uses_stay(rules, i, j, uses, choices.drop_last(), name);
        assert(has_place(rules.instructions, i, j, k));
        assert(field_at(rules.instructions, i, j, k).name != Some(name));
    }
}

proof fn lemma_form_adds(rules: RulesV, i: int, j: int, before: CandidateV, after: CandidateV)
    requires
        0 <= i < rules.instructions.len(),
        0 <= j < rules.instructions[i].forms.len(),
        rules.mandatory.contains_key(rules.instructions[i].name),
        form_repaired(
            rules,
            rules.instructions[i].name,
            rules.instructions[i].forms[j],
            before,
            after,
        ),
    ensures
        adds_needed(rules, before, after),
{
    let form = rules.instructions[i].forms[j];
    let full = encodings_of(form, rules.max_uses());
    if full != Set::<Seq<Bit>>::empty() {
        let choices = choose|choices: Seq<Seq<Bit>>|
            choices_from(choices, form, full) && after.valid_field_uses
                == #[trigger] repaired_uses(before.valid_field_uses, form, choices);
        assert forall|name: Seq<char>| !in_mandatory(rules, name) implies {
            &&& #[trigger] after.valid_field_uses.contains_key(name)
                == before.valid_field_uses.contains_key(name)
            &&& before.valid_field_uses.contains_key(name) ==> after.valid_field_uses[name]
                == before.valid_field_uses[name]
        } by {
            lemma_uses_stay(rules, i, j, before.valid_field_uses, choices, name);
        }
    }
}

proof fn lemma_adds_both(rules: RulesV, a: CandidateV, b: CandidateV, c: CandidateV)
    requires
        adds_needed(rules, a, b),
        adds_needed(rules, b, c),
    ensures
        adds_needed(rules, a, c),
{
    assert forall|name: Seq<char>, form: Seq<char>| #[trigger]
        form_active(c.active_forms, name, form) && !form_active(
            a.active_forms,
            name,
            form,
        ) implies rules.mandatory.contains_key(name) by {
        assert(form_active(b.active_forms, name, form) || !form_active(b.active_forms, name, form));
    }
    assert forall|name: Seq<char>| !in_mandatory(rules, name) implies {
        &&& #[trigger] c.valid_field_uses.contains_key(name) == a.valid_field_uses.contains_key(
            name,
        )
        &&& a.valid_field_uses.contains_key(name) ==> c.valid_field_uses[name]
            == a.valid_field_uses[name]
    } by {
        assert(b.valid_field_uses.contains_key(name) == a.valid_field_uses.contains_key(name));
    }
}

proof fn lemma_names_add(
    rules: RulesV,
    i: int,
    names: Seq<Seq<char>>,
    n: nat,
    before: CandidateV,
    after: CandidateV,
)
    requires
        0 <= i < rules.instructions.len(),
        rules.mandatory.contains_key(rules.instructions[i].name),
        n <= names.len(),
        names_served(rules, rules.instructions[i], names, n, before, after),
    ensures
        adds_needed(rules, before, after),
    decreases n,
{
    if n > 0 {
        let instruction = rules.instructions[i];
        let between = choose|between: CandidateV|
            #[trigger] name_served(rules, instruction, names[n - 1], between, after)
                && names_served(rules, instruction, names, (n - 1) as nat, before, between);
        lemma_names_add(rules, i, names, (n - 1) as nat, before, between);
        lemma_form_named(instruction.forms, names[n - 1], 0);
        if let Some(j) = form_named(instruction.forms, names[n - 1], 0) {
            if !has_encoding(between, instruction.name, instruction.forms[j]) {
                lemma_form_adds(rules, i, j, between, after);
            }
        }
        assert(adds_needed(rules, between, after));
        lemma_adds_both(rules, before, between, after);
    }
}

proof fn lemma_to_repair(
    active: Map<Seq<char>, Set<Seq<char>>>,
    instruction: InstructionV,
    j: int,
)
    requires
        0 <= j,
        instruction.forms.len() > 0,
    ensures
        0 <= form_to_repair(active, instruction, j) < instruction.forms.len(),
    decreases instruction.forms.len() - j,
{
    if j < instruction.forms.len() {
        lemma_to_repair(active, instruction, j + 1);
    }
}

/// Repairs list forms of mandatory instructions only, and change uses of their fields only.
pub proof fn lemma_repairs_add_needed(
    rules: RulesV,
    n: nat,
    before: CandidateV,
    after: CandidateV,
)
    requires
        n <= rules.instructions.len(),
        mandatory_served(rules, n, before, after),
    ensures
        adds_needed(rules, before, after),
    decreases n,
{
    if n > 0 {
        let i = n - 1;
        let instruction = rules.instructions[i];
        let between = choose|between: CandidateV|
            #[trigger] instruction_served(rules, instruction, between, after) && mandatory_served(
                rules,
                (n - 1) as nat,
                before,
                between,
            );
        lemma_repairs_add_needed(rules, (n - 1) as nat, before, between);
        if rules.mandatory.contains_key(instruction.name) {
            if rules.mandatory[instruction.name] == Set::<Seq<char>>::empty() {
                if !instruction_encoded(between, instruction) && instruction.forms.len() > 0 {
                    lemma_to_repair(between.active_forms, instruction, 0);
                    lemma_form_adds(
                        rules,
                        i,
                        form_to_repair(between.active_forms, instruction, 0),
                        between,
                        after,
                    );
                }
            } else {
                let names = choose|names: Seq<Seq<char>>|
                    lists_once(names, rules.mandatory[instruction.name])
                        && #[trigger] names_served(
                        rules,
                        instruction,
                        names,
                        names.len(),
                        between,
                        after,
                    );
                lemma_names_add(rules, i, names, names.len(), between, after);
            }
        }
        assert(adds_needed(rules, between, after));
        lemma_adds_both(rules, before, between, after);
    }
}

} // verus!
