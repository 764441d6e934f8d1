//! Tests of what the search and the tools around it ask of their inputs.
use vstd::prelude::*;

use crate::bit::{Bit, BitPattern};
use crate::collections::{lemma_map_of, lemma_map_of_absent, viewed, OrderedMap, OrderedSet};
use crate::crossover::row_names;
use crate::decode::{all_countable, countable};
use crate::encodings::{encodable, encodings_of, field_patterns, pattern_set};
use crate::field_uses::{all_of_len, FieldUses, FieldUsesV};
use crate::form_fit::{fits, lemma_fits_encodable, plain_constants, uses_fit};
use crate::form_repair::repairable;
use crate::greenthumb_restrictions::{
    forms_restrictable, restrictable, GreenthumbRestrictionOptions,
};
use crate::isa_candidate::{
    condition_defined, form_active, lists_form, observed_program, program_candidate, uses_sized,
    CandidateV, ISACandidate,
};
use crate::isa_optimization::{
    candidate_encodings, conditions_defined, fixed_mergeable, forms_encodings,
    instructions_encodings, IsaOptimizationManager, RulesV,
};
use crate::isa_specification::{
    fields_width, lemma_width_prefix, DecodedInstruction, FormV, ISA, InstructionField,
    InstructionForm, InstructionV, MergeMode,
};
use crate::mutation::{fields_mutable, mutable, FieldDraws};
use crate::pattern_count::{checked_frequencies, lemma_partition_counts, lemma_set_frequency};
use crate::pattern_cover::{all_testless, testless, uncovered_patterns};
use crate::protected_features::{selectable, unrestricted_names};
use crate::random_candidates::{drawable, drawable_forms, drawable_isa};

verus! {

/// Reports whether all patterns have the length.
fn patterns_have_len(patterns: &OrderedSet<BitPattern>, len: usize) -> (r: bool)
    ensures
        r == all_of_len(patterns@, len as nat),
{
    broadcast use OrderedSet::lemma_rows;

    let ghost rows = patterns.rows();
    let mut i: usize = 0;
    while i < patterns.len()
        invariant
            rows == patterns.rows(),
            i <= rows.len(),
            forall|j: int| 0 <= j < i ==> (#[trigger] rows[j]).len() == len,
        decreases rows.len() - i,
    {
        let pattern = patterns.get(i);
        if pattern.len() != len {
            assert(patterns@.contains(pattern@));
            return false;
        }
        i += 1;
    }
    assert forall|p: Seq<Bit>| #[trigger] patterns@.contains(p) implies p.len() == len by {
        let j = choose|j: int| 0 <= j < rows.len() && rows[j] == p;
        assert(rows[j].len() == len);
    }
    true
}

/// Reports whether a field's listed patterns have the stated length.
fn is_sized(uses: &FieldUses) -> (r: bool)
    ensures
        r == uses_sized(uses@),
{
    match uses {
        FieldUses::Uses { patterns, len, .. } => patterns_have_len(patterns, *len),
        FieldUses::VariableBits { .. } => true,
    }
}

/// Reports whether uses are merged like a field and have values of its width.
fn do_uses_fit(uses: &FieldUses, field: &InstructionField) -> (r: bool)
    ensures
        r == uses_fit(uses@, field@),
{
    match (field.merge_mode, uses) {
        (MergeMode::Uses, FieldUses::Uses { patterns, len, .. }) => *len == field.width()
            && patterns_have_len(patterns, *len),
        (MergeMode::VariableBits, FieldUses::VariableBits { pattern, len, .. }) => *len
            == field.width() && match pattern {
            Some(pattern) => pattern.len() == *len,
            None => true,
        },
        _ => false,
    }
}

/// Reports whether a row holds a bit.
fn holds_bit(bits: &Vec<Bit>, bit: Bit) -> (r: bool)
    ensures
        r == exists|i: int| 0 <= i < bits@.len() && #[trigger] bits@[i] == bit,
{
    let mut i: usize = 0;
    while i < bits.len()
        invariant
            i <= bits@.len(),
            forall|j: int| 0 <= j < i ==> #[trigger] bits@[j] != bit,
        decreases bits@.len() - i,
    {
        if bits[i] == bit {
            return true;
        }
        i += 1;
    }
    false
}

/// The width of a form, where it can be counted.
fn counted_width(form: &InstructionForm) -> (r: Option<usize>)
    ensures
        match r {
            Some(width) => width == fields_width(form@.fields),
            None => fields_width(form@.fields) > usize::MAX,
        },
{
    let ghost all = viewed(form.fields@);
    let mut total: usize = 0;
    let mut i: usize = 0;
    assert(all.take(0) =~= Seq::empty());
    while i < form.fields.len()
        invariant
            i <= form.fields@.len(),
            all == viewed(form.fields@),
            total == fields_width(all.take(i as int)),
        decreases form.fields@.len() - i,
    {
        proof {
            assert(all.take(i + 1).drop_last() =~= all.take(i as int));
            assert(all.take(i + 1).last() == form.fields@[i as int]@);
            lemma_width_prefix(all, i + 1);
        }
        match total.checked_add(form.fields[i].width()) {
            Some(sum) => {
                total = sum;
            },
            None => {
                return None;
            },
        }
        i += 1;
    }
    assert(all.take(i as int) =~= all);
    Some(total)
}

/// Reports whether the widths of all forms can be counted.
pub fn widths_countable(isa: &ISA) -> (r: bool)
    ensures
        r == all_countable(viewed(isa.instructions@)),
{
    let ghost all = viewed(isa.instructions@);
    let mut i: usize = 0;
    while i < isa.instructions.len()
        invariant
            i <= isa.instructions@.len(),
            all == viewed(isa.instructions@),
            forall|k: int| 0 <= k < i ==> countable((#[trigger] all[k]).forms),
        decreases isa.instructions@.len() - i,
    {
        let instruction = &isa.instructions[i];
        let ghost forms = viewed(instruction.forms@);
        assert(all[i as int] == instruction@);
        let mut j: usize = 0;
        while j < instruction.forms.len()
            invariant
                i < isa.instructions@.len(),
                all == viewed(isa.instructions@),
                all[i as int] == instruction@,
                forms == viewed(instruction.forms@),
                j <= instruction.forms@.len(),
                forall|k: int|
                    0 <= k < j ==> fields_width((#[trigger] forms[k]).fields) <= usize::MAX,
            decreases instruction.forms@.len() - j,
        {
            assert(forms[j as int] == instruction.forms@[j as int]@);
            if counted_width(&instruction.forms[j]).is_none() {
                assert(!countable(all[i as int].forms));
                return false;
            }
            j += 1;
        }
        i += 1;
    }
    true
}

/// The form's constants are plain, its width can be counted, and the uses fit its fields.
pub open spec fn form_usable(form: FormV, uses: Map<Seq<char>, FieldUsesV>) -> bool {
    &&& plain_constants(form)
    &&& fields_width(form.fields) <= usize::MAX
    &&& fits(form, uses)
}

/// Reports whether uses fit a form.
pub fn is_form_usable(form: &InstructionForm, uses: &OrderedMap<FieldUses>) -> (r: bool)
    ensures
        r == form_usable(form@, uses@),
{
    let ghost fields = viewed(form.fields@);
    if counted_width(form).is_none() {
        return false;
    }
    let mut k: usize = 0;
    while k < form.fields.len()
        invariant
            k <= form.fields@.len(),
            fields == viewed(form.fields@),
            fields == form@.fields,
            forall|j: int|
                0 <= j < k && (#[trigger] fields[j]).name is None ==> field_patterns(
                    fields[j],
                    Map::empty(),
                ) is Some,
            forall|j: int|
                0 <= j < k && (#[trigger] fields[j]).name is Some && uses@.contains_key(
                    fields[j].name->0,
                ) ==> uses_fit(uses@[fields[j].name->0], fields[j]),
        decreases form.fields@.len() - k,
    {
        let field = &form.fields[k];
        assert(fields[k as int] == field@);
        match &field.name {
            None => {
                if holds_bit(&field.pattern.bits, Bit::Var) || field.merge_mode
                    != MergeMode::VariableBits {
                    assert(field_patterns(fields[k as int], Map::empty()) is None);
                    assert(!plain_constants(form@));
                    return false;
                }
            },
            Some(name) => {
                if let Some(listed) = uses.get(name.as_str()) {
                    if !do_uses_fit(listed, field) {
                        assert(!fits(form@, uses@));
                        return false;
                    }
                }
            },
        }
        k += 1;
    }
    true
}

/// The uses of a candidate fit the forms that it lists.
pub open spec fn listed_usable(instructions: Seq<InstructionV>, candidate: CandidateV) -> bool {
    forall|i: int, j: int|
        #![trigger instructions[i].forms[j]]
        0 <= i < instructions.len() && 0 <= j < instructions[i].forms.len() && form_active(
            candidate.active_forms,
            instructions[i].name,
            instructions[i].forms[j].name,
        ) ==> form_usable(instructions[i].forms[j], candidate.valid_field_uses)
}

/// Reports whether the uses of a candidate fit the forms that it lists.
pub fn is_candidate_usable(isa: &ISA, candidate: &ISACandidate) -> (r: bool)
    ensures
        r == listed_usable(viewed(isa.instructions@), candidate@),
{
    let ghost all = viewed(isa.instructions@);
    let mut i: usize = 0;
    while i < isa.instructions.len()
        invariant
            i <= isa.instructions@.len(),
            all == viewed(isa.instructions@),
            forall|k: int, j: int|
                #![trigger all[k].forms[j]]
                0 <= k < i && 0 <= j < all[k].forms.len() && form_active(
                    candidate@.active_forms,
                    all[k].name,
                    all[k].forms[j].name,
                ) ==> form_usable(all[k].forms[j], candidate@.valid_field_uses),
        decreases isa.instructions@.len() - i,
    {
        let instruction = &isa.instructions[i];
        assert(all[i as int] == instruction@);
        let mut j: usize = 0;
        while j < instruction.forms.len()
            invariant
                i < isa.instructions@.len(),
                all == viewed(isa.instructions@),
                all[i as int] == instruction@,
                j <= instruction.forms@.len(),
                forall|k: int|
                    0 <= k < j && form_active(
                        candidate@.active_forms,
                        instruction@.name,
                        (#[trigger] instruction@.forms[k]).name,
                    ) ==> form_usable(instruction@.forms[k], candidate@.valid_field_uses),
            decreases instruction.forms@.len() - j,
        {
            let form = &instruction.forms[j];
            assert(instruction@.forms[j as int] == form@);
            if lists_form(&candidate.active_forms, &instruction.name, &form.name)
                && !is_form_usable(form, &candidate.valid_field_uses) {
                assert(!form_usable(all[i as int].forms[j as int], candidate@.valid_field_uses));
                return false;
            }
            j += 1;
        }
        i += 1;
    }
    true
}

/// A candidate whose uses fit the forms that it lists can be restricted to.
pub proof fn lemma_usable_restrictable(
    instructions: Seq<InstructionV>,
    candidate: CandidateV,
    options: GreenthumbRestrictionOptions,
)
    requires
        listed_usable(instructions, candidate),
    ensures
        restrictable(instructions, candidate, options),
{
    assert forall|i: int| 0 <= i < instructions.len() implies forms_restrictable(
        candidate,
        #[trigger] instructions[i],
    ) by {
        assert forall|j: int|
            0 <= j < instructions[i].forms.len() && form_active(
                candidate.active_forms,
                instructions[i].name,
                (#[trigger] instructions[i].forms[j]).name,
            ) implies encodable(instructions[i].forms[j], candidate.valid_field_uses) by {
            assert(form_usable(instructions[i].forms[j], candidate.valid_field_uses));
            lemma_fits_encodable(instructions[i].forms[j], candidate.valid_field_uses);
        }
    }
}

/// Reports whether the conditions of a program's instructions can be evaluated as far as a
/// candidate has their forms.
pub fn are_conditions_defined(candidate: &ISACandidate, program: &Vec<DecodedInstruction>) -> (r:
    bool)
    ensures
        r == conditions_defined(candidate@, viewed(program@)),
{
    let ghost all = viewed(program@);
    let mut i: usize = 0;
    while i < program.len()
        invariant
            i <= program@.len(),
            all == viewed(program@),
            forall|k: int|
                0 <= k < i && form_active(
                    candidate@.active_forms,
                    (#[trigger] all[k]).name,
                    all[k].form.name,
                ) ==> condition_defined(all[k]),
        decreases program@.len() - i,
    {
        let decoded = &program[i];
        assert(all[i as int] == decoded@);
        if lists_form(&candidate.active_forms, &decoded.name, &decoded.form.name)
            && decoded.form.when.try_check(decoded).is_none() {
            assert(!condition_defined(all[i as int]));
            return false;
        }
        i += 1;
    }
    true
}

/// The forms that must keep all encodings have the widths of their instructions, and the uses of
/// the unreduced instruction set fit them.
pub open spec fn unrestricted_usable(rules: RulesV, candidate: CandidateV) -> bool {
    forall|i: int, j: int|
        #![trigger rules.instructions[i].forms[j]]
        0 <= i < rules.instructions.len() && 0 <= j < rules.instructions[i].forms.len()
            && form_active(
            candidate.active_forms,
            rules.instructions[i].name,
            rules.instructions[i].forms[j].name,
        ) && form_active(
            rules.unrestricted,
            rules.instructions[i].name,
            rules.instructions[i].forms[j].name,
        ) ==> {
            &&& form_usable(rules.instructions[i].forms[j], rules.max_uses())
            &&& fields_width(rules.instructions[i].forms[j].fields) == rules.instructions[i].width
        }
}

proof fn lemma_forms_usable(rules: RulesV, candidate: CandidateV, i: int, n: nat)
    requires
        listed_usable(rules.instructions, candidate),
        unrestricted_usable(rules, candidate),
        0 <= i < rules.instructions.len(),
        n <= rules.instructions[i].forms.len(),
    ensures
        forms_encodings(rules, candidate, rules.instructions[i], n) is Some,
    decreases n,
{
    if n > 0 {
        lemma_forms_usable(rules, candidate, i, (n - 1) as nat);
        let instruction = rules.instructions[i];
        let form = rules.instructions[i].forms[n - 1];
        if form_active(candidate.active_forms, instruction.name, form.name) {
            assert(form_usable(form, candidate.valid_field_uses));
            lemma_fits_encodable(form, candidate.valid_field_uses);
            if form_active(rules.unrestricted, instruction.name, form.name) {
                assert(form_usable(form, rules.max_uses()));
                lemma_fits_encodable(form, rules.max_uses());
                let width = instruction.width as nat;
                assert(all_of_len(encodings_of(form, rules.max_uses()), width));
                assert(all_of_len(encodings_of(form, candidate.valid_field_uses), width));
            }
        }
    }
}

proof fn lemma_instructions_usable(rules: RulesV, candidate: CandidateV, n: nat)
    requires
        listed_usable(rules.instructions, candidate),
        unrestricted_usable(rules, candidate),
        n <= rules.instructions.len(),
    ensures
        instructions_encodings(rules, candidate, n) is Some,
    decreases n,
{
    if n > 0 {
        lemma_instructions_usable(rules, candidate, (n - 1) as nat);
        lemma_forms_usable(rules, candidate, n - 1, rules.instructions[n - 1].forms.len());
    }
}

/// A candidate that fits, also where all encodings must stay, has encodings or is ruled out.
pub proof fn lemma_usable_encodings(rules: RulesV, candidate: CandidateV)
    requires
        listed_usable(rules.instructions, candidate),
        unrestricted_usable(rules, candidate),
    ensures
        candidate_encodings(rules, candidate) is Some,
{
    lemma_instructions_usable(rules, candidate, rules.instructions.len());
}

/// Reports whether no pattern holds a `Test` bit.
fn are_testless(patterns: &Vec<BitPattern>) -> (r: bool)
    ensures
        r == all_testless(pattern_set(patterns@)),
{
    let ghost all = viewed(patterns@);
    let mut i: usize = 0;
    while i < patterns.len()
        invariant
            i <= patterns@.len(),
            all == viewed(patterns@),
            forall|k: int| 0 <= k < i ==> testless(#[trigger] all[k]),
        decreases patterns@.len() - i,
    {
        assert(all[i as int] == patterns@[i as int]@);
        if holds_bit(&patterns[i].bits, Bit::Test) {
            assert(pattern_set(patterns@).contains(all[i as int]));
            return false;
        }
        i += 1;
    }
    assert forall|p: Seq<Bit>| #[trigger] pattern_set(patterns@).contains(p) implies testless(
        p,
    ) by {
        let k = choose|k: int| 0 <= k < all.len() && all[k] == p;
        assert(testless(all[k]));
    }
    true
}

/// Reports whether the fields of a form are narrow enough to draw their values.
fn is_form_drawable(form: &InstructionForm, fixed: &OrderedMap<FieldUses>) -> (r: bool)
    ensures
        r == drawable(form@.fields, fixed@),
{
    let ghost fields = viewed(form.fields@);
    let mut k: usize = 0;
    while k < form.fields.len()
        invariant
            k <= form.fields@.len(),
            fields == viewed(form.fields@),
            forall|j: int|
                0 <= j < k && (#[trigger] fields[j]).merge_mode == MergeMode::Uses
                    && fields[j].name is Some && !fixed@.contains_key(fields[j].name->0)
                    ==> fields[j].bits.len() <= 30,
        decreases form.fields@.len() - k,
    {
        let field = &form.fields[k];
        assert(fields[k as int] == field@);
        if let Some(name) = &field.name {
            if field.merge_mode == MergeMode::Uses && !fixed.contains_key(name.as_str())
                && field.width() > 30 {
                return false;
            }
        }
        k += 1;
    }
    true
}

/// Reports whether a field's uses can mutate.
pub fn is_mutable(uses: &FieldUses, to_none: bool) -> (r: bool)
    ensures
        r == mutable(uses@, to_none),
{
    match uses {
        FieldUses::VariableBits { pattern, .. } => match pattern {
            Some(pattern) => to_none || pattern.len() > 0,
            None => true,
        },
        FieldUses::Uses { patterns, len, .. } => {
            let ordered = patterns.to_vec();
            proof {
                patterns.lemma_rows();
            }
            if !patterns_have_len(patterns, *len) || !are_testless(&ordered) {
                return false;
            }
            let once = OrderedSet::from_vec(ordered);
            let uncovered = uncovered_patterns(patterns, *len);
            proof {
                once.lemma_rows();
                uncovered.lemma_rows();
                assert(once.rows().to_set() =~= patterns@);
                lemma_set_frequency(once.rows());
                lemma_partition_counts(uncovered.rows(), patterns@, *len as nat);
            }
            match (checked_frequencies(&once), checked_frequencies(&uncovered)) {
                (Some(covered), Some(rest)) => covered.checked_add(rest).is_some(),
                _ => false,
            }
        },
    }
}

/// The form can be repaired from the unreduced instruction set under the uses.
pub open spec fn form_repairable(
    rules: RulesV,
    form: FormV,
    uses: Map<Seq<char>, FieldUsesV>,
) -> bool {
    &&& form_usable(form, rules.max_uses())
    &&& form_usable(form, uses)
    &&& all_testless(encodings_of(form, rules.max_uses()))
}

impl<'a> IsaOptimizationManager<'a> {
    /// Reports whether it makes sense to ask for the encodings that a candidate leaves valid: the
    /// uses fit the forms, fixed uses can be compared, and conditions can be evaluated.
    pub fn are_encodings_defined(&self, candidate: &ISACandidate) -> (r: bool)
        requires
            self.wf(),
        ensures
            r == {
                &&& conditions_defined(candidate@, self@.program)
                &&& fixed_mergeable(candidate@.valid_field_uses, self@.fixed)
                &&& listed_usable(self@.instructions, candidate@)
                &&& unrestricted_usable(self@, candidate@)
            },
            r ==> candidate_encodings(self@, candidate@) is Some,
    {
        proof {
            if listed_usable(self@.instructions, candidate@) && unrestricted_usable(
                self@,
                candidate@,
            ) {
                lemma_usable_encodings(self@, candidate@);
            }
        }
        are_conditions_defined(candidate, &self.program) && self.is_fixed_mergeable(candidate)
            && is_candidate_usable(self.isa, candidate) && self.is_unrestricted_usable(candidate)
    }

    fn is_fixed_mergeable(&self, candidate: &ISACandidate) -> (r: bool)
        requires
            self.wf(),
        ensures
            r == fixed_mergeable(candidate@.valid_field_uses, self@.fixed),
    {
        let ghost rows = self.fixed_field_uses.rows();
        let ghost fixed = self@.fixed;
        let ghost uses = candidate@.valid_field_uses;
        let mut i: usize = 0;
        while i < self.fixed_field_uses.len()
            invariant
                rows == self.fixed_field_uses.rows(),
                self.fixed_field_uses.distinct(),
                fixed == self.fixed_field_uses@,
                uses == candidate.valid_field_uses@,
                i <= rows.len(),
                forall|j: int|
                    0 <= j < i && uses.contains_key((#[trigger] rows[j]).0) ==> uses_sized(
                        uses[rows[j].0],
                    ) && uses_sized(rows[j].1),
            decreases rows.len() - i,
        {
            let name = self.fixed_field_uses.name_at(i);
            let wanted = self.fixed_field_uses.value_at(i);
            if let Some(found) = candidate.valid_field_uses.get(name.as_str()) {
                if !is_sized(found) || !is_sized(wanted) {
                    assert(fixed.contains_key(name@) && uses.contains_key(name@));
                    return false;
                }
            }
            i += 1;
        }
        proof {
            self.fixed_field_uses.lemma_rows();
            assert forall|name: Seq<char>| #[trigger]
                fixed.contains_key(name) && uses.contains_key(name) implies uses_sized(
                uses[name],
            ) && uses_sized(fixed[name]) by {
                lemma_map_of_absent(rows, name);
                let k = choose|k: int| 0 <= k < rows.len() && (#[trigger] rows[k]).0 == name;
                lemma_map_of(rows, k);
            }
        }
        true
    }

    fn is_unrestricted_usable(&self, candidate: &ISACandidate) -> (r: bool)
        requires
            self.wf(),
        ensures
            r == unrestricted_usable(self@, candidate@),
    {
        let ghost all = self@.instructions;
        let mut i: usize = 0;
        while i < self.isa.instructions.len()
            invariant
                self.wf(),
                i <= self.isa.instructions@.len(),
                all == self@.instructions,
                forall|k: int, j: int|
                    #![trigger all[k].forms[j]]
                    0 <= k < i && 0 <= j < all[k].forms.len() && form_active(
                        candidate@.active_forms,
                        all[k].name,
                        all[k].forms[j].name,
                    ) && form_active(self@.unrestricted, all[k].name, all[k].forms[j].name) ==> {
                        &&& form_usable(all[k].forms[j], self@.max_uses())
                        &&& fields_width(all[k].forms[j].fields) == all[k].width
                    },
            decreases self.isa.instructions@.len() - i,
        {
            let instruction = &self.isa.instructions[i];
            assert(all[i as int] == instruction@);
            let mut j: usize = 0;
            while j < instruction.forms.len()
                invariant
                    self.wf(),
                    i < self.isa.instructions@.len(),
                    all == self@.instructions,
                    all[i as int] == instruction@,
                    j <= instruction.forms@.len(),
                    forall|k: int|
                        0 <= k < j && form_active(
                            candidate@.active_forms,
                            instruction@.name,
                            (#[trigger] instruction@.forms[k]).name,
                        ) && form_active(
                            self@.unrestricted,
                            instruction@.name,
                            instruction@.forms[k].name,
                        ) ==> {
                            &&& form_usable(instruction@.forms[k], self@.max_uses())
                            &&& fields_width(instruction@.forms[k].fields) == instruction@.width
                        },
                decreases instruction.forms@.len() - j,
            {
                let form = &instruction.forms[j];
                assert(instruction@.forms[j as int] == form@);
                if lists_form(&candidate.active_forms, &instruction.name, &form.name)
                    && lists_form(&self.unrestricted_forms, &instruction.name, &form.name) {
                    let fits_max = is_form_usable(form, &self.max_isa_candidate.valid_field_uses);
                    if !fits_max || form.width() != instruction.width {
                        assert(all[i as int].forms[j as int] == form@);
                        return false;
                    }
                }
                j += 1;
            }
            i += 1;
        }
        true
    }

    /// Reports whether the smallest candidate for the program can be made: the values of each
    /// field have one length, and mandatory forms can be repaired.
    pub fn is_minimum_defined(&self) -> (r: bool)
        requires
            self.wf(),
        ensures
            r == {
                &&& observed_program(self@.program) is Some
                &&& repairable(
                    self@,
                    program_candidate(self@.instructions, self@.program).valid_field_uses,
                )
            },
    {
        let candidate = match ISACandidate::try_from_program(self.isa, &self.program) {
            Some(candidate) => candidate,
            None => {
                return false;
            },
        };
        let ghost all = self@.instructions;
        let ghost uses = candidate@.valid_field_uses;
        let mut i: usize = 0;
        while i < self.isa.instructions.len()
            invariant
                self.wf(),
                uses == candidate@.valid_field_uses,
                i <= self.isa.instructions@.len(),
                all == self@.instructions,
                forall|k: int, j: int|
                    #![trigger all[k].forms[j]]
                    0 <= k < i && self@.mandatory.contains_key(all[k].name) && 0 <= j
                        < all[k].forms.len() ==> form_repairable(self@, all[k].forms[j], uses),
                uses == program_candidate(self@.instructions, self@.program).valid_field_uses,
            decreases self.isa.instructions@.len() - i,
        {
            let instruction = &self.isa.instructions[i];
            assert(all[i as int] == instruction@);
            if self.mandatory_forms.contains_key(instruction.name.as_str()) {
                let mut j: usize = 0;
                while j < instruction.forms.len()
                    invariant
                        self.wf(),
                        uses == candidate@.valid_field_uses,
                        i < self.isa.instructions@.len(),
                        all == self@.instructions,
                        all[i as int] == instruction@,
                        self@.mandatory.contains_key(all[i as int].name),
                        j <= instruction.forms@.len(),
                        forall|k: int|
                            0 <= k < j ==> form_repairable(
                                self@,
                                #[trigger] instruction@.forms[k],
                                uses,
                            ),
                        uses == program_candidate(
                            self@.instructions,
                            self@.program,
                        ).valid_field_uses,
                    decreases instruction.forms@.len() - j,
                {
                    let form = &instruction.forms[j];
                    assert(instruction@.forms[j as int] == form@);
                    if !self.is_form_repairable(form, &candidate.valid_field_uses) {
                        assert(all[i as int].forms[j as int] == form@);
                        return false;
                    }
                    j += 1;
                }
            }
            i += 1;
        }
        true
    }

    /// Reports whether random candidates can be drawn: fields whose values are listed one by one
    /// are narrow enough, unless they belong to forms that keep all encodings.
    pub fn is_random_defined(&self) -> (r: bool)
        requires
            self.wf(),
        ensures
            r == drawable_isa(
                self@.instructions,
                self@.max_uses().restrict(unrestricted_names(self@)),
            ),
    {
        let fixed = self.unrestricted_uses();
        let ghost all = self@.instructions;
        let mut i: usize = 0;
        while i < self.isa.instructions.len()
            invariant
                i <= self.isa.instructions@.len(),
                all == viewed(self.isa.instructions@),
                fixed@ == self@.max_uses().restrict(unrestricted_names(self@)),
                forall|k: int| 0 <= k < i ==> drawable_forms((#[trigger] all[k]).forms, fixed@),
            decreases self.isa.instructions@.len() - i,
        {
            let instruction = &self.isa.instructions[i];
            let ghost forms = viewed(instruction.forms@);
            assert(all[i as int] == instruction@);
            let mut j: usize = 0;
            while j < instruction.forms.len()
                invariant
                    i < self.isa.instructions@.len(),
                    all == viewed(self.isa.instructions@),
                    all[i as int] == instruction@,
                    forms == viewed(instruction.forms@),
                    fixed@ == self@.max_uses().restrict(unrestricted_names(self@)),
                    j <= instruction.forms@.len(),
                    forall|k: int| 0 <= k < j ==> drawable((#[trigger] forms[k]).fields, fixed@),
                decreases instruction.forms@.len() - j,
            {
                assert(forms[j as int] == instruction.forms@[j as int]@);
                if !is_form_drawable(&instruction.forms[j], &fixed) {
                    assert(!drawable_forms(all[i as int].forms, fixed@));
                    return false;
                }
                j += 1;
            }
            i += 1;
        }
        true
    }

    /// Reports whether the drawn fields that the search may restrict can mutate.
    pub fn are_fields_mutable(&self, candidate: &ISACandidate, draws: &Vec<FieldDraws>) -> (r: bool)
        requires
            candidate.wf(),
            draws@.len() == candidate.valid_field_uses.rows().len(),
        ensures
            r == fields_mutable(
                self@,
                row_names(candidate.valid_field_uses.rows()),
                draws@,
                candidate@.valid_field_uses,
            ),
    {
        let ghost rows = candidate.valid_field_uses.rows();
        let ghost names = row_names(rows);
        let ghost uses = candidate@.valid_field_uses;
        let mut i: usize = 0;
        while i < draws.len()
            invariant
                rows == candidate.valid_field_uses.rows(),
                candidate.valid_field_uses.distinct(),
                names == row_names(rows),
                uses == candidate.valid_field_uses@,
                draws@.len() == rows.len(),
                i <= rows.len(),
                forall|k: int|
                    0 <= k < i && draws@[k].mutates && selectable(self@, names[k]) ==> mutable(
                        uses[#[trigger] names[k]],
                        draws@[k].to_none,
                    ),
            decreases rows.len() - i,
        {
            let name = candidate.valid_field_uses.name_at(i);
            let listed = candidate.valid_field_uses.value_at(i);
            assert(names[i as int] == name@);
            if draws[i].mutates && self.field_selectable_for_ga_restriction(name) && !is_mutable(
                listed,
                draws[i].to_none,
            ) {
                assert(!mutable(uses[names[i as int]], draws@[i as int].to_none));
                return false;
            }
            i += 1;
        }
        true
    }

    fn is_form_repairable(&self, form: &InstructionForm, uses: &OrderedMap<FieldUses>) -> (r: bool)
        requires
            self.wf(),
        ensures
            r == form_repairable(self@, form@, uses@),
    {
        if !is_form_usable(form, &self.max_isa_candidate.valid_field_uses) || !is_form_usable(
            form,
            uses,
        ) {
            return false;
        }
        proof {
            lemma_fits_encodable(form@, self@.max_uses());
        }
        let encodings = form.fields_to_encodings(&self.max_isa_candidate.valid_field_uses);
        are_testless(&encodings)
    }
}

} // verus!
