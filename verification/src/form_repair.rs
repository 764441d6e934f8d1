//! Repair of candidates that leave a mandatory form without any encoding.
use vstd::prelude::*;

use crate::bit::{bit_accepts, pattern_matches, Bit, BitPattern};
use crate::collections::{viewed, OrderedSet, Value};
use crate::encodings::{encodings_of, pattern_set};
use crate::field_uses::{all_of_len, FieldUses, FieldUsesV};
use crate::form_fit::{
    fits, lemma_fits_encodable, lemma_isa_lists_fields, lists_fields, plain_constants, uses_fit,
};
use crate::isa_candidate::{
    add_form, blend, blended, form_active, has_variable, lists_form, make_uses, observed_program,
    program_candidate, supports, uses_of_pattern, value_allowed, with_form, CandidateV,
    ISACandidate,
};
use crate::isa_optimization::{IsaOptimizationManager, RulesV};
use crate::isa_specification::{
    fields_width, lemma_width_prefix, DecodedV, FieldV, FormV, Instruction, InstructionForm,
    InstructionV,
};
use crate::pattern_cover::{all_testless, testless};
use crate::protected_features::{opened_uses, restored};

verus! {

/// Bits with variable ones taken as zero.
pub open spec fn lowered(bits: Seq<Bit>) -> Seq<Bit> {
    Seq::new(
        bits.len(),
        |i: int|
            if bits[i] == Bit::Var {
                Bit::Low
            } else {
                bits[i]
            },
    )
}

/// What an encoding holds in the field at `k`, with variable bits taken as zero.
pub open spec fn repair_bits(form: FormV, k: int, encoding: Seq<Bit>) -> Seq<Bit> {
    let offset = fields_width(form.fields.take(k)) as int;
    lowered(encoding.subrange(offset, offset + form.fields[k].bits.len()))
}

/// Uses that also allow what other uses allow.
///
/// `None` where the two are merged in different ways or have different lengths.
pub open spec fn joined_uses(existing: FieldUsesV, repair: FieldUsesV) -> Option<FieldUsesV> {
    match (existing, repair) {
        (
            FieldUsesV::Uses { name, patterns, len },
            FieldUsesV::Uses { patterns: more, len: other_len, .. },
        ) => if len == other_len {
            Some(FieldUsesV::Uses { name, patterns: patterns.union(more), len })
        } else {
            None
        },
        (
            FieldUsesV::VariableBits { name, pattern, len },
            FieldUsesV::VariableBits { pattern: Some(more), len: other_len, .. },
        ) => if len == other_len {
            Some(
                FieldUsesV::VariableBits {
                    name,
                    pattern: match pattern {
                        Some(old_bits) => Some(blended(old_bits, more)),
                        None => Some(more),
                    },
                    len,
                },
            )
        } else {
            None
        },
        _ => None,
    }
}

/// The uses that also allow a field to hold a value.
pub open spec fn with_repair(
    uses: Map<Seq<char>, FieldUsesV>,
    field: FieldV,
    value: Seq<Bit>,
) -> Map<Seq<char>, FieldUsesV> {
    match field.name {
        None => uses,
        Some(name) => {
            let repair = uses_of_pattern(name, value, field.merge_mode, true);
            if uses.contains_key(name) {
                uses.insert(name, joined_uses(uses[name], repair)->0)
            } else {
                uses.insert(name, repair)
            }
        },
    }
}

/// The uses that also allow the first fields of a form to hold what chosen encodings hold there.
pub open spec fn repaired_uses(
    uses: Map<Seq<char>, FieldUsesV>,
    form: FormV,
    choices: Seq<Seq<Bit>>,
) -> Map<Seq<char>, FieldUsesV>
    decreases choices.len(),
{
    if choices.len() == 0 {
        uses
    } else {
        let k = choices.len() - 1;
        with_repair(
            repaired_uses(uses, form, choices.drop_last()),
            form.fields[k],
            repair_bits(form, k, choices.last()),
        )
    }
}

/// For each field of the form an encoding of the set.
pub open spec fn choices_from(
    choices: Seq<Seq<Bit>>,
    form: FormV,
    encodings: Set<Seq<Bit>>,
) -> bool {
    &&& choices.len() == form.fields.len()
    &&& forall|k: int| 0 <= k < choices.len() ==> encodings.contains(#[trigger] choices[k])
}

/// Repairing a form lists it, and lets its fields hold what encodings of the unreduced
/// instruction set hold there; which encodings is left open.
pub open spec fn form_repaired(
    rules: RulesV,
    instruction: Seq<char>,
    form: FormV,
    before: CandidateV,
    after: CandidateV,
) -> bool {
    let full = encodings_of(form, rules.max_uses());
    &&& after.active_forms == with_form(before.active_forms, instruction, form.name)
    &&& if full == Set::<Seq<Bit>>::empty() {
        after.valid_field_uses == before.valid_field_uses
    } else {
        exists|choices: Seq<Seq<Bit>>|
            choices_from(choices, form, full) && after.valid_field_uses
                == #[trigger] repaired_uses(before.valid_field_uses, form, choices)
    }
}

/// The form is listed and has an encoding.
pub open spec fn has_encoding(candidate: CandidateV, instruction: Seq<char>, form: FormV) -> bool {
    form_active(candidate.active_forms, instruction, form.name) && encodings_of(
        form,
        candidate.valid_field_uses,
    ) != Set::<Seq<Bit>>::empty()
}

/// Some listed form of the instruction has an encoding.
pub open spec fn instruction_encoded(candidate: CandidateV, instruction: InstructionV) -> bool {
    exists|j: int|
        0 <= j < instruction.forms.len() && #[trigger] has_encoding(
            candidate,
            instruction.name,
            instruction.forms[j],
        )
}

/// The first listed form from `j` on, else the first form.
pub open spec fn form_to_repair(
    active: Map<Seq<char>, Set<Seq<char>>>,
    instruction: InstructionV,
    j: int,
) -> int
    decreases instruction.forms.len() - j,
{
    if j < 0 || j >= instruction.forms.len() {
        0
    } else if form_active(active, instruction.name, instruction.forms[j].name) {
        j
    } else {
        form_to_repair(active, instruction, j + 1)
    }
}

/// The first form of the name from `j` on.
pub open spec fn form_named(forms: Seq<FormV>, name: Seq<char>, j: int) -> Option<int>
    decreases forms.len() - j,
{
    if j < 0 || j >= forms.len() {
        None
    } else if forms[j].name == name {
        Some(j)
    } else {
        form_named(forms, name, j + 1)
    }
}

/// The form of the name is repaired if it has no encoding.
pub open spec fn name_served(
    rules: RulesV,
    instruction: InstructionV,
    name: Seq<char>,
    before: CandidateV,
    after: CandidateV,
) -> bool {
    match form_named(instruction.forms, name, 0) {
        None => after == before,
        Some(j) => if has_encoding(before, instruction.name, instruction.forms[j]) {
            after == before
        } else {
            form_repaired(rules, instruction.name, instruction.forms[j], before, after)
        },
    }
}

/// The forms of the first `n` names are repaired one after the other.
pub open spec fn names_served(
    rules: RulesV,
    instruction: InstructionV,
    names: Seq<Seq<char>>,
    n: nat,
    before: CandidateV,
    after: CandidateV,
) -> bool
    decreases n,
{
    if n == 0 {
        after == before
    } else {
        exists|between: CandidateV|
            #[trigger] name_served(rules, instruction, names[n - 1], between, after)
                && names_served(rules, instruction, names, (n - 1) as nat, before, between)
    }
}

/// The row lists the set, each value once.
pub open spec fn lists_once(names: Seq<Seq<char>>, set: Set<Seq<char>>) -> bool {
    names.no_duplicates() && names.to_set() == set
}

/// The mandatory forms of an instruction are repaired where they have no encoding.
///
/// With no form named one encoding is enough: the first listed form, else the first form, is
/// repaired. The order in which named forms are taken is left open.
pub open spec fn instruction_served(
    rules: RulesV,
    instruction: InstructionV,
    before: CandidateV,
    after: CandidateV,
) -> bool {
    if !rules.mandatory.contains_key(instruction.name) {
        after == before
    } else if rules.mandatory[instruction.name] == Set::<Seq<char>>::empty() {
        if instruction_encoded(before, instruction) || instruction.forms.len() == 0 {
            after == before
        } else {
            form_repaired(
                rules,
                instruction.name,
                instruction.forms[form_to_repair(before.active_forms, instruction, 0)],
                before,
                after,
            )
        }
    } else {
        exists|names: Seq<Seq<char>>|
            lists_once(names, rules.mandatory[instruction.name]) && #[trigger] names_served(
                rules,
                instruction,
                names,
                names.len(),
                before,
                after,
            )
    }
}

/// The mandatory forms of the first `n` instructions are repaired, one instruction after the
/// other.
pub open spec fn mandatory_served(
    rules: RulesV,
    n: nat,
    before: CandidateV,
    after: CandidateV,
) -> bool
    decreases n,
{
    if n == 0 {
        after == before
    } else {
        exists|between: CandidateV|
            #[trigger] instruction_served(rules, rules.instructions[n - 1], between, after)
                && mandatory_served(rules, (n - 1) as nat, before, between)
    }
}

/// The form can be repaired in any candidate whose uses fit it.
pub open spec fn repairable_form(rules: RulesV, form: FormV) -> bool {
    &&& plain_constants(form)
    &&& fields_width(form.fields) <= usize::MAX
    &&& fits(form, rules.max_uses())
    &&& lists_fields(form, rules.max_uses())
    &&& all_testless(encodings_of(form, rules.max_uses()))
}

/// The forms of an instruction can be repaired in the candidate.
pub open spec fn repairable_instruction(
    rules: RulesV,
    instruction: InstructionV,
    uses: Map<Seq<char>, FieldUsesV>,
) -> bool {
    forall|j: int|
        0 <= j < instruction.forms.len() ==> repairable_form(
            rules,
            #[trigger] instruction.forms[j],
        ) && fits(instruction.forms[j], uses)
}

/// Unnamed fields are constants, the uses of named ones fit them, and no encoding has a `Test`
/// bit, in all forms of instructions with mandatory forms.
pub open spec fn repairable(rules: RulesV, uses: Map<Seq<char>, FieldUsesV>) -> bool {
    forall|i: int, j: int|
        #![trigger rules.instructions[i].forms[j]]
        0 <= i < rules.instructions.len() && rules.mandatory.contains_key(
            rules.instructions[i].name,
        ) && 0 <= j < rules.instructions[i].forms.len() ==> {
            let form = rules.instructions[i].forms[j];
            &&& plain_constants(form)
            &&& fields_width(form.fields) <= usize::MAX
            &&& fits(form, rules.max_uses())
            &&& all_testless(encodings_of(form, rules.max_uses()))
            &&& fits(form, uses)
        }
}

pub(crate) proof fn lemma_repairable(rules: RulesV, uses: Map<Seq<char>, FieldUsesV>, i: int)
    requires
        repairable(rules, uses),
        0 <= i < rules.instructions.len(),
        rules.mandatory.contains_key(rules.instructions[i].name),
    ensures
        repairable_instruction(rules, rules.instructions[i], uses),
{
    assert forall|j: int| 0 <= j < rules.instructions[i].forms.len() implies repairable_form(
        rules,
        #[trigger] rules.instructions[i].forms[j],
    ) by {
        lemma_isa_lists_fields(rules.instructions, true, i, j);
    }
}

/// A repaired field's uses still fit whatever they fitted before.
pub(crate) proof fn lemma_repair_fits(
    rules: RulesV,
    form: FormV,
    k: int,
    value: Seq<Bit>,
    uses: Map<Seq<char>, FieldUsesV>,
    other: FormV,
)
    requires
        repairable_form(rules, form),
        fits(form, uses),
        0 <= k < form.fields.len(),
        value.len() == form.fields[k].bits.len(),
        form.fields[k].bits.len() <= usize::MAX,
        repairable_form(rules, other),
        fits(other, uses),
    ensures
        fits(other, with_repair(uses, form.fields[k], value)),
        form.fields[k].name is Some && uses.contains_key(form.fields[k].name->0) ==> joined_uses(
            uses[form.fields[k].name->0],
            uses_of_pattern(form.fields[k].name->0, value, form.fields[k].merge_mode, true),
        ) is Some,
{
    let field = form.fields[k];
    let max = rules.max_uses();
    if let Some(name) = field.name {
        let after = with_repair(uses, field, value);
        assert(max.contains_key(name) && uses_fit(max[name], field));
        assert(uses_fit(after[name], field)) by {
            if uses.contains_key(name) {
                assert(uses_fit(uses[name], field));
                match uses[name] {
                    FieldUsesV::Uses { patterns, len, .. } => {
                        assert(all_of_len(patterns.union(set![value]), len as nat));
                    },
                    FieldUsesV::VariableBits { .. } => {},
                }
            }
        }
        assert forall|j: int| 0 <= j < other.fields.len() && (
        #[trigger] other.fields[j]).name is Some && after.contains_key(
            other.fields[j].name->0,
        ) implies uses_fit(after[other.fields[j].name->0], other.fields[j]) by {
            if other.fields[j].name->0 == name {
                assert(uses_fit(max[name], other.fields[j]));
            }
        }
    }
}

/// Takes variable bits as zero.
fn lower_bits(bits: &Vec<Bit>, from: usize, to: usize) -> (r: BitPattern)
    requires
        from <= to <= bits@.len(),
        testless(bits@),
    ensures
        r@ == lowered(bits@.subrange(from as int, to as int)),
{
    let ghost wanted = lowered(bits@.subrange(from as int, to as int));
    let mut lowered_bits: Vec<Bit> = Vec::new();
    let mut i: usize = from;
    while i < to
        invariant
            from <= i <= to <= bits@.len(),
            wanted == lowered(bits@.subrange(from as int, to as int)),
            lowered_bits@ == wanted.take(i - from),
        decreases to - i,
    {
        let bit = if bits[i] == Bit::Var {
            Bit::Low
        } else {
            bits[i]
        };
        lowered_bits.push(bit);
        i += 1;
        assert(lowered_bits@ =~= wanted.take(i - from));
    }
    assert(lowered_bits@ =~= wanted);
    BitPattern { bits: lowered_bits }
}

/// What an encoding holds in the field at `k`, with variable bits taken as zero.
pub fn repair_value(form: &InstructionForm, k: usize, encoding: &BitPattern) -> (r: BitPattern)
    requires
        k < form@.fields.len(),
        encoding@.len() == fields_width(form@.fields),
        testless(encoding@),
    ensures
        r@ == repair_bits(form@, k as int, encoding@),
        r@.len() == form@.fields[k as int].bits.len(),
{
    let ghost fields = form@.fields;
    let mut offset: usize = 0;
    let mut i: usize = 0;
    assert(fields.take(0) =~= Seq::empty());
    proof {
        vstd::std_specs::vec::axiom_spec_len(&encoding.bits);
        lemma_width_prefix(fields, k as int);
    }
    while i < k
        invariant
            fields == form@.fields,
            i <= k < fields.len(),
            fields_width(fields) <= usize::MAX,
            offset == fields_width(fields.take(i as int)),
        decreases k - i,
    {
        proof {
            lemma_width_prefix(fields, i + 1);
            assert(fields.take(i + 1).drop_last() =~= fields.take(i as int));
            assert(fields.take(i + 1).last() == form.fields@[i as int]@);
        }
        offset = offset + form.fields[i].width();
        i += 1;
    }
    proof {
        lemma_width_prefix(fields, k + 1);
        assert(fields.take(k + 1).drop_last() =~= fields.take(k as int));
        assert(fields.take(k + 1).last() == form.fields@[k as int]@);
    }
    let end = offset + form.fields[k].width();
    lower_bits(&encoding.bits, offset, end)
}

/// Lets uses also allow what other uses allow.
pub fn merge_repair_field_use(existing: &FieldUses, repair: &FieldUses) -> (r: FieldUses)
    requires
        joined_uses(existing@, repair@) is Some,
    ensures
        joined_uses(existing@, repair@) == Some(r@),
{
    match (existing, repair) {
        (
            FieldUses::Uses { name, patterns, len },
            FieldUses::Uses { patterns: more, .. },
        ) => {
            let mut all = patterns.duplicate();
            all.extend(more);
            FieldUses::Uses { name: name.clone(), patterns: all, len: *len }
        },
        (
            FieldUses::VariableBits { name, pattern, len },
            FieldUses::VariableBits { pattern: Some(more), .. },
        ) => {
            let joined = match pattern {
                Some(old_bits) => blend(old_bits, more),
                None => more.clone(),
            };
            FieldUses::VariableBits { name: name.clone(), pattern: Some(joined), len: *len }
        },
        _ => existing.duplicate(),
    }
}

impl<'a> IsaOptimizationManager<'a> {
    /// A value for the field at `k` that an encoding of the unreduced instruction set holds.
    pub fn repair_value_for_field(&self, form: &InstructionForm, k: usize) -> (r: Option<
        BitPattern,
    >)
        requires
            self.wf(),
            repairable_form(self@, form@),
            k < form@.fields.len(),
        ensures
            match r {
                Some(value) => exists|encoding: Seq<Bit>|
                    #[trigger] encodings_of(form@, self@.max_uses()).contains(encoding) && value@
                        == repair_bits(form@, k as int, encoding) && value@.len()
                        == form@.fields[k as int].bits.len(),
                None => encodings_of(form@, self@.max_uses()) == Set::<Seq<Bit>>::empty(),
            },
    {
        proof {
            lemma_fits_encodable(form@, self@.max_uses());
        }
        let encodings = form.fields_to_encodings(&self.max_isa_candidate.valid_field_uses);
        let ghost full = encodings_of(form@, self@.max_uses());
        if encodings.len() == 0 {
            assert(pattern_set(encodings@) =~= Set::empty());
            return None;
        }
        proof {
            assert(viewed(encodings@)[0] == encodings@[0]@);
            assert(pattern_set(encodings@).contains(encodings@[0]@));
        }
        Some(repair_value(form, k, &encodings[0]))
    }

    /// Lists a form and lets its fields hold what some encoding holds there.
    pub fn repair_form(
        &self,
        candidate: &mut ISACandidate,
        instruction_name: &String,
        form: &InstructionForm,
    )
        requires
            self.wf(),
            repairable_form(self@, form@),
            fits(form@, old(candidate)@.valid_field_uses),
        ensures
            form_repaired(
                self@,
                instruction_name@,
                form@,
                old(candidate)@,
                final(candidate)@,
            ),
            forall|other: FormV|
                repairable_form(self@, other) && fits(other, old(candidate)@.valid_field_uses)
                    ==> #[trigger] fits(other, final(candidate)@.valid_field_uses),
            old(candidate).wf() ==> final(candidate).wf(),
    {
        let ghost before = candidate@;
        let ghost full = encodings_of(form@, self@.max_uses());
        let ghost mut choices: Seq<Seq<Bit>> = seq![];
        add_form(&mut candidate.active_forms, instruction_name, &form.name);
        let mut k: usize = 0;
        while k < form.fields.len()
            invariant
                self.wf(),
                repairable_form(self@, form@),
                full == encodings_of(form@, self@.max_uses()),
                before == old(candidate)@,
                old(candidate).wf() ==> candidate.wf(),
                candidate.active_forms@ == with_form(
                    before.active_forms,
                    instruction_name@,
                    form@.name,
                ),
                k <= form@.fields.len(),
                choices.len() == k,
                full == Set::<Seq<Bit>>::empty() ==> candidate.valid_field_uses@
                    == before.valid_field_uses,
                full != Set::<Seq<Bit>>::empty() ==> candidate.valid_field_uses@ == repaired_uses(
                    before.valid_field_uses,
                    form@,
                    choices,
                ) && forall|j: int| 0 <= j < k ==> full.contains(#[trigger] choices[j]),
                fits(form@, candidate.valid_field_uses@),
                forall|other: FormV|
                    repairable_form(self@, other) && fits(other, before.valid_field_uses)
                        ==> #[trigger] fits(other, candidate.valid_field_uses@),
            decreases form@.fields.len() - k,
        {
            let field = &form.fields[k];
            let ghost uses = candidate.valid_field_uses@;
            assert(field@ == form@.fields[k as int]);
            let mut picked: Ghost<Seq<Bit>> = Ghost(full.choose());
            if let Some(name) = &field.name {
                if let Some(value) = self.repair_value_for_field(form, k) {
                    let ghost chosen = choose|encoding: Seq<Bit>|
                        #[trigger] full.contains(encoding) && value@ == repair_bits(
                            form@,
                            k as int,
                            encoding,
                        ) && value@.len() == form@.fields[k as int].bits.len();
                    proof {
                        picked@ = chosen;
                        lemma_repair_fits(self@, form@, k as int, value@, uses, form@);
                        assert forall|other: FormV|
                            repairable_form(self@, other) && fits(
                                other,
                                before.valid_field_uses,
                            ) implies #[trigger] fits(
                            other,
                            with_repair(uses, field@, value@),
                        ) by {
                            lemma_repair_fits(self@, form@, k as int, value@, uses, other);
                        }
                    }
                    let repair = make_uses(name, &value, field.merge_mode, true);
                    let updated = match candidate.valid_field_uses.get(name.as_str()) {
                        Some(existing) => merge_repair_field_use(existing, &repair),
                        None => repair,
                    };
                    candidate.valid_field_uses.insert(name.clone(), updated);
                    assert(candidate.valid_field_uses@ == with_repair(uses, field@, value@));
                }
            }
            proof {
                if full != Set::<Seq<Bit>>::empty() {
                    assert(full.contains(picked@)) by {
                        if field@.name is None {
                            assert(exists|e: Seq<Bit>| full.contains(e)) by {
                                if forall|e: Seq<Bit>| !full.contains(e) {
                                    assert(full =~= Set::empty());
                                }
                            }
                        }
                    }
                }
                let longer = choices.push(picked@);
                assert(longer.drop_last() =~= choices);
                assert(longer.last() == picked@);
                choices = longer;
            }
            k += 1;
        }
        proof {
            if full != Set::<Seq<Bit>>::empty() {
                assert(choices_from(choices, form@, full));
            }
        }
    }

    /// Reports whether the form is listed and has an encoding.
    fn form_has_encoding(
        &self,
        candidate: &ISACandidate,
        instruction_name: &String,
        form: &InstructionForm,
    ) -> (r: bool)
        requires
            plain_constants(form@),
            fields_width(form@.fields) <= usize::MAX,
            fits(form@, candidate@.valid_field_uses),
        ensures
            r == has_encoding(candidate@, instruction_name@, form@),
    {
        if !lists_form(&candidate.active_forms, instruction_name, &form.name) {
            return false;
        }
        proof {
            lemma_fits_encodable(form@, candidate@.valid_field_uses);
        }
        let encodings = form.fields_to_encodings(&candidate.valid_field_uses);
        proof {
            if encodings@.len() == 0 {
                assert(pattern_set(encodings@) =~= Set::empty());
            } else {
                assert(viewed(encodings@)[0] == encodings@[0]@);
                assert(pattern_set(encodings@).contains(encodings@[0]@));
            }
        }
        encodings.len() != 0
    }

    /// Reports whether some listed form of the instruction has an encoding.
    pub fn instruction_has_active_encoding(
        &self,
        candidate: &ISACandidate,
        instruction: &Instruction,
    ) -> (r: bool)
        requires
            forall|j: int|
                0 <= j < instruction@.forms.len() ==> plain_constants(
                    #[trigger] instruction@.forms[j],
                ) && fields_width(instruction@.forms[j].fields) <= usize::MAX && fits(
                    instruction@.forms[j],
                    candidate@.valid_field_uses,
                ),
        ensures
            r == instruction_encoded(candidate@, instruction@),
    {
        let ghost forms = instruction@.forms;
        let mut j: usize = 0;
        while j < instruction.forms.len()
            invariant
                forms == viewed(instruction.forms@),
                forms == instruction@.forms,
                j <= forms.len(),
                forall|j: int|
                    0 <= j < instruction@.forms.len() ==> plain_constants(
                        #[trigger] instruction@.forms[j],
                    ) && fields_width(instruction@.forms[j].fields) <= usize::MAX && fits(
                        instruction@.forms[j],
                        candidate@.valid_field_uses,
                    ),
                forall|i: int|
                    0 <= i < j ==> !#[trigger] has_encoding(candidate@, instruction@.name, forms[i]),
            decreases forms.len() - j,
        {
            assert(instruction.forms@[j as int]@ == instruction@.forms[j as int]);
            if self.form_has_encoding(candidate, &instruction.name, &instruction.forms[j]) {
                assert(has_encoding(candidate@, instruction@.name, forms[j as int]));
                return true;
            }
            j += 1;
        }
        false
    }
}

/// The first listed form, else the first form.
fn find_form_to_repair(candidate: &ISACandidate, instruction: &Instruction) -> (r: usize)
    ensures
        r == form_to_repair(candidate@.active_forms, instruction@, 0),
        instruction@.forms.len() > 0 ==> r < instruction@.forms.len(),
{
    let ghost forms = instruction@.forms;
    let mut j: usize = 0;
    while j < instruction.forms.len()
        invariant
            forms == viewed(instruction.forms@),
            forms == instruction@.forms,
            j <= forms.len(),
            form_to_repair(candidate@.active_forms, instruction@, 0) == form_to_repair(
                candidate@.active_forms,
                instruction@,
                j as int,
            ),
        decreases forms.len() - j,
    {
        assert(instruction.forms@[j as int]@ == forms[j as int]);
        if lists_form(&candidate.active_forms, &instruction.name, &instruction.forms[j].name) {
            return j;
        }
        j += 1;
    }
    0
}

/// The first form of the name.
fn find_form_named(instruction: &Instruction, name: &String) -> (r: Option<usize>)
    ensures
        match r {
            Some(j) => form_named(instruction@.forms, name@, 0) == Some(j as int) && j
                < instruction@.forms.len(),
            None => form_named(instruction@.forms, name@, 0) is None,
        },
{
    let ghost forms = instruction@.forms;
    let mut j: usize = 0;
    while j < instruction.forms.len()
        invariant
            forms == viewed(instruction.forms@),
            forms == instruction@.forms,
            j <= forms.len(),
            form_named(forms, name@, 0) == form_named(forms, name@, j as int),
        decreases forms.len() - j,
    {
        assert(instruction.forms@[j as int]@ == forms[j as int]);
        if instruction.forms[j].name == *name {
            return Some(j);
        }
        j += 1;
    }
    None
}

/// Whatever could be repaired before can be repaired after.
pub open spec fn fits_kept(
    rules: RulesV,
    before: Map<Seq<char>, FieldUsesV>,
    after: Map<Seq<char>, FieldUsesV>,
) -> bool {
    forall|other: FormV|
        repairable_form(rules, other) && fits(other, before) ==> #[trigger] fits(other, after)
}

pub(crate) proof fn lemma_fits_kept(
    rules: RulesV,
    before: Map<Seq<char>, FieldUsesV>,
    after: Map<Seq<char>, FieldUsesV>,
)
    requires
        fits_kept(rules, before, after),
    ensures
        repairable(rules, before) ==> repairable(rules, after),
        forall|instruction: InstructionV| #[trigger]
            repairable_instruction(rules, instruction, before) ==> repairable_instruction(
                rules,
                instruction,
                after,
            ),
{
    if repairable(rules, before) {
        assert forall|i: int, j: int|
            #![trigger rules.instructions[i].forms[j]]
            0 <= i < rules.instructions.len() && rules.mandatory.contains_key(
                rules.instructions[i].name,
            ) && 0 <= j < rules.instructions[i].forms.len() implies fits(
            rules.instructions[i].forms[j],
            after,
        ) by {
            lemma_isa_lists_fields(rules.instructions, true, i, j);
            assert(repairable_form(rules, rules.instructions[i].forms[j]));
        }
    }
    assert forall|instruction: InstructionV| #[trigger]
        repairable_instruction(rules, instruction, before) implies repairable_instruction(
        rules,
        instruction,
        after,
    ) by {
        assert forall|j: int| 0 <= j < instruction.forms.len() implies repairable_form(
            rules,
            #[trigger] instruction.forms[j],
        ) && fits(instruction.forms[j], after) by {}
    }
}

impl<'a> IsaOptimizationManager<'a> {
    /// Repairs the form of a name if it has no encoding.
    fn serve_name(&self, candidate: &mut ISACandidate, instruction: &Instruction, name: &String)
        requires
            self.wf(),
            repairable_instruction(self@, instruction@, old(candidate)@.valid_field_uses),
        ensures
            name_served(self@, instruction@, name@, old(candidate)@, final(candidate)@),
            fits_kept(
                self@,
                old(candidate)@.valid_field_uses,
                final(candidate)@.valid_field_uses,
            ),
            old(candidate).wf() ==> final(candidate).wf(),
    {
        if let Some(j) = find_form_named(instruction, name) {
            let form = &instruction.forms[j];
            assert(form@ == instruction@.forms[j as int]);
            if !self.form_has_encoding(candidate, &instruction.name, form) {
                self.repair_form(candidate, &instruction.name, form);
            }
        }
    }

    /// Repairs the forms of several names, each if it has no encoding.
    fn serve_names(
        &self,
        candidate: &mut ISACandidate,
        instruction: &Instruction,
        names: &OrderedSet<String>,
    )
        requires
            self.wf(),
            repairable_instruction(self@, instruction@, old(candidate)@.valid_field_uses),
        ensures
            names_served(
                self@,
                instruction@,
                names.rows(),
                names.rows().len(),
                old(candidate)@,
                final(candidate)@,
            ),
            fits_kept(
                self@,
                old(candidate)@.valid_field_uses,
                final(candidate)@.valid_field_uses,
            ),
            old(candidate).wf() ==> final(candidate).wf(),
    {
        let ghost rows = names.rows();
        let ghost before = candidate@;
        let mut i: usize = 0;
        while i < names.len()
            invariant
                self.wf(),
                rows == names.rows(),
                i <= rows.len(),
                before == old(candidate)@,
                repairable_instruction(self@, instruction@, before.valid_field_uses),
                names_served(self@, instruction@, rows, i as nat, before, candidate@),
                fits_kept(self@, before.valid_field_uses, candidate@.valid_field_uses),
                old(candidate).wf() ==> candidate.wf(),
            decreases rows.len() - i,
        {
            let ghost between = candidate@;
            proof {
                lemma_fits_kept(self@, before.valid_field_uses, between.valid_field_uses);
            }
            self.serve_name(candidate, instruction, names.get(i));
            i += 1;
            proof {
                let n = i as nat;
                assert(name_served(self@, instruction@, rows[n - 1], between, candidate@));
                assert(names_served(self@, instruction@, rows, (n - 1) as nat, before, between));
            }
        }
    }

    /// Repairs the mandatory forms of an instruction that have no encoding.
    fn serve_instruction(&self, candidate: &mut ISACandidate, instruction: &Instruction)
        requires
            self.wf(),
            self@.mandatory.contains_key(instruction@.name) ==> repairable_instruction(
                self@,
                instruction@,
                old(candidate)@.valid_field_uses,
            ),
        ensures
            instruction_served(self@, instruction@, old(candidate)@, final(candidate)@),
            fits_kept(
                self@,
                old(candidate)@.valid_field_uses,
                final(candidate)@.valid_field_uses,
            ),
            old(candidate).wf() ==> final(candidate).wf(),
    {
        if let Some(mandatory_forms) = self.mandatory_forms.get(instruction.name.as_str()) {
            if mandatory_forms.is_empty() {
                if self.instruction_has_active_encoding(candidate, instruction)
                    || instruction.forms.len() == 0 {
                    return ;
                }
                let j = find_form_to_repair(candidate, instruction);
                let form = &instruction.forms[j];
                assert(form@ == instruction@.forms[j as int]);
                self.repair_form(candidate, &instruction.name, form);
            } else {
                let names = OrderedSet::from_vec(mandatory_forms.to_vec());
                proof {
                    names.lemma_rows();
                    mandatory_forms.lemma_rows();
                }
                self.serve_names(candidate, instruction, &names);
                assert(lists_once(names.rows(), mandatory_forms@));
            }
        }
    }

    /// Repairs all mandatory forms that have no encoding.
    pub fn repair_mandatory_forms(&self, candidate: &mut ISACandidate)
        requires
            self.wf(),
            repairable(self@, old(candidate)@.valid_field_uses),
        ensures
            mandatory_served(
                self@,
                self@.instructions.len(),
                old(candidate)@,
                final(candidate)@,
            ),
            old(candidate).wf() ==> final(candidate).wf(),
    {
        let ghost instructions = self@.instructions;
        let ghost before = candidate@;
        let mut i: usize = 0;
        while i < self.isa.instructions.len()
            invariant
                self.wf(),
                instructions == self@.instructions,
                i <= instructions.len(),
                before == old(candidate)@,
                repairable(self@, before.valid_field_uses),
                mandatory_served(self@, i as nat, before, candidate@),
                fits_kept(self@, before.valid_field_uses, candidate@.valid_field_uses),
                old(candidate).wf() ==> candidate.wf(),
            decreases instructions.len() - i,
        {
            let instruction = &self.isa.instructions[i];
            let ghost between = candidate@;
            assert(instruction@ == instructions[i as int]);
            proof {
                lemma_fits_kept(self@, before.valid_field_uses, between.valid_field_uses);
                if self@.mandatory.contains_key(instruction@.name) {
                    lemma_repairable(self@, between.valid_field_uses, i as int);
                }
            }
            self.serve_instruction(candidate, instruction);
            i += 1;
            proof {
                let n = i as nat;
                assert(instruction_served(
                    self@,
                    self@.instructions[n - 1],
                    between,
                    candidate@,
                ));
                assert(mandatory_served(self@, (n - 1) as nat, before, between));
            }
        }
    }

    /// The smallest candidate that runs the program and keeps mandatory, unrestricted and
    /// unselectable features.
    pub fn minimum_isa_features_for_program(&self) -> (r: ISACandidate)
        requires
            self.wf(),
            observed_program(self@.program) is Some,
            repairable(
                self@,
                program_candidate(self@.instructions, self@.program).valid_field_uses,
            ),
        ensures
            is_minimum(self@, r@),
            r.wf(),
    {
        let mut candidate = ISACandidate::from_program(self.isa, &self.program);
        self.repair_mandatory_forms(&mut candidate);
        let ghost repaired = candidate@;
        self.restore_unrestricted_features(&mut candidate);
        self.restore_unmutatable_fields(&mut candidate);
        assert(candidate@ == protected(self@, repaired));
        candidate
    }
}

/// The candidate with unrestricted features put back and unselectable fields opened.
pub open spec fn protected(rules: RulesV, candidate: CandidateV) -> CandidateV {
    CandidateV {
        valid_field_uses: opened_uses(rules, restored(rules, candidate).valid_field_uses),
        active_forms: restored(rules, candidate).active_forms,
    }
}

/// The candidate has what the program uses, with mandatory forms repaired and protected
/// features put back.
pub open spec fn is_minimum(rules: RulesV, candidate: CandidateV) -> bool {
    exists|repaired: CandidateV| #[trigger]
        mandatory_served(
            rules,
            rules.instructions.len(),
            program_candidate(rules.instructions, rules.program),
            repaired,
        ) && candidate == protected(rules, repaired)
}

/// The second uses allow all values that the first ones allow.
pub open spec fn allows_more(
    before: Map<Seq<char>, FieldUsesV>,
    after: Map<Seq<char>, FieldUsesV>,
) -> bool {
    forall|name: Seq<char>, value: Seq<Bit>|
        before.contains_key(name) && #[trigger] value_allowed(value, before[name])
            ==> after.contains_key(name) && value_allowed(value, after[name])
}

/// The second candidate has all forms and values of the first one.
pub open spec fn grown(before: CandidateV, after: CandidateV) -> bool {
    &&& allows_more(before.valid_field_uses, after.valid_field_uses)
    &&& forall|instruction: Seq<char>, form: Seq<char>| #[trigger]
        form_active(before.active_forms, instruction, form) ==> form_active(
            after.active_forms,
            instruction,
            form,
        )
}

pub(crate) proof fn lemma_joined_allows(existing: FieldUsesV, repair: FieldUsesV, value: Seq<Bit>)
    requires
        joined_uses(existing, repair) is Some,
        value_allowed(value, existing),
    ensures
        value_allowed(value, joined_uses(existing, repair)->0),
{
    match (existing, repair) {
        (
            FieldUsesV::Uses { name, patterns, len },
            FieldUsesV::Uses { patterns: more, len: other_len, .. },
        ) => {
            if has_variable(value) {
                let p = choose|p: Seq<Bit>|
                    #[trigger] patterns.contains(p) && pattern_matches(value, p);
                assert(patterns.union(more).contains(p));
            } else {
                let p = choose|p: Seq<Bit>|
                    #[trigger] patterns.contains(p) && pattern_matches(p, value);
                assert(patterns.union(more).contains(p));
            }
            assert(joined_uses(existing, repair)->0->patterns == patterns.union(more));
        },
        (
            FieldUsesV::VariableBits { pattern: Some(old_bits), .. },
            FieldUsesV::VariableBits { pattern: Some(more), .. },
        ) => {
            let joined = blended(old_bits, more);
            assert forall|i: int| 0 <= i < value.len() implies bit_accepts(
                #[trigger] joined[i],
                value[i],
            ) by {
                assert(bit_accepts(old_bits[i], value[i]));
            }
            assert(pattern_matches(joined, value));
            assert(joined_uses(existing, repair)->0->pattern == Some(joined));
        },
        _ => {},
    }
}

pub(crate) proof fn lemma_repaired_uses(
    rules: RulesV,
    form: FormV,
    uses: Map<Seq<char>, FieldUsesV>,
    choices: Seq<Seq<Bit>>,
)
    requires
        repairable_form(rules, form),
        fits(form, uses),
        choices.len() <= form.fields.len(),
        forall|k: int|
            0 <= k < choices.len() ==> encodings_of(form, rules.max_uses()).contains(
                #[trigger] choices[k],
            ),
    ensures
        allows_more(uses, repaired_uses(uses, form, choices)),
        fits_kept(rules, uses, repaired_uses(uses, form, choices)),
    decreases choices.len(),
{
    if choices.len() > 0 {
        let shorter = choices.drop_last();
        let k = choices.len() - 1;
        assert forall|j: int| 0 <= j < shorter.len() implies encodings_of(
            form,
            rules.max_uses(),
        ).contains(#[trigger] shorter[j]) by {
            assert(shorter[j] == choices[j]);
        }
        lemma_repaired_uses(rules, form, uses, shorter);
        let between = repaired_uses(uses, form, shorter);
        let after = repaired_uses(uses, form, choices);
        let encoding = choices[k];
        let value = repair_bits(form, k, encoding);
        assert(encodings_of(form, rules.max_uses()).contains(encoding));
        lemma_fits_encodable(form, rules.max_uses());
        lemma_width_prefix(form.fields, k + 1);
        assert(form.fields.take(k + 1).drop_last() =~= form.fields.take(k));
        assert(form.fields.take(k + 1).last() == form.fields[k]);
        assert(value.len() == form.fields[k].bits.len());
        assert(fits(form, between));
        lemma_repair_fits(rules, form, k, value, between, form);
        assert forall|other: FormV|
            repairable_form(rules, other) && fits(other, uses) implies #[trigger] fits(
            other,
            after,
        ) by {
            assert(fits(other, between));
            lemma_repair_fits(rules, form, k, value, between, other);
        }
        assert forall|name: Seq<char>, bits: Seq<Bit>|
            uses.contains_key(name) && #[trigger] value_allowed(
                bits,
                uses[name],
            ) implies after.contains_key(name) && value_allowed(bits, after[name]) by {
            assert(value_allowed(bits, between[name]));
            if form.fields[k].name == Some(name) {
                lemma_joined_allows(
                    between[name],
                    uses_of_pattern(name, value, form.fields[k].merge_mode, true),
                    bits,
                );
            }
        }
    }
}

pub(crate) proof fn lemma_form_repaired(
    rules: RulesV,
    instruction: Seq<char>,
    form: FormV,
    before: CandidateV,
    after: CandidateV,
)
    requires
        repairable_form(rules, form),
        fits(form, before.valid_field_uses),
        form_repaired(rules, instruction, form, before, after),
    ensures
        grown(before, after),
        fits_kept(rules, before.valid_field_uses, after.valid_field_uses),
        form_active(after.active_forms, instruction, form.name),
{
    let full = encodings_of(form, rules.max_uses());
    if full != Set::<Seq<Bit>>::empty() {
        let choices = choose|choices: Seq<Seq<Bit>>|
            choices_from(choices, form, full) && after.valid_field_uses
                == #[trigger] repaired_uses(before.valid_field_uses, form, choices);
        lemma_repaired_uses(rules, form, before.valid_field_uses, choices);
    }
}

pub(crate) proof fn lemma_form_named(forms: Seq<FormV>, name: Seq<char>, j: int)
    requires
        0 <= j,
    ensures
        form_named(forms, name, j) matches Some(k) ==> j <= k < forms.len() && forms[k].name
            == name,
        form_named(forms, name, j) is None ==> forall|k: int|
            j <= k < forms.len() ==> (#[trigger] forms[k]).name != name,
    decreases forms.len() - j,
{
    if j < forms.len() {
        lemma_form_named(forms, name, j + 1);
    }
}

pub(crate) proof fn lemma_name_served(
    rules: RulesV,
    instruction: InstructionV,
    name: Seq<char>,
    before: CandidateV,
    after: CandidateV,
)
    requires
        repairable_instruction(rules, instruction, before.valid_field_uses),
        name_served(rules, instruction, name, before, after),
    ensures
        grown(before, after),
        fits_kept(rules, before.valid_field_uses, after.valid_field_uses),
        forall|j: int|
            0 <= j < instruction.forms.len() && (#[trigger] instruction.forms[j]).name == name
                ==> form_active(after.active_forms, instruction.name, name),
{
    lemma_form_named(instruction.forms, name, 0);
    if let Some(j) = form_named(instruction.forms, name, 0) {
        let form = instruction.forms[j];
        if !has_encoding(before, instruction.name, form) {
            lemma_form_repaired(rules, instruction.name, form, before, after);
        }
    }
}

pub(crate) proof fn lemma_names_served(
    rules: RulesV,
    instruction: InstructionV,
    names: Seq<Seq<char>>,
    n: nat,
    before: CandidateV,
    after: CandidateV,
)
    requires
        repairable_instruction(rules, instruction, before.valid_field_uses),
        n <= names.len(),
        names_served(rules, instruction, names, n, before, after),
    ensures
        grown(before, after),
        fits_kept(rules, before.valid_field_uses, after.valid_field_uses),
        forall|j: int, k: int|
            0 <= j < instruction.forms.len() && 0 <= k < n && (
            #[trigger] instruction.forms[j]).name == #[trigger] names[k] ==> form_active(
                after.active_forms,
                instruction.name,
                names[k],
            ),
    decreases n,
{
    if n > 0 {
        let between = choose|between: CandidateV|
            #[trigger] name_served(rules, instruction, names[n - 1], between, after)
                && names_served(rules, instruction, names, (n - 1) as nat, before, between);
        lemma_names_served(rules, instruction, names, (n - 1) as nat, before, between);
        lemma_fits_kept(rules, before.valid_field_uses, between.valid_field_uses);
        lemma_name_served(rules, instruction, names[n - 1], between, after);
        lemma_grown_twice(before, between, after);
    }
}

pub(crate) proof fn lemma_grown_twice(a: CandidateV, b: CandidateV, c: CandidateV)
    requires
        grown(a, b),
        grown(b, c),
    ensures
        grown(a, c),
{
    assert forall|name: Seq<char>, value: Seq<Bit>|
        a.valid_field_uses.contains_key(name) && #[trigger] value_allowed(
            value,
            a.valid_field_uses[name],
        ) implies c.valid_field_uses.contains_key(name) && value_allowed(
        value,
        c.valid_field_uses[name],
    ) by {
        assert(value_allowed(value, b.valid_field_uses[name]));
    }
    assert forall|instruction: Seq<char>, form: Seq<char>| #[trigger]
        form_active(a.active_forms, instruction, form) implies form_active(
        c.active_forms,
        instruction,
        form,
    ) by {
        assert(form_active(b.active_forms, instruction, form));
    }
}

pub(crate) proof fn lemma_instruction_served(
    rules: RulesV,
    instruction: InstructionV,
    before: CandidateV,
    after: CandidateV,
)
    requires
        rules.mandatory.contains_key(instruction.name) ==> repairable_instruction(
            rules,
            instruction,
            before.valid_field_uses,
        ),
        instruction_served(rules, instruction, before, after),
    ensures
        grown(before, after),
        fits_kept(rules, before.valid_field_uses, after.valid_field_uses),
        forall|j: int|
            0 <= j < instruction.forms.len() && form_active(
                rules.mandatory,
                instruction.name,
                (#[trigger] instruction.forms[j]).name,
            ) ==> form_active(after.active_forms, instruction.name, instruction.forms[j].name),
{
    if rules.mandatory.contains_key(instruction.name) {
        let wanted = rules.mandatory[instruction.name];
        if wanted == Set::<Seq<char>>::empty() {
            if !instruction_encoded(before, instruction) && instruction.forms.len() != 0 {
                lemma_form_to_repair(before.active_forms, instruction, 0);
                let j = form_to_repair(before.active_forms, instruction, 0);
                assert(repairable_form(rules, instruction.forms[j]));
                lemma_form_repaired(
                    rules,
                    instruction.name,
                    instruction.forms[j],
                    before,
                    after,
                );
            }
        } else {
            let names = choose|names: Seq<Seq<char>>|
                lists_once(names, wanted) && #[trigger] names_served(
                    rules,
                    instruction,
                    names,
                    names.len(),
                    before,
                    after,
                );
            lemma_names_served(rules, instruction, names, names.len(), before, after);
            assert forall|j: int| 0 <= j < instruction.forms.len() && form_active(
                rules.mandatory,
                instruction.name,
                (#[trigger] instruction.forms[j]).name,
            ) implies form_active(
                after.active_forms,
                instruction.name,
                instruction.forms[j].name,
            ) by {
                assert(names.to_set().contains(instruction.forms[j].name));
                let k = choose|k: int|
                    0 <= k < names.len() && names[k] == instruction.forms[j].name;
                assert(names[k] == instruction.forms[j].name);
            }
        }
    }
}

pub(crate) proof fn lemma_form_to_repair(
    active: Map<Seq<char>, Set<Seq<char>>>,
    instruction: InstructionV,
    j: int,
)
    requires
        0 <= j,
        instruction.forms.len() > 0,
    ensures
        0 <= form_to_repair(active, instruction, j) < instruction.forms.len(),
    decreases instruction.forms.len() - j,
{
    if j < instruction.forms.len() {
        lemma_form_to_repair(active, instruction, j + 1);
    }
}

pub(crate) proof fn lemma_mandatory_grown(rules: RulesV, n: nat, before: CandidateV, after: CandidateV)
    requires
        repairable(rules, before.valid_field_uses),
        n <= rules.instructions.len(),
        mandatory_served(rules, n, before, after),
    ensures
        grown(before, after),
        fits_kept(rules, before.valid_field_uses, after.valid_field_uses),
        forall|i: int, j: int|
            #![trigger rules.instructions[i].forms[j]]
            0 <= i < n && 0 <= j < rules.instructions[i].forms.len() && form_active(
                rules.mandatory,
                rules.instructions[i].name,
                rules.instructions[i].forms[j].name,
            ) ==> form_active(
                after.active_forms,
                rules.instructions[i].name,
                rules.instructions[i].forms[j].name,
            ),
    decreases n,
{
    if n > 0 {
        let between = choose|between: CandidateV|
            #[trigger] instruction_served(rules, rules.instructions[n - 1], between, after)
                && mandatory_served(rules, (n - 1) as nat, before, between);
        lemma_mandatory_grown(rules, (n - 1) as nat, before, between);
        lemma_fits_kept(rules, before.valid_field_uses, between.valid_field_uses);
        if rules.mandatory.contains_key(rules.instructions[n - 1].name) {
            lemma_repairable(rules, between.valid_field_uses, n - 1);
        }
        lemma_instruction_served(rules, rules.instructions[n - 1], between, after);
        lemma_grown_twice(before, between, after);
    }
}

/// Repair takes nothing away: what a candidate ran, the repaired one runs.
pub proof fn lemma_repair_keeps_support(
    rules: RulesV,
    before: CandidateV,
    after: CandidateV,
    instruction: DecodedV,
)
    requires
        repairable(rules, before.valid_field_uses),
        mandatory_served(rules, rules.instructions.len(), before, after),
        supports(before, instruction),
    ensures
        supports(after, instruction),
{
    lemma_mandatory_grown(rules, rules.instructions.len(), before, after);
    assert forall|i: int|
        0 <= i < instruction.fields.len() && (
        #[trigger] instruction.fields[i]).name is Some implies
        after.valid_field_uses.contains_key(instruction.fields[i].name->0) && value_allowed(
        instruction.fields[i].bits,
        after.valid_field_uses[instruction.fields[i].name->0],
    ) by {
        assert(value_allowed(
            instruction.fields[i].bits,
            before.valid_field_uses[instruction.fields[i].name->0],
        ));
    }
}

/// After repair every mandatory form that an instruction has is listed.
pub proof fn lemma_repair_lists_mandatory(
    rules: RulesV,
    before: CandidateV,
    after: CandidateV,
    i: int,
    j: int,
)
    requires
        repairable(rules, before.valid_field_uses),
        mandatory_served(rules, rules.instructions.len(), before, after),
        0 <= i < rules.instructions.len(),
        0 <= j < rules.instructions[i].forms.len(),
        form_active(
            rules.mandatory,
            rules.instructions[i].name,
            rules.instructions[i].forms[j].name,
        ),
    ensures
        form_active(
            after.active_forms,
            rules.instructions[i].name,
            rules.instructions[i].forms[j].name,
        ),
{
    lemma_mandatory_grown(rules, rules.instructions.len(), before, after);
}

} // verus!
