//! Which programs a candidate runs, and what a search reports of it.
use vstd::prelude::*;

use crate::bit::{all_concrete, bit_accepts, pattern_matches, Bit};
use crate::decode::check;
use crate::decode_laws::agrees;
use crate::encodings::encodings_of;
use crate::field_uses::{merged_uses, FieldUsesV};
use crate::isa_candidate::{
    form_active, has_variable, max_candidate, supports, uses_sized, value_allowed, CandidateV,
    ISACandidateError,
};
use crate::isa_optimization::{
    candidate_encodings, conflicts, form_encodings, forms_encodings, instructions_encodings, RulesV,
};
use crate::isa_specification::{DecodedV, InstructionV};
use crate::merge_laws::lemma_merging_keeps_points;
use crate::pattern_cover::covered;

verus! {

/// Definite bits are a value of the uses: they agree with the one pattern or with a listed one.
pub open spec fn permits(uses: FieldUsesV, bits: Seq<Bit>) -> bool {
    match uses {
        FieldUsesV::VariableBits { pattern: Some(p), .. } => agrees(p, bits),
        FieldUsesV::VariableBits { pattern: None, .. } => false,
        FieldUsesV::Uses { patterns, .. } => exists|p: Seq<Bit>| #[trigger]
            patterns.contains(p) && agrees(p, bits),
    }
}

/// Bits with variable ones among them are a value of the uses: they agree with the one pattern, or
/// a listed pattern agrees with them.
pub open spec fn permits_open(uses: FieldUsesV, bits: Seq<Bit>) -> bool {
    match uses {
        FieldUsesV::VariableBits { pattern: Some(p), .. } => agrees(p, bits),
        FieldUsesV::VariableBits { pattern: None, .. } => false,
        FieldUsesV::Uses { patterns, .. } => exists|p: Seq<Bit>| #[trigger]
            patterns.contains(p) && agrees(bits, p),
    }
}

pub(crate) proof fn lemma_agrees(pattern: Seq<Bit>, bits: Seq<Bit>)
    ensures
        agrees(pattern, bits) == pattern_matches(pattern, bits),
{
    if agrees(pattern, bits) {
        assert forall|i: int| 0 <= i < bits.len() implies bit_accepts(
            #[trigger] pattern[i],
            bits[i],
        ) by {
            assert(bits[i] == bits[i]);
        }
    }
    if pattern_matches(pattern, bits) {
        assert forall|k: int| 0 <= k < bits.len() implies (pattern[k] == Bit::High ==> #[trigger] bits[k]
            == Bit::High) && (pattern[k] == Bit::Low ==> bits[k] == Bit::Low) by {
            assert(bit_accepts(pattern[k], bits[k]));
        }
    }
}

/// The uses of a field allow the values that they list, and no others.
pub proof fn lemma_values_allowed(uses: FieldUsesV, bits: Seq<Bit>)
    ensures
        !bits.contains(Bit::Var) ==> value_allowed(bits, uses) == permits(uses, bits),
        bits.contains(Bit::Var) ==> value_allowed(bits, uses) == permits_open(uses, bits),
{
    if has_variable(bits) {
        let i = choose|i: int| 0 <= i < bits.len() && #[trigger] bits[i] == Bit::Var;
        assert(bits[i] == Bit::Var);
    }
    assert(bits.contains(Bit::Var) == has_variable(bits));
    match uses {
        FieldUsesV::VariableBits { pattern, .. } => {
            if pattern is Some {
                lemma_agrees(pattern->0, bits);
            }
        },
        FieldUsesV::Uses { patterns, .. } => {
            assert forall|p: Seq<Bit>| #[trigger] patterns.contains(p) implies agrees(p, bits)
                == pattern_matches(p, bits) && agrees(bits, p) == pattern_matches(bits, p) by {
                lemma_agrees(p, bits);
                lemma_agrees(bits, p);
            }
        },
    }
}

/// A field of a decoded instruction stands for a value that the candidate has.
pub open spec fn field_runs(candidate: CandidateV, name: Option<Seq<char>>, bits: Seq<Bit>) -> bool {
    name matches Some(n) ==> {
        &&& candidate.valid_field_uses.contains_key(n)
        &&& if bits.contains(Bit::Var) {
            permits_open(candidate.valid_field_uses[n], bits)
        } else {
            permits(candidate.valid_field_uses[n], bits)
        }
    }
}

/// A candidate runs a decoded instruction exactly when it has the form, the condition of the form
/// holds, and each named field has a value of the candidate's uses.
pub proof fn lemma_runs(candidate: CandidateV, instruction: DecodedV)
    ensures
        supports(candidate, instruction) <==> {
            &&& candidate.active_forms.contains_key(instruction.name)
            &&& candidate.active_forms[instruction.name].contains(instruction.form.name)
            &&& check(instruction.form.when, instruction.bits, instruction.fields) == Some(true)
            &&& forall|i: int|
                0 <= i < instruction.fields.len() ==> field_runs(
                    candidate,
                    (#[trigger] instruction.fields[i]).name,
                    instruction.fields[i].bits,
                )
        },
{
    let fields = instruction.fields;
    let uses = candidate.valid_field_uses;
    assert forall|i: int|
        0 <= i < fields.len() && (#[trigger] fields[i]).name is Some && uses.contains_key(
            fields[i].name->0,
        ) implies value_allowed(fields[i].bits, uses[fields[i].name->0]) == (if fields[i].bits.contains(
        Bit::Var,
    ) {
        permits_open(uses[fields[i].name->0], fields[i].bits)
    } else {
        permits(uses[fields[i].name->0], fields[i].bits)
    }) by {
        lemma_values_allowed(uses[fields[i].name->0], fields[i].bits);
    }
    if supports(candidate, instruction) {
        assert forall|i: int| 0 <= i < fields.len() implies field_runs(
            candidate,
            (#[trigger] fields[i]).name,
            fields[i].bits,
        ) by {}
    }
    if forall|i: int|
        0 <= i < fields.len() ==> field_runs(candidate, (#[trigger] fields[i]).name, fields[i].bits) {
        assert forall|i: int|
            0 <= i < fields.len() && (#[trigger] fields[i]).name is Some implies uses.contains_key(
            fields[i].name->0,
        ) && value_allowed(fields[i].bits, uses[fields[i].name->0]) by {
            assert(field_runs(candidate, fields[i].name, fields[i].bits));
        }
    }
}

/// The places of a program that a candidate cannot run.
pub open spec fn failing(candidate: CandidateV, program: Seq<DecodedV>) -> Set<int> {
    Set::new(|i: int| 0 <= i < program.len() && !supports(candidate, program[i]))
}

/// The count of conflicts is the number of places that the candidate cannot run.
pub proof fn lemma_conflicts_counted(candidate: CandidateV, program: Seq<DecodedV>)
    ensures
        failing(candidate, program).finite(),
        conflicts(candidate, program) == failing(candidate, program).len(),
    decreases program.len(),
{
    let all = failing(candidate, program);
    if program.len() == 0 {
        assert(all =~= Set::empty());
    } else {
        let front = program.drop_last();
        let last = program.len() - 1;
        lemma_conflicts_counted(candidate, front);
        assert(program.last() == program[last]);
        if supports(candidate, program.last()) {
            assert(all =~= failing(candidate, front));
        } else {
            assert(all =~= failing(candidate, front).insert(last));
        }
    }
}

/// Two uses have the same definite values.
pub open spec fn same_values(a: FieldUsesV, b: FieldUsesV) -> bool {
    forall|bits: Seq<Bit>| all_concrete(bits) ==> #[trigger] permits(a, bits) == permits(b, bits)
}

/// A search refuses a candidate that fails to run a static instruction of the program, and for no
/// other reason with that error.
pub proof fn lemma_static_refused(rules: RulesV, candidate: CandidateV)
    ensures
        (candidate_encodings(rules, candidate) == Some(
            Err::<Set<Seq<Bit>>, ISACandidateError>(ISACandidateError::StaticInstructionError),
        )) <== (exists|i: int|
            0 <= i < rules.program.len() && (#[trigger] rules.program[i]).static_instruction
                && !supports(candidate, rules.program[i])),
        (candidate_encodings(rules, candidate) matches Some(Ok(_))) ==> forall|i: int|
            0 <= i < rules.program.len() && (#[trigger] rules.program[i]).static_instruction
                ==> supports(candidate, rules.program[i]),
{
}

/// A candidate that a search takes has each fixed field, with the values that the fixed uses have.
pub proof fn lemma_fixed_kept(rules: RulesV, candidate: CandidateV, name: Seq<char>)
    requires
        candidate_encodings(rules, candidate) matches Some(Ok(_)),
        rules.fixed.contains_key(name),
        uses_sized(rules.fixed[name]),
        candidate.valid_field_uses.contains_key(name) ==> uses_sized(
            candidate.valid_field_uses[name],
        ),
    ensures
        candidate.valid_field_uses.contains_key(name),
        same_values(candidate.valid_field_uses[name], rules.fixed[name]),
{
    let a = candidate.valid_field_uses[name];
    let b = rules.fixed[name];
    assert(merged_uses(a) == merged_uses(b));
    assert forall|bits: Seq<Bit>| all_concrete(bits) implies #[trigger] permits(a, bits) == permits(
        b,
        bits,
    ) by {
        lemma_merged_permits(a, bits);
        lemma_merged_permits(b, bits);
    }
}

/// Merging keeps the definite values of uses.
pub proof fn lemma_merged_permits(uses: FieldUsesV, bits: Seq<Bit>)
    requires
        uses_sized(uses),
        all_concrete(bits),
    ensures
        permits(merged_uses(uses), bits) == permits(uses, bits),
{
    match uses {
        FieldUsesV::Uses { patterns, len, .. } => {
            lemma_merging_keeps_points(patterns, bits, len as nat);
            lemma_permits_covered(uses, bits);
            lemma_permits_covered(merged_uses(uses), bits);
        },
        _ => {},
    }
}

pub(crate) proof fn lemma_permits_covered(uses: FieldUsesV, bits: Seq<Bit>)
    ensures
        uses matches FieldUsesV::Uses { patterns, .. } ==> permits(uses, bits) == covered(
            patterns,
            bits,
        ),
{
    if let FieldUsesV::Uses { patterns, .. } = uses {
        assert forall|p: Seq<Bit>| #[trigger] patterns.contains(p) implies agrees(p, bits)
            == pattern_matches(p, bits) by {
            lemma_agrees(p, bits);
        }
    }
}

/// A candidate that runs the static instructions and has the fixed uses as they are is not refused
/// on their account.
pub proof fn lemma_fixed_suffice(rules: RulesV, candidate: CandidateV)
    requires
        forall|i: int|
            0 <= i < rules.program.len() && (#[trigger] rules.program[i]).static_instruction
                ==> supports(candidate, rules.program[i]),
        forall|name: Seq<char>| #[trigger]
            rules.fixed.contains_key(name) ==> candidate.valid_field_uses.contains_key(name)
                && candidate.valid_field_uses[name] == rules.fixed[name],
    ensures
        !(candidate_encodings(rules, candidate) matches Some(
            Err(ISACandidateError::StaticInstructionError),
        )),
        !(candidate_encodings(rules, candidate) matches Some(
            Err(ISACandidateError::FixedFieldUsesError),
        )),
{
    lemma_other_errors(rules, candidate, rules.instructions.len());
}

proof fn lemma_form_errors(rules: RulesV, candidate: CandidateV, i: int, n: nat)
    requires
        0 <= i < rules.instructions.len(),
        n <= rules.instructions[i].forms.len(),
    ensures
        forms_encodings(
            rules,
            candidate,
            rules.instructions[i],
            n,
        ) matches Some(Err(e)) ==> e == ISACandidateError::MandatoryFormsError || e
            == ISACandidateError::UnrestrictedFormsError,
    decreases n,
{
    if n > 0 {
        lemma_form_errors(rules, candidate, i, (n - 1) as nat);
    }
}

proof fn lemma_other_errors(rules: RulesV, candidate: CandidateV, n: nat)
    requires
        n <= rules.instructions.len(),
    ensures
        instructions_encodings(rules, candidate, n) matches Some(Err(e))
            ==> e == ISACandidateError::MandatoryFormsError || e
            == ISACandidateError::UnrestrictedFormsError,
    decreases n,
{
    if n > 0 {
        lemma_other_errors(rules, candidate, (n - 1) as nat);
        lemma_form_errors(rules, candidate, n - 1, rules.instructions[n - 1].forms.len());
    }
}

/// The form of an instruction that a candidate has encodes the pattern.
pub open spec fn form_encodes(
    candidate: CandidateV,
    instruction: InstructionV,
    j: int,
    pattern: Seq<Bit>,
) -> bool {
    &&& 0 <= j < instruction.forms.len()
    &&& candidate.active_forms.contains_key(instruction.name)
    &&& candidate.active_forms[instruction.name].contains(instruction.forms[j].name)
    &&& encodings_of(instruction.forms[j], candidate.valid_field_uses).contains(pattern)
}

/// The instruction at a place has a form that encodes the pattern.
pub open spec fn encodes_at(
    candidate: CandidateV,
    instructions: Seq<InstructionV>,
    i: int,
    pattern: Seq<Bit>,
) -> bool {
    0 <= i < instructions.len() && exists|j: int| #[trigger]
        form_encodes(candidate, instructions[i], j, pattern)
}

/// The form must have an encoding.
pub open spec fn form_mandatory(rules: RulesV, i: int, j: int) -> bool {
    &&& 0 <= i < rules.instructions.len()
    &&& 0 <= j < rules.instructions[i].forms.len()
    &&& rules.mandatory.contains_key(rules.instructions[i].name)
    &&& rules.mandatory[rules.instructions[i].name].contains(rules.instructions[i].forms[j].name)
}

/// The form must keep all encodings.
pub open spec fn form_unrestricted(rules: RulesV, i: int, j: int) -> bool {
    &&& 0 <= i < rules.instructions.len()
    &&& 0 <= j < rules.instructions[i].forms.len()
    &&& rules.unrestricted.contains_key(rules.instructions[i].name)
    &&& rules.unrestricted[rules.instructions[i].name].contains(
        rules.instructions[i].forms[j].name,
    )
}

/// The candidate leaves the form no encoding.
pub open spec fn form_empty(candidate: CandidateV, instruction: InstructionV, j: int) -> bool {
    forall|pattern: Seq<Bit>| !#[trigger] form_encodes(candidate, instruction, j, pattern)
}

/// The candidate has the form with the same definite encodings as the whole instruction set.
pub open spec fn form_whole(rules: RulesV, candidate: CandidateV, i: int, j: int) -> bool {
    let form = rules.instructions[i].forms[j];
    &&& candidate.active_forms.contains_key(rules.instructions[i].name)
    &&& candidate.active_forms[rules.instructions[i].name].contains(form.name)
    &&& forall|bits: Seq<Bit>|
        all_concrete(bits) ==> #[trigger] covered(
            encodings_of(form, candidate.valid_field_uses),
            bits,
        ) == covered(encodings_of(form, max_candidate(rules.instructions).valid_field_uses), bits)
}

proof fn lemma_form_outcome(rules: RulesV, candidate: CandidateV, i: int, j: int)
    requires
        0 <= i < rules.instructions.len(),
        0 <= j < rules.instructions[i].forms.len(),
    ensures
        ({
            let instruction = rules.instructions[i];
            let outcome = form_encodings(rules, candidate, instruction, instruction.forms[j]);
            &&& outcome matches Some(Ok(found)) ==> {
                &&& forall|p: Seq<Bit>| #[trigger]
                    found.contains(p) == form_encodes(candidate, instruction, j, p)
                &&& form_mandatory(rules, i, j) ==> !form_empty(candidate, instruction, j)
                &&& form_unrestricted(rules, i, j) ==> form_whole(rules, candidate, i, j)
            }
            &&& outcome matches Some(Err(e)) ==> {
                ||| e == ISACandidateError::MandatoryFormsError && form_mandatory(rules, i, j)
                    && form_empty(candidate, instruction, j)
                ||| e == ISACandidateError::UnrestrictedFormsError && form_unrestricted(rules, i, j)
                    && (!form_active(
                    candidate.active_forms,
                    instruction.name,
                    instruction.forms[j].name,
                ) || encodings_of(instruction.forms[j], candidate.valid_field_uses) != encodings_of(
                    instruction.forms[j],
                    rules.max_uses(),
                ))
            }
        }),
{
    let instruction = rules.instructions[i];
    let form = instruction.forms[j];
    let left = encodings_of(form, candidate.valid_field_uses);
    let full = encodings_of(form, rules.max_uses());
    let width = instruction.width as nat;
    let outcome = form_encodings(rules, candidate, instruction, form);
    if let Some(Ok(found)) = outcome {
        assert forall|p: Seq<Bit>| #[trigger] found.contains(p) == form_encodes(
            candidate,
            instruction,
            j,
            p,
        ) by {}
        if form_mandatory(rules, i, j) {
            assert(left != Set::<Seq<Bit>>::empty());
            if forall|p: Seq<Bit>| !left.contains(p) {
                assert(left =~= Set::empty());
            }
            let p = choose|p: Seq<Bit>| left.contains(p);
            assert(form_encodes(candidate, instruction, j, p));
        }
        if form_unrestricted(rules, i, j) {
            assert forall|bits: Seq<Bit>| all_concrete(bits) implies #[trigger] covered(left, bits)
                == covered(full, bits) by {
                lemma_merging_keeps_points(left, bits, width);
                lemma_merging_keeps_points(full, bits, width);
            }
        }
    }
}

proof fn lemma_forms_outcome(rules: RulesV, candidate: CandidateV, i: int, n: nat)
    requires
        0 <= i < rules.instructions.len(),
        n <= rules.instructions[i].forms.len(),
    ensures
        ({
            let instruction = rules.instructions[i];
            let outcome = forms_encodings(rules, candidate, instruction, n);
            &&& outcome matches Some(Ok(found)) ==> {
                &&& forall|p: Seq<Bit>| #[trigger]
                    found.contains(p) <==> exists|j: int| #[trigger]
                        form_encodes(candidate, instruction, j, p) && j < n
                &&& forall|j: int|
                    0 <= j < n && #[trigger] form_mandatory(rules, i, j) ==> !form_empty(
                        candidate,
                        instruction,
                        j,
                    )
                &&& forall|j: int|
                    0 <= j < n && #[trigger] form_unrestricted(rules, i, j) ==> form_whole(
                        rules,
                        candidate,
                        i,
                        j,
                    )
            }
            &&& outcome matches Some(Err(e)) ==> exists|j: int| #[trigger]
                speaks_against(rules, candidate, i, j, e)
        }),
    decreases n,
{
    let instruction = rules.instructions[i];
    if n > 0 {
        lemma_forms_outcome(rules, candidate, i, (n - 1) as nat);
        lemma_form_outcome(rules, candidate, i, n - 1);
        let outcome = forms_encodings(rules, candidate, instruction, n);
        let before = forms_encodings(rules, candidate, instruction, (n - 1) as nat);
        if let Some(Ok(found)) = outcome {
            assert forall|p: Seq<Bit>| #[trigger] found.contains(p) <==> exists|j: int| #[trigger]
                form_encodes(candidate, instruction, j, p) && j < n by {
                if before->0->Ok_0.contains(p) {
                    let j = choose|j: int| #[trigger]
                        form_encodes(candidate, instruction, j, p) && j < n - 1;
                    assert(form_encodes(candidate, instruction, j, p) && j < n);
                }
                if form_encodes(candidate, instruction, n - 1, p) {
                    assert(found.contains(p));
                }
                if exists|j: int| #[trigger] form_encodes(candidate, instruction, j, p) && j < n {
                    let j = choose|j: int| #[trigger]
                        form_encodes(candidate, instruction, j, p) && j < n;
                    if j < n - 1 {
                        assert(before->0->Ok_0.contains(p));
                    }
                }
            }
        }
        if let Some(Err(e)) = outcome {
            if before matches Some(Ok(_)) {
                assert(speaks_against(rules, candidate, i, n - 1, e));
            }
        }
    }
}

/// A form is a reason to refuse the candidate: it must have an encoding and has none, or it must
/// keep all of them and is missing or has others.
pub open spec fn speaks_against(
    rules: RulesV,
    candidate: CandidateV,
    i: int,
    j: int,
    error: ISACandidateError,
) -> bool {
    let instruction = rules.instructions[i];
    let form = instruction.forms[j];
    ||| {
        &&& error == ISACandidateError::MandatoryFormsError
        &&& form_mandatory(rules, i, j)
        &&& form_empty(candidate, instruction, j)
    }
    ||| {
        &&& error == ISACandidateError::UnrestrictedFormsError
        &&& form_unrestricted(rules, i, j)
        &&& !candidate.active_forms.contains_key(instruction.name)
            || !candidate.active_forms[instruction.name].contains(form.name) || encodings_of(
            form,
            candidate.valid_field_uses,
        ) != encodings_of(form, max_candidate(rules.instructions).valid_field_uses)
    }
}

/// The instruction must have an encoding.
pub open spec fn instruction_mandatory(rules: RulesV, i: int) -> bool {
    0 <= i < rules.instructions.len() && rules.mandatory.contains_key(rules.instructions[i].name)
}

/// The candidate leaves the instruction no encoding.
pub open spec fn instruction_empty(candidate: CandidateV, instruction: InstructionV) -> bool {
    forall|j: int| 0 <= j < instruction.forms.len() ==> #[trigger]
        form_empty(candidate, instruction, j)
}

/// A reason against a candidate, from its forms or from an instruction without encodings.
pub open spec fn refusal(rules: RulesV, candidate: CandidateV, error: ISACandidateError) -> bool {
    ||| exists|i: int, j: int| #[trigger] speaks_against(rules, candidate, i, j, error)
    ||| error == ISACandidateError::MandatoryFormsError && exists|i: int| #[trigger]
        instruction_mandatory(rules, i) && instruction_empty(candidate, rules.instructions[i])
}

proof fn lemma_instructions_outcome(rules: RulesV, candidate: CandidateV, n: nat)
    requires
        n <= rules.instructions.len(),
    ensures
        ({
            let outcome = instructions_encodings(rules, candidate, n);
            &&& outcome matches Some(Ok(found)) ==> {
                &&& forall|p: Seq<Bit>| #[trigger]
                    found.contains(p) <==> exists|i: int| #[trigger]
                        encodes_at(candidate, rules.instructions, i, p) && i < n
                &&& forall|i: int, j: int|
                    0 <= i < n && #[trigger] form_mandatory(rules, i, j) ==> !form_empty(
                        candidate,
                        rules.instructions[i],
                        j,
                    )
                &&& forall|i: int, j: int|
                    0 <= i < n && #[trigger] form_unrestricted(rules, i, j) ==> form_whole(
                        rules,
                        candidate,
                        i,
                        j,
                    )
                &&& forall|i: int|
                    0 <= i < n && #[trigger] instruction_mandatory(rules, i) ==> !instruction_empty(
                        candidate,
                        rules.instructions[i],
                    )
            }
            &&& outcome matches Some(Err(e)) ==> refusal(rules, candidate, e)
        }),
    decreases n,
{
    if n > 0 {
        let last = n - 1;
        let instruction = rules.instructions[last];
        lemma_instructions_outcome(rules, candidate, (n - 1) as nat);
        lemma_forms_outcome(rules, candidate, last, instruction.forms.len());
        let before = instructions_encodings(rules, candidate, (n - 1) as nat);
        let inner = forms_encodings(rules, candidate, instruction, instruction.forms.len());
        let outcome = instructions_encodings(rules, candidate, n);
        if let Some(Ok(found)) = outcome {
            assert forall|p: Seq<Bit>| #[trigger] found.contains(p) <==> exists|i: int| #[trigger]
                encodes_at(candidate, rules.instructions, i, p) && i < n by {
                if before->0->Ok_0.contains(p) {
                    let i = choose|i: int| #[trigger]
                        encodes_at(candidate, rules.instructions, i, p) && i < n - 1;
                    assert(encodes_at(candidate, rules.instructions, i, p) && i < n);
                }
                if inner->0->Ok_0.contains(p) {
                    assert(encodes_at(candidate, rules.instructions, last, p));
                }
                if exists|i: int| #[trigger]
                    encodes_at(candidate, rules.instructions, i, p) && i < n {
                    let i = choose|i: int| #[trigger]
                        encodes_at(candidate, rules.instructions, i, p) && i < n;
                    if i < n - 1 {
                        assert(before->0->Ok_0.contains(p));
                    } else {
                        let j = choose|j: int| #[trigger] form_encodes(candidate, instruction, j, p);
                        assert(inner->0->Ok_0.contains(p));
                    }
                }
            }
            if instruction_mandatory(rules, last) {
                let held = inner->0->Ok_0;
                assert(held != Set::<Seq<Bit>>::empty());
                if forall|p: Seq<Bit>| !held.contains(p) {
                    assert(held =~= Set::empty());
                }
                let p = choose|p: Seq<Bit>| held.contains(p);
                let j = choose|j: int| #[trigger]
                    form_encodes(candidate, instruction, j, p) && j < instruction.forms.len();
                assert(!form_empty(candidate, instruction, j));
            }
        }
        if let Some(Err(e)) = outcome {
            if before matches Some(Ok(_)) {
                if let Some(Ok(held)) = inner {
                    assert forall|j: int| 0 <= j < instruction.forms.len() implies #[trigger]
                        form_empty(candidate, instruction, j) by {
                        assert forall|p: Seq<Bit>| !#[trigger]
                            form_encodes(candidate, instruction, j, p) by {
                            if form_encodes(candidate, instruction, j, p) {
                                assert(held.contains(p));
                            }
                        }
                    }
                    assert(instruction_mandatory(rules, last));
                } else {
                    let j = choose|j: int| #[trigger] speaks_against(rules, candidate, last, j, e);
                    assert(speaks_against(rules, candidate, last, j, e));
                }
            }
        }
    }
}

/// The encodings of a candidate that a search takes are those of the forms that it has; forms and
/// instructions that must have an encoding have one, and forms that must keep all of them do.
pub proof fn lemma_taken(rules: RulesV, candidate: CandidateV, found: Set<Seq<Bit>>)
    requires
        candidate_encodings(rules, candidate) == Some(Ok::<_, ISACandidateError>(found)),
    ensures
        forall|p: Seq<Bit>| #[trigger]
            found.contains(p) <==> exists|i: int| #[trigger]
                encodes_at(candidate, rules.instructions, i, p),
        forall|i: int, j: int| #[trigger]
            form_mandatory(rules, i, j) ==> !form_empty(candidate, rules.instructions[i], j),
        forall|i: int| #[trigger]
            instruction_mandatory(rules, i) ==> !instruction_empty(candidate, rules.instructions[i]),
        forall|i: int, j: int| #[trigger]
            form_unrestricted(rules, i, j) ==> form_whole(rules, candidate, i, j),
{
    lemma_instructions_outcome(rules, candidate, rules.instructions.len());
    let held = instructions_encodings(rules, candidate, rules.instructions.len())->0->Ok_0;
    assert(held == found);
    assert forall|p: Seq<Bit>| #[trigger] found.contains(p) <==> exists|i: int| #[trigger]
        encodes_at(candidate, rules.instructions, i, p) by {
        if held.contains(p) {
            let i = choose|i: int| #[trigger]
                encodes_at(candidate, rules.instructions, i, p) && i < rules.instructions.len();
            assert(encodes_at(candidate, rules.instructions, i, p));
        }
        if exists|i: int| #[trigger] encodes_at(candidate, rules.instructions, i, p) {
            let i = choose|i: int| #[trigger] encodes_at(candidate, rules.instructions, i, p);
            assert(encodes_at(candidate, rules.instructions, i, p) && i
                < rules.instructions.len());
            assert(held.contains(p));
        }
    }
}

/// A candidate is refused for its forms only where a form or an instruction speaks against it.
pub proof fn lemma_refused(rules: RulesV, candidate: CandidateV, error: ISACandidateError)
    requires
        candidate_encodings(rules, candidate) == Some(Err::<Set<Seq<Bit>>, _>(error)),
        error == ISACandidateError::MandatoryFormsError || error
            == ISACandidateError::UnrestrictedFormsError,
    ensures
        refusal(rules, candidate, error),
{
    lemma_instructions_outcome(rules, candidate, rules.instructions.len());
}

} // verus!
