//! The search for a reduced instruction set: which candidates are valid and what they encode.
use rand::rngs::StdRng;
use vstd::prelude::*;

pub use crate::isa_candidate::{ISACandidate, ISACandidateError};

use crate::bit::{Bit, BitPattern};
use crate::collections::{viewed, OrderedMap, OrderedSet, Value};
use crate::encodings::{encodable, encodings_of, pattern_set};
use crate::field_uses::{
    all_of_len, merge_pattern_set, merged_patterns, merged_uses, FieldUses, FieldUsesV,
};
use crate::isa_candidate::{
    condition_defined, form_active, lists_form, max_candidate, supports, uses_sized, CandidateV,
};
use crate::isa_specification::{
    DecodedInstruction, DecodedV, FormV, ISA, Instruction, InstructionForm, InstructionV,
};

verus! {

/// The search for a reduced instruction set.
pub struct IsaOptimizationManager<'a> {
    pub isa: &'a ISA,
    pub rng: StdRng,
    /// Instruction forms which must have at least one valid encoding.
    /// The key represents the instruction name, while the value represents a set of all the forms
    /// which must have at least one valid encoding. If the key exists but the set is empty, that
    /// means at least one form (but not specified which one) for that instruction must have a valid encoding.
    pub mandatory_forms: OrderedMap<OrderedSet<String>>,
    /// Instruction forms which must have ALL instructions in the form remain valid - ie none
    /// removed by the new ISA. Intended for branch instructions, which are incredibly difficult if
    /// not impossible to replace with a superoptimizer, as well as the fact that their encoding may
    /// change after superoptimization.
    pub unrestricted_forms: OrderedMap<OrderedSet<String>>,
    /// Field uses which candidates must preserve exactly. Used for field-level requirements that
    /// should not force entire forms to be unrestricted.
    pub fixed_field_uses: OrderedMap<FieldUses>,
    /// Copy of maximal ISA candidate
    pub max_isa_candidate: ISACandidate,
    pub program: Vec<DecodedInstruction>,
    /// Population size
    pub population_size: usize,
    /// Number of elite candidates kept every generation
    pub elite_candidate_count: usize,
}

/// What candidates are held against.
pub struct RulesV {
    pub instructions: Seq<InstructionV>,
    pub mandatory: Map<Seq<char>, Set<Seq<char>>>,
    pub unrestricted: Map<Seq<char>, Set<Seq<char>>>,
    pub fixed: Map<Seq<char>, FieldUsesV>,
    pub program: Seq<DecodedV>,
}

impl RulesV {
    /// The values that fields may take in the unreduced instruction set.
    pub open spec fn max_uses(self) -> Map<Seq<char>, FieldUsesV> {
        max_candidate(self.instructions).valid_field_uses
    }
}

impl<'a> View for IsaOptimizationManager<'a> {
    type V = RulesV;

    open spec fn view(&self) -> RulesV {
        RulesV {
            instructions: viewed(self.isa.instructions@),
            mandatory: self.mandatory_forms@,
            unrestricted: self.unrestricted_forms@,
            fixed: self.fixed_field_uses@,
            program: viewed(self.program@),
        }
    }
}

impl<'a> IsaOptimizationManager<'a> {
    /// Names are listed once, and the kept maximal candidate is that of the instruction set.
    pub open spec fn wf(&self) -> bool {
        &&& self.mandatory_forms.distinct()
        &&& self.unrestricted_forms.distinct()
        &&& self.fixed_field_uses.distinct()
        &&& self.max_isa_candidate.wf()
        &&& self.max_isa_candidate@ == max_candidate(self@.instructions)
    }

    /// Starts a search.
    pub fn new(
        isa: &'a ISA,
        rng: StdRng,
        mandatory_forms: OrderedMap<OrderedSet<String>>,
        unrestricted_forms: OrderedMap<OrderedSet<String>>,
        program: Vec<DecodedInstruction>,
        population_size: usize,
        elite_candidate_count: usize,
    ) -> (r: Self)
        requires
            mandatory_forms.distinct(),
            unrestricted_forms.distinct(),
        ensures
            r.wf(),
            r@ == (RulesV {
                instructions: viewed(isa.instructions@),
                mandatory: mandatory_forms@,
                unrestricted: unrestricted_forms@,
                fixed: Map::empty(),
                program: viewed(program@),
            }),
            r.population_size == population_size,
            r.elite_candidate_count == elite_candidate_count,
            r.isa == isa,
            r.rng == rng,
    {
        let max_isa_candidate = ISACandidate::max_isa(isa);
        IsaOptimizationManager {
            isa,
            rng,
            mandatory_forms,
            unrestricted_forms,
            fixed_field_uses: OrderedMap::new(),
            max_isa_candidate,
            program,
            population_size,
            elite_candidate_count,
        }
    }

    /// Sets the field uses that candidates must preserve exactly.
    pub fn with_fixed_field_uses(self, fixed_field_uses: OrderedMap<FieldUses>) -> (r: Self)
        requires
            self.wf(),
            fixed_field_uses.distinct(),
        ensures
            r.wf(),
            r@ == (RulesV { fixed: fixed_field_uses@, ..self@ }),
            r.population_size == self.population_size,
            r.elite_candidate_count == self.elite_candidate_count,
            r.isa == self.isa,
            r.rng == self.rng,
    {
        let mut manager = self;
        manager.fixed_field_uses = fixed_field_uses;
        manager
    }
}

/// How many instructions of a program a candidate cannot run.
pub open spec fn conflicts(candidate: CandidateV, program: Seq<DecodedV>) -> nat
    decreases program.len(),
{
    if program.len() == 0 {
        0
    } else {
        conflicts(candidate, program.drop_last()) + if supports(candidate, program.last()) {
            0nat
        } else {
            1nat
        }
    }
}

/// The conditions of the program's instructions can be evaluated as far as a candidate has
/// their forms.
pub open spec fn conditions_defined(candidate: CandidateV, program: Seq<DecodedV>) -> bool {
    forall|i: int|
        0 <= i < program.len() && form_active(
            candidate.active_forms,
            (#[trigger] program[i]).name,
            program[i].form.name,
        ) ==> condition_defined(program[i])
}

/// A candidate runs all instructions that must stay as they are.
pub open spec fn static_supported(candidate: CandidateV, program: Seq<DecodedV>) -> bool {
    forall|i: int|
        0 <= i < program.len() && (#[trigger] program[i]).static_instruction ==> supports(
            candidate,
            program[i],
        )
}

/// The uses of a candidate hold each fixed field's uses, up to merging.
pub open spec fn fixed_preserved(
    uses: Map<Seq<char>, FieldUsesV>,
    fixed: Map<Seq<char>, FieldUsesV>,
) -> bool {
    forall|name: Seq<char>| #[trigger]
        fixed.contains_key(name) ==> uses.contains_key(name) && merged_uses(uses[name])
            == merged_uses(fixed[name])
}

/// The uses that a fixed field is compared with, and its own, can be merged.
pub open spec fn fixed_mergeable(
    uses: Map<Seq<char>, FieldUsesV>,
    fixed: Map<Seq<char>, FieldUsesV>,
) -> bool {
    forall|name: Seq<char>| #[trigger]
        fixed.contains_key(name) && uses.contains_key(name) ==> uses_sized(uses[name])
            && uses_sized(fixed[name])
}

/// The encodings that a candidate leaves a form, or why the form rules the candidate out.
///
/// `None` where the question makes no sense: the uses do not fit the form.
pub open spec fn form_encodings(
    rules: RulesV,
    candidate: CandidateV,
    instruction: InstructionV,
    form: FormV,
) -> Option<Result<Set<Seq<Bit>>, ISACandidateError>> {
    let must_encode = form_active(rules.mandatory, instruction.name, form.name);
    let must_keep_all = form_active(rules.unrestricted, instruction.name, form.name);
    let left = encodings_of(form, candidate.valid_field_uses);
    let full = encodings_of(form, rules.max_uses());
    let width = instruction.width as nat;
    if !form_active(candidate.active_forms, instruction.name, form.name) {
        if must_keep_all {
            Some(Err(ISACandidateError::UnrestrictedFormsError))
        } else if must_encode {
            Some(Err(ISACandidateError::MandatoryFormsError))
        } else {
            Some(Ok(Set::empty()))
        }
    } else if !encodable(form, candidate.valid_field_uses) {
        None
    } else if must_encode && left == Set::<Seq<Bit>>::empty() {
        Some(Err(ISACandidateError::MandatoryFormsError))
    } else if !must_keep_all {
        Some(Ok(left))
    } else if !encodable(form, rules.max_uses()) || !all_of_len(full, width) || !all_of_len(
        left,
        width,
    ) {
        None
    } else if merged_patterns(full, width) != merged_patterns(left, width) {
        Some(Err(ISACandidateError::UnrestrictedFormsError))
    } else {
        Some(Ok(left))
    }
}

/// The encodings of the first forms of an instruction, or the first reason against the
/// candidate.
pub open spec fn forms_encodings(
    rules: RulesV,
    candidate: CandidateV,
    instruction: InstructionV,
    n: nat,
) -> Option<Result<Set<Seq<Bit>>, ISACandidateError>>
    decreases n,
{
    if n == 0 {
        Some(Ok(Set::empty()))
    } else {
        match forms_encodings(rules, candidate, instruction, (n - 1) as nat) {
            Some(Ok(before)) => match form_encodings(
                rules,
                candidate,
                instruction,
                instruction.forms[n - 1],
            ) {
                Some(Ok(more)) => Some(Ok(before.union(more))),
                outcome => outcome,
            },
            outcome => outcome,
        }
    }
}

/// The encodings of an instruction, or the first reason against the candidate.
pub open spec fn instruction_encodings(
    rules: RulesV,
    candidate: CandidateV,
    instruction: InstructionV,
) -> Option<Result<Set<Seq<Bit>>, ISACandidateError>> {
    match forms_encodings(rules, candidate, instruction, instruction.forms.len()) {
        Some(Ok(found)) => if rules.mandatory.contains_key(instruction.name) && found == Set::<
            Seq<Bit>,
        >::empty() {
            Some(Err(ISACandidateError::MandatoryFormsError))
        } else {
            Some(Ok(found))
        },
        outcome => outcome,
    }
}

/// The encodings of the first instructions, or the first reason against the candidate.
pub open spec fn instructions_encodings(rules: RulesV, candidate: CandidateV, n: nat) -> Option<
    Result<Set<Seq<Bit>>, ISACandidateError>,
>
    decreases n,
{
    if n == 0 {
        Some(Ok(Set::empty()))
    } else {
        match instructions_encodings(rules, candidate, (n - 1) as nat) {
            Some(Ok(before)) => match instruction_encodings(
                rules,
                candidate,
                rules.instructions[n - 1],
            ) {
                Some(Ok(more)) => Some(Ok(before.union(more))),
                outcome => outcome,
            },
            outcome => outcome,
        }
    }
}

/// All encodings that a candidate leaves valid, or the first reason against the candidate.
pub open spec fn candidate_encodings(rules: RulesV, candidate: CandidateV) -> Option<
    Result<Set<Seq<Bit>>, ISACandidateError>,
> {
    if !static_supported(candidate, rules.program) {
        Some(Err(ISACandidateError::StaticInstructionError))
    } else if !fixed_preserved(candidate.valid_field_uses, rules.fixed) {
        Some(Err(ISACandidateError::FixedFieldUsesError))
    } else {
        instructions_encodings(rules, candidate, rules.instructions.len())
    }
}

/// Nothing defined follows from something undefined.
proof fn lemma_forms_defined(
    rules: RulesV,
    candidate: CandidateV,
    instruction: InstructionV,
    k: nat,
    n: nat,
)
    requires
        k <= n,
        !(forms_encodings(rules, candidate, instruction, k) matches Some(Ok(_))),
    ensures
        forms_encodings(rules, candidate, instruction, n) == forms_encodings(
            rules,
            candidate,
            instruction,
            k,
        ),
    decreases n - k,
{
    if k < n {
        lemma_forms_defined(rules, candidate, instruction, k + 1, n);
    }
}

proof fn lemma_instructions_defined(rules: RulesV, candidate: CandidateV, k: nat, n: nat)
    requires
        k <= n,
        !(instructions_encodings(rules, candidate, k) matches Some(Ok(_))),
    ensures
        instructions_encodings(rules, candidate, n) == instructions_encodings(rules, candidate, k),
    decreases n - k,
{
    if k < n {
        lemma_instructions_defined(rules, candidate, k + 1, n);
    }
}

/// An empty list has no patterns.
proof fn lemma_pattern_set_empty(patterns: Seq<BitPattern>)
    ensures
        (patterns.len() == 0) == (pattern_set(patterns) == Set::<Seq<Bit>>::empty()),
{
    if patterns.len() == 0 {
        assert(pattern_set(patterns) =~= Set::empty());
    } else {
        assert(viewed(patterns)[0] == patterns[0]@);
        assert(pattern_set(patterns).contains(patterns[0]@));
    }
}

/// Merges the encodings of a form into a comparable shape.
pub fn normalize_encoding_patterns(encodings: Vec<BitPattern>, width: usize) -> (r: OrderedSet<
    BitPattern,
>)
    requires
        all_of_len(pattern_set(encodings@), width as nat),
    ensures
        r@ == merged_patterns(pattern_set(encodings@), width as nat),
        r.distinct(),
{
    let patterns = OrderedSet::from_vec(encodings);
    merge_pattern_set(&patterns, width)
}

impl<'a> IsaOptimizationManager<'a> {
    /// How many instructions of the program a candidate cannot run.
    pub fn instruction_conflict_count(&self, candidate: &ISACandidate) -> (r: usize)
        requires
            conditions_defined(candidate@, self@.program),
        ensures
            r == conflicts(candidate@, self@.program),
    {
        let ghost all = self@.program;
        let mut count: usize = 0;
        let mut i: usize = 0;
        assert(all.take(0) =~= Seq::empty());
        while i < self.program.len()
            invariant
                all == self@.program,
                i <= all.len(),
                count <= i,
                conditions_defined(candidate@, all),
                count == conflicts(candidate@, all.take(i as int)),
            decreases all.len() - i,
        {
            proof {
                assert(all.take(i + 1).drop_last() =~= all.take(i as int));
                assert(all.take(i + 1).last() == all[i as int]);
                assert(all[i as int] == self.program@[i as int]@);
            }
            if !candidate.supports_instruction(&self.program[i]) {
                count += 1;
            }
            i += 1;
        }
        assert(all.take(i as int) =~= all);
        count
    }

    /// Checks that a candidate runs all instructions that must stay as they are.
    pub fn validate_static_instructions(&self, candidate: &ISACandidate) -> (r: Result<
        (),
        ISACandidateError,
    >)
        requires
            conditions_defined(candidate@, self@.program),
        ensures
            r == if static_supported(candidate@, self@.program) {
                Ok::<(), ISACandidateError>(())
            } else {
                Err(ISACandidateError::StaticInstructionError)
            },
    {
        let ghost all = self@.program;
        let mut i: usize = 0;
        while i < self.program.len()
            invariant
                all == self@.program,
                i <= all.len(),
                conditions_defined(candidate@, all),
                forall|j: int|
                    0 <= j < i && (#[trigger] all[j]).static_instruction ==> supports(
                        candidate@,
                        all[j],
                    ),
            decreases all.len() - i,
        {
            assert(all[i as int] == self.program@[i as int]@);
            if self.program[i].static_instruction && !candidate.supports_instruction(
                &self.program[i],
            ) {
                return Err(ISACandidateError::StaticInstructionError);
            }
            i += 1;
        }
        Ok(())
    }

    /// Checks that a candidate preserves the fixed field uses, up to merging.
    pub fn validate_fixed_field_uses(&self, candidate: &ISACandidate) -> (r: Result<
        (),
        ISACandidateError,
    >)
        requires
            self.wf(),
            fixed_mergeable(candidate@.valid_field_uses, self@.fixed),
        ensures
            r == if fixed_preserved(candidate@.valid_field_uses, self@.fixed) {
                Ok::<(), ISACandidateError>(())
            } else {
                Err(ISACandidateError::FixedFieldUsesError)
            },
    {
        let ghost rows = self.fixed_field_uses.rows();
        let ghost fixed = self@.fixed;
        let ghost uses = candidate@.valid_field_uses;
        let mut i: usize = 0;
        while i < self.fixed_field_uses.len()
            invariant
                rows == self.fixed_field_uses.rows(),
                self.fixed_field_uses.distinct(),
                fixed == self.fixed_field_uses@,
                uses == candidate.valid_field_uses@,
                fixed_mergeable(uses, fixed),
                i <= rows.len(),
                forall|j: int|
                    0 <= j < i ==> uses.contains_key((#[trigger] rows[j]).0) && merged_uses(
                        uses[rows[j].0],
                    ) == merged_uses(rows[j].1),
            decreases rows.len() - i,
        {
            let name = self.fixed_field_uses.name_at(i);
            let wanted = self.fixed_field_uses.value_at(i);
            proof {
                self.fixed_field_uses.lemma_rows();
                crate::collections::lemma_map_of(rows, i as int);
                assert(fixed.contains_key(rows[i as int].0));
            }
            match candidate.valid_field_uses.get(name.as_str()) {
                None => {
                    return Err(ISACandidateError::FixedFieldUsesError);
                },
                Some(found) => {
                    if !found.merge().same(&wanted.merge()) {
                        return Err(ISACandidateError::FixedFieldUsesError);
                    }
                },
            }
            i += 1;
        }
        proof {
            assert forall|name: Seq<char>| #[trigger] fixed.contains_key(
                name,
            ) implies uses.contains_key(name) && merged_uses(uses[name]) == merged_uses(
                fixed[name],
            ) by {
                self.fixed_field_uses.lemma_rows();
                crate::collections::lemma_map_of_absent(rows, name);
                let j = choose|j: int| 0 <= j < rows.len() && (#[trigger] rows[j]).0 == name;
                crate::collections::lemma_map_of(rows, j);
            }
        }
        Ok(())
    }

    /// The encodings that a candidate leaves a form, or why the form rules the candidate out.
    fn form_valid_encodings(
        &self,
        candidate: &ISACandidate,
        instr: &Instruction,
        form: &InstructionForm,
    ) -> (r: Result<OrderedSet<BitPattern>, ISACandidateError>)
        requires
            self.wf(),
            form_encodings(self@, candidate@, instr@, form@) is Some,
        ensures
            match r {
                Ok(found) => form_encodings(self@, candidate@, instr@, form@) == Some(
                    Ok::<Set<Seq<Bit>>, ISACandidateError>(found@),
                ),
                Err(error) => form_encodings(self@, candidate@, instr@, form@) == Some(
                    Err::<Set<Seq<Bit>>, ISACandidateError>(error),
                ),
            },
    {
        let form_must_have_encoding = lists_form(&self.mandatory_forms, &instr.name, &form.name);
        let form_must_not_restrict_encodings = lists_form(
            &self.unrestricted_forms,
            &instr.name,
            &form.name,
        );
        // We only want to get the encodings for the form if this form actually is used in the
        // candidate
        if !lists_form(&candidate.active_forms, &instr.name, &form.name) {
            if form_must_not_restrict_encodings {
                return Err(ISACandidateError::UnrestrictedFormsError);
            }
            if form_must_have_encoding {
                return Err(ISACandidateError::MandatoryFormsError);
            }
            return Ok(OrderedSet::new());
        }
        let encodings = form.fields_to_encodings(&candidate.valid_field_uses);
        proof {
            lemma_pattern_set_empty(encodings@);
        }
        if encodings.len() == 0 && form_must_have_encoding {
            return Err(ISACandidateError::MandatoryFormsError);
        }
        let found = OrderedSet::from_vec(encodings);
        if form_must_not_restrict_encodings {
            let unmodified = form.fields_to_encodings(&self.max_isa_candidate.valid_field_uses);
            let full = normalize_encoding_patterns(unmodified, instr.width);
            let left = merge_pattern_set(&found, instr.width);
            if !full.same(&left) {
                return Err(ISACandidateError::UnrestrictedFormsError);
            }
        }
        Ok(found)
    }

    /// The encodings that a candidate leaves an instruction, or why the instruction rules the
    /// candidate out.
    fn instruction_valid_encodings(&self, candidate: &ISACandidate, instr: &Instruction) -> (r:
        Result<OrderedSet<BitPattern>, ISACandidateError>)
        requires
            self.wf(),
            instruction_encodings(self@, candidate@, instr@) is Some,
        ensures
            match r {
                Ok(found) => instruction_encodings(self@, candidate@, instr@) == Some(
                    Ok::<Set<Seq<Bit>>, ISACandidateError>(found@),
                ),
                Err(error) => instruction_encodings(self@, candidate@, instr@) == Some(
                    Err::<Set<Seq<Bit>>, ISACandidateError>(error),
                ),
            },
    {
        let mut valid_encodings: OrderedSet<BitPattern> = OrderedSet::new();
        let ghost forms = instr@.forms;
        let mut i: usize = 0;
        while i < instr.forms.len()
            invariant
                self.wf(),
                forms == viewed(instr.forms@),
                forms == instr@.forms,
                i <= forms.len(),
                forms_encodings(self@, candidate@, instr@, forms.len()) is Some,
                forms_encodings(self@, candidate@, instr@, i as nat) == Some(
                    Ok::<Set<Seq<Bit>>, ISACandidateError>(valid_encodings@),
                ),
            decreases forms.len() - i,
        {
            let form = &instr.forms[i];
            proof {
                assert(form@ == forms[i as int]);
                let next = forms_encodings(self@, candidate@, instr@, (i + 1) as nat);
                if !(next matches Some(Ok(_))) {
                    lemma_forms_defined(
                        self@,
                        candidate@,
                        instr@,
                        (i + 1) as nat,
                        forms.len(),
                    );
                }
            }
            match self.form_valid_encodings(candidate, instr, form) {
                Ok(more) => {
                    valid_encodings.extend(&more);
                },
                Err(error) => {
                    return Err(error);
                },
            }
            i += 1;
        }
        if self.mandatory_forms.contains_key(instr.name.as_str()) && valid_encodings.is_empty() {
            return Err(ISACandidateError::MandatoryFormsError);
        }
        Ok(valid_encodings)
    }

    /// Generate all valid encodings for an ISACandidate
    pub fn valid_encodings(&self, candidate: &ISACandidate) -> (r: Result<
        OrderedSet<BitPattern>,
        ISACandidateError,
    >)
        requires
            self.wf(),
            conditions_defined(candidate@, self@.program),
            static_supported(candidate@, self@.program) ==> fixed_mergeable(
                candidate@.valid_field_uses,
                self@.fixed,
            ),
            candidate_encodings(self@, candidate@) is Some,
        ensures
            match r {
                Ok(found) => candidate_encodings(self@, candidate@) == Some(
                    Ok::<Set<Seq<Bit>>, ISACandidateError>(found@),
                ),
                Err(error) => candidate_encodings(self@, candidate@) == Some(
                    Err::<Set<Seq<Bit>>, ISACandidateError>(error),
                ),
            },
    {
        if let Err(error) = self.validate_static_instructions(candidate) {
            return Err(error);
        }
        if let Err(error) = self.validate_fixed_field_uses(candidate) {
            return Err(error);
        }
        let mut valid_encodings: OrderedSet<BitPattern> = OrderedSet::new();
        let ghost instructions = self@.instructions;
        let mut i: usize = 0;
        // for each instruction, collect all valid encodings
        while i < self.isa.instructions.len()
            invariant
                self.wf(),
                instructions == self@.instructions,
                i <= instructions.len(),
                instructions_encodings(self@, candidate@, instructions.len()) is Some,
                candidate_encodings(self@, candidate@) == instructions_encodings(
                    self@,
                    candidate@,
                    instructions.len(),
                ),
                instructions_encodings(self@, candidate@, i as nat) == Some(
                    Ok::<Set<Seq<Bit>>, ISACandidateError>(valid_encodings@),
                ),
            decreases instructions.len() - i,
        {
            let instr = &self.isa.instructions[i];
            proof {
                assert(instr@ == instructions[i as int]);
                let next = instructions_encodings(self@, candidate@, (i + 1) as nat);
                if !(next matches Some(Ok(_))) {
                    lemma_instructions_defined(
                        self@,
                        candidate@,
                        (i + 1) as nat,
                        instructions.len(),
                    );
                }
            }
            match self.instruction_valid_encodings(candidate, instr) {
                Ok(more) => {
                    valid_encodings.extend(&more);
                },
                Err(error) => {
                    return Err(error);
                },
            }
            i += 1;
        }
        Ok(valid_encodings)
    }
}

} // verus!
