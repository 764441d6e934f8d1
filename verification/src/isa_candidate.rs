//! Candidates for a reduced instruction set.
use vstd::prelude::*;

use crate::bit::{pattern_matches, Bit, BitPattern};
use crate::collections::{
    lemma_map_of_absent, lemma_push_to_set, viewed, OrderedMap, OrderedSet, Value,
};
use crate::decode::check;
use crate::field_uses::{all_of_len, merged_uses, FieldUses, FieldUsesV};
use crate::isa_specification::{
    DecodedField, DecodedInstruction, DecodedV, FieldV, FormV, ISA, InstructionField,
    InstructionForm, InstructionV, MergeMode,
};

verus! {

/// Why a candidate is no valid instruction set.
#[derive(Debug, Copy, Clone, PartialEq, Eq, Structural)]
pub enum ISACandidateError {
    MandatoryFormsError,
    UnrestrictedFormsError,
    FixedFieldUsesError,
    StaticInstructionError,
}

/// A reduced instruction set: the values that fields may take and the forms that are left.
#[derive(Debug, PartialEq)]
pub struct ISACandidate {
    pub valid_field_uses: OrderedMap<FieldUses>,
    /// Key: instruction name. Value: set of form names
    pub active_forms: OrderedMap<OrderedSet<String>>,
}

/// The shape of a candidate.
pub struct CandidateV {
    pub valid_field_uses: Map<Seq<char>, FieldUsesV>,
    pub active_forms: Map<Seq<char>, Set<Seq<char>>>,
}

impl View for ISACandidate {
    type V = CandidateV;

    open spec fn view(&self) -> CandidateV {
        CandidateV {
            valid_field_uses: self.valid_field_uses@,
            active_forms: self.active_forms@,
        }
    }
}

impl ISACandidate {
    /// No name is listed twice.
    pub open spec fn wf(&self) -> bool {
        self.valid_field_uses.distinct() && self.active_forms.distinct()
    }
}

impl Clone for ISACandidate {
    fn clone(&self) -> (r: Self)
        ensures
            r@ == self@,
            r.wf() == self.wf(),
            r.valid_field_uses.rows() == self.valid_field_uses.rows(),
            r.active_forms.rows() == self.active_forms.rows(),
    {
        ISACandidate {
            valid_field_uses: self.valid_field_uses.duplicate(),
            active_forms: self.active_forms.duplicate(),
        }
    }
}

/// A row of bits has a variable bit.
pub open spec fn has_variable(bits: Seq<Bit>) -> bool {
    exists|i: int| 0 <= i < bits.len() && #[trigger] bits[i] == Bit::Var
}

/// The uses of a field allow a value.
///
/// A value with variable bits needs a listed pattern that it accepts.
pub open spec fn value_allowed(value: Seq<Bit>, uses: FieldUsesV) -> bool {
    match uses {
        FieldUsesV::Uses { patterns, .. } => if has_variable(value) {
            exists|p: Seq<Bit>| #[trigger] patterns.contains(p) && pattern_matches(value, p)
        } else {
            exists|p: Seq<Bit>| #[trigger] patterns.contains(p) && pattern_matches(p, value)
        },
        FieldUsesV::VariableBits { pattern, .. } => match pattern {
            Some(pattern) => pattern_matches(pattern, value),
            None => false,
        },
    }
}

/// The value of every named field is allowed.
pub open spec fn fields_allowed(fields: Seq<FieldV>, uses: Map<Seq<char>, FieldUsesV>) -> bool {
    forall|i: int|
        0 <= i < fields.len() && (#[trigger] fields[i]).name is Some ==> uses.contains_key(
            fields[i].name->0,
        ) && value_allowed(fields[i].bits, uses[fields[i].name->0])
}

/// A decoded instruction satisfies its form's condition and holds only allowed values.
pub open spec fn allowed_under(instruction: DecodedV, uses: Map<Seq<char>, FieldUsesV>) -> bool {
    check(instruction.form.when, instruction.bits, instruction.fields) == Some(true)
        && fields_allowed(instruction.fields, uses)
}

/// The condition of the instruction's form can be evaluated.
pub open spec fn condition_defined(instruction: DecodedV) -> bool {
    check(instruction.form.when, instruction.bits, instruction.fields) is Some
}

/// A bit of the pattern is variable.
fn any_variable(pattern: &BitPattern) -> (r: bool)
    ensures
        r == has_variable(pattern@),
{
    let mut i: usize = 0;
    while i < pattern.bits.len()
        invariant
            i <= pattern@.len(),
            forall|j: int| 0 <= j < i ==> #[trigger] pattern@[j] != Bit::Var,
        decreases pattern@.len() - i,
    {
        if pattern.bits[i] == Bit::Var {
            assert(pattern@[i as int] == Bit::Var);
            return true;
        }
        i += 1;
    }
    false
}

/// Reports whether the uses of a field allow a value.
fn allows_value(value: &BitPattern, uses: &FieldUses) -> (r: bool)
    ensures
        r == value_allowed(value@, uses@),
{
    broadcast use OrderedSet::lemma_rows;

    match uses {
        FieldUses::Uses { patterns, .. } => {
            let variable = any_variable(value);
            let ghost rows = patterns.rows();
            let mut i: usize = 0;
            while i < patterns.len()
                invariant
                    rows == patterns.rows(),
                    patterns@ == rows.to_set(),
                    i <= rows.len(),
                    variable == has_variable(value@),
                    uses@ matches FieldUsesV::Uses { patterns: all, .. } && all == patterns@,
                    forall|j: int|
                        0 <= j < i ==> !(if variable {
                            pattern_matches(value@, #[trigger] rows[j])
                        } else {
                            pattern_matches(rows[j], value@)
                        }),
                decreases rows.len() - i,
            {
                let pattern = patterns.get(i);
                let fits = if variable {
                    value.matches_bits(pattern.bits.as_slice())
                } else {
                    pattern.matches_bits(value.bits.as_slice())
                };
                if fits {
                    assert(patterns@.contains(pattern@));
                    return true;
                }
                i += 1;
            }
            proof {
                assert forall|p: Seq<Bit>| patterns@.contains(p) implies !(if variable {
                    pattern_matches(value@, p)
                } else {
                    pattern_matches(p, value@)
                }) by {
                    let j = choose|j: int| 0 <= j < rows.len() && rows[j] == p;
                    assert(rows[j] == p);
                }
            }
            false
        },
        FieldUses::VariableBits { pattern, .. } => match pattern {
            Some(pattern) => pattern.matches_bits(value.bits.as_slice()),
            None => false,
        },
    }
}

/// Returns whether a decoded instruction is valid under the supplied field-use constraints.
pub fn instruction_valid_under_field_uses(
    instr: &DecodedInstruction,
    valid_field_uses: &OrderedMap<FieldUses>,
) -> (r: bool)
    requires
        condition_defined(instr@),
    ensures
        r == allowed_under(instr@, valid_field_uses@),
{
    if !instr.form.when.check(instr) {
        return false;
    }
    let ghost fields = viewed(instr.fields@);
    let mut i: usize = 0;
    while i < instr.fields.len()
        invariant
            i <= instr.fields@.len(),
            fields == viewed(instr.fields@),
            forall|j: int|
                0 <= j < i && (#[trigger] fields[j]).name is Some
                    ==> valid_field_uses@.contains_key(fields[j].name->0) && value_allowed(
                    fields[j].bits,
                    valid_field_uses@[fields[j].name->0],
                ),
        decreases instr.fields@.len() - i,
    {
        let field = &instr.fields[i];
        assert(fields[i as int] == field@);
        if let Some(name) = &field.name {
            match valid_field_uses.get(name.as_str()) {
                None => {
                    return false;
                },
                Some(uses) => {
                    if !allows_value(&field.value, uses) {
                        return false;
                    }
                },
            }
        }
        i += 1;
    }
    true
}

/// The form of an instruction is left in a candidate.
pub open spec fn form_active(
    active: Map<Seq<char>, Set<Seq<char>>>,
    instruction: Seq<char>,
    form: Seq<char>,
) -> bool {
    active.contains_key(instruction) && active[instruction].contains(form)
}

/// A candidate can run a decoded instruction.
pub open spec fn supports(candidate: CandidateV, instruction: DecodedV) -> bool {
    form_active(candidate.active_forms, instruction.name, instruction.form.name)
        && allowed_under(instruction, candidate.valid_field_uses)
}

/// Reports whether a form of an instruction is listed.
pub(crate) fn lists_form(
    active: &OrderedMap<OrderedSet<String>>,
    instruction: &String,
    form: &String,
) -> (r: bool)
    ensures
        r == form_active(active@, instruction@, form@),
{
    match active.get(instruction.as_str()) {
        Some(forms) => forms.contains(form),
        None => false,
    }
}

impl ISACandidate {
    /// Reports whether the candidate can run a decoded instruction.
    pub fn supports_instruction(&self, instruction: &DecodedInstruction) -> (r: bool)
        requires
            form_active(self@.active_forms, instruction@.name, instruction@.form.name)
                ==> condition_defined(instruction@),
        ensures
            r == supports(self@, instruction@),
    {
        lists_form(&self.active_forms, &instruction.name, &instruction.form.name)
            && instruction_valid_under_field_uses(instruction, &self.valid_field_uses)
    }
}

/// The uses that allow exactly the pattern, or nothing at all.
pub open spec fn uses_of_pattern(
    name: Seq<char>,
    bits: Seq<Bit>,
    mode: MergeMode,
    full: bool,
) -> FieldUsesV {
    match mode {
        MergeMode::Uses => FieldUsesV::Uses {
            name,
            patterns: if full {
                set![bits]
            } else {
                Set::empty()
            },
            len: bits.len() as usize,
        },
        MergeMode::VariableBits => FieldUsesV::VariableBits {
            name,
            pattern: if full {
                Some(bits)
            } else {
                None
            },
            len: bits.len() as usize,
        },
    }
}

/// The uses with those of one more field; the first field of a name counts.
pub open spec fn with_field(uses: Map<Seq<char>, FieldUsesV>, field: FieldV, full: bool) -> Map<
    Seq<char>,
    FieldUsesV,
> {
    match field.name {
        Some(name) => if uses.contains_key(name) {
            uses
        } else {
            uses.insert(name, uses_of_pattern(name, field.bits, field.merge_mode, full))
        },
        None => uses,
    }
}

/// The uses with those of several fields.
pub open spec fn with_fields(uses: Map<Seq<char>, FieldUsesV>, fields: Seq<FieldV>, full: bool) -> Map<
    Seq<char>,
    FieldUsesV,
>
    decreases fields.len(),
{
    if fields.len() == 0 {
        uses
    } else {
        with_field(with_fields(uses, fields.drop_last(), full), fields.last(), full)
    }
}

/// The uses with those of several forms.
pub open spec fn with_forms(uses: Map<Seq<char>, FieldUsesV>, forms: Seq<FormV>, full: bool) -> Map<
    Seq<char>,
    FieldUsesV,
>
    decreases forms.len(),
{
    if forms.len() == 0 {
        uses
    } else {
        with_fields(with_forms(uses, forms.drop_last(), full), forms.last().fields, full)
    }
}

/// The uses of all fields of the instructions: each allows its whole pattern, or nothing.
pub open spec fn isa_uses(instructions: Seq<InstructionV>, full: bool) -> Map<Seq<char>, FieldUsesV>
    decreases instructions.len(),
{
    if instructions.len() == 0 {
        Map::empty()
    } else {
        with_forms(isa_uses(instructions.drop_last(), full), instructions.last().forms, full)
    }
}

/// The names of forms.
pub open spec fn form_names(forms: Seq<FormV>) -> Set<Seq<char>> {
    Seq::new(forms.len(), |i: int| forms[i].name).to_set()
}

/// The forms of all instructions, or none of them, by instruction name.
pub open spec fn isa_forms(instructions: Seq<InstructionV>, full: bool) -> Map<
    Seq<char>,
    Set<Seq<char>>,
>
    decreases instructions.len(),
{
    if instructions.len() == 0 {
        Map::empty()
    } else {
        isa_forms(instructions.drop_last(), full).insert(
            instructions.last().name,
            if full {
                form_names(instructions.last().forms)
            } else {
                Set::empty()
            },
        )
    }
}

/// The candidate that supports everything that the instructions can do.
pub open spec fn max_candidate(instructions: Seq<InstructionV>) -> CandidateV {
    CandidateV {
        valid_field_uses: isa_uses(instructions, true),
        active_forms: isa_forms(instructions, true),
    }
}

/// The set of one pattern.
pub(crate) fn single_pattern(pattern: BitPattern) -> (r: OrderedSet<BitPattern>)
    ensures
        r@ == set![pattern@],
        r.distinct(),
{
    let mut r: OrderedSet<BitPattern> = OrderedSet::new();
    r.insert(pattern);
    r
}

/// The uses that allow exactly a pattern, or nothing.
pub(crate) fn make_uses(name: &String, pattern: &BitPattern, mode: MergeMode, full: bool) -> (r:
    FieldUses)
    ensures
        r@ == uses_of_pattern(name@, pattern@, mode, full),
{
    match mode {
        MergeMode::Uses => FieldUses::Uses {
            name: name.clone(),
            patterns: if full {
                single_pattern(pattern.clone())
            } else {
                OrderedSet::new()
            },
            len: pattern.len(),
        },
        MergeMode::VariableBits => FieldUses::VariableBits {
            name: name.clone(),
            pattern: if full {
                Some(pattern.clone())
            } else {
                None
            },
            len: pattern.len(),
        },
    }
}

/// Adds the uses of fields whose names are new.
fn add_fields(uses: &mut OrderedMap<FieldUses>, fields: &Vec<InstructionField>, full: bool)
    ensures
        final(uses)@ == with_fields(old(uses)@, viewed(fields@), full),
        old(uses).distinct() ==> final(uses).distinct(),
{
    let ghost all = viewed(fields@);
    let ghost start = uses@;
    let mut i: usize = 0;
    assert(all.take(0) =~= Seq::empty());
    while i < fields.len()
        invariant
            i <= fields@.len(),
            all == viewed(fields@),
            uses@ == with_fields(start, all.take(i as int), full),
            old(uses).distinct() ==> uses.distinct(),
        decreases fields@.len() - i,
    {
        let field = &fields[i];
        proof {
            assert(all.take(i + 1).drop_last() =~= all.take(i as int));
            assert(all.take(i + 1).last() == field@);
        }
        if let Some(name) = &field.name {
            if !uses.contains_key(name.as_str()) {
                uses.insert(name.clone(), make_uses(name, &field.pattern, field.merge_mode, full));
            }
        }
        i += 1;
    }
    assert(all.take(i as int) =~= all);
}

fn add_forms(uses: &mut OrderedMap<FieldUses>, forms: &Vec<InstructionForm>, full: bool)
    ensures
        final(uses)@ == with_forms(old(uses)@, viewed(forms@), full),
        old(uses).distinct() ==> final(uses).distinct(),
{
    let ghost all = viewed(forms@);
    let ghost start = uses@;
    let mut i: usize = 0;
    assert(all.take(0) =~= Seq::empty());
    while i < forms.len()
        invariant
            i <= forms@.len(),
            all == viewed(forms@),
            uses@ == with_forms(start, all.take(i as int), full),
            old(uses).distinct() ==> uses.distinct(),
        decreases forms@.len() - i,
    {
        proof {
            assert(all.take(i + 1).drop_last() =~= all.take(i as int));
            assert(all.take(i + 1).last() == forms@[i as int]@);
        }
        add_fields(uses, &forms[i].fields, full);
        i += 1;
    }
    assert(all.take(i as int) =~= all);
}

/// Lists the uses of all fields of an instruction set.
pub(crate) fn collect_uses(isa: &ISA, full: bool) -> (r: OrderedMap<FieldUses>)
    ensures
        r@ == isa_uses(viewed(isa.instructions@), full),
        r.distinct(),
{
    let ghost all = viewed(isa.instructions@);
    let mut uses: OrderedMap<FieldUses> = OrderedMap::new();
    let mut i: usize = 0;
    assert(all.take(0) =~= Seq::empty());
    while i < isa.instructions.len()
        invariant
            i <= isa.instructions@.len(),
            all == viewed(isa.instructions@),
            uses@ == isa_uses(all.take(i as int), full),
            uses.distinct(),
        decreases isa.instructions@.len() - i,
    {
        proof {
            assert(all.take(i + 1).drop_last() =~= all.take(i as int));
            assert(all.take(i + 1).last() == isa.instructions@[i as int]@);
        }
        add_forms(&mut uses, &isa.instructions[i].forms, full);
        i += 1;
    }
    assert(all.take(i as int) =~= all);
    uses
}

/// Lists the names of forms.
fn names_of_forms(forms: &Vec<InstructionForm>) -> (r: OrderedSet<String>)
    ensures
        r@ == form_names(viewed(forms@)),
        r.distinct(),
{
    let ghost names = Seq::new(viewed(forms@).len(), |i: int| viewed(forms@)[i].name);
    let mut r: OrderedSet<String> = OrderedSet::new();
    let mut i: usize = 0;
    assert(names.take(0).to_set() =~= Set::empty());
    while i < forms.len()
        invariant
            i <= forms@.len(),
            names == Seq::new(viewed(forms@).len(), |i: int| viewed(forms@)[i].name),
            r@ == names.take(i as int).to_set(),
            r.distinct(),
        decreases forms@.len() - i,
    {
        r.insert(forms[i].name.clone());
        proof {
            assert(names[i as int] == forms@[i as int]@.name);
            assert(names.take(i + 1) =~= names.take(i as int).push(names[i as int]));
            lemma_push_to_set(names.take(i as int), names[i as int]);
        }
        i += 1;
    }
    assert(names.take(i as int) =~= names);
    r
}

/// Lists the forms of all instructions, or none of them.
fn collect_forms(isa: &ISA, full: bool) -> (r: OrderedMap<OrderedSet<String>>)
    ensures
        r@ == isa_forms(viewed(isa.instructions@), full),
        r.distinct(),
{
    let ghost all = viewed(isa.instructions@);
    let mut active: OrderedMap<OrderedSet<String>> = OrderedMap::new();
    let mut i: usize = 0;
    assert(all.take(0) =~= Seq::empty());
    while i < isa.instructions.len()
        invariant
            i <= isa.instructions@.len(),
            all == viewed(isa.instructions@),
            active@ == isa_forms(all.take(i as int), full),
            active.distinct(),
        decreases isa.instructions@.len() - i,
    {
        proof {
            assert(all.take(i + 1).drop_last() =~= all.take(i as int));
            assert(all.take(i + 1).last() == isa.instructions@[i as int]@);
        }
        let names = if full {
            names_of_forms(&isa.instructions[i].forms)
        } else {
            OrderedSet::new()
        };
        active.insert(isa.instructions[i].name.clone(), names);
        i += 1;
    }
    assert(all.take(i as int) =~= all);
    active
}

impl ISACandidate {
    /// Generates an ISACandidate which supports all functions of an ISA
    pub fn max_isa(isa: &ISA) -> (r: Self)
        ensures
            r@ == max_candidate(viewed(isa.instructions@)),
            r.wf(),
    {
        ISACandidate {
            valid_field_uses: collect_uses(isa, true),
            active_forms: collect_forms(isa, true),
        }
    }
}

/// The pattern that stands for both rows of bits: variable where they differ.
pub open spec fn blended(old_bits: Seq<Bit>, new_bits: Seq<Bit>) -> Seq<Bit> {
    Seq::new(
        old_bits.len(),
        |i: int|
            if i < new_bits.len() && old_bits[i] != new_bits[i] {
                Bit::Var
            } else {
                old_bits[i]
            },
    )
}

/// The uses that also allow an observed value.
///
/// `None` where the value has another length than the values before.
pub open spec fn observed_value(uses: FieldUsesV, bits: Seq<Bit>) -> Option<FieldUsesV> {
    match uses {
        FieldUsesV::Uses { name, patterns, len } => if len == bits.len() {
            Some(FieldUsesV::Uses { name, patterns: patterns.insert(bits), len })
        } else {
            None
        },
        FieldUsesV::VariableBits { name, pattern, len } => if len == bits.len() && pattern is Some {
            Some(
                FieldUsesV::VariableBits { name, pattern: Some(blended(pattern->0, bits)), len },
            )
        } else {
            None
        },
    }
}

/// The observed uses with those of one more decoded field.
pub open spec fn observed_field(uses: Map<Seq<char>, FieldUsesV>, field: FieldV) -> Option<
    Map<Seq<char>, FieldUsesV>,
> {
    match field.name {
        None => Some(uses),
        Some(name) => {
            let before = if uses.contains_key(name) {
                uses[name]
            } else {
                uses_of_pattern(name, field.bits, field.merge_mode, true)
            };
            match observed_value(before, field.bits) {
                Some(after) => Some(uses.insert(name, after)),
                None => None,
            }
        },
    }
}

/// The observed uses with those of several decoded fields.
pub open spec fn observed_fields(uses: Map<Seq<char>, FieldUsesV>, fields: Seq<FieldV>) -> Option<
    Map<Seq<char>, FieldUsesV>,
>
    decreases fields.len(),
{
    if fields.len() == 0 {
        Some(uses)
    } else {
        match observed_fields(uses, fields.drop_last()) {
            Some(before) => observed_field(before, fields.last()),
            None => None,
        }
    }
}

/// The values that a program's fields take.
pub open spec fn observed_program(program: Seq<DecodedV>) -> Option<Map<Seq<char>, FieldUsesV>>
    decreases program.len(),
{
    if program.len() == 0 {
        Some(Map::empty())
    } else {
        match observed_program(program.drop_last()) {
            Some(before) => observed_fields(before, program.last().fields),
            None => None,
        }
    }
}

/// The forms that a program uses, added to the listed ones.
pub open spec fn used_forms(forms: Map<Seq<char>, Set<Seq<char>>>, program: Seq<DecodedV>) -> Map<
    Seq<char>,
    Set<Seq<char>>,
>
    decreases program.len(),
{
    if program.len() == 0 {
        forms
    } else {
        with_form(
            used_forms(forms, program.drop_last()),
            program.last().name,
            program.last().form.name,
        )
    }
}

/// The listed forms with one more.
pub open spec fn with_form(
    forms: Map<Seq<char>, Set<Seq<char>>>,
    instruction: Seq<char>,
    form: Seq<char>,
) -> Map<Seq<char>, Set<Seq<char>>> {
    forms.insert(
        instruction,
        (if forms.contains_key(instruction) {
            forms[instruction]
        } else {
            Set::empty()
        }).insert(form),
    )
}

/// All uses merged.
pub open spec fn merged_map(uses: Map<Seq<char>, FieldUsesV>) -> Map<Seq<char>, FieldUsesV> {
    Map::new(|name: Seq<char>| uses.contains_key(name), |name: Seq<char>| merged_uses(uses[name]))
}

/// The smallest candidate that runs a program: the forms and values that the program uses.
pub open spec fn program_candidate(instructions: Seq<InstructionV>, program: Seq<DecodedV>) -> CandidateV {
    CandidateV {
        valid_field_uses: isa_uses(instructions, false).union_prefer_right(
            merged_map(observed_program(program)->0),
        ),
        active_forms: used_forms(isa_forms(instructions, false), program),
    }
}

/// Listed patterns have the stated length.
pub open spec fn uses_sized(uses: FieldUsesV) -> bool {
    uses matches FieldUsesV::Uses { patterns, len, .. } ==> all_of_len(patterns, len as nat)
}

/// Listed patterns of all fields have the stated lengths.
pub open spec fn map_sized(uses: Map<Seq<char>, FieldUsesV>) -> bool {
    forall|name: Seq<char>| #[trigger] uses.contains_key(name) ==> uses_sized(uses[name])
}

/// Blends a row of bits into another one.
pub(crate) fn blend(old_bits: &BitPattern, new_bits: &BitPattern) -> (r: BitPattern)
    ensures
        r@ == blended(old_bits@, new_bits@),
{
    let mut bits: Vec<Bit> = Vec::new();
    let mut i: usize = 0;
    while i < old_bits.bits.len()
        invariant
            i <= old_bits@.len(),
            bits@ == blended(old_bits@, new_bits@).take(i as int),
        decreases old_bits@.len() - i,
    {
        let bit = if i < new_bits.bits.len() && old_bits.bits[i] != new_bits.bits[i] {
            Bit::Var
        } else {
            old_bits.bits[i]
        };
        bits.push(bit);
        i += 1;
        assert(bits@ =~= blended(old_bits@, new_bits@).take(i as int));
    }
    assert(bits@ =~= blended(old_bits@, new_bits@));
    BitPattern { bits }
}

/// Adds an observed value to the uses of a field.
fn observe_value(uses: FieldUses, value: &BitPattern) -> (r: Option<FieldUses>)
    requires
        uses_sized(uses@),
    ensures
        match r {
            Some(after) => observed_value(uses@, value@) == Some(after@) && uses_sized(after@),
            None => observed_value(uses@, value@) is None,
        },
{
    match uses {
        FieldUses::Uses { name, patterns, len } => {
            if len != value.len() {
                return None;
            }
            let mut patterns = patterns;
            patterns.insert(value.clone());
            Some(FieldUses::Uses { name, patterns, len })
        },
        FieldUses::VariableBits { name, pattern, len } => {
            if len != value.len() {
                return None;
            }
            match &pattern {
                Some(pattern) => {
                    let blended = blend(pattern, value);
                    Some(FieldUses::VariableBits { name, pattern: Some(blended), len })
                },
                None => None,
            }
        },
    }
}

proof fn lemma_observed_prefix(uses: Map<Seq<char>, FieldUsesV>, fields: Seq<FieldV>, k: int)
    requires
        0 <= k <= fields.len(),
        observed_fields(uses, fields) is Some,
    ensures
        observed_fields(uses, fields.take(k)) is Some,
    decreases fields.len(),
{
    if k == fields.len() {
        assert(fields.take(k) =~= fields);
    } else {
        lemma_observed_prefix(uses, fields.drop_last(), k);
        assert(fields.drop_last().take(k) =~= fields.take(k));
    }
}

/// Adds the values of decoded fields to the observed uses, and reports whether they fit.
fn observe_fields(uses: &mut OrderedMap<FieldUses>, fields: &Vec<DecodedField>) -> (r: bool)
    requires
        map_sized(old(uses)@),
        old(uses).distinct(),
    ensures
        r == (observed_fields(old(uses)@, viewed(fields@)) is Some),
        r ==> observed_fields(old(uses)@, viewed(fields@)) == Some(final(uses)@),
        map_sized(final(uses)@),
        final(uses).distinct(),
{
    let ghost all = viewed(fields@);
    let ghost start = uses@;
    let mut i: usize = 0;
    assert(all.take(0) =~= Seq::empty());
    while i < fields.len()
        invariant
            i <= fields@.len(),
            all == viewed(fields@),
            start == old(uses)@,
            observed_fields(start, all.take(i as int)) == Some(uses@),
            map_sized(uses@),
            uses.distinct(),
        decreases fields@.len() - i,
    {
        let field = &fields[i];
        proof {
            assert(all.take(i + 1).drop_last() =~= all.take(i as int));
            assert(all.take(i + 1).last() == field@);
            if observed_fields(start, all) is Some {
                lemma_observed_prefix(start, all, i + 1);
            }
        }
        if let Some(name) = &field.name {
            let before = match uses.get(name.as_str()) {
                Some(known) => known.duplicate(),
                None => make_uses(name, &field.value, field.merge_mode, true),
            };
            assert(field.value.bits.len() == field.value@.len());
            match observe_value(before, &field.value) {
                Some(after) => {
                    uses.insert(name.clone(), after);
                },
                None => {
                    return false;
                },
            }
        }
        i += 1;
    }
    assert(all.take(i as int) =~= all);
    true
}

proof fn lemma_observed_program_prefix(program: Seq<DecodedV>, k: int)
    requires
        0 <= k <= program.len(),
        observed_program(program) is Some,
    ensures
        observed_program(program.take(k)) is Some,
    decreases program.len(),
{
    if k == program.len() {
        assert(program.take(k) =~= program);
    } else {
        lemma_observed_program_prefix(program.drop_last(), k);
        assert(program.drop_last().take(k) =~= program.take(k));
    }
}

/// Adds a form to the listed forms of an instruction.
pub(crate) fn add_form(
    active: &mut OrderedMap<OrderedSet<String>>,
    instruction: &String,
    form: &String,
)
    ensures
        final(active)@ == with_form(old(active)@, instruction@, form@),
        old(active).distinct() ==> final(active).distinct(),
{
    let mut forms = match active.get(instruction.as_str()) {
        Some(forms) => forms.duplicate(),
        None => OrderedSet::new(),
    };
    forms.insert(form.clone());
    active.insert(instruction.clone(), forms);
}

/// Merges all observed uses and puts them over the given ones.
fn override_with_merged(base: &mut OrderedMap<FieldUses>, observed: &OrderedMap<FieldUses>)
    requires
        map_sized(observed@),
        observed.distinct(),
    ensures
        final(base)@ == old(base)@.union_prefer_right(merged_map(observed@)),
        old(base).distinct() ==> final(base).distinct(),
{
    broadcast use OrderedMap::lemma_rows;

    let ghost rows = observed.rows();
    let ghost start = base@;
    let ghost merged = merged_map(observed@);
    let ghost names = Seq::new(rows.len(), |i: int| rows[i].0);
    let mut i: usize = 0;
    assert(names.take(0).to_set() =~= Set::empty());
    assert(base@ =~= start.union_prefer_right(merged.restrict(names.take(0).to_set())));
    while i < observed.len()
        invariant
            i <= rows.len(),
            rows == observed.rows(),
            names == Seq::new(rows.len(), |i: int| rows[i].0),
            merged == merged_map(observed@),
            map_sized(observed@),
            observed.distinct(),
            base@ == start.union_prefer_right(merged.restrict(names.take(i as int).to_set())),
            old(base).distinct() ==> base.distinct(),
        decreases rows.len() - i,
    {
        let name = observed.name_at(i);
        let uses = observed.value_at(i);
        assert(uses_sized(observed@[name@]));
        base.insert(name.clone(), uses.merge());
        proof {
            assert(names[i as int] == name@);
            assert(names.take(i + 1) =~= names.take(i as int).push(names[i as int]));
            lemma_push_to_set(names.take(i as int), names[i as int]);
            assert(base@ =~= start.union_prefer_right(
                merged.restrict(names.take(i + 1).to_set()),
            ));
        }
        i += 1;
    }
    proof {
        assert(names.take(i as int) =~= names);
        assert forall|name: Seq<char>| merged.contains_key(name) implies names.to_set().contains(
            name,
        ) by {
            lemma_map_of_absent(rows, name);
            let k = choose|k: int| 0 <= k < rows.len() && (#[trigger] rows[k]).0 == name;
            assert(names[k] == name);
        }
        assert(merged.restrict(names.to_set()) =~= merged);
    }
}

impl ISACandidate {
    /// The smallest candidate that runs a program.
    pub fn from_program(isa: &ISA, program: &Vec<DecodedInstruction>) -> (r: Self)
        requires
            observed_program(viewed(program@)) is Some,
        ensures
            r@ == program_candidate(viewed(isa.instructions@), viewed(program@)),
            r.wf(),
    {
        Self::try_from_program(isa, program).unwrap()
    }

    /// The smallest candidate that runs a program; `None` where a field has values of different
    /// lengths.
    pub fn try_from_program(isa: &ISA, program: &Vec<DecodedInstruction>) -> (r: Option<Self>)
        ensures
            match r {
                Some(candidate) => {
                    &&& observed_program(viewed(program@)) is Some
                    &&& candidate@ == program_candidate(
                        viewed(isa.instructions@),
                        viewed(program@),
                    )
                    &&& candidate.wf()
                },
                None => observed_program(viewed(program@)) is None,
            },
    {
        let ghost all = viewed(program@);
        let mut observed: OrderedMap<FieldUses> = OrderedMap::new();
        let mut active_forms = collect_forms(isa, false);
        let ghost listed = active_forms@;
        let mut i: usize = 0;
        assert(all.take(0) =~= Seq::empty());
        while i < program.len()
            invariant
                i <= program@.len(),
                all == viewed(program@),
                observed_program(all.take(i as int)) == Some(observed@),
                map_sized(observed@),
                observed.distinct(),
                active_forms@ == used_forms(listed, all.take(i as int)),
                active_forms.distinct(),
            decreases program@.len() - i,
        {
            let decoded = &program[i];
            proof {
                assert(all.take(i + 1).drop_last() =~= all.take(i as int));
                assert(all.take(i + 1).last() == decoded@);
                if observed_program(all) is Some {
                    lemma_observed_program_prefix(all, i + 1);
                }
            }
            add_form(&mut active_forms, &decoded.name, &decoded.form.name);
            if !observe_fields(&mut observed, &decoded.fields) {
                return None;
            }
            i += 1;
        }
        assert(all.take(i as int) =~= all);
        let mut valid_field_uses = collect_uses(isa, false);
        override_with_merged(&mut valid_field_uses, &observed);
        Some(ISACandidate { valid_field_uses, active_forms })
    }
}

} // verus!
