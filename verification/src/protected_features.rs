//! Fields and forms that the search must leave as they are.
use vstd::prelude::*;

use crate::bit::{variable_pattern, BitPattern};
use crate::collections::{lemma_map_of, lemma_map_of_absent, viewed, OrderedSet, Value};
use crate::field_uses::{FieldUses, FieldUsesV};
use crate::isa_candidate::{form_active, lists_form, CandidateV, ISACandidate};
use crate::isa_optimization::{IsaOptimizationManager, RulesV};
use crate::isa_specification::{
    FieldV, FormV, Instruction, InstructionField, InstructionForm, InstructionV,
};

verus! {

/// A field of the row has the name.
pub open spec fn names_field(fields: Seq<FieldV>, name: Seq<char>) -> bool {
    exists|k: int| 0 <= k < fields.len() && (#[trigger] fields[k]).name == Some(name)
}

/// The form at `j` must keep all encodings, and has a field of the name.
pub open spec fn keeps_field(
    rules: RulesV,
    instruction: InstructionV,
    j: int,
    name: Seq<char>,
) -> bool {
    form_active(rules.unrestricted, instruction.name, instruction.forms[j].name) && names_field(
        instruction.forms[j].fields,
        name,
    )
}

/// One of the first `n` forms must keep all encodings, and has a field of the name.
pub open spec fn forms_keep_field(
    rules: RulesV,
    instruction: InstructionV,
    n: int,
    name: Seq<char>,
) -> bool {
    exists|j: int| 0 <= j < n && #[trigger] keeps_field(rules, instruction, j, name)
}

/// The names of the fields of unrestricted forms.
pub open spec fn unrestricted_names(rules: RulesV) -> Set<Seq<char>> {
    Set::new(
        |name: Seq<char>|
            exists|i: int|
                0 <= i < rules.instructions.len() && #[trigger] forms_keep_field(
                    rules,
                    rules.instructions[i],
                    rules.instructions[i].forms.len() as int,
                    name,
                ),
    )
}

/// A field of the row has the name and selects a register.
pub open spec fn selects_register(fields: Seq<FieldV>, name: Seq<char>) -> bool {
    exists|k: int|
        0 <= k < fields.len() && (#[trigger] fields[k]).name == Some(name) && (
        fields[k].is_register_read || fields[k].is_register_write)
}

/// A form has a field of the name that selects a register.
pub open spec fn form_selects_register(forms: Seq<FormV>, name: Seq<char>) -> bool {
    exists|j: int| 0 <= j < forms.len() && selects_register((#[trigger] forms[j]).fields, name)
}

/// Some field of the name selects a register.
pub open spec fn register_operand(instructions: Seq<InstructionV>, name: Seq<char>) -> bool {
    exists|i: int|
        0 <= i < instructions.len() && form_selects_register(
            (#[trigger] instructions[i]).forms,
            name,
        )
}

/// The search may restrict the field: it selects no register, and no form that must keep all
/// encodings has it.
pub open spec fn selectable(rules: RulesV, name: Seq<char>) -> bool {
    !register_operand(rules.instructions, name) && !unrestricted_names(rules).contains(name)
}

/// The uses with those of unrestricted fields as in the unreduced instruction set.
pub open spec fn restored_uses(rules: RulesV, uses: Map<Seq<char>, FieldUsesV>) -> Map<
    Seq<char>,
    FieldUsesV,
> {
    uses.union_prefer_right(rules.max_uses().restrict(unrestricted_names(rules)))
}

/// The listed forms with all unrestricted ones.
pub open spec fn restored_forms(rules: RulesV, forms: Map<Seq<char>, Set<Seq<char>>>) -> Map<
    Seq<char>,
    Set<Seq<char>>,
> {
    Map::new(
        |name: Seq<char>| forms.contains_key(name) || rules.unrestricted.contains_key(name),
        |name: Seq<char>|
            listed_forms(forms, name).union(listed_forms(rules.unrestricted, name)),
    )
}

/// The forms listed for an instruction, none where it is missing.
pub open spec fn listed_forms(forms: Map<Seq<char>, Set<Seq<char>>>, name: Seq<char>) -> Set<
    Seq<char>,
> {
    if forms.contains_key(name) {
        forms[name]
    } else {
        Set::empty()
    }
}

/// One of the first rows has the name.
spec fn named_before(rows: Seq<(Seq<char>, Set<Seq<char>>)>, n: int, name: Seq<char>) -> bool {
    exists|j: int| 0 <= j < n && (#[trigger] rows[j]).0 == name
}

/// The candidate with all unrestricted features.
pub open spec fn restored(rules: RulesV, candidate: CandidateV) -> CandidateV {
    CandidateV {
        valid_field_uses: restored_uses(rules, candidate.valid_field_uses),
        active_forms: restored_forms(rules, candidate.active_forms),
    }
}

/// Uses that allow every value.
pub open spec fn opened(uses: FieldUsesV) -> FieldUsesV {
    match uses {
        FieldUsesV::Uses { name, len, .. } => FieldUsesV::Uses {
            name,
            patterns: set![variable_pattern(len as nat)],
            len,
        },
        FieldUsesV::VariableBits { name, len, .. } => FieldUsesV::VariableBits {
            name,
            pattern: Some(variable_pattern(len as nat)),
            len,
        },
    }
}

/// The uses with every value allowed for the fields that the search may not restrict.
pub open spec fn opened_uses(rules: RulesV, uses: Map<Seq<char>, FieldUsesV>) -> Map<
    Seq<char>,
    FieldUsesV,
> {
    Map::new(
        |name: Seq<char>| uses.contains_key(name),
        |name: Seq<char>|
            if selectable(rules, name) {
                uses[name]
            } else {
                opened(uses[name])
            },
    )
}

/// Restoring puts every unrestricted form and every use of their fields back.
pub proof fn lemma_restored_keeps_unrestricted(rules: RulesV, candidate: CandidateV)
    ensures
        forall|instruction: Seq<char>, form: Seq<char>|
            form_active(rules.unrestricted, instruction, form) ==> #[trigger] form_active(
                restored(rules, candidate).active_forms,
                instruction,
                form,
            ),
        forall|name: Seq<char>|
            unrestricted_names(rules).contains(name) && rules.max_uses().contains_key(name)
                ==> #[trigger] restored(rules, candidate).valid_field_uses.contains_key(name)
                && restored(rules, candidate).valid_field_uses[name] == rules.max_uses()[name],
{
}

/// Restoring twice is restoring once.
pub proof fn lemma_restored_twice(rules: RulesV, candidate: CandidateV)
    ensures
        restored(rules, restored(rules, candidate)) == restored(rules, candidate),
{
    let once = restored(rules, candidate);
    let twice = restored(rules, once);
    assert(twice.valid_field_uses =~= once.valid_field_uses);
    assert forall|name: Seq<char>| #[trigger] once.active_forms.contains_key(
        name,
    ) implies twice.active_forms[name] == once.active_forms[name] by {
        assert(twice.active_forms[name] =~= once.active_forms[name]);
    }
    assert(twice.active_forms =~= once.active_forms);
}

/// Adds the names of fields to a set.
fn add_field_names(names: &mut OrderedSet<String>, fields: &Vec<InstructionField>)
    ensures
        final(names)@ == old(names)@.union(
            Set::new(|name: Seq<char>| names_field(viewed(fields@), name)),
        ),
        old(names).distinct() ==> final(names).distinct(),
{
    let ghost all = viewed(fields@);
    let ghost before = names@;
    let mut k: usize = 0;
    assert(names@ =~= before.union(
        Set::new(|name: Seq<char>| names_field(all.take(0), name)),
    ));
    while k < fields.len()
        invariant
            all == viewed(fields@),
            k <= all.len(),
            old(names).distinct() ==> names.distinct(),
            names@ == before.union(
                Set::new(|name: Seq<char>| names_field(all.take(k as int), name)),
            ),
        decreases all.len() - k,
    {
        let field = &fields[k];
        assert(field@ == all[k as int]);
        let ghost now = names@;
        if let Some(name) = &field.name {
            names.insert(name.clone());
        }
        proof {
            assert forall|name: Seq<char>|
                names_field(all.take(k + 1), name) == (names_field(all.take(k as int), name)
                    || all[k as int].name == Some(name)) by {
                if names_field(all.take(k as int), name) {
                    let j = choose|j: int|
                        0 <= j < k && (#[trigger] all.take(k as int)[j]).name == Some(name);
                    assert(all.take(k + 1)[j].name == Some(name));
                }
                assert(all.take(k + 1)[k as int] == all[k as int]);
                if names_field(all.take(k + 1), name) && all[k as int].name != Some(name) {
                    let j = choose|j: int|
                        0 <= j < k + 1 && (#[trigger] all.take(k + 1)[j]).name == Some(name);
                    assert(all.take(k as int)[j].name == Some(name));
                }
            }
            assert(names@ =~= before.union(
                Set::new(|name: Seq<char>| names_field(all.take(k + 1), name)),
            ));
        }
        k += 1;
    }
    assert(all.take(k as int) =~= all);
}

impl<'a> IsaOptimizationManager<'a> {
    /// Adds the names of the fields of an instruction's unrestricted forms to a set.
    fn add_unrestricted_names(&self, names: &mut OrderedSet<String>, instruction: &Instruction)
        ensures
            final(names)@ == old(names)@.union(
                Set::new(
                    |name: Seq<char>|
                        forms_keep_field(
                            self@,
                            instruction@,
                            instruction@.forms.len() as int,
                            name,
                        ),
                ),
            ),
            old(names).distinct() ==> final(names).distinct(),
    {
        let ghost before = names@;
        let ghost forms = instruction@.forms;
        let mut j: usize = 0;
        assert(names@ =~= before.union(
            Set::new(|name: Seq<char>| forms_keep_field(self@, instruction@, 0, name)),
        ));
        while j < instruction.forms.len()
            invariant
                forms == viewed(instruction.forms@),
                forms == instruction@.forms,
                j <= forms.len(),
                old(names).distinct() ==> names.distinct(),
                names@ == before.union(
                    Set::new(
                        |name: Seq<char>| forms_keep_field(self@, instruction@, j as int, name),
                    ),
                ),
            decreases forms.len() - j,
        {
            let form = &instruction.forms[j];
            assert(form@ == forms[j as int]);
            if lists_form(&self.unrestricted_forms, &instruction.name, &form.name) {
                add_field_names(names, &form.fields);
            }
            proof {
                assert forall|name: Seq<char>|
                    forms_keep_field(self@, instruction@, j + 1, name) == (forms_keep_field(
                        self@,
                        instruction@,
                        j as int,
                        name,
                    ) || keeps_field(self@, instruction@, j as int, name)) by {}
                assert(names@ =~= before.union(
                    Set::new(|name: Seq<char>| forms_keep_field(self@, instruction@, j + 1, name)),
                ));
            }
            j += 1;
        }
    }

    /// The names of the fields of unrestricted forms.
    pub fn unrestricted_field_names(&self) -> (r: OrderedSet<String>)
        ensures
            r@ == unrestricted_names(self@),
            r.distinct(),
    {
        let mut names: OrderedSet<String> = OrderedSet::new();
        let ghost instructions = self@.instructions;
        let ghost kept = |i: int, name: Seq<char>|
            forms_keep_field(
                self@,
                instructions[i],
                instructions[i].forms.len() as int,
                name,
            );
        let mut i: usize = 0;
        while i < self.isa.instructions.len()
            invariant
                instructions == self@.instructions,
                i <= instructions.len(),
                names.distinct(),
                forall|name: Seq<char>| #[trigger]
                    names@.contains(name) == exists|j: int|
                        0 <= j < i && #[trigger] forms_keep_field(
                            self@,
                            instructions[j],
                            instructions[j].forms.len() as int,
                            name,
                        ),
            decreases instructions.len() - i,
        {
            let instruction = &self.isa.instructions[i];
            assert(instruction@ == instructions[i as int]);
            self.add_unrestricted_names(&mut names, instruction);
            i += 1;
        }
        assert(names@ =~= unrestricted_names(self@));
        names
    }

    /// Puts all unrestricted forms, and all uses of their fields, back into a candidate.
    pub fn restore_unrestricted_features(&self, candidate: &mut ISACandidate)
        requires
            self.wf(),
        ensures
            final(candidate)@ == restored(self@, old(candidate)@),
            old(candidate).wf() ==> final(candidate).wf(),
    {
        let names = self.unrestricted_field_names();
        let ghost rows = names.rows();
        let ghost before = candidate@;
        let ghost max = self@.max_uses();
        let mut i: usize = 0;
        proof {
            assert(candidate.valid_field_uses@ =~= before.valid_field_uses.union_prefer_right(
                max.restrict(rows.take(0).to_set()),
            ));
        }
        while i < names.len()
            invariant
                self.wf(),
                rows == names.rows(),
                max == self@.max_uses(),
                i <= rows.len(),
                old(candidate).wf() ==> candidate.wf(),
                candidate.active_forms@ == before.active_forms,
                candidate.valid_field_uses@ == before.valid_field_uses.union_prefer_right(
                    max.restrict(rows.take(i as int).to_set()),
                ),
            decreases rows.len() - i,
        {
            let name = names.get(i);
            let ghost now = candidate.valid_field_uses@;
            if let Some(uses) = self.max_isa_candidate.valid_field_uses.get(name.as_str()) {
                candidate.valid_field_uses.insert(name.clone(), uses.duplicate());
            }
            proof {
                assert(rows.take(i + 1) =~= rows.take(i as int).push(rows[i as int]));
                crate::collections::lemma_push_to_set(rows.take(i as int), rows[i as int]);
                assert(candidate.valid_field_uses@ =~= before.valid_field_uses.union_prefer_right(
                    max.restrict(rows.take(i + 1).to_set()),
                ));
            }
            i += 1;
        }
        proof {
            assert(rows.take(i as int) =~= rows);
            names.lemma_rows();
        }
        self.restore_unrestricted_forms(candidate);
    }

    /// Puts all unrestricted forms back into a candidate.
    fn restore_unrestricted_forms(&self, candidate: &mut ISACandidate)
        requires
            self.wf(),
        ensures
            final(candidate).active_forms@ == restored_forms(self@, old(candidate).active_forms@),
            final(candidate).valid_field_uses == old(candidate).valid_field_uses,
            old(candidate).wf() ==> final(candidate).wf(),
    {
        let ghost rows = self.unrestricted_forms.rows();
        let ghost before = candidate.active_forms@;
        let ghost kept = self.unrestricted_forms@;
        let mut i: usize = 0;
        while i < self.unrestricted_forms.len()
            invariant
                self.wf(),
                rows == self.unrestricted_forms.rows(),
                kept == self.unrestricted_forms@,
                i <= rows.len(),
                old(candidate).wf() ==> candidate.wf(),
                candidate.valid_field_uses == old(candidate).valid_field_uses,
                forall|j: int|
                    0 <= j < i ==> candidate.active_forms@.contains_key((#[trigger] rows[j]).0)
                        && candidate.active_forms@[rows[j].0] == listed_forms(
                        before,
                        rows[j].0,
                    ).union(rows[j].1),
                forall|name: Seq<char>|
                    !#[trigger] named_before(rows, i as int, name) ==> (
                    candidate.active_forms@.contains_key(name) == before.contains_key(name)) && (
                    before.contains_key(name) ==> candidate.active_forms@[name] == before[name]),
            decreases rows.len() - i,
        {
            let name = self.unrestricted_forms.name_at(i);
            let forms = self.unrestricted_forms.value_at(i);
            let mut listed: OrderedSet<String> = match candidate.active_forms.get(name.as_str()) {
                Some(listed) => listed.duplicate(),
                None => OrderedSet::new(),
            };
            assert(!named_before(rows, i as int, rows[i as int].0));
            listed.extend(forms);
            candidate.active_forms.insert(name.clone(), listed);
            assert forall|other: Seq<char>| !#[trigger] named_before(
                rows,
                i + 1,
                other,
            ) implies !named_before(rows, i as int, other) && other != rows[i as int].0 by {
                assert(rows[i as int].0 == other ==> named_before(rows, i + 1, other));
            }
            i += 1;
        }
        proof {
            self.unrestricted_forms.lemma_rows();
            let after = candidate.active_forms@;
            let wanted = restored_forms(self@, before);
            assert forall|name: Seq<char>|
                #![trigger after.contains_key(name)]
                #![trigger wanted.contains_key(name)]
                after.contains_key(name) == wanted.contains_key(name) && (wanted.contains_key(name)
                    ==> after[name] == wanted[name]) by {
                lemma_map_of_absent(rows, name);
                if kept.contains_key(name) {
                    let j = choose|j: int| 0 <= j < rows.len() && (#[trigger] rows[j]).0 == name;
                    lemma_map_of(rows, j);
                } else {
                    assert(!named_before(rows, i as int, name));
                    if before.contains_key(name) {
                        assert(before[name] =~= before[name].union(Set::empty()));
                    }
                }
            }
            assert(after =~= wanted);
        }
    }
}

/// Reports whether a field of the name selects a register.
fn is_register_operand(instructions: &Vec<Instruction>, name: &String) -> (r: bool)
    ensures
        r == register_operand(viewed(instructions@), name@),
{
    let ghost all = viewed(instructions@);
    let mut i: usize = 0;
    while i < instructions.len()
        invariant
            all == viewed(instructions@),
            i <= all.len(),
            forall|j: int|
                0 <= j < i ==> !form_selects_register((#[trigger] all[j]).forms, name@),
        decreases all.len() - i,
    {
        assert(all[i as int] == instructions@[i as int]@);
        if forms_select_register(&instructions[i].forms, name) {
            return true;
        }
        i += 1;
    }
    false
}

/// Reports whether a field of the name in some form selects a register.
fn forms_select_register(forms: &Vec<InstructionForm>, name: &String) -> (r: bool)
    ensures
        r == form_selects_register(viewed(forms@), name@),
{
    let ghost all = viewed(forms@);
    let mut i: usize = 0;
    while i < forms.len()
        invariant
            all == viewed(forms@),
            i <= all.len(),
            forall|j: int| 0 <= j < i ==> !selects_register((#[trigger] all[j]).fields, name@),
        decreases all.len() - i,
    {
        assert(all[i as int] == forms@[i as int]@);
        if fields_select_register(&forms[i].fields, name) {
            return true;
        }
        i += 1;
    }
    false
}

/// Reports whether a field of the name selects a register.
fn fields_select_register(fields: &Vec<InstructionField>, name: &String) -> (r: bool)
    ensures
        r == selects_register(viewed(fields@), name@),
{
    let ghost all = viewed(fields@);
    let mut i: usize = 0;
    while i < fields.len()
        invariant
            all == viewed(fields@),
            i <= all.len(),
            forall|j: int|
                0 <= j < i ==> !((#[trigger] all[j]).name == Some(name@) && (
                all[j].is_register_read || all[j].is_register_write)),
        decreases all.len() - i,
    {
        let field = &fields[i];
        assert(all[i as int] == field@);
        if let Some(found) = &field.name {
            if *found == *name && (field.is_register_read || field.is_register_write) {
                assert(all[i as int].name == Some(name@));
                return true;
            }
        }
        i += 1;
    }
    false
}

impl<'a> IsaOptimizationManager<'a> {
    /// Returns whether the GA may select this field as a mutable/crossover gene.
    ///
    /// Register operand selectors, such as ARM `Rn`, `Rm`, `Rd`, and `Rs`, are
    /// deliberately excluded from GA field selection when their
    /// `InstructionField` is marked `is_register_read` or `is_register_write`.
    /// Fields that occur in unrestricted forms are also excluded, since those
    /// forms must preserve their full original encoding space.
    pub fn field_selectable_for_ga_restriction(&self, field_name: &String) -> (r: bool)
        ensures
            r == selectable(self@, field_name@),
    {
        !is_register_operand(&self.isa.instructions, field_name)
            && !self.unrestricted_field_names().contains(field_name)
    }

    /// Finds fields which are not field_selectable_for_ga_restriction in a candidate, and ensures
    /// they have the maximal allowed encodings
    pub fn restore_unmutatable_fields(&self, candidate: &mut ISACandidate)
        requires
            old(candidate).wf(),
        ensures
            final(candidate)@.valid_field_uses == opened_uses(
                self@,
                old(candidate)@.valid_field_uses,
            ),
            final(candidate)@.active_forms == old(candidate)@.active_forms,
            final(candidate).wf(),
    {
        let ghost rows = candidate.valid_field_uses.rows();
        let ghost before = candidate.valid_field_uses@;
        let ghost wanted = opened_uses(self@, before);
        let ghost forms = candidate.active_forms;
        let mut i: usize = 0;
        proof {
            candidate.valid_field_uses.lemma_rows();
            assert forall|j: int| 0 <= j < rows.len() implies before.contains_key(
                (#[trigger] rows[j]).0,
            ) && before[rows[j].0] == rows[j].1 by {
                lemma_map_of(rows, j);
            }
        }
        while i < candidate.valid_field_uses.len()
            invariant
                candidate.wf(),
                candidate.active_forms == forms,
                wanted == opened_uses(self@, before),
                candidate.valid_field_uses.rows().len() == rows.len(),
                i <= rows.len(),
                forall|j: int|
                    0 <= j < rows.len() ==> (#[trigger] candidate.valid_field_uses.rows()[j]).0
                        == rows[j].0,
                forall|j: int|
                    0 <= j < rows.len() ==> before.contains_key((#[trigger] rows[j]).0),
                forall|j: int, k: int|
                    0 <= j < k < rows.len() ==> (#[trigger] rows[j]).0 != (#[trigger] rows[k]).0,
                forall|name: Seq<char>| #[trigger]
                    candidate.valid_field_uses@.contains_key(name) == before.contains_key(name),
                forall|j: int|
                    0 <= j < i ==> candidate.valid_field_uses@[(#[trigger] rows[j]).0]
                        == wanted[rows[j].0],
                forall|j: int|
                    i <= j < rows.len() ==> candidate.valid_field_uses@[(#[trigger] rows[j]).0]
                        == before[rows[j].0],
            decreases rows.len() - i,
        {
            let name = candidate.valid_field_uses.name_at(i).clone();
            proof {
                assert(candidate.valid_field_uses.rows()[i as int].0 == rows[i as int].0);
                candidate.valid_field_uses.lemma_rows();
                lemma_map_of(candidate.valid_field_uses.rows(), i as int);
                assert(candidate.valid_field_uses@.contains_key(name@));
            }
            if !self.field_selectable_for_ga_restriction(&name) {
                let uses = open_uses(candidate.valid_field_uses.value_at(i));
                candidate.valid_field_uses.insert(name, uses);
            }
            i += 1;
        }
        proof {
            let after = candidate.valid_field_uses@;
            candidate.valid_field_uses.lemma_rows();
            assert forall|name: Seq<char>| #[trigger] after.contains_key(
                name,
            ) implies after[name] == wanted[name] by {
                lemma_map_of_absent(candidate.valid_field_uses.rows(), name);
                let j = choose|j: int|
                    0 <= j < rows.len() && (
                    #[trigger] candidate.valid_field_uses.rows()[j]).0 == name;
                assert(rows[j].0 == name);
            }
            assert(after =~= wanted);
        }
    }
}

/// Uses that allow every value.
fn open_uses(uses: &FieldUses) -> (r: FieldUses)
    ensures
        r@ == opened(uses@),
{
    match uses {
        FieldUses::Uses { name, len, .. } => {
            let mut patterns: OrderedSet<BitPattern> = OrderedSet::new();
            patterns.insert(BitPattern::variable(*len));
            assert(patterns@ =~= set![variable_pattern(*len as nat)]);
            FieldUses::Uses { name: name.clone(), patterns, len: *len }
        },
        FieldUses::VariableBits { name, len, .. } => FieldUses::VariableBits {
            name: name.clone(),
            pattern: Some(BitPattern::variable(*len)),
            len: *len,
        },
    }
}

} // verus!
