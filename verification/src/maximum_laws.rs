//! What the candidate with all features holds.
use vstd::prelude::*;

use crate::bit::Bit;
use crate::decode_laws::agrees;
use crate::field_uses::FieldUsesV;
use crate::isa_candidate::{
    form_names, isa_forms, isa_uses, max_candidate, uses_of_pattern, with_field, with_fields,
    with_forms,
};
use crate::isa_specification::{FieldV, FormV, InstructionV, MergeMode};
use crate::search_laws::{field_at, has_place};
use crate::support_laws::permits;

verus! {

/// A place comes before another one: by instruction, then by form, then by field.
pub open spec fn before(a: (int, int, int), b: (int, int, int)) -> bool {
    a.0 < b.0 || (a.0 == b.0 && (a.1 < b.1 || (a.1 == b.1 && a.2 < b.2)))
}

/// The place has the first field of the name.
pub open spec fn first_place(
    instructions: Seq<InstructionV>,
    name: Seq<char>,
    i: int,
    j: int,
    k: int,
) -> bool {
    &&& has_place(instructions, i, j, k)
    &&& field_at(instructions, i, j, k).name == Some(name)
    &&& forall|a: int, b: int, c: int| #[trigger]
        has_place(instructions, a, b, c) && before((a, b, c), (i, j, k)) ==> field_at(
            instructions,
            a,
            b,
            c,
        ).name != Some(name)
}

/// No field of the row has the name.
spec fn no_field(fields: Seq<FieldV>, name: Seq<char>) -> bool {
    forall|k: int| 0 <= k < fields.len() ==> (#[trigger] fields[k]).name != Some(name)
}

/// No field of the forms has the name.
spec fn no_form(forms: Seq<FormV>, name: Seq<char>) -> bool {
    forall|j: int| 0 <= j < forms.len() ==> no_field((#[trigger] forms[j]).fields, name)
}

/// No field of the instructions has the name.
spec fn no_instruction(instructions: Seq<InstructionV>, name: Seq<char>) -> bool {
    forall|i: int| 0 <= i < instructions.len() ==> no_form((#[trigger] instructions[i]).forms, name)
}

proof fn lemma_fields_kept(
    uses: Map<Seq<char>, FieldUsesV>,
    fields: Seq<FieldV>,
    full: bool,
    name: Seq<char>,
)
    ensures
        uses.contains_key(name) ==> with_fields(uses, fields, full).contains_key(name)
            && with_fields(uses, fields, full)[name] == uses[name],
        !uses.contains_key(name) && no_field(fields, name) ==> !with_fields(
            uses,
            fields,
            full,
        ).contains_key(name),
    decreases fields.len(),
{
    if fields.len() > 0 {
        let front = fields.drop_last();
        lemma_fields_kept(uses, front, full, name);
        assert(with_fields(uses, fields, full) == with_field(
            with_fields(uses, front, full),
            fields.last(),
            full,
        ));
        if no_field(fields, name) {
            assert(no_field(front, name)) by {
                assert forall|k: int| 0 <= k < front.len() implies (#[trigger] front[k]).name
                    != Some(name) by {
                    assert(front[k] == fields[k]);
                }
            }
            assert(fields[fields.len() - 1].name != Some(name));
        }
    }
}

proof fn lemma_fields_first(
    uses: Map<Seq<char>, FieldUsesV>,
    fields: Seq<FieldV>,
    full: bool,
    name: Seq<char>,
    k: int,
)
    requires
        0 <= k < fields.len(),
        fields[k].name == Some(name),
        no_field(fields.take(k), name),
        !uses.contains_key(name),
    ensures
        with_fields(uses, fields, full).contains_key(name),
        with_fields(uses, fields, full)[name] == uses_of_pattern(
            name,
            fields[k].bits,
            fields[k].merge_mode,
            full,
        ),
    decreases fields.len(),
{
    let front = fields.drop_last();
    assert(with_fields(uses, fields, full) == with_field(
        with_fields(uses, front, full),
        fields.last(),
        full,
    ));
    if k == fields.len() - 1 {
        assert(fields.take(k) =~= front);
        lemma_fields_kept(uses, front, full, name);
    } else {
        assert(front.take(k) =~= fields.take(k));
        lemma_fields_first(uses, front, full, name, k);
    }
}

proof fn lemma_forms_kept(
    uses: Map<Seq<char>, FieldUsesV>,
    forms: Seq<FormV>,
    full: bool,
    name: Seq<char>,
)
    ensures
        uses.contains_key(name) ==> with_forms(uses, forms, full).contains_key(name) && with_forms(
            uses,
            forms,
            full,
        )[name] == uses[name],
        !uses.contains_key(name) && no_form(forms, name) ==> !with_forms(
            uses,
            forms,
            full,
        ).contains_key(name),
    decreases forms.len(),
{
    if forms.len() > 0 {
        let front = forms.drop_last();
        lemma_forms_kept(uses, front, full, name);
        lemma_fields_kept(with_forms(uses, front, full), forms.last().fields, full, name);
        if no_form(forms, name) {
            assert(no_form(front, name)) by {
                assert forall|j: int| 0 <= j < front.len() implies no_field(
                    (#[trigger] front[j]).fields,
                    name,
                ) by {
                    assert(front[j] == forms[j]);
                }
            }
            assert(no_field(forms[forms.len() - 1].fields, name));
        }
    }
}

proof fn lemma_forms_first(
    uses: Map<Seq<char>, FieldUsesV>,
    forms: Seq<FormV>,
    full: bool,
    name: Seq<char>,
    j: int,
    k: int,
)
    requires
        0 <= j < forms.len(),
        0 <= k < forms[j].fields.len(),
        forms[j].fields[k].name == Some(name),
        no_field(forms[j].fields.take(k), name),
        no_form(forms.take(j), name),
        !uses.contains_key(name),
    ensures
        with_forms(uses, forms, full).contains_key(name),
        with_forms(uses, forms, full)[name] == uses_of_pattern(
            name,
            forms[j].fields[k].bits,
            forms[j].fields[k].merge_mode,
            full,
        ),
    decreases forms.len(),
{
    let front = forms.drop_last();
    if j == forms.len() - 1 {
        assert(forms.take(j) =~= front);
        lemma_forms_kept(uses, front, full, name);
        lemma_fields_first(with_forms(uses, front, full), forms.last().fields, full, name, k);
    } else {
        assert(front.take(j) =~= forms.take(j));
        lemma_forms_first(uses, front, full, name, j, k);
        lemma_fields_kept(with_forms(uses, front, full), forms.last().fields, full, name);
    }
}

proof fn lemma_isa_absent(instructions: Seq<InstructionV>, full: bool, name: Seq<char>)
    requires
        no_instruction(instructions, name),
    ensures
        !isa_uses(instructions, full).contains_key(name),
    decreases instructions.len(),
{
    if instructions.len() > 0 {
        let front = instructions.drop_last();
        assert forall|i: int| 0 <= i < front.len() implies no_form(
            (#[trigger] front[i]).forms,
            name,
        ) by {
            assert(front[i] == instructions[i]);
        }
        lemma_isa_absent(front, full, name);
        assert(no_form(instructions[instructions.len() - 1].forms, name));
        lemma_forms_kept(isa_uses(front, full), instructions.last().forms, full, name);
    }
}

proof fn lemma_isa_first(
    instructions: Seq<InstructionV>,
    full: bool,
    name: Seq<char>,
    i: int,
    j: int,
    k: int,
)
    requires
        0 <= i < instructions.len(),
        0 <= j < instructions[i].forms.len(),
        0 <= k < instructions[i].forms[j].fields.len(),
        instructions[i].forms[j].fields[k].name == Some(name),
        no_field(instructions[i].forms[j].fields.take(k), name),
        no_form(instructions[i].forms.take(j), name),
        no_instruction(instructions.take(i), name),
    ensures
        isa_uses(instructions, full).contains_key(name),
        isa_uses(instructions, full)[name] == uses_of_pattern(
            name,
            instructions[i].forms[j].fields[k].bits,
            instructions[i].forms[j].fields[k].merge_mode,
            full,
        ),
    decreases instructions.len(),
{
    let front = instructions.drop_last();
    if i == instructions.len() - 1 {
        assert(instructions.take(i) =~= front);
        lemma_isa_absent(front, full, name);
        lemma_forms_first(isa_uses(front, full), instructions.last().forms, full, name, j, k);
    } else {
        assert(front.take(i) =~= instructions.take(i));
        lemma_isa_first(front, full, name, i, j, k);
        lemma_forms_kept(isa_uses(front, full), instructions.last().forms, full, name);
    }
}

proof fn lemma_first_parts(
    instructions: Seq<InstructionV>,
    name: Seq<char>,
    i: int,
    j: int,
    k: int,
)
    requires
        first_place(instructions, name, i, j, k),
    ensures
        no_field(instructions[i].forms[j].fields.take(k), name),
        no_form(instructions[i].forms.take(j), name),
        no_instruction(instructions.take(i), name),
{
    let forms = instructions[i].forms;
    let fields = forms[j].fields;
    assert forall|c: int| 0 <= c < k implies (#[trigger] fields.take(k)[c]).name != Some(name) by {
        assert(has_place(instructions, i, j, c));
        assert(field_at(instructions, i, j, c) == fields.take(k)[c]);
    }
    assert forall|b: int| 0 <= b < j implies no_field((#[trigger] forms.take(j)[b]).fields, name) by {
        assert(forms.take(j)[b] == forms[b]);
        assert forall|c: int| 0 <= c < forms[b].fields.len() implies (#[trigger] forms[b].fields[c]).name
            != Some(name) by {
            assert(has_place(instructions, i, b, c));
            assert(field_at(instructions, i, b, c) == forms[b].fields[c]);
        }
    }
    assert forall|a: int| 0 <= a < i implies no_form(
        (#[trigger] instructions.take(i)[a]).forms,
        name,
    ) by {
        assert(instructions.take(i)[a] == instructions[a]);
        assert forall|b: int| 0 <= b < instructions[a].forms.len() implies no_field(
            (#[trigger] instructions[a].forms[b]).fields,
            name,
        ) by {
            let row = instructions[a].forms[b].fields;
            assert forall|c: int| 0 <= c < row.len() implies (#[trigger] row[c]).name != Some(
                name,
            ) by {
                assert(has_place(instructions, a, b, c));
                assert(field_at(instructions, a, b, c) == row[c]);
            }
        }
    }
}

/// The candidate with all features allows a field the values that agree with the pattern of the
/// first field of that name, kept in the way that this field asks for.
pub proof fn lemma_maximum_values(
    instructions: Seq<InstructionV>,
    name: Seq<char>,
    i: int,
    j: int,
    k: int,
    bits: Seq<Bit>,
)
    requires
        first_place(instructions, name, i, j, k),
        field_at(instructions, i, j, k).bits.len() <= usize::MAX,
    ensures
        ({
            let uses = max_candidate(instructions).valid_field_uses;
            let field = field_at(instructions, i, j, k);
            &&& uses.contains_key(name)
            &&& permits(uses[name], bits) == agrees(field.bits, bits)
            &&& match uses[name] {
                FieldUsesV::Uses { name: own, len, .. } => field.merge_mode == MergeMode::Uses && own
                    == name && len == field.bits.len(),
                FieldUsesV::VariableBits { name: own, len, .. } => field.merge_mode
                    == MergeMode::VariableBits && own == name && len == field.bits.len(),
            }
        }),
{
    lemma_first_parts(instructions, name, i, j, k);
    lemma_isa_first(instructions, true, name, i, j, k);
    let field = field_at(instructions, i, j, k);
    if let FieldUsesV::Uses { patterns, .. } = isa_uses(instructions, true)[name] {
        assert(patterns.contains(field.bits));
    }
}

/// The candidate with all features has no field but those of the instructions.
pub proof fn lemma_maximum_fields(instructions: Seq<InstructionV>, name: Seq<char>)
    ensures
        max_candidate(instructions).valid_field_uses.contains_key(name) ==> exists|
            i: int,
            j: int,
            k: int,
        | #[trigger]
            has_place(instructions, i, j, k) && field_at(instructions, i, j, k).name == Some(name),
{
    if !no_instruction(instructions, name) {
        let i = choose|i: int|
            0 <= i < instructions.len() && !no_form((#[trigger] instructions[i]).forms, name);
        let forms = instructions[i].forms;
        let j = choose|j: int| 0 <= j < forms.len() && !no_field((#[trigger] forms[j]).fields, name);
        let fields = forms[j].fields;
        let k = choose|k: int| 0 <= k < fields.len() && (#[trigger] fields[k]).name == Some(name);
        assert(has_place(instructions, i, j, k));
    } else {
        lemma_isa_absent(instructions, true, name);
    }
}

/// No later instruction has the name.
pub open spec fn last_named(instructions: Seq<InstructionV>, i: int) -> bool {
    0 <= i < instructions.len() && forall|a: int|
        i < a < instructions.len() ==> (#[trigger] instructions[a]).name != instructions[i].name
}

/// The candidate with all features has the forms of the last instruction of a name, and no
/// instructions but those of the instruction set.
pub proof fn lemma_maximum_forms(instructions: Seq<InstructionV>, i: int, form: Seq<char>)
    requires
        last_named(instructions, i),
    ensures
        ({
            let active = max_candidate(instructions).active_forms;
            &&& active.contains_key(instructions[i].name)
            &&& active[instructions[i].name].contains(form) <==> exists|j: int|
                0 <= j < instructions[i].forms.len() && (#[trigger] instructions[i].forms[j]).name
                    == form
        }),
    decreases instructions.len(),
{
    let front = instructions.drop_last();
    let name = instructions[i].name;
    if i < instructions.len() - 1 {
        assert forall|a: int| i < a < front.len() implies (#[trigger] front[a]).name
            != front[i].name by {
            assert(front[a] == instructions[a]);
        }
        assert(front[i] == instructions[i]);
        assert(last_named(front, i));
        lemma_maximum_forms(front, i, form);
        assert(instructions[instructions.len() - 1].name != name);
    } else {
        let forms = instructions[i].forms;
        let names = Seq::new(forms.len(), |j: int| forms[j].name);
        assert(form_names(forms) == names.to_set());
        if names.contains(form) {
            let j = choose|j: int| 0 <= j < names.len() && names[j] == form;
            assert(forms[j].name == form);
        }
        if exists|j: int| 0 <= j < forms.len() && (#[trigger] forms[j]).name == form {
            let j = choose|j: int| 0 <= j < forms.len() && (#[trigger] forms[j]).name == form;
            assert(names[j] == form);
        }
    }
}

/// An instruction of the candidate with all features is one of the instruction set.
pub proof fn lemma_maximum_instructions(instructions: Seq<InstructionV>, name: Seq<char>)
    ensures
        max_candidate(instructions).active_forms.contains_key(name) <==> exists|i: int|
            0 <= i < instructions.len() && (#[trigger] instructions[i]).name == name,
    decreases instructions.len(),
{
    if instructions.len() > 0 {
        let front = instructions.drop_last();
        lemma_maximum_instructions(front, name);
        assert(isa_forms(instructions, true).contains_key(name) == (isa_forms(
            front,
            true,
        ).contains_key(name) || instructions.last().name == name));
        if exists|i: int| 0 <= i < front.len() && (#[trigger] front[i]).name == name {
            let i = choose|i: int| 0 <= i < front.len() && (#[trigger] front[i]).name == name;
            assert(instructions[i].name == name);
        }
        if exists|i: int| 0 <= i < instructions.len() && (#[trigger] instructions[i]).name == name {
            let i = choose|i: int|
                0 <= i < instructions.len() && (#[trigger] instructions[i]).name == name;
            if i < front.len() {
                assert(front[i].name == name);
            }
        }
        assert(instructions.last() == instructions[instructions.len() - 1]);
    }
}

} // verus!
