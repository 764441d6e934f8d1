//! What candidates support: a program's own candidate runs the program, and the largest
//! candidate runs whatever decodes.
use vstd::prelude::*;

use crate::bit::{all_concrete, bit_accepts, pattern_matches, Bit};
use crate::decode::{
    accepting, check, decoded_form, decoded_lines, field_slice, filled_fields, first_match,
    form_accepts, Acceptance,
};
use crate::field_uses::{all_of_len, merged_patterns, merged_uses, FieldUsesV};
use crate::isa_candidate::{
    blended, form_active, form_names, has_variable, isa_forms, isa_uses, max_candidate, merged_map,
    observed_field, observed_fields, observed_program, observed_value, program_candidate, supports,
    used_forms, uses_of_pattern, value_allowed, with_field, with_fields, with_forms,
};
use crate::isa_specification::{
    fields_width, lemma_width_prefix, DecodedV, FieldV, FormV, InstructionV, MergeMode,
};
use crate::merge_laws::lemma_merging_keeps_points;
use crate::pattern_cover::covered;

verus! {

/// The uses list the field's name, if it has one, and allow its value.
pub open spec fn lists_value(uses: Map<Seq<char>, FieldUsesV>, field: FieldV) -> bool {
    field.name is Some ==> uses.contains_key(field.name->0) && value_allowed(
        field.bits,
        uses[field.name->0],
    )
}

/// The patterns of the uses have the stated lengths.
spec fn sized(uses: FieldUsesV) -> bool {
    match uses {
        FieldUsesV::Uses { patterns, len, .. } => all_of_len(patterns, len as nat),
        FieldUsesV::VariableBits { pattern, len, .. } => pattern is Some ==> pattern->0.len() == len,
    }
}

spec fn all_sized(uses: Map<Seq<char>, FieldUsesV>) -> bool {
    forall|name: Seq<char>| #[trigger] uses.contains_key(name) ==> sized(uses[name])
}

/// A value without variable bits is allowed where some pattern accepts it.
pub(crate) proof fn lemma_allowed_is_covered(value: Seq<Bit>, patterns: Set<Seq<Bit>>, uses: FieldUsesV)
    requires
        uses matches FieldUsesV::Uses { patterns: listed, .. } && listed == patterns,
        !has_variable(value),
    ensures
        value_allowed(value, uses) == covered(patterns, value),
{
}

/// An observed value is allowed, and what was allowed stays so.
proof fn lemma_observed_value(uses: FieldUsesV, bits: Seq<Bit>, other: Seq<Bit>)
    requires
        observed_value(uses, bits) is Some,
        sized(uses),
        !has_variable(bits),
        !has_variable(other),
    ensures
        sized(observed_value(uses, bits)->0),
        value_allowed(bits, observed_value(uses, bits)->0),
        value_allowed(other, uses) ==> value_allowed(other, observed_value(uses, bits)->0),
{
    let after = observed_value(uses, bits)->0;
    match uses {
        FieldUsesV::Uses { patterns, .. } => {
            let more = patterns.insert(bits);
            assert(more.contains(bits) && pattern_matches(bits, bits));
            if value_allowed(other, uses) {
                let p = choose|p: Seq<Bit>|
                    #[trigger] patterns.contains(p) && pattern_matches(p, other);
                assert(more.contains(p));
            }
        },
        FieldUsesV::VariableBits { pattern, .. } => {
            let old_bits = pattern->0;
            let mixed = blended(old_bits, bits);
            assert forall|i: int| 0 <= i < bits.len() implies bit_accepts(
                #[trigger] mixed[i],
                bits[i],
            ) by {}
            if value_allowed(other, uses) {
                assert forall|i: int| 0 <= i < other.len() implies bit_accepts(
                    #[trigger] mixed[i],
                    other[i],
                ) by {
                    assert(bit_accepts(old_bits[i], other[i]));
                }
            }
        },
    }
}

/// After a field is observed its value is allowed, and what was allowed stays so.
proof fn lemma_observed_field(uses: Map<Seq<char>, FieldUsesV>, field: FieldV, other: FieldV)
    requires
        observed_field(uses, field) is Some,
        all_sized(uses),
        !has_variable(field.bits),
        !has_variable(other.bits),
    ensures
        all_sized(observed_field(uses, field)->0),
        lists_value(observed_field(uses, field)->0, field),
        lists_value(uses, other) ==> lists_value(observed_field(uses, field)->0, other),
{
    match field.name {
        None => {},
        Some(name) => {
            let fresh = uses_of_pattern(name, field.bits, field.merge_mode, true);
            let before = if uses.contains_key(name) {
                uses[name]
            } else {
                fresh
            };
            assert(sized(before));
            lemma_observed_value(before, field.bits, other.bits);
        },
    }
}

proof fn lemma_observed_fields(
    uses: Map<Seq<char>, FieldUsesV>,
    fields: Seq<FieldV>,
    other: FieldV,
)
    requires
        observed_fields(uses, fields) is Some,
        all_sized(uses),
        forall|i: int| 0 <= i < fields.len() ==> !has_variable((#[trigger] fields[i]).bits),
        !has_variable(other.bits),
    ensures
        all_sized(observed_fields(uses, fields)->0),
        lists_value(uses, other) || fields.contains(other) ==> lists_value(
            observed_fields(uses, fields)->0,
            other,
        ),
    decreases fields.len(),
{
    if fields.len() > 0 {
        let front = fields.drop_last();
        let last = fields.last();
        assert(!has_variable(fields[fields.len() - 1].bits));
        assert forall|i: int| 0 <= i < front.len() implies !has_variable(
            (#[trigger] front[i]).bits,
        ) by {
            assert(front[i] == fields[i]);
        }
        lemma_observed_fields(uses, front, other);
        let before = observed_fields(uses, front)->0;
        lemma_observed_field(before, last, other);
        lemma_observed_field(before, last, last);
        if fields.contains(other) && other != last {
            let i = choose|i: int| 0 <= i < fields.len() && fields[i] == other;
            assert(front[i] == other);
        }
    }
}

/// No field of the decoded instruction has a variable bit.
pub open spec fn definite(instruction: DecodedV) -> bool {
    forall|i: int|
        0 <= i < instruction.fields.len() ==> !has_variable(
            (#[trigger] instruction.fields[i]).bits,
        )
}

proof fn lemma_observed_program(program: Seq<DecodedV>, k: int, other: FieldV)
    requires
        observed_program(program) is Some,
        forall|i: int| 0 <= i < program.len() ==> definite(#[trigger] program[i]),
        0 <= k < program.len(),
        program[k].fields.contains(other),
    ensures
        lists_value(observed_program(program)->0, other),
    decreases program.len(),
{
    let front = program.drop_last();
    let last = program.last();
    let before = observed_program(front)->0;
    assert forall|i: int| 0 <= i < front.len() implies definite(#[trigger] front[i]) by {
        assert(front[i] == program[i]);
    }
    assert(definite(program[program.len() - 1]));
    assert(definite(program[k]));
    let j = choose|j: int| 0 <= j < program[k].fields.len() && program[k].fields[j] == other;
    assert(!has_variable(program[k].fields[j].bits));
    lemma_observed_sized(front);
    if k < program.len() - 1 {
        assert(front[k] == program[k]);
        lemma_observed_program(front, k, other);
    }
    lemma_observed_fields(before, last.fields, other);
}

proof fn lemma_observed_sized(program: Seq<DecodedV>)
    requires
        observed_program(program) is Some,
        forall|i: int| 0 <= i < program.len() ==> definite(#[trigger] program[i]),
    ensures
        all_sized(observed_program(program)->0),
    decreases program.len(),
{
    if program.len() > 0 {
        let front = program.drop_last();
        assert forall|i: int| 0 <= i < front.len() implies definite(#[trigger] front[i]) by {
            assert(front[i] == program[i]);
        }
        lemma_observed_sized(front);
        assert(definite(program[program.len() - 1]));
        let none = FieldV {
            name: None,
            bits: seq![],
            merge_mode: MergeMode::Uses,
            is_immediate: false,
            is_register_read: false,
            is_register_write: false,
        };
        lemma_observed_fields(observed_program(front)->0, program.last().fields, none);
    }
}

/// The forms that a program uses are listed.
proof fn lemma_used_form(forms: Map<Seq<char>, Set<Seq<char>>>, program: Seq<DecodedV>, k: int)
    requires
        0 <= k < program.len(),
    ensures
        form_active(used_forms(forms, program), program[k].name, program[k].form.name),
    decreases program.len(),
{
    if k < program.len() - 1 {
        lemma_used_form(forms, program.drop_last(), k);
        assert(program.drop_last()[k] == program[k]);
    }
}

/// The candidate made from a program supports every instruction of the program.
pub proof fn lemma_program_supported(
    instructions: Seq<InstructionV>,
    program: Seq<DecodedV>,
    k: int,
)
    requires
        observed_program(program) is Some,
        forall|i: int| 0 <= i < program.len() ==> definite(#[trigger] program[i]),
        0 <= k < program.len(),
        check(program[k].form.when, program[k].bits, program[k].fields) == Some(true),
    ensures
        supports(program_candidate(instructions, program), program[k]),
{
    let candidate = program_candidate(instructions, program);
    let uses = candidate.valid_field_uses;
    let observed = observed_program(program)->0;
    let own = program[k].fields;
    lemma_used_form(isa_forms(instructions, false), program, k);
    lemma_observed_sized(program);
    assert(definite(program[k]));
    assert forall|i: int| 0 <= i < own.len() && (
    #[trigger] own[i]).name is Some implies uses.contains_key(own[i].name->0) && value_allowed(
        own[i].bits,
        uses[own[i].name->0],
    ) by {
        let field = own[i];
        let name = field.name->0;
        assert(own.contains(field));
        assert(!has_variable(own[i].bits));
        lemma_observed_program(program, k, field);
        let kept = observed[name];
        assert(merged_map(observed).contains_key(name));
        assert(uses[name] == merged_uses(kept));
        match kept {
            FieldUsesV::Uses { patterns, len, .. } => {
                lemma_allowed_is_covered(field.bits, patterns, kept);
                lemma_merging_keeps_points(patterns, field.bits, len as nat);
                lemma_allowed_is_covered(
                    field.bits,
                    merged_patterns(patterns, len as nat),
                    uses[name],
                );
            },
            _ => {},
        }
    }
}

/// The field is one of the instructions' fields.
pub open spec fn is_field(instructions: Seq<InstructionV>, field: FieldV) -> bool {
    exists|i: int, j: int|
        #![trigger instructions[i].forms[j]]
        0 <= i < instructions.len() && 0 <= j < instructions[i].forms.len()
            && instructions[i].forms[j].fields.contains(field)
}

/// Instructions have different names, and fields of one name have the same pattern and merge
/// mode.
pub open spec fn consistent(instructions: Seq<InstructionV>) -> bool {
    &&& forall|i: int, j: int|
        0 <= i < j < instructions.len() ==> (#[trigger] instructions[i]).name != (
        #[trigger] instructions[j]).name
    &&& forall|a: FieldV, b: FieldV|
        #[trigger] is_field(instructions, a) && #[trigger] is_field(instructions, b)
            && a.name is Some && a.name == b.name ==> a.bits == b.bits && a.merge_mode
            == b.merge_mode
}

/// The listed uses come from fields of the instructions.
spec fn from_fields(uses: Map<Seq<char>, FieldUsesV>, known: spec_fn(FieldV) -> bool) -> bool {
    forall|name: Seq<char>| #[trigger]
        uses.contains_key(name) ==> exists|field: FieldV| #[trigger]
            known(field) && field.name == Some(name) && uses[name] == uses_of_pattern(
                name,
                field.bits,
                field.merge_mode,
                true,
            )
}

proof fn lemma_with_fields_from(
    uses: Map<Seq<char>, FieldUsesV>,
    fields: Seq<FieldV>,
    known: spec_fn(FieldV) -> bool,
)
    requires
        from_fields(uses, known),
        forall|i: int| 0 <= i < fields.len() ==> known(#[trigger] fields[i]),
    ensures
        from_fields(with_fields(uses, fields, true), known),
    decreases fields.len(),
{
    if fields.len() > 0 {
        let front = fields.drop_last();
        let last = fields.last();
        assert forall|i: int| 0 <= i < front.len() implies known(#[trigger] front[i]) by {
            assert(front[i] == fields[i]);
        }
        lemma_with_fields_from(uses, front, known);
        assert(known(fields[fields.len() - 1]));
        let before = with_fields(uses, front, true);
        let after = with_field(before, last, true);
        assert forall|name: Seq<char>| #[trigger] after.contains_key(name) implies exists|
            field: FieldV,
        | #[trigger]
            known(field) && field.name == Some(name) && after[name] == uses_of_pattern(
                name,
                field.bits,
                field.merge_mode,
                true,
            ) by {
            if before.contains_key(name) {
                let field = choose|field: FieldV| #[trigger]
                    known(field) && field.name == Some(name) && before[name] == uses_of_pattern(
                        name,
                        field.bits,
                        field.merge_mode,
                        true,
                    );
                assert(known(field) && after[name] == before[name]);
            } else {
                assert(known(last) && last.name == Some(name));
            }
        }
    }
}

proof fn lemma_with_forms_from(
    uses: Map<Seq<char>, FieldUsesV>,
    forms: Seq<FormV>,
    known: spec_fn(FieldV) -> bool,
)
    requires
        from_fields(uses, known),
        forall|j: int, k: int|
            0 <= j < forms.len() && 0 <= k < forms[j].fields.len() ==> known(
                #[trigger] forms[j].fields[k],
            ),
    ensures
        from_fields(with_forms(uses, forms, true), known),
    decreases forms.len(),
{
    if forms.len() > 0 {
        let front = forms.drop_last();
        assert forall|j: int, k: int|
            0 <= j < front.len() && 0 <= k < front[j].fields.len() implies known(
            #[trigger] front[j].fields[k],
        ) by {
            assert(known(forms[j].fields[k]));
        }
        lemma_with_forms_from(uses, front, known);
        let last = forms.last();
        assert forall|k: int| 0 <= k < last.fields.len() implies known(
            #[trigger] last.fields[k],
        ) by {
            assert(known(forms[forms.len() - 1].fields[k]));
        }
        lemma_with_fields_from(with_forms(uses, front, true), last.fields, known);
    }
}

proof fn lemma_isa_uses_from(all: Seq<InstructionV>, n: nat)
    requires
        n <= all.len(),
    ensures
        from_fields(isa_uses(all.take(n as int), true), |f: FieldV| is_field(all, f)),
    decreases n,
{
    let known = |f: FieldV| is_field(all, f);
    if n > 0 {
        lemma_isa_uses_from(all, (n - 1) as nat);
        let part = all.take(n as int);
        assert(part.drop_last() =~= all.take(n - 1));
        let forms = part.last().forms;
        assert(part.last() == all[n - 1]);
        assert forall|j: int, k: int|
            0 <= j < forms.len() && 0 <= k < forms[j].fields.len() implies known(
            #[trigger] forms[j].fields[k],
        ) by {
            assert(all[n - 1].forms[j].fields.contains(forms[j].fields[k]));
        }
        lemma_with_forms_from(isa_uses(all.take(n - 1), true), forms, known);
    }
}

/// A form of an instruction with a name of its own is listed.
proof fn lemma_isa_form_listed(instructions: Seq<InstructionV>, i: int, j: int)
    requires
        0 <= i < instructions.len(),
        0 <= j < instructions[i].forms.len(),
        forall|a: int, b: int|
            0 <= a < b < instructions.len() ==> (#[trigger] instructions[a]).name != (
            #[trigger] instructions[b]).name,
    ensures
        form_active(
            isa_forms(instructions, true),
            instructions[i].name,
            instructions[i].forms[j].name,
        ),
    decreases instructions.len(),
{
    let n = instructions.len() - 1;
    if i == n {
        let forms = instructions[i].forms;
        let names = Seq::new(forms.len(), |k: int| forms[k].name);
        assert(names[j] == forms[j].name);
        assert(names.contains(forms[j].name));
        assert(form_names(forms).contains(forms[j].name));
    } else {
        let front = instructions.drop_last();
        assert forall|a: int, b: int| 0 <= a < b < front.len() implies (
        #[trigger] front[a]).name != (#[trigger] front[b]).name by {
            assert(front[a] == instructions[a] && front[b] == instructions[b]);
        }
        lemma_isa_form_listed(front, i, j);
        assert(front[i] == instructions[i]);
        assert(instructions[i].name != instructions[n].name);
    }
}

/// The only accepting form is one of the forms, and it accepts.
proof fn lemma_accepting_form(forms: Seq<FormV>, bits: Seq<Bit>) -> (j: int)
    requires
        accepting(forms, bits) matches Some(Acceptance::One(_)),
    ensures
        0 <= j < forms.len(),
        accepting(forms, bits) == Some(Acceptance::One(forms[j])),
        form_accepts(forms[j], bits) == Some(true),
    decreases forms.len(),
{
    match accepting(forms.drop_last(), bits) {
        Some(Acceptance::One(_)) => {
            let j = lemma_accepting_form(forms.drop_last(), bits);
            assert(forms.drop_last()[j] == forms[j]);
            j
        },
        _ => forms.len() - 1,
    }
}

/// What decodes is an instruction in the only one of its forms that accepts the encoding.
pub proof fn lemma_decoded_from(instructions: Seq<InstructionV>, bits: Seq<Bit>) -> (place: (
    int,
    int,
))
    requires
        first_match(instructions, bits) matches Some(Some(_)),
    ensures
        0 <= place.0 < instructions.len(),
        0 <= place.1 < instructions[place.0].forms.len(),
        first_match(instructions, bits) == Some(
            Some(decoded_form(instructions[place.0], instructions[place.0].forms[place.1], bits)),
        ),
        form_accepts(instructions[place.0].forms[place.1], bits) == Some(true),
    decreases instructions.len(),
{
    match first_match(instructions.drop_last(), bits) {
        Some(Some(_)) => {
            let place = lemma_decoded_from(instructions.drop_last(), bits);
            assert(instructions.drop_last()[place.0] == instructions[place.0]);
            place
        },
        _ => {
            let j = lemma_accepting_form(instructions.last().forms, bits);
            (instructions.len() - 1, j)
        },
    }
}

/// A part of an encoding of definite bits has definite bits.
proof fn lemma_slice_definite(fields: Seq<FieldV>, bits: Seq<Bit>, i: int)
    requires
        0 <= i < fields.len(),
        fields_width(fields) == bits.len(),
        all_concrete(bits),
    ensures
        all_concrete(field_slice(fields, bits, i)),
        !has_variable(field_slice(fields, bits, i)),
        field_slice(fields, bits, i).len() == fields[i].bits.len(),
{
    reveal(field_slice);
    lemma_width_prefix(fields, i);
    lemma_width_prefix(fields, i + 1);
    assert(fields.take(i + 1).drop_last() =~= fields.take(i));
    let part = field_slice(fields, bits, i);
    let start = fields_width(fields.take(i)) as int;
    assert forall|k: int| 0 <= k < part.len() implies (#[trigger] part[k]).concrete() by {
        assert(part[k] == bits[start + k]);
    }
}

/// The largest candidate of consistent instructions supports whatever decodes.
pub proof fn lemma_max_supports(instructions: Seq<InstructionV>, bits: Seq<Bit>)
    requires
        consistent(instructions),
        all_concrete(bits),
        first_match(instructions, bits) matches Some(Some(_)),
    ensures
        supports(max_candidate(instructions), first_match(instructions, bits)->0->0),
{
    let (i, j) = lemma_decoded_from(instructions, bits);
    let form = instructions[i].forms[j];
    let decoded = first_match(instructions, bits)->0->0;
    let uses = isa_uses(instructions, true);
    lemma_isa_form_listed(instructions, i, j);
    crate::form_fit::lemma_isa_lists_fields(instructions, true, i, j);
    lemma_isa_uses_from(instructions, instructions.len());
    assert(instructions.take(instructions.len() as int) =~= instructions);
    let known = |f: FieldV| is_field(instructions, f);
    let fields = decoded.fields;
    assert forall|k: int| 0 <= k < fields.len() && (
    #[trigger] fields[k]).name is Some implies uses.contains_key(fields[k].name->0)
        && value_allowed(fields[k].bits, uses[fields[k].name->0]) by {
        let own = form.fields[k];
        let name = own.name->0;
        assert(fields[k].name == own.name);
        assert(uses.contains_key(name));
        let field = choose|field: FieldV| #[trigger]
            known(field) && field.name == Some(name) && uses[name] == uses_of_pattern(
                name,
                field.bits,
                field.merge_mode,
                true,
            );
        assert(known(field));
        assert(instructions[i].forms[j].fields.contains(own));
        assert(is_field(instructions, own));
        assert(is_field(instructions, field));
        lemma_slice_definite(form.fields, bits, k);
        assert(pattern_matches(own.bits, field_slice(form.fields, bits, k)));
        assert(fields[k].bits == field_slice(form.fields, bits, k));
        assert(own.bits == field.bits && own.merge_mode == field.merge_mode);
        assert(uses[name] == uses_of_pattern(name, own.bits, own.merge_mode, true));
        match uses[name] {
            FieldUsesV::Uses { patterns, .. } => {
                assert(patterns.contains(own.bits));
            },
            _ => {},
        }
    }
}

/// The bits of a row of fields, one field behind the other.
pub open spec fn put_together(fields: Seq<FieldV>) -> Seq<Bit>
    decreases fields.len(),
{
    if fields.len() == 0 {
        seq![]
    } else {
        put_together(fields.drop_last()) + fields.last().bits
    }
}

pub(crate) proof fn lemma_filled_prefix(fields: Seq<FieldV>, bits: Seq<Bit>, n: nat)
    requires
        n <= fields.len(),
        fields_width(fields) == bits.len(),
    ensures
        put_together(filled_fields(fields, bits).take(n as int)) == bits.take(
            fields_width(fields.take(n as int)) as int,
        ),
    decreases n,
{
    let filled = filled_fields(fields, bits);
    lemma_width_prefix(fields, n as int);
    if n == 0 {
        assert(filled.take(0) =~= Seq::empty());
        assert(fields.take(0) =~= Seq::empty());
    } else {
        lemma_filled_prefix(fields, bits, (n - 1) as nat);
        lemma_width_prefix(fields, n - 1);
        reveal(field_slice);
        assert(filled.take(n as int).drop_last() =~= filled.take(n - 1));
        assert(fields.take(n as int).drop_last() =~= fields.take(n - 1));
        assert(filled.take(n as int).last().bits == field_slice(fields, bits, n - 1));
        let start = fields_width(fields.take(n - 1)) as int;
        let end = fields_width(fields.take(n as int)) as int;
        assert(bits.take(start) + bits.subrange(start, end) =~= bits.take(end));
    }
}

/// The fields of a decoded instruction, put together, are the encoding.
pub proof fn lemma_decoded_fields_make_encoding(instructions: Seq<InstructionV>, bits: Seq<Bit>)
    requires
        first_match(instructions, bits) matches Some(Some(_)),
    ensures
        first_match(instructions, bits)->0->0.bits == bits,
        put_together(first_match(instructions, bits)->0->0.fields) == bits,
{
    let (i, j) = lemma_decoded_from(instructions, bits);
    let fields = instructions[i].forms[j].fields;
    lemma_filled_prefix(fields, bits, fields.len());
    let filled = filled_fields(fields, bits);
    assert(filled.take(fields.len() as int) =~= filled);
    assert(fields.take(fields.len() as int) =~= fields);
    assert(bits.take(bits.len() as int) =~= bits);
}

/// The instructions of a decoded program have ascending addresses.
pub proof fn lemma_addresses_ascend(rows: Seq<Seq<char>>, instructions: Seq<InstructionV>)
    requires
        decoded_lines(rows, instructions) is Some,
    ensures
        decoded_lines(rows, instructions)->0.len() == rows.len(),
        forall|i: int, j: int|
            0 <= i < j < rows.len() ==> (#[trigger] decoded_lines(
                rows,
                instructions,
            )->0[i]).mem_addr < (#[trigger] decoded_lines(rows, instructions)->0[j]).mem_addr,
    decreases rows.len(),
{
    if rows.len() > 0 {
        let front = rows.drop_last();
        lemma_addresses_ascend(front, instructions);
        let before = decoded_lines(front, instructions)->0;
        let after = decoded_lines(rows, instructions)->0;
        assert forall|i: int, j: int| 0 <= i < j < rows.len() implies (
        #[trigger] after[i]).mem_addr < (#[trigger] after[j]).mem_addr by {
            assert(after[i] == before[i]);
            if j < before.len() {
                assert(after[j] == before[j]);
            } else if i < before.len() - 1 {
                assert(before[i].mem_addr < before[before.len() - 1].mem_addr);
            }
        }
    }
}

} // verus!
