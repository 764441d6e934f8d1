//! The candidate made from a program lists what the program uses, and nothing else.
use vstd::prelude::*;

use crate::bit::{all_concrete, bit_accepts, pattern_matches, Bit};
use crate::candidate_laws::{definite, lemma_allowed_is_covered};
use crate::field_uses::{merged_patterns, merged_uses, FieldUsesV};
use crate::isa_candidate::{
    blended, form_active, has_variable, isa_forms, isa_uses, merged_map, observed_field,
    observed_fields, observed_program, observed_value, program_candidate, used_forms,
    uses_of_pattern, value_allowed, with_fields, with_forms,
};
use crate::isa_specification::{DecodedV, FieldV, FormV, InstructionV, MergeMode};
use crate::merge_laws::lemma_merging_keeps_points;
use crate::pattern_cover::covered;

verus! {

/// The field of the name has the value somewhere in the row.
pub open spec fn value_seen(fields: Seq<FieldV>, name: Seq<char>, bits: Seq<Bit>) -> bool {
    exists|i: int|
        0 <= i < fields.len() && (#[trigger] fields[i]).name == Some(name) && fields[i].bits
            == bits
}

/// A field of the name stands in the row.
pub open spec fn name_seen(fields: Seq<FieldV>, name: Seq<char>) -> bool {
    exists|i: int| 0 <= i < fields.len() && (#[trigger] fields[i]).name == Some(name)
}

/// Two values of the field differ at a place.
pub open spec fn differs_at(fields: Seq<FieldV>, name: Seq<char>, place: int) -> bool {
    exists|i: int, j: int|
        #![trigger fields[i], fields[j]]
        0 <= i < fields.len() && 0 <= j < fields.len() && fields[i].name == Some(name)
            && fields[j].name == Some(name) && fields[i].bits[place] != fields[j].bits[place]
}

/// Every value of the field has the length.
pub open spec fn lengths_agree(fields: Seq<FieldV>, name: Seq<char>, len: int) -> bool {
    forall|i: int|
        0 <= i < fields.len() && (#[trigger] fields[i]).name == Some(name) ==> fields[i].bits.len()
            == len
}

/// A bit of the pattern is variable exactly where two values of the field differ, and else the
/// bit that all values have.
pub open spec fn blends_values(fields: Seq<FieldV>, name: Seq<char>, pattern: Seq<Bit>) -> bool {
    forall|place: int|
        0 <= place < pattern.len() ==> {
            &&& (#[trigger] pattern[place] == Bit::Var) == differs_at(fields, name, place)
            &&& pattern[place] != Bit::Var ==> agrees_at(fields, name, place, pattern[place])
        }
}

/// Every value of the field has the bit at a place.
pub open spec fn agrees_at(fields: Seq<FieldV>, name: Seq<char>, place: int, bit: Bit) -> bool {
    forall|i: int|
        0 <= i < fields.len() && (#[trigger] fields[i]).name == Some(name)
            ==> fields[i].bits[place] == bit
}

/// A field of the name is listed in the mode.
pub open spec fn mode_seen(fields: Seq<FieldV>, name: Seq<char>, mode: MergeMode) -> bool {
    exists|i: int|
        0 <= i < fields.len() && (#[trigger] fields[i]).name == Some(name)
            && fields[i].merge_mode == mode
}

/// The uses tell the values that the field of the name has in the row: they list exactly these,
/// or blend exactly these.
pub open spec fn tells_values(uses: FieldUsesV, fields: Seq<FieldV>, name: Seq<char>) -> bool {
    match uses {
        FieldUsesV::Uses { name: own, patterns, len } => {
            &&& own == name
            &&& mode_seen(fields, name, MergeMode::Uses)
            &&& lengths_agree(fields, name, len as int)
            &&& forall|bits: Seq<Bit>| #[trigger]
                patterns.contains(bits) <==> value_seen(fields, name, bits)
        },
        FieldUsesV::VariableBits { name: own, pattern, len } => {
            &&& own == name
            &&& mode_seen(fields, name, MergeMode::VariableBits)
            &&& lengths_agree(fields, name, len as int)
            &&& pattern is Some
            &&& pattern->0.len() == len
            &&& blends_values(fields, name, pattern->0)
        },
    }
}

/// The uses tell the values of all fields of the row.
spec fn tells_row(uses: Map<Seq<char>, FieldUsesV>, fields: Seq<FieldV>) -> bool {
    forall|name: Seq<char>|
        {
            &&& #[trigger] uses.contains_key(name) <==> name_seen(fields, name)
            &&& uses.contains_key(name) ==> tells_values(uses[name], fields, name)
        }
}

/// A field of another name changes nothing.
proof fn lemma_other_name(uses: FieldUsesV, fields: Seq<FieldV>, field: FieldV, name: Seq<char>)
    requires
        tells_values(uses, fields, name),
        field.name != Some(name),
    ensures
        tells_values(uses, fields.push(field), name),
{
    let more = fields.push(field);
    assert forall|i: int| 0 <= i < fields.len() implies more[i] == #[trigger] fields[i] by {}
    assert forall|bits: Seq<Bit>|
        #[trigger] value_seen(more, name, bits) == value_seen(fields, name, bits) by {
        if value_seen(fields, name, bits) {
            let i = choose|i: int|
                0 <= i < fields.len() && (#[trigger] fields[i]).name == Some(name)
                    && fields[i].bits == bits;
            assert(more[i].name == Some(name));
        }
    }
    assert forall|mode: MergeMode| mode_seen(fields, name, mode) implies #[trigger] mode_seen(
        more,
        name,
        mode,
    ) by {
        let i = choose|i: int|
            0 <= i < fields.len() && (#[trigger] fields[i]).name == Some(name)
                && fields[i].merge_mode == mode;
        assert(more[i].name == Some(name));
    }
    if let FieldUsesV::VariableBits { pattern: Some(pattern), .. } = uses {
        assert forall|place: int| 0 <= place < pattern.len() implies (#[trigger] pattern[place]
            == Bit::Var) == differs_at(more, name, place) && (pattern[place] != Bit::Var
            ==> agrees_at(more, name, place, pattern[place])) by {
            assert((pattern[place] == Bit::Var) == differs_at(fields, name, place));
            if differs_at(fields, name, place) {
                let (i, j) = choose|i: int, j: int|
                    #![trigger fields[i], fields[j]]
                    0 <= i < fields.len() && 0 <= j < fields.len() && fields[i].name == Some(name)
                        && fields[j].name == Some(name) && fields[i].bits[place]
                        != fields[j].bits[place];
                assert(more[i] == fields[i] && more[j] == fields[j]);
            }
        }
    }
}

/// The uses of the first value tell that value.
proof fn lemma_first_value(fields: Seq<FieldV>, field: FieldV, name: Seq<char>)
    requires
        field.name == Some(name),
        !name_seen(fields, name),
        !has_variable(field.bits),
        observed_value(
            uses_of_pattern(name, field.bits, field.merge_mode, true),
            field.bits,
        ) is Some,
    ensures
        tells_values(
            observed_value(
                uses_of_pattern(name, field.bits, field.merge_mode, true),
                field.bits,
            )->0,
            fields.push(field),
            name,
        ),
{
    let more = fields.push(field);
    let last = fields.len() as int;
    let after = observed_value(
        uses_of_pattern(name, field.bits, field.merge_mode, true),
        field.bits,
    )->0;
    assert(more[last] == field);
    assert forall|i: int| 0 <= i < more.len() && (#[trigger] more[i]).name == Some(name) implies i
        == last by {
        if i < last {
            assert(fields[i] == more[i]);
        }
    }
    match after {
        FieldUsesV::Uses { patterns, .. } => {
            assert forall|bits: Seq<Bit>| #[trigger]
                patterns.contains(bits) <==> value_seen(more, name, bits) by {
                if patterns.contains(bits) {
                    assert(more[last].bits == bits);
                }
            }
        },
        FieldUsesV::VariableBits { pattern, .. } => {
            assert(pattern->0 =~= field.bits);
            assert forall|place: int| 0 <= place < pattern->0.len() implies (
            #[trigger] pattern->0[place] == Bit::Var) == differs_at(more, name, place) && (
            pattern->0[place] != Bit::Var ==> agrees_at(more, name, place, pattern->0[place])) by {
                assert(field.bits[place] != Bit::Var);
            }
        },
    }
}

/// A further value of a listed field is told too.
proof fn lemma_further_value(
    uses: FieldUsesV,
    fields: Seq<FieldV>,
    field: FieldV,
    name: Seq<char>,
)
    requires
        tells_values(uses, fields, name),
        name_seen(fields, name),
        field.name == Some(name),
        !has_variable(field.bits),
        observed_value(uses, field.bits) is Some,
    ensures
        tells_values(observed_value(uses, field.bits)->0, fields.push(field), name),
{
    let more = fields.push(field);
    let last = fields.len() as int;
    let first = choose|i: int|
        0 <= i < fields.len() && (#[trigger] fields[i]).name == Some(name);
    assert(more[last] == field && more[first] == fields[first]);
    assert forall|i: int| 0 <= i < fields.len() implies more[i] == #[trigger] fields[i] by {}
    let mode = if uses is Uses {
        MergeMode::Uses
    } else {
        MergeMode::VariableBits
    };
    assert(mode_seen(more, name, mode)) by {
        let i = choose|i: int|
            0 <= i < fields.len() && (#[trigger] fields[i]).name == Some(name)
                && fields[i].merge_mode == mode;
        assert(more[i].name == Some(name));
    }
    match uses {
        FieldUsesV::Uses { patterns, .. } => {
            let wider = patterns.insert(field.bits);
            assert forall|bits: Seq<Bit>| #[trigger]
                wider.contains(bits) <==> value_seen(more, name, bits) by {
                if patterns.contains(bits) {
                    let i = choose|i: int|
                        0 <= i < fields.len() && (#[trigger] fields[i]).name == Some(name)
                            && fields[i].bits == bits;
                    assert(more[i].bits == bits);
                }
                if value_seen(more, name, bits) {
                    let i = choose|i: int|
                        0 <= i < more.len() && (#[trigger] more[i]).name == Some(name)
                            && more[i].bits == bits;
                    if i < last {
                        assert(fields[i].bits == bits);
                        assert(value_seen(fields, name, bits));
                    }
                }
            }
        },
        FieldUsesV::VariableBits { pattern, .. } => {
            let pattern = pattern->0;
            let mixed = blended(pattern, field.bits);
            assert forall|place: int| 0 <= place < mixed.len() implies (#[trigger] mixed[place]
                == Bit::Var) == differs_at(more, name, place) && (mixed[place] != Bit::Var
                ==> agrees_at(more, name, place, mixed[place])) by {
                assert((pattern[place] == Bit::Var) == differs_at(fields, name, place));
                assert(field.bits[place] != Bit::Var);
                if differs_at(fields, name, place) {
                    let (i, j) = choose|i: int, j: int|
                        #![trigger fields[i], fields[j]]
                        0 <= i < fields.len() && 0 <= j < fields.len() && fields[i].name == Some(
                            name,
                        ) && fields[j].name == Some(name) && fields[i].bits[place]
                            != fields[j].bits[place];
                    assert(more[i] == fields[i] && more[j] == fields[j]);
                } else {
                    assert(agrees_at(fields, name, place, pattern[place]));
                    assert(fields[first].bits[place] == pattern[place]);
                    if pattern[place] != field.bits[place] {
                        assert(more[first].bits[place] != more[last].bits[place]);
                    }
                }
            }
        },
    }
}

/// What is observed of one more field tells its value too.
proof fn lemma_tells_field(uses: Map<Seq<char>, FieldUsesV>, fields: Seq<FieldV>, field: FieldV)
    requires
        tells_row(uses, fields),
        !has_variable(field.bits),
        observed_field(uses, field) is Some,
    ensures
        tells_row(observed_field(uses, field)->0, fields.push(field)),
{
    let after = observed_field(uses, field)->0;
    let more = fields.push(field);
    assert(more[fields.len() as int] == field);
    assert forall|name: Seq<char>|
        (#[trigger] after.contains_key(name) <==> name_seen(more, name)) && (after.contains_key(
            name,
        ) ==> tells_values(after[name], more, name)) by {
        assert(uses.contains_key(name) <==> name_seen(fields, name));
        if name_seen(fields, name) {
            let i = choose|i: int|
                0 <= i < fields.len() && (#[trigger] fields[i]).name == Some(name);
            assert(more[i].name == Some(name));
        }
        if field.name == Some(name) {
            if uses.contains_key(name) {
                lemma_further_value(uses[name], fields, field, name);
            } else {
                lemma_first_value(fields, field, name);
            }
        } else {
            if name_seen(more, name) {
                let i = choose|i: int|
                    0 <= i < more.len() && (#[trigger] more[i]).name == Some(name);
                assert(fields[i].name == Some(name));
            }
            if uses.contains_key(name) {
                lemma_other_name(uses[name], fields, field, name);
            }
        }
    }
}

proof fn lemma_tells_fields(
    uses: Map<Seq<char>, FieldUsesV>,
    before: Seq<FieldV>,
    fields: Seq<FieldV>,
)
    requires
        tells_row(uses, before),
        forall|i: int| 0 <= i < fields.len() ==> !has_variable((#[trigger] fields[i]).bits),
        observed_fields(uses, fields) is Some,
    ensures
        tells_row(observed_fields(uses, fields)->0, before + fields),
    decreases fields.len(),
{
    if fields.len() == 0 {
        assert(before + fields =~= before);
    } else {
        let front = fields.drop_last();
        assert forall|i: int| 0 <= i < front.len() implies !has_variable(
            (#[trigger] front[i]).bits,
        ) by {
            assert(front[i] == fields[i]);
        }
        assert(!has_variable(fields[fields.len() - 1].bits));
        lemma_tells_fields(uses, before, front);
        lemma_tells_field(observed_fields(uses, front)->0, before + front, fields.last());
        assert((before + front).push(fields.last()) =~= before + fields);
    }
}

/// All fields of a program, one instruction after the other.
pub open spec fn program_fields(program: Seq<DecodedV>) -> Seq<FieldV>
    decreases program.len(),
{
    if program.len() == 0 {
        seq![]
    } else {
        program_fields(program.drop_last()) + program.last().fields
    }
}

proof fn lemma_tells_program(program: Seq<DecodedV>)
    requires
        forall|i: int|
            0 <= i < program.len() ==> definite(#[trigger] program[i]),
        observed_program(program) is Some,
    ensures
        tells_row(observed_program(program)->0, program_fields(program)),
    decreases program.len(),
{
    if program.len() > 0 {
        let front = program.drop_last();
        assert forall|i: int| 0 <= i < front.len() implies definite(
            #[trigger] front[i],
        ) by {
            assert(front[i] == program[i]);
        }
        assert(definite(program[program.len() - 1]));
        lemma_tells_program(front);
        lemma_tells_fields(
            observed_program(front)->0,
            program_fields(front),
            program.last().fields,
        );
    }
}

/// Values of fields of the same name have the same length, and lengths can be counted.
pub open spec fn same_lengths(fields: Seq<FieldV>) -> bool {
    &&& forall|i: int| 0 <= i < fields.len() ==> (#[trigger] fields[i]).bits.len() <= usize::MAX
    &&& forall|i: int, j: int|
        0 <= i < fields.len() && 0 <= j < fields.len() && (#[trigger] fields[i]).name is Some
            && fields[i].name == (#[trigger] fields[j]).name ==> fields[i].bits.len()
            == fields[j].bits.len()
}

proof fn lemma_lengths_prefix(all: Seq<FieldV>, n: int)
    requires
        0 <= n <= all.len(),
        same_lengths(all),
    ensures
        same_lengths(all.take(n)),
{
    let front = all.take(n);
    assert forall|i: int| 0 <= i < front.len() implies (#[trigger] front[i]).bits.len()
        <= usize::MAX by {
        assert(front[i] == all[i]);
    }
    assert forall|i: int, j: int|
        0 <= i < front.len() && 0 <= j < front.len() && (#[trigger] front[i]).name is Some
            && front[i].name == (#[trigger] front[j]).name implies front[i].bits.len()
        == front[j].bits.len() by {
        assert(front[i] == all[i] && front[j] == all[j]);
    }
}

proof fn lemma_fields_defined(
    uses: Map<Seq<char>, FieldUsesV>,
    before: Seq<FieldV>,
    fields: Seq<FieldV>,
)
    requires
        tells_row(uses, before),
        same_lengths(before + fields),
        forall|i: int| 0 <= i < fields.len() ==> !has_variable((#[trigger] fields[i]).bits),
    ensures
        observed_fields(uses, fields) is Some,
    decreases fields.len(),
{
    if fields.len() > 0 {
        let all = before + fields;
        let front = fields.drop_last();
        let field = fields.last();
        let seen = before + front;
        assert forall|i: int| 0 <= i < front.len() implies !has_variable(
            (#[trigger] front[i]).bits,
        ) by {
            assert(front[i] == fields[i]);
        }
        lemma_lengths_prefix(all, seen.len() as int);
        assert(all.take(seen.len() as int) =~= seen);
        lemma_fields_defined(uses, before, front);
        lemma_tells_fields(uses, before, front);
        let between = observed_fields(uses, front)->0;
        assert(all[all.len() - 1] == field);
        if let Some(name) = field.name {
            assert(field.bits.len() <= usize::MAX);
            if between.contains_key(name) {
                assert(name_seen(seen, name));
                let i = choose|i: int|
                    0 <= i < seen.len() && (#[trigger] seen[i]).name == Some(name);
                assert(all[i] == seen[i]);
                assert(seen[i].bits.len() == field.bits.len());
                assert(tells_values(between[name], seen, name));
            }
        }
    }
}

/// A program whose fields of the same name have values of the same length has a candidate of its
/// own.
pub proof fn lemma_program_defined(program: Seq<DecodedV>)
    requires
        forall|i: int| 0 <= i < program.len() ==> definite(#[trigger] program[i]),
        same_lengths(program_fields(program)),
    ensures
        observed_program(program) is Some,
    decreases program.len(),
{
    if program.len() > 0 {
        let front = program.drop_last();
        let last = program.last();
        let all = program_fields(program);
        let before = program_fields(front);
        assert forall|i: int| 0 <= i < front.len() implies definite(#[trigger] front[i]) by {
            assert(front[i] == program[i]);
        }
        assert(definite(program[program.len() - 1]));
        lemma_lengths_prefix(all, before.len() as int);
        assert(all.take(before.len() as int) =~= before);
        lemma_program_defined(front);
        lemma_tells_program(front);
        lemma_fields_defined(observed_program(front)->0, before, last.fields);
    }
}

/// The uses allow nothing.
pub open spec fn allows_nothing(uses: FieldUsesV) -> bool {
    match uses {
        FieldUsesV::Uses { patterns, .. } => patterns == Set::<Seq<Bit>>::empty(),
        FieldUsesV::VariableBits { pattern, .. } => pattern is None,
    }
}

spec fn all_nothing(uses: Map<Seq<char>, FieldUsesV>) -> bool {
    forall|name: Seq<char>| #[trigger] uses.contains_key(name) ==> allows_nothing(uses[name])
}

proof fn lemma_nothing_fields(uses: Map<Seq<char>, FieldUsesV>, fields: Seq<FieldV>)
    requires
        all_nothing(uses),
    ensures
        all_nothing(with_fields(uses, fields, false)),
    decreases fields.len(),
{
    if fields.len() > 0 {
        lemma_nothing_fields(uses, fields.drop_last());
    }
}

proof fn lemma_nothing_forms(uses: Map<Seq<char>, FieldUsesV>, forms: Seq<FormV>)
    requires
        all_nothing(uses),
    ensures
        all_nothing(with_forms(uses, forms, false)),
    decreases forms.len(),
{
    if forms.len() > 0 {
        lemma_nothing_forms(uses, forms.drop_last());
        lemma_nothing_fields(with_forms(uses, forms.drop_last(), false), forms.last().fields);
    }
}

proof fn lemma_nothing_isa(instructions: Seq<InstructionV>)
    ensures
        all_nothing(isa_uses(instructions, false)),
    decreases instructions.len(),
{
    if instructions.len() > 0 {
        lemma_nothing_isa(instructions.drop_last());
        lemma_nothing_forms(
            isa_uses(instructions.drop_last(), false),
            instructions.last().forms,
        );
    }
}

/// The program uses the form of the instruction.
pub open spec fn form_used(program: Seq<DecodedV>, name: Seq<char>, form: Seq<char>) -> bool {
    exists|k: int|
        0 <= k < program.len() && (#[trigger] program[k]).name == name && program[k].form.name
            == form
}

/// The program uses the instruction.
pub open spec fn instruction_used(program: Seq<DecodedV>, name: Seq<char>) -> bool {
    exists|k: int| 0 <= k < program.len() && (#[trigger] program[k]).name == name
}

/// An instruction of the name is described.
pub open spec fn instruction_listed(instructions: Seq<InstructionV>, name: Seq<char>) -> bool {
    exists|k: int| 0 <= k < instructions.len() && (#[trigger] instructions[k]).name == name
}

proof fn lemma_no_forms(instructions: Seq<InstructionV>, name: Seq<char>)
    ensures
        isa_forms(instructions, false).contains_key(name) <==> instruction_listed(
            instructions,
            name,
        ),
        isa_forms(instructions, false).contains_key(name) ==> isa_forms(instructions, false)[name]
            == Set::<Seq<char>>::empty(),
    decreases instructions.len(),
{
    if instructions.len() > 0 {
        let front = instructions.drop_last();
        lemma_no_forms(front, name);
        if instruction_listed(front, name) {
            let k = choose|k: int| 0 <= k < front.len() && (#[trigger] front[k]).name == name;
            assert(instructions[k].name == name);
        }
        if instruction_listed(instructions, name) {
            let k = choose|k: int|
                0 <= k < instructions.len() && (#[trigger] instructions[k]).name == name;
            if k < front.len() {
                assert(front[k].name == name);
            }
        }
        assert(instructions[instructions.len() - 1] == instructions.last());
    }
}

proof fn lemma_forms_used(
    forms: Map<Seq<char>, Set<Seq<char>>>,
    program: Seq<DecodedV>,
    name: Seq<char>,
    form: Seq<char>,
)
    ensures
        used_forms(forms, program).contains_key(name) <==> forms.contains_key(name)
            || instruction_used(program, name),
        form_active(used_forms(forms, program), name, form) <==> form_active(forms, name, form)
            || form_used(program, name, form),
    decreases program.len(),
{
    if program.len() > 0 {
        let front = program.drop_last();
        let last = program.last();
        lemma_forms_used(forms, front, name, form);
        assert(program[program.len() - 1] == last);
        if instruction_used(front, name) {
            let k = choose|k: int| 0 <= k < front.len() && (#[trigger] front[k]).name == name;
            assert(program[k].name == name);
        }
        if form_used(front, name, form) {
            let k = choose|k: int|
                0 <= k < front.len() && (#[trigger] front[k]).name == name && front[k].form.name
                    == form;
            assert(program[k].name == name);
        }
        if instruction_used(program, name) && last.name != name {
            let k = choose|k: int| 0 <= k < program.len() && (#[trigger] program[k]).name == name;
            assert(front[k].name == name);
        }
        if form_used(program, name, form) && !(last.name == name && last.form.name == form) {
            let k = choose|k: int|
                0 <= k < program.len() && (#[trigger] program[k]).name == name
                    && program[k].form.name == form;
            assert(front[k].name == name);
        }
    }
}

/// The candidate made from a program has an entry for every described or used instruction, and
/// the forms it lists are exactly those that occur in the program.
pub proof fn lemma_program_forms(
    instructions: Seq<InstructionV>,
    program: Seq<DecodedV>,
    name: Seq<char>,
    form: Seq<char>,
)
    ensures
        ({
            let active = program_candidate(instructions, program).active_forms;
            &&& active.contains_key(name) <==> instruction_listed(instructions, name)
                || instruction_used(program, name)
            &&& form_active(active, name, form) <==> form_used(program, name, form)
        }),
{
    lemma_no_forms(instructions, name);
    lemma_forms_used(isa_forms(instructions, false), program, name, form);
}

/// Of a field that occurs in the program the candidate made from the program blends the values,
/// variable exactly where two of them differ, or lists their merged set.
pub proof fn lemma_program_values(
    instructions: Seq<InstructionV>,
    program: Seq<DecodedV>,
    name: Seq<char>,
)
    requires
        observed_program(program) is Some,
        forall|i: int|
            0 <= i < program.len() ==> definite(#[trigger] program[i]),
        name_seen(program_fields(program), name),
    ensures
        ({
            let uses = program_candidate(instructions, program).valid_field_uses;
            let fields = program_fields(program);
            &&& uses.contains_key(name)
            &&& exists|told: FieldUsesV| #[trigger]
                tells_values(told, fields, name) && uses[name] == merged_uses(told)
            &&& uses[name] is VariableBits ==> tells_values(uses[name], fields, name)
        }),
{
    let observed = observed_program(program)->0;
    lemma_tells_program(program);
    assert(observed.contains_key(name));
    assert(merged_map(observed).contains_key(name));
    assert(tells_values(observed[name], program_fields(program), name));
}

/// A field value of zeros and ones is allowed by a listing made from the program exactly where it
/// occurs in the program.
pub proof fn lemma_program_values_only(
    instructions: Seq<InstructionV>,
    program: Seq<DecodedV>,
    name: Seq<char>,
    bits: Seq<Bit>,
)
    requires
        observed_program(program) is Some,
        forall|i: int|
            0 <= i < program_fields(program).len() ==> all_concrete(
                (#[trigger] program_fields(program)[i]).bits,
            ),
        forall|i: int|
            0 <= i < program.len() ==> definite(#[trigger] program[i]),
        name_seen(program_fields(program), name),
        program_candidate(instructions, program).valid_field_uses[name] is Uses,
        all_concrete(bits),
    ensures
        value_allowed(
            bits,
            program_candidate(instructions, program).valid_field_uses[name],
        ) <==> value_seen(program_fields(program), name, bits),
{
    let observed = observed_program(program)->0;
    let fields = program_fields(program);
    lemma_tells_program(program);
    assert(observed.contains_key(name));
    assert(merged_map(observed).contains_key(name));
    let told = observed[name];
    assert(tells_values(told, fields, name));
    let listed = program_candidate(instructions, program).valid_field_uses[name];
    assert(listed == merged_uses(told));
    assert(!has_variable(bits)) by {
        if has_variable(bits) {
            let i = choose|i: int| 0 <= i < bits.len() && #[trigger] bits[i] == Bit::Var;
            assert(bits[i].concrete());
        }
    }
    if let FieldUsesV::Uses { patterns, len, .. } = told {
        assert forall|p: Seq<Bit>| #[trigger] patterns.contains(p) implies p.len() == len by {
            let i = choose|i: int|
                0 <= i < fields.len() && (#[trigger] fields[i]).name == Some(name)
                    && fields[i].bits == p;
            assert(fields[i].bits.len() == len);
        }
        lemma_merging_keeps_points(patterns, bits, len as nat);
        lemma_allowed_is_covered(bits, merged_patterns(patterns, len as nat), listed);
        if covered(patterns, bits) {
            let p = choose|p: Seq<Bit>|
                #[trigger] patterns.contains(p) && pattern_matches(p, bits);
            let i = choose|i: int|
                0 <= i < fields.len() && (#[trigger] fields[i]).name == Some(name)
                    && fields[i].bits == p;
            assert(all_concrete(fields[i].bits));
            assert(p =~= bits) by {
                assert forall|j: int| 0 <= j < p.len() implies p[j] == bits[j] by {
                    assert(p[j].concrete() && bit_accepts(p[j], bits[j]));
                }
            }
        }
        if value_seen(fields, name, bits) {
            assert(patterns.contains(bits));
            assert(pattern_matches(bits, bits));
        }
    }
}

/// A field that does not occur in the program is listed where the instructions have it, and then
/// allows nothing.
pub proof fn lemma_program_unused_field(
    instructions: Seq<InstructionV>,
    program: Seq<DecodedV>,
    name: Seq<char>,
)
    requires
        observed_program(program) is Some,
        forall|i: int|
            0 <= i < program.len() ==> definite(#[trigger] program[i]),
        !name_seen(program_fields(program), name),
    ensures
        ({
            let uses = program_candidate(instructions, program).valid_field_uses;
            &&& uses.contains_key(name) <==> isa_uses(instructions, false).contains_key(name)
            &&& uses.contains_key(name) ==> allows_nothing(uses[name])
        }),
{
    let observed = observed_program(program)->0;
    lemma_tells_program(program);
    lemma_nothing_isa(instructions);
    assert(!observed.contains_key(name));
    assert(!merged_map(observed).contains_key(name));
}

} // verus!
