//! What decoding finds: the instruction, the form and the fields that spell an encoding, and the
//! addresses of the instructions of a program.
use vstd::prelude::*;

use crate::bit::{pattern_matches, pattern_of, Bit};
use crate::candidate_laws::{lemma_decoded_from, lemma_filled_prefix, put_together};
use crate::collapse::{field_bits, lemma_field_found};
use crate::decode::{
    accepting, addr_stride, check, check_all, decoded_form, decoded_lines, field_slice,
    fields_accept, filled_fields, first_match, form_accepts, some_matches, Acceptance,
};
use crate::isa_specification::{fields_width, DecodedV, FieldV, FormV, InstructionV, PredicateV};

verus! {

/// The row of bits has the length of the pattern and its definite bits.
pub open spec fn agrees(pattern: Seq<Bit>, bits: Seq<Bit>) -> bool {
    &&& bits.len() == pattern.len()
    &&& forall|k: int|
        0 <= k < bits.len() ==> (pattern[k] == Bit::High ==> #[trigger] bits[k] == Bit::High) && (
        pattern[k] == Bit::Low ==> bits[k] == Bit::Low)
}

/// The fields are those of the form, with bits that agree with their patterns and that make up the
/// encoding, one after the other.
pub open spec fn spells(form: FormV, fields: Seq<FieldV>, bits: Seq<Bit>) -> bool {
    &&& fields.len() == form.fields.len()
    &&& put_together(fields) == bits
    &&& forall|i: int|
        0 <= i < fields.len() ==> {
            &&& (#[trigger] fields[i]) == (FieldV { bits: fields[i].bits, ..form.fields[i] })
            &&& agrees(form.fields[i].bits, fields[i].bits)
        }
}

/// The form takes the encoding: some fields of it spell it and meet its condition.
pub open spec fn takes(form: FormV, bits: Seq<Bit>) -> bool {
    exists|fields: Seq<FieldV>| #[trigger]
        spells(form, fields, bits) && check(form.when, bits, fields) == Some(true)
}

pub(crate) proof fn lemma_put_take(fields: Seq<FieldV>, i: int)
    requires
        0 <= i <= fields.len(),
    ensures
        put_together(fields.take(i)).len() <= put_together(fields).len(),
        put_together(fields.take(i)) == put_together(fields).take(
            put_together(fields.take(i)).len() as int,
        ),
    decreases fields.len(),
{
    if i == fields.len() {
        assert(fields.take(i) =~= fields);
        assert(put_together(fields).take(put_together(fields).len() as int) =~= put_together(fields));
    } else {
        let front = fields.drop_last();
        lemma_put_take(front, i);
        assert(front.take(i) =~= fields.take(i));
        let n = put_together(fields.take(i)).len() as int;
        assert(put_together(fields) == put_together(front) + fields.last().bits);
        assert(put_together(fields).take(n) =~= put_together(front).take(n));
    }
}

proof fn lemma_put_width(form: FormV, fields: Seq<FieldV>, i: int)
    requires
        fields.len() == form.fields.len(),
        0 <= i <= fields.len(),
        forall|k: int|
            0 <= k < fields.len() ==> (#[trigger] fields[k]).bits.len()
                == form.fields[k].bits.len(),
    ensures
        put_together(fields.take(i)).len() == fields_width(form.fields.take(i)),
    decreases i,
{
    if i > 0 {
        lemma_put_width(form, fields, i - 1);
        assert(fields.take(i).drop_last() =~= fields.take(i - 1));
        assert(form.fields.take(i).drop_last() =~= form.fields.take(i - 1));
        assert(fields.take(i).last() == fields[i - 1]);
        assert(form.fields.take(i).last() == form.fields[i - 1]);
        assert(fields[i - 1].bits.len() == form.fields[i - 1].bits.len());
    } else {
        assert(fields.take(0) =~= Seq::empty());
        assert(form.fields.take(0) =~= Seq::empty());
    }
}

/// Fields that spell an encoding have just the bits that their places give them.
proof fn lemma_spelled_slices(form: FormV, fields: Seq<FieldV>, bits: Seq<Bit>)
    requires
        spells(form, fields, bits),
    ensures
        fields_width(form.fields) == bits.len(),
        fields == filled_fields(form.fields, bits),
        fields_accept(form.fields, bits),
{
    reveal(field_slice);
    let n = fields.len() as int;
    assert(fields.take(n) =~= fields);
    assert(form.fields.take(n) =~= form.fields);
    assert forall|k: int| 0 <= k < fields.len() implies (#[trigger] fields[k]).bits.len()
        == form.fields[k].bits.len() by {
        assert(agrees(form.fields[k].bits, fields[k].bits));
    }
    lemma_put_width(form, fields, n);
    assert forall|i: int| 0 <= i < fields.len() implies (#[trigger] fields[i]).bits == field_slice(
        form.fields,
        bits,
        i,
    ) by {
        lemma_put_take(fields, i);
        lemma_put_take(fields, i + 1);
        lemma_put_width(form, fields, i);
        lemma_put_width(form, fields, i + 1);
        assert(fields.take(i + 1).drop_last() =~= fields.take(i));
        assert(fields.take(i + 1).last() == fields[i]);
        let before = put_together(fields.take(i));
        let upto = put_together(fields.take(i + 1));
        assert(upto == before + fields[i].bits);
        assert(fields[i].bits =~= upto.skip(before.len() as int));
        assert(fields[i].bits =~= bits.subrange(before.len() as int, upto.len() as int));
    }
    let filled = filled_fields(form.fields, bits);
    assert forall|i: int| 0 <= i < fields.len() implies fields[i] == filled[i] by {
        assert(fields[i].bits == field_slice(form.fields, bits, i));
    }
    assert(fields =~= filled);
    assert forall|i: int| 0 <= i < form.fields.len() implies pattern_matches(
        (#[trigger] form.fields[i]).bits,
        field_slice(form.fields, bits, i),
    ) by {
        assert(fields[i].bits == field_slice(form.fields, bits, i));
        assert(agrees(form.fields[i].bits, fields[i].bits));
    }
}

/// What the places give the fields of an accepting form spells the encoding.
proof fn lemma_slices_spell(form: FormV, bits: Seq<Bit>)
    requires
        fields_width(form.fields) == bits.len(),
        fields_accept(form.fields, bits),
    ensures
        spells(form, filled_fields(form.fields, bits), bits),
{
    let fields = form.fields;
    let filled = filled_fields(fields, bits);
    lemma_filled_prefix(fields, bits, fields.len());
    assert(filled.take(fields.len() as int) =~= filled);
    assert(fields.take(fields.len() as int) =~= fields);
    assert(bits.take(bits.len() as int) =~= bits);
    assert forall|i: int| 0 <= i < filled.len() implies agrees(
        fields[i].bits,
        (#[trigger] filled[i]).bits,
    ) by {
        assert(pattern_matches(fields[i].bits, field_slice(fields, bits, i)));
    }
}

/// A form accepts an encoding exactly if its fields can spell it so that its condition holds.
pub proof fn lemma_form_takes(form: FormV, bits: Seq<Bit>)
    ensures
        form_accepts(form, bits) == Some(true) <==> takes(form, bits),
{
    if form_accepts(form, bits) == Some(true) {
        lemma_slices_spell(form, bits);
    }
    if takes(form, bits) {
        let fields = choose|fields: Seq<FieldV>| #[trigger]
            spells(form, fields, bits) && check(form.when, bits, fields) == Some(true);
        lemma_spelled_slices(form, fields, bits);
    }
}

/// Looking at the forms finds one exactly if it is the only one that takes the encoding.
proof fn lemma_accepting_one(forms: Seq<FormV>, bits: Seq<Bit>)
    requires
        accepting(forms, bits) is Some,
    ensures
        match accepting(forms, bits)->0 {
            Acceptance::Nothing => forall|j: int|
                0 <= j < forms.len() ==> !takes(#[trigger] forms[j], bits),
            Acceptance::One(form) => exists|j: int|
                0 <= j < forms.len() && #[trigger] forms[j] == form && takes(form, bits) && forall|
                    k: int,
                |
                    0 <= k < forms.len() && k != j ==> !takes(#[trigger] forms[k], bits),
            Acceptance::Many => exists|j: int, k: int|
                0 <= j < k < forms.len() && takes(#[trigger] forms[j], bits) && takes(
                    #[trigger] forms[k],
                    bits,
                ),
        },
    decreases forms.len(),
{
    if forms.len() > 0 {
        let front = forms.drop_last();
        let n = forms.len() - 1;
        lemma_accepting_one(front, bits);
        lemma_form_takes(forms[n], bits);
        assert forall|j: int| 0 <= j < n implies forms[j] == #[trigger] front[j] by {}
        match accepting(front, bits)->0 {
            Acceptance::Nothing => {
                assert forall|j: int| 0 <= j < n implies !takes(#[trigger] forms[j], bits) by {
                    assert(front[j] == forms[j]);
                }
            },
            Acceptance::One(form) => {
                let j = choose|j: int|
                    0 <= j < front.len() && #[trigger] front[j] == form && takes(form, bits)
                        && forall|k: int|
                        0 <= k < front.len() && k != j ==> !takes(#[trigger] front[k], bits);
                assert(forms[j] == form);
                assert forall|k: int| 0 <= k < n && k != j implies !takes(
                    #[trigger] forms[k],
                    bits,
                ) by {
                    assert(front[k] == forms[k]);
                }
                if form_accepts(forms[n], bits) == Some(true) {
                    assert(takes(forms[j], bits) && takes(forms[n], bits));
                }
            },
            Acceptance::Many => {
                let (j, k) = choose|j: int, k: int|
                    0 <= j < k < front.len() && takes(#[trigger] front[j], bits) && takes(
                        #[trigger] front[k],
                        bits,
                    );
                assert(takes(forms[j], bits) && takes(forms[k], bits));
            },
        }
    }
}

/// The form is the only one of the row that takes the encoding.
pub open spec fn only_taker(forms: Seq<FormV>, j: int, bits: Seq<Bit>) -> bool {
    &&& 0 <= j < forms.len()
    &&& takes(forms[j], bits)
    &&& forall|k: int| 0 <= k < forms.len() && k != j ==> !takes(#[trigger] forms[k], bits)
}

/// The instruction takes the encoding with exactly one form.
pub open spec fn takes_once(instruction: InstructionV, bits: Seq<Bit>) -> bool {
    exists|j: int| #[trigger] only_taker(instruction.forms, j, bits)
}

proof fn lemma_one_taker(instruction: InstructionV, bits: Seq<Bit>)
    requires
        accepting(instruction.forms, bits) is Some,
    ensures
        takes_once(instruction, bits) <==> accepting(instruction.forms, bits)->0 is One,
        accepting(instruction.forms, bits)->0 matches Acceptance::One(form) ==> exists|j: int|
            #[trigger] only_taker(instruction.forms, j, bits) && instruction.forms[j] == form,
{
    let forms = instruction.forms;
    lemma_accepting_one(forms, bits);
    match accepting(forms, bits)->0 {
        Acceptance::One(form) => {
            let j = choose|j: int|
                0 <= j < forms.len() && #[trigger] forms[j] == form && takes(form, bits) && forall|
                    k: int,
                |
                    0 <= k < forms.len() && k != j ==> !takes(#[trigger] forms[k], bits);
            assert(only_taker(forms, j, bits));
        },
        Acceptance::Nothing => {
            if takes_once(instruction, bits) {
                let j = choose|j: int| #[trigger] only_taker(forms, j, bits);
                assert(!takes(forms[j], bits));
            }
        },
        Acceptance::Many => {
            let (j, k) = choose|j: int, k: int|
                0 <= j < k < forms.len() && takes(#[trigger] forms[j], bits) && takes(
                    #[trigger] forms[k],
                    bits,
                );
            if takes_once(instruction, bits) {
                let l = choose|l: int| #[trigger] only_taker(forms, l, bits);
                assert(takes(forms[j], bits) && takes(forms[k], bits));
            }
        },
    }
}

/// The decoded instruction is that of the instruction and the form: it has their name, the form,
/// fields that spell the encoding and meet the condition, and what the instruction says of
/// branching; an instruction that branches must stay as it is.
pub open spec fn is_decoding(
    decoded: DecodedV,
    instruction: InstructionV,
    form: FormV,
    bits: Seq<Bit>,
) -> bool {
    &&& decoded.name == instruction.name
    &&& decoded.form == form
    &&& decoded.bits == bits
    &&& spells(form, decoded.fields, bits)
    &&& check(form.when, bits, decoded.fields) == Some(true)
    &&& decoded.branch_instruction == instruction.branch_instruction
    &&& decoded.static_instruction <==> instruction.branch_instruction is Some
}

/// An encoding decodes to the first instruction that takes it with exactly one form, and to
/// nothing if there is none.
pub proof fn lemma_first_taker(instructions: Seq<InstructionV>, bits: Seq<Bit>)
    requires
        first_match(instructions, bits) is Some,
    ensures
        match first_match(instructions, bits)->0 {
            Some(decoded) => exists|i: int, j: int|
                #![trigger instructions[i].forms[j]]
                0 <= i < instructions.len() && only_taker(instructions[i].forms, j, bits)
                    && is_decoding(decoded, instructions[i], instructions[i].forms[j], bits)
                    && forall|k: int| 0 <= k < i ==> !takes_once(#[trigger] instructions[k], bits),
            None => forall|k: int|
                0 <= k < instructions.len() ==> !takes_once(#[trigger] instructions[k], bits),
        },
    decreases instructions.len(),
{
    if instructions.len() > 0 {
        let front = instructions.drop_last();
        let n = instructions.len() - 1;
        let last = instructions[n];
        lemma_first_taker(front, bits);
        match first_match(front, bits)->0 {
            Some(decoded) => {
                let (i, j) = choose|i: int, j: int|
                    #![trigger front[i].forms[j]]
                    0 <= i < front.len() && only_taker(front[i].forms, j, bits) && is_decoding(
                        decoded,
                        front[i],
                        front[i].forms[j],
                        bits,
                    ) && forall|k: int| 0 <= k < i ==> !takes_once(#[trigger] front[k], bits);
                assert(instructions[i].forms[j] == front[i].forms[j]);
                assert forall|k: int| 0 <= k < i implies !takes_once(
                    #[trigger] instructions[k],
                    bits,
                ) by {
                    assert(front[k] == instructions[k]);
                }
            },
            None => {
                assert forall|k: int| 0 <= k < n implies !takes_once(
                    #[trigger] instructions[k],
                    bits,
                ) by {
                    assert(front[k] == instructions[k]);
                }
                lemma_one_taker(last, bits);
                if let Acceptance::One(form) = accepting(last.forms, bits)->0 {
                    let j = choose|j: int| #[trigger]
                        only_taker(last.forms, j, bits) && last.forms[j] == form;
                    lemma_form_takes(form, bits);
                    lemma_slices_spell(form, bits);
                    let decoded = decoded_form(last, form, bits);
                    assert(is_decoding(decoded, instructions[n], instructions[n].forms[j], bits));
                }
            },
        }
    }
}

/// The condition of a form, part by part: a conjunction holds where all of its parts do, a bit where
/// it has the value, and a field where the first one of the name has the value or agrees with one
/// of the listed patterns.
pub proof fn lemma_conditions(predicate: PredicateV, bits: Seq<Bit>, fields: Seq<FieldV>)
    ensures
        match predicate {
            PredicateV::Always => check(predicate, bits, fields) == Some(true),
            PredicateV::Never => check(predicate, bits, fields) == Some(false),
            PredicateV::And(parts) => check(predicate, bits, fields) == Some(true) <==> forall|
                i: int,
            |
                0 <= i < parts.len() ==> check(#[trigger] parts[i], bits, fields) == Some(true),
            PredicateV::BitEq { index, value } => {
                &&& index < bits.len() ==> check(predicate, bits, fields) == Some(
                    bits[index as int] == value,
                )
                &&& index >= bits.len() ==> check(predicate, bits, fields) is None
            },
            PredicateV::FieldEq { field_name, value } => check(predicate, bits, fields) == Some(
                exists|i: int| #[trigger] first_named(fields, field_name, i) && fields[i].bits == value,
            ),
            PredicateV::FieldIn { field_name, values } => check(predicate, bits, fields) == Some(
                exists|i: int, k: int|
                    #![trigger fields[i], values[k]]
                    first_named(fields, field_name, i) && 0 <= k < values.len() && agrees(
                        values[k],
                        fields[i].bits,
                    ),
            ),
        },
{
    match predicate {
        PredicateV::And(parts) => {
            lemma_conjunction(parts, bits, fields);
        },
        PredicateV::FieldEq { field_name, value } => {
            lemma_first_field(fields, field_name);
        },
        PredicateV::FieldIn { field_name, values } => {
            lemma_first_field(fields, field_name);
            if let Some(found) = field_bits(fields, field_name) {
                let i = choose|i: int| #[trigger] first_named(fields, field_name, i);
                if some_matches(values, found) {
                    let k = choose|k: int|
                        0 <= k < values.len() && pattern_matches(#[trigger] values[k], found);
                    assert(fields[i].bits == found);
                    assert(agrees(values[k], fields[i].bits));
                }
                assert forall|l: int, k: int|
                    #![trigger fields[l], values[k]]
                    first_named(fields, field_name, l) && 0 <= k < values.len() && agrees(
                        values[k],
                        fields[l].bits,
                    ) implies some_matches(values, found) by {
                    assert(pattern_matches(values[k], found));
                }
            }
        },
        _ => {},
    }
}

/// The field is the first one of the name.
pub open spec fn first_named(fields: Seq<FieldV>, name: Seq<char>, i: int) -> bool {
    &&& 0 <= i < fields.len()
    &&& fields[i].name == Some(name)
    &&& forall|j: int| 0 <= j < i ==> (#[trigger] fields[j]).name != Some(name)
}

proof fn lemma_first_field(fields: Seq<FieldV>, name: Seq<char>)
    ensures
        match field_bits(fields, name) {
            Some(found) => {
                &&& exists|i: int| #[trigger] first_named(fields, name, i)
                &&& forall|i: int| #[trigger]
                    first_named(fields, name, i) ==> fields[i].bits == found
            },
            None => forall|i: int| !#[trigger] first_named(fields, name, i),
        },
    decreases fields.len(),
{
    assert forall|i: int| #[trigger] first_named(fields, name, i) implies field_bits(fields, name)
        == Some(fields[i].bits) by {
        lemma_field_found(fields, name, i);
    }
    if fields.len() > 0 {
        let front = fields.drop_last();
        lemma_first_field(front, name);
        match field_bits(front, name) {
            Some(_) => {
                let i = choose|i: int| #[trigger] first_named(front, name, i);
                assert forall|j: int| 0 <= j < i implies (#[trigger] fields[j]).name != Some(
                    name,
                ) by {
                    assert(front[j] == fields[j]);
                }
                assert(first_named(fields, name, i));
            },
            None => {
                if fields.last().name == Some(name) {
                    let n = fields.len() - 1;
                    lemma_not_named(front, name);
                    assert forall|j: int| 0 <= j < n implies (#[trigger] fields[j]).name != Some(
                        name,
                    ) by {
                        assert(front[j] == fields[j]);
                    }
                    assert(first_named(fields, name, n));
                }
            },
        }
    }
}

/// Without a first field of the name there is none.
proof fn lemma_not_named(fields: Seq<FieldV>, name: Seq<char>)
    requires
        forall|i: int| !#[trigger] first_named(fields, name, i),
    ensures
        forall|j: int| 0 <= j < fields.len() ==> (#[trigger] fields[j]).name != Some(name),
{
    assert forall|j: int| 0 <= j < fields.len() implies (#[trigger] fields[j]).name != Some(
        name,
    ) by {
        lemma_not_named_before(fields, name, j);
    }
}

proof fn lemma_not_named_before(fields: Seq<FieldV>, name: Seq<char>, n: int)
    requires
        forall|i: int| !#[trigger] first_named(fields, name, i),
        0 <= n < fields.len(),
    ensures
        forall|j: int| 0 <= j <= n ==> (#[trigger] fields[j]).name != Some(name),
    decreases n,
{
    if n > 0 {
        lemma_not_named_before(fields, name, n - 1);
    }
    assert(!first_named(fields, name, n));
}

proof fn lemma_conjunction(parts: Seq<PredicateV>, bits: Seq<Bit>, fields: Seq<FieldV>)
    ensures
        check_all(parts, bits, fields) == Some(true) <==> forall|i: int|
            0 <= i < parts.len() ==> check(#[trigger] parts[i], bits, fields) == Some(true),
    decreases parts.len(),
{
    if parts.len() > 0 {
        let front = parts.drop_last();
        let n = parts.len() - 1;
        lemma_conjunction(front, bits, fields);
        assert(parts[n] == parts.last());
        if check_all(parts, bits, fields) == Some(true) {
            assert(check_all(front, bits, fields) == Some(true));
            assert forall|i: int| 0 <= i < parts.len() implies check(
                #[trigger] parts[i],
                bits,
                fields,
            ) == Some(true) by {
                if i < n {
                    assert(front[i] == parts[i]);
                }
            }
        }
        if forall|i: int|
            0 <= i < parts.len() ==> check(#[trigger] parts[i], bits, fields) == Some(true) {
            assert forall|i: int| 0 <= i < front.len() implies check(
                #[trigger] front[i],
                bits,
                fields,
            ) == Some(true) by {
                assert(front[i] == parts[i]);
            }
            assert(check(parts[n], bits, fields) == Some(true));
        }
    }
}

/// The number is the least positive number of bytes that hold the bits.
pub open spec fn bytes_hold(bytes: int, bits: nat) -> bool {
    &&& bytes >= 1
    &&& bits <= 8 * bytes
    &&& bytes > 1 ==> 8 * (bytes - 1) < bits
}

/// The row of characters writes the row of bits.
pub open spec fn writes(row: Seq<char>, bits: Seq<Bit>) -> bool {
    &&& row.len() == bits.len()
    &&& forall|k: int|
        0 <= k < row.len() ==> (#[trigger] row[k] == '0' && bits[k] == Bit::Low) || (row[k] == '1'
            && bits[k] == Bit::High)
}

/// The lines of a program decode one by one, in order. The first instruction is at address zero,
/// and each other one as many bytes behind the one before it as that one needs at the least.
pub proof fn lemma_program_layout(rows: Seq<Seq<char>>, instructions: Seq<InstructionV>)
    requires
        decoded_lines(rows, instructions) is Some,
        rows.len() <= usize::MAX,
    ensures
        ({
            let program = decoded_lines(rows, instructions)->0;
            &&& program.len() == rows.len()
            &&& rows.len() > 0 ==> program[0].mem_addr == 0
            &&& forall|i: int|
                0 <= i < rows.len() ==> {
                    &&& (#[trigger] program[i]).assembly_line == i
                    &&& writes(rows[i], program[i].bits)
                    &&& first_match(instructions, program[i].bits) == Some(
                        Some(DecodedV { mem_addr: 0, assembly_line: 0, ..program[i] }),
                    )
                }
            &&& forall|i: int|
                0 < i < rows.len() ==> bytes_hold(
                    (#[trigger] program[i]).mem_addr - program[i - 1].mem_addr,
                    program[i - 1].bits.len(),
                )
        }),
    decreases rows.len(),
{
    if rows.len() > 0 {
        let front = rows.drop_last();
        let n = rows.len() - 1;
        lemma_program_layout(front, instructions);
        let before = decoded_lines(front, instructions)->0;
        let program = decoded_lines(rows, instructions)->0;
        let bits = pattern_of(rows[n]);
        let found = first_match(instructions, bits)->0->0;
        let (a, b) = lemma_decoded_from(instructions, bits);
        assert(found == DecodedV { mem_addr: 0, assembly_line: 0, ..program[n] });
        assert(program[n].bits == bits);
        assert forall|i: int| 0 <= i < n implies program[i] == #[trigger] before[i] by {}
        assert forall|i: int| 0 <= i < rows.len() implies {
            &&& (#[trigger] program[i]).assembly_line == i
            &&& writes(rows[i], program[i].bits)
            &&& first_match(instructions, program[i].bits) == Some(
                Some(DecodedV { mem_addr: 0, assembly_line: 0, ..program[i] }),
            )
        } by {
            if i < n {
                assert(program[i] == before[i]);
                assert(front[i] == rows[i]);
            }
        }
        assert forall|i: int| 0 < i < rows.len() implies bytes_hold(
            (#[trigger] program[i]).mem_addr - program[i - 1].mem_addr,
            program[i - 1].bits.len(),
        ) by {
            assert(program[i - 1] == before[i - 1]);
            if i < n {
                assert(program[i] == before[i]);
            }
        }
    }
}

/// In a program whose instructions are all of the same whole number of bytes, each instruction is
/// at its number times that.
pub proof fn lemma_even_layout(
    rows: Seq<Seq<char>>,
    instructions: Seq<InstructionV>,
    bytes: nat,
    i: int,
)
    requires
        decoded_lines(rows, instructions) is Some,
        rows.len() <= usize::MAX,
        bytes > 0,
        forall|k: int| 0 <= k < rows.len() ==> (#[trigger] rows[k]).len() == 8 * bytes,
        0 <= i < rows.len(),
    ensures
        decoded_lines(rows, instructions)->0[i].mem_addr == bytes * i,
    decreases i,
{
    lemma_program_layout(rows, instructions);
    let program = decoded_lines(rows, instructions)->0;
    if i > 0 {
        lemma_even_layout(rows, instructions, bytes, i - 1);
        assert(writes(rows[i - 1], program[i - 1].bits));
        let step = program[i].mem_addr - program[i - 1].mem_addr;
        assert(bytes_hold(step, program[i - 1].bits.len()));
        assert(bytes * i == bytes * (i - 1) + bytes) by (nonlinear_arith);
    } else {
        assert(bytes * i == 0) by (nonlinear_arith)
            requires
                i == 0,
        ;
    }
}

/// The distance from an instruction to the next one is the least positive number of bytes that
/// hold its bits.
pub proof fn lemma_stride(bits: nat)
    ensures
        bytes_hold(addr_stride(bits) as int, bits),
{
}

} // verus!
