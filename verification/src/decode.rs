//! Decoding bit rows into instructions.
use vstd::prelude::*;

use crate::bit::{pattern_matches, Bit, BitPattern};
use crate::collapse::field_bits;
use crate::collections::{duplicate_option, lemma_viewed_push, viewed, Value};
use crate::isa_specification::{
    fields_width, lemma_width_prefix, predicate_views, DecodedField, DecodedInstruction, DecodedV,
    FieldV, FormV, ISA, Instruction, InstructionForm, InstructionV, Predicate, PredicateV,
};
use crate::text::{char_rows, chars_of, lines, lines_of};

verus! {

/// The outcome of a row of predicates, looked at in order until one fails.
pub open spec fn check_all(predicates: Seq<PredicateV>, bits: Seq<Bit>, fields: Seq<FieldV>) -> Option<
    bool,
>
    decreases predicates, 0nat,
{
    if predicates.len() == 0 {
        Some(true)
    } else {
        match check_all(predicates.drop_last(), bits, fields) {
            Some(true) => check(predicates.last(), bits, fields),
            other => other,
        }
    }
}

/// The outcome of a predicate on decoded bits and fields.
///
/// `None` where it looks at a bit that the encoding does not have.
pub open spec fn check(predicate: PredicateV, bits: Seq<Bit>, fields: Seq<FieldV>) -> Option<bool>
    decreases predicate, 1nat,
{
    match predicate {
        PredicateV::Always => Some(true),
        PredicateV::Never => Some(false),
        PredicateV::And(inner) => check_all(inner, bits, fields),
        PredicateV::BitEq { index, value } => if index < bits.len() {
            Some(bits[index as int] == value)
        } else {
            None
        },
        PredicateV::FieldEq { field_name, value } => Some(
            field_bits(fields, field_name) == Some(value),
        ),
        PredicateV::FieldIn { field_name, values } => Some(
            match field_bits(fields, field_name) {
                Some(found) => some_matches(values, found),
                None => false,
            },
        ),
    }
}

/// A predicate that holds for a row holds for its prefixes.
proof fn lemma_check_prefix(
    predicates: Seq<PredicateV>,
    bits: Seq<Bit>,
    fields: Seq<FieldV>,
    k: int,
)
    requires
        0 <= k <= predicates.len(),
    ensures
        check_all(predicates.take(k), bits, fields) != Some(true) ==> check_all(
            predicates,
            bits,
            fields,
        ) == check_all(predicates.take(k), bits, fields),
    decreases predicates.len(),
{
    if k == predicates.len() {
        assert(predicates.take(k) =~= predicates);
    } else {
        lemma_check_prefix(predicates.drop_last(), bits, fields, k);
        assert(predicates.drop_last().take(k) =~= predicates.take(k));
    }
}

/// One of the patterns accepts the row of bits.
pub open spec fn some_matches(values: Seq<Seq<Bit>>, found: Seq<Bit>) -> bool {
    exists|k: int| 0 <= k < values.len() && pattern_matches(#[trigger] values[k], found)
}

fn any_matches(values: &Vec<BitPattern>, found: &BitPattern) -> (r: bool)
    ensures
        r == some_matches(viewed(values@), found@),
{
    let ghost all = viewed(values@);
    let mut k: usize = 0;
    while k < values.len()
        invariant
            k <= values@.len(),
            all == viewed(values@),
            forall|j: int| 0 <= j < k ==> !pattern_matches(#[trigger] all[j], found@),
        decreases values@.len() - k,
    {
        assert(all[k as int] == values@[k as int]@);
        if values[k].matches_bits(found.bits.as_slice()) {
            return true;
        }
        k += 1;
    }
    false
}

fn try_predicates(predicates: &Vec<Predicate>, inst: &DecodedInstruction) -> (r: Option<bool>)
    ensures
        r == check_all(predicate_views(predicates@), inst@.bits, inst@.fields),
    decreases predicates, 0nat,
{
    let ghost all = predicate_views(predicates@);
    let mut i: usize = 0;
    assert(all.take(0) =~= Seq::empty());
    while i < predicates.len()
        invariant
            i <= predicates@.len(),
            all == predicate_views(predicates@),
            check_all(all.take(i as int), inst@.bits, inst@.fields) == Some(true),
        decreases predicates@.len() - i,
    {
        proof {
            lemma_check_prefix(all, inst@.bits, inst@.fields, i + 1);
            assert(all.take(i + 1).drop_last() =~= all.take(i as int));
            assert(all.take(i + 1).last() == predicates@[i as int]@);
        }
        let outcome = try_predicate(&predicates[i], inst);
        match outcome {
            Some(true) => {},
            _ => {
                return outcome;
            },
        }
        i += 1;
    }
    assert(all.take(i as int) =~= all);
    Some(true)
}

fn try_predicate(predicate: &Predicate, inst: &DecodedInstruction) -> (r: Option<bool>)
    ensures
        r == check(predicate@, inst@.bits, inst@.fields),
    decreases predicate, 1nat,
{
    match predicate {
        Predicate::Always => Some(true),
        Predicate::Never => Some(false),
        Predicate::And(inner) => {
            assert(predicate@ == PredicateV::And(predicate_views(inner@)));
            try_predicates(inner, inst)
        },
        Predicate::BitEq { index, value } => if *index < inst.bits.len() {
            Some(inst.bits[*index] == *value)
        } else {
            None
        },
        Predicate::FieldEq { field_name, value } => match inst.field_value(field_name.as_str()) {
            Some(found) => Some(found.same(value)),
            None => Some(false),
        },
        Predicate::FieldIn { field_name, values } => match inst.field_value(field_name.as_str()) {
            Some(found) => Some(any_matches(values, found)),
            None => Some(false),
        },
    }
}

impl Predicate {
    /// Evaluates the predicate on a decoded instruction; `None` where it looks at a bit that the
    /// encoding does not have.
    pub fn try_check(&self, inst: &DecodedInstruction) -> (r: Option<bool>)
        ensures
            r == check(self@, inst@.bits, inst@.fields),
    {
        try_predicate(self, inst)
    }

    /// Evaluates the predicate on a decoded instruction.
    pub fn check(&self, inst: &DecodedInstruction) -> (r: bool)
        requires
            check(self@, inst@.bits, inst@.fields) is Some,
        ensures
            check(self@, inst@.bits, inst@.fields) == Some(r),
    {
        self.try_check(inst).unwrap()
    }
}

/// The bits of an encoding that belong to the field at `i`.
#[verifier::opaque]
pub open spec fn field_slice(fields: Seq<FieldV>, bits: Seq<Bit>, i: int) -> Seq<Bit> {
    bits.subrange(fields_width(fields.take(i)) as int, fields_width(fields.take(i + 1)) as int)
}

/// The fields with the bits that an encoding gives them.
pub open spec fn filled_fields(fields: Seq<FieldV>, bits: Seq<Bit>) -> Seq<FieldV> {
    Seq::new(
        fields.len(),
        |i: int| FieldV { bits: field_slice(fields, bits, i), ..fields[i] },
    )
}

/// Every field accepts its part of an encoding.
pub open spec fn fields_accept(fields: Seq<FieldV>, bits: Seq<Bit>) -> bool {
    forall|i: int|
        0 <= i < fields.len() ==> pattern_matches(
            (#[trigger] fields[i]).bits,
            field_slice(fields, bits, i),
        )
}

/// The instruction that an encoding of a form stands for.
pub open spec fn decoded_form(instruction: InstructionV, form: FormV, bits: Seq<Bit>) -> DecodedV {
    DecodedV {
        name: instruction.name,
        form,
        bits,
        fields: filled_fields(form.fields, bits),
        branch_instruction: instruction.branch_instruction,
        mem_addr: 0,
        static_instruction: instruction.branch_instruction is Some,
        assembly_line: 0,
    }
}

/// A form accepts an encoding: its width, its fields and its condition fit.
pub open spec fn form_accepts(form: FormV, bits: Seq<Bit>) -> Option<bool> {
    if fields_width(form.fields) == bits.len() && fields_accept(form.fields, bits) {
        check(form.when, bits, filled_fields(form.fields, bits))
    } else {
        Some(false)
    }
}

/// How many forms accept an encoding: none, one, or more than one.
pub enum Acceptance {
    Nothing,
    One(FormV),
    Many,
}

/// How many of the forms accept an encoding, looked at in order until a second one does.
///
/// `None` where the condition of a form looks at a bit that the encoding does not have.
pub open spec fn accepting(forms: Seq<FormV>, bits: Seq<Bit>) -> Option<Acceptance>
    decreases forms.len(),
{
    if forms.len() == 0 {
        Some(Acceptance::Nothing)
    } else {
        match accepting(forms.drop_last(), bits) {
            None => None,
            Some(Acceptance::Many) => Some(Acceptance::Many),
            Some(before) => match form_accepts(forms.last(), bits) {
                None => None,
                Some(false) => Some(before),
                Some(true) => Some(
                    match before {
                        Acceptance::Nothing => Acceptance::One(forms.last()),
                        _ => Acceptance::Many,
                    },
                ),
            },
        }
    }
}

/// The forms of an instruction have widths that can be counted.
pub open spec fn countable(forms: Seq<FormV>) -> bool {
    forall|i: int| 0 <= i < forms.len() ==> fields_width((#[trigger] forms[i]).fields) <= usize::MAX
}

/// What looking at a row of forms finds is found or undefined already in its prefixes.
proof fn lemma_accepting_prefix(forms: Seq<FormV>, bits: Seq<Bit>, k: int)
    requires
        0 <= k <= forms.len(),
    ensures
        accepting(forms.take(k), bits) is None ==> accepting(forms, bits) is None,
        accepting(forms.take(k), bits) == Some(Acceptance::Many) ==> accepting(forms, bits)
            == Some(Acceptance::Many),
    decreases forms.len(),
{
    if k == forms.len() {
        assert(forms.take(k) =~= forms);
    } else {
        lemma_accepting_prefix(forms.drop_last(), bits, k);
        assert(forms.drop_last().take(k) =~= forms.take(k));
    }
}

/// Copies a part of a row of bits.
pub(crate) fn slice_bits(bits: &[Bit], from: usize, to: usize) -> (r: Vec<Bit>)
    requires
        from <= to <= bits@.len(),
    ensures
        r@ == bits@.subrange(from as int, to as int),
{
    let mut r: Vec<Bit> = Vec::new();
    let mut i: usize = from;
    assert(r@ =~= bits@.subrange(from as int, i as int));
    while i < to
        invariant
            from <= i <= to <= bits@.len(),
            r@ == bits@.subrange(from as int, i as int),
        decreases to - i,
    {
        r.push(bits[i]);
        i += 1;
        assert(r@ =~= bits@.subrange(from as int, i as int));
    }
    r
}

/// A decoded field with the properties of a field of a form.
fn fill_field(field: &crate::isa_specification::InstructionField, part: BitPattern) -> (r:
    DecodedField)
    ensures
        r@ == (FieldV { bits: part@, ..field@ }),
{
    DecodedField {
        name: duplicate_option(&field.name),
        value: part,
        merge_mode: field.merge_mode,
        is_immediate: field.is_immediate,
        is_register_read: field.is_register_read,
        is_register_write: field.is_register_write,
    }
}

/// Splits an encoding into the fields of a form, if every field accepts its part.
fn fill_fields(form: &InstructionForm, bits: &[Bit]) -> (r: Option<Vec<DecodedField>>)
    requires
        fields_width(form@.fields) == bits@.len(),
    ensures
        match r {
            Some(fields) => fields_accept(form@.fields, bits@) && viewed(fields@) == filled_fields(
                form@.fields,
                bits@,
            ),
            None => !fields_accept(form@.fields, bits@),
        },
{
    let ghost all = form@.fields;
    let mut fields: Vec<DecodedField> = Vec::new();
    let mut at: usize = 0;
    let mut i: usize = 0;
    assert(all.take(0) =~= Seq::empty());
    while i < form.fields.len()
        invariant
            i <= form.fields@.len(),
            all == viewed(form.fields@),
            fields_width(all) == bits@.len(),
            at == fields_width(all.take(i as int)),
            at <= bits@.len(),
            fields@.len() == i,
            forall|j: int|
                0 <= j < i ==> (#[trigger] fields@[j])@ == (FieldV {
                    bits: field_slice(all, bits@, j),
                    ..all[j]
                }),
            forall|j: int|
                0 <= j < i ==> pattern_matches(
                    (#[trigger] all[j]).bits,
                    field_slice(all, bits@, j),
                ),
        decreases form.fields@.len() - i,
    {
        proof {
            assert(all.take(i + 1).drop_last() =~= all.take(i as int));
            assert(all.take(i + 1).last() == form.fields@[i as int]@);
            assert(all[i as int] == form.fields@[i as int]@);
            lemma_width_prefix(all, i + 1);
        }
        let field = &form.fields[i];
        assert(fields_width(all.take(i + 1)) == at + field.pattern@.len());
        assert(at + field.pattern@.len() <= bits.len());
        let end: usize = at + field.pattern.len();
        let part = BitPattern::new(slice_bits(bits, at, end));
        assert(part@ == field_slice(all, bits@, i as int)) by {
            reveal(field_slice);
        }
        if !field.pattern.matches_bits(part.bits.as_slice()) {
            assert(!pattern_matches(all[i as int].bits, field_slice(all, bits@, i as int)));
            return None;
        }
        let decoded = fill_field(field, part);
        fields.push(decoded);
        at = end;
        i += 1;
    }
    assert(viewed(fields@) =~= filled_fields(all, bits@));
    Some(fields)
}

impl Instruction {
    /// Attempt to match the given bits to this instruction, returning a DecodedInstruction if successful
    /// This works by checking that all static bits (non-variable) match, and then extracting the variable bits into fields
    /// If there are multiple forms that match, this will fail (return None) to avoid ambiguity.
    /// Each form must also match its when Predicate.
    /// As a result, if, for example, you have a field which must be equal to 0 for a form to be valid, if that field
    /// is left as variable, this function will fail to match that form.
    pub fn find_match(&self, bits: &[Bit]) -> (r: Option<DecodedInstruction>)
        requires
            countable(self@.forms),
            accepting(self@.forms, bits@) is Some,
        ensures
            match accepting(self@.forms, bits@)->0 {
                Acceptance::One(form) => r matches Some(decoded) && decoded@ == decoded_form(
                    self@,
                    form,
                    bits@,
                ),
                _ => r is None,
            },
    {
        self.try_match(bits).unwrap()
    }

    /// Attempts to match the given bits to this instruction; the outer `None` stands for the
    /// condition of a form that looks at a bit that the encoding does not have.
    pub fn try_match(&self, bits: &[Bit]) -> (r: Option<Option<DecodedInstruction>>)
        requires
            countable(self@.forms),
        ensures
            match accepting(self@.forms, bits@) {
                None => r is None,
                Some(Acceptance::One(form)) => r matches Some(Some(decoded)) && decoded@
                    == decoded_form(self@, form, bits@),
                Some(_) => r matches Some(None),
            },
    {
        let ghost forms = self@.forms;
        let mut matched: Option<DecodedInstruction> = None;
        let mut i: usize = 0;
        assert(forms.take(0) =~= Seq::empty());
        while i < self.forms.len()
            invariant
                i <= self.forms@.len(),
                forms == viewed(self.forms@),
                countable(forms),
                match accepting(forms.take(i as int), bits@) {
                    Some(Acceptance::Nothing) => matched is None,
                    Some(Acceptance::One(form)) => matched matches Some(decoded) && decoded@
                        == decoded_form(self@, form, bits@),
                    _ => false,
                },
            decreases self.forms@.len() - i,
        {
            let form = &self.forms[i];
            proof {
                assert(forms.take(i + 1).drop_last() =~= forms.take(i as int));
                assert(forms.take(i + 1).last() == form@);
                assert(forms[i as int] == form@);
                lemma_accepting_prefix(forms, bits@, i + 1);
            }
            if form.width() == bits.len() {
                if let Some(fields) = fill_fields(form, bits) {
                    let all_bits = slice_bits(bits, 0, bits.len());
                    assert(all_bits@ =~= bits@);
                    let decoded = DecodedInstruction {
                        name: self.name.clone(),
                        form: form.duplicate(),
                        bits: all_bits,
                        fields,
                        branch_instruction: duplicate_option(&self.branch_instruction),
                        mem_addr: 0,
                        static_instruction: self.branch_instruction.is_some(),
                        assembly_line: 0,
                    };
                    assert(decoded@ == decoded_form(self@, form@, bits@));
                    match form.when.try_check(&decoded) {
                        None => {
                            return None;
                        },
                        Some(true) => {
                            if matched.is_some() {
                                // Multiple forms match, this is ambiguous
                                return Some(None);
                            }
                            matched = Some(decoded);
                        },
                        Some(false) => {},
                    }
                }
            }
            i += 1;
        }
        assert(forms.take(i as int) =~= forms);
        Some(matched)
    }
}

/// The first instruction that accepts an encoding with exactly one form, decoded.
///
/// The outer `None` stands for a condition that looks at a bit that the encoding lacks.
pub open spec fn first_match(instructions: Seq<InstructionV>, bits: Seq<Bit>) -> Option<
    Option<DecodedV>,
>
    decreases instructions.len(),
{
    if instructions.len() == 0 {
        Some(None)
    } else {
        match first_match(instructions.drop_last(), bits) {
            None => None,
            Some(Some(found)) => Some(Some(found)),
            Some(None) => match accepting(instructions.last().forms, bits) {
                None => None,
                Some(Acceptance::One(form)) => Some(
                    Some(decoded_form(instructions.last(), form, bits)),
                ),
                Some(_) => Some(None),
            },
        }
    }
}

/// All instructions have forms whose widths can be counted.
pub open spec fn all_countable(instructions: Seq<InstructionV>) -> bool {
    forall|i: int| 0 <= i < instructions.len() ==> countable((#[trigger] instructions[i]).forms)
}

proof fn lemma_first_match_prefix(instructions: Seq<InstructionV>, bits: Seq<Bit>, k: int)
    requires
        0 <= k <= instructions.len(),
    ensures
        first_match(instructions.take(k), bits) is None ==> first_match(instructions, bits) is None,
        first_match(instructions.take(k), bits) matches Some(Some(found)) ==> first_match(
            instructions,
            bits,
        ) == Some(Some(found)),
    decreases instructions.len(),
{
    if k == instructions.len() {
        assert(instructions.take(k) =~= instructions);
    } else {
        lemma_first_match_prefix(instructions.drop_last(), bits, k);
        assert(instructions.drop_last().take(k) =~= instructions.take(k));
    }
}

/// Decodes one encoding with the first instruction that accepts it.
pub fn decode_bits(isa: &ISA, bits: &[Bit]) -> (r: Option<DecodedInstruction>)
    requires
        all_countable(viewed(isa.instructions@)),
        first_match(viewed(isa.instructions@), bits@) is Some,
    ensures
        match r {
            Some(decoded) => first_match(viewed(isa.instructions@), bits@) == Some(Some(decoded@)),
            None => first_match(viewed(isa.instructions@), bits@) == Some(None::<DecodedV>),
        },
{
    try_decode_bits(isa, bits).unwrap()
}

/// Decodes one encoding with the first instruction that accepts it; the outer `None` stands for
/// the condition of a form that looks at a bit that the encoding does not have.
pub fn try_decode_bits(isa: &ISA, bits: &[Bit]) -> (r: Option<Option<DecodedInstruction>>)
    requires
        all_countable(viewed(isa.instructions@)),
    ensures
        match first_match(viewed(isa.instructions@), bits@) {
            None => r is None,
            Some(None) => r matches Some(None),
            Some(Some(found)) => r matches Some(Some(decoded)) && decoded@ == found,
        },
{
    let ghost all = viewed(isa.instructions@);
    let mut i: usize = 0;
    assert(all.take(0) =~= Seq::empty());
    while i < isa.instructions.len()
        invariant
            i <= isa.instructions@.len(),
            all == viewed(isa.instructions@),
            all_countable(all),
            first_match(all.take(i as int), bits@) == Some(None::<DecodedV>),
        decreases isa.instructions@.len() - i,
    {
        proof {
            assert(all.take(i + 1).drop_last() =~= all.take(i as int));
            assert(all.take(i + 1).last() == isa.instructions@[i as int]@);
            assert(all[i as int] == isa.instructions@[i as int]@);
            lemma_first_match_prefix(all, bits@, i + 1);
        }
        match isa.instructions[i].try_match(bits) {
            None => {
                return None;
            },
            Some(Some(decoded)) => {
                return Some(Some(decoded));
            },
            Some(None) => {},
        }
        i += 1;
    }
    assert(all.take(i as int) =~= all);
    Some(None)
}

/// How far apart the addresses of an instruction of the width and of the next one are.
pub open spec fn addr_stride(bit_width: nat) -> nat {
    if bit_width == 0 {
        1
    } else {
        (bit_width + 7) / 8
    }
}

/// The distance in bytes from an instruction to the next one.
pub fn instruction_addr_stride(bit_width: usize) -> (r: usize)
    ensures
        r == addr_stride(bit_width as nat),
{
    let whole: usize = bit_width / 8;
    if bit_width == 0 {
        1
    } else if bit_width % 8 == 0 {
        whole
    } else {
        whole + 1
    }
}

/// The characters of a line are zeros and ones.
pub open spec fn is_binary(line: Seq<char>) -> bool {
    forall|i: int| 0 <= i < line.len() ==> (#[trigger] line[i] == '0' || line[i] == '1')
}

/// The address that follows the decoded instructions.
pub open spec fn next_addr(decoded: Seq<DecodedV>) -> nat {
    if decoded.len() == 0 {
        0
    } else {
        decoded.last().mem_addr as nat + addr_stride(decoded.last().bits.len())
    }
}

/// The program that the lines encode, one instruction in a line.
///
/// `None` where a line holds other characters than zeros and ones, is no instruction, or has
/// an address out of range.
pub open spec fn decoded_lines(rows: Seq<Seq<char>>, instructions: Seq<InstructionV>) -> Option<
    Seq<DecodedV>,
>
    decreases rows.len(),
{
    if rows.len() == 0 {
        Some(seq![])
    } else {
        match decoded_lines(rows.drop_last(), instructions) {
            None => None,
            Some(before) => if !is_binary(rows.last()) || next_addr(before) > usize::MAX {
                None
            } else {
                match first_match(instructions, crate::bit::pattern_of(rows.last())) {
                    Some(Some(decoded)) => Some(
                        before.push(
                            DecodedV {
                                mem_addr: next_addr(before) as usize,
                                assembly_line: (rows.len() - 1) as usize,
                                ..decoded
                            },
                        ),
                    ),
                    _ => None,
                }
            },
        }
    }
}

proof fn lemma_decoded_prefix(rows: Seq<Seq<char>>, instructions: Seq<InstructionV>, k: int)
    requires
        0 <= k <= rows.len(),
        decoded_lines(rows, instructions) is Some,
    ensures
        decoded_lines(rows.take(k), instructions) is Some,
    decreases rows.len(),
{
    if k == rows.len() {
        assert(rows.take(k) =~= rows);
    } else {
        lemma_decoded_prefix(rows.drop_last(), instructions, k);
        assert(rows.drop_last().take(k) =~= rows.take(k));
    }
}

/// The error type of reading; decoding a text never reports it.
#[verifier::external_type_specification]
#[verifier::external_body]
pub struct ExIoError(std::io::Error);

impl DecodedInstruction {
    /// Decodes a program with one encoding per line.
    pub fn decode_program_str(program: &str, isa: &ISA) -> (r: Result<Vec<Self>, std::io::Error>)
        requires
            all_countable(viewed(isa.instructions@)),
            decoded_lines(lines(program@), viewed(isa.instructions@)) is Some,
        ensures
            r matches Ok(decoded) && decoded_lines(
                lines(program@),
                viewed(isa.instructions@),
            ) == Some(viewed(decoded@)),
    {
        let rows = lines_of(&chars_of(program));
        let ghost all = lines(program@);
        let ghost instructions = viewed(isa.instructions@);
        let mut decoded_program: Vec<DecodedInstruction> = Vec::new();
        let mut i: usize = 0;
        assert(all.take(0) =~= Seq::empty());
        assert(viewed(decoded_program@) =~= Seq::empty());
        while i < rows.len()
            invariant
                i <= rows@.len(),
                all == char_rows(rows@),
                instructions == viewed(isa.instructions@),
                all_countable(instructions),
                decoded_lines(all, instructions) is Some,
                decoded_lines(all.take(i as int), instructions) == Some(viewed(decoded_program@)),
            decreases rows@.len() - i,
        {
            let row = &rows[i];
            proof {
                assert(all.take(i + 1).drop_last() =~= all.take(i as int));
                assert(all.take(i + 1).last() == row@);
                lemma_decoded_prefix(all, instructions, i + 1);
                assert(viewed(decoded_program@).len() == decoded_program@.len());
            }
            let mut bits: Vec<Bit> = Vec::new();
            let mut k: usize = 0;
            assert(bits@ =~= crate::bit::pattern_of(row@).take(0));
            while k < row.len()
                invariant
                    k <= row@.len(),
                    is_binary(row@),
                    bits@ == crate::bit::pattern_of(row@).take(k as int),
                decreases row@.len() - k,
            {
                bits.push(
                    if row[k] == '0' {
                        Bit::Low
                    } else {
                        Bit::High
                    },
                );
                k += 1;
                assert(bits@ =~= crate::bit::pattern_of(row@).take(k as int));
            }
            assert(bits@ =~= crate::bit::pattern_of(row@));
            // Try to decode the instruction
            let mut decoded = decode_bits(isa, bits.as_slice()).unwrap();
            let addr: usize = if decoded_program.len() == 0 {
                0
            } else {
                let previous = &decoded_program[decoded_program.len() - 1];
                assert(viewed(decoded_program@).last() == previous@);
                previous.mem_addr + instruction_addr_stride(previous.bits.len())
            };
            let ghost found = decoded@;
            decoded.mem_addr = addr;
            decoded.assembly_line = i;
            assert(decoded@ == DecodedV { mem_addr: addr, assembly_line: i, ..found });
            proof {
                lemma_viewed_push(decoded_program@, decoded);
            }
            decoded_program.push(decoded);
            i += 1;
        }
        assert(all.take(i as int) =~= all);
        Ok(decoded_program)
    }
}

} // verus!
