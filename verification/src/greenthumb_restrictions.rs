//! Restrictions of the GreenThumb superoptimizer to the encodings of a candidate.
use vstd::prelude::*;
use vstd::string::*;

use crate::bit::{Bit, BitPattern};
use crate::collections::viewed;
use crate::encodings::{encodable, encodings_of, pattern_set};
use crate::isa_candidate::{form_active, lists_form, CandidateV, ISACandidate};
use crate::isa_specification::{FormV, ISA, Instruction, InstructionForm, InstructionV};
use crate::text::chars_of;
use crate::text_set::{lists_ascending, TextSet};

verus! {

/// Which instructions are left out of the restrictions.
#[derive(Debug, Clone, PartialEq, Eq)]
pub struct GreenthumbRestrictionOptions {
    pub exclude_branches: bool,
    pub exclude_multiplies: bool,
    pub exclude_extension_ops: bool,
}

impl Default for GreenthumbRestrictionOptions {
    fn default() -> (r: Self)
        ensures
            !r.exclude_branches,
            !r.exclude_multiplies,
            !r.exclude_extension_ops,
    {
        Self { exclude_branches: false, exclude_multiplies: false, exclude_extension_ops: false }
    }
}

/// Patterns that the superoptimizer may emit, and patterns that it may not.
#[derive(Debug, PartialEq)]
pub struct GreenthumbRestrictionSet {
    pub allow_patterns: TextSet,
    pub deny_patterns: TextSet,
}

/// The text starts with the prefix.
pub open spec fn starts_with(text: Seq<char>, prefix: Seq<char>) -> bool {
    prefix.len() <= text.len() && text.take(prefix.len() as int) == prefix
}

/// The options leave the instruction out.
pub open spec fn excluded(name: Seq<char>, options: GreenthumbRestrictionOptions) -> bool {
    ||| options.exclude_branches && starts_with(name, "branch_ops"@)
    ||| options.exclude_multiplies && starts_with(name, "multiply_ops"@)
    ||| options.exclude_extension_ops && (name == "division_ops"@ || name == "bitfield_ops"@
        || name == "reverse_ops"@ || name == "extension_ops"@)
}

/// The character of a pattern's bit.
pub open spec fn pattern_char(bit: Bit) -> char {
    match bit {
        Bit::Low => '0',
        Bit::High => '1',
        Bit::Var => 'x',
        Bit::Test => 'x',
    }
}

/// The text of a pattern.
pub open spec fn pattern_text(bits: Seq<Bit>) -> Seq<char> {
    Seq::new(bits.len(), |i: int| pattern_char(bits[i]))
}

/// The text stands for an encoding of the form, as wide as the instruction.
pub open spec fn form_allows(
    candidate: CandidateV,
    instruction: InstructionV,
    form: FormV,
    text: Seq<char>,
) -> bool {
    form_active(candidate.active_forms, instruction.name, form.name) && exists|e: Seq<Bit>|
        #[trigger] encodings_of(form, candidate.valid_field_uses).contains(e) && e.len()
            == instruction.width && text == pattern_text(e)
}

/// The text stands for an encoding of one of the first `n` forms.
pub open spec fn forms_allow(
    candidate: CandidateV,
    instruction: InstructionV,
    n: int,
    text: Seq<char>,
) -> bool {
    exists|j: int|
        0 <= j < n && #[trigger] form_allows(candidate, instruction, instruction.forms[j], text)
}

/// The text stands for an encoding of one of the first `n` instructions that are not left out.
pub open spec fn instructions_allow(
    instructions: Seq<InstructionV>,
    candidate: CandidateV,
    options: GreenthumbRestrictionOptions,
    n: int,
    text: Seq<char>,
) -> bool {
    exists|i: int|
        0 <= i < n && !excluded(instructions[i].name, options) && #[trigger] forms_allow(
            candidate,
            instructions[i],
            instructions[i].forms.len() as int,
            text,
        )
}

/// The uses of a candidate fit the forms that it lists, of the instructions that are not left
/// out.
pub open spec fn restrictable(
    instructions: Seq<InstructionV>,
    candidate: CandidateV,
    options: GreenthumbRestrictionOptions,
) -> bool {
    forall|i: int|
        0 <= i < instructions.len() && !excluded((#[trigger] instructions[i]).name, options)
            ==> forms_restrictable(candidate, instructions[i])
}

/// The uses of a candidate fit the forms that it lists.
pub open spec fn forms_restrictable(candidate: CandidateV, instruction: InstructionV) -> bool {
    forall|j: int|
        0 <= j < instruction.forms.len() && form_active(
            candidate.active_forms,
            instruction.name,
            (#[trigger] instruction.forms[j]).name,
        ) ==> encodable(instruction.forms[j], candidate.valid_field_uses)
}

/// The lines of patterns under a verb.
pub open spec fn pattern_lines(verb: Seq<char>, patterns: Seq<Seq<char>>) -> Seq<char>
    decreases patterns.len(),
{
    if patterns.len() == 0 {
        seq![]
    } else {
        pattern_lines(verb, patterns.drop_last()) + " ("@ + verb + " \""@ + patterns.last()
            + "\")\n"@
    }
}

/// The restrictions as a Racket list that denies by default.
pub open spec fn racket_text(allow: Seq<Seq<char>>, deny: Seq<Seq<char>>) -> Seq<char> {
    "((default deny)\n"@ + pattern_lines("allow"@, allow) + pattern_lines("deny"@, deny) + ")\n"@
}

/// A character that a pattern may hold.
pub open spec fn restriction_char(c: char) -> bool {
    c == '0' || c == '1' || c == 'x' || c == 'X'
}

/// A pattern for 32-bit instructions.
pub open spec fn restriction_pattern(text: Seq<char>) -> bool {
    text.len() == 32 && forall|i: int|
        0 <= i < text.len() ==> restriction_char(#[trigger] text[i])
}

/// The pattern in lower case.
pub open spec fn lower_pattern(text: Seq<char>) -> Seq<char> {
    Seq::new(
        text.len(),
        |i: int|
            if text[i] == 'X' {
                'x'
            } else {
                text[i]
            },
    )
}

/// Reports whether a text starts with a prefix.
fn text_starts_with(text: &String, prefix: &str) -> (r: bool)
    ensures
        r == starts_with(text@, prefix@),
{
    let chars = chars_of(text.as_str());
    let wanted = chars_of(prefix);
    if wanted.len() > chars.len() {
        return false;
    }
    let mut i: usize = 0;
    while i < wanted.len()
        invariant
            i <= wanted@.len() <= chars@.len(),
            chars@ == text@,
            wanted@ == prefix@,
            forall|j: int| 0 <= j < i ==> #[trigger] text@[j] == prefix@[j],
        decreases wanted@.len() - i,
    {
        if chars[i] != wanted[i] {
            proof {
                if text@.take(prefix@.len() as int) == prefix@ {
                    assert(text@.take(prefix@.len() as int)[i as int] == prefix@[i as int]);
                }
            }
            return false;
        }
        i += 1;
    }
    assert(text@.take(prefix@.len() as int) =~= prefix@);
    true
}

/// Reports whether the options leave an instruction out.
pub fn should_exclude_instruction(name: &String, options: &GreenthumbRestrictionOptions) -> (r:
    bool)
    ensures
        r == excluded(name@, *options),
{
    (options.exclude_branches && text_starts_with(name, "branch_ops")) || (
    options.exclude_multiplies && text_starts_with(name, "multiply_ops")) || (
    options.exclude_extension_ops && is_extension_instruction(name))
}

/// Reports whether the instruction is an extension.
fn is_extension_instruction(name: &String) -> (r: bool)
    ensures
        r == (name@ == "division_ops"@ || name@ == "bitfield_ops"@ || name@ == "reverse_ops"@
            || name@ == "extension_ops"@),
{
    *name == "division_ops".to_owned() || *name == "bitfield_ops".to_owned() || *name
        == "reverse_ops".to_owned() || *name == "extension_ops".to_owned()
}

/// Writes a pattern as text.
pub fn bit_pattern_string(pattern: &BitPattern) -> (r: String)
    ensures
        r@ == pattern_text(pattern@),
{
    let mut text = String::new();
    let mut i: usize = 0;
    while i < pattern.bits.len()
        invariant
            i <= pattern@.len(),
            text@ == pattern_text(pattern@).take(i as int),
        decreases pattern@.len() - i,
    {
        let c = match pattern.bits[i] {
            Bit::Low => '0',
            Bit::High => '1',
            Bit::Var | Bit::Test => 'x',
        };
        text.push(c);
        i += 1;
        assert(text@ =~= pattern_text(pattern@).take(i as int));
    }
    assert(text@ =~= pattern_text(pattern@));
    text
}

/// Adds the encodings of a listed form.
fn add_form_patterns(
    patterns: &mut TextSet,
    candidate: &ISACandidate,
    instruction: &Instruction,
    form: &InstructionForm,
)
    requires
        old(patterns).wf(),
        form_active(candidate@.active_forms, instruction@.name, form@.name) ==> encodable(
            form@,
            candidate@.valid_field_uses,
        ),
    ensures
        final(patterns).wf(),
        forall|text: Seq<char>| #[trigger]
            final(patterns)@.contains(text) == (old(patterns)@.contains(text) || form_allows(
                candidate@,
                instruction@,
                form@,
                text,
            )),
{
    if !lists_form(&candidate.active_forms, &instruction.name, &form.name) {
        return ;
    }
    let encodings = form.fields_to_encodings(&candidate.valid_field_uses);
    let ghost before = patterns@;
    let ghost rows = viewed(encodings@);
    let width = instruction.width;
    let mut i: usize = 0;
    while i < encodings.len()
        invariant
            patterns.wf(),
            rows == viewed(encodings@),
            i <= rows.len(),
            forall|text: Seq<char>| #[trigger]
                patterns@.contains(text) == (before.contains(text) || exists|k: int|
                    0 <= k < i && (#[trigger] rows[k]).len() == width && text == pattern_text(
                        rows[k],
                    )),
        decreases rows.len() - i,
    {
        let encoding = &encodings[i];
        assert(rows[i as int] == encoding@);
        if encoding.len() == width {
            patterns.insert(bit_pattern_string(encoding));
        }
        i += 1;
    }
    proof {
        let set = encodings_of(form@, candidate@.valid_field_uses);
        assert forall|text: Seq<char>| #[trigger]
            patterns@.contains(text) == (before.contains(text) || form_allows(
                candidate@,
                instruction@,
                form@,
                text,
            )) by {
            if exists|k: int|
                0 <= k < rows.len() && (#[trigger] rows[k]).len() == width && text == pattern_text(
                    rows[k],
                ) {
                let k = choose|k: int|
                    0 <= k < rows.len() && (#[trigger] rows[k]).len() == width && text
                        == pattern_text(rows[k]);
                assert(pattern_set(encodings@).contains(rows[k]));
                assert(set.contains(rows[k]));
            }
            if form_allows(candidate@, instruction@, form@, text) {
                let e = choose|e: Seq<Bit>|
                    #[trigger] set.contains(e) && e.len() == width && text == pattern_text(e);
                assert(pattern_set(encodings@).contains(e));
                let k = choose|k: int| 0 <= k < rows.len() && rows[k] == e;
                assert(rows[k] == e);
            }
        }
    }
}

/// Adds the encodings of an instruction's listed forms.
fn add_instruction_patterns(
    patterns: &mut TextSet,
    candidate: &ISACandidate,
    instruction: &Instruction,
)
    requires
        old(patterns).wf(),
        forms_restrictable(candidate@, instruction@),
    ensures
        final(patterns).wf(),
        forall|text: Seq<char>| #[trigger]
            final(patterns)@.contains(text) == (old(patterns)@.contains(text) || forms_allow(
                candidate@,
                instruction@,
                instruction@.forms.len() as int,
                text,
            )),
{
    let ghost before = patterns@;
    let ghost forms = instruction@.forms;
    let mut j: usize = 0;
    while j < instruction.forms.len()
        invariant
            patterns.wf(),
            forms == viewed(instruction.forms@),
            forms == instruction@.forms,
            forms_restrictable(candidate@, instruction@),
            j <= forms.len(),
            forall|text: Seq<char>| #[trigger]
                patterns@.contains(text) == (before.contains(text) || forms_allow(
                    candidate@,
                    instruction@,
                    j as int,
                    text,
                )),
        decreases forms.len() - j,
    {
        let form = &instruction.forms[j];
        assert(form@ == instruction@.forms[j as int]);
        add_form_patterns(patterns, candidate, instruction, form);
        assert forall|text: Seq<char>|
            forms_allow(candidate@, instruction@, j + 1, text) == (forms_allow(
                candidate@,
                instruction@,
                j as int,
                text,
            ) || form_allows(candidate@, instruction@, forms[j as int], text)) by {}
        j += 1;
    }
}

/// Puts a pattern for 32-bit instructions into lower case.
pub fn validate_pattern(pattern: &str) -> (r: String)
    requires
        restriction_pattern(pattern@),
    ensures
        r@ == lower_pattern(pattern@),
{
    let chars = chars_of(pattern);
    let mut text = String::new();
    let mut i: usize = 0;
    while i < chars.len()
        invariant
            chars@ == pattern@,
            i <= chars@.len(),
            text@ == lower_pattern(pattern@).take(i as int),
        decreases chars@.len() - i,
    {
        let c = if chars[i] == 'X' {
            'x'
        } else {
            chars[i]
        };
        text.push(c);
        i += 1;
        assert(text@ =~= lower_pattern(pattern@).take(i as int));
    }
    assert(text@ =~= lower_pattern(pattern@));
    text
}

/// Appends the lines of patterns under a verb.
fn append_patterns(out: &mut String, verb: &str, patterns: &TextSet)
    ensures
        final(out)@ == old(out)@ + pattern_lines(verb@, patterns.rows()),
{
    let ghost rows = patterns.rows();
    let ghost before = out@;
    let mut i: usize = 0;
    proof {
        assert(rows.take(0) =~= Seq::empty());
        assert(out@ =~= before + pattern_lines(verb@, rows.take(0)));
    }
    while i < patterns.len()
        invariant
            rows == patterns.rows(),
            i <= rows.len(),
            out@ == before + pattern_lines(verb@, rows.take(i as int)),
        decreases rows.len() - i,
    {
        proof {
            assert(rows.take(i + 1).drop_last() =~= rows.take(i as int));
            assert(rows.take(i + 1).last() == rows[i as int]);
        }
        let pattern = patterns.get(i);
        out.append(" (");
        out.append(verb);
        out.append(" \"");
        out.append(pattern.as_str());
        out.append("\")\n");
        assert(out@ =~= before + pattern_lines(verb@, rows.take(i + 1)));
        i += 1;
    }
    assert(rows.take(i as int) =~= rows);
}

impl GreenthumbRestrictionSet {
    /// Both lists are kept in order.
    pub open spec fn wf(&self) -> bool {
        self.allow_patterns.wf() && self.deny_patterns.wf()
    }

    /// Allows exactly the encodings of a candidate, but for the instructions left out.
    pub fn from_candidate(
        isa: &ISA,
        candidate: &ISACandidate,
        options: &GreenthumbRestrictionOptions,
    ) -> (r: Self)
        requires
            restrictable(viewed(isa.instructions@), candidate@, *options),
        ensures
            r.wf(),
            r.deny_patterns@ == Set::<Seq<char>>::empty(),
            forall|text: Seq<char>| #[trigger]
                r.allow_patterns@.contains(text) == instructions_allow(
                    viewed(isa.instructions@),
                    candidate@,
                    *options,
                    isa.instructions@.len() as int,
                    text,
                ),
    {
        let ghost instructions = viewed(isa.instructions@);
        let mut allow_patterns = TextSet::new();
        let mut i: usize = 0;
        while i < isa.instructions.len()
            invariant
                instructions == viewed(isa.instructions@),
                restrictable(instructions, candidate@, *options),
                allow_patterns.wf(),
                i <= instructions.len(),
                forall|text: Seq<char>| #[trigger]
                    allow_patterns@.contains(text) == instructions_allow(
                        instructions,
                        candidate@,
                        *options,
                        i as int,
                        text,
                    ),
            decreases instructions.len() - i,
        {
            let instruction = &isa.instructions[i];
            assert(instruction@ == instructions[i as int]);
            if !should_exclude_instruction(&instruction.name, options) {
                add_instruction_patterns(&mut allow_patterns, candidate, instruction);
            }
            assert forall|text: Seq<char>|
                instructions_allow(instructions, candidate@, *options, i + 1, text) == (
                instructions_allow(instructions, candidate@, *options, i as int, text) || (
                !excluded(instructions[i as int].name, *options) && forms_allow(
                    candidate@,
                    instructions[i as int],
                    instructions[i as int].forms.len() as int,
                    text,
                ))) by {}
            i += 1;
        }
        Self { allow_patterns, deny_patterns: TextSet::new() }
    }

    /// Denies one more pattern.
    pub fn with_deny_pattern(self, pattern: &str) -> (r: Self)
        requires
            self.wf(),
            restriction_pattern(pattern@),
        ensures
            r.wf(),
            r.allow_patterns == self.allow_patterns,
            r.deny_patterns@ == self.deny_patterns@.insert(lower_pattern(pattern@)),
    {
        let mut restrictions = self;
        restrictions.deny_patterns.insert(validate_pattern(pattern));
        restrictions
    }

    /// Denies several more patterns.
    pub fn with_deny_patterns(self, patterns: Vec<String>) -> (r: Self)
        requires
            self.wf(),
            forall|i: int|
                0 <= i < patterns@.len() ==> restriction_pattern((#[trigger] patterns@[i])@),
        ensures
            r.wf(),
            r.allow_patterns == self.allow_patterns,
            forall|text: Seq<char>| #[trigger]
                r.deny_patterns@.contains(text) == (self.deny_patterns@.contains(text) || exists|
                    i: int,
                |
                    0 <= i < patterns@.len() && lower_pattern((#[trigger] patterns@[i])@) == text),
    {
        let ghost before = self.deny_patterns@;
        let mut restrictions = self;
        let mut i: usize = 0;
        while i < patterns.len()
            invariant
                restrictions.wf(),
                restrictions.allow_patterns == self.allow_patterns,
                i <= patterns@.len(),
                forall|i: int|
                    0 <= i < patterns@.len() ==> restriction_pattern((#[trigger] patterns@[i])@),
                forall|text: Seq<char>| #[trigger]
                    restrictions.deny_patterns@.contains(text) == (before.contains(text)
                        || exists|j: int|
                        0 <= j < i && lower_pattern((#[trigger] patterns@[j])@) == text),
            decreases patterns@.len() - i,
        {
            assert(restriction_pattern(patterns@[i as int]@));
            restrictions.deny_patterns.insert(validate_pattern(patterns[i].as_str()));
            i += 1;
        }
        restrictions
    }

    /// The restrictions as a Racket list that denies by default; patterns are in ascending order.
    pub fn to_racket_default_deny(&self) -> (r: String)
        requires
            self.wf(),
        ensures
            r@ == racket_text(self.allow_patterns.rows(), self.deny_patterns.rows()),
            lists_ascending(self.allow_patterns.rows(), self.allow_patterns@),
            lists_ascending(self.deny_patterns.rows(), self.deny_patterns@),
    {
        let mut out = "((default deny)\n".to_owned();
        append_patterns(&mut out, "allow", &self.allow_patterns);
        append_patterns(&mut out, "deny", &self.deny_patterns);
        out.append(")\n");
        out
    }
}

} // verus!
