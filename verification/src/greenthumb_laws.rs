//! What the superoptimizer is told, which blocks it is given, and what its output is taken for.
use vstd::prelude::*;
use vstd::string::*;

use crate::bit::{pattern_of, Bit};
use crate::encodings::encodings_of;
use crate::expr_shape::decimal;
use crate::greenthumb_restrictions::{
    excluded, form_allows, forms_allow, instructions_allow, lower_pattern, pattern_lines,
    pattern_text, racket_text, restriction_pattern, GreenthumbRestrictionOptions,
};
use crate::isa_candidate::{supports, CandidateV};
use crate::isa_specification::{ISA, InstructionV, StackDirection};
use crate::isa_specification::DecodedV;
use crate::pattern_cover::testless;
use crate::program_analysis::BlockV;
use crate::program_rewrite::{
    block_text, digits_value, greenthumb_line, is_u64, label, outcome_of, rewrite_places,
    scratch_places, GreenthumbOutcome, GreenthumbSettings,
};
use crate::text::lines;
use crate::text_laws::{ended, lemma_decimal_digits, lemma_lines_come_apart, one_line};

verus! {

/// The argument stands right behind the option.
pub open spec fn option_is(args: Seq<Seq<char>>, option: Seq<char>, value: Seq<char>) -> bool {
    exists|i: int|
        0 <= i < args.len() - 1 && #[trigger] args[i] == option && args[i + 1] == value
}

/// The superoptimizer is told the direction of the stack by its name, the register of the stack
/// pointer and the size of the scratch space by their numbers, how to search, and which files to
/// read and write; the input comes last.
pub proof fn lemma_arguments(
    isa: ISA,
    settings: GreenthumbSettings,
    input: Seq<char>,
    restrict: Seq<char>,
    output_dir: Seq<char>,
)
    ensures
        ({
            let args = greenthumb_line(isa, settings, input, restrict, output_dir);
            &&& isa.sp.direction == StackDirection::Downwards ==> option_is(
                args,
                "--stack-direction"@,
                "downwards"@,
            )
            &&& isa.sp.direction == StackDirection::Upwards ==> option_is(
                args,
                "--stack-direction"@,
                "upwards"@,
            )
            &&& option_is(
                args,
                "--stack-pointer-reg"@,
                decimal(isa.sp.register.identifier as nat),
            )
            &&& option_is(args, "--stack-scratch-size"@, decimal(isa.sp.stack_size as nat))
            &&& option_is(args, "--solver"@, "z3"@)
            &&& option_is(args, "-c"@, decimal(settings.cores as nat))
            &&& option_is(args, "-t"@, decimal(settings.timeout_seconds as nat))
            &&& option_is(args, "-n"@, decimal(settings.candidate_size as nat))
            &&& option_is(args, "-d"@, output_dir)
            &&& option_is(args, "--restrict"@, restrict)
            &&& args.len() == 22
            &&& args[0] == "greenthumb/arm/optimize.rkt"@
            &&& args[1] == settings.search_mode_flag@
            &&& args[2] == settings.rewrite_mode_flag@
            &&& args.last() == input
        }),
{
    let args = greenthumb_line(isa, settings, input, restrict, output_dir);
    assert(args[3] == "--solver"@ && args[3int + 1] == "z3"@);
    assert(args[5] == "-c"@ && args[5int + 1] == decimal(settings.cores as nat));
    assert(args[7] == "-t"@ && args[7int + 1] == decimal(settings.timeout_seconds as nat));
    assert(args[9] == "-n"@ && args[9int + 1] == decimal(settings.candidate_size as nat));
    assert(args[11] == "-d"@ && args[11int + 1] == output_dir);
    assert(args[13] == "--restrict"@ && args[13int + 1] == restrict);
    assert(args[15] == "--stack-pointer-reg"@ && args[15int + 1] == decimal(
        isa.sp.register.identifier as nat,
    ));
    assert(args[17] == "--stack-scratch-size"@ && args[17int + 1] == decimal(
        isa.sp.stack_size as nat,
    ));
    assert(args[19] == "--stack-direction"@);
    assert(args[19int + 1] == "downwards"@ || args[19int + 1] == "upwards"@);
}

/// Instruction sets whose stacks grow in different directions get different arguments.
pub proof fn lemma_directions_differ(
    a: ISA,
    b: ISA,
    settings: GreenthumbSettings,
    input: Seq<char>,
    restrict: Seq<char>,
    output_dir: Seq<char>,
)
    requires
        a.sp.direction != b.sp.direction,
    ensures
        greenthumb_line(a, settings, input, restrict, output_dir) != greenthumb_line(
            b,
            settings,
            input,
            restrict,
            output_dir,
        ),
{
    reveal_strlit("upwards");
    reveal_strlit("downwards");
    let x = greenthumb_line(a, settings, input, restrict, output_dir);
    let y = greenthumb_line(b, settings, input, restrict, output_dir);
    assert(x[20].len() != y[20].len());
}

/// The assembly of a block is the lines of its instructions, in their order.
pub proof fn lemma_block_lines(assembly: Seq<Seq<char>>, instructions: Seq<DecodedV>)
    requires
        forall|i: int|
            0 <= i < instructions.len() ==> (#[trigger] instructions[i]).assembly_line
                < assembly.len(),
        forall|i: int|
            0 <= i < assembly.len() ==> one_line(#[trigger] assembly[i]) && (assembly[i].len() == 0
                || assembly[i].last() != '\r'),
    ensures
        lines(block_text(assembly, instructions)) == Seq::new(
            instructions.len(),
            |i: int| assembly[instructions[i].assembly_line as int],
        ),
{
    let rows = Seq::new(
        instructions.len(),
        |i: int| assembly[instructions[i].assembly_line as int],
    );
    lemma_block_ended(assembly, instructions);
    assert forall|i: int| 0 <= i < rows.len() implies one_line(#[trigger] rows[i]) && (rows[i].len()
        == 0 || rows[i].last() != '\r') by {
        assert(instructions[i].assembly_line < assembly.len());
        assert(one_line(assembly[instructions[i].assembly_line as int]));
    }
    let rest = Seq::<char>::empty();
    lemma_lines_come_apart(rows, false, rest);
    assert(ended(rows, false) + rest =~= ended(rows, false));
}

proof fn lemma_block_ended(assembly: Seq<Seq<char>>, instructions: Seq<DecodedV>)
    ensures
        block_text(assembly, instructions) == ended(
            Seq::new(
                instructions.len(),
                |i: int| assembly[instructions[i].assembly_line as int],
            ),
            false,
        ),
    decreases instructions.len(),
{
    reveal_strlit("\n");
    assert("\n"@ =~= seq!['\n']);
    let rows = Seq::new(
        instructions.len(),
        |i: int| assembly[instructions[i].assembly_line as int],
    );
    if instructions.len() > 0 {
        let front = instructions.drop_last();
        lemma_block_ended(assembly, front);
        let fewer = Seq::new(front.len(), |i: int| assembly[front[i].assembly_line as int]);
        let last = assembly[instructions.last().assembly_line as int];
        assert(rows =~= fewer.push(last));
        crate::gatelist_laws::lemma_ended_push(fewer, last);
    } else {
        assert(block_text(assembly, instructions) =~= ended(rows, false));
    }
}

/// The places are in ascending order and below the bound.
pub open spec fn ascending_below(places: Seq<usize>, n: int) -> bool {
    &&& forall|i: int| 0 <= i < places.len() ==> (#[trigger] places[i]) < n
    &&& forall|i: int, j: int| 0 <= i < j < places.len() ==> places[i] < places[j]
}

/// The blocks that are handed over are those of which the candidate does not run some instruction
/// and of which no instruction must stay as it is, each once and in order.
pub proof fn lemma_rewritten_blocks(blocks: Seq<BlockV>, candidate: CandidateV, n: nat)
    requires
        n <= blocks.len() <= usize::MAX,
    ensures
        ascending_below(rewrite_places(blocks, candidate, n), n as int),
        forall|k: int|
            0 <= k < n ==> (#[trigger] rewrite_places(blocks, candidate, n).contains(k as usize)
                <==> (exists|i: int|
                0 <= i < blocks[k].instructions.len() && !supports(
                    candidate,
                    #[trigger] blocks[k].instructions[i],
                )) && (forall|i: int|
                0 <= i < blocks[k].instructions.len()
                    ==> !(#[trigger] blocks[k].instructions[i]).static_instruction)),
    decreases n,
{
    if n > 0 {
        let m = (n - 1) as nat;
        lemma_rewritten_blocks(blocks, candidate, m);
        let before = rewrite_places(blocks, candidate, m);
        let places = rewrite_places(blocks, candidate, n);
        assert forall|k: int| 0 <= k < m implies (#[trigger] places.contains(k as usize)
            <==> before.contains(k as usize)) by {
            if before.contains(k as usize) {
                let i = before.index_of(k as usize);
                assert(places[i] == k as usize);
            }
        }
        if places != before {
            assert(places[before.len() as int] == m as usize);
        }
    }
}

/// The places from scratch are those of the blocks whose first instruction the candidate does not
/// run, each once and in order.
pub proof fn lemma_scratched_blocks(blocks: Seq<BlockV>, candidate: CandidateV, n: nat)
    requires
        n <= blocks.len() <= usize::MAX,
    ensures
        ascending_below(scratch_places(blocks, candidate, n), n as int),
        forall|k: int|
            0 <= k < n ==> (#[trigger] scratch_places(blocks, candidate, n).contains(k as usize)
                <==> !supports(candidate, blocks[k].instructions[0])),
    decreases n,
{
    if n > 0 {
        let m = (n - 1) as nat;
        lemma_scratched_blocks(blocks, candidate, m);
        let before = scratch_places(blocks, candidate, m);
        let places = scratch_places(blocks, candidate, n);
        assert forall|k: int| 0 <= k < m implies (#[trigger] places.contains(k as usize)
            <==> before.contains(k as usize)) by {
            if before.contains(k as usize) {
                let i = before.index_of(k as usize);
                assert(places[i] == k as usize);
            }
        }
        if places != before {
            assert(places[before.len() as int] == m as usize);
        }
    }
}

/// A decimal number is read as the number that was written, with or without a plus sign, where it
/// fits 64 bits.
pub proof fn lemma_numbers_read(n: nat)
    ensures
        digits_value(decimal(n)) == n,
        is_u64(decimal(n)) <==> n <= u64::MAX,
        is_u64(seq!['+'] + decimal(n)) <==> n <= u64::MAX,
        !is_u64(seq!['-'] + decimal(n)),
        !is_u64(Seq::empty()),
{
    lemma_digits_read(n);
    let plus = seq!['+'] + decimal(n);
    assert(plus.skip(1) =~= decimal(n));
    let minus = seq!['-'] + decimal(n);
    assert(minus[0] == '-');
}

pub(crate) proof fn lemma_digits_read(n: nat)
    ensures
        digits_value(decimal(n)) == n,
        decimal(n).len() > 0,
        forall|i: int| 0 <= i < decimal(n).len() ==> '0' <= #[trigger] decimal(n)[i] <= '9',
    decreases n,
{
    lemma_decimal_digits(n);
    let text = decimal(n);
    if n >= 10 {
        lemma_digits_read(n / 10);
        assert forall|i: int| 0 <= i < text.len() implies '0' <= #[trigger] text[i] <= '9' by {
            if i < text.len() - 1 {
                assert(text[i] == text.drop_last()[i]);
            }
        }
    } else {
        assert(text.drop_last() =~= Seq::empty());
        assert(digits_value(text.drop_last()) == 0);
    }
}

/// A rewrite is taken only from a run that ended well, wrote a program, and wrote metadata whose
/// first two lines are numbers.
pub proof fn lemma_rewrite_taken(
    success: bool,
    program_exists: bool,
    metadata: Option<Seq<char>>,
)
    ensures
        outcome_of(success, program_exists, metadata) == GreenthumbOutcome::Rewrite <==> success
            && program_exists && metadata is Some && lines(metadata->0).len() >= 2 && is_u64(
            lines(metadata->0)[0],
        ) && is_u64(lines(metadata->0)[1]),
        outcome_of(success, program_exists, metadata) == GreenthumbOutcome::Failed <==> !success,
        outcome_of(success, program_exists, metadata) == GreenthumbOutcome::NoProgram <==> success
            && !program_exists,
        outcome_of(success, program_exists, metadata) == GreenthumbOutcome::NoRewrite <==> success
            && program_exists && metadata is None,
{
}

/// A label is a local one that holds the prefix, the hint and the number, in this order.
pub proof fn lemma_label_text(prefix: Seq<char>, hint: Seq<char>, number: nat)
    ensures
        label(prefix, hint, number) == seq!['.', 'L'] + prefix + seq!['_'] + hint + seq!['_']
            + decimal(number),
{
    reveal_strlit(".L");
    reveal_strlit("_");
    assert(label(prefix, hint, number) =~= seq!['.', 'L'] + prefix + seq!['_'] + hint + seq!['_']
        + decimal(number));
}

/// The restriction to a pattern under a verb.
pub open spec fn restriction(verb: Seq<char>, pattern: Seq<char>) -> Seq<char> {
    seq![' ', '('] + verb + seq![' ', '"'] + pattern + seq!['"', ')']
}

/// The lines of restrictions: first that all is denied by default, then one line for each pattern
/// that is allowed, then one for each that is denied.
pub open spec fn restriction_lines(allow: Seq<Seq<char>>, deny: Seq<Seq<char>>) -> Seq<Seq<char>> {
    seq!["((default deny)"@] + Seq::new(
        allow.len(),
        |i: int| restriction("allow"@, allow[i]),
    ) + Seq::new(deny.len(), |i: int| restriction("deny"@, deny[i])) + seq![")"@]
}

proof fn lemma_restriction_rows(verb: Seq<char>, patterns: Seq<Seq<char>>)
    ensures
        pattern_lines(verb, patterns) == ended(
            Seq::new(patterns.len(), |i: int| restriction(verb, patterns[i])),
            false,
        ),
    decreases patterns.len(),
{
    reveal_strlit(" (");
    reveal_strlit(" \"");
    reveal_strlit("\")\n");
    let rows = Seq::new(patterns.len(), |i: int| restriction(verb, patterns[i]));
    if patterns.len() > 0 {
        let front = patterns.drop_last();
        lemma_restriction_rows(verb, front);
        let fewer = Seq::new(front.len(), |i: int| restriction(verb, front[i]));
        let last = restriction(verb, patterns.last());
        assert(rows =~= fewer.push(last));
        crate::gatelist_laws::lemma_ended_push(fewer, last);
        assert(" ("@ + verb + " \""@ + patterns.last() + "\")\n"@ =~= last + seq!['\n']);
        assert(pattern_lines(verb, patterns) =~= ended(rows, false));
    } else {
        assert(pattern_lines(verb, patterns) =~= ended(rows, false));
    }
}

proof fn lemma_ended_add(a: Seq<Seq<char>>, b: Seq<Seq<char>>)
    ensures
        ended(a + b, false) == ended(a, false) + ended(b, false),
    decreases b.len(),
{
    if b.len() == 0 {
        assert(a + b =~= a);
        assert(ended(a, false) + ended(b, false) =~= ended(a, false));
    } else {
        let front = b.drop_last();
        lemma_ended_add(a, front);
        crate::gatelist_laws::lemma_ended_push(a + front, b.last());
        crate::gatelist_laws::lemma_ended_push(front, b.last());
        assert((a + front).push(b.last()) =~= a + b);
        assert(front.push(b.last()) =~= b);
        assert(ended(a + b, false) =~= ended(a, false) + ended(b, false));
    }
}

/// The restrictions that are written deny by default, allow the allowed patterns and deny the
/// denied ones.
pub proof fn lemma_restrictions_written(allow: Seq<Seq<char>>, deny: Seq<Seq<char>>)
    requires
        forall|i: int| 0 <= i < allow.len() ==> one_line(#[trigger] allow[i]),
        forall|i: int| 0 <= i < deny.len() ==> one_line(#[trigger] deny[i]),
    ensures
        lines(racket_text(allow, deny)) == restriction_lines(allow, deny),
{
    reveal_strlit("((default deny)\n");
    reveal_strlit("((default deny)");
    reveal_strlit(")\n");
    reveal_strlit(")");
    reveal_strlit("allow");
    reveal_strlit("deny");
    let first = seq!["((default deny)"@];
    let last = seq![")"@];
    let a = Seq::new(allow.len(), |i: int| restriction("allow"@, allow[i]));
    let d = Seq::new(deny.len(), |i: int| restriction("deny"@, deny[i]));
    lemma_restriction_rows("allow"@, allow);
    lemma_restriction_rows("deny"@, deny);
    crate::text_laws::lemma_ended_one("((default deny)"@);
    crate::text_laws::lemma_ended_one(")"@);
    assert("((default deny)\n"@ =~= "((default deny)"@ + seq!['\n']);
    assert(")\n"@ =~= ")"@ + seq!['\n']);
    lemma_ended_add(first, a);
    lemma_ended_add(first + a, d);
    lemma_ended_add(first + a + d, last);
    let rows = restriction_lines(allow, deny);
    assert(rows =~= first + a + d + last);
    assert(racket_text(allow, deny) == ended(rows, false));
    assert forall|i: int| 0 <= i < rows.len() implies one_line(#[trigger] rows[i]) && (rows[i].len()
        == 0 || rows[i].last() != '\r') by {
        if i == 0 {
            assert(rows[i] == first[0]);
        } else if i < 1 + a.len() {
            assert(one_line(allow[i - 1]));
            lemma_restriction_line("allow"@, allow[i - 1]);
            assert(rows[i] == a[i - 1]);
        } else if i < 1 + a.len() + d.len() {
            assert(one_line(deny[i - 1 - a.len()]));
            lemma_restriction_line("deny"@, deny[i - 1 - a.len()]);
            assert(rows[i] == d[i - 1 - a.len()]);
        } else {
            assert(rows[i] == last[0]);
        }
    }
    let rest = Seq::<char>::empty();
    lemma_lines_come_apart(rows, false, rest);
    assert(ended(rows, false) + rest =~= ended(rows, false));
}

proof fn lemma_restriction_line(verb: Seq<char>, pattern: Seq<char>)
    requires
        one_line(verb),
        one_line(pattern),
    ensures
        one_line(restriction(verb, pattern)),
        restriction(verb, pattern).last() == ')',
{
    let line = restriction(verb, pattern);
    assert forall|k: int| 0 <= k < line.len() implies #[trigger] line[k] != '\n' by {
        if 2 <= k < 2 + verb.len() {
            assert(line[k] == verb[k - 2]);
        } else if 4 + verb.len() <= k < 4 + verb.len() + pattern.len() {
            assert(line[k] == pattern[k - 4 - verb.len()]);
        }
    }
}

/// A pattern is written with a zero or a one for each definite bit and an x for every other one,
/// and is read back as it was.
pub proof fn lemma_pattern_written(bits: Seq<Bit>)
    ensures
        pattern_text(bits).len() == bits.len(),
        forall|i: int|
            0 <= i < bits.len() ==> {
                &&& #[trigger] pattern_text(bits)[i] == '0' <==> bits[i] == Bit::Low
                &&& pattern_text(bits)[i] == '1' <==> bits[i] == Bit::High
                &&& pattern_text(bits)[i] == 'x' <==> bits[i] == Bit::Var || bits[i] == Bit::Test
            },
        testless(bits) ==> pattern_of(pattern_text(bits)) == bits,
{
    if testless(bits) {
        assert(pattern_of(pattern_text(bits)) =~= bits);
    }
}

/// A denied pattern is taken in lower case and otherwise as it is.
pub proof fn lemma_pattern_lowered(text: Seq<char>)
    ensures
        restriction_pattern(text) <==> text.len() == 32 && forall|i: int|
            0 <= i < text.len() ==> #[trigger] text[i] == '0' || text[i] == '1' || text[i] == 'x'
                || text[i] == 'X',
        lower_pattern(text).len() == text.len(),
        forall|i: int|
            0 <= i < text.len() ==> {
                &&& text[i] == 'X' ==> #[trigger] lower_pattern(text)[i] == 'x'
                &&& text[i] != 'X' ==> lower_pattern(text)[i] == text[i]
            },
{
}

/// The text begins with the other one.
pub open spec fn begins(text: Seq<char>, start: Seq<char>) -> bool {
    exists|rest: Seq<char>| text == #[trigger] (start + rest)
}

/// The options leave out what their names say: branches, multiplications, and the four groups of
/// extensions.
pub proof fn lemma_left_out(name: Seq<char>, options: GreenthumbRestrictionOptions)
    ensures
        excluded(name, options) <==> (options.exclude_branches && begins(name, "branch_ops"@)) || (
        options.exclude_multiplies && begins(name, "multiply_ops"@)) || (
        options.exclude_extension_ops && (name == "division_ops"@ || name == "bitfield_ops"@ || name
            == "reverse_ops"@ || name == "extension_ops"@)),
{
    lemma_begins(name, "branch_ops"@);
    lemma_begins(name, "multiply_ops"@);
}

proof fn lemma_begins(text: Seq<char>, start: Seq<char>)
    ensures
        begins(text, start) <==> start.len() <= text.len() && text.take(start.len() as int) == start,
{
    if start.len() <= text.len() && text.take(start.len() as int) == start {
        assert(text =~= start + text.skip(start.len() as int));
    }
    if begins(text, start) {
        let rest = choose|rest: Seq<char>| text == #[trigger] (start + rest);
        assert(text.take(start.len() as int) =~= start);
    }
}

/// The text is a pattern of an encoding that the candidate has: of a form that it lists for the
/// instruction, and as wide as the instruction.
pub open spec fn writes_encoding(
    candidate: CandidateV,
    instruction: InstructionV,
    j: int,
    e: Seq<Bit>,
    text: Seq<char>,
) -> bool {
    &&& 0 <= j < instruction.forms.len()
    &&& candidate.active_forms.contains_key(instruction.name)
    &&& candidate.active_forms[instruction.name].contains(instruction.forms[j].name)
    &&& encodings_of(instruction.forms[j], candidate.valid_field_uses).contains(e)
    &&& e.len() == instruction.width
    &&& text == pattern_text(e)
}

/// What is allowed are the patterns of the candidate's encodings, of all instructions that are not
/// left out, and nothing else.
pub proof fn lemma_allowed_encodings(
    instructions: Seq<InstructionV>,
    candidate: CandidateV,
    options: GreenthumbRestrictionOptions,
    text: Seq<char>,
)
    ensures
        instructions_allow(instructions, candidate, options, instructions.len() as int, text)
            <==> exists|i: int, j: int, e: Seq<Bit>|
            0 <= i < instructions.len() && !excluded(instructions[i].name, options)
                && #[trigger] writes_encoding(candidate, instructions[i], j, e, text),
{
    if instructions_allow(instructions, candidate, options, instructions.len() as int, text) {
        let i = choose|i: int|
            0 <= i < instructions.len() && !excluded(instructions[i].name, options)
                && #[trigger] forms_allow(
                candidate,
                instructions[i],
                instructions[i].forms.len() as int,
                text,
            );
        let instruction = instructions[i];
        let j = choose|j: int|
            0 <= j < instruction.forms.len() && #[trigger] form_allows(
                candidate,
                instruction,
                instruction.forms[j],
                text,
            );
        let e = choose|e: Seq<Bit>|
            #[trigger] encodings_of(instruction.forms[j], candidate.valid_field_uses).contains(e)
                && e.len() == instruction.width && text == pattern_text(e);
        assert(writes_encoding(candidate, instructions[i], j, e, text));
    }
    if exists|i: int, j: int, e: Seq<Bit>|
        0 <= i < instructions.len() && !excluded(instructions[i].name, options)
            && #[trigger] writes_encoding(candidate, instructions[i], j, e, text) {
        let (i, j, e) = choose|i: int, j: int, e: Seq<Bit>|
            0 <= i < instructions.len() && !excluded(instructions[i].name, options)
                && #[trigger] writes_encoding(candidate, instructions[i], j, e, text);
        assert(form_allows(candidate, instructions[i], instructions[i].forms[j], text));
        assert(forms_allow(
            candidate,
            instructions[i],
            instructions[i].forms.len() as int,
            text,
        ));
    }
}

} // verus!
