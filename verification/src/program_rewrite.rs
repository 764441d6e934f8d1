//! Decisions in the rewriting of a program for a reduced instruction set.
use vstd::prelude::*;
use vstd::string::*;

use crate::collections::{duplicate_all, viewed, OrderedSet};
use crate::expr_shape::{decimal, decimal_text, digit};
use crate::isa_candidate::{supports, CandidateV, ISACandidate};
use crate::isa_optimization::conditions_defined;
use crate::isa_specification::{
    ArchitecturalRegister, DecodedInstruction, DecodedV, ISA, StackDirection,
};
use crate::program_analysis::{BasicBlock, BlockV};
use crate::text::{char_rows, chars_of, lines, lines_of};

verus! {

/// Makes labels that no other label of the same allocator equals.
#[derive(Debug, Clone, PartialEq, Eq)]
pub struct LabelAllocator {
    pub prefix: String,
    pub next: usize,
}

/// The label with the number.
pub open spec fn label(prefix: Seq<char>, hint: Seq<char>, number: nat) -> Seq<char> {
    ".L"@ + prefix + "_"@ + hint + "_"@ + decimal(number)
}

impl LabelAllocator {
    pub fn new(prefix: &str) -> (r: Self)
        ensures
            r.prefix@ == prefix@,
            r.next == 0,
    {
        Self { prefix: prefix.to_owned(), next: 0 }
    }

    /// A label that was not given out before.
    pub fn fresh(&mut self, hint: &str) -> (r: String)
        requires
            old(self).next < usize::MAX,
        ensures
            r@ == label(old(self).prefix@, hint@, old(self).next as nat),
            final(self).next == old(self).next + 1,
            final(self).prefix@ == old(self).prefix@,
    {
        let mut text = ".L".to_owned();
        text.append(self.prefix.as_str());
        text.append("_");
        text.append(hint);
        text.append("_");
        text.append(decimal_text(self.next as u128).as_str());
        self.next = self.next + 1;
        text
    }
}

proof fn lemma_decimal(n: nat)
    ensures
        decimal(n).len() > 0,
        forall|i: int| 0 <= i < decimal(n).len() ==> #[trigger] decimal(n)[i] != '_',
    decreases n,
{
    if n >= 10 {
        lemma_decimal(n / 10);
    }
    assert(digit((n % 10) as int) != '_');
}

proof fn lemma_decimal_injective(m: nat, n: nat)
    requires
        decimal(m) == decimal(n),
    ensures
        m == n,
    decreases m,
{
    lemma_decimal(m / 10);
    lemma_decimal(n / 10);
    assert(decimal(m).last() == digit((m % 10) as int));
    assert(decimal(n).last() == digit((n % 10) as int));
    if m >= 10 && n >= 10 {
        assert(decimal(m).drop_last() =~= decimal(m / 10));
        assert(decimal(n).drop_last() =~= decimal(n / 10));
        lemma_decimal_injective(m / 10, n / 10);
    }
}

/// Two labels with different numbers differ, whatever their hints.
pub proof fn lemma_labels_differ(
    prefix: Seq<char>,
    hint1: Seq<char>,
    number1: nat,
    hint2: Seq<char>,
    number2: nat,
)
    requires
        number1 != number2,
    ensures
        label(prefix, hint1, number1) != label(prefix, hint2, number2),
{
    reveal_strlit("_");
    let first = label(prefix, hint1, number1);
    let second = label(prefix, hint2, number2);
    let a = decimal(number1);
    let b = decimal(number2);
    lemma_decimal(number1);
    lemma_decimal(number2);
    if first == second {
        assert(first[first.len() - a.len() - 1] == '_');
        assert(second[second.len() - b.len() - 1] == '_');
        if a.len() < b.len() {
            assert(first[first.len() - a.len() - 1] == b[b.len() - a.len() - 1]);
        }
        if b.len() < a.len() {
            assert(second[second.len() - b.len() - 1] == a[a.len() - b.len() - 1]);
        }
        assert(a =~= b) by {
            assert forall|i: int| 0 <= i < a.len() implies a[i] == b[i] by {
                assert(first[first.len() - a.len() + i] == a[i]);
                assert(second[second.len() - b.len() + i] == b[i]);
            }
        }
        lemma_decimal_injective(number1, number2);
    }
}

/// The labels that an allocator gives for hints, one after the other.
pub open spec fn labels(prefix: Seq<char>, hints: Seq<Seq<char>>) -> Seq<Seq<char>> {
    Seq::new(hints.len(), |i: int| label(prefix, hints[i], i as nat))
}

/// An allocator never gives a label twice, whatever the hints.
pub proof fn lemma_labels_distinct(prefix: Seq<char>, hints: Seq<Seq<char>>)
    ensures
        labels(prefix, hints).no_duplicates(),
{
    let all = labels(prefix, hints);
    assert forall|i: int, j: int| 0 <= i < all.len() && 0 <= j < all.len() && i != j implies all[i]
        != all[j] by {
        lemma_labels_differ(prefix, hints[i], i as nat, hints[j], j as nat);
    }
}

/// The registers that a block may overwrite: all that are not live behind it.
pub fn scratchable_registers(isa: &ISA, live_out_regs: &OrderedSet<ArchitecturalRegister>) -> (r:
    OrderedSet<ArchitecturalRegister>)
    ensures
        r@ == viewed(isa.registers@).to_set().difference(live_out_regs@),
        r.distinct(),
{
    let registers = OrderedSet::from_vec(duplicate_all(&isa.registers));
    registers.difference(live_out_regs)
}

/// What is done with a basic block.
#[derive(Debug, Clone, Copy, PartialEq, Eq, Structural)]
pub enum BlockAction {
    /// The block stays as it is
    Keep,
    /// The block is handed to the superoptimizer
    Rewrite,
}

/// Some instruction of the row must stay as it is.
pub open spec fn any_static(instructions: Seq<DecodedV>) -> bool {
    exists|i: int| 0 <= i < instructions.len() && (#[trigger] instructions[i]).static_instruction
}

/// The candidate runs all instructions of the row.
pub open spec fn all_supported(candidate: CandidateV, instructions: Seq<DecodedV>) -> bool {
    forall|i: int| 0 <= i < instructions.len() ==> supports(candidate, #[trigger] instructions[i])
}

/// Reports whether an instruction of the row must stay as it is.
pub fn has_static_instruction(instructions: &Vec<DecodedInstruction>) -> (r: bool)
    ensures
        r == any_static(viewed(instructions@)),
{
    let ghost all = viewed(instructions@);
    let mut i: usize = 0;
    while i < instructions.len()
        invariant
            all == viewed(instructions@),
            i <= all.len(),
            forall|j: int| 0 <= j < i ==> !(#[trigger] all[j]).static_instruction,
        decreases all.len() - i,
    {
        assert(all[i as int] == instructions@[i as int]@);
        if instructions[i].static_instruction {
            return true;
        }
        i += 1;
    }
    false
}

/// Reports whether the candidate runs all instructions of the row.
pub fn supports_all(candidate: &ISACandidate, instructions: &Vec<DecodedInstruction>) -> (r: bool)
    requires
        conditions_defined(candidate@, viewed(instructions@)),
    ensures
        r == all_supported(candidate@, viewed(instructions@)),
{
    let ghost all = viewed(instructions@);
    let mut i: usize = 0;
    while i < instructions.len()
        invariant
            all == viewed(instructions@),
            i <= all.len(),
            conditions_defined(candidate@, all),
            forall|j: int| 0 <= j < i ==> supports(candidate@, #[trigger] all[j]),
        decreases all.len() - i,
    {
        assert(all[i as int] == instructions@[i as int]@);
        if !candidate.supports_instruction(&instructions[i]) {
            return false;
        }
        i += 1;
    }
    true
}

/// Decides what is done with a basic block: a static one stays, any other is rewritten unless
/// the candidate runs all of it.
pub fn block_action(block: &BasicBlock, candidate: &ISACandidate) -> (r: BlockAction)
    requires
        block_decidable(block@, candidate@),
    ensures
        r == if any_static(block@.instructions) || all_supported(
            candidate@,
            block@.instructions,
        ) {
            BlockAction::Keep
        } else {
            BlockAction::Rewrite
        },
{
    // Static instructions may not be rewritten so we skip them
    if has_static_instruction(&block.instructions) {
        return BlockAction::Keep;
    }
    if supports_all(candidate, &block.instructions) {
        BlockAction::Keep
    } else {
        BlockAction::Rewrite
    }
}

/// A block with one instruction that the candidate does not run.
pub open spec fn needs_scratch(block: BlockV, candidate: CandidateV) -> bool {
    !supports(candidate, block.instructions[0])
}

/// Which of the first `n` blocks start with an instruction that the candidate does not run.
pub open spec fn scratch_places(blocks: Seq<BlockV>, candidate: CandidateV, n: nat) -> Seq<usize>
    decreases n,
{
    if n == 0 {
        seq![]
    } else if needs_scratch(blocks[n - 1], candidate) {
        scratch_places(blocks, candidate, (n - 1) as nat).push((n - 1) as usize)
    } else {
        scratch_places(blocks, candidate, (n - 1) as nat)
    }
}

/// Finds the blocks whose first instruction the candidate does not run: of a program with every
/// instruction split off, those are the instructions that may be replaced from scratch.
pub fn blocks_to_scratch(blocks: &Vec<BasicBlock>, candidate: &ISACandidate) -> (r: Vec<usize>)
    requires
        forall|i: int|
            0 <= i < blocks@.len() ==> {
                &&& (#[trigger] blocks@[i])@.instructions.len() > 0
                &&& conditions_defined(candidate@, blocks@[i]@.instructions)
            },
    ensures
        r@ == scratch_places(viewed(blocks@), candidate@, blocks@.len()),
{
    let ghost all = viewed(blocks@);
    let mut places: Vec<usize> = Vec::new();
    let mut i: usize = 0;
    while i < blocks.len()
        invariant
            all == viewed(blocks@),
            i <= all.len(),
            all.len() == blocks@.len(),
            forall|k: int|
                0 <= k < blocks@.len() ==> {
                    &&& (#[trigger] blocks@[k])@.instructions.len() > 0
                    &&& conditions_defined(candidate@, blocks@[k]@.instructions)
                },
            places@ == scratch_places(all, candidate@, i as nat),
        decreases all.len() - i,
    {
        let block = &blocks[i];
        proof {
            assert(all[i as int] == blocks@[i as int]@);
            assert(block@.instructions[0] == block.instructions@[0]@);
        }
        if !candidate.supports_instruction(&block.instructions[0]) {
            places.push(i);
        }
        i += 1;
    }
    places
}

/// Which of the first `n` blocks are handed to the superoptimizer.
pub open spec fn rewrite_places(blocks: Seq<BlockV>, candidate: CandidateV, n: nat) -> Seq<usize>
    decreases n,
{
    if n == 0 {
        seq![]
    } else if any_static(blocks[n - 1].instructions) || all_supported(
        candidate,
        blocks[n - 1].instructions,
    ) {
        rewrite_places(blocks, candidate, (n - 1) as nat)
    } else {
        rewrite_places(blocks, candidate, (n - 1) as nat).push((n - 1) as usize)
    }
}

/// The candidate can be held against the block, and a static instruction stands alone in it and
/// runs under the candidate.
pub open spec fn block_decidable(block: BlockV, candidate: CandidateV) -> bool {
    &&& conditions_defined(candidate, block.instructions)
    &&& any_static(block.instructions) ==> block.instructions.len() == 1 && all_supported(
        candidate,
        block.instructions,
    )
}

/// Finds the blocks that are handed to the superoptimizer.
pub fn blocks_to_rewrite(blocks: &Vec<BasicBlock>, candidate: &ISACandidate) -> (r: Vec<usize>)
    requires
        forall|i: int|
            0 <= i < blocks@.len() ==> block_decidable((#[trigger] blocks@[i])@, candidate@),
    ensures
        r@ == rewrite_places(viewed(blocks@), candidate@, blocks@.len()),
{
    let ghost all = viewed(blocks@);
    let mut places: Vec<usize> = Vec::new();
    let mut i: usize = 0;
    while i < blocks.len()
        invariant
            all == viewed(blocks@),
            i <= all.len(),
            all.len() == blocks@.len(),
            forall|k: int|
                0 <= k < blocks@.len() ==> block_decidable((#[trigger] blocks@[k])@, candidate@),
            places@ == rewrite_places(all, candidate@, i as nat),
        decreases all.len() - i,
    {
        let block = &blocks[i];
        assert(all[i as int] == blocks@[i as int]@);
        if block_action(block, candidate) == BlockAction::Rewrite {
            places.push(i);
        }
        i += 1;
    }
    places
}

/// A line of assembly and what replaces it.
#[derive(Debug, Clone, PartialEq, Eq)]
pub struct Replacement {
    pub line: usize,
    pub rewrite: String,
}

/// The lines stand in descending order.
pub open spec fn descending(replacements: Seq<Replacement>) -> bool {
    forall|i: int, j: int|
        0 <= i < j < replacements.len() ==> (#[trigger] replacements[i]).line >= (
        #[trigger] replacements[j]).line
}

proof fn lemma_insert_multiset<A>(row: Seq<A>, at: int, item: A)
    requires
        0 <= at <= row.len(),
    ensures
        row.insert(at, item).to_multiset() == row.to_multiset().insert(item),
{
    broadcast use vstd::seq_lib::group_to_multiset_ensures;

    let after = row.insert(at, item);
    assert(after.remove(at) =~= row);
    assert(after[at] == item);
    assert(after.to_multiset().count(item) > 0) by {
        assert(after.contains(item));
    }
    assert(after.to_multiset() =~= row.to_multiset().insert(item));
}

/// Puts replacements into the order of application: from the end of the file upward, so
/// multi-line replacements do not move the lines of later ones.
///
/// The order of replacements of one line is left open.
pub fn order_replacements(replacements: Vec<Replacement>) -> (r: Vec<Replacement>)
    ensures
        descending(r@),
        r@.to_multiset() == replacements@.to_multiset(),
{
    broadcast use vstd::seq_lib::group_to_multiset_ensures;

    let ghost all = replacements@;
    let mut left = replacements;
    let mut ordered: Vec<Replacement> = Vec::new();
    assert(ordered@.to_multiset().add(left@.to_multiset()) =~= all.to_multiset());
    while left.len() > 0
        invariant
            descending(ordered@),
            ordered@.to_multiset().add(left@.to_multiset()) == all.to_multiset(),
        decreases left@.len(),
    {
        let ghost before = left@;
        let ghost sorted = ordered@;
        if let Some(next) = left.pop() {
            let mut at: usize = 0;
            while at < ordered.len() && ordered[at].line > next.line
                invariant
                    at <= ordered@.len(),
                    forall|j: int| 0 <= j < at ==> (#[trigger] ordered@[j]).line > next.line,
                decreases ordered@.len() - at,
            {
                at += 1;
            }
            proof {
                lemma_insert_multiset(sorted, at as int, next);
                assert(before =~= left@.push(next));
                vstd::seq_lib::to_multiset_build(left@, next);
                assert forall|i: int, j: int|
                    0 <= i < j < sorted.insert(at as int, next).len() implies (
                #[trigger] sorted.insert(at as int, next)[i]).line >= (
                #[trigger] sorted.insert(at as int, next)[j]).line by {
                    let inserted = sorted.insert(at as int, next);
                    if j < at {
                        assert(inserted[i] == sorted[i] && inserted[j] == sorted[j]);
                    } else if j == at {
                        assert(inserted[i] == sorted[i]);
                    } else if i > at {
                        assert(inserted[i] == sorted[i - 1] && inserted[j] == sorted[j - 1]);
                    } else if i == at {
                        assert(inserted[j] == sorted[j - 1]);
                        if j - 1 > at {
                            assert(sorted[at as int].line >= sorted[j - 1].line);
                        }
                    } else {
                        assert(inserted[i] == sorted[i] && inserted[j] == sorted[j - 1]);
                        if i < j - 1 {
                            assert(sorted[i].line >= sorted[j - 1].line);
                        }
                    }
                }
            }
            ordered.insert(at, next);
            assert(ordered@ =~= sorted.insert(at as int, next));
            assert(ordered@.to_multiset().add(left@.to_multiset()) =~= sorted.to_multiset().add(
                before.to_multiset(),
            ));
        }
    }
    assert(left@ =~= Seq::empty());
    assert(ordered@.to_multiset() =~= all.to_multiset());
    ordered
}

/// What follows a pass over the instructions that may be replaced from scratch.
#[derive(Debug, PartialEq, Eq)]
pub enum ScratchStep {
    /// Nothing was replaced: the program is ready for the blocks to be rewritten
    Finished,
    /// The replacements are applied in this order, and another pass follows
    Apply(Vec<Replacement>),
}

/// Decides how a pass goes on. Replacements can hold instructions which themselves need
/// replacements, so passes follow each other until one finds nothing to replace.
pub fn scratch_step(replacements: Vec<Replacement>) -> (r: ScratchStep)
    ensures
        match r {
            ScratchStep::Finished => replacements@.len() == 0,
            ScratchStep::Apply(ordered) => replacements@.len() > 0 && descending(ordered@)
                && ordered@.to_multiset() == replacements@.to_multiset(),
        },
{
    if replacements.len() == 0 {
        ScratchStep::Finished
    } else {
        ScratchStep::Apply(order_replacements(replacements))
    }
}

/// The lines of a block's instructions, each ended.
pub open spec fn block_text(lines: Seq<Seq<char>>, instructions: Seq<DecodedV>) -> Seq<char>
    decreases instructions.len(),
{
    if instructions.len() == 0 {
        seq![]
    } else {
        block_text(lines, instructions.drop_last()) + lines[instructions.last().assembly_line as int]
            + "\n"@
    }
}

/// The assembly of a block, to be handed to the superoptimizer.
pub fn block_assembly(assembly_lines: &Vec<String>, block: &BasicBlock) -> (r: String)
    requires
        block@.instructions.len() > 0,
        forall|i: int|
            0 <= i < block@.instructions.len() ==> (#[trigger] block@.instructions[i]).assembly_line
                < assembly_lines@.len(),
    ensures
        r@ == block_text(viewed(assembly_lines@), block@.instructions),
{
    let ghost all = block@.instructions;
    let ghost rows = viewed(assembly_lines@);
    let mut text = String::new();
    let mut i: usize = 0;
    assert(all.take(0) =~= Seq::empty());
    while i < block.instructions.len()
        invariant
            all == viewed(block.instructions@),
            rows == viewed(assembly_lines@),
            i <= all.len(),
            forall|i: int|
                0 <= i < all.len() ==> (#[trigger] all[i]).assembly_line < assembly_lines@.len(),
            text@ == block_text(rows, all.take(i as int)),
        decreases all.len() - i,
    {
        proof {
            assert(all[i as int] == block.instructions@[i as int]@);
            assert(all.take(i + 1).drop_last() =~= all.take(i as int));
            assert(all.take(i + 1).last() == all[i as int]);
        }
        let line = block.instructions[i].assembly_line;
        assert(rows[line as int] == assembly_lines@[line as int]@);
        text.append(assembly_lines[line].as_str());
        text.append("\n");
        i += 1;
    }
    assert(all.take(i as int) =~= all);
    text
}

/// How the superoptimizer is to search.
#[derive(Debug, Clone, PartialEq, Eq)]
pub struct GreenthumbSettings {
    pub search_mode_flag: String,
    pub rewrite_mode_flag: String,
    pub cores: u32,
    pub timeout_seconds: u32,
    pub candidate_size: u32,
}

/// The name of a stack direction.
pub open spec fn direction_name(direction: StackDirection) -> Seq<char> {
    match direction {
        StackDirection::Upwards => "upwards"@,
        StackDirection::Downwards => "downwards"@,
    }
}

/// The arguments of a superoptimizer run.
pub open spec fn greenthumb_line(
    isa: ISA,
    settings: GreenthumbSettings,
    input: Seq<char>,
    restrict: Seq<char>,
    output_dir: Seq<char>,
) -> Seq<Seq<char>> {
    seq![
        "greenthumb/arm/optimize.rkt"@,
        settings.search_mode_flag@,
        settings.rewrite_mode_flag@,
        "--solver"@,
        "z3"@,
        "-c"@,
        decimal(settings.cores as nat),
        "-t"@,
        decimal(settings.timeout_seconds as nat),
        "-n"@,
        decimal(settings.candidate_size as nat),
        "-d"@,
        output_dir,
        "--restrict"@,
        restrict,
        "--stack-pointer-reg"@,
        decimal(isa.sp.register.identifier as nat),
        "--stack-scratch-size"@,
        decimal(isa.sp.stack_size as nat),
        "--stack-direction"@,
        direction_name(isa.sp.direction),
        input,
    ]
}

/// The arguments of a superoptimizer run.
pub fn greenthumb_arguments(
    isa: &ISA,
    settings: &GreenthumbSettings,
    input: &str,
    restrict: &str,
    output_dir: &str,
) -> (r: Vec<String>)
    ensures
        viewed(r@) == greenthumb_line(*isa, *settings, input@, restrict@, output_dir@),
{
    let stack_direction = match isa.sp.direction {
        StackDirection::Upwards => "upwards",
        StackDirection::Downwards => "downwards",
    };
    let mut args: Vec<String> = Vec::new();
    args.push("greenthumb/arm/optimize.rkt".to_owned());
    args.push(settings.search_mode_flag.clone());
    args.push(settings.rewrite_mode_flag.clone());
    args.push("--solver".to_owned());
    args.push("z3".to_owned());
    args.push("-c".to_owned());
    args.push(decimal_text(settings.cores as u128));
    args.push("-t".to_owned());
    args.push(decimal_text(settings.timeout_seconds as u128));
    args.push("-n".to_owned());
    args.push(decimal_text(settings.candidate_size as u128));
    args.push("-d".to_owned());
    args.push(output_dir.to_owned());
    args.push("--restrict".to_owned());
    args.push(restrict.to_owned());
    args.push("--stack-pointer-reg".to_owned());
    args.push(decimal_text(isa.sp.register.identifier as u128));
    args.push("--stack-scratch-size".to_owned());
    args.push(decimal_text(isa.sp.stack_size as u128));
    args.push("--stack-direction".to_owned());
    args.push(stack_direction.to_owned());
    args.push(input.to_owned());
    assert(viewed(args@) =~= greenthumb_line(*isa, *settings, input@, restrict@, output_dir@));
    args
}

/// A decimal digit.
pub open spec fn is_digit(c: char) -> bool {
    '0' <= c <= '9'
}

/// The number that digits stand for.
pub open spec fn digits_value(digits: Seq<char>) -> nat
    decreases digits.len(),
{
    if digits.len() == 0 {
        0
    } else {
        digits_value(digits.drop_last()) * 10 + (digits.last() as nat - '0' as nat) as nat
    }
}

/// The digits of a number, behind a plus sign if there is one.
pub open spec fn unsigned_digits(text: Seq<char>) -> Seq<char> {
    if text.len() > 0 && text[0] == '+' {
        text.skip(1)
    } else {
        text
    }
}

/// The text is an unsigned number of 64 bits.
pub open spec fn is_u64(text: Seq<char>) -> bool {
    let digits = unsigned_digits(text);
    &&& digits.len() > 0
    &&& forall|i: int| 0 <= i < digits.len() ==> is_digit(#[trigger] digits[i])
    &&& digits_value(digits) <= u64::MAX
}

/// Reports whether characters are an unsigned number of 64 bits.
fn parses_as_u64(text: &Vec<char>) -> (r: bool)
    ensures
        r == is_u64(text@),
{
    let ghost digits = unsigned_digits(text@);
    let start: usize = if text.len() > 0 && text[0] == '+' {
        1
    } else {
        0
    };
    assert(text@.skip(start as int) =~= digits);
    if text.len() == start {
        return false;
    }
    let mut value: u64 = 0;
    let mut fits = true;
    let mut i: usize = start;
    assert(digits.take(0) =~= Seq::empty());
    while i < text.len()
        invariant
            start <= i <= text@.len(),
            start <= 1,
            digits == text@.skip(start as int),
            digits == unsigned_digits(text@),
            forall|j: int| 0 <= j < i - start ==> is_digit(#[trigger] digits[j]),
            fits ==> value == digits_value(digits.take(i - start)),
            !fits ==> digits_value(digits.take(i - start)) > u64::MAX,
        decreases text@.len() - i,
    {
        let c = text[i];
        assert(digits[i - start] == c);
        if !('0' <= c && c <= '9') {
            assert(!is_digit(digits[i - start]));
            return false;
        }
        proof {
            assert(digits.take(i - start + 1).drop_last() =~= digits.take(i - start));
            assert(digits.take(i - start + 1).last() == c);
        }
        let step: u64 = (c as u32 - '0' as u32) as u64;
        if fits {
            match value.checked_mul(10) {
                Some(tenfold) => match tenfold.checked_add(step) {
                    Some(sum) => {
                        value = sum;
                    },
                    None => {
                        fits = false;
                    },
                },
                None => {
                    fits = false;
                },
            }
        }
        i += 1;
    }
    assert(digits.take(i - start) =~= digits);
    fits
}

/// The first two lines are numbers: the cost and the length of a rewrite that was found.
pub open spec fn metadata_valid(contents: Seq<char>) -> bool {
    lines(contents).len() >= 2 && is_u64(lines(contents)[0]) && is_u64(lines(contents)[1])
}

/// Reports whether the metadata of a rewrite are well-formed.
pub fn rewrite_metadata_valid(contents: &str) -> (r: bool)
    ensures
        r == metadata_valid(contents@),
{
    let rows = lines_of(&chars_of(contents));
    assert(char_rows(rows@) == lines(contents@));
    if rows.len() < 2 {
        return false;
    }
    assert(rows@[0]@ == lines(contents@)[0]);
    assert(rows@[1]@ == lines(contents@)[1]);
    parses_as_u64(&rows[0]) && parses_as_u64(&rows[1])
}

/// What a superoptimizer run has come to.
#[derive(Debug, Clone, Copy, PartialEq, Eq, Structural)]
pub enum GreenthumbOutcome {
    /// The run itself failed
    Failed,
    /// No program was written
    NoProgram,
    /// A program was written, but none was found correct
    NoRewrite,
    /// What was written about the correct program is malformed
    MalformedMetadata,
    /// A correct rewrite was found
    Rewrite,
}

/// What a superoptimizer run has come to, from what it left behind.
pub open spec fn outcome_of(
    success: bool,
    program_exists: bool,
    metadata: Option<Seq<char>>,
) -> GreenthumbOutcome {
    if !success {
        GreenthumbOutcome::Failed
    } else if !program_exists {
        GreenthumbOutcome::NoProgram
    } else {
        match metadata {
            None => GreenthumbOutcome::NoRewrite,
            Some(contents) => if metadata_valid(contents) {
                GreenthumbOutcome::Rewrite
            } else {
                GreenthumbOutcome::MalformedMetadata
            },
        }
    }
}

/// Decides what a superoptimizer run has come to: whether it ended well, whether it wrote a
/// program, and what it wrote about a program that it found correct.
pub fn greenthumb_outcome(success: bool, program_exists: bool, metadata: Option<&str>) -> (r:
    GreenthumbOutcome)
    ensures
        r == outcome_of(
            success,
            program_exists,
            match metadata {
                Some(contents) => Some(contents@),
                None => None,
            },
        ),
{
    if !success {
        return GreenthumbOutcome::Failed;
    }
    if !program_exists {
        return GreenthumbOutcome::NoProgram;
    }
    match metadata {
        None => GreenthumbOutcome::NoRewrite,
        Some(contents) => if rewrite_metadata_valid(contents) {
            GreenthumbOutcome::Rewrite
        } else {
            GreenthumbOutcome::MalformedMetadata
        },
    }
}

} // verus!
