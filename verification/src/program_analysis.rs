//! Basic blocks of a program and the registers that are live at their borders.
use vstd::prelude::*;

use crate::collapse::collapsed;
use crate::collections::{duplicate_all, lemma_viewed_push, viewed, OrderedSet, Value};
use crate::const_eval::{canonical, canonical_word, valid_width};
use crate::instruction_semantics::{effect_views, Effect, EffectV, Expr, ExprV};
use crate::isa_specification::{
    ArchitecturalRegister, BranchOffset, BranchV, DecodedInstruction, DecodedV, ISA, InstructionV,
};
use crate::register_uses::{
    all_reads, all_writes, are_uses_defined, instruction_register_reads,
    instruction_register_writes, uses_defined,
};
use crate::semantic_matching::{
    decoded_effects, instruction_to_lowered_effects, try_lowered_effects,
};

verus! {

/// A program split into basic blocks.
pub struct ProgramAnalysis<'a> {
    /// All instructions in the program
    pub program: Vec<BasicBlock>,
    /// The instruction set of the program
    pub isa: &'a ISA,
}

/// Instructions that run one after the other, entered at the first and left at the last.
pub struct BasicBlock {
    /// The instruction index where this BasicBlock starts in the original program.
    pub start_instruction_idx: usize,
    /// All registers which can be read before being overwritten in this program (ie its
    /// contents are still live)
    pub live_in_regs: OrderedSet<ArchitecturalRegister>,
    /// All registers which are read by this basic block. Used as the
    /// live-in input to the Greenthumb superoptimizer (since, although more registers are live-in,
    /// they aren't useful for that block)
    pub read_regs: OrderedSet<ArchitecturalRegister>,
    /// All registers which have their contents changed during the course of this basic block
    pub consumed_registers: OrderedSet<ArchitecturalRegister>,
    /// All live-out registers (ie registers which may or may not be read after the
    /// basic block completes). Calculated assuming any branch could be taken.
    pub live_out_regs: OrderedSet<ArchitecturalRegister>,
    /// A list of pointers to all other basic blocks which this basic block can lead to.
    /// Pointers are defined by BasicBlock indices which index ProgramAnalysis::program.
    pub next_blocks: Vec<usize>,
    /// The instructions in the basic block. This should include the branch statement which ends the
    /// basic block (if applicable).
    pub instructions: Vec<DecodedInstruction>,
}

/// The shape of a basic block.
pub struct BlockV {
    pub start: usize,
    pub live_in: Set<ArchitecturalRegister>,
    pub read: Set<ArchitecturalRegister>,
    pub consumed: Set<ArchitecturalRegister>,
    pub live_out: Set<ArchitecturalRegister>,
    pub next: Seq<usize>,
    pub instructions: Seq<DecodedV>,
}

impl View for BasicBlock {
    type V = BlockV;

    open spec fn view(&self) -> BlockV {
        BlockV {
            start: self.start_instruction_idx,
            live_in: self.live_in_regs@,
            read: self.read_regs@,
            consumed: self.consumed_registers@,
            live_out: self.live_out_regs@,
            next: self.next_blocks@,
            instructions: viewed(self.instructions@),
        }
    }
}

/// The first instruction from `from` on at the address.
pub open spec fn index_at(program: Seq<DecodedV>, addr: u128, from: int) -> Option<int>
    decreases program.len() - from,
{
    if from < 0 || from >= program.len() {
        None
    } else if program[from].mem_addr == addr {
        Some(from)
    } else {
        index_at(program, addr, from + 1)
    }
}

/// The instruction that a relative branch at `i` leads to; nothing for other instructions.
///
/// The outer `None` stands for an offset that is no literal or leads out of the program.
pub open spec fn target_of(program: Seq<DecodedV>, i: int) -> Option<Option<int>> {
    match program[i].branch_instruction {
        Some(BranchV::PCRelative(offset)) => match collapsed(
            offset,
            program[i],
            program[i].form.derived_values.len(),
        ) {
            Some(ExprV::Const { value, width }) => if valid_width(width) && canonical(
                program[i].mem_addr as u128,
                width,
            ) + canonical(value, width) <= u128::MAX {
                match index_at(
                    program,
                    canonical(
                        (canonical(program[i].mem_addr as u128, width) + canonical(
                            value,
                            width,
                        )) as u128,
                        width,
                    ),
                    0,
                ) {
                    Some(target) => Some(Some(target)),
                    None => None,
                }
            } else {
                None
            },
            _ => None,
        },
        _ => Some(None),
    }
}

/// A basic block ends behind the instruction: it branches, or must stay as it is.
pub open spec fn ends_block(instruction: DecodedV) -> bool {
    instruction.branch_instruction is Some || instruction.static_instruction
}

/// A basic block starts at the instruction: it must stay as it is, and is no branch, so it stands
/// alone.
pub open spec fn starts_block(instruction: DecodedV) -> bool {
    instruction.static_instruction && instruction.branch_instruction is None
}

/// A basic block can start here: at either end of the program, behind an instruction that ends
/// a block, at one that stands alone, or where a branch leads to. With every instruction split off, it can start anywhere.
pub open spec fn is_boundary(program: Seq<DecodedV>, every: bool, at: int) -> bool {
    ||| every && 0 <= at <= program.len()
    ||| at == 0
    ||| at == program.len()
    ||| 0 < at <= program.len() && ends_block(program[at - 1])
    ||| 0 <= at < program.len() && starts_block(program[at])
    ||| exists|i: int| 0 <= i < program.len() && #[trigger] target_of(program, i) == Some(Some(at))
}

/// The boundaries before `upto`, in order.
pub open spec fn boundaries(program: Seq<DecodedV>, every: bool, upto: nat) -> Seq<usize>
    decreases upto,
{
    if upto == 0 {
        seq![]
    } else if is_boundary(program, every, upto - 1) {
        boundaries(program, every, (upto - 1) as nat).push((upto - 1) as usize)
    } else {
        boundaries(program, every, (upto - 1) as nat)
    }
}

/// All boundaries, in order; the last one is the end of the program.
pub open spec fn block_starts(program: Seq<DecodedV>, every: bool) -> Seq<usize> {
    boundaries(program, every, program.len() + 1)
}

/// The registers that the instructions from `start` to before `end` write for sure.
pub open spec fn consumed_by(effects: Seq<Seq<EffectV>>, start: int, end: int) -> Set<
    ArchitecturalRegister,
>
    decreases end - start,
{
    if end <= start {
        Set::empty()
    } else {
        consumed_by(effects, start, end - 1).union(all_writes(effects[end - 1]))
    }
}

/// The registers that the instructions from `start` to before `end` read before writing them.
pub open spec fn needed_by(effects: Seq<Seq<EffectV>>, start: int, end: int) -> Set<
    ArchitecturalRegister,
>
    decreases end - start,
{
    if end <= start {
        Set::empty()
    } else {
        needed_by(effects, start, end - 1).union(
            all_reads(effects[end - 1]).difference(consumed_by(effects, start, end - 1)),
        )
    }
}

/// The instructions that can follow the one before `end`: the next one, and a branch's target.
pub open spec fn successors(program: Seq<DecodedV>, end: int) -> Seq<int> {
    let next = if end == program.len() {
        seq![]
    } else {
        seq![end]
    };
    match target_of(program, end - 1) {
        Some(Some(target)) => next.push(target),
        _ => next,
    }
}

/// The number of the block that starts at an instruction.
pub open spec fn block_at(starts: Seq<usize>, start: int, from: int) -> usize
    decreases starts.len() - from,
{
    if from < 0 || from >= starts.len() || starts[from] == start {
        from as usize
    } else {
        block_at(starts, start, from + 1)
    }
}

/// The block from `start` to before `end`, before liveness is propagated.
pub open spec fn block_of(
    program: Seq<DecodedV>,
    every: bool,
    effects: Seq<Seq<EffectV>>,
    registers: Seq<ArchitecturalRegister>,
    start: int,
    end: int,
) -> BlockV {
    let starts = block_starts(program, every);
    let next = successors(program, end);
    BlockV {
        start: start as usize,
        live_in: needed_by(effects, start, end),
        read: needed_by(effects, start, end),
        consumed: consumed_by(effects, start, end),
        live_out: if program[end - 1].branch_instruction == Some(BranchV::Register) {
            registers.to_set()
        } else {
            Set::empty()
        },
        next: Seq::new(next.len(), |k: int| block_at(starts, next[k], 0)),
        instructions: program.subrange(start, end),
    }
}

/// The blocks of a program, before liveness is propagated.
pub open spec fn blocks_of(
    program: Seq<DecodedV>,
    every: bool,
    effects: Seq<Seq<EffectV>>,
    registers: Seq<ArchitecturalRegister>,
) -> Seq<BlockV> {
    let starts = block_starts(program, every);
    Seq::new(
        (starts.len() - 1) as nat,
        |k: int|
            block_of(program, every, effects, registers, starts[k] as int, starts[k + 1] as int),
    )
}

/// Every branch of the program leads to an instruction of it.
pub open spec fn branches_resolved(program: Seq<DecodedV>) -> bool {
    forall|i: int| 0 <= i < program.len() ==> #[trigger] target_of(program, i) is Some
}

/// The shapes of rows of effects.
pub open spec fn effect_rows(effects: Seq<Vec<Effect>>) -> Seq<Seq<EffectV>> {
    Seq::new(effects.len(), |i: int| effect_views(effects[i]@))
}

pub(crate) proof fn lemma_index_at(program: Seq<DecodedV>, addr: u128, from: int)
    requires
        0 <= from,
    ensures
        index_at(program, addr, from) matches Some(i) ==> from <= i < program.len(),
    decreases program.len() - from,
{
    if from < program.len() && program[from].mem_addr != addr {
        lemma_index_at(program, addr, from + 1);
    }
}

pub(crate) proof fn lemma_target(program: Seq<DecodedV>, i: int)
    ensures
        target_of(program, i) matches Some(Some(t)) ==> 0 <= t < program.len(),
{
    match program[i].branch_instruction {
        Some(BranchV::PCRelative(offset)) => {
            match collapsed(offset, program[i], program[i].form.derived_values.len()) {
                Some(ExprV::Const { value, width }) => {
                    lemma_index_at(
                        program,
                        canonical(
                            (canonical(program[i].mem_addr as u128, width) + canonical(
                                value,
                                width,
                            )) as u128,
                            width,
                        ),
                        0,
                    );
                },
                _ => {},
            }
        },
        _ => {},
    }
}

/// The boundaries are sorted, below the bound, and hold every boundary below it.
pub(crate) proof fn lemma_boundaries(program: Seq<DecodedV>, every: bool, upto: nat)
    requires
        upto <= program.len() + 1,
        program.len() <= usize::MAX,
    ensures
        forall|i: int, j: int|
            0 <= i < j < boundaries(program, every, upto).len() ==> boundaries(program, every, upto)[i]
                < boundaries(program, every, upto)[j],
        forall|i: int|
            0 <= i < boundaries(program, every, upto).len() ==> (#[trigger] boundaries(program, every, upto)[i])
                < upto && is_boundary(program, every, boundaries(program, every, upto)[i] as int),
        forall|b: int|
            0 <= b < upto && #[trigger] is_boundary(program, every, b) ==> exists|i: int|
                0 <= i < boundaries(program, every, upto).len() && boundaries(program, every, upto)[i] == b,
    decreases upto,
{
    if upto > 0 {
        let prev = (upto - 1) as nat;
        lemma_boundaries(program, every, prev);
        let before = boundaries(program, every, prev);
        let all = boundaries(program, every, upto);
        assert forall|b: int| 0 <= b < upto && #[trigger] is_boundary(program, every, b) implies exists|
            i: int,
        | 0 <= i < all.len() && all[i] == b by {
            if b < prev {
                let i = choose|i: int| 0 <= i < before.len() && before[i] == b;
                assert(all[i] == b);
            } else {
                assert(all[all.len() - 1] == b);
            }
        }
    }
}

/// The starts of the blocks: first the beginning, last the end, increasing.
pub(crate) proof fn lemma_starts(program: Seq<DecodedV>, every: bool)
    requires
        program.len() <= usize::MAX,
    ensures
        block_starts(program, every).len() > 0,
        block_starts(program, every)[0] == 0,
        block_starts(program, every).last() == program.len(),
        forall|i: int, j: int|
            0 <= i < j < block_starts(program, every).len() ==> block_starts(program, every)[i] < block_starts(
                program,
                every,
            )[j],
{
    let starts = block_starts(program, every);
    lemma_boundaries(program, every, program.len() + 1);
    assert(is_boundary(program, every, 0));
    assert(is_boundary(program, every, program.len() as int));
    let i = choose|i: int| 0 <= i < starts.len() && starts[i] == 0;
    assert(starts[i] == 0);
    if i > 0 {
        assert(starts[0] < starts[i]);
    }
    let j = choose|j: int| 0 <= j < starts.len() && starts[j] == program.len();
    if j < starts.len() - 1 {
        assert(starts[j] < starts[starts.len() - 1]);
    }
}

/// A boundary within the program has a block.
pub(crate) proof fn lemma_block_at(starts: Seq<usize>, start: int, from: int, k: int)
    requires
        0 <= from <= k < starts.len(),
        starts[k] == start,
        starts.len() <= usize::MAX,
        forall|i: int, j: int| 0 <= i < j < starts.len() ==> starts[i] < starts[j],
    ensures
        block_at(starts, start, from) == k,
    decreases k - from,
{
    if from < k {
        assert(starts[from] < starts[k]);
        lemma_block_at(starts, start, from + 1, k);
    }
}

/// Finds the instruction that a relative branch leads to; the outer `None` stands for an offset
/// that is no literal, or for a target outside of the program.
fn try_branch_target(program: &Vec<DecodedInstruction>, i: usize) -> (r: Option<Option<usize>>)
    requires
        i < program@.len(),
    ensures
        match target_of(viewed(program@), i as int) {
            Some(Some(target)) => r matches Some(Some(found)) && found == target,
            Some(None) => r matches Some(None),
            None => r is None,
        },
{
    let ghost all = viewed(program@);
    let instruction = &program[i];
    assert(all[i as int] == instruction@);
    match &instruction.branch_instruction {
        Some(BranchOffset::PCRelative(offset)) => {
            match offset.try_collapse(instruction) {
                Some(Expr::Const { value, width }) => {
                    if width == 0 || width > 128 {
                        return None;
                    }
                    // Offset is a signed value. We will assume the current pc is also the same
                    // width as the offset.
                    let sum = match canonical_word(instruction.mem_addr as u128, width).checked_add(
                        canonical_word(value, width),
                    ) {
                        Some(sum) => sum,
                        None => {
                            return None;
                        },
                    };
                    let addr = canonical_word(sum, width);
                    let mut k: usize = 0;
                    while k < program.len()
                        invariant
                            k <= program@.len(),
                            all == viewed(program@),
                            index_at(all, addr, 0) == index_at(all, addr, k as int),
                            match index_at(all, addr, 0) {
                                Some(target) => target_of(all, i as int) == Some(Some(target)),
                                None => target_of(all, i as int) is None,
                            },
                        decreases program@.len() - k,
                    {
                        assert(all[k as int] == program@[k as int]@);
                        if program[k].mem_addr as u128 == addr {
                            return Some(Some(k));
                        }
                        k += 1;
                    }
                    None
                },
                _ => None,
            }
        },
        _ => Some(None),
    }
}

/// Reports whether every branch of a program leads to an instruction of it.
pub fn are_branches_resolved(program: &Vec<DecodedInstruction>) -> (r: bool)
    ensures
        r == branches_resolved(viewed(program@)),
{
    let ghost all = viewed(program@);
    let mut i: usize = 0;
    while i < program.len()
        invariant
            i <= program@.len(),
            all == viewed(program@),
            forall|k: int| 0 <= k < i ==> #[trigger] target_of(all, k) is Some,
        decreases program@.len() - i,
    {
        if try_branch_target(program, i).is_none() {
            assert(target_of(all, i as int) is None);
            return false;
        }
        i += 1;
    }
    true
}

/// Finds the instruction that a relative branch leads to.
fn branch_target(program: &Vec<DecodedInstruction>, i: usize) -> (r: Option<usize>)
    requires
        i < program@.len(),
        target_of(viewed(program@), i as int) is Some,
    ensures
        match r {
            Some(target) => target_of(viewed(program@), i as int) == Some(Some(target as int)),
            None => target_of(viewed(program@), i as int) == Some(None::<int>),
        },
{
    try_branch_target(program, i).unwrap()
}

/// Lists the boundaries of the basic blocks in order.
///
/// There are some (unavoidable, to the best of our knowledge) limitations to this approach.
/// If there is a branch to a location defined by a word in memory (eg LDR pc, r10), then it
/// isn't possible to determine that there is a basic block gap there. It is assumed that any
/// such locations will have a branch instruction immediately before that memory address.
fn find_block_starts(program: &Vec<DecodedInstruction>, every: bool) -> (r: Vec<usize>)
    requires
        branches_resolved(viewed(program@)),
        program@.len() < usize::MAX,
    ensures
        r@ == block_starts(viewed(program@), every),
{
    let ghost all = viewed(program@);
    let n = program.len();
    let mut marks: Vec<bool> = Vec::new();
    let mut i: usize = 0;
    while i <= n
        invariant
            i <= n + 1,
            n == program@.len(),
            n < usize::MAX,
            all == viewed(program@),
            marks@.len() == i,
            forall|b: int|
                0 <= b < i ==> #[trigger] marks@[b] == (every || b == 0 || b == n || ends_block(
                    all[b - 1],
                ) || starts_block(all[b])),
        decreases n + 1 - i,
    {
        let mark = if every || i == 0 || i == n {
            true
        } else {
            assert(all[i - 1] == program@[i - 1]@);
            assert(all[i as int] == program@[i as int]@);
            program[i - 1].branch_instruction.is_some() || program[i - 1].static_instruction || (
            program[i].static_instruction && program[i].branch_instruction.is_none())
        };
        marks.push(mark);
        i += 1;
    }
    let mut i: usize = 0;
    while i < n
        invariant
            i <= n,
            n == program@.len(),
            all == viewed(program@),
            branches_resolved(all),
            marks@.len() == n + 1,
            forall|b: int|
                0 <= b <= n ==> #[trigger] marks@[b] == (every || b == 0 || b == n || ends_block(all[b - 1])
                    || starts_block(all[b]) || exists|k: int|
                    0 <= k < i && #[trigger] target_of(all, k) == Some(Some(b))),
        decreases n - i,
    {
        assert(target_of(all, i as int) is Some);
        let ghost before = marks@;
        let target = branch_target(program, i);
        proof {
            lemma_target(all, i as int);
        }
        if let Some(target) = target {
            marks.set(target, true);
        }
        assert forall|b: int| 0 <= b <= n implies #[trigger] marks@[b] == (every || b == 0 || b == n
            || ends_block(all[b - 1]) || starts_block(all[b]) || exists|k: int|
            0 <= k < i + 1 && #[trigger] target_of(all, k) == Some(Some(b))) by {
            assert(before[b] == (every || b == 0 || b == n || ends_block(all[b - 1]) || starts_block(all[b]) || exists|k: int|
                0 <= k < i && #[trigger] target_of(all, k) == Some(Some(b))));
            if exists|k: int| 0 <= k < i && #[trigger] target_of(all, k) == Some(Some(b)) {
                let k = choose|k: int|
                    0 <= k < i && #[trigger] target_of(all, k) == Some(Some(b));
                assert(target_of(all, k) == Some(Some(b)));
            }
            if exists|k: int| 0 <= k < i + 1 && #[trigger] target_of(all, k) == Some(Some(b)) {
                let k = choose|k: int|
                    0 <= k < i + 1 && #[trigger] target_of(all, k) == Some(Some(b));
                if k < i {
                    assert(target_of(all, k) == Some(Some(b)));
                }
            }
        }
        i += 1;
    }
    let mut r: Vec<usize> = Vec::new();
    let mut i: usize = 0;
    while i <= n
        invariant
            i <= n + 1,
            n == program@.len(),
            n < usize::MAX,
            all == viewed(program@),
            marks@.len() == n + 1,
            forall|b: int| 0 <= b <= n ==> #[trigger] marks@[b] == is_boundary(all, every, b),
            r@ == boundaries(all, every, i as nat),
        decreases n + 1 - i,
    {
        assert(marks@[i as int] == is_boundary(all, every, i as int));
        if marks[i] {
            r.push(i);
        }
        i += 1;
    }
    r
}

/// Finds the number of the block that starts at an instruction.
fn find_block(starts: &Vec<usize>, start: usize) -> (r: usize)
    ensures
        r == block_at(starts@, start as int, 0),
{
    let mut k: usize = 0;
    while k < starts.len() && starts[k] != start
        invariant
            k <= starts@.len(),
            block_at(starts@, start as int, 0) == block_at(starts@, start as int, k as int),
        decreases starts@.len() - k,
    {
        k += 1;
    }
    k
}

/// Builds the block from `start` to before `end`.
fn build_block(
    program: &Vec<DecodedInstruction>,
    every: Ghost<bool>,
    effects: &Vec<Vec<Effect>>,
    isa: &ISA,
    starts: &Vec<usize>,
    start: usize,
    end: usize,
) -> (r: BasicBlock)
    requires
        start < end <= program@.len(),
        program@.len() == effects@.len(),
        branches_resolved(viewed(program@)),
        starts@ == block_starts(viewed(program@), every@),
        forall|i: int| 0 <= i < effects@.len() ==> uses_defined(
            #[trigger] effect_rows(effects@)[i],
        ),
    ensures
        r@ == block_of(
            viewed(program@),
            every@,
            effect_rows(effects@),
            viewed(isa.registers@),
            start as int,
            end as int,
        ),
{
    let ghost all = viewed(program@);
    let ghost rows = effect_rows(effects@);
    let mut live_in: OrderedSet<ArchitecturalRegister> = OrderedSet::new();
    let mut consumed: OrderedSet<ArchitecturalRegister> = OrderedSet::new();
    let mut instructions: Vec<DecodedInstruction> = Vec::new();
    let mut i: usize = start;
    assert(viewed(instructions@) =~= all.subrange(start as int, start as int));
    while i < end
        invariant
            start <= i <= end <= program@.len(),
            program@.len() == effects@.len(),
            all == viewed(program@),
            rows == effect_rows(effects@),
            forall|i: int| 0 <= i < effects@.len() ==> uses_defined(#[trigger] rows[i]),
            live_in@ == needed_by(rows, start as int, i as int),
            consumed@ == consumed_by(rows, start as int, i as int),
            viewed(instructions@) == all.subrange(start as int, i as int),
        decreases end - i,
    {
        let copy = program[i].duplicate();
        proof {
            lemma_viewed_push(instructions@, copy);
            assert(all[i as int] == program@[i as int]@);
            assert(all.subrange(start as int, i + 1) =~= all.subrange(start as int, i as int).push(
                all[i as int],
            ));
            assert(rows[i as int] == effect_views(effects@[i as int]@));
            assert(uses_defined(rows[i as int]));
        }
        instructions.push(copy);
        // Any register which has been read but not consumed yet is one which this basic
        // block needs as a live-in register. We are assuming reads happen before writes.
        let reads = instruction_register_reads(&effects[i]);
        let writes = instruction_register_writes(&effects[i]);
        live_in.extend(&reads.difference(&consumed));
        consumed.extend(&writes);
        i += 1;
    }
    let ghost next = successors(all, end as int);
    let mut next_blocks: Vec<usize> = Vec::new();
    assert(all[end - 1] == program@[end - 1]@);
    assert(target_of(all, end - 1) is Some);
    if end != program.len() {
        next_blocks.push(find_block(starts, end));
    }
    if let Some(target) = branch_target(program, end - 1) {
        next_blocks.push(find_block(starts, target));
    }
    assert(next_blocks@ =~= Seq::new(next.len(), |k: int| block_at(starts@, next[k], 0)));
    // Assume statically that all registers are live-out when a branch is to
    // an unknown location. This will help to make sure calling conventions
    // are respected, as well as preventing these branches from causing issues.
    let live_out = match &program[end - 1].branch_instruction {
        Some(BranchOffset::Register) => OrderedSet::from_vec(duplicate_all(&isa.registers)),
        _ => OrderedSet::new(),
    };
    BasicBlock {
        start_instruction_idx: start,
        read_regs: live_in.clone(),
        live_in_regs: live_in,
        consumed_registers: consumed,
        live_out_regs: live_out,
        next_blocks,
        instructions,
    }
}

/// The lowered effects of every instruction of a program.
pub open spec fn program_effects(
    program: Seq<DecodedV>,
    instructions: Seq<InstructionV>,
) -> Seq<Seq<EffectV>> {
    Seq::new(
        program.len(),
        |i: int| decoded_effects(program[i], instructions, Seq::empty())->0,
    )
}

/// The effects of every instruction of a program can be lowered and looked through.
pub open spec fn effects_known(program: Seq<DecodedV>, instructions: Seq<InstructionV>) -> bool {
    forall|i: int|
        0 <= i < program.len() ==> {
            &&& decoded_effects(#[trigger] program[i], instructions, Seq::empty()) is Some
            &&& uses_defined(decoded_effects(program[i], instructions, Seq::empty())->0)
        }
}

/// Reports whether the effects of a program's instructions, and what they read and write, can be
/// told.
pub fn are_effects_known(program: &Vec<DecodedInstruction>, isa: &ISA) -> (r: bool)
    ensures
        r == effects_known(viewed(program@), viewed(isa.instructions@)),
{
    let ghost all = viewed(program@);
    let ghost instructions = viewed(isa.instructions@);
    let none: Vec<Effect> = Vec::new();
    assert(effect_views(none@) =~= Seq::empty());
    let mut i: usize = 0;
    while i < program.len()
        invariant
            i <= program@.len(),
            all == viewed(program@),
            instructions == viewed(isa.instructions@),
            effect_views(none@) == Seq::<EffectV>::empty(),
            forall|k: int|
                0 <= k < i ==> {
                    &&& decoded_effects(#[trigger] all[k], instructions, Seq::empty()) is Some
                    &&& uses_defined(decoded_effects(all[k], instructions, Seq::empty())->0)
                },
        decreases program@.len() - i,
    {
        assert(all[i as int] == program@[i as int]@);
        let known = match try_lowered_effects(&program[i], isa, &none) {
            Some(effects) => are_uses_defined(&effects),
            None => false,
        };
        if !known {
            assert(!effects_known(all, instructions));
            return false;
        }
        i += 1;
    }
    true
}

/// Lowers the effects of every instruction of a program.
fn lower_program(program: &Vec<DecodedInstruction>, isa: &ISA) -> (r: Vec<Vec<Effect>>)
    requires
        effects_known(viewed(program@), viewed(isa.instructions@)),
    ensures
        r@.len() == program@.len(),
        effect_rows(r@) == program_effects(viewed(program@), viewed(isa.instructions@)),
        forall|i: int| 0 <= i < r@.len() ==> uses_defined(#[trigger] effect_rows(r@)[i]),
{
    let ghost all = viewed(program@);
    let ghost instructions = viewed(isa.instructions@);
    let mut effects: Vec<Vec<Effect>> = Vec::new();
    let none: Vec<Effect> = Vec::new();
    assert(effect_views(none@) =~= Seq::empty());
    let mut i: usize = 0;
    while i < program.len()
        invariant
            i <= program@.len(),
            all == viewed(program@),
            instructions == viewed(isa.instructions@),
            effects_known(all, instructions),
            effect_views(none@) == Seq::<EffectV>::empty(),
            effects@.len() == i,
            forall|j: int|
                0 <= j < i ==> decoded_effects(all[j], instructions, Seq::empty()) == Some(
                    effect_views((#[trigger] effects@[j])@),
                ),
        decreases program@.len() - i,
    {
        assert(all[i as int] == program@[i as int]@);
        effects.push(instruction_to_lowered_effects(&program[i], isa, &none));
        i += 1;
    }
    proof {
        let rows = effect_rows(effects@);
        assert forall|j: int| 0 <= j < effects@.len() implies #[trigger] rows[j]
            == program_effects(all, instructions)[j] && uses_defined(rows[j]) by {
            assert(decoded_effects(all[j], instructions, Seq::empty()) == Some(
                effect_views(effects@[j]@),
            ));
        }
        assert(rows =~= program_effects(all, instructions));
    }
    effects
}

impl<'a> ProgramAnalysis<'a> {
    /// Splits a program into blocks, at their borders or at every instruction.
    fn split(program: Vec<DecodedInstruction>, isa: &'a ISA, every: bool) -> (r: Self)
        requires
            program@.len() < usize::MAX,
            branches_resolved(viewed(program@)),
            effects_known(viewed(program@), viewed(isa.instructions@)),
        ensures
            viewed(r.program@) == blocks_of(
                viewed(program@),
                every,
                program_effects(viewed(program@), viewed(isa.instructions@)),
                viewed(isa.registers@),
            ),
            successors_exist(viewed(r.program@)),
            *r.isa == *isa,
    {
        let ghost all = viewed(program@);
        let ghost instructions = viewed(isa.instructions@);
        let ghost rows = program_effects(all, instructions);
        let effects = lower_program(&program, isa);
        let starts = find_block_starts(&program, every);
        proof {
            lemma_starts(all, every);
        }
        let mut blocks: Vec<BasicBlock> = Vec::new();
        let mut k: usize = 0;
        while k < starts.len() - 1
            invariant
                starts@.len() > 0,
                k + 1 <= starts@.len(),
                all == viewed(program@),
                rows == program_effects(all, instructions),
                effect_rows(effects@) == rows,
                program@.len() == effects@.len(),
                branches_resolved(all),
                starts@ == block_starts(all, every),
                forall|i: int, j: int| 0 <= i < j < starts@.len() ==> starts@[i] < starts@[j],
                starts@.last() == all.len(),
                forall|j: int|
                    0 <= j < effects@.len() ==> uses_defined(#[trigger] effect_rows(effects@)[j]),
                blocks@.len() == k,
                forall|j: int|
                    0 <= j < k ==> (#[trigger] blocks@[j])@ == blocks_of(
                        all,
                        every,
                        rows,
                        viewed(isa.registers@),
                    )[j],
            decreases starts@.len() - k,
        {
            assert(starts@[k as int] < starts@[k + 1]);
            assert(starts@[k + 1] <= all.len()) by {
                if k + 1 < starts@.len() - 1 {
                    assert(starts@[k + 1] < starts@[starts@.len() - 1]);
                }
            }
            blocks.push(
                build_block(
                    &program,
                    Ghost(every),
                    &effects,
                    isa,
                    &starts,
                    starts[k],
                    starts[k + 1],
                ),
            );
            k += 1;
        }
        assert(viewed(blocks@) =~= blocks_of(all, every, rows, viewed(isa.registers@)));
        proof {
            lemma_successors_exist(all, every, rows, viewed(isa.registers@));
        }
        ProgramAnalysis { program: blocks, isa }
    }

    /// Splits a program into basic blocks with the registers that they read and write.
    pub fn from_program(program: Vec<DecodedInstruction>, isa: &'a ISA) -> (r: Self)
        requires
            program@.len() < usize::MAX,
            branches_resolved(viewed(program@)),
            effects_known(viewed(program@), viewed(isa.instructions@)),
        ensures
            viewed(r.program@) == blocks_of(
                viewed(program@),
                false,
                program_effects(viewed(program@), viewed(isa.instructions@)),
                viewed(isa.registers@),
            ),
            successors_exist(viewed(r.program@)),
            *r.isa == *isa,
    {
        Self::split(program, isa, false)
    }

    /// Splits a program into blocks of one instruction each.
    pub fn from_program_split_every_instruction(
        program: Vec<DecodedInstruction>,
        isa: &'a ISA,
    ) -> (r: Self)
        requires
            program@.len() < usize::MAX,
            branches_resolved(viewed(program@)),
            effects_known(viewed(program@), viewed(isa.instructions@)),
        ensures
            viewed(r.program@) == blocks_of(
                viewed(program@),
                true,
                program_effects(viewed(program@), viewed(isa.instructions@)),
                viewed(isa.registers@),
            ),
            successors_exist(viewed(r.program@)),
            *r.isa == *isa,
    {
        Self::split(program, isa, true)
    }
}

/// Every successor of a program's block is a block of the program.
pub proof fn lemma_successors_exist(
    program: Seq<DecodedV>,
    every: bool,
    effects: Seq<Seq<EffectV>>,
    registers: Seq<ArchitecturalRegister>,
)
    requires
        program.len() < usize::MAX,
        branches_resolved(program),
    ensures
        successors_exist(blocks_of(program, every, effects, registers)),
{
    let blocks = blocks_of(program, every, effects, registers);
    let starts = block_starts(program, every);
    lemma_starts(program, every);
    lemma_boundaries(program, every, program.len() + 1);
    lemma_starts_bounded(program, every);
    assert forall|i: int, k: int|
        0 <= i < blocks.len() && 0 <= k < blocks[i].next.len() implies (
    #[trigger] blocks[i].next[k]) < blocks.len() by {
        let end = starts[i + 1] as int;
        let next = successors(program, end);
        lemma_target(program, end - 1);
        assert(starts[i] < starts[i + 1]);
        assert(end <= program.len()) by {
            if i + 1 < starts.len() - 1 {
                assert(starts[i + 1] < starts[starts.len() - 1]);
            }
        }
        let to = next[k];
        assert(blocks[i].next[k] == block_at(starts, to, 0));
        assert(0 <= to < program.len() && is_boundary(program, every, to)) by {
            assert(to == end || target_of(program, end - 1) == Some(Some(to)));
            if to == end && k == 0 && end != program.len() {
                assert(starts[i + 1] < program.len() + 1 && is_boundary(
                    program,
                    every,
                    starts[i + 1] as int,
                ));
            }
        }
        let j = choose|j: int| 0 <= j < starts.len() && starts[j] == to;
        lemma_block_at(starts, to, 0, j);
        if j == starts.len() - 1 {
            assert(starts[j] == program.len());
        }
    }
}

/// There are no more starts than instructions, but for the end.
pub(crate) proof fn lemma_starts_bounded(program: Seq<DecodedV>, every: bool)
    ensures
        block_starts(program, every).len() <= program.len() + 1,
{
    lemma_boundaries_bounded(program, every, program.len() + 1);
}

proof fn lemma_boundaries_bounded(program: Seq<DecodedV>, every: bool, upto: nat)
    ensures
        boundaries(program, every, upto).len() <= upto,
    decreases upto,
{
    if upto > 0 {
        lemma_boundaries_bounded(program, every, (upto - 1) as nat);
    }
}

/// The instructions of the first blocks, one block after the other.
pub open spec fn joined_instructions(blocks: Seq<BlockV>, n: nat) -> Seq<DecodedV>
    decreases n,
{
    if n == 0 {
        seq![]
    } else {
        joined_instructions(blocks, (n - 1) as nat) + blocks[n - 1].instructions
    }
}

/// The blocks hold the program: each instruction once, in order.
pub proof fn lemma_blocks_hold_program(
    program: Seq<DecodedV>,
    every: bool,
    effects: Seq<Seq<EffectV>>,
    registers: Seq<ArchitecturalRegister>,
)
    requires
        program.len() < usize::MAX,
    ensures
        ({
            let blocks = blocks_of(program, every, effects, registers);
            joined_instructions(blocks, blocks.len()) == program
        }),
{
    let blocks = blocks_of(program, every, effects, registers);
    lemma_starts(program, every);
    lemma_joined_prefix(program, every, effects, registers, blocks.len());
    assert(program.take(program.len() as int) =~= program);
}

proof fn lemma_joined_prefix(
    program: Seq<DecodedV>,
    every: bool,
    effects: Seq<Seq<EffectV>>,
    registers: Seq<ArchitecturalRegister>,
    n: nat,
)
    requires
        program.len() < usize::MAX,
        n < block_starts(program, every).len(),
    ensures
        block_starts(program, every)[n as int] <= program.len(),
        joined_instructions(blocks_of(program, every, effects, registers), n) == program.take(
            block_starts(program, every)[n as int] as int,
        ),
    decreases n,
{
    let starts = block_starts(program, every);
    lemma_starts(program, every);
    if n == 0 {
        assert(program.take(0) =~= seq![]);
    } else {
        lemma_joined_prefix(program, every, effects, registers, (n - 1) as nat);
        assert(starts[n - 1] < starts[n as int]);
        if n < starts.len() - 1 {
            assert(starts[n as int] < starts[starts.len() - 1]);
        }
        let from = starts[n - 1] as int;
        let to = starts[n as int] as int;
        assert(program.take(from) + program.subrange(from, to) =~= program.take(to));
    }
}

/// An instruction that must stay as it is, and is no branch, is alone in its block.
pub proof fn lemma_static_alone(
    program: Seq<DecodedV>,
    every: bool,
    effects: Seq<Seq<EffectV>>,
    registers: Seq<ArchitecturalRegister>,
    k: int,
    i: int,
)
    requires
        program.len() < usize::MAX,
        0 <= k < blocks_of(program, every, effects, registers).len(),
        0 <= i < blocks_of(program, every, effects, registers)[k].instructions.len(),
        starts_block(blocks_of(program, every, effects, registers)[k].instructions[i]),
    ensures
        blocks_of(program, every, effects, registers)[k].instructions.len() == 1,
{
    let starts = block_starts(program, every);
    lemma_starts(program, every);
    lemma_boundaries(program, every, program.len() + 1);
    let from = starts[k] as int;
    let to = starts[k + 1] as int;
    assert(starts[k] < starts[k + 1]);
    if k + 1 < starts.len() - 1 {
        assert(starts[k + 1] < starts[starts.len() - 1]);
    }
    let at = from + i;
    assert(program.subrange(from, to)[i] == program[at]);
    assert(is_boundary(program, every, at));
    assert(ends_block(program[at + 1 - 1]));
    assert(is_boundary(program, every, at + 1));
    lemma_no_start_between(program, every, k, at);
    lemma_no_start_between(program, every, k, at + 1);
}

/// No boundary lies within a block.
pub(crate) proof fn lemma_no_start_between(program: Seq<DecodedV>, every: bool, k: int, at: int)
    requires
        program.len() < usize::MAX,
        0 <= k < block_starts(program, every).len() - 1,
        is_boundary(program, every, at),
        0 <= at <= program.len(),
    ensures
        at <= block_starts(program, every)[k] || block_starts(program, every)[k + 1] <= at,
{
    let starts = block_starts(program, every);
    lemma_starts(program, every);
    lemma_boundaries(program, every, program.len() + 1);
    let j = choose|j: int| 0 <= j < starts.len() && starts[j] == at;
    if j < k {
        assert(starts[j] < starts[k]);
    } else if j > k + 1 {
        assert(starts[k + 1] < starts[j]);
    }
}

/// With every instruction split off, each block is one instruction.
pub proof fn lemma_split_every(
    program: Seq<DecodedV>,
    effects: Seq<Seq<EffectV>>,
    registers: Seq<ArchitecturalRegister>,
)
    requires
        program.len() < usize::MAX,
    ensures
        blocks_of(program, true, effects, registers).len() == program.len(),
        forall|i: int|
            0 <= i < program.len() ==> (#[trigger] blocks_of(program, true, effects, registers)[i]).instructions
                == seq![program[i]],
{
    lemma_boundaries_every(program, program.len() + 1);
    assert forall|i: int| 0 <= i < program.len() implies (
    #[trigger] blocks_of(program, true, effects, registers)[i]).instructions == seq![program[i]] by {
        assert(program.subrange(i, i + 1) =~= seq![program[i]]);
    }
}

proof fn lemma_boundaries_every(program: Seq<DecodedV>, upto: nat)
    requires
        upto <= program.len() + 1,
        program.len() < usize::MAX,
    ensures
        boundaries(program, true, upto).len() == upto,
        forall|i: int| 0 <= i < upto ==> #[trigger] boundaries(program, true, upto)[i] == i,
    decreases upto,
{
    if upto > 0 {
        lemma_boundaries_every(program, (upto - 1) as nat);
        assert(is_boundary(program, true, upto - 1));
    }
}

/// The families of registers are closed under propagation: what leaves a block and is not
/// written in it enters it, and what enters a successor leaves the block.
pub open spec fn closed_under_flow(
    blocks: Seq<BlockV>,
    ins: Seq<Set<ArchitecturalRegister>>,
    outs: Seq<Set<ArchitecturalRegister>>,
) -> bool {
    &&& ins.len() == blocks.len()
    &&& outs.len() == blocks.len()
    &&& forall|i: int|
        0 <= i < blocks.len() ==> #[trigger] outs[i].difference(blocks[i].consumed).subset_of(
            ins[i],
        )
    &&& forall|i: int, k: int|
        0 <= i < blocks.len() && 0 <= k < blocks[i].next.len() ==> ins[(
        #[trigger] blocks[i].next[k]) as int].subset_of(outs[i])
}

/// The live registers of every block are among those of the families.
pub open spec fn live_within(
    blocks: Seq<BlockV>,
    ins: Seq<Set<ArchitecturalRegister>>,
    outs: Seq<Set<ArchitecturalRegister>>,
) -> bool {
    forall|i: int|
        0 <= i < blocks.len() ==> (#[trigger] blocks[i]).live_in.subset_of(ins[i])
            && blocks[i].live_out.subset_of(outs[i])
}

/// The registers that are live on entry, block by block.
pub open spec fn live_ins(blocks: Seq<BlockV>) -> Seq<Set<ArchitecturalRegister>> {
    Seq::new(blocks.len(), |i: int| blocks[i].live_in)
}

/// The registers that are live on exit, block by block.
pub open spec fn live_outs(blocks: Seq<BlockV>) -> Seq<Set<ArchitecturalRegister>> {
    Seq::new(blocks.len(), |i: int| blocks[i].live_out)
}

/// Every successor is a block.
pub open spec fn successors_exist(blocks: Seq<BlockV>) -> bool {
    forall|i: int, k: int|
        0 <= i < blocks.len() && 0 <= k < blocks[i].next.len() ==> (#[trigger] blocks[i].next[k])
            < blocks.len()
}

/// Only the live registers of the blocks differ.
pub open spec fn same_but_live(a: Seq<BlockV>, b: Seq<BlockV>) -> bool {
    &&& a.len() == b.len()
    &&& forall|i: int|
        0 <= i < a.len() ==> (BlockV {
            live_in: Set::empty(),
            live_out: Set::empty(),
            ..#[trigger] a[i]
        }) == (BlockV { live_in: Set::empty(), live_out: Set::empty(), ..b[i] })
}

/// The least live registers that hold what the blocks start with and are closed under flow.
pub open spec fn is_least_flow(start: Seq<BlockV>, end: Seq<BlockV>) -> bool {
    &&& same_but_live(start, end)
    &&& live_within(start, live_ins(end), live_outs(end))
    &&& closed_under_flow(end, live_ins(end), live_outs(end))
    &&& forall|
        ins: Seq<Set<ArchitecturalRegister>>,
        outs: Seq<Set<ArchitecturalRegister>>,
    | #[trigger]
        closed_under_flow(start, ins, outs) && live_within(start, ins, outs) ==> live_within(
            end,
            ins,
            outs,
        )
}

/// How many live registers the blocks have in all.
spec fn live_total(blocks: Seq<BlockV>) -> nat
    decreases blocks.len(),
{
    if blocks.len() == 0 {
        0
    } else {
        live_total(blocks.drop_last()) + blocks.last().live_in.len()
            + blocks.last().live_out.len()
    }
}

/// All live registers are among the given ones.
spec fn live_bounded(blocks: Seq<BlockV>, registers: Set<ArchitecturalRegister>) -> bool {
    forall|i: int|
        0 <= i < blocks.len() ==> (#[trigger] blocks[i]).live_in.subset_of(registers)
            && blocks[i].live_out.subset_of(registers)
}

/// The registers that are live in some block.
spec fn live_registers(blocks: Seq<BlockV>) -> Set<ArchitecturalRegister>
    decreases blocks.len(),
{
    if blocks.len() == 0 {
        Set::empty()
    } else {
        live_registers(blocks.drop_last()).union(blocks.last().live_in).union(
            blocks.last().live_out,
        )
    }
}

spec fn live_finite(blocks: Seq<BlockV>) -> bool {
    forall|i: int|
        0 <= i < blocks.len() ==> (#[trigger] blocks[i]).live_in.finite()
            && blocks[i].live_out.finite()
}

proof fn lemma_live_registers(blocks: Seq<BlockV>)
    requires
        live_finite(blocks),
    ensures
        live_registers(blocks).finite(),
        live_bounded(blocks, live_registers(blocks)),
    decreases blocks.len(),
{
    if blocks.len() > 0 {
        let before = blocks.drop_last();
        assert forall|i: int| 0 <= i < before.len() implies (
        #[trigger] before[i]).live_in.finite() && before[i].live_out.finite() by {
            assert(before[i] == blocks[i]);
        }
        lemma_live_registers(before);
        assert(blocks[blocks.len() - 1].live_in.finite());
        assert forall|i: int| 0 <= i < blocks.len() implies (
        #[trigger] blocks[i]).live_in.subset_of(live_registers(blocks))
            && blocks[i].live_out.subset_of(live_registers(blocks)) by {
            if i < blocks.len() - 1 {
                assert(before[i] == blocks[i]);
            }
        }
    }
}

proof fn lemma_live_total_bound(blocks: Seq<BlockV>, registers: Set<ArchitecturalRegister>)
    requires
        registers.finite(),
        live_bounded(blocks, registers),
    ensures
        live_total(blocks) <= 2 * blocks.len() * registers.len(),
    decreases blocks.len(),
{
    if blocks.len() > 0 {
        let before = blocks.drop_last();
        assert forall|i: int| 0 <= i < before.len() implies (
        #[trigger] before[i]).live_in.subset_of(registers) && before[i].live_out.subset_of(
            registers,
        ) by {
            assert(before[i] == blocks[i]);
        }
        lemma_live_total_bound(before, registers);
        let last = blocks[blocks.len() - 1];
        assert(last.live_in.subset_of(registers));
        vstd::set_lib::lemma_len_subset(last.live_in, registers);
        vstd::set_lib::lemma_len_subset(last.live_out, registers);
        let n = blocks.len() as int;
        let m = registers.len() as int;
        assert(2 * n * m == 2 * (n - 1) * m + 2 * m) by (nonlinear_arith);
    }
}

/// Growing the live registers of one block grows the total.
proof fn lemma_live_total_grows(blocks: Seq<BlockV>, i: int, block: BlockV)
    requires
        0 <= i < blocks.len(),
        blocks[i].live_in.subset_of(block.live_in),
        blocks[i].live_out.subset_of(block.live_out),
        block.live_in.finite(),
        block.live_out.finite(),
    ensures
        live_total(blocks.update(i, block)) >= live_total(blocks),
        (block.live_in != blocks[i].live_in || block.live_out != blocks[i].live_out)
            ==> live_total(blocks.update(i, block)) > live_total(blocks),
    decreases blocks.len(),
{
    let updated = blocks.update(i, block);
    if i == blocks.len() - 1 {
        assert(updated.drop_last() =~= blocks.drop_last());
        vstd::set_lib::lemma_len_subset(blocks[i].live_in, block.live_in);
        vstd::set_lib::lemma_len_subset(blocks[i].live_out, block.live_out);
        if block.live_in != blocks[i].live_in && blocks[i].live_in.len() == block.live_in.len() {
            vstd::set_lib::lemma_subset_equality(blocks[i].live_in, block.live_in);
        }
        if block.live_out != blocks[i].live_out && blocks[i].live_out.len()
            == block.live_out.len() {
            vstd::set_lib::lemma_subset_equality(blocks[i].live_out, block.live_out);
        }
    } else {
        lemma_live_total_grows(blocks.drop_last(), i, block);
        assert(updated.drop_last() =~= blocks.drop_last().update(i, block));
        assert(updated.last() == blocks.last());
    }
}

/// What a block passes on from its successors.
spec fn successor_ins(blocks: Seq<BlockV>, i: int, n: int) -> Set<ArchitecturalRegister> {
    Set::new(
        |r: ArchitecturalRegister|
            exists|k: int|
                0 <= k < n && blocks[(#[trigger] blocks[i].next[k]) as int].live_in.contains(r),
    )
}

/// One block after a step of propagation.
spec fn stepped(blocks: Seq<BlockV>, i: int) -> BlockV {
    BlockV {
        live_in: blocks[i].live_in.union(blocks[i].live_out.difference(blocks[i].consumed)),
        live_out: blocks[i].live_out.union(
            successor_ins(blocks, i, blocks[i].next.len() as int),
        ),
        ..blocks[i]
    }
}

/// A step of propagation stays within every closed family.
proof fn lemma_step_within(
    blocks: Seq<BlockV>,
    i: int,
    ins: Seq<Set<ArchitecturalRegister>>,
    outs: Seq<Set<ArchitecturalRegister>>,
)
    requires
        0 <= i < blocks.len(),
        successors_exist(blocks),
        closed_under_flow(blocks, ins, outs),
        live_within(blocks, ins, outs),
    ensures
        live_within(blocks.update(i, stepped(blocks, i)), ins, outs),
{
    let next = blocks.update(i, stepped(blocks, i));
    assert(blocks[i].live_out.subset_of(outs[i]));
    assert(outs[i].difference(blocks[i].consumed).subset_of(ins[i]));
    assert forall|r: ArchitecturalRegister| stepped(blocks, i).live_out.contains(r) implies outs[i].contains(
        r,
    ) by {
        if !blocks[i].live_out.contains(r) {
            let k = choose|k: int|
                0 <= k < blocks[i].next.len() && blocks[(
                #[trigger] blocks[i].next[k]) as int].live_in.contains(r);
            let s = blocks[i].next[k] as int;
            assert(blocks[s].live_in.subset_of(ins[s]));
            assert(ins[s].subset_of(outs[i]));
        }
    }
    assert forall|j: int| 0 <= j < next.len() implies (#[trigger] next[j]).live_in.subset_of(ins[j])
        && next[j].live_out.subset_of(outs[j]) by {
        assert(blocks[j].live_in.subset_of(ins[j]));
    }
}

/// Blocks that differ only in live registers have the same closed families.
proof fn lemma_same_flow(
    a: Seq<BlockV>,
    b: Seq<BlockV>,
    ins: Seq<Set<ArchitecturalRegister>>,
    outs: Seq<Set<ArchitecturalRegister>>,
)
    requires
        same_but_live(a, b),
    ensures
        closed_under_flow(a, ins, outs) == closed_under_flow(b, ins, outs),
        successors_exist(a) == successors_exist(b),
{
    assert forall|i: int| 0 <= i < a.len() implies (#[trigger] a[i]).consumed == b[i].consumed
        && a[i].next == b[i].next by {
        let x = BlockV { live_in: Set::empty(), live_out: Set::empty(), ..a[i] };
        let y = BlockV { live_in: Set::empty(), live_out: Set::empty(), ..b[i] };
        assert(x == y);
        assert(x.consumed == a[i].consumed && y.consumed == b[i].consumed);
        assert(x.next == a[i].next && y.next == b[i].next);
    }
    if closed_under_flow(a, ins, outs) {
        assert forall|i: int| 0 <= i < b.len() implies #[trigger] outs[i].difference(
            b[i].consumed,
        ).subset_of(ins[i]) by {
            assert(a[i].consumed == b[i].consumed);
            assert(outs[i].difference(a[i].consumed).subset_of(ins[i]));
        }
        assert forall|i: int, k: int| 0 <= i < b.len() && 0 <= k < b[i].next.len() implies ins[(
        #[trigger] b[i].next[k]) as int].subset_of(outs[i]) by {
            assert(a[i].next == b[i].next);
            assert(ins[a[i].next[k] as int].subset_of(outs[i]));
        }
    }
    if closed_under_flow(b, ins, outs) {
        assert forall|i: int| 0 <= i < a.len() implies #[trigger] outs[i].difference(
            a[i].consumed,
        ).subset_of(ins[i]) by {
            assert(a[i].consumed == b[i].consumed);
            assert(outs[i].difference(b[i].consumed).subset_of(ins[i]));
        }
        assert forall|i: int, k: int| 0 <= i < a.len() && 0 <= k < a[i].next.len() implies ins[(
        #[trigger] a[i].next[k]) as int].subset_of(outs[i]) by {
            assert(a[i].next == b[i].next);
            assert(ins[b[i].next[k] as int].subset_of(outs[i]));
        }
    }
    if successors_exist(a) {
        assert forall|i: int, k: int| 0 <= i < b.len() && 0 <= k < b[i].next.len() implies (
        #[trigger] b[i].next[k]) < b.len() by {
            assert(a[i].next == b[i].next);
            assert(a[i].next[k] < a.len());
        }
    }
    if successors_exist(b) {
        assert forall|i: int, k: int| 0 <= i < a.len() && 0 <= k < a[i].next.len() implies (
        #[trigger] a[i].next[k]) < a.len() by {
            assert(a[i].next == b[i].next);
            assert(b[i].next[k] < b.len());
        }
    }
}

/// What holds of the blocks during propagation.
spec fn flow_invariant(
    start: Seq<BlockV>,
    now: Seq<BlockV>,
    registers: Set<ArchitecturalRegister>,
) -> bool {
    &&& same_but_live(start, now)
    &&& successors_exist(now)
    &&& live_finite(now)
    &&& live_bounded(now, registers)
    &&& live_within(start, live_ins(now), live_outs(now))
    &&& forall|
        ins: Seq<Set<ArchitecturalRegister>>,
        outs: Seq<Set<ArchitecturalRegister>>,
    | #[trigger]
        closed_under_flow(start, ins, outs) && live_within(start, ins, outs) ==> live_within(
            now,
            ins,
            outs,
        )
}

/// A step of propagation keeps what holds of the blocks.
proof fn lemma_step_invariant(
    start: Seq<BlockV>,
    now: Seq<BlockV>,
    registers: Set<ArchitecturalRegister>,
    i: int,
    block: BlockV,
)
    requires
        0 <= i < now.len(),
        flow_invariant(start, now, registers),
        block == stepped(now, i),
        block.live_in.finite(),
        block.live_out.finite(),
    ensures
        flow_invariant(start, now.update(i, block), registers),
{
    let next = now.update(i, block);
    assert forall|j: int| 0 <= j < start.len() implies (BlockV {
        live_in: Set::empty(),
        live_out: Set::empty(),
        ..#[trigger] start[j]
    }) == (BlockV { live_in: Set::empty(), live_out: Set::empty(), ..next[j] }) by {
        assert((BlockV { live_in: Set::empty(), live_out: Set::empty(), ..start[j] }) == (BlockV {
            live_in: Set::empty(),
            live_out: Set::empty(),
            ..now[j]
        }));
    }
    lemma_same_flow(start, next, seq![], seq![]);
    lemma_same_flow(start, now, seq![], seq![]);
    assert forall|r: ArchitecturalRegister| block.live_out.contains(r) implies registers.contains(
        r,
    ) by {
        assert(now[i].live_out.subset_of(registers));
        if !now[i].live_out.contains(r) {
            let k = choose|k: int|
                0 <= k < now[i].next.len() && now[(
                #[trigger] now[i].next[k]) as int].live_in.contains(r);
            assert(now[now[i].next[k] as int].live_in.subset_of(registers));
        }
    }
    assert forall|j: int| 0 <= j < next.len() implies (#[trigger] next[j]).live_in.subset_of(
        registers,
    ) && next[j].live_out.subset_of(registers) && next[j].live_in.finite()
        && next[j].live_out.finite() by {
        assert(now[j].live_in.subset_of(registers) && now[j].live_in.finite());
        assert(now[i].live_out.subset_of(registers));
    }
    assert forall|j: int| 0 <= j < start.len() implies (#[trigger] start[j]).live_in.subset_of(
        live_ins(next)[j],
    ) && start[j].live_out.subset_of(live_outs(next)[j]) by {
        assert(start[j].live_in.subset_of(live_ins(now)[j]));
    }
    assert forall|
        ins: Seq<Set<ArchitecturalRegister>>,
        outs: Seq<Set<ArchitecturalRegister>>,
    | #[trigger]
        closed_under_flow(start, ins, outs) && live_within(start, ins, outs) implies live_within(
        next,
        ins,
        outs,
    ) by {
        lemma_same_flow(start, now, ins, outs);
        lemma_step_within(now, i, ins, outs);
    }
}

/// The live registers that the successors of a block need.
fn collect_successor_ins(program: &Vec<BasicBlock>, i: usize) -> (r: OrderedSet<
    ArchitecturalRegister,
>)
    requires
        i < program@.len(),
        successors_exist(viewed(program@)),
    ensures
        r@ == successor_ins(viewed(program@), i as int, viewed(program@)[i as int].next.len() as int),
{
    let ghost blocks = viewed(program@);
    let next = &program[i].next_blocks;
    assert(blocks[i as int] == program@[i as int]@);
    let mut r: OrderedSet<ArchitecturalRegister> = OrderedSet::new();
    let mut k: usize = 0;
    assert(r@ =~= successor_ins(blocks, i as int, 0));
    while k < next.len()
        invariant
            k <= next@.len(),
            i < program@.len(),
            blocks == viewed(program@),
            next@ == blocks[i as int].next,
            successors_exist(blocks),
            r@ == successor_ins(blocks, i as int, k as int),
        decreases next@.len() - k,
    {
        assert(blocks[i as int].next[k as int] < blocks.len());
        let s = next[k];
        assert(blocks[s as int] == program@[s as int]@);
        r.extend(&program[s].live_in_regs);
        k += 1;
        assert(r@ =~= successor_ins(blocks, i as int, k as int));
    }
    r
}

impl<'a> ProgramAnalysis<'a> {
    /// Completes the computing of live-out and live-in registers
    ///
    /// Liveliness analysis is simple. If a register is live-out at a basic block node, and is
    /// not overwritten, it is also live-in at that node. If a register is live-in at a successor
    /// node, it is live-out at the node.
    pub fn compute_liveliness(&mut self)
        requires
            successors_exist(viewed(old(self).program@)),
        ensures
            is_least_flow(viewed(old(self).program@), viewed(final(self).program@)),
            *final(self).isa == *old(self).isa,
    {
        let ghost start = viewed(self.program@);
        let ghost registers = live_registers(start);
        proof {
            assert forall|i: int| 0 <= i < start.len() implies (
            #[trigger] start[i]).live_in.finite() && start[i].live_out.finite() by {
                self.program@[i].live_in_regs.lemma_finite();
                self.program@[i].live_out_regs.lemma_finite();
                assert(start[i] == self.program@[i]@);
            }
            lemma_live_registers(start);
            lemma_live_total_bound(start, registers);
        }
        let ghost most = 2 * start.len() * registers.len();
        let mut changed = true;
        while changed
            invariant
                registers.finite(),
                most == 2 * start.len() * registers.len(),
                flow_invariant(start, viewed(self.program@), registers),
                live_total(viewed(self.program@)) <= most,
                !changed ==> closed_under_flow(
                    viewed(self.program@),
                    live_ins(viewed(self.program@)),
                    live_outs(viewed(self.program@)),
                ),
                *self.isa == *old(self).isa,
            decreases
                    most - live_total(viewed(self.program@)) + (if changed {
                        1int
                    } else {
                        0int
                    }),
        {
            let ghost before = viewed(self.program@);
            changed = false;
            let mut i: usize = 0;
            while i < self.program.len()
                invariant
                    i <= self.program@.len(),
                    registers.finite(),
                    most == 2 * start.len() * registers.len(),
                    flow_invariant(start, viewed(self.program@), registers),
                    live_total(viewed(self.program@)) <= most,
                    live_total(viewed(self.program@)) >= live_total(before),
                    changed ==> live_total(viewed(self.program@)) > live_total(before),
                    !changed ==> viewed(self.program@) == before,
                    !changed ==> forall|j: int|
                        0 <= j < i ==> stepped(before, j).live_in == before[j].live_in && stepped(
                            before,
                            j,
                        ).live_out == (#[trigger] before[j]).live_out,
                    *self.isa == *old(self).isa,
                decreases self.program@.len() - i,
            {
                let ghost now = viewed(self.program@);
                assert(now[i as int] == self.program@[i as int]@);
                let new_out = collect_successor_ins(&self.program, i);
                let block = &self.program[i];
                let new_in = block.live_out_regs.difference(&block.consumed_registers);
                let mut live_in = block.live_in_regs.clone();
                let mut live_out = block.live_out_regs.clone();
                if !new_in.is_subset(&live_in) || !new_out.is_subset(&live_out) {
                    changed = true;
                }
                live_in.extend(&new_in);
                live_out.extend(&new_out);
                let updated = BasicBlock {
                    start_instruction_idx: block.start_instruction_idx,
                    live_in_regs: live_in,
                    read_regs: block.read_regs.clone(),
                    consumed_registers: block.consumed_registers.clone(),
                    live_out_regs: live_out,
                    next_blocks: copy_indices(&block.next_blocks),
                    instructions: duplicate_all(&block.instructions),
                };
                proof {
                    updated.live_in_regs.lemma_finite();
                    updated.live_out_regs.lemma_finite();
                    assert(updated@ == stepped(now, i as int));
                    lemma_step_invariant(start, now, registers, i as int, updated@);
                    lemma_live_total_grows(now, i as int, updated@);
                    assert(new_in@.subset_of(now[i as int].live_in) ==> updated@.live_in
                        =~= now[i as int].live_in);
                    assert(new_out@.subset_of(now[i as int].live_out) ==> updated@.live_out
                        =~= now[i as int].live_out);
                    if !new_in@.subset_of(now[i as int].live_in) {
                        assert(updated@.live_in != now[i as int].live_in);
                    }
                    if !new_out@.subset_of(now[i as int].live_out) {
                        assert(updated@.live_out != now[i as int].live_out);
                    }
                }
                let ghost row = self.program@;
                self.program.set(i, updated);
                proof {
                    assert(viewed(self.program@) =~= now.update(i as int, updated@));
                    lemma_live_total_bound(viewed(self.program@), registers);
                    if !changed {
                        assert(viewed(self.program@) =~= now);
                    }
                }
                i += 1;
            }
            proof {
                if !changed {
                    let blocks = viewed(self.program@);
                    assert forall|j: int| 0 <= j < blocks.len() implies #[trigger] live_outs(
                        blocks,
                    )[j].difference(blocks[j].consumed).subset_of(live_ins(blocks)[j]) by {
                        assert(stepped(before, j).live_in == before[j].live_in);
                        assert forall|r: ArchitecturalRegister| live_outs(blocks)[j].difference(
                            blocks[j].consumed,
                        ).contains(r) implies live_ins(blocks)[j].contains(r) by {
                            assert(stepped(before, j).live_in.contains(r));
                        }
                    }
                    assert forall|j: int, k: int|
                        0 <= j < blocks.len() && 0 <= k < blocks[j].next.len() implies live_ins(
                        blocks,
                    )[(#[trigger] blocks[j].next[k]) as int].subset_of(live_outs(blocks)[j]) by {
                        assert(stepped(before, j).live_out == before[j].live_out);
                        let s = blocks[j].next[k] as int;
                        assert(s < blocks.len());
                        assert forall|r: ArchitecturalRegister| live_ins(blocks)[s].contains(
                            r,
                        ) implies live_outs(blocks)[j].contains(r) by {
                            assert(blocks[blocks[j].next[k] as int].live_in.contains(r));
                            assert(successor_ins(
                                blocks,
                                j,
                                blocks[j].next.len() as int,
                            ).contains(r));
                            assert(stepped(before, j).live_out.contains(r));
                        }
                    }
                }
            }
        }
    }
}

/// Copies a row of indices.
fn copy_indices(indices: &Vec<usize>) -> (r: Vec<usize>)
    ensures
        r@ == indices@,
{
    let mut r: Vec<usize> = Vec::new();
    let mut i: usize = 0;
    while i < indices.len()
        invariant
            i <= indices@.len(),
            r@ == indices@.take(i as int),
        decreases indices@.len() - i,
    {
        r.push(indices[i]);
        i += 1;
        assert(r@ =~= indices@.take(i as int));
    }
    assert(indices@.take(i as int) =~= indices@);
    r
}

} // verus!
