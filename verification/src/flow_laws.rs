//! How a program is cut into blocks, where control goes from a block, and which registers are live
//! at the borders.
use vstd::arithmetic::power2::pow2;
use vstd::prelude::*;

use crate::collapse::collapsed;
use crate::const_eval::{canonical, lemma_canonical_is_mod, lemma_mask, valid_width};
use crate::instruction_semantics::{EffectV, ExprV};
use crate::isa_specification::{ArchitecturalRegister, BranchV, DecodedV};
use crate::program_analysis::{
    block_at, block_starts, blocks_of, branches_resolved, closed_under_flow, consumed_by, index_at,
    is_boundary, is_least_flow, lemma_block_at, lemma_boundaries, lemma_no_start_between,
    lemma_starts, lemma_starts_bounded, lemma_target, live_ins, live_outs, live_within, needed_by,
    same_but_live, successors, successors_exist, target_of, BlockV,
};
use crate::register_uses::{all_reads, all_writes};

verus! {

/// Where the block ends: behind its last instruction.
pub open spec fn end_of(block: BlockV) -> int {
    block.start + block.instructions.len()
}

/// The blocks of a program tile it: each is a piece of it from its start on, none is empty, the
/// first one starts at the beginning, each other one where the one before it ends, and the last
/// one ends at the end.
pub proof fn lemma_blocks_tile(
    program: Seq<DecodedV>,
    every: bool,
    effects: Seq<Seq<EffectV>>,
    registers: Seq<ArchitecturalRegister>,
    k: int,
)
    requires
        program.len() < usize::MAX,
        0 <= k < blocks_of(program, every, effects, registers).len(),
    ensures
        ({
            let blocks = blocks_of(program, every, effects, registers);
            let block = blocks[k];
            &&& block.instructions.len() > 0
            &&& end_of(block) <= program.len()
            &&& block.instructions == program.subrange(block.start as int, end_of(block))
            &&& k == 0 ==> block.start == 0
            &&& k + 1 < blocks.len() ==> blocks[k + 1].start == end_of(block)
            &&& k + 1 == blocks.len() ==> end_of(block) == program.len()
        }),
{
    let starts = block_starts(program, every);
    lemma_starts(program, every);
    assert(starts[k] < starts[k + 1]);
    if k + 1 < starts.len() - 1 {
        assert(starts[k + 1] < starts[starts.len() - 1]);
    }
}

/// A program with instructions has blocks.
pub proof fn lemma_blocks_exist(
    program: Seq<DecodedV>,
    every: bool,
    effects: Seq<Seq<EffectV>>,
    registers: Seq<ArchitecturalRegister>,
)
    requires
        0 < program.len() < usize::MAX,
    ensures
        blocks_of(program, every, effects, registers).len() > 0,
{
    lemma_starts(program, every);
}

/// Within a block nothing is entered and nothing left: before its last instruction there is no
/// branch and no instruction that must stay as it is, and no branch of the program leads behind
/// its first one.
pub proof fn lemma_blocks_are_straight(
    program: Seq<DecodedV>,
    every: bool,
    effects: Seq<Seq<EffectV>>,
    registers: Seq<ArchitecturalRegister>,
    k: int,
    i: int,
)
    requires
        program.len() < usize::MAX,
        0 <= k < blocks_of(program, every, effects, registers).len(),
        0 <= i < blocks_of(program, every, effects, registers)[k].instructions.len() - 1,
    ensures
        ({
            let block = blocks_of(program, every, effects, registers)[k];
            &&& !every
            &&& block.instructions[i].branch_instruction is None
            &&& !block.instructions[i].static_instruction
            &&& block.instructions[i + 1].static_instruction ==> block.instructions[i
                + 1].branch_instruction is Some
            &&& forall|j: int|
                0 <= j < program.len() ==> #[trigger] target_of(program, j) != Some(
                    Some(block.start + i + 1),
                )
        }),
{
    let blocks = blocks_of(program, every, effects, registers);
    lemma_blocks_tile(program, every, effects, registers, k);
    let at = blocks[k].start + i + 1;
    assert(blocks[k].instructions[i] == program[at - 1]);
    assert(blocks[k].instructions[i + 1] == program[at]);
    if is_boundary(program, every, at) {
        lemma_no_start_between(program, every, k, at);
        lemma_starts(program, every);
    }
    assert forall|j: int| 0 <= j < program.len() implies #[trigger] target_of(program, j) != Some(
        Some(at),
    ) by {
        if target_of(program, j) == Some(Some(at)) {
            assert(is_boundary(program, every, at));
        }
    }
}

/// A block starts only where it must: behind a branch or an instruction that must stay as it is,
/// at one that must stay and is no branch, or where a branch of the program leads.
pub proof fn lemma_blocks_are_maximal(
    program: Seq<DecodedV>,
    effects: Seq<Seq<EffectV>>,
    registers: Seq<ArchitecturalRegister>,
    k: int,
)
    requires
        program.len() < usize::MAX,
        0 < k < blocks_of(program, false, effects, registers).len(),
    ensures
        ({
            let at = blocks_of(program, false, effects, registers)[k].start as int;
            ||| program[at - 1].branch_instruction is Some
            ||| program[at - 1].static_instruction
            ||| program[at].static_instruction && program[at].branch_instruction is None
            ||| exists|j: int|
                0 <= j < program.len() && #[trigger] target_of(program, j) == Some(Some(at))
        }),
{
    let starts = block_starts(program, false);
    lemma_starts(program, false);
    lemma_boundaries(program, false, program.len() + 1);
    let at = starts[k] as int;
    assert(is_boundary(program, false, at));
    assert(starts[0] < starts[k] && starts[k] < starts[starts.len() - 1]);
}

/// A relative branch leads to the first instruction whose address is that of the branch plus the
/// offset, modulo the width of the offset. It leads nowhere if there is none, and nothing but a
/// relative branch leads anywhere.
pub proof fn lemma_branch_target(program: Seq<DecodedV>, i: int)
    requires
        0 <= i < program.len(),
    ensures
        match program[i].branch_instruction {
            Some(BranchV::PCRelative(offset)) => match collapsed(
                offset,
                program[i],
                program[i].form.derived_values.len(),
            ) {
                Some(ExprV::Const { value, width }) => valid_width(width) && width < 128 ==> {
                    let to = (program[i].mem_addr + value) % pow2(width as nat) as int;
                    match target_of(program, i) {
                        Some(Some(t)) => {
                            &&& 0 <= t < program.len()
                            &&& program[t].mem_addr == to
                            &&& forall|j: int| 0 <= j < t ==> (#[trigger] program[j]).mem_addr != to
                        },
                        Some(None) => false,
                        None => forall|j: int|
                            0 <= j < program.len() ==> (#[trigger] program[j]).mem_addr != to,
                    }
                },
                _ => target_of(program, i) is None,
            },
            _ => target_of(program, i) == Some(None::<int>),
        },
{
    if let Some(BranchV::PCRelative(offset)) = program[i].branch_instruction {
        if let Some(ExprV::Const { value, width }) = collapsed(
            offset,
            program[i],
            program[i].form.derived_values.len(),
        ) {
            if valid_width(width) && width < 128 {
                let addr = program[i].mem_addr as u128;
                let (x, y) = (canonical(addr, width), canonical(value, width));
                let p = pow2(width as nat) as int;
                lemma_canonical_is_mod(addr, width);
                lemma_canonical_is_mod(value, width);
                lemma_mask(width);
                lemma_mask((width + 1) as u16);
                let sum = (x + y) as u128;
                assert(x + y <= u128::MAX);
                lemma_canonical_is_mod(sum, width);
                vstd::arithmetic::div_mod::lemma_add_mod_noop(addr as int, value as int, p);
                assert(canonical(sum, width) == (addr + value) % p);
                lemma_found_first(program, canonical(sum, width), 0);
            }
        }
    }
}

proof fn lemma_found_first(program: Seq<DecodedV>, addr: u128, from: int)
    requires
        0 <= from <= program.len(),
    ensures
        match index_at(program, addr, from) {
            Some(t) => {
                &&& from <= t < program.len()
                &&& program[t].mem_addr == addr
                &&& forall|j: int| from <= j < t ==> (#[trigger] program[j]).mem_addr != addr
            },
            None => forall|j: int|
                from <= j < program.len() ==> (#[trigger] program[j]).mem_addr != addr,
        },
    decreases program.len() - from,
{
    if from < program.len() && program[from].mem_addr != addr {
        lemma_found_first(program, addr, from + 1);
    }
}

/// The block that starts at an instruction where blocks start.
proof fn lemma_block_found(
    program: Seq<DecodedV>,
    every: bool,
    effects: Seq<Seq<EffectV>>,
    registers: Seq<ArchitecturalRegister>,
    to: int,
)
    requires
        program.len() < usize::MAX,
        0 <= to < program.len(),
        is_boundary(program, every, to),
    ensures
        ({
            let blocks = blocks_of(program, every, effects, registers);
            let found = block_at(block_starts(program, every), to, 0);
            &&& found < blocks.len()
            &&& blocks[found as int].start == to
            &&& forall|j: int|
                0 <= j < blocks.len() && (#[trigger] blocks[j]).start == to ==> j == found
        }),
{
    let starts = block_starts(program, every);
    lemma_starts(program, every);
    lemma_boundaries(program, every, program.len() + 1);
    lemma_starts_bounded(program, every);
    let k = choose|k: int| 0 <= k < starts.len() && starts[k] == to;
    lemma_block_at(starts, to, 0, k);
    assert(k < starts.len() - 1);
    let blocks = blocks_of(program, every, effects, registers);
    assert forall|j: int| 0 <= j < blocks.len() && (#[trigger] blocks[j]).start == to implies j
        == k by {
        assert(starts[j] == to);
        if j < k {
            assert(starts[j] < starts[k]);
        } else if k < j {
            assert(starts[k] < starts[j]);
        }
    }
}

/// Control goes from a block to the block that starts where it ends, and to the block that starts
/// where its last instruction branches to, and to no other.
pub proof fn lemma_next_blocks(
    program: Seq<DecodedV>,
    every: bool,
    effects: Seq<Seq<EffectV>>,
    registers: Seq<ArchitecturalRegister>,
    k: int,
    j: int,
)
    requires
        program.len() < usize::MAX,
        branches_resolved(program),
        0 <= k < blocks_of(program, every, effects, registers).len(),
        0 <= j < blocks_of(program, every, effects, registers).len(),
    ensures
        ({
            let blocks = blocks_of(program, every, effects, registers);
            let end = end_of(blocks[k]);
            blocks[k].next.contains(j as usize) <==> blocks[j].start == end || target_of(
                program,
                end - 1,
            ) == Some(Some(blocks[j].start as int))
        }),
{
    let blocks = blocks_of(program, every, effects, registers);
    let starts = block_starts(program, every);
    lemma_starts(program, every);
    lemma_starts_bounded(program, every);
    lemma_boundaries(program, every, program.len() + 1);
    lemma_blocks_tile(program, every, effects, registers, k);
    lemma_blocks_tile(program, every, effects, registers, j);
    let end = end_of(blocks[k]);
    assert(starts[k + 1] == end);
    let next = successors(program, end);
    let row = blocks[k].next;
    assert(row.len() == next.len());
    assert forall|n: int| 0 <= n < next.len() implies #[trigger] row[n] == block_at(
        starts,
        next[n],
        0,
    ) by {}
    lemma_target(program, end - 1);
    if end < program.len() {
        assert(is_boundary(program, every, starts[k + 1] as int));
        lemma_block_found(program, every, effects, registers, end);
        assert(next[0] == end);
        assert(row[0] == block_at(starts, end, 0));
    }
    if let Some(Some(t)) = target_of(program, end - 1) {
        assert(is_boundary(program, every, t));
        lemma_block_found(program, every, effects, registers, t);
        let n = next.len() - 1;
        assert(next[n] == t);
        assert(row[n] == block_at(starts, t, 0));
    }
    if row.contains(j as usize) {
        let n = choose|n: int| 0 <= n < row.len() && row[n] == j as usize;
        assert(row[n] == block_at(starts, next[n], 0));
        assert((next[n] == end && end < program.len()) || target_of(program, end - 1) == Some(
            Some(next[n]),
        ));
    }
}

/// Before liveness is propagated, every register of the instruction set is live out of a block
/// whose last instruction branches to a register, and none out of any other block.
pub proof fn lemma_unknown_branch_live(
    program: Seq<DecodedV>,
    every: bool,
    effects: Seq<Seq<EffectV>>,
    registers: Seq<ArchitecturalRegister>,
    k: int,
    r: ArchitecturalRegister,
)
    requires
        program.len() < usize::MAX,
        0 <= k < blocks_of(program, every, effects, registers).len(),
    ensures
        ({
            let block = blocks_of(program, every, effects, registers)[k];
            block.live_out.contains(r) <==> block.instructions.last().branch_instruction == Some(
                BranchV::Register,
            ) && registers.contains(r)
        }),
{
    lemma_blocks_tile(program, every, effects, registers, k);
}

/// After liveness is propagated, every register of the instruction set is live out of a block
/// whose last instruction branches to a register.
pub proof fn lemma_unknown_branch_stays_live(
    program: Seq<DecodedV>,
    every: bool,
    effects: Seq<Seq<EffectV>>,
    registers: Seq<ArchitecturalRegister>,
    blocks: Seq<BlockV>,
    k: int,
    r: ArchitecturalRegister,
)
    requires
        program.len() < usize::MAX,
        is_least_flow(blocks_of(program, every, effects, registers), blocks),
        0 <= k < blocks.len(),
        blocks[k].instructions.last().branch_instruction == Some(BranchV::Register),
        registers.contains(r),
    ensures
        blocks[k].live_out.contains(r),
{
    let start = blocks_of(program, every, effects, registers);
    lemma_unknown_branch_live(program, every, effects, registers, k, r);
    assert(same_but_live(start, blocks));
    assert(start[k].instructions == blocks[k].instructions);
    assert(start[k].live_out.subset_of(live_outs(blocks)[k]));
}

/// A block consumes the registers that some instruction of it writes for sure.
pub proof fn lemma_block_consumes(
    program: Seq<DecodedV>,
    every: bool,
    effects: Seq<Seq<EffectV>>,
    registers: Seq<ArchitecturalRegister>,
    k: int,
    r: ArchitecturalRegister,
)
    requires
        program.len() < usize::MAX,
        0 <= k < blocks_of(program, every, effects, registers).len(),
    ensures
        ({
            let block = blocks_of(program, every, effects, registers)[k];
            block.consumed.contains(r) <==> exists|i: int|
                block.start <= i < end_of(block) && all_writes(#[trigger] effects[i]).contains(r)
        }),
{
    lemma_blocks_tile(program, every, effects, registers, k);
    let block = blocks_of(program, every, effects, registers)[k];
    lemma_consumed(effects, block.start as int, end_of(block), r);
}

proof fn lemma_consumed(
    effects: Seq<Seq<EffectV>>,
    start: int,
    end: int,
    r: ArchitecturalRegister,
)
    requires
        start <= end,
    ensures
        consumed_by(effects, start, end).contains(r) <==> exists|i: int|
            start <= i < end && all_writes(#[trigger] effects[i]).contains(r),
    decreases end - start,
{
    if start < end {
        lemma_consumed(effects, start, end - 1, r);
        if all_writes(effects[end - 1]).contains(r) {
            assert(start <= end - 1 < end);
        }
    }
}

/// A block needs the registers that some instruction of it reads before any instruction of it has
/// written them for sure; they are live in before liveness is propagated.
pub proof fn lemma_block_needs(
    program: Seq<DecodedV>,
    every: bool,
    effects: Seq<Seq<EffectV>>,
    registers: Seq<ArchitecturalRegister>,
    k: int,
    r: ArchitecturalRegister,
)
    requires
        program.len() < usize::MAX,
        0 <= k < blocks_of(program, every, effects, registers).len(),
    ensures
        ({
            let block = blocks_of(program, every, effects, registers)[k];
            &&& block.read.contains(r) <==> exists|i: int|
                block.start <= i < end_of(block) && all_reads(#[trigger] effects[i]).contains(r)
                    && unwritten(effects, block.start as int, i, r)
            &&& block.live_in.contains(r) <==> block.read.contains(r)
        }),
{
    lemma_blocks_tile(program, every, effects, registers, k);
    let block = blocks_of(program, every, effects, registers)[k];
    lemma_needed(effects, block.start as int, end_of(block), r);
}

/// No instruction from `start` to before `end` writes the register for sure.
pub open spec fn unwritten(
    effects: Seq<Seq<EffectV>>,
    start: int,
    end: int,
    r: ArchitecturalRegister,
) -> bool {
    forall|i: int| start <= i < end ==> !all_writes(#[trigger] effects[i]).contains(r)
}

proof fn lemma_needed(
    effects: Seq<Seq<EffectV>>,
    start: int,
    end: int,
    r: ArchitecturalRegister,
)
    requires
        start <= end,
    ensures
        needed_by(effects, start, end).contains(r) <==> exists|i: int|
            start <= i < end && all_reads(#[trigger] effects[i]).contains(r) && unwritten(
                effects,
                start,
                i,
                r,
            ),
    decreases end - start,
{
    if start < end {
        lemma_needed(effects, start, end - 1, r);
        lemma_consumed(effects, start, end - 1, r);
        if all_reads(effects[end - 1]).contains(r) && unwritten(effects, start, end - 1, r) {
            assert(start <= end - 1 < end);
        }
    }
}

/// Each block of the row leads to the one behind it.
pub open spec fn is_path(blocks: Seq<BlockV>, path: Seq<int>) -> bool {
    &&& path.len() > 0
    &&& forall|i: int| 0 <= i < path.len() ==> 0 <= #[trigger] path[i] < blocks.len()
    &&& forall|i: int|
        0 <= i < path.len() - 1 ==> blocks[#[trigger] path[i]].next.contains(path[i + 1] as usize)
}

/// The last block of the path needs the register, or has it live out to begin with and does not
/// write it for sure, and no block before it writes it for sure.
pub open spec fn leads_to_use(
    blocks: Seq<BlockV>,
    path: Seq<int>,
    r: ArchitecturalRegister,
) -> bool {
    &&& is_path(blocks, path)
    &&& blocks[path.last()].live_in.contains(r) || (blocks[path.last()].live_out.contains(r)
        && !blocks[path.last()].consumed.contains(r))
    &&& forall|i: int| 0 <= i < path.len() - 1 ==> !blocks[#[trigger] path[i]].consumed.contains(r)
}

proof fn lemma_path_live(
    start: Seq<BlockV>,
    end: Seq<BlockV>,
    path: Seq<int>,
    at: int,
    r: ArchitecturalRegister,
)
    requires
        is_least_flow(start, end),
        successors_exist(start),
        start.len() <= usize::MAX,
        is_path(start, path),
        0 <= at < path.len(),
        start[path.last()].live_in.contains(r) || (start[path.last()].live_out.contains(r)
            && !start[path.last()].consumed.contains(r)),
        forall|i: int|
            at <= i < path.len() - 1 ==> !start[#[trigger] path[i]].consumed.contains(r),
    ensures
        end[path[at]].live_in.contains(r),
    decreases path.len() - at,
{
    let b = path[at];
    let (ins, outs) = (live_ins(end), live_outs(end));
    assert(start[b].live_in.subset_of(ins[b]) && start[b].live_out.subset_of(outs[b]));
    assert(outs[b].difference(end[b].consumed).subset_of(ins[b]));
    assert(start[b].consumed == end[b].consumed && start[b].next == end[b].next);
    if at < path.len() - 1 {
        lemma_path_live(start, end, path, at + 1, r);
        let next = path[at + 1];
        assert(start[path[at]].next.contains(path[at + 1] as usize));
        let k = choose|k: int| 0 <= k < start[b].next.len() && start[b].next[k] == next as usize;
        assert(ins[end[b].next[k] as int].subset_of(outs[b]));
        assert(!start[path[at]].consumed.contains(r));
    }
}

/// What is needed later is live: where a path leads from a block to one that needs a register, or
/// from which it is live out to begin with, and no block on the way writes it for sure, the register
/// is live out of the block; if the block does not write it for sure either, it is live in too.
pub proof fn lemma_needed_later_is_live(
    start: Seq<BlockV>,
    end: Seq<BlockV>,
    path: Seq<int>,
    r: ArchitecturalRegister,
)
    requires
        is_least_flow(start, end),
        successors_exist(start),
        start.len() <= usize::MAX,
        is_path(start, path),
        start[path.last()].live_in.contains(r) || (start[path.last()].live_out.contains(r)
            && !start[path.last()].consumed.contains(r)),
        path.len() > 1,
        forall|i: int|
            1 <= i < path.len() - 1 ==> !start[#[trigger] path[i]].consumed.contains(r),
    ensures
        end[path[0]].live_out.contains(r),
        !start[path[0]].consumed.contains(r) ==> end[path[0]].live_in.contains(r),
{
    let b = path[0];
    lemma_path_live(start, end, path, 1, r);
    let (ins, outs) = (live_ins(end), live_outs(end));
    assert(start[b].consumed == end[b].consumed && start[b].next == end[b].next);
    assert(start[path[0]].next.contains(path[0int + 1] as usize));
    let k = choose|k: int| 0 <= k < start[b].next.len() && start[b].next[k] == path[1] as usize;
    assert(ins[end[b].next[k] as int].subset_of(outs[b]));
    assert(outs[b].difference(end[b].consumed).subset_of(ins[b]));
}

/// The registers that some path makes live on entry.
spec fn path_ins(blocks: Seq<BlockV>) -> Seq<Set<ArchitecturalRegister>> {
    Seq::new(
        blocks.len(),
        |b: int|
            Set::new(
                |r: ArchitecturalRegister|
                    exists|path: Seq<int>|
                        #[trigger] leads_to_use(blocks, path, r) && path[0] == b,
            ),
    )
}

/// The registers that some path makes live on exit.
spec fn path_outs(blocks: Seq<BlockV>) -> Seq<Set<ArchitecturalRegister>> {
    Seq::new(
        blocks.len(),
        |b: int|
            Set::new(
                |r: ArchitecturalRegister|
                    blocks[b].live_out.contains(r) || exists|path: Seq<int>| #[trigger]
                        leads_to_use(blocks, path, r) && blocks[b].next.contains(
                            path[0] as usize,
                        ),
            ),
    )
}

proof fn lemma_paths_closed(blocks: Seq<BlockV>)
    requires
        successors_exist(blocks),
        blocks.len() <= usize::MAX,
    ensures
        closed_under_flow(blocks, path_ins(blocks), path_outs(blocks)),
        live_within(blocks, path_ins(blocks), path_outs(blocks)),
{
    let (ins, outs) = (path_ins(blocks), path_outs(blocks));
    assert forall|b: int| 0 <= b < blocks.len() implies (#[trigger] blocks[b]).live_in.subset_of(
        ins[b],
    ) && blocks[b].live_out.subset_of(outs[b]) by {
        assert forall|r: ArchitecturalRegister| blocks[b].live_in.contains(r) implies ins[b].contains(
            r,
        ) by {
            let path = seq![b];
            assert(leads_to_use(blocks, path, r));
        }
    }
    assert forall|b: int| 0 <= b < blocks.len() implies #[trigger] outs[b].difference(
        blocks[b].consumed,
    ).subset_of(ins[b]) by {
        assert forall|r: ArchitecturalRegister|
            outs[b].difference(blocks[b].consumed).contains(r) implies ins[b].contains(r) by {
            if blocks[b].live_out.contains(r) {
                let path = seq![b];
                assert(leads_to_use(blocks, path, r));
            } else {
                let path = choose|path: Seq<int>| #[trigger]
                    leads_to_use(blocks, path, r) && blocks[b].next.contains(path[0] as usize);
                let longer = seq![b] + path;
                assert(longer.last() == path.last());
                assert forall|i: int| 0 <= i < longer.len() implies 0 <= #[trigger] longer[i]
                    < blocks.len() by {
                    if i > 0 {
                        assert(longer[i] == path[i - 1]);
                    }
                }
                assert forall|i: int| 0 <= i < longer.len() - 1 implies blocks[
                #[trigger] longer[i]].next.contains(longer[i + 1] as usize)
                    && !blocks[longer[i]].consumed.contains(r) by {
                    assert(longer[i + 1] == path[i]);
                    if i > 0 {
                        assert(longer[i] == path[i - 1]);
                        assert(blocks[path[i - 1]].next.contains(path[i - 1 + 1] as usize));
                    }
                }
                assert(leads_to_use(blocks, longer, r));
                assert(longer[0] == b);
            }
        }
    }
    assert forall|b: int, k: int| 0 <= b < blocks.len() && 0 <= k < blocks[b].next.len() implies ins[
    (#[trigger] blocks[b].next[k]) as int].subset_of(outs[b]) by {
        let n = blocks[b].next[k];
        assert forall|r: ArchitecturalRegister| ins[n as int].contains(r) implies outs[b].contains(
            r,
        ) by {
            let path = choose|path: Seq<int>| #[trigger]
                leads_to_use(blocks, path, r) && path[0] == n as int;
            assert(blocks[b].next.contains(path[0] as usize));
        }
    }
}

/// Nothing is live without need: a register that is live out of a block is so to begin with, or a
/// path leads on from the block to one that needs it, or from which it is live out to begin with,
/// without a sure write on the way.
pub proof fn lemma_live_is_needed_later(
    start: Seq<BlockV>,
    end: Seq<BlockV>,
    b: int,
    r: ArchitecturalRegister,
)
    requires
        is_least_flow(start, end),
        successors_exist(start),
        start.len() <= usize::MAX,
        0 <= b < start.len(),
    ensures
        end[b].live_out.contains(r) ==> start[b].live_out.contains(r) || exists|path: Seq<int>|
            #[trigger] leads_to_use(start, path, r) && start[b].next.contains(path[0] as usize),
        end[b].live_in.contains(r) ==> exists|path: Seq<int>| #[trigger]
            leads_to_use(start, path, r) && path[0] == b,
{
    lemma_paths_closed(start);
    let (ins, outs) = (path_ins(start), path_outs(start));
    assert(live_within(end, ins, outs));
    assert(end[b].live_in.subset_of(ins[b]) && end[b].live_out.subset_of(outs[b]));
}

} // verus!
