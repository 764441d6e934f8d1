//! Lowered effects happen when the effects of the instruction do, at the same places and with the
//! same values; and which registers effects read and write.
use vstd::arithmetic::power2::{lemma2_to64, lemma_pow2_unfold, pow2};
use vstd::prelude::*;

use crate::bit::{all_concrete, bits_value, lemma_value_bound, Bit};
use crate::canonical_form::{node, weight};
use crate::canonical_meaning::steady;
use crate::collapse::{
    binary_node, collapsed, field_bits, flag_expr, immediate_literal, lemma_field_found,
    selected_register, BinaryOp, FlagOp,
};
use crate::collapse_meaning::{describes, lemma_collapse_substitute_and_canonicalize};
use crate::const_eval::{canonical, lemma_canonical_is_mod, AssocCommOp};
use crate::evaluation::{assoc_word, binary_word, eval, eval_chunks, flag_word, State, Word};
use crate::expr_shape::width_of;
use crate::expr_weight::lemma_weight_children;
use crate::instruction_semantics::{children, EffectV, ExprV, OperandV, RegisterV};
use crate::outcome_laws::lemma_named_first;
use crate::isa_specification::{ArchitecturalRegister, DecodedV, FieldV, InstructionV};
use crate::program_analysis::program_effects;
use crate::register_uses::{all_reads, all_writes, effect_parts, effect_reads, reads_of};
use crate::semantic_matching::{
    decoded_effects, lowered_effect, lowered_effects, lowered_expr, named_instruction,
};
use crate::substitute::substituted;
use crate::substitute_meaning::state_after;

verus! {

/// The expression of an instruction has a value after the effects before it, and so has what it
/// is resolved to.
pub open spec fn part_defined(
    part: ExprV,
    instruction: DecodedV,
    previous: Seq<EffectV>,
    state: State,
) -> bool {
    &&& eval(part, state_after(previous, state)) is Some
    &&& collapsed(part, instruction, instruction.form.derived_values.len()) matches Some(e) && {
        &&& eval(substituted(e, previous), state) is Some
        &&& steady(substituted(e, previous), state)
    }
}

/// The guard, the place and the value of an effect have values.
pub open spec fn effect_defined(
    effect: EffectV,
    instruction: DecodedV,
    previous: Seq<EffectV>,
    state: State,
) -> bool {
    match effect {
        EffectV::WriteRegister { guard, register, value } => {
            &&& part_defined(guard, instruction, previous, state)
            &&& part_defined(register, instruction, previous, state)
            &&& part_defined(value, instruction, previous, state)
        },
        EffectV::WriteMemory { guard, address, value, .. } => {
            &&& part_defined(guard, instruction, previous, state)
            &&& part_defined(address, instruction, previous, state)
            &&& part_defined(value, instruction, previous, state)
        },
    }
}

/// The first effect does in the state what the second one does in the later state: they write
/// the same kind of place, under guards, to places and with values that are the same words.
pub open spec fn same_effect(low: EffectV, state: State, effect: EffectV, later: State) -> bool {
    match (low, effect) {
        (
            EffectV::WriteRegister { guard: g, register: p, value: v },
            EffectV::WriteRegister { guard, register, value },
        ) => {
            &&& eval(g, state) == eval(guard, later)
            &&& eval(p, state) == eval(register, later)
            &&& eval(v, state) == eval(value, later)
        },
        (
            EffectV::WriteMemory { guard: g, address: p, value: v, width: w },
            EffectV::WriteMemory { guard, address, value, width },
        ) => {
            &&& eval(g, state) == eval(guard, later)
            &&& eval(p, state) == eval(address, later)
            &&& eval(v, state) == eval(value, later)
            &&& w == width
        },
        _ => false,
    }
}

proof fn lemma_part_meaning(
    part: ExprV,
    instruction: DecodedV,
    previous: Seq<EffectV>,
    state: State,
)
    requires
        describes(state_after(previous, state), instruction),
        part_defined(part, instruction, previous, state),
        lowered_expr(part, instruction, previous) is Some,
    ensures
        eval(lowered_expr(part, instruction, previous)->0, state) == eval(
            part,
            state_after(previous, state),
        ),
{
    reveal(lowered_expr);
    lemma_collapse_substitute_and_canonicalize(part, instruction, previous, state);
}

proof fn lemma_effect_meaning(
    effect: EffectV,
    instruction: DecodedV,
    previous: Seq<EffectV>,
    state: State,
)
    requires
        describes(state_after(previous, state), instruction),
        effect_defined(effect, instruction, previous, state),
        lowered_effect(effect, instruction, previous) is Some,
    ensures
        same_effect(
            lowered_effect(effect, instruction, previous)->0,
            state,
            effect,
            state_after(previous, state),
        ),
{
    match effect {
        EffectV::WriteRegister { guard, register: place, value }
        | EffectV::WriteMemory { guard, address: place, value, .. } => {
            lemma_part_meaning(guard, instruction, previous, state);
            lemma_part_meaning(place, instruction, previous, state);
            lemma_part_meaning(value, instruction, previous, state);
        },
    }
}

proof fn lemma_lowered_rows(effects: Seq<EffectV>, instruction: DecodedV, previous: Seq<EffectV>)
    requires
        lowered_effects(effects, instruction, previous) is Some,
    ensures
        lowered_effects(effects, instruction, previous)->0.len() == effects.len(),
        forall|k: int|
            0 <= k < effects.len() ==> lowered_effect(
                #[trigger] effects[k],
                instruction,
                previous,
            ) == Some(lowered_effects(effects, instruction, previous)->0[k]),
    decreases effects.len(),
{
    if effects.len() > 0 {
        let front = effects.drop_last();
        lemma_lowered_rows(front, instruction, previous);
        let all = lowered_effects(effects, instruction, previous)->0;
        let before = lowered_effects(front, instruction, previous)->0;
        assert forall|k: int| 0 <= k < effects.len() implies lowered_effect(
            #[trigger] effects[k],
            instruction,
            previous,
        ) == Some(all[k]) by {
            if k < front.len() {
                assert(front[k] == effects[k]);
                assert(all[k] == before[k]);
            }
        }
    }
}

/// The first instruction of a name is the one that is found.
proof fn lemma_first_named(instructions: Seq<InstructionV>, name: Seq<char>, i: int)
    requires
        0 <= i < instructions.len(),
        instructions[i].name == name,
        forall|j: int| 0 <= j < i ==> (#[trigger] instructions[j]).name != name,
    ensures
        named_instruction(instructions, name) == Some(instructions[i]),
    decreases instructions.len(),
{
    let front = instructions.drop_last();
    if i < front.len() {
        assert(front[i] == instructions[i]);
        lemma_first_named(front, name, i);
    } else {
        lemma_none_named(front, name);
    }
}

proof fn lemma_none_named(instructions: Seq<InstructionV>, name: Seq<char>)
    requires
        forall|j: int| 0 <= j < instructions.len() ==> (#[trigger] instructions[j]).name != name,
    ensures
        named_instruction(instructions, name) is None,
    decreases instructions.len(),
{
    if instructions.len() > 0 {
        let front = instructions.drop_last();
        assert forall|j: int| 0 <= j < front.len() implies (#[trigger] front[j]).name != name by {
            assert(front[j] == instructions[j]);
        }
        lemma_none_named(front, name);
        assert(instructions[instructions.len() - 1].name != name);
    }
}

/// The lowered effects of a decoded instruction are those of the instruction of its name, one for
/// one. In every state in which the guard, the place and the value of an effect have words after
/// the previous effects, those of the lowered effect have the same words in the state before them:
/// a lowered write happens exactly where the instruction's own write does.
pub proof fn lemma_lowering_keeps_meaning(
    instructions: Seq<InstructionV>,
    i: int,
    instruction: DecodedV,
    previous: Seq<EffectV>,
    state: State,
)
    requires
        0 <= i < instructions.len(),
        instructions[i].name == instruction.name,
        forall|j: int| 0 <= j < i ==> (#[trigger] instructions[j]).name != instruction.name,
        decoded_effects(instruction, instructions, previous) is Some,
        describes(state_after(previous, state), instruction),
    ensures
        decoded_effects(instruction, instructions, previous)->0.len()
            == instructions[i].effects.len(),
        forall|k: int|
            0 <= k < instructions[i].effects.len() && effect_defined(
                #[trigger] instructions[i].effects[k],
                instruction,
                previous,
                state,
            ) ==> same_effect(
                decoded_effects(instruction, instructions, previous)->0[k],
                state,
                instructions[i].effects[k],
                state_after(previous, state),
            ),
{
    lemma_first_named(instructions, instruction.name, i);
    let effects = instructions[i].effects;
    lemma_lowered_rows(effects, instruction, previous);
    assert forall|k: int|
        0 <= k < effects.len() && effect_defined(
            #[trigger] effects[k],
            instruction,
            previous,
            state,
        ) implies same_effect(
        decoded_effects(instruction, instructions, previous)->0[k],
        state,
        effects[k],
        state_after(previous, state),
    ) by {
        lemma_effect_meaning(effects[k], instruction, previous, state);
    }
}

/// Every effect of an instruction that can be lowered keeps its kind, and memory is written with
/// the same width, whether or not its expressions have words.
pub proof fn lemma_lowering_keeps_kinds(
    instructions: Seq<InstructionV>,
    i: int,
    instruction: DecodedV,
    previous: Seq<EffectV>,
    k: int,
)
    requires
        0 <= i < instructions.len(),
        instructions[i].name == instruction.name,
        forall|j: int| 0 <= j < i ==> (#[trigger] instructions[j]).name != instruction.name,
        decoded_effects(instruction, instructions, previous) is Some,
        0 <= k < instructions[i].effects.len(),
    ensures
        ({
            let low = decoded_effects(instruction, instructions, previous)->0[k];
            let effect = instructions[i].effects[k];
            &&& low is WriteRegister <==> effect is WriteRegister
            &&& effect is WriteMemory ==> low->WriteMemory_width == effect->WriteMemory_width
        }),
{
    lemma_first_named(instructions, instruction.name, i);
    lemma_lowered_rows(instructions[i].effects, instruction, previous);
    assert(lowered_effect(instructions[i].effects[k], instruction, previous) is Some);
}

/// Without effects the state stays as it is.
proof fn lemma_state_after_none(state: State)
    ensures
        state_after(Seq::empty(), state) == state,
{
    let after = state_after(Seq::empty(), state);
    assert(after.registers =~= state.registers);
    assert(after.memory =~= state.memory);
}

/// The effects that a program is analysed with are those of its instructions, in order: each one
/// happens where the instruction's own effect does, at the same place and with the same value.
pub proof fn lemma_program_effects_meaning(
    program: Seq<DecodedV>,
    instructions: Seq<InstructionV>,
    at: int,
    i: int,
    state: State,
)
    requires
        0 <= at < program.len(),
        0 <= i < instructions.len(),
        instructions[i].name == program[at].name,
        forall|j: int| 0 <= j < i ==> (#[trigger] instructions[j]).name != program[at].name,
        decoded_effects(program[at], instructions, Seq::empty()) is Some,
        describes(state, program[at]),
    ensures
        program_effects(program, instructions).len() == program.len(),
        program_effects(program, instructions)[at].len() == instructions[i].effects.len(),
        forall|k: int|
            0 <= k < instructions[i].effects.len() && effect_defined(
                #[trigger] instructions[i].effects[k],
                program[at],
                Seq::empty(),
                state,
            ) ==> same_effect(
                program_effects(program, instructions)[at][k],
                state,
                instructions[i].effects[k],
                state,
            ),
{
    lemma_state_after_none(state);
    lemma_lowering_keeps_meaning(instructions, i, program[at], Seq::empty(), state);
}

/// A definite row of bits is a number: its bits from the top are the binary digits.
pub proof fn lemma_bits_value(bits: Seq<Bit>, k: int)
    requires
        0 <= k < bits.len(),
    ensures
        bits_value(bits) < pow2(bits.len()),
        (bits_value(bits) / pow2((bits.len() - 1 - k) as nat)) % 2 == if bits[k] == Bit::High {
            1nat
        } else {
            0nat
        },
    decreases bits.len(),
{
    lemma_value_bound(bits);
    lemma2_to64();
    let front = bits.drop_last();
    let v = bits_value(bits);
    let low = if bits.last() == Bit::High {
        1nat
    } else {
        0nat
    };
    assert(v == 2 * bits_value(front) + low);
    if k < front.len() {
        lemma_bits_value(front, k);
        let d = (front.len() - 1 - k) as nat;
        lemma_pow2_unfold((d + 1) as nat);
        vstd::arithmetic::power2::lemma_pow2_pos(d);
        vstd::arithmetic::div_mod::lemma_div_denominator(v as int, 2, pow2(d) as int);
        assert(v / 2 == bits_value(front));
        assert(pow2((bits.len() - 1 - k) as nat) == 2 * pow2(d));
        assert(v as int / (2 * pow2(d) as int) == (v as int / 2) / pow2(d) as int);
        assert(front[k] == bits[k]);
    } else {
        assert(pow2((bits.len() - 1 - k) as nat) == 1);
        assert(v / 1 == v);
    }
}

/// An immediate or a register field stands for the number that the bits of the first field of the
/// name write, most significant bit first, with the width of that field.
pub proof fn lemma_field_numbers(fields: Seq<FieldV>, name: Seq<char>, i: int)
    requires
        0 <= i < fields.len(),
        fields[i].name == Some(name),
        forall|j: int| 0 <= j < i ==> (#[trigger] fields[j]).name != Some(name),
    ensures
        ({
            let bits = fields[i].bits;
            &&& all_concrete(bits) && bits.len() <= 128 ==> (immediate_literal(
                field_bits(fields, name),
            ) matches Some(ExprV::Const { value, width }) && {
                &&& width == bits.len()
                &&& forall|k: int|
                    0 <= k < bits.len() ==> ((value as nat / #[trigger] pow2(
                        (bits.len() - 1 - k) as nat,
                    )) % 2 == 1 <==> bits[k] == Bit::High)
            })
            &&& all_concrete(bits) && bits.len() <= 8 ==> (selected_register(
                field_bits(fields, name),
            ) matches Some(
                ExprV::Operand(
                    OperandV::RegisterField(RegisterV::Fixed { register, identifier_width }),
                ),
            ) && {
                &&& identifier_width == bits.len()
                &&& forall|k: int|
                    0 <= k < bits.len() ==> ((register as nat / #[trigger] pow2(
                        (bits.len() - 1 - k) as nat,
                    )) % 2 == 1 <==> bits[k] == Bit::High)
            })
            &&& !all_concrete(bits) ==> immediate_literal(field_bits(fields, name)) is None
                && selected_register(field_bits(fields, name)) is None
        }),
{
    lemma_field_found(fields, name, i);
    let bits = fields[i].bits;
    lemma_value_bound(bits);
    if bits.len() <= 128 {
        crate::const_eval::lemma_mask(128);
        lemma2_to64();
        if bits.len() < 128 {
            vstd::arithmetic::power2::lemma_pow2_strictly_increases(bits.len(), 128);
        }
        if bits.len() < 8 {
            vstd::arithmetic::power2::lemma_pow2_strictly_increases(bits.len(), 8);
        }
        assert forall|k: int| 0 <= k < bits.len() implies ((bits_value(bits) / #[trigger] pow2(
            (bits.len() - 1 - k) as nat,
        )) % 2 == 1 <==> bits[k] == Bit::High) by {
            lemma_bits_value(bits, k);
        }
    }
}

/// The expression occurs in the other one, at whatever depth.
pub open spec fn occurs(part: ExprV, whole: ExprV) -> bool
    decreases weight(whole),
{
    proof {
        lemma_weight_children(whole);
    }
    part == whole || exists|i: int|
        0 <= i < children(whole).len() && occurs(part, #[trigger] children(whole)[i])
}

/// The read of the register.
pub open spec fn read_of(r: ArchitecturalRegister) -> ExprV {
    ExprV::ReadRegister {
        register: Box::new(
            ExprV::Operand(
                OperandV::RegisterField(
                    RegisterV::Fixed {
                        register: r.identifier,
                        identifier_width: r.identifier_width as u16,
                    },
                ),
            ),
        ),
        width: r.width as u16,
    }
}

/// An expression reads exactly the registers whose reads occur in it.
pub proof fn lemma_reads_occur(expr: ExprV, r: ArchitecturalRegister)
    ensures
        reads_of(expr).contains(r) <==> occurs(read_of(r), expr),
    decreases weight(expr),
{
    lemma_weight_children(expr);
    let parts = children(expr);
    assert forall|i: int| 0 <= i < parts.len() implies (reads_of(#[trigger] parts[i]).contains(r)
        <==> occurs(read_of(r), parts[i])) by {
        lemma_reads_occur(parts[i], r);
    }
}

/// Every register that is read in the expression is a fixed one.
pub open spec fn fixed_reads(expr: ExprV) -> bool
    decreases weight(expr),
{
    proof {
        lemma_weight_children(expr);
    }
    &&& expr matches ExprV::ReadRegister { register, width } ==> width <= 255 && (*register matches
        ExprV::Operand(OperandV::RegisterField(RegisterV::Fixed { identifier_width, .. }))
        && identifier_width <= 255)
    &&& forall|i: int| 0 <= i < children(expr).len() ==> fixed_reads(#[trigger] children(expr)[i])
}

/// The states differ at most in what registers hold that are none of the given ones.
pub open spec fn agree(a: State, b: State, registers: Set<ArchitecturalRegister>) -> bool {
    &&& a.operands == b.operands
    &&& a.derived == b.derived
    &&& a.memory == b.memory
    &&& forall|r: ArchitecturalRegister| #[trigger]
        registers.contains(r) ==> eval(read_of(r), a) == eval(read_of(r), b)
}

/// What agrees for an expression agrees for its parts.
proof fn lemma_parts_agree(expr: ExprV, i: int, a: State, b: State)
    requires
        0 <= i < children(expr).len(),
        agree(a, b, reads_of(expr)),
    ensures
        agree(a, b, reads_of(children(expr)[i])),
{
    lemma_weight_children(expr);
    let part = children(expr)[i];
    assert forall|r: ArchitecturalRegister| #[trigger] reads_of(part).contains(r) implies eval(
        read_of(r),
        a,
    ) == eval(read_of(r), b) by {
        assert(reads_of(expr).contains(r));
    }
}

/// The parts of the expression have the same words in both states.
spec fn same_parts(expr: ExprV, a: State, b: State) -> bool {
    &&& a.operands == b.operands
    &&& a.derived == b.derived
    &&& a.memory == b.memory
    &&& forall|i: int|
        0 <= i < children(expr).len() ==> eval(#[trigger] children(expr)[i], a) == eval(
            children(expr)[i],
            b,
        )
}

proof fn lemma_assoc_decided(op: AssocCommOp, lhs: ExprV, rhs: ExprV, a: State, b: State)
    requires
        eval(lhs, a) == eval(lhs, b),
        eval(rhs, a) == eval(rhs, b),
    ensures
        eval(node(op, lhs, rhs), a) == eval(node(op, lhs, rhs), b),
{
    assert(eval(node(op, lhs, rhs), a) == assoc_word(op, eval(lhs, a), eval(rhs, a)));
    assert(eval(node(op, lhs, rhs), b) == assoc_word(op, eval(lhs, b), eval(rhs, b)));
}

#[verifier::spinoff_prover]
#[verifier::rlimit(60)]
proof fn lemma_binary_decided(op: BinaryOp, lhs: ExprV, rhs: ExprV, a: State, b: State)
    requires
        eval(lhs, a) == eval(lhs, b),
        eval(rhs, a) == eval(rhs, b),
    ensures
        eval(binary_node(op, lhs, rhs), a) == eval(binary_node(op, lhs, rhs), b),
{
    assert(eval(binary_node(op, lhs, rhs), a) == binary_word(op, eval(lhs, a), eval(rhs, a)));
    assert(eval(binary_node(op, lhs, rhs), b) == binary_word(op, eval(lhs, b), eval(rhs, b)));
}

#[verifier::spinoff_prover]
#[verifier::rlimit(60)]
proof fn lemma_flag_decided(
    op: FlagOp,
    lhs: ExprV,
    rhs: ExprV,
    flag: ExprV,
    width: u16,
    a: State,
    b: State,
)
    requires
        eval(lhs, a) == eval(lhs, b),
        eval(rhs, a) == eval(rhs, b),
        eval(flag, a) == eval(flag, b),
    ensures
        eval(flag_expr(op, lhs, rhs, flag, width), a) == eval(
            flag_expr(op, lhs, rhs, flag, width),
            b,
        ),
{
    assert(eval(flag_expr(op, lhs, rhs, flag, width), a) == flag_word(
        op,
        eval(lhs, a),
        eval(rhs, a),
        eval(flag, a),
        width,
    ));
    assert(eval(flag_expr(op, lhs, rhs, flag, width), b) == flag_word(
        op,
        eval(lhs, b),
        eval(rhs, b),
        eval(flag, b),
        width,
    ));
}

#[verifier::spinoff_prover]
#[verifier::rlimit(60)]
proof fn lemma_assoc_parts(expr: ExprV, a: State, b: State)
    requires
        same_parts(expr, a, b),
        expr is Add || expr is Mul || expr is And || expr is Or || expr is Xor,
    ensures
        eval(expr, a) == eval(expr, b),
{
    let parts = children(expr);
    match expr {
        ExprV::Add(lhs, rhs) => {
            assert(parts[0] == *lhs && parts[1] == *rhs);
            lemma_assoc_decided(AssocCommOp::Add, *lhs, *rhs, a, b);
        },
        ExprV::Mul(lhs, rhs) => {
            assert(parts[0] == *lhs && parts[1] == *rhs);
            lemma_assoc_decided(AssocCommOp::Mul, *lhs, *rhs, a, b);
        },
        ExprV::And(lhs, rhs) => {
            assert(parts[0] == *lhs && parts[1] == *rhs);
            lemma_assoc_decided(AssocCommOp::And, *lhs, *rhs, a, b);
        },
        ExprV::Or(lhs, rhs) => {
            assert(parts[0] == *lhs && parts[1] == *rhs);
            lemma_assoc_decided(AssocCommOp::Or, *lhs, *rhs, a, b);
        },
        ExprV::Xor(lhs, rhs) => {
            assert(parts[0] == *lhs && parts[1] == *rhs);
            lemma_assoc_decided(AssocCommOp::Xor, *lhs, *rhs, a, b);
        },
        _ => {},
    }
}

#[verifier::spinoff_prover]
#[verifier::rlimit(60)]
proof fn lemma_binary_parts(expr: ExprV, a: State, b: State)
    requires
        same_parts(expr, a, b),
        expr is Sub || expr is ShiftLeft || expr is LogicalShiftRight || expr is ArithmeticShiftRight
            || expr is RotateRight || expr is Equal || expr is UnsignedLessThan || expr is SignedLessThan,
    ensures
        eval(expr, a) == eval(expr, b),
{
    let parts = children(expr);
    match expr {
        ExprV::Sub(lhs, rhs) => {
            assert(parts[0] == *lhs && parts[1] == *rhs);
            lemma_binary_decided(BinaryOp::Sub, *lhs, *rhs, a, b);
        },
        ExprV::ShiftLeft(lhs, rhs) => {
            assert(parts[0] == *lhs && parts[1] == *rhs);
            lemma_binary_decided(BinaryOp::ShiftLeft, *lhs, *rhs, a, b);
        },
        ExprV::LogicalShiftRight(lhs, rhs) => {
            assert(parts[0] == *lhs && parts[1] == *rhs);
            lemma_binary_decided(BinaryOp::LogicalShiftRight, *lhs, *rhs, a, b);
        },
        ExprV::ArithmeticShiftRight(lhs, rhs) => {
            assert(parts[0] == *lhs && parts[1] == *rhs);
            lemma_binary_decided(BinaryOp::ArithmeticShiftRight, *lhs, *rhs, a, b);
        },
        ExprV::RotateRight(lhs, rhs) => {
            assert(parts[0] == *lhs && parts[1] == *rhs);
            lemma_binary_decided(BinaryOp::RotateRight, *lhs, *rhs, a, b);
        },
        ExprV::Equal(lhs, rhs) => {
            assert(parts[0] == *lhs && parts[1] == *rhs);
            lemma_binary_decided(BinaryOp::Equal, *lhs, *rhs, a, b);
        },
        ExprV::UnsignedLessThan(lhs, rhs) => {
            assert(parts[0] == *lhs && parts[1] == *rhs);
            lemma_binary_decided(BinaryOp::UnsignedLessThan, *lhs, *rhs, a, b);
        },
        ExprV::SignedLessThan(lhs, rhs) => {
            assert(parts[0] == *lhs && parts[1] == *rhs);
            lemma_binary_decided(BinaryOp::SignedLessThan, *lhs, *rhs, a, b);
        },
        _ => {},
    }
}

#[verifier::spinoff_prover]
#[verifier::rlimit(60)]
proof fn lemma_flag_parts(expr: ExprV, a: State, b: State)
    requires
        same_parts(expr, a, b),
        expr is AddCarryOut || expr is AddOverflow || expr is SubCarryOut
            || expr is SubOverflow,
    ensures
        eval(expr, a) == eval(expr, b),
{
    let parts = children(expr);
    match expr {
        ExprV::AddCarryOut { lhs, rhs, carry_in, width } => {
            assert(parts[0] == *lhs && parts[1] == *rhs && parts[2] == *carry_in);
            lemma_flag_decided(FlagOp::AddCarryOut, *lhs, *rhs, *carry_in, width, a, b);
        },
        ExprV::AddOverflow { lhs, rhs, carry_in, width } => {
            assert(parts[0] == *lhs && parts[1] == *rhs && parts[2] == *carry_in);
            lemma_flag_decided(FlagOp::AddOverflow, *lhs, *rhs, *carry_in, width, a, b);
        },
        ExprV::SubCarryOut { lhs, rhs, borrow_in, width } => {
            assert(parts[0] == *lhs && parts[1] == *rhs && parts[2] == *borrow_in);
            lemma_flag_decided(FlagOp::SubCarryOut, *lhs, *rhs, *borrow_in, width, a, b);
        },
        ExprV::SubOverflow { lhs, rhs, borrow_in, width } => {
            assert(parts[0] == *lhs && parts[1] == *rhs && parts[2] == *borrow_in);
            lemma_flag_decided(FlagOp::SubOverflow, *lhs, *rhs, *borrow_in, width, a, b);
        },
        _ => {},
    }
}

/// Expressions but reads of registers and concatenations get their words from their parts.
proof fn lemma_parts_decide(expr: ExprV, a: State, b: State)
    requires
        same_parts(expr, a, b),
        !(expr is ReadRegister) && !(expr is Concat),
    ensures
        eval(expr, a) == eval(expr, b),
{
    if expr is Add || expr is Mul || expr is And || expr is Or || expr is Xor {
        lemma_assoc_parts(expr, a, b);
    } else if expr is Sub || expr is ShiftLeft || expr is LogicalShiftRight
        || expr is ArithmeticShiftRight || expr is RotateRight || expr is Equal
        || expr is UnsignedLessThan || expr is SignedLessThan {
        lemma_binary_parts(expr, a, b);
    } else if expr is AddCarryOut || expr is AddOverflow || expr is SubCarryOut
        || expr is SubOverflow {
        lemma_flag_parts(expr, a, b);
    } else {
        lemma_single_decided(expr, a, b);
    }
}

#[verifier::spinoff_prover]
#[verifier::rlimit(60)]
proof fn lemma_single_decided(expr: ExprV, a: State, b: State)
    requires
        same_parts(expr, a, b),
        expr is Const || expr is Operand || expr is DerivedValue || expr is ReadMemory || expr is Not
            || expr is CountOnes || expr is Extract || expr is ZeroExtend || expr is SignExtend
            || expr is Select,
    ensures
        eval(expr, a) == eval(expr, b),
{
    let parts = children(expr);
    match expr {
        ExprV::ReadMemory { address: part, .. }
        | ExprV::Not(part)
        | ExprV::CountOnes(part)
        | ExprV::Extract { value: part, .. }
        | ExprV::ZeroExtend { value: part, .. }
        | ExprV::SignExtend { value: part, .. } => {
            assert(parts[0] == *part);
        },
        ExprV::Select { condition, when_true, when_false } => {
            assert(parts[0] == *condition && parts[1] == *when_true && parts[2] == *when_false);
        },
        _ => {},
    }
}

/// The word of an expression depends on no other register than those that it reads.
pub proof fn lemma_reads_suffice(expr: ExprV, a: State, b: State)
    requires
        fixed_reads(expr),
        agree(a, b, reads_of(expr)),
    ensures
        eval(expr, a) == eval(expr, b),
    decreases weight(expr), 1nat,
{
    lemma_weight_children(expr);
    match expr {
        ExprV::Concat(values) => {
            assert forall|i: int| 0 <= i < values.len() implies children(expr).contains(
                #[trigger] values[i],
            ) by {
                assert(children(expr)[i] == values[i]);
            }
            lemma_chunks_suffice(values, expr, a, b);
        },
        ExprV::ReadRegister { register, width } => {
            if let ExprV::Operand(
                OperandV::RegisterField(RegisterV::Fixed { register: n, identifier_width }),
            ) = *register {
                let r = ArchitecturalRegister {
                    identifier: n,
                    identifier_width: identifier_width as u8,
                    width: width as u8,
                };
                assert(read_of(r) == expr);
                assert(reads_of(expr).contains(r));
            }
        },
        _ => {
            let parts = children(expr);
            assert forall|i: int| 0 <= i < parts.len() implies eval(#[trigger] parts[i], a) == eval(
                parts[i],
                b,
            ) by {
                lemma_parts_agree(expr, i, a, b);
                lemma_reads_suffice(parts[i], a, b);
            }
            lemma_parts_decide(expr, a, b);
        },
    }
}

proof fn lemma_chunks_suffice(chunks: Seq<ExprV>, expr: ExprV, a: State, b: State)
    requires
        fixed_reads(expr),
        agree(a, b, reads_of(expr)),
        forall|i: int| 0 <= i < chunks.len() ==> children(expr).contains(#[trigger] chunks[i]),
    ensures
        eval_chunks(chunks, a) == eval_chunks(chunks, b),
    decreases weight(expr), 0nat, chunks.len(),
{
    lemma_weight_children(expr);
    if chunks.len() > 0 {
        let last = chunks.last();
        assert(children(expr).contains(chunks[chunks.len() - 1]));
        let k = children(expr).index_of(last);
        assert(children(expr)[k] == last);
        lemma_parts_agree(expr, k, a, b);
        lemma_reads_suffice(last, a, b);
        let front = chunks.drop_last();
        assert forall|i: int| 0 <= i < front.len() implies children(expr).contains(
            #[trigger] front[i],
        ) by {
            assert(front[i] == chunks[i]);
        }
        lemma_chunks_suffice(front, expr, a, b);
    }
}

/// The guard is a literal whose low bits are all zero.
pub open spec fn never(guard: ExprV) -> bool {
    guard matches ExprV::Const { value, width } && value as nat % pow2(width as nat) == 0
}

/// The guard is a literal bit that is set.
pub open spec fn always(guard: ExprV) -> bool {
    guard matches ExprV::Const { value, width } && width == 1 && value % 2 == 1
}

/// The read of a register occurs in the guard, the place or the value of the effect, which is not
/// ruled out by a literal guard.
pub open spec fn touches(effect: EffectV, r: ArchitecturalRegister) -> bool {
    match effect {
        EffectV::WriteRegister { guard, register, value } => !never(guard) && (occurs(
            read_of(r),
            guard,
        ) || occurs(read_of(r), register) || occurs(read_of(r), value)),
        EffectV::WriteMemory { guard, address, value, .. } => !never(guard) && (occurs(
            read_of(r),
            guard,
        ) || occurs(read_of(r), address) || occurs(read_of(r), value)),
    }
}

/// A literal guard has a width that words can have.
pub open spec fn guard_fits(effect: EffectV) -> bool {
    match effect {
        EffectV::WriteRegister { guard, .. } | EffectV::WriteMemory { guard, .. } => guard matches
            ExprV::Const { width, .. } ==> 1 <= width <= 128,
    }
}

proof fn lemma_effect_reads(effect: EffectV, r: ArchitecturalRegister)
    requires
        guard_fits(effect),
    ensures
        effect_reads(effect).contains(r) <==> touches(effect, r),
{
    let (guard, place, value) = effect_parts(effect);
    lemma_reads_occur(guard, r);
    lemma_reads_occur(place, r);
    lemma_reads_occur(value, r);
    if let ExprV::Const { value: bits, width } = guard {
        lemma_canonical_is_mod(bits, width);
    }
}

/// Effects read a register where its read occurs in one of them that is not ruled out by a literal
/// guard.
pub proof fn lemma_effects_read(effects: Seq<EffectV>, r: ArchitecturalRegister)
    requires
        forall|i: int| 0 <= i < effects.len() ==> guard_fits(#[trigger] effects[i]),
    ensures
        all_reads(effects).contains(r) <==> exists|i: int|
            0 <= i < effects.len() && touches(#[trigger] effects[i], r),
    decreases effects.len(),
{
    if effects.len() > 0 {
        let front = effects.drop_last();
        let n = effects.len() - 1;
        assert forall|i: int| 0 <= i < front.len() implies guard_fits(#[trigger] front[i]) by {
            assert(front[i] == effects[i]);
        }
        lemma_effects_read(front, r);
        assert(guard_fits(effects[n]));
        lemma_effect_reads(effects[n], r);
        if all_reads(front).contains(r) {
            let i = choose|i: int| 0 <= i < front.len() && touches(#[trigger] front[i], r);
            assert(touches(effects[i], r));
        }
        if exists|i: int| 0 <= i < effects.len() && touches(#[trigger] effects[i], r) {
            let i = choose|i: int| 0 <= i < effects.len() && touches(#[trigger] effects[i], r);
            if i < n {
                assert(touches(front[i], r));
            }
        }
    }
}

/// Effects write a register for sure where one of them writes that fixed register under a guard
/// that is the literal one, with a value of the register's width.
pub proof fn lemma_effects_write(effects: Seq<EffectV>, r: ArchitecturalRegister)
    ensures
        all_writes(effects).contains(r) <==> exists|i: int|
            0 <= i < effects.len() && (#[trigger] effects[i] matches EffectV::WriteRegister {
                guard,
                register,
                value,
            } && always(guard) && *read_of(r)->ReadRegister_register == register && width_of(
                value,
            ) == Some(r.width as u16)),
{
    assert forall|value: u128| #[trigger] canonical(value, 1) == value % 2 by {
        lemma_canonical_is_mod(value, 1);
        lemma2_to64();
    }
}

/// A register that effects write for sure is written in every state: some effect's guard is one
/// and its place is that register.
pub proof fn lemma_sure_writes_happen(
    effects: Seq<EffectV>,
    r: ArchitecturalRegister,
    state: State,
)
    requires
        all_writes(effects).contains(r),
    ensures
        exists|i: int|
            0 <= i < effects.len() && (#[trigger] effects[i] matches EffectV::WriteRegister {
                guard,
                register,
                ..
            } && eval(guard, state) == Some(Word { value: 1, width: 1 }) && eval(register, state)
                == eval(*read_of(r)->ReadRegister_register, state)),
{
    lemma_effects_write(effects, r);
    let i = choose|i: int|
        0 <= i < effects.len() && (#[trigger] effects[i] matches EffectV::WriteRegister {
            guard,
            register,
            value,
        } && always(guard) && *read_of(r)->ReadRegister_register == register && width_of(value)
            == Some(r.width as u16));
    if let EffectV::WriteRegister { guard, .. } = effects[i] {
        if let ExprV::Const { value, .. } = guard {
            lemma_canonical_is_mod(value, 1);
            lemma2_to64();
        }
    }
}

/// The expressions of an effect: its guard, its place and its value.
pub open spec fn effect_exprs(effect: EffectV) -> Seq<ExprV> {
    match effect {
        EffectV::WriteRegister { guard, register, value } => seq![guard, register, value],
        EffectV::WriteMemory { guard, address, value, .. } => seq![guard, address, value],
    }
}

/// Every expression of an effect can be lowered.
pub open spec fn effect_lowers(
    effect: EffectV,
    instruction: DecodedV,
    previous: Seq<EffectV>,
) -> bool {
    forall|k: int|
        0 <= k < effect_exprs(effect).len() ==> lowered_expr(
            #[trigger] effect_exprs(effect)[k],
            instruction,
            previous,
        ) is Some
}

proof fn lemma_effects_lower(effects: Seq<EffectV>, instruction: DecodedV, previous: Seq<EffectV>)
    ensures
        lowered_effects(effects, instruction, previous) is Some <==> forall|i: int|
            0 <= i < effects.len() ==> effect_lowers(#[trigger] effects[i], instruction, previous),
    decreases effects.len(),
{
    if effects.len() > 0 {
        let front = effects.drop_last();
        let last = effects.last();
        lemma_effects_lower(front, instruction, previous);
        assert(lowered_effect(last, instruction, previous) is Some == effect_lowers(
            last,
            instruction,
            previous,
        )) by {
            let exprs = effect_exprs(last);
            if effect_lowers(last, instruction, previous) {
                assert(lowered_expr(exprs[0], instruction, previous) is Some);
                assert(lowered_expr(exprs[1], instruction, previous) is Some);
                assert(lowered_expr(exprs[2], instruction, previous) is Some);
            }
        }
        if forall|i: int|
            0 <= i < effects.len() ==> effect_lowers(#[trigger] effects[i], instruction, previous) {
            assert forall|i: int| 0 <= i < front.len() implies effect_lowers(
                #[trigger] front[i],
                instruction,
                previous,
            ) by {
                assert(front[i] == effects[i]);
            }
            assert(effect_lowers(effects[effects.len() - 1], instruction, previous));
        }
        if lowered_effects(effects, instruction, previous) is Some {
            assert forall|i: int| 0 <= i < effects.len() implies effect_lowers(
                #[trigger] effects[i],
                instruction,
                previous,
            ) by {
                if i < front.len() {
                    assert(front[i] == effects[i]);
                }
            }
        }
    }
}

/// The effects of a decoded instruction can be told exactly when the instruction set has its name and
/// every expression of the effects of the first instruction of that name can be lowered.
pub proof fn lemma_lowering_defined(
    instructions: Seq<InstructionV>,
    i: int,
    instruction: DecodedV,
    previous: Seq<EffectV>,
)
    requires
        0 <= i < instructions.len(),
        instructions[i].name == instruction.name,
        forall|j: int| 0 <= j < i ==> (#[trigger] instructions[j]).name != instruction.name,
    ensures
        decoded_effects(instruction, instructions, previous) is Some <==> forall|k: int|
            0 <= k < instructions[i].effects.len() ==> effect_lowers(
                #[trigger] instructions[i].effects[k],
                instruction,
                previous,
            ),
{
    lemma_named_first(instructions, instruction.name, i);
    lemma_effects_lower(instructions[i].effects, instruction, previous);
}

} // verus!
