//! An expression with earlier writes put in means the expression after those writes.
use vstd::prelude::*;

use crate::collapse::BinaryOp;
use crate::const_eval::AssocCommOp;
use crate::evaluation::{
    assoc_word, binary_word, eval, eval_chunks, lemma_eval_is_word, select_word, word, State, Word,
};
use crate::expr_shape::width_of;
use crate::instruction_semantics::{truth, EffectV, ExprV};
use crate::substitute::{forwarded, memory_after, register_after, substituted, substituted_all};
use crate::word_laws::{lemma_combine_fits, lemma_fits};

verus! {

/// A write with its guard and place hits the place that is read.
pub open spec fn hits(guard: ExprV, written: ExprV, place: Word, state: State) -> bool {
    &&& eval(guard, state) is Some
    &&& eval(guard, state)->0.value == 1
    &&& eval(written, state) == Some(place)
}

/// What a register holds after the effects: the latest write of the width that hits it.
pub open spec fn register_content(
    effects: Seq<EffectV>,
    place: Word,
    width: u16,
    state: State,
) -> u128
    decreases effects.len(),
{
    if effects.len() == 0 {
        (state.registers)(place, width)
    } else {
        let before = register_content(effects.drop_last(), place, width, state);
        match effects.last() {
            EffectV::WriteRegister { guard, register, value } => if width_of(value) == Some(width)
                && hits(guard, register, place, state) {
                eval(value, state)->0.value
            } else {
                before
            },
            _ => before,
        }
    }
}

/// What memory holds after the effects: the latest write of the width that hits the place.
pub open spec fn memory_content(
    effects: Seq<EffectV>,
    place: Word,
    width: u16,
    state: State,
) -> u128
    decreases effects.len(),
{
    if effects.len() == 0 {
        (state.memory)(place, width)
    } else {
        let before = memory_content(effects.drop_last(), place, width, state);
        match effects.last() {
            EffectV::WriteMemory { guard, address, value, width: written_width } => if width
                == written_width && hits(guard, address, place, state) {
                eval(value, state)->0.value
            } else {
                before
            },
            _ => before,
        }
    }
}

/// The state after the effects, whose expressions read the state before all of them.
pub open spec fn state_after(effects: Seq<EffectV>, state: State) -> State {
    State {
        operands: state.operands,
        derived: state.derived,
        registers: |place: Word, width: u16| register_content(effects, place, width, state),
        memory: |place: Word, width: u16| memory_content(effects, place, width, state),
    }
}

/// A forwarded value is the written one where the write hits the place, else the other one.
proof fn lemma_forwarded(
    guard: ExprV,
    place: ExprV,
    written: ExprV,
    value: ExprV,
    otherwise: ExprV,
    state: State,
)
    requires
        eval(forwarded(guard, place, written, value, otherwise), state) is Some,
    ensures
        eval(place, state) is Some,
        eval(otherwise, state) is Some,
        eval(value, state) is Some,
        eval(value, state)->0.width == eval(otherwise, state)->0.width,
        eval(forwarded(guard, place, written, value, otherwise), state) == if hits(
            guard,
            written,
            eval(place, state)->0,
            state,
        ) {
            eval(value, state)
        } else {
            eval(otherwise, state)
        },
{
    let same = ExprV::Equal(Box::new(place), Box::new(written));
    let condition = ExprV::And(Box::new(guard), Box::new(same));
    assert(eval(forwarded(guard, place, written, value, otherwise), state) == select_word(
        eval(condition, state),
        eval(value, state),
        eval(otherwise, state),
    ));
    assert(eval(condition, state) == assoc_word(
        AssocCommOp::And,
        eval(guard, state),
        eval(same, state),
    ));
    assert(eval(same, state) == binary_word(
        BinaryOp::Equal,
        eval(place, state),
        eval(written, state),
    ));
    lemma_eval_is_word(guard, state);
    lemma_fits(0, 1);
    let g = eval(guard, state)->0.value;
    let e = eval(same, state)->0.value;
    assert(e == truth(eval(place, state) == eval(written, state)));
    lemma_combine_fits(AssocCommOp::And, g, e, 1);
    lemma_fits(g, 1);
    assert(vstd::arithmetic::power2::pow2(1) == 2) by {
        vstd::arithmetic::power2::lemma2_to64();
    }
    assert(0u128 & e == 0 && (1u128 & 1u128) == 1 && (1u128 & 0u128) == 0) by (bit_vector);
}

/// A register read with the writes put in reads the state after them.
proof fn lemma_register_after(effects: Seq<EffectV>, register: ExprV, width: u16, state: State)
    requires
        eval(register_after(effects, register, width), state) is Some,
    ensures
        eval(register, state) is Some,
        eval(register_after(effects, register, width), state) == word(
            register_content(effects, eval(register, state)->0, width, state),
            width,
        ),
    decreases effects.len(),
{
    if effects.len() > 0 {
        let before = register_after(effects.drop_last(), register, width);
        match effects.last() {
            EffectV::WriteRegister { guard, register: written, value } => {
                if width_of(value) == Some(width) {
                    lemma_forwarded(guard, register, written, value, before, state);
                    lemma_eval_is_word(value, state);
                }
            },
            _ => {},
        }
        lemma_register_after(effects.drop_last(), register, width, state);
    }
}

/// A memory read with the writes put in reads the state after them.
proof fn lemma_memory_after(effects: Seq<EffectV>, address: ExprV, width: u16, state: State)
    requires
        eval(memory_after(effects, address, width), state) is Some,
    ensures
        eval(address, state) is Some,
        eval(memory_after(effects, address, width), state) == word(
            memory_content(effects, eval(address, state)->0, width, state),
            width,
        ),
    decreases effects.len(),
{
    if effects.len() > 0 {
        let before = memory_after(effects.drop_last(), address, width);
        match effects.last() {
            EffectV::WriteMemory { guard, address: written, value, width: written_width } => {
                if width == written_width {
                    lemma_forwarded(guard, address, written, value, before, state);
                    lemma_eval_is_word(value, state);
                }
            },
            _ => {},
        }
        lemma_memory_after(effects.drop_last(), address, width, state);
    }
}

proof fn lemma_chunks_substituted(chunks: Seq<ExprV>, effects: Seq<EffectV>, state: State)
    requires
        eval_chunks(substituted_all(chunks, effects), state) is Some,
    ensures
        eval_chunks(chunks, state_after(effects, state)) == eval_chunks(
            substituted_all(chunks, effects),
            state,
        ),
    decreases chunks, 0nat,
{
    let new = substituted_all(chunks, effects);
    assert(new.len() == chunks.len());
    assert(new.last() == substituted(chunks.last(), effects));
    if chunks.len() == 1 {
        assert(new[0] == substituted(chunks[0], effects));
        lemma_substitute_keeps_meaning(chunks[0], effects, state);
    } else {
        assert(new.drop_last() =~= substituted_all(chunks.drop_last(), effects));
        lemma_chunks_substituted(chunks.drop_last(), effects, state);
        lemma_substitute_keeps_meaning(chunks.last(), effects, state);
    }
}

/// Substitution turns an expression over the state after the effects into one over the state
/// before them that means the same.
pub proof fn lemma_substitute_keeps_meaning(expr: ExprV, effects: Seq<EffectV>, state: State)
    requires
        eval(substituted(expr, effects), state) is Some,
    ensures
        eval(expr, state_after(effects, state)) == eval(substituted(expr, effects), state),
    decreases expr, 1nat,
{
    match expr {
        ExprV::Const { .. } | ExprV::Operand(_) | ExprV::DerivedValue(_) => {},
        ExprV::ReadRegister { register, width } => {
            lemma_register_after(effects, substituted(*register, effects), width, state);
            lemma_substitute_keeps_meaning(*register, effects, state);
        },
        ExprV::ReadMemory { address, width } => {
            lemma_memory_after(effects, substituted(*address, effects), width, state);
            lemma_substitute_keeps_meaning(*address, effects, state);
        },
        ExprV::Concat(values) => {
            lemma_chunks_substituted(values, effects, state);
        },
        ExprV::Not(value)
        | ExprV::CountOnes(value)
        | ExprV::Extract { value, .. }
        | ExprV::ZeroExtend { value, .. }
        | ExprV::SignExtend { value, .. } => {
            lemma_substitute_keeps_meaning(*value, effects, state);
        },
        ExprV::Add(lhs, rhs)
        | ExprV::Sub(lhs, rhs)
        | ExprV::Mul(lhs, rhs)
        | ExprV::And(lhs, rhs)
        | ExprV::Or(lhs, rhs)
        | ExprV::Xor(lhs, rhs)
        | ExprV::ShiftLeft(lhs, rhs)
        | ExprV::LogicalShiftRight(lhs, rhs)
        | ExprV::ArithmeticShiftRight(lhs, rhs)
        | ExprV::RotateRight(lhs, rhs)
        | ExprV::Equal(lhs, rhs)
        | ExprV::UnsignedLessThan(lhs, rhs)
        | ExprV::SignedLessThan(lhs, rhs) => {
            lemma_substitute_keeps_meaning(*lhs, effects, state);
            lemma_substitute_keeps_meaning(*rhs, effects, state);
        },
        ExprV::AddCarryOut { lhs, rhs, carry_in: flag, .. }
        | ExprV::AddOverflow { lhs, rhs, carry_in: flag, .. }
        | ExprV::SubCarryOut { lhs, rhs, borrow_in: flag, .. }
        | ExprV::SubOverflow { lhs, rhs, borrow_in: flag, .. } => {
            lemma_substitute_keeps_meaning(*lhs, effects, state);
            lemma_substitute_keeps_meaning(*rhs, effects, state);
            lemma_substitute_keeps_meaning(*flag, effects, state);
        },
        ExprV::Select { condition, when_true, when_false } => {
            lemma_substitute_keeps_meaning(*condition, effects, state);
            lemma_substitute_keeps_meaning(*when_true, effects, state);
            lemma_substitute_keeps_meaning(*when_false, effects, state);
        },
    }
}

} // verus!
