//! When an expression can be collapsed for an instruction.
use vstd::prelude::*;

use crate::canonical_defined::{lemma_flatten_some, lemma_known_defined, lemma_merge_defined};
use crate::canonical_form::flatten;
use crate::canonical_meaning::{lemma_chunks_defined, lemma_same_chunks};
use crate::collapse::{
    collapse_assoc, collapse_binary, collapsed, collapsed_all, derived_expr, field_bits,
    immediate_literal, selected_register, BinaryOp,
};
use crate::collapse_meaning::{describes, lemma_all_collapse, lemma_collapse_keeps_meaning};
use crate::const_eval::AssocCommOp;
use crate::evaluation::{assoc_word, binary_word, eval, State};
use crate::instruction_semantics::{ExprV, OperandV, RegisterV};
use crate::isa_specification::DecodedV;
use crate::tree_laws::{lemma_flatten, lemma_literals, lemma_total_concat, lemma_value_fits};

verus! {

/// All names of a row of expressions are known.
pub open spec fn all_grounded(exprs: Seq<ExprV>, instruction: DecodedV, depth: nat) -> bool
    decreases depth, exprs, 0nat,
{
    exprs.len() == 0 || (all_grounded(exprs.drop_last(), instruction, depth) && grounded(
        exprs.last(),
        instruction,
        depth,
    ))
}

/// The instruction has the fields and the derived values that the expression names, and derived
/// values are nested no deeper than `depth`.
pub open spec fn grounded(expr: ExprV, instruction: DecodedV, depth: nat) -> bool
    decreases depth, expr, 1nat,
{
    match expr {
        ExprV::Const { .. } => true,
        ExprV::Operand(OperandV::ImmediateField(name)) => immediate_literal(
            field_bits(instruction.fields, name),
        ) is Some,
        ExprV::Operand(OperandV::RegisterField(RegisterV::FromField(name))) => selected_register(
            field_bits(instruction.fields, name),
        ) is Some,
        ExprV::Operand(OperandV::RegisterField(RegisterV::Fixed { .. })) => true,
        ExprV::DerivedValue(name) => match derived_expr(instruction.form.derived_values, name) {
            None => false,
            Some(value) => depth > 0 && grounded(value, instruction, (depth - 1) as nat),
        },
        ExprV::ReadRegister { register: part, .. }
        | ExprV::ReadMemory { address: part, .. }
        | ExprV::Not(part)
        | ExprV::CountOnes(part)
        | ExprV::Extract { value: part, .. }
        | ExprV::ZeroExtend { value: part, .. }
        | ExprV::SignExtend { value: part, .. } => grounded(*part, instruction, depth),
        ExprV::Add(lhs, rhs)
        | ExprV::Sub(lhs, rhs)
        | ExprV::Mul(lhs, rhs)
        | ExprV::And(lhs, rhs)
        | ExprV::Or(lhs, rhs)
        | ExprV::Xor(lhs, rhs)
        | ExprV::ShiftLeft(lhs, rhs)
        | ExprV::LogicalShiftRight(lhs, rhs)
        | ExprV::ArithmeticShiftRight(lhs, rhs)
        | ExprV::RotateRight(lhs, rhs)
        | ExprV::Equal(lhs, rhs)
        | ExprV::UnsignedLessThan(lhs, rhs)
        | ExprV::SignedLessThan(lhs, rhs) => grounded(*lhs, instruction, depth) && grounded(
            *rhs,
            instruction,
            depth,
        ),
        ExprV::Concat(values) => all_grounded(values, instruction, depth),
        ExprV::AddCarryOut { lhs: a, rhs: b, carry_in: c, .. }
        | ExprV::AddOverflow { lhs: a, rhs: b, carry_in: c, .. }
        | ExprV::SubCarryOut { lhs: a, rhs: b, borrow_in: c, .. }
        | ExprV::SubOverflow { lhs: a, rhs: b, borrow_in: c, .. }
        | ExprV::Select { condition: a, when_true: b, when_false: c } => grounded(
            *a,
            instruction,
            depth,
        ) && grounded(*b, instruction, depth) && grounded(*c, instruction, depth),
    }
}

proof fn lemma_assoc_collapses(op: AssocCommOp, lhs: ExprV, rhs: ExprV, state: State)
    requires
        assoc_word(op, eval(lhs, state), eval(rhs, state)) is Some,
    ensures
        collapse_assoc(op, Some(lhs), Some(rhs)) is Some,
{
    let width = eval(lhs, state)->0.width;
    let terms = flatten(op, lhs) + flatten(op, rhs);
    lemma_value_fits(lhs, state, width);
    lemma_value_fits(rhs, state, width);
    lemma_flatten(op, lhs, state, width);
    lemma_flatten(op, rhs, state, width);
    lemma_total_concat(op, flatten(op, lhs), flatten(op, rhs), state, width);
    lemma_flatten_some(op, lhs);
    lemma_known_defined(op, terms, state, width);
    lemma_literals(op, terms, state, width);
}

proof fn lemma_all_collapses(exprs: Seq<ExprV>, instruction: DecodedV, depth: nat, state: State)
    requires
        describes(state, instruction),
        all_grounded(exprs, instruction, depth),
        forall|i: int| 0 <= i < exprs.len() ==> eval(#[trigger] exprs[i], state) is Some,
    ensures
        collapsed_all(exprs, instruction, depth) is Some,
    decreases depth, exprs, 0nat,
{
    if exprs.len() > 0 {
        let front = exprs.drop_last();
        let last = exprs.last();
        assert forall|i: int| 0 <= i < front.len() implies eval(#[trigger] front[i], state)
            is Some by {
            assert(front[i] == exprs[i]);
        }
        assert(exprs[exprs.len() - 1] == last);
        lemma_all_collapses(front, instruction, depth, state);
        lemma_collapse_defined(last, instruction, depth, state);
    }
}

/// An expression whose names the instruction has, and that has a word under it, can be collapsed.
#[verifier::rlimit(40)]
pub proof fn lemma_collapse_defined(
    expr: ExprV,
    instruction: DecodedV,
    depth: nat,
    state: State,
)
    requires
        describes(state, instruction),
        grounded(expr, instruction, depth),
        eval(expr, state) is Some,
    ensures
        collapsed(expr, instruction, depth) is Some,
    decreases depth, expr, 1nat,
{
    match expr {
        ExprV::Const { .. } | ExprV::Operand(_) => {},
        ExprV::DerivedValue(name) => {
            let given = crate::collapse_meaning::leaf_word((state.derived)(name));
            let value = derived_expr(instruction.form.derived_values, name)->0;
            assert(eval(value, state) == eval(expr, state));
            lemma_collapse_defined(value, instruction, (depth - 1) as nat, state);
        },
        ExprV::ReadRegister { register: part, .. } | ExprV::ReadMemory { address: part, .. } => {
            lemma_collapse_defined(*part, instruction, depth, state);
        },
        ExprV::Add(lhs, rhs)
        | ExprV::Mul(lhs, rhs)
        | ExprV::And(lhs, rhs)
        | ExprV::Or(lhs, rhs)
        | ExprV::Xor(lhs, rhs) => {
            let op = match expr {
                ExprV::Add(_, _) => AssocCommOp::Add,
                ExprV::Mul(_, _) => AssocCommOp::Mul,
                ExprV::And(_, _) => AssocCommOp::And,
                ExprV::Or(_, _) => AssocCommOp::Or,
                _ => AssocCommOp::Xor,
            };
            lemma_collapse_defined(*lhs, instruction, depth, state);
            lemma_collapse_keeps_meaning(*lhs, instruction, depth, state);
            lemma_collapse_defined(*rhs, instruction, depth, state);
            lemma_collapse_keeps_meaning(*rhs, instruction, depth, state);
            let a = collapsed(*lhs, instruction, depth);
            let b = collapsed(*rhs, instruction, depth);
            lemma_assoc_collapses(op, a->0, b->0, state);
            assert(collapsed(expr, instruction, depth) == collapse_assoc(op, a, b));
        },
        ExprV::Sub(lhs, rhs)
        | ExprV::ShiftLeft(lhs, rhs)
        | ExprV::LogicalShiftRight(lhs, rhs)
        | ExprV::ArithmeticShiftRight(lhs, rhs)
        | ExprV::RotateRight(lhs, rhs)
        | ExprV::Equal(lhs, rhs)
        | ExprV::UnsignedLessThan(lhs, rhs)
        | ExprV::SignedLessThan(lhs, rhs) => {
            let op = match expr {
                ExprV::Sub(_, _) => BinaryOp::Sub,
                ExprV::ShiftLeft(_, _) => BinaryOp::ShiftLeft,
                ExprV::LogicalShiftRight(_, _) => BinaryOp::LogicalShiftRight,
                ExprV::ArithmeticShiftRight(_, _) => BinaryOp::ArithmeticShiftRight,
                ExprV::RotateRight(_, _) => BinaryOp::RotateRight,
                ExprV::Equal(_, _) => BinaryOp::Equal,
                ExprV::UnsignedLessThan(_, _) => BinaryOp::UnsignedLessThan,
                _ => BinaryOp::SignedLessThan,
            };
            lemma_collapse_defined(*lhs, instruction, depth, state);
            lemma_collapse_keeps_meaning(*lhs, instruction, depth, state);
            lemma_collapse_defined(*rhs, instruction, depth, state);
            lemma_collapse_keeps_meaning(*rhs, instruction, depth, state);
            let a = collapsed(*lhs, instruction, depth);
            let b = collapsed(*rhs, instruction, depth);
            assert(binary_word(op, eval(a->0, state), eval(b->0, state)) is Some);
            assert(collapsed(expr, instruction, depth) == collapse_binary(op, a, b));
        },
        ExprV::Not(value)
        | ExprV::CountOnes(value)
        | ExprV::Extract { value, .. }
        | ExprV::ZeroExtend { value, .. }
        | ExprV::SignExtend { value, .. } => {
            lemma_collapse_defined(*value, instruction, depth, state);
            lemma_collapse_keeps_meaning(*value, instruction, depth, state);
        },
        ExprV::Concat(values) => {
            lemma_chunks_defined(values, state);
            lemma_all_collapses(values, instruction, depth, state);
            lemma_all_collapse(values, instruction, depth, state);
            let chunks = collapsed_all(values, instruction, depth)->0;
            lemma_same_chunks(values, chunks, state);
            lemma_merge_defined(chunks, state);
        },
        ExprV::AddCarryOut { lhs: a, rhs: b, carry_in: c, .. }
        | ExprV::AddOverflow { lhs: a, rhs: b, carry_in: c, .. }
        | ExprV::SubCarryOut { lhs: a, rhs: b, borrow_in: c, .. }
        | ExprV::SubOverflow { lhs: a, rhs: b, borrow_in: c, .. }
        | ExprV::Select { condition: a, when_true: b, when_false: c } => {
            lemma_collapse_defined(*a, instruction, depth, state);
            lemma_collapse_keeps_meaning(*a, instruction, depth, state);
            lemma_collapse_defined(*b, instruction, depth, state);
            lemma_collapse_keeps_meaning(*b, instruction, depth, state);
            lemma_collapse_defined(*c, instruction, depth, state);
            lemma_collapse_keeps_meaning(*c, instruction, depth, state);
        },
    }
}

} // verus!
