//! Facts about the weight of expressions.
use vstd::prelude::*;

use crate::canonical_form::{leaf_weight, weight, weights};
use crate::instruction_semantics::{children, ExprV};

verus! {

/// No expression weighs less than one without parts.
pub proof fn lemma_weight_positive(expr: ExprV)
    ensures
        weight(expr) >= leaf_weight(),
    decreases expr,
{
    match expr {
        ExprV::Mul(lhs, rhs) | ExprV::Xor(lhs, rhs) => {
            lemma_weight_positive(*lhs);
            lemma_weight_positive(*rhs);
            let a = weight(*lhs) as int;
            let b = weight(*rhs) as int;
            assert(a * b >= 10000) by (nonlinear_arith)
                requires
                    a >= 10000,
                    b >= 10000,
            ;
        },
        ExprV::Add(lhs, _)
        | ExprV::And(lhs, _)
        | ExprV::Or(lhs, _)
        | ExprV::ShiftLeft(lhs, _)
        | ExprV::LogicalShiftRight(lhs, _)
        | ExprV::ArithmeticShiftRight(lhs, _)
        | ExprV::RotateRight(lhs, _)
        | ExprV::Equal(lhs, _)
        | ExprV::UnsignedLessThan(lhs, _)
        | ExprV::SignedLessThan(lhs, _) => {
            lemma_weight_positive(*lhs);
        },
        ExprV::Not(value)
        | ExprV::CountOnes(value)
        | ExprV::Extract { value, .. }
        | ExprV::ZeroExtend { value, .. }
        | ExprV::SignExtend { value, .. } => {
            lemma_weight_positive(*value);
        },
        ExprV::ReadRegister { register, .. } => {
            lemma_weight_positive(*register);
        },
        ExprV::ReadMemory { address, .. } => {
            lemma_weight_positive(*address);
        },
        ExprV::AddCarryOut { lhs, .. }
        | ExprV::AddOverflow { lhs, .. }
        | ExprV::SubCarryOut { lhs, .. }
        | ExprV::SubOverflow { lhs, .. } => {
            lemma_weight_positive(*lhs);
        },
        ExprV::Select { when_true, .. } => {
            lemma_weight_positive(*when_true);
        },
        _ => {},
    }
}

/// The weight of a row is the sum over its parts.
pub proof fn lemma_weights_part(exprs: Seq<ExprV>, i: int)
    requires
        0 <= i < exprs.len(),
    ensures
        weight(exprs[i]) <= weights(exprs),
    decreases exprs.len(),
{
    if i < exprs.len() - 1 {
        lemma_weights_part(exprs.drop_last(), i);
        assert(exprs.drop_last()[i] == exprs[i]);
    }
}

/// Every part weighs less than the whole.
pub proof fn lemma_weight_children(expr: ExprV)
    ensures
        forall|i: int|
            0 <= i < children(expr).len() ==> weight(#[trigger] children(expr)[i]) < weight(expr),
{
    match expr {
        ExprV::Mul(lhs, rhs) | ExprV::Xor(lhs, rhs) => {
            lemma_weight_positive(*lhs);
            lemma_weight_positive(*rhs);
            let a = weight(*lhs) as int;
            let b = weight(*rhs) as int;
            assert(a * b > a && a * b > b) by (nonlinear_arith)
                requires
                    a >= 10000,
                    b >= 10000,
            ;
        },
        ExprV::Concat(values) => {
            assert forall|i: int| 0 <= i < children(expr).len() implies weight(
                #[trigger] children(expr)[i],
            ) < weight(expr) by {
                lemma_weights_part(values, i);
            }
        },
        _ => {},
    }
}

} // verus!
