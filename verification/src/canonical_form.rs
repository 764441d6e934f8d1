//! The canonical form of an expression, as a mathematical function.
//!
//! `canon` gives the form, or `None` where there is none: a width is invalid, unknown
//! where it is needed, or does not fit its place.
use vstd::prelude::*;

use crate::const_eval::{
    canonical, combine, is_annihilator, is_identity, mask, valid_width, AssocCommOp,
};
use crate::expr_shape::{key_le, width_of};
use crate::instruction_semantics::{bool_view, ExprV};

verus! {

/// The weight of an expression without parts.
pub open spec fn leaf_weight() -> nat {
    10000
}

/// The weights of a row of expressions together.
pub open spec fn weights(exprs: Seq<ExprV>) -> nat
    decreases exprs, 0nat,
{
    if exprs.len() == 0 {
        0
    } else {
        weights(exprs.drop_last()) + weight(exprs.last())
    }
}

/// A measure that every rewriting step of the canonical form makes smaller.
///
/// An operator that is rewritten into others weighs more than what it becomes: `Xor` and
/// `Mul` multiply the weights of their operands, since their rewriting copies operands.
pub open spec fn weight(expr: ExprV) -> nat
    decreases expr, 1nat,
{
    match expr {
        ExprV::Const { .. } | ExprV::Operand(_) | ExprV::DerivedValue(_) => leaf_weight(),
        ExprV::ReadRegister { register, .. } => weight(*register) + 1,
        ExprV::ReadMemory { address, .. } => weight(*address) + 1,
        ExprV::Mul(lhs, rhs) | ExprV::Xor(lhs, rhs) => weight(*lhs) * weight(*rhs),
        ExprV::Or(lhs, rhs) => weight(*lhs) + weight(*rhs) + 6,
        ExprV::Sub(lhs, rhs) => weight(*lhs) + weight(*rhs) + leaf_weight() + 4,
        ExprV::Add(lhs, rhs)
        | ExprV::And(lhs, rhs)
        | ExprV::ShiftLeft(lhs, rhs)
        | ExprV::LogicalShiftRight(lhs, rhs)
        | ExprV::ArithmeticShiftRight(lhs, rhs)
        | ExprV::RotateRight(lhs, rhs)
        | ExprV::Equal(lhs, rhs)
        | ExprV::UnsignedLessThan(lhs, rhs)
        | ExprV::SignedLessThan(lhs, rhs) => weight(*lhs) + weight(*rhs) + 1,
        ExprV::Not(value)
        | ExprV::CountOnes(value)
        | ExprV::Extract { value, .. }
        | ExprV::ZeroExtend { value, .. }
        | ExprV::SignExtend { value, .. } => weight(*value) + 1,
        ExprV::Concat(values) => leaf_weight() + weights(values),
        ExprV::AddCarryOut { lhs, rhs, carry_in, .. }
        | ExprV::AddOverflow { lhs, rhs, carry_in, .. } => weight(*lhs) + weight(*rhs) + weight(
            *carry_in,
        ) + 1,
        ExprV::SubCarryOut { lhs, rhs, borrow_in, .. }
        | ExprV::SubOverflow { lhs, rhs, borrow_in, .. } => weight(*lhs) + weight(*rhs) + weight(
            *borrow_in,
        ) + 4,
        ExprV::Select { condition, when_true, when_false } => 2 * weight(*condition) + weight(
            *when_true,
        ) + weight(*when_false) + 12,
    }
}

/// A literal.
pub open spec fn lit(value: u128, width: u16) -> ExprV {
    ExprV::Const { value, width }
}

/// A complemented expression.
pub open spec fn not_of(value: ExprV) -> ExprV {
    ExprV::Not(Box::new(value))
}

/// A conjunction.
pub open spec fn and_of(lhs: ExprV, rhs: ExprV) -> ExprV {
    ExprV::And(Box::new(lhs), Box::new(rhs))
}

/// A disjunction.
pub open spec fn or_of(lhs: ExprV, rhs: ExprV) -> ExprV {
    ExprV::Or(Box::new(lhs), Box::new(rhs))
}

/// A sum.
pub open spec fn sum_of(lhs: ExprV, rhs: ExprV) -> ExprV {
    ExprV::Add(Box::new(lhs), Box::new(rhs))
}

/// The node of an associative and commutative operator.
pub open spec fn node(op: AssocCommOp, lhs: ExprV, rhs: ExprV) -> ExprV {
    match op {
        AssocCommOp::Add => ExprV::Add(Box::new(lhs), Box::new(rhs)),
        AssocCommOp::Mul => ExprV::Mul(Box::new(lhs), Box::new(rhs)),
        AssocCommOp::And => ExprV::And(Box::new(lhs), Box::new(rhs)),
        AssocCommOp::Or => ExprV::Or(Box::new(lhs), Box::new(rhs)),
        AssocCommOp::Xor => ExprV::Xor(Box::new(lhs), Box::new(rhs)),
    }
}

/// The leaves of a tree of one operator, from left to right.
pub open spec fn flatten(op: AssocCommOp, expr: ExprV) -> Seq<ExprV>
    decreases expr,
{
    match (op, expr) {
        (AssocCommOp::Add, ExprV::Add(lhs, rhs))
        | (AssocCommOp::Mul, ExprV::Mul(lhs, rhs))
        | (AssocCommOp::And, ExprV::And(lhs, rhs))
        | (AssocCommOp::Or, ExprV::Or(lhs, rhs))
        | (AssocCommOp::Xor, ExprV::Xor(lhs, rhs)) => flatten(op, *lhs) + flatten(op, *rhs),
        _ => seq![expr],
    }
}

/// The leaves of several trees of one operator.
pub open spec fn flatten_all(op: AssocCommOp, exprs: Seq<ExprV>) -> Seq<ExprV>
    decreases exprs.len(),
{
    if exprs.len() == 0 {
        seq![]
    } else {
        flatten_all(op, exprs.drop_last()) + flatten(op, exprs.last())
    }
}

/// The left-associated tree over the terms.
pub open spec fn rebuild(op: AssocCommOp, terms: Seq<ExprV>) -> ExprV
    decreases terms.len(),
{
    if terms.len() <= 1 {
        terms[0]
    } else {
        node(op, rebuild(op, terms.drop_last()), terms.last())
    }
}

/// The terms that are no literals, in order.
pub open spec fn unknowns(terms: Seq<ExprV>) -> Seq<ExprV>
    decreases terms.len(),
{
    if terms.len() == 0 {
        seq![]
    } else if terms.last() is Const {
        unknowns(terms.drop_last())
    } else {
        unknowns(terms.drop_last()).push(terms.last())
    }
}

/// The literals of the terms combined into one word, where there are any.
///
/// The outer `None` stands for literals of invalid or of different widths.
pub open spec fn known(op: AssocCommOp, terms: Seq<ExprV>) -> Option<Option<(u128, u16)>>
    decreases terms.len(),
{
    if terms.len() == 0 {
        Some(None)
    } else {
        match (known(op, terms.drop_last()), terms.last()) {
            (None, _) => None,
            (Some(before), ExprV::Const { value, width }) => if !valid_width(width) {
                None
            } else {
                match before {
                    None => Some(Some((canonical(value, width), width))),
                    Some((acc, acc_width)) => if acc_width == width {
                        Some(Some((combine(op, acc, canonical(value, width), width), width)))
                    } else {
                        None
                    },
                }
            },
            (Some(before), _) => Some(before),
        }
    }
}

/// A row with one more term, placed behind every term whose key is not greater.
pub open spec fn insert_by_key(sorted: Seq<ExprV>, term: ExprV) -> Seq<ExprV>
    decreases sorted.len(),
{
    if sorted.len() == 0 || key_le(sorted.last(), term) {
        sorted.push(term)
    } else {
        insert_by_key(sorted.drop_last(), term).push(sorted.last())
    }
}

/// The terms in the order of their keys, equal keys in the order given.
pub open spec fn sorted_by_key(terms: Seq<ExprV>) -> Seq<ExprV>
    decreases terms.len(),
{
    if terms.len() == 0 {
        seq![]
    } else {
        insert_by_key(sorted_by_key(terms.drop_last()), terms.last())
    }
}

/// The terms without immediate repetitions.
pub open spec fn dedup(terms: Seq<ExprV>) -> Seq<ExprV>
    decreases terms.len(),
{
    if terms.len() <= 1 {
        terms
    } else if terms.last() == terms[terms.len() - 2] {
        dedup(terms.drop_last())
    } else {
        dedup(terms.drop_last()).push(terms.last())
    }
}

/// How many terms from `start` on equal the term at `start`.
pub open spec fn run_length(terms: Seq<ExprV>, start: int, from: int) -> int
    decreases terms.len() - from,
{
    if from < terms.len() && terms[from] == terms[start] {
        run_length(terms, start, from + 1)
    } else {
        from - start
    }
}

/// What remains of exclusive-or terms when pairs of equal terms cancel.
///
/// A pair of unknown width stays, since the zero it stands for has no width.
pub open spec fn cancel_pairs(terms: Seq<ExprV>, start: int) -> Seq<ExprV>
    decreases terms.len() - start,
{
    if start < 0 || start >= terms.len() {
        seq![]
    } else {
        let run = run_length(terms, start, start + 1);
        let rest = if 1 <= run <= terms.len() - start {
            cancel_pairs(terms, start + run)
        } else {
            seq![]
        };
        if run % 2 == 1 {
            seq![terms[start]] + rest
        } else if width_of(terms[start]) is Some {
            rest
        } else {
            seq![terms[start], terms[start]] + rest
        }
    }
}

/// The width of the last pair that cancels, or the given one where none does.
pub open spec fn cancelled_width(terms: Seq<ExprV>, start: int, before: Option<u16>) -> Option<u16>
    decreases terms.len() - start,
{
    if start < 0 || start >= terms.len() {
        before
    } else {
        let run = run_length(terms, start, start + 1);
        let here = if run % 2 != 1 && width_of(terms[start]) is Some {
            width_of(terms[start])
        } else {
            before
        };
        if 1 <= run <= terms.len() - start {
            cancelled_width(terms, start + run, here)
        } else {
            here
        }
    }
}

/// Two of the terms are complements of each other.
pub open spec fn has_complement(terms: Seq<ExprV>) -> bool {
    exists|i: int, j: int|
        0 <= i < j < terms.len() && (#[trigger] terms[i] == not_of(#[trigger] terms[j]) || terms[j]
            == not_of(terms[i]))
}

/// The first known width among the terms.
pub open spec fn first_width(terms: Seq<ExprV>) -> Option<u16>
    decreases terms.len(),
{
    if terms.len() == 0 {
        None
    } else {
        match first_width(terms.drop_last()) {
            Some(width) => Some(width),
            None => width_of(terms.last()),
        }
    }
}

/// The width of a combined literal.
pub open spec fn known_width(constant: Option<(u128, u16)>) -> Option<u16> {
    match constant {
        Some((_, width)) => Some(width),
        None => None,
    }
}

/// The terms of an operator after its own laws of repetition.
pub open spec fn reduced(op: AssocCommOp, sorted: Seq<ExprV>) -> Seq<ExprV> {
    match op {
        AssocCommOp::And | AssocCommOp::Or => dedup(sorted),
        AssocCommOp::Xor => cancel_pairs(sorted, 0),
        AssocCommOp::Add | AssocCommOp::Mul => sorted,
    }
}

/// The literal of an operator after its own laws of repetition: cancelled terms leave a zero.
pub open spec fn reduced_constant(
    op: AssocCommOp,
    sorted: Seq<ExprV>,
    constant: Option<(u128, u16)>,
) -> Option<(u128, u16)> {
    if op == AssocCommOp::Xor && constant is None && cancel_pairs(sorted, 0).len() == 0 {
        match cancelled_width(sorted, 0, None) {
            Some(width) => Some((0u128, width)),
            None => None,
        }
    } else {
        constant
    }
}

/// The tree over terms and a literal: a determining literal stands alone, a neutral one goes.
pub open spec fn with_constant(
    op: AssocCommOp,
    terms: Seq<ExprV>,
    constant: Option<(u128, u16)>,
) -> Option<ExprV> {
    match constant {
        None => if terms.len() == 0 {
            None
        } else {
            Some(rebuild(op, terms))
        },
        Some((value, width)) => if !valid_width(width) {
            None
        } else if is_annihilator(op, value, width) {
            Some(lit(canonical(value, width), width))
        } else if is_identity(op, value, width) && terms.len() > 0 {
            Some(rebuild(op, terms))
        } else {
            Some(rebuild(op, terms.push(lit(canonical(value, width), width))))
        },
    }
}

/// The tree that an operator makes of canonical leaves.
pub open spec fn combine_terms(op: AssocCommOp, leaves: Seq<ExprV>) -> Option<ExprV> {
    match known(op, leaves) {
        None => None,
        Some(literal) => {
            let sorted = sorted_by_key(unknowns(leaves));
            let terms = reduced(op, sorted);
            let constant = reduced_constant(op, sorted, literal);
            let width = match first_width(terms) {
                Some(width) => Some(width),
                None => known_width(constant),
            };
            if (op == AssocCommOp::And || op == AssocCommOp::Or) && has_complement(terms) && width
                is Some {
                let width = width->0;
                if !valid_width(width) {
                    None
                } else if op == AssocCommOp::And {
                    Some(lit(0, width))
                } else {
                    Some(lit(mask(width), width))
                }
            } else {
                with_constant(op, terms, constant)
            }
        },
    }
}

/// The next power of two of a multiplied term: one more place to the left.
pub open spec fn doubled(term: ExprV, width: u16) -> ExprV {
    match term {
        ExprV::ShiftLeft(value, amount) => ExprV::ShiftLeft(
            value,
            Box::new(sum_of(*amount, lit(1, width))),
        ),
        _ => ExprV::ShiftLeft(Box::new(term), Box::new(lit(1, width))),
    }
}

/// The sum of the shifted terms that a constant factor selects.
pub open spec fn shifted_sum(term: ExprV, factor: u128, sum: ExprV, width: u16) -> ExprV
    decreases factor,
{
    if factor == 0 {
        sum
    } else {
        shifted_sum(
            doubled(term, width),
            factor / 2,
            if factor % 2 == 1 {
                sum_of(sum, term)
            } else {
                sum
            },
            width,
        )
    }
}

/// The operator that the absorption laws pair with a Boolean operator.
pub open spec fn opposite(op: AssocCommOp) -> AssocCommOp {
    if op == AssocCommOp::And {
        AssocCommOp::Or
    } else {
        AssocCommOp::And
    }
}

/// The expression is a node of the operator.
pub open spec fn is_node(op: AssocCommOp, expr: ExprV) -> bool {
    match op {
        AssocCommOp::Add => expr is Add,
        AssocCommOp::Mul => expr is Mul,
        AssocCommOp::And => expr is And,
        AssocCommOp::Or => expr is Or,
        AssocCommOp::Xor => expr is Xor,
    }
}

/// The chunks of a concatenation with neighbouring literals merged into one.
pub open spec fn merge_chunks(chunks: Seq<ExprV>) -> Option<Seq<ExprV>>
    decreases chunks.len(),
{
    if chunks.len() == 0 {
        Some(seq![])
    } else {
        match merge_chunks(chunks.drop_last()) {
            None => None,
            Some(merged) => match chunks.last() {
                ExprV::Const { value, width } => if !valid_width(width) {
                    None
                } else if merged.len() > 0 && merged.last() is Const {
                    match merged.last() {
                        ExprV::Const { value: above, width: above_width } => if above_width + width
                            <= 128 && valid_width(above_width) {
                            let total = (above_width + width) as u16;
                            Some(
                                merged.drop_last().push(
                                    lit(
                                        canonical(
                                            (canonical(above, above_width) << width) | canonical(
                                                value,
                                                width,
                                            ),
                                            total,
                                        ),
                                        total,
                                    ),
                                ),
                            )
                        } else {
                            None
                        },
                        _ => None,
                    }
                } else {
                    Some(merged.push(lit(canonical(value, width), width)))
                },
                other => Some(merged.push(other)),
            },
        }
    }
}

/// A concatenation of merged chunks; a single chunk stands for itself.
pub open spec fn joined(chunks: Seq<ExprV>) -> Option<ExprV> {
    match merge_chunks(chunks) {
        None => None,
        Some(merged) => Some(
            if merged.len() == 1 {
                merged[0]
            } else {
                ExprV::Concat(merged)
            },
        ),
    }
}

/// Shifts and rotations.
#[derive(Clone, Copy, Debug, PartialEq, Eq, Structural)]
pub enum ShiftOp {
    Left,
    LogicalRight,
    ArithmeticRight,
    RotateRight,
}

/// The node of a shift.
pub open spec fn shift_node(op: ShiftOp, value: ExprV, amount: ExprV) -> ExprV {
    match op {
        ShiftOp::Left => ExprV::ShiftLeft(Box::new(value), Box::new(amount)),
        ShiftOp::LogicalRight => ExprV::LogicalShiftRight(Box::new(value), Box::new(amount)),
        ShiftOp::ArithmeticRight => ExprV::ArithmeticShiftRight(Box::new(value), Box::new(amount)),
        ShiftOp::RotateRight => ExprV::RotateRight(Box::new(value), Box::new(amount)),
    }
}

/// The literal is zero.
pub open spec fn is_zero(expr: ExprV) -> bool {
    match expr {
        ExprV::Const { value, width } => canonical(value, width) == 0,
        _ => false,
    }
}

/// The expression is no literal of an invalid width.
pub open spec fn literal_valid(expr: ExprV) -> bool {
    match expr {
        ExprV::Const { width, .. } => valid_width(width),
        _ => true,
    }
}

/// A shift of canonical operands: by zero it is the value, of zero it is zero.
pub open spec fn canon_shift(op: ShiftOp, value: Option<ExprV>, amount: Option<ExprV>) -> Option<
    ExprV,
> {
    match (value, amount) {
        (Some(value), Some(amount)) => if !literal_valid(amount) {
            None
        } else if is_zero(amount) {
            Some(value)
        } else if !literal_valid(value) {
            None
        } else if is_zero(value) {
            Some(lit(0, value->Const_width))
        } else {
            Some(shift_node(op, value, amount))
        },
        _ => None,
    }
}

/// Width extensions.
#[derive(Clone, Copy, Debug, PartialEq, Eq, Structural)]
pub enum ExtensionOp {
    Zero,
    Sign,
}

/// The node of an extension.
pub open spec fn extension_node(op: ExtensionOp, value: ExprV, to_width: u16) -> ExprV {
    match op {
        ExtensionOp::Zero => ExprV::ZeroExtend { value: Box::new(value), to_width },
        ExtensionOp::Sign => ExprV::SignExtend { value: Box::new(value), to_width },
    }
}

/// The value inside of an extension of the same kind.
pub open spec fn strip_nested(op: ExtensionOp, value: ExprV) -> ExprV {
    match (op, value) {
        (ExtensionOp::Zero, ExprV::ZeroExtend { value, .. }) => *value,
        (ExtensionOp::Sign, ExprV::SignExtend { value, .. }) => *value,
        (_, value) => value,
    }
}

/// An extension of a canonical value: none is left to the width it has, none may shrink.
pub open spec fn canon_extension(op: ExtensionOp, value: Option<ExprV>, to_width: u16) -> Option<
    ExprV,
> {
    match value {
        None => None,
        Some(value) => match width_of(value) {
            Some(width) => if width > to_width {
                None
            } else if width == to_width {
                Some(value)
            } else {
                Some(extension_node(op, strip_nested(op, value), to_width))
            },
            None => Some(extension_node(op, strip_nested(op, value), to_width)),
        },
    }
}

/// A bit range of a canonical value: the full range is the value.
pub open spec fn canon_extract(value: Option<ExprV>, high: u16, low: u16) -> Option<ExprV> {
    match value {
        None => None,
        Some(value) => if high < low || high - low + 1 > 128 {
            None
        } else {
            match width_of(value) {
                Some(width) => if high >= width {
                    None
                } else if low == 0 && high - low + 1 == width {
                    Some(value)
                } else {
                    Some(ExprV::Extract { value: Box::new(value), high, low })
                },
                None => Some(ExprV::Extract { value: Box::new(value), high, low }),
            }
        },
    }
}

/// A comparison that is decided when both canonical sides are the same.
pub open spec fn canon_less(signed: bool, lhs: Option<ExprV>, rhs: Option<ExprV>) -> Option<ExprV> {
    match (lhs, rhs) {
        (Some(lhs), Some(rhs)) => if lhs == rhs {
            Some(bool_view(false))
        } else if signed {
            Some(ExprV::SignedLessThan(Box::new(lhs), Box::new(rhs)))
        } else {
            Some(ExprV::UnsignedLessThan(Box::new(lhs), Box::new(rhs)))
        },
        _ => None,
    }
}

/// An equality whose sides stand in the order of their keys.
pub open spec fn canon_equal(lhs: Option<ExprV>, rhs: Option<ExprV>) -> Option<ExprV> {
    match (lhs, rhs) {
        (Some(lhs), Some(rhs)) => if lhs == rhs {
            Some(bool_view(true))
        } else if key_le(lhs, rhs) {
            Some(ExprV::Equal(Box::new(lhs), Box::new(rhs)))
        } else {
            Some(ExprV::Equal(Box::new(rhs), Box::new(lhs)))
        },
        _ => None,
    }
}

/// The flag node of an addition: its carry or its overflow.
pub open spec fn flag_node(overflow: bool, lhs: ExprV, rhs: ExprV, flag: ExprV, width: u16) -> ExprV {
    if overflow {
        ExprV::AddOverflow {
            lhs: Box::new(lhs),
            rhs: Box::new(rhs),
            carry_in: Box::new(flag),
            width,
        }
    } else {
        ExprV::AddCarryOut {
            lhs: Box::new(lhs),
            rhs: Box::new(rhs),
            carry_in: Box::new(flag),
            width,
        }
    }
}

/// A flag of canonical operands.
pub open spec fn canon_flag(
    overflow: bool,
    lhs: Option<ExprV>,
    rhs: Option<ExprV>,
    flag: Option<ExprV>,
    width: u16,
) -> Option<ExprV> {
    match (lhs, rhs, flag) {
        (Some(lhs), Some(rhs), Some(flag)) => Some(flag_node(overflow, lhs, rhs, flag, width)),
        _ => None,
    }
}

/// A selection written with a mask made of its condition.
pub open spec fn masked_select(
    condition: ExprV,
    when_true: ExprV,
    when_false: ExprV,
    width: u16,
) -> ExprV {
    let wide = ExprV::SignExtend { value: Box::new(condition), to_width: width };
    not_of(
        and_of(
            not_of(and_of(not_of(wide), when_false)),
            not_of(and_of(wide, when_true)),
        ),
    )
}

/// What a rewriting step makes of a node over canonical parts.
pub enum Step {
    /// The node is canonical.
    Done(ExprV),
    /// The node is rewritten into another expression.
    Rewrite(ExprV),
    /// The node has no canonical form.
    Undefined,
}

/// A product with a constant factor becomes a sum of shifts.
pub open spec fn mul_step(expr: Option<ExprV>) -> Step {
    match expr {
        None => Step::Undefined,
        Some(expr) => match width_of(expr) {
            None => Step::Undefined,
            Some(width) => match expr {
                ExprV::Mul(lhs, rhs) => match (*lhs, *rhs) {
                    (ExprV::Const { value: a, .. }, ExprV::Const { value: b, .. }) => if a * b
                        <= u128::MAX && valid_width(width) {
                        Step::Done(lit(canonical((a * b) as u128, width), width))
                    } else {
                        Step::Undefined
                    },
                    (ExprV::Const { value, .. }, term) => Step::Rewrite(
                        shifted_sum(term, value, lit(0, width), width),
                    ),
                    (term, ExprV::Const { value, .. }) => Step::Rewrite(
                        shifted_sum(term, value, lit(0, width), width),
                    ),
                    _ => Step::Done(expr),
                },
                _ => Step::Done(expr),
            },
        },
    }
}

/// The known width that both arms of a selection have.
pub open spec fn shared_arms(when_true: ExprV, when_false: ExprV) -> Option<u16> {
    match (width_of(when_true), width_of(when_false)) {
        (Some(a), Some(b)) => if a == b {
            Some(a)
        } else {
            None
        },
        _ => None,
    }
}

/// `Or`, `Xor` and `Select` are written with `And` and `Not`.
pub open spec fn lower_step(expr: Option<ExprV>) -> Step {
    match expr {
        None => Step::Undefined,
        Some(ExprV::Or(lhs, rhs)) => Step::Rewrite(
            not_of(and_of(not_of(*lhs), not_of(*rhs))),
        ),
        Some(ExprV::Xor(lhs, rhs)) => Step::Rewrite(
            or_of(and_of(*lhs, not_of(*rhs)), and_of(not_of(*lhs), *rhs)),
        ),
        Some(ExprV::Select { condition, when_true, when_false }) => {
            let condition_width = width_of(*condition);
            if condition_width is Some && condition_width != Some(1u16) {
                Step::Undefined
            } else {
                match shared_arms(*when_true, *when_false) {
                    None => Step::Undefined,
                    Some(width) => Step::Rewrite(
                        masked_select(*condition, *when_true, *when_false, width),
                    ),
                }
            }
        },
        Some(expr) => Step::Done(expr),
    }
}

/// A difference of canonical operands: of the same one it is zero, by zero it is the value,
/// else it is a sum with the complement.
pub open spec fn sub_step(lhs: Option<ExprV>, rhs: Option<ExprV>) -> Step {
    match (lhs, rhs) {
        (Some(lhs), Some(rhs)) => if !literal_valid(rhs) {
            Step::Undefined
        } else if is_zero(rhs) {
            Step::Done(lhs)
        } else {
            match width_of(lhs) {
                None => Step::Undefined,
                Some(width) => if lhs == rhs {
                    if valid_width(width) {
                        Step::Done(lit(0, width))
                    } else {
                        Step::Undefined
                    }
                } else {
                    Step::Rewrite(sum_of(sum_of(lhs, not_of(rhs)), lit(1, width)))
                },
            }
        },
        _ => Step::Undefined,
    }
}

/// A selection over canonical parts: decided by a known condition or by equal arms.
pub open spec fn select_step(
    condition: Option<ExprV>,
    when_true: Option<ExprV>,
    when_false: Option<ExprV>,
) -> Step {
    match (condition, when_true, when_false) {
        (Some(condition), Some(when_true), Some(when_false)) => match condition {
            ExprV::Const { value, width } => if width != 1 {
                Step::Undefined
            } else if canonical(value, 1) == 1 {
                Step::Done(when_true)
            } else {
                Step::Done(when_false)
            },
            _ => if when_true == when_false {
                Step::Done(when_true)
            } else {
                lower_step(
                    Some(
                        ExprV::Select {
                            condition: Box::new(condition),
                            when_true: Box::new(when_true),
                            when_false: Box::new(when_false),
                        },
                    ),
                )
            },
        },
        _ => Step::Undefined,
    }
}

/// A complement of a canonical value: of a literal it is folded, of a complement undone.
pub open spec fn canon_not(value: Option<ExprV>) -> Option<ExprV> {
    match value {
        None => None,
        Some(ExprV::Const { value, width }) => if valid_width(width) {
            Some(lit(canonical(!value, width), width))
        } else {
            None
        },
        Some(ExprV::Not(inner)) => Some(*inner),
        Some(value) => Some(not_of(value)),
    }
}

/// A node over one canonical part.
pub open spec fn over(value: Option<ExprV>, make: spec_fn(ExprV) -> ExprV) -> Option<ExprV> {
    match value {
        Some(value) => Some(make(value)),
        None => None,
    }
}

/// The canonical form that a step leads to; what it rewrites to weighs less than the bound.
pub open spec fn settle(step: Step, bound: nat) -> Option<ExprV>
    decreases bound, 0nat, 0nat,
{
    match step {
        Step::Done(expr) => Some(expr),
        Step::Rewrite(expr) => if weight(expr) < bound {
            canon(expr)
        } else {
            None
        },
        Step::Undefined => None,
    }
}

/// The canonical form of an expression that weighs less than the bound.
pub open spec fn below(expr: ExprV, bound: nat) -> Option<ExprV>
    decreases bound, 0nat, 0nat,
{
    if weight(expr) < bound {
        canon(expr)
    } else {
        None
    }
}

/// The canonical forms of a row of expressions that weigh less than the bound.
pub open spec fn canon_all(exprs: Seq<ExprV>, bound: nat) -> Option<Seq<ExprV>>
    decreases bound, 1nat, exprs.len(),
{
    if exprs.len() == 0 {
        Some(seq![])
    } else {
        match (canon_all(exprs.drop_last(), bound), below(exprs.last(), bound)) {
            (Some(before), Some(last)) => Some(before.push(last)),
            _ => None,
        }
    }
}

/// A leaf of the operator's tree has the canonical form `needle`.
pub open spec fn contains_term(op: AssocCommOp, expr: ExprV, needle: ExprV) -> bool
    decreases weight(expr), 7nat, 0nat,
{
    match (op, expr) {
        (AssocCommOp::And, ExprV::And(lhs, rhs)) | (AssocCommOp::Or, ExprV::Or(lhs, rhs)) => {
            contains_term(op, *lhs, needle) || contains_term(op, *rhs, needle)
        },
        _ => canon(expr) == Some(needle),
    }
}

/// Relates a term of the opposite operator to the terms of another canonical form that it
/// contains.
pub open spec fn includes(
    op: AssocCommOp,
    terms: Seq<ExprV>,
    forms: Seq<ExprV>,
    bound: nat,
) -> spec_fn(int, int) -> bool
    decreases bound, 1nat, 0nat,
{
    |i: int, j: int|
        {
            &&& forms[i] != forms[j]
            &&& is_node(opposite(op), terms[i])
            &&& weight(terms[i]) < bound
            &&& contains_term(opposite(op), terms[i], forms[j])
        }
}

/// Nothing among the first `n` is related to `i`.
pub open spec fn at_end(relation: spec_fn(int, int) -> bool, n: nat, i: int) -> bool {
    forall|j: int| 0 <= j < n ==> !(#[trigger] relation(i, j))
}

/// At most `steps` steps of the relation lead from `i` to one that has no further step.
pub open spec fn reaches_end(
    relation: spec_fn(int, int) -> bool,
    n: nat,
    i: int,
    steps: nat,
) -> bool
    decreases steps,
{
    at_end(relation, n, i) || (steps > 0 && exists|j: int|
        0 <= j < n && #[trigger] relation(i, j) && reaches_end(
            relation,
            n,
            j,
            (steps - 1) as nat,
        ))
}

/// The term at `i` is made redundant by a term that stays: it contains that one's canonical form,
/// or the form of another redundant term. Terms that only contain each other all stay.
pub open spec fn absorbed(
    op: AssocCommOp,
    terms: Seq<ExprV>,
    forms: Seq<ExprV>,
    i: int,
    bound: nat,
) -> bool
    decreases bound, 2nat, 0nat,
{
    let relation = includes(op, terms, forms, bound);
    !at_end(relation, forms.len(), i) && reaches_end(relation, forms.len(), i, forms.len())
}

/// The first `n` terms without those that are absorbed.
pub open spec fn kept(
    op: AssocCommOp,
    terms: Seq<ExprV>,
    forms: Seq<ExprV>,
    n: nat,
    bound: nat,
) -> Seq<ExprV>
    decreases bound, 3nat, n,
{
    if n == 0 {
        seq![]
    } else if absorbed(op, terms, forms, n - 1, bound) {
        kept(op, terms, forms, (n - 1) as nat, bound)
    } else {
        kept(op, terms, forms, (n - 1) as nat, bound).push(terms[n - 1])
    }
}

/// The terms of an operator without those that Boolean absorption makes redundant.
pub open spec fn unabsorbed(op: AssocCommOp, terms: Seq<ExprV>, bound: nat) -> Option<Seq<ExprV>>
    decreases bound, 4nat, 0nat,
{
    if op == AssocCommOp::And || op == AssocCommOp::Or {
        match canon_all(terms, bound) {
            None => None,
            Some(forms) => Some(kept(op, terms, forms, terms.len(), bound)),
        }
    } else {
        Some(terms)
    }
}

/// The canonical tree of an associative and commutative operator.
pub open spec fn canon_assoc(op: AssocCommOp, lhs: ExprV, rhs: ExprV, bound: nat) -> Option<ExprV>
    decreases bound, 5nat, 0nat,
{
    match unabsorbed(op, flatten(op, lhs) + flatten(op, rhs), bound) {
        None => None,
        Some(terms) => match canon_all(terms, bound) {
            None => None,
            Some(forms) => combine_terms(op, flatten_all(op, forms)),
        },
    }
}

/// The canonical form of an expression.
pub open spec fn canon(expr: ExprV) -> Option<ExprV>
    decreases weight(expr), 6nat, 0nat,
{
    match expr {
        ExprV::Const { value, width } => if valid_width(width) {
            Some(lit(canonical(value, width), width))
        } else {
            None
        },
        ExprV::Operand(_) | ExprV::DerivedValue(_) => Some(expr),
        ExprV::ReadRegister { register, width } => over(
            canon(*register),
            |r: ExprV| ExprV::ReadRegister { register: Box::new(r), width },
        ),
        ExprV::ReadMemory { address, width } => over(
            canon(*address),
            |a: ExprV| ExprV::ReadMemory { address: Box::new(a), width },
        ),
        ExprV::Add(lhs, rhs) => settle(
            mul_step(canon_assoc(AssocCommOp::Add, *lhs, *rhs, weight(expr))),
            weight(expr),
        ),
        ExprV::Sub(lhs, rhs) => settle(sub_step(canon(*lhs), canon(*rhs)), weight(expr)),
        ExprV::Mul(lhs, rhs) => settle(
            mul_step(canon_assoc(AssocCommOp::Mul, *lhs, *rhs, weight(expr))),
            weight(expr),
        ),
        ExprV::And(lhs, rhs) => canon_assoc(AssocCommOp::And, *lhs, *rhs, weight(expr)),
        ExprV::Or(lhs, rhs) => settle(
            lower_step(canon_assoc(AssocCommOp::Or, *lhs, *rhs, weight(expr))),
            weight(expr),
        ),
        ExprV::Xor(lhs, rhs) => settle(
            lower_step(canon_assoc(AssocCommOp::Xor, *lhs, *rhs, weight(expr))),
            weight(expr),
        ),
        ExprV::Not(value) => canon_not(canon(*value)),
        ExprV::ShiftLeft(value, amount) => canon_shift(
            ShiftOp::Left,
            canon(*value),
            canon(*amount),
        ),
        ExprV::LogicalShiftRight(value, amount) => canon_shift(
            ShiftOp::LogicalRight,
            canon(*value),
            canon(*amount),
        ),
        ExprV::ArithmeticShiftRight(value, amount) => canon_shift(
            ShiftOp::ArithmeticRight,
            canon(*value),
            canon(*amount),
        ),
        ExprV::RotateRight(value, amount) => canon_shift(
            ShiftOp::RotateRight,
            canon(*value),
            canon(*amount),
        ),
        ExprV::Equal(lhs, rhs) => canon_equal(canon(*lhs), canon(*rhs)),
        ExprV::UnsignedLessThan(lhs, rhs) => canon_less(false, canon(*lhs), canon(*rhs)),
        ExprV::SignedLessThan(lhs, rhs) => canon_less(true, canon(*lhs), canon(*rhs)),
        ExprV::Extract { value, high, low } => canon_extract(canon(*value), high, low),
        ExprV::Concat(values) => match canon_all(values, weight(expr)) {
            None => None,
            Some(chunks) => joined(chunks),
        },
        ExprV::ZeroExtend { value, to_width } => canon_extension(
            ExtensionOp::Zero,
            canon(*value),
            to_width,
        ),
        ExprV::SignExtend { value, to_width } => canon_extension(
            ExtensionOp::Sign,
            canon(*value),
            to_width,
        ),
        ExprV::CountOnes(value) => over(
            canon(*value),
            |v: ExprV| ExprV::CountOnes(Box::new(v)),
        ),
        ExprV::AddCarryOut { lhs, rhs, carry_in, width } => canon_flag(
            false,
            canon(*lhs),
            canon(*rhs),
            canon(*carry_in),
            width,
        ),
        ExprV::AddOverflow { lhs, rhs, carry_in, width } => canon_flag(
            true,
            canon(*lhs),
            canon(*rhs),
            canon(*carry_in),
            width,
        ),
        ExprV::SubCarryOut { lhs, rhs, borrow_in, width } => canon_flag(
            false,
            canon(*lhs),
            canon(not_of(*rhs)),
            canon(not_of(*borrow_in)),
            width,
        ),
        ExprV::SubOverflow { lhs, rhs, borrow_in, width } => canon_flag(
            true,
            canon(*lhs),
            canon(not_of(*rhs)),
            canon(not_of(*borrow_in)),
            width,
        ),
        ExprV::Select { condition, when_true, when_false } => settle(
            select_step(canon(*condition), canon(*when_true), canon(*when_false)),
            weight(expr),
        ),
    }
}

} // verus!
