//! Resolving the instruction-dependent leaves of an expression and folding constants.
use vstd::prelude::*;

use crate::bit::{all_concrete, bits_value, Bit, BitPattern};
use crate::canonical_form::{
    extension_node, flatten, joined, known, lit, unknowns, with_constant, ExtensionOp,
};
use crate::collections::{viewed, viewed_option};
use crate::const_eval::{
    add_carry_out_const, add_overflow_const, add_overflows, arithmetic_shift_right_const,
    borrows_not, canonical, canonical_word, carries, complement, count_ones_const, difference,
    difference_const, logical_shift_right_const, mask, ones, rotate_right_const, rotated_right,
    shift_left_const, shifted_left, shifted_right, shifted_right_signed, sign_extend_const,
    sign_extended, signed, signed_less_const, sub_carry_out_const, sub_overflow_const,
    sub_overflows, valid_width, AssocCommOp,
};
use crate::instruction_semantics::{
    bool_const, bool_view, constant, fixed_register, views, Expr, ExprV, OperandRef, OperandV,
    Register, RegisterRef, RegisterV,
};
use crate::isa_specification::{DecodedInstruction, DecodedV, DerivedV, DerivedValue, FieldV};
use crate::terms::{
    const_bits, flatten_assoc_comm_op, lemma_views_push, rebuild_concat, split_literals,
};

verus! {

/// The bits of the first field with the name.
pub open spec fn field_bits(fields: Seq<FieldV>, name: Seq<char>) -> Option<Seq<Bit>>
    decreases fields.len(),
{
    if fields.len() == 0 {
        None
    } else {
        match field_bits(fields.drop_last(), name) {
            Some(bits) => Some(bits),
            None => if fields.last().name == Some(name) {
                Some(fields.last().bits)
            } else {
                None
            },
        }
    }
}

/// The expression of the first derived value with the name.
pub open spec fn derived_expr(values: Seq<DerivedV>, name: Seq<char>) -> Option<ExprV>
    decreases values.len(),
{
    if values.len() == 0 {
        None
    } else {
        match derived_expr(values.drop_last(), name) {
            Some(expr) => Some(expr),
            None => if values.last().name == name {
                Some(values.last().value)
            } else {
                None
            },
        }
    }
}

/// The literal that an immediate field holds: definite bits of a number within a word.
pub open spec fn immediate_literal(bits: Option<Seq<Bit>>) -> Option<ExprV> {
    match bits {
        None => None,
        Some(bits) => if all_concrete(bits) && bits_value(bits) <= u128::MAX && bits.len()
            <= u16::MAX {
            Some(lit(bits_value(bits) as u128, bits.len() as u16))
        } else {
            None
        },
    }
}

/// The fixed register that a register field selects.
pub open spec fn selected_register(bits: Option<Seq<Bit>>) -> Option<ExprV> {
    match bits {
        None => None,
        Some(bits) => if all_concrete(bits) && bits_value(bits) <= u8::MAX && bits.len()
            <= u16::MAX {
            Some(
                ExprV::Operand(
                    OperandV::RegisterField(
                        RegisterV::Fixed {
                            register: bits_value(bits) as u8,
                            identifier_width: bits.len() as u16,
                        },
                    ),
                ),
            )
        } else {
            None
        },
    }
}

/// Operators that fold only when both operands are literals.
#[derive(Clone, Copy, Debug, PartialEq, Eq, Structural)]
pub enum BinaryOp {
    Sub,
    ShiftLeft,
    LogicalShiftRight,
    ArithmeticShiftRight,
    RotateRight,
    Equal,
    UnsignedLessThan,
    SignedLessThan,
}

/// The node of a binary operator.
pub open spec fn binary_node(op: BinaryOp, lhs: ExprV, rhs: ExprV) -> ExprV {
    let lhs = Box::new(lhs);
    let rhs = Box::new(rhs);
    match op {
        BinaryOp::Sub => ExprV::Sub(lhs, rhs),
        BinaryOp::ShiftLeft => ExprV::ShiftLeft(lhs, rhs),
        BinaryOp::LogicalShiftRight => ExprV::LogicalShiftRight(lhs, rhs),
        BinaryOp::ArithmeticShiftRight => ExprV::ArithmeticShiftRight(lhs, rhs),
        BinaryOp::RotateRight => ExprV::RotateRight(lhs, rhs),
        BinaryOp::Equal => ExprV::Equal(lhs, rhs),
        BinaryOp::UnsignedLessThan => ExprV::UnsignedLessThan(lhs, rhs),
        BinaryOp::SignedLessThan => ExprV::SignedLessThan(lhs, rhs),
    }
}

/// What a binary operator makes of two words of the width.
pub open spec fn fold_binary(op: BinaryOp, lhs: u128, rhs: u128, width: u16) -> ExprV {
    match op {
        BinaryOp::Sub => lit(difference(lhs, rhs, width), width),
        BinaryOp::ShiftLeft => lit(shifted_left(lhs, rhs, width), width),
        BinaryOp::LogicalShiftRight => lit(shifted_right(lhs, rhs, width), width),
        BinaryOp::ArithmeticShiftRight => lit(shifted_right_signed(lhs, rhs, width), width),
        BinaryOp::RotateRight => lit(rotated_right(lhs, rhs, width), width),
        BinaryOp::Equal => bool_view(lhs == rhs),
        BinaryOp::UnsignedLessThan => bool_view(lhs < rhs),
        BinaryOp::SignedLessThan => bool_view(signed(lhs, width) < signed(rhs, width)),
    }
}

/// A binary operator over collapsed operands.
pub open spec fn collapse_binary(op: BinaryOp, lhs: Option<ExprV>, rhs: Option<ExprV>) -> Option<
    ExprV,
> {
    match (lhs, rhs) {
        (
            Some(ExprV::Const { value: a, width: a_width }),
            Some(ExprV::Const { value: b, width: b_width }),
        ) => if a_width == b_width && valid_width(a_width) {
            Some(fold_binary(op, canonical(a, a_width), canonical(b, a_width), a_width))
        } else {
            None
        },
        (Some(lhs), Some(rhs)) => Some(binary_node(op, lhs, rhs)),
        _ => None,
    }
}

/// An associative operator over collapsed operands: literals combine and go last.
pub open spec fn collapse_assoc(op: AssocCommOp, lhs: Option<ExprV>, rhs: Option<ExprV>) -> Option<
    ExprV,
> {
    match (lhs, rhs) {
        (Some(lhs), Some(rhs)) => {
            let terms = flatten(op, lhs) + flatten(op, rhs);
            match known(op, terms) {
                None => None,
                Some(literal) => with_constant(op, unknowns(terms), literal),
            }
        },
        _ => None,
    }
}

/// Carry and overflow flags.
#[derive(Clone, Copy, Debug, PartialEq, Eq, Structural)]
pub enum FlagOp {
    AddCarryOut,
    AddOverflow,
    SubCarryOut,
    SubOverflow,
}

/// The node of a flag.
pub open spec fn flag_expr(op: FlagOp, lhs: ExprV, rhs: ExprV, flag: ExprV, width: u16) -> ExprV {
    let lhs = Box::new(lhs);
    let rhs = Box::new(rhs);
    let flag = Box::new(flag);
    match op {
        FlagOp::AddCarryOut => ExprV::AddCarryOut { lhs, rhs, carry_in: flag, width },
        FlagOp::AddOverflow => ExprV::AddOverflow { lhs, rhs, carry_in: flag, width },
        FlagOp::SubCarryOut => ExprV::SubCarryOut { lhs, rhs, borrow_in: flag, width },
        FlagOp::SubOverflow => ExprV::SubOverflow { lhs, rhs, borrow_in: flag, width },
    }
}

/// The flag of two words and the incoming bit.
pub open spec fn fold_flag(op: FlagOp, lhs: u128, rhs: u128, flag: u128, width: u16) -> bool {
    match op {
        FlagOp::AddCarryOut => carries(lhs, rhs, flag, width),
        FlagOp::AddOverflow => add_overflows(lhs, rhs, flag, width),
        FlagOp::SubCarryOut => borrows_not(lhs, rhs, flag, width),
        FlagOp::SubOverflow => sub_overflows(lhs, rhs, flag, width),
    }
}

/// A flag over collapsed operands.
pub open spec fn collapse_flag(
    op: FlagOp,
    lhs: Option<ExprV>,
    rhs: Option<ExprV>,
    flag: Option<ExprV>,
    width: u16,
) -> Option<ExprV> {
    match (lhs, rhs, flag) {
        (
            Some(ExprV::Const { value: a, width: a_width }),
            Some(ExprV::Const { value: b, width: b_width }),
            Some(ExprV::Const { value: c, width: c_width }),
        ) => if a_width == b_width && valid_width(a_width) && a_width == width && c_width == 1 {
            Some(bool_view(fold_flag(op, a, b, canonical(c, 1), width)))
        } else {
            None
        },
        (Some(lhs), Some(rhs), Some(flag)) => Some(flag_expr(op, lhs, rhs, flag, width)),
        _ => None,
    }
}

/// A complement of a collapsed value.
pub open spec fn collapse_not(value: Option<ExprV>) -> Option<ExprV> {
    match value {
        None => None,
        Some(ExprV::Const { value, width }) => if valid_width(width) {
            Some(lit(complement(canonical(value, width), width), width))
        } else {
            None
        },
        Some(value) => Some(ExprV::Not(Box::new(value))),
    }
}

/// A bit count of a collapsed value; the count is cut to the value's width.
pub open spec fn collapse_count(value: Option<ExprV>) -> Option<ExprV> {
    match value {
        None => None,
        Some(ExprV::Const { value, width }) => if valid_width(width) {
            Some(lit(canonical(ones(canonical(value, width)) as u128, width), width))
        } else {
            None
        },
        Some(value) => Some(ExprV::CountOnes(Box::new(value))),
    }
}

/// A bit range of a collapsed value.
pub open spec fn collapse_extract(value: Option<ExprV>, high: u16, low: u16) -> Option<ExprV> {
    if high < low || high - low + 1 > 128 {
        None
    } else {
        let out_width = (high - low + 1) as u16;
        match value {
            None => None,
            Some(ExprV::Const { value, width }) => if high < width && valid_width(width) {
                Some(lit((canonical(value, width) >> low) & mask(out_width), out_width))
            } else {
                None
            },
            Some(value) => Some(ExprV::Extract { value: Box::new(value), high, low }),
        }
    }
}

/// An extension of a collapsed value.
pub open spec fn collapse_extension(op: ExtensionOp, value: Option<ExprV>, to_width: u16) -> Option<
    ExprV,
> {
    match value {
        None => None,
        Some(ExprV::Const { value, width }) => if width <= to_width && valid_width(width)
            && valid_width(to_width) {
            match op {
                ExtensionOp::Zero => Some(lit(canonical(value, width), to_width)),
                ExtensionOp::Sign => Some(
                    lit(canonical(sign_extended(value, width, to_width), to_width), to_width),
                ),
            }
        } else {
            None
        },
        Some(value) => Some(extension_node(op, value, to_width)),
    }
}

/// A selection over collapsed parts.
pub open spec fn collapse_select(
    condition: Option<ExprV>,
    when_true: Option<ExprV>,
    when_false: Option<ExprV>,
) -> Option<ExprV> {
    match (condition, when_true, when_false) {
        (Some(ExprV::Const { value, width }), Some(when_true), Some(when_false)) => if width != 1 {
            None
        } else if canonical(value, 1) == 1 {
            Some(when_true)
        } else {
            Some(when_false)
        },
        (Some(condition), Some(when_true), Some(when_false)) => Some(
            ExprV::Select {
                condition: Box::new(condition),
                when_true: Box::new(when_true),
                when_false: Box::new(when_false),
            },
        ),
        _ => None,
    }
}

/// The collapsed forms of a row of expressions.
pub open spec fn collapsed_all(exprs: Seq<ExprV>, instruction: DecodedV, depth: nat) -> Option<
    Seq<ExprV>,
>
    decreases depth, exprs, 0nat,
{
    if exprs.len() == 0 {
        Some(seq![])
    } else {
        match (
            collapsed_all(exprs.drop_last(), instruction, depth),
            collapsed(exprs.last(), instruction, depth),
        ) {
            (Some(before), Some(last)) => Some(before.push(last)),
            _ => None,
        }
    }
}

/// The expression with the instruction's fields and derived values put in and constants folded.
///
/// `None` where a name is missing, a width is invalid or does not fit, or derived values
/// are nested deeper than `depth`. A nesting deeper than there are derived values is a cycle.
pub open spec fn collapsed(expr: ExprV, instruction: DecodedV, depth: nat) -> Option<ExprV>
    decreases depth, expr, 1nat,
{
    match expr {
        ExprV::Const { .. } => Some(expr),
        ExprV::Operand(OperandV::ImmediateField(name)) => immediate_literal(
            field_bits(instruction.fields, name),
        ),
        ExprV::Operand(OperandV::RegisterField(RegisterV::FromField(name))) => selected_register(
            field_bits(instruction.fields, name),
        ),
        ExprV::Operand(OperandV::RegisterField(RegisterV::Fixed { .. })) => Some(expr),
        ExprV::DerivedValue(name) => match derived_expr(instruction.form.derived_values, name) {
            None => None,
            Some(value) => if depth == 0 {
                None
            } else {
                collapsed(value, instruction, (depth - 1) as nat)
            },
        },
        ExprV::ReadRegister { register, width } => match collapsed(*register, instruction, depth) {
            Some(register) => Some(ExprV::ReadRegister { register: Box::new(register), width }),
            None => None,
        },
        ExprV::ReadMemory { address, width } => match collapsed(*address, instruction, depth) {
            Some(address) => Some(ExprV::ReadMemory { address: Box::new(address), width }),
            None => None,
        },
        ExprV::Add(lhs, rhs) => collapse_assoc(
            AssocCommOp::Add,
            collapsed(*lhs, instruction, depth),
            collapsed(*rhs, instruction, depth),
        ),
        ExprV::Mul(lhs, rhs) => collapse_assoc(
            AssocCommOp::Mul,
            collapsed(*lhs, instruction, depth),
            collapsed(*rhs, instruction, depth),
        ),
        ExprV::And(lhs, rhs) => collapse_assoc(
            AssocCommOp::And,
            collapsed(*lhs, instruction, depth),
            collapsed(*rhs, instruction, depth),
        ),
        ExprV::Or(lhs, rhs) => collapse_assoc(
            AssocCommOp::Or,
            collapsed(*lhs, instruction, depth),
            collapsed(*rhs, instruction, depth),
        ),
        ExprV::Xor(lhs, rhs) => collapse_assoc(
            AssocCommOp::Xor,
            collapsed(*lhs, instruction, depth),
            collapsed(*rhs, instruction, depth),
        ),
        ExprV::Sub(lhs, rhs) => collapse_binary(
            BinaryOp::Sub,
            collapsed(*lhs, instruction, depth),
            collapsed(*rhs, instruction, depth),
        ),
        ExprV::ShiftLeft(lhs, rhs) => collapse_binary(
            BinaryOp::ShiftLeft,
            collapsed(*lhs, instruction, depth),
            collapsed(*rhs, instruction, depth),
        ),
        ExprV::LogicalShiftRight(lhs, rhs) => collapse_binary(
            BinaryOp::LogicalShiftRight,
            collapsed(*lhs, instruction, depth),
            collapsed(*rhs, instruction, depth),
        ),
        ExprV::ArithmeticShiftRight(lhs, rhs) => collapse_binary(
            BinaryOp::ArithmeticShiftRight,
            collapsed(*lhs, instruction, depth),
            collapsed(*rhs, instruction, depth),
        ),
        ExprV::RotateRight(lhs, rhs) => collapse_binary(
            BinaryOp::RotateRight,
            collapsed(*lhs, instruction, depth),
            collapsed(*rhs, instruction, depth),
        ),
        ExprV::Equal(lhs, rhs) => collapse_binary(
            BinaryOp::Equal,
            collapsed(*lhs, instruction, depth),
            collapsed(*rhs, instruction, depth),
        ),
        ExprV::UnsignedLessThan(lhs, rhs) => collapse_binary(
            BinaryOp::UnsignedLessThan,
            collapsed(*lhs, instruction, depth),
            collapsed(*rhs, instruction, depth),
        ),
        ExprV::SignedLessThan(lhs, rhs) => collapse_binary(
            BinaryOp::SignedLessThan,
            collapsed(*lhs, instruction, depth),
            collapsed(*rhs, instruction, depth),
        ),
        ExprV::Not(value) => collapse_not(collapsed(*value, instruction, depth)),
        ExprV::CountOnes(value) => collapse_count(collapsed(*value, instruction, depth)),
        ExprV::Extract { value, high, low } => collapse_extract(
            collapsed(*value, instruction, depth),
            high,
            low,
        ),
        ExprV::Concat(values) => match collapsed_all(values, instruction, depth) {
            Some(chunks) => joined(chunks),
            None => None,
        },
        ExprV::ZeroExtend { value, to_width } => collapse_extension(
            ExtensionOp::Zero,
            collapsed(*value, instruction, depth),
            to_width,
        ),
        ExprV::SignExtend { value, to_width } => collapse_extension(
            ExtensionOp::Sign,
            collapsed(*value, instruction, depth),
            to_width,
        ),
        ExprV::AddCarryOut { lhs, rhs, carry_in, width } => collapse_flag(
            FlagOp::AddCarryOut,
            collapsed(*lhs, instruction, depth),
            collapsed(*rhs, instruction, depth),
            collapsed(*carry_in, instruction, depth),
            width,
        ),
        ExprV::AddOverflow { lhs, rhs, carry_in, width } => collapse_flag(
            FlagOp::AddOverflow,
            collapsed(*lhs, instruction, depth),
            collapsed(*rhs, instruction, depth),
            collapsed(*carry_in, instruction, depth),
            width,
        ),
        ExprV::SubCarryOut { lhs, rhs, borrow_in, width } => collapse_flag(
            FlagOp::SubCarryOut,
            collapsed(*lhs, instruction, depth),
            collapsed(*rhs, instruction, depth),
            collapsed(*borrow_in, instruction, depth),
            width,
        ),
        ExprV::SubOverflow { lhs, rhs, borrow_in, width } => collapse_flag(
            FlagOp::SubOverflow,
            collapsed(*lhs, instruction, depth),
            collapsed(*rhs, instruction, depth),
            collapsed(*borrow_in, instruction, depth),
            width,
        ),
        ExprV::Select { condition, when_true, when_false } => collapse_select(
            collapsed(*condition, instruction, depth),
            collapsed(*when_true, instruction, depth),
            collapsed(*when_false, instruction, depth),
        ),
    }
}

/// The first field with a name is found from the left.
pub(crate) proof fn lemma_field_found(fields: Seq<FieldV>, name: Seq<char>, i: int)
    requires
        0 <= i < fields.len(),
        fields[i].name == Some(name),
        forall|j: int| 0 <= j < i ==> (#[trigger] fields[j]).name != Some(name),
    ensures
        field_bits(fields, name) == Some(fields[i].bits),
    decreases fields.len(),
{
    if i < fields.len() - 1 {
        lemma_field_found(fields.drop_last(), name, i);
    } else {
        lemma_field_absent(fields.drop_last(), name);
    }
}

proof fn lemma_field_absent(fields: Seq<FieldV>, name: Seq<char>)
    requires
        forall|j: int| 0 <= j < fields.len() ==> (#[trigger] fields[j]).name != Some(name),
    ensures
        field_bits(fields, name) is None,
    decreases fields.len(),
{
    if fields.len() > 0 {
        assert forall|j: int| 0 <= j < fields.drop_last().len() implies (
        #[trigger] fields.drop_last()[j]).name != Some(name) by {
            assert(fields[j].name != Some(name));
        }
        lemma_field_absent(fields.drop_last(), name);
        assert(fields[fields.len() - 1].name != Some(name));
    }
}

impl DecodedInstruction {
    /// The value of the first field with the name.
    pub fn field_value(&self, name: &str) -> (r: Option<&BitPattern>)
        ensures
            match r {
                Some(value) => field_bits(self@.fields, name@) == Some(value@),
                None => field_bits(self@.fields, name@) is None,
            },
    {
        let wanted = name.to_owned();
        let ghost fields = viewed(self.fields@);
        let mut i: usize = 0;
        while i < self.fields.len()
            invariant
                i <= self.fields@.len(),
                fields == viewed(self.fields@),
                wanted@ == name@,
                forall|j: int| 0 <= j < i ==> (#[trigger] fields[j]).name != Some(name@),
            decreases self.fields@.len() - i,
        {
            assert(fields[i as int] == self.fields@[i as int]@);
            if let Some(field_name) = &self.fields[i].name {
                if *field_name == wanted {
                    proof {
                        lemma_field_found(fields, name@, i as int);
                    }
                    return Some(&self.fields[i].value);
                }
            }
            i += 1;
        }
        proof {
            lemma_field_absent(fields, name@);
        }
        None
    }
}

/// Finds the expression of the first derived value with the name.
fn find_derived<'a>(values: &'a Vec<DerivedValue>, name: &String) -> (r: Option<&'a Expr>)
    ensures
        match r {
            Some(expr) => derived_expr(viewed(values@), name@) == Some(expr@),
            None => derived_expr(viewed(values@), name@) is None,
        },
{
    let ghost all = viewed(values@);
    let mut found: Option<&'a Expr> = None;
    let mut i: usize = 0;
    assert(all.take(0) =~= Seq::empty());
    while i < values.len()
        invariant
            i <= values@.len(),
            all == viewed(values@),
            match found {
                Some(expr) => derived_expr(all.take(i as int), name@) == Some(expr@),
                None => derived_expr(all.take(i as int), name@) is None,
            },
        decreases values@.len() - i,
    {
        proof {
            assert(all.take(i + 1).drop_last() =~= all.take(i as int));
            assert(all.take(i + 1).last() == values@[i as int]@);
        }
        if found.is_none() && values[i].name.0 == *name {
            found = Some(&values[i].value);
        }
        i += 1;
    }
    assert(all.take(i as int) =~= all);
    found
}

fn make_binary(op: BinaryOp, lhs: Expr, rhs: Expr) -> (r: Expr)
    ensures
        r@ == binary_node(op, lhs@, rhs@),
{
    let lhs = Box::new(lhs);
    let rhs = Box::new(rhs);
    match op {
        BinaryOp::Sub => Expr::Sub(lhs, rhs),
        BinaryOp::ShiftLeft => Expr::ShiftLeft(lhs, rhs),
        BinaryOp::LogicalShiftRight => Expr::LogicalShiftRight(lhs, rhs),
        BinaryOp::ArithmeticShiftRight => Expr::ArithmeticShiftRight(lhs, rhs),
        BinaryOp::RotateRight => Expr::RotateRight(lhs, rhs),
        BinaryOp::Equal => Expr::Equal(lhs, rhs),
        BinaryOp::UnsignedLessThan => Expr::UnsignedLessThan(lhs, rhs),
        BinaryOp::SignedLessThan => Expr::SignedLessThan(lhs, rhs),
    }
}

fn evaluate_binary(op: BinaryOp, lhs: u128, rhs: u128, width: u16) -> (r: Expr)
    requires
        valid_width(width),
    ensures
        r@ == fold_binary(op, lhs, rhs, width),
{
    match op {
        BinaryOp::Sub => constant(difference_const(lhs, rhs, width), width),
        BinaryOp::ShiftLeft => constant(shift_left_const(lhs, rhs, width), width),
        BinaryOp::LogicalShiftRight => constant(logical_shift_right_const(lhs, rhs, width), width),
        BinaryOp::ArithmeticShiftRight => constant(
            arithmetic_shift_right_const(lhs, rhs, width),
            width,
        ),
        BinaryOp::RotateRight => constant(rotate_right_const(lhs, rhs, width), width),
        BinaryOp::Equal => bool_const(lhs == rhs),
        BinaryOp::UnsignedLessThan => bool_const(lhs < rhs),
        BinaryOp::SignedLessThan => bool_const(signed_less_const(lhs, rhs, width)),
    }
}

/// Folds a binary node over collapsed operands when both are constant.
fn collapse_binary_op(op: BinaryOp, lhs: Expr, rhs: Expr) -> (r: Option<Expr>)
    ensures
        viewed_option(r) == collapse_binary(op, Some(lhs@), Some(rhs@)),
{
    match (lhs, rhs) {
        (Expr::Const { value: a, width }, Expr::Const { value: b, width: other }) => {
            if width != other || width == 0 || width > 128 {
                return None;
            }
            Some(evaluate_binary(op, canonical_word(a, width), canonical_word(b, width), width))
        },
        (lhs, rhs) => Some(make_binary(op, lhs, rhs)),
    }
}

/// Combines the constants of an associative/commutative node over collapsed operands.
///
/// Unlike canonicalization, this preserves the order of nonconstant terms and performs no
/// sorting, deduplication, cancellation, complement, or absorption rewrites.
fn collapse_assoc_comm_op(op: AssocCommOp, lhs: Expr, rhs: Expr) -> (r: Option<Expr>)
    ensures
        viewed_option(r) == collapse_assoc(op, Some(lhs@), Some(rhs@)),
{
    let mut terms: Vec<Expr> = Vec::new();
    assert(views(terms@) =~= Seq::empty());
    flatten_assoc_comm_op(op, lhs, &mut terms);
    flatten_assoc_comm_op(op, rhs, &mut terms);
    assert(views(terms@) =~= flatten(op, lhs@) + flatten(op, rhs@));
    let (others, folded) = split_literals(op, terms)?;
    crate::terms::attach_constant(op, others, folded)
}

fn make_flag(op: FlagOp, lhs: Expr, rhs: Expr, flag: Expr, width: u16) -> (r: Expr)
    ensures
        r@ == flag_expr(op, lhs@, rhs@, flag@, width),
{
    let lhs = Box::new(lhs);
    let rhs = Box::new(rhs);
    let flag = Box::new(flag);
    match op {
        FlagOp::AddCarryOut => Expr::AddCarryOut { lhs, rhs, carry_in: flag, width },
        FlagOp::AddOverflow => Expr::AddOverflow { lhs, rhs, carry_in: flag, width },
        FlagOp::SubCarryOut => Expr::SubCarryOut { lhs, rhs, borrow_in: flag, width },
        FlagOp::SubOverflow => Expr::SubOverflow { lhs, rhs, borrow_in: flag, width },
    }
}

/// Folds a carry/overflow node over collapsed operands.
///
/// Folding occurs only when both arithmetic operands and the 1-bit carry/borrow input are
/// constants.
fn collapse_flag_expr(op: FlagOp, lhs: Expr, rhs: Expr, flag: Expr, width: u16) -> (r: Option<
    Expr,
>)
    ensures
        viewed_option(r) == collapse_flag(op, Some(lhs@), Some(rhs@), Some(flag@), width),
{
    match (lhs, rhs, flag) {
        (
            Expr::Const { value: a, width: a_width },
            Expr::Const { value: b, width: b_width },
            Expr::Const { value: c, width: c_width },
        ) => {
            if a_width != b_width || a_width == 0 || a_width > 128 || a_width != width || c_width
                != 1 {
                return None;
            }
            let c = canonical_word(c, 1);
            Some(
                bool_const(
                    match op {
                        FlagOp::AddCarryOut => add_carry_out_const(a, b, c, width),
                        FlagOp::AddOverflow => add_overflow_const(a, b, c, width),
                        FlagOp::SubCarryOut => sub_carry_out_const(a, b, c, width),
                        FlagOp::SubOverflow => sub_overflow_const(a, b, c, width),
                    },
                ),
            )
        },
        (lhs, rhs, flag) => Some(make_flag(op, lhs, rhs, flag, width)),
    }
}

/// Folds an extension of a collapsed value.
fn collapse_extended(op: ExtensionOp, value: Expr, to_width: u16) -> (r: Option<Expr>)
    ensures
        viewed_option(r) == collapse_extension(op, Some(value@), to_width),
{
    match value {
        Expr::Const { value, width } => {
            if width == 0 || width > to_width || to_width > 128 {
                return None;
            }
            Some(
                match op {
                    ExtensionOp::Zero => constant(canonical_word(value, width), to_width),
                    ExtensionOp::Sign => const_bits(
                        sign_extend_const(value, width, to_width),
                        to_width,
                    ),
                },
            )
        },
        value => Some(
            match op {
                ExtensionOp::Zero => crate::instruction_semantics::zero_extend(value, to_width),
                ExtensionOp::Sign => crate::instruction_semantics::sign_extend(value, to_width),
            },
        ),
    }
}

/// Folds a bit range of a collapsed value.
fn collapse_range(value: Expr, high: u16, low: u16) -> (r: Option<Expr>)
    ensures
        viewed_option(r) == collapse_extract(Some(value@), high, low),
{
    if high < low || high - low > 127 {
        return None;
    }
    match value {
        Expr::Const { value, width } => {
            if high >= width || width > 128 {
                return None;
            }
            let out_width: u16 = high - low + 1;
            Some(
                constant(
                    (canonical_word(value, width) >> low) & crate::const_eval::bit_mask(out_width),
                    out_width,
                ),
            )
        },
        value => Some(crate::instruction_semantics::extract(value, high, low)),
    }
}

/// Folds the complement of a collapsed value.
fn collapse_complement(value: Expr) -> (r: Option<Expr>)
    ensures
        viewed_option(r) == collapse_not(Some(value@)),
{
    match value {
        Expr::Const { value, width } => {
            if width == 0 || width > 128 {
                return None;
            }
            Some(const_bits(!canonical_word(value, width), width))
        },
        value => Some(crate::instruction_semantics::not_expr(value)),
    }
}

/// Counts the ones of a collapsed value.
fn collapse_bit_count(value: Expr) -> (r: Option<Expr>)
    ensures
        viewed_option(r) == collapse_count(Some(value@)),
{
    match value {
        Expr::Const { value, width } => {
            if width == 0 || width > 128 {
                return None;
            }
            Some(const_bits(count_ones_const(canonical_word(value, width)), width))
        },
        value => Some(crate::instruction_semantics::count_ones(value)),
    }
}

/// Chooses between collapsed values where the condition is known.
fn collapse_selection(condition: Expr, when_true: Expr, when_false: Expr) -> (r: Option<Expr>)
    ensures
        viewed_option(r) == collapse_select(Some(condition@), Some(when_true@), Some(when_false@)),
{
    match condition {
        Expr::Const { value, width } => {
            if width != 1 {
                return None;
            }
            // In this case, we can get rid of the select
            if canonical_word(value, 1) == 1 {
                Some(when_true)
            } else {
                Some(when_false)
            }
        },
        condition => Some(
            crate::instruction_semantics::select(condition, when_true, when_false),
        ),
    }
}

fn collapse_exprs(exprs: &Vec<Expr>, instruction: &DecodedInstruction, depth: usize) -> (r: Option<
    Vec<Expr>,
>)
    ensures
        match r {
            Some(r) => collapsed_all(views(exprs@), instruction@, depth as nat) == Some(views(r@)),
            None => collapsed_all(views(exprs@), instruction@, depth as nat) is None,
        },
    decreases depth, exprs, 0nat,
{
    let ghost all = views(exprs@);
    let mut r: Vec<Expr> = Vec::new();
    let mut i: usize = 0;
    assert(all.take(0) =~= Seq::empty());
    assert(views(r@) =~= Seq::empty());
    while i < exprs.len()
        invariant
            i <= exprs@.len(),
            all == views(exprs@),
            collapsed_all(all.take(i as int), instruction@, depth as nat) == Some(views(r@)),
        decreases exprs@.len() - i,
    {
        proof {
            if collapsed_all(all, instruction@, depth as nat) is Some {
                lemma_collapsed_prefix(all, instruction@, depth as nat, i + 1);
            }
            assert(all.take(i + 1).drop_last() =~= all.take(i as int));
            assert(all.take(i + 1).last() == exprs@[i as int]@);
        }
        let value = collapse_expr(&exprs[i], instruction, depth)?;
        proof {
            lemma_views_push(r@, value);
        }
        r.push(value);
        i += 1;
    }
    assert(all.take(i as int) =~= all);
    Some(r)
}

/// A row collapses when each of its prefixes does.
proof fn lemma_collapsed_prefix(exprs: Seq<ExprV>, instruction: DecodedV, depth: nat, k: int)
    requires
        0 <= k <= exprs.len(),
        collapsed_all(exprs, instruction, depth) is Some,
    ensures
        collapsed_all(exprs.take(k), instruction, depth) is Some,
        k > 0 ==> collapsed(exprs[k - 1], instruction, depth) is Some,
    decreases exprs.len(),
{
    if k == exprs.len() {
        assert(exprs.take(k) =~= exprs);
        if k > 0 {
            assert(collapsed(exprs.last(), instruction, depth) is Some);
        }
    } else {
        assert(collapsed_all(exprs.drop_last(), instruction, depth) is Some);
        lemma_collapsed_prefix(exprs.drop_last(), instruction, depth, k);
        assert(exprs.drop_last().take(k) =~= exprs.take(k));
    }
}

fn collapse_expr(expr: &Expr, instruction: &DecodedInstruction, depth: usize) -> (r: Option<Expr>)
    ensures
        viewed_option(r) == collapsed(expr@, instruction@, depth as nat),
    decreases depth, expr, 1nat,
{
    match expr {
        Expr::Const { value, width } => Some(constant(*value, *width)),
        Expr::Operand(operand) => match operand {
            OperandRef::ImmediateField(name) => {
                let value = instruction.field_value(name.as_str())?;
                let number = value.try_to_int()?;
                if value.bits.len() > 0xffff {
                    return None;
                }
                Some(constant(number, value.bits.len() as u16))
            },
            OperandRef::RegisterField(RegisterRef::FromField(name)) => {
                let value = instruction.field_value(name.as_str())?;
                let number = value.try_to_int()?;
                if number > 0xff || value.bits.len() > 0xffff {
                    return None;
                }
                Some(fixed_register(Register(number as u8), value.bits.len() as u16))
            },
            OperandRef::RegisterField(RegisterRef::Fixed { register, identifier_width }) => {
                Some(fixed_register(*register, *identifier_width))
            },
        },
        Expr::DerivedValue(name) => {
            let value = find_derived(&instruction.form.derived_values, &name.0)?;
            if depth == 0 {
                return None;
            }
            collapse_expr(value, instruction, depth - 1)
        },
        Expr::ReadRegister { register, width } => Some(
            crate::instruction_semantics::read_register(
                collapse_expr(register, instruction, depth)?,
                *width,
            ),
        ),
        Expr::ReadMemory { address, width } => Some(
            crate::instruction_semantics::read_memory(
                collapse_expr(address, instruction, depth)?,
                *width,
            ),
        ),
        Expr::Add(lhs, rhs) => collapse_assoc_comm_op(
            AssocCommOp::Add,
            collapse_expr(lhs, instruction, depth)?,
            collapse_expr(rhs, instruction, depth)?,
        ),
        Expr::Mul(lhs, rhs) => collapse_assoc_comm_op(
            AssocCommOp::Mul,
            collapse_expr(lhs, instruction, depth)?,
            collapse_expr(rhs, instruction, depth)?,
        ),
        Expr::And(lhs, rhs) => collapse_assoc_comm_op(
            AssocCommOp::And,
            collapse_expr(lhs, instruction, depth)?,
            collapse_expr(rhs, instruction, depth)?,
        ),
        Expr::Or(lhs, rhs) => collapse_assoc_comm_op(
            AssocCommOp::Or,
            collapse_expr(lhs, instruction, depth)?,
            collapse_expr(rhs, instruction, depth)?,
        ),
        Expr::Xor(lhs, rhs) => collapse_assoc_comm_op(
            AssocCommOp::Xor,
            collapse_expr(lhs, instruction, depth)?,
            collapse_expr(rhs, instruction, depth)?,
        ),
        Expr::Sub(lhs, rhs) => collapse_binary_op(
            BinaryOp::Sub,
            collapse_expr(lhs, instruction, depth)?,
            collapse_expr(rhs, instruction, depth)?,
        ),
        Expr::ShiftLeft(lhs, rhs) => collapse_binary_op(
            BinaryOp::ShiftLeft,
            collapse_expr(lhs, instruction, depth)?,
            collapse_expr(rhs, instruction, depth)?,
        ),
        Expr::LogicalShiftRight(lhs, rhs) => collapse_binary_op(
            BinaryOp::LogicalShiftRight,
            collapse_expr(lhs, instruction, depth)?,
            collapse_expr(rhs, instruction, depth)?,
        ),
        Expr::ArithmeticShiftRight(lhs, rhs) => collapse_binary_op(
            BinaryOp::ArithmeticShiftRight,
            collapse_expr(lhs, instruction, depth)?,
            collapse_expr(rhs, instruction, depth)?,
        ),
        Expr::RotateRight(lhs, rhs) => collapse_binary_op(
            BinaryOp::RotateRight,
            collapse_expr(lhs, instruction, depth)?,
            collapse_expr(rhs, instruction, depth)?,
        ),
        Expr::Equal(lhs, rhs) => collapse_binary_op(
            BinaryOp::Equal,
            collapse_expr(lhs, instruction, depth)?,
            collapse_expr(rhs, instruction, depth)?,
        ),
        Expr::UnsignedLessThan(lhs, rhs) => collapse_binary_op(
            BinaryOp::UnsignedLessThan,
            collapse_expr(lhs, instruction, depth)?,
            collapse_expr(rhs, instruction, depth)?,
        ),
        Expr::SignedLessThan(lhs, rhs) => collapse_binary_op(
            BinaryOp::SignedLessThan,
            collapse_expr(lhs, instruction, depth)?,
            collapse_expr(rhs, instruction, depth)?,
        ),
        Expr::Not(value) => collapse_complement(collapse_expr(value, instruction, depth)?),
        Expr::CountOnes(value) => collapse_bit_count(collapse_expr(value, instruction, depth)?),
        Expr::Extract { value, high, low } => collapse_range(
            collapse_expr(value, instruction, depth)?,
            *high,
            *low,
        ),
        Expr::Concat(values) => rebuild_concat(collapse_exprs(values, instruction, depth)?),
        Expr::ZeroExtend { value, to_width } => collapse_extended(
            ExtensionOp::Zero,
            collapse_expr(value, instruction, depth)?,
            *to_width,
        ),
        Expr::SignExtend { value, to_width } => collapse_extended(
            ExtensionOp::Sign,
            collapse_expr(value, instruction, depth)?,
            *to_width,
        ),
        Expr::AddCarryOut { lhs, rhs, carry_in, width } => collapse_flag_expr(
            FlagOp::AddCarryOut,
            collapse_expr(lhs, instruction, depth)?,
            collapse_expr(rhs, instruction, depth)?,
            collapse_expr(carry_in, instruction, depth)?,
            *width,
        ),
        Expr::AddOverflow { lhs, rhs, carry_in, width } => collapse_flag_expr(
            FlagOp::AddOverflow,
            collapse_expr(lhs, instruction, depth)?,
            collapse_expr(rhs, instruction, depth)?,
            collapse_expr(carry_in, instruction, depth)?,
            *width,
        ),
        Expr::SubCarryOut { lhs, rhs, borrow_in, width } => collapse_flag_expr(
            FlagOp::SubCarryOut,
            collapse_expr(lhs, instruction, depth)?,
            collapse_expr(rhs, instruction, depth)?,
            collapse_expr(borrow_in, instruction, depth)?,
            *width,
        ),
        Expr::SubOverflow { lhs, rhs, borrow_in, width } => collapse_flag_expr(
            FlagOp::SubOverflow,
            collapse_expr(lhs, instruction, depth)?,
            collapse_expr(rhs, instruction, depth)?,
            collapse_expr(borrow_in, instruction, depth)?,
            *width,
        ),
        Expr::Select { condition, when_true, when_false } => collapse_selection(
            collapse_expr(condition, instruction, depth)?,
            collapse_expr(when_true, instruction, depth)?,
            collapse_expr(when_false, instruction, depth)?,
        ),
    }
}

impl Expr {
    /// Resolves instruction-dependent leaves and folds newly constant subtrees.
    ///
    /// Immediate/register fields and `DerivedValue`s are replaced using
    /// `instruction`. Constant arithmetic, comparisons, shifts, extensions,
    /// concatenations, flag helpers, and constant-condition `Select`s are
    /// evaluated recursively. Nonconstant structure and operand order are
    /// preserved; this method does not perform algebraic canonicalization or
    /// prior-state substitution.
    pub fn collapse(self, instruction: &DecodedInstruction) -> (r: Self)
        requires
            collapsed(self@, instruction@, instruction@.form.derived_values.len()) is Some,
        ensures
            collapsed(self@, instruction@, instruction@.form.derived_values.len()) == Some(r@),
    {
        self.try_collapse(instruction).unwrap()
    }

    /// Collapses an expression, where the instruction has what it names and the widths fit.
    pub fn try_collapse(&self, instruction: &DecodedInstruction) -> (r: Option<Self>)
        ensures
            viewed_option(r) == collapsed(
                self@,
                instruction@,
                instruction@.form.derived_values.len(),
            ),
    {
        assert(viewed(instruction.form.derived_values@).len()
            == instruction.form.derived_values@.len());
        collapse_expr(self, instruction, instruction.form.derived_values.len())
    }
}

} // verus!
