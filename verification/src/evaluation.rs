//! What expressions mean: the word that an expression has in a machine state.
use vstd::arithmetic::power2::pow2;
use vstd::prelude::*;

use crate::canonical_form::{ExtensionOp, ShiftOp};
use crate::collapse::{fold_flag, BinaryOp, FlagOp};
use crate::const_eval::{
    canonical, combine, difference, lemma_canonical_is_mod, lemma_canonical_small, ones,
    rotated_right, shifted_left, shifted_right, shifted_right_signed, sign_extended, signed,
    valid_width, AssocCommOp,
};
use crate::expr_shape::{chunks_width, width_of};
use crate::instruction_semantics::{truth, ExprV, OperandV, RegisterV};

verus! {

/// A bit-vector: a number below `2^width`.
pub struct Word {
    pub value: u128,
    pub width: u16,
}

/// What the leaves of expressions stand for and what registers and memory hold.
///
/// A register or memory place may hold one content for each width it is read with.
pub struct State {
    pub operands: spec_fn(OperandV) -> Word,
    pub derived: spec_fn(Seq<char>) -> Word,
    pub registers: spec_fn(Word, u16) -> u128,
    pub memory: spec_fn(Word, u16) -> u128,
}

/// The word of a valid width with the low bits of a number.
pub open spec fn word(value: u128, width: u16) -> Option<Word> {
    if valid_width(width) {
        Some(Word { value: canonical(value, width), width })
    } else {
        None
    }
}

/// The word is a number below `2^width` for a valid width.
pub open spec fn is_word(w: Word) -> bool {
    &&& valid_width(w.width)
    &&& canonical(w.value, w.width) == w.value
    &&& w.value < pow2(w.width as nat)
}

/// An associative operator on words of one width.
pub open spec fn assoc_word(op: AssocCommOp, lhs: Option<Word>, rhs: Option<Word>) -> Option<Word> {
    match (lhs, rhs) {
        (Some(a), Some(b)) => if a.width == b.width {
            word(combine(op, a.value, b.value, a.width), a.width)
        } else {
            None
        },
        _ => None,
    }
}

/// What a binary operator makes of two words of the width.
pub open spec fn binary_result(op: BinaryOp, lhs: u128, rhs: u128, width: u16) -> Option<Word> {
    match op {
        BinaryOp::Sub => word(difference(lhs, rhs, width), width),
        BinaryOp::ShiftLeft => word(shifted_left(lhs, rhs, width), width),
        BinaryOp::LogicalShiftRight => word(shifted_right(lhs, rhs, width), width),
        BinaryOp::ArithmeticShiftRight => word(shifted_right_signed(lhs, rhs, width), width),
        BinaryOp::RotateRight => word(rotated_right(lhs, rhs, width), width),
        BinaryOp::Equal => word(truth(lhs == rhs), 1),
        BinaryOp::UnsignedLessThan => word(truth(lhs < rhs), 1),
        BinaryOp::SignedLessThan => word(truth(signed(lhs, width) < signed(rhs, width)), 1),
    }
}

/// A binary operator on words of one width.
pub open spec fn binary_word(op: BinaryOp, lhs: Option<Word>, rhs: Option<Word>) -> Option<Word> {
    match (lhs, rhs) {
        (Some(a), Some(b)) => if a.width == b.width {
            binary_result(op, a.value, b.value, a.width)
        } else {
            None
        },
        _ => None,
    }
}

/// A flag of two words of the width and an incoming bit.
pub open spec fn flag_word(
    op: FlagOp,
    lhs: Option<Word>,
    rhs: Option<Word>,
    flag: Option<Word>,
    width: u16,
) -> Option<Word> {
    match (lhs, rhs, flag) {
        (Some(a), Some(b), Some(c)) => if a.width == width && b.width == width && c.width == 1 {
            word(truth(fold_flag(op, a.value, b.value, c.value, width)), 1)
        } else {
            None
        },
        _ => None,
    }
}

/// The complement of a word.
pub open spec fn not_word(value: Option<Word>) -> Option<Word> {
    match value {
        Some(a) => word(!a.value, a.width),
        None => None,
    }
}

/// The number of set bits of a word, cut to its width.
pub open spec fn count_word(value: Option<Word>) -> Option<Word> {
    match value {
        Some(a) => word(ones(a.value) as u128, a.width),
        None => None,
    }
}

/// The bits `high` down to `low` of a word.
pub open spec fn extract_word(value: Option<Word>, high: u16, low: u16) -> Option<Word> {
    match value {
        Some(a) => if low <= high < a.width {
            word(a.value >> low, (high - low + 1) as u16)
        } else {
            None
        },
        None => None,
    }
}

/// A word brought to a width that is not smaller.
pub open spec fn extension_word(op: ExtensionOp, value: Option<Word>, to_width: u16) -> Option<Word> {
    match value {
        Some(a) => if a.width <= to_width {
            match op {
                ExtensionOp::Zero => word(a.value, to_width),
                ExtensionOp::Sign => word(sign_extended(a.value, a.width, to_width), to_width),
            }
        } else {
            None
        },
        None => None,
    }
}

/// One of two words of the same width, chosen by a bit.
pub open spec fn select_word(
    condition: Option<Word>,
    when_true: Option<Word>,
    when_false: Option<Word>,
) -> Option<Word> {
    match (condition, when_true, when_false) {
        (Some(c), Some(t), Some(f)) => if c.width == 1 && t.width == f.width {
            if c.value == 1 {
                Some(t)
            } else {
                Some(f)
            }
        } else {
            None
        },
        _ => None,
    }
}

/// A word with further bits below it.
pub open spec fn joined_word(above: Option<Word>, last: Option<Word>) -> Option<Word> {
    match (above, last) {
        (Some(a), Some(b)) => if a.width + b.width <= 128 {
            word(
                (a.value * pow2(b.width as nat) + b.value) as u128,
                (a.width + b.width) as u16,
            )
        } else {
            None
        },
        _ => None,
    }
}

/// What is read from a place.
pub open spec fn read_word(
    contents: spec_fn(Word, u16) -> u128,
    place: Option<Word>,
    width: u16,
) -> Option<Word> {
    match place {
        Some(place) => word(contents(place, width), width),
        None => None,
    }
}

/// The words of a row of chunks put together, the first one on top; there is at least one.
pub open spec fn eval_chunks(chunks: Seq<ExprV>, state: State) -> Option<Word>
    decreases chunks, 0nat,
{
    if chunks.len() == 0 {
        None
    } else if chunks.len() == 1 {
        eval(chunks[0], state)
    } else {
        joined_word(eval_chunks(chunks.drop_last(), state), eval(chunks.last(), state))
    }
}

/// The word that an expression has in a state.
///
/// `None` where a width is invalid or does not fit its place.
pub open spec fn eval(expr: ExprV, state: State) -> Option<Word>
    decreases expr, 1nat,
{
    match expr {
        ExprV::Const { value, width } => word(value, width),
        ExprV::Operand(OperandV::RegisterField(RegisterV::Fixed { register, identifier_width }))
        => word(register as u128, identifier_width),
        ExprV::Operand(operand) => {
            let given = (state.operands)(operand);
            word(given.value, given.width)
        },
        ExprV::DerivedValue(name) => {
            let given = (state.derived)(name);
            word(given.value, given.width)
        },
        ExprV::ReadRegister { register, width } => read_word(
            state.registers,
            eval(*register, state),
            width,
        ),
        ExprV::ReadMemory { address, width } => read_word(
            state.memory,
            eval(*address, state),
            width,
        ),
        ExprV::Add(lhs, rhs) => assoc_word(
            AssocCommOp::Add,
            eval(*lhs, state),
            eval(*rhs, state),
        ),
        ExprV::Mul(lhs, rhs) => assoc_word(
            AssocCommOp::Mul,
            eval(*lhs, state),
            eval(*rhs, state),
        ),
        ExprV::And(lhs, rhs) => assoc_word(
            AssocCommOp::And,
            eval(*lhs, state),
            eval(*rhs, state),
        ),
        ExprV::Or(lhs, rhs) => assoc_word(AssocCommOp::Or, eval(*lhs, state), eval(*rhs, state)),
        ExprV::Xor(lhs, rhs) => assoc_word(
            AssocCommOp::Xor,
            eval(*lhs, state),
            eval(*rhs, state),
        ),
        ExprV::Sub(lhs, rhs) => binary_word(BinaryOp::Sub, eval(*lhs, state), eval(*rhs, state)),
        ExprV::ShiftLeft(value, amount) => binary_word(
            BinaryOp::ShiftLeft,
            eval(*value, state),
            eval(*amount, state),
        ),
        ExprV::LogicalShiftRight(value, amount) => binary_word(
            BinaryOp::LogicalShiftRight,
            eval(*value, state),
            eval(*amount, state),
        ),
        ExprV::ArithmeticShiftRight(value, amount) => binary_word(
            BinaryOp::ArithmeticShiftRight,
            eval(*value, state),
            eval(*amount, state),
        ),
        ExprV::RotateRight(value, amount) => binary_word(
            BinaryOp::RotateRight,
            eval(*value, state),
            eval(*amount, state),
        ),
        ExprV::Equal(lhs, rhs) => binary_word(
            BinaryOp::Equal,
            eval(*lhs, state),
            eval(*rhs, state),
        ),
        ExprV::UnsignedLessThan(lhs, rhs) => binary_word(
            BinaryOp::UnsignedLessThan,
            eval(*lhs, state),
            eval(*rhs, state),
        ),
        ExprV::SignedLessThan(lhs, rhs) => binary_word(
            BinaryOp::SignedLessThan,
            eval(*lhs, state),
            eval(*rhs, state),
        ),
        ExprV::Not(value) => not_word(eval(*value, state)),
        ExprV::CountOnes(value) => count_word(eval(*value, state)),
        ExprV::Extract { value, high, low } => extract_word(eval(*value, state), high, low),
        ExprV::Concat(values) => eval_chunks(values, state),
        ExprV::ZeroExtend { value, to_width } => extension_word(
            ExtensionOp::Zero,
            eval(*value, state),
            to_width,
        ),
        ExprV::SignExtend { value, to_width } => extension_word(
            ExtensionOp::Sign,
            eval(*value, state),
            to_width,
        ),
        ExprV::AddCarryOut { lhs, rhs, carry_in, width } => flag_word(
            FlagOp::AddCarryOut,
            eval(*lhs, state),
            eval(*rhs, state),
            eval(*carry_in, state),
            width,
        ),
        ExprV::AddOverflow { lhs, rhs, carry_in, width } => flag_word(
            FlagOp::AddOverflow,
            eval(*lhs, state),
            eval(*rhs, state),
            eval(*carry_in, state),
            width,
        ),
        ExprV::SubCarryOut { lhs, rhs, borrow_in, width } => flag_word(
            FlagOp::SubCarryOut,
            eval(*lhs, state),
            eval(*rhs, state),
            eval(*borrow_in, state),
            width,
        ),
        ExprV::SubOverflow { lhs, rhs, borrow_in, width } => flag_word(
            FlagOp::SubOverflow,
            eval(*lhs, state),
            eval(*rhs, state),
            eval(*borrow_in, state),
            width,
        ),
        ExprV::Select { condition, when_true, when_false } => select_word(
            eval(*condition, state),
            eval(*when_true, state),
            eval(*when_false, state),
        ),
    }
}

/// The binary operator of a shift.
pub open spec fn shift_binary(op: ShiftOp) -> BinaryOp {
    match op {
        ShiftOp::Left => BinaryOp::ShiftLeft,
        ShiftOp::LogicalRight => BinaryOp::LogicalShiftRight,
        ShiftOp::ArithmeticRight => BinaryOp::ArithmeticShiftRight,
        ShiftOp::RotateRight => BinaryOp::RotateRight,
    }
}

/// The low bits of a number make a word.
pub proof fn lemma_word(value: u128, width: u16)
    ensures
        word(value, width) matches Some(w) ==> is_word(w),
{
    if valid_width(width) {
        lemma_canonical_is_mod(value, width);
        lemma_canonical_small(value, width);
    }
}

/// The low bits of any number make a word.
proof fn lemma_words()
    ensures
        forall|value: u128, width: u16|
            (#[trigger] word(value, width)) is Some ==> is_word(word(value, width)->0),
{
    assert forall|value: u128, width: u16| (#[trigger] word(value, width)) is Some implies is_word(
        word(value, width)->0,
    ) by {
        lemma_word(value, width);
    }
}

/// Expressions only have words of valid widths.
pub proof fn lemma_eval_is_word(expr: ExprV, state: State)
    ensures
        eval(expr, state) matches Some(w) ==> is_word(w),
    decreases expr, 1nat,
{
    match expr {
        ExprV::Select { condition, when_true, when_false } => {
            lemma_eval_is_word(*when_true, state);
            lemma_eval_is_word(*when_false, state);
        },
        ExprV::Concat(values) => {
            lemma_chunks_are_word(values, state);
        },
        _ => {
            lemma_words();
        },
    }
}

proof fn lemma_chunks_are_word(chunks: Seq<ExprV>, state: State)
    ensures
        eval_chunks(chunks, state) matches Some(w) ==> is_word(w),
    decreases chunks, 0nat,
{
    if chunks.len() == 1 {
        lemma_eval_is_word(chunks[0], state);
    } else if chunks.len() > 1 {
        let above = eval_chunks(chunks.drop_last(), state);
        let last = eval(chunks.last(), state);
        if joined_word(above, last) is Some {
            lemma_word(
                (above->0.value * pow2(last->0.width as nat) + last->0.value) as u128,
                (above->0.width + last->0.width) as u16,
            );
        }
    }
}

/// Where the width of an expression is known without a state, its word has that width.
pub proof fn lemma_eval_width(expr: ExprV, state: State)
    requires
        eval(expr, state) is Some,
        width_of(expr) is Some,
    ensures
        eval(expr, state)->0.width == width_of(expr)->0,
    decreases expr, 1nat,
{
    match expr {
        ExprV::Add(lhs, _)
        | ExprV::Sub(lhs, _)
        | ExprV::Mul(lhs, _)
        | ExprV::And(lhs, _)
        | ExprV::Or(lhs, _)
        | ExprV::Xor(lhs, _)
        | ExprV::ShiftLeft(lhs, _)
        | ExprV::LogicalShiftRight(lhs, _)
        | ExprV::ArithmeticShiftRight(lhs, _)
        | ExprV::RotateRight(lhs, _) => {
            lemma_eval_width(*lhs, state);
        },
        ExprV::Not(value) | ExprV::CountOnes(value) => {
            lemma_eval_width(*value, state);
        },
        ExprV::Select { when_true, .. } => {
            lemma_eval_width(*when_true, state);
        },
        ExprV::Concat(values) => {
            lemma_chunks_width(values, state);
        },
        _ => {},
    }
}

proof fn lemma_chunks_width(chunks: Seq<ExprV>, state: State)
    requires
        eval_chunks(chunks, state) is Some,
        chunks_width(chunks) is Some,
    ensures
        eval_chunks(chunks, state)->0.width == chunks_width(chunks)->0,
    decreases chunks, 0nat,
{
    lemma_eval_width(chunks.last(), state);
    if chunks.len() > 1 {
        lemma_chunks_width(chunks.drop_last(), state);
    } else {
        assert(chunks_width(chunks.drop_last()) == Some(0u16));
    }
}

} // verus!
