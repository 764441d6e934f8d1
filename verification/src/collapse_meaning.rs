//! An expression collapsed for an instruction means the expression under that instruction.
use vstd::prelude::*;

use crate::canonical_form::{canon, flatten, known, unknowns, ExtensionOp};
use crate::canonical_meaning::{
    lemma_canon_keeps_meaning, lemma_chunks_defined, lemma_same_chunks, steady,
};
use crate::collapse::{
    binary_node, collapse_assoc, collapse_binary, collapse_count, collapse_extension,
    collapse_extract, collapse_flag, collapse_not, collapsed, collapsed_all, derived_expr,
    field_bits, flag_expr, immediate_literal, selected_register, BinaryOp, FlagOp,
};
use crate::concat_laws::lemma_joined;
use crate::const_eval::{canonical, lemma_canonical_small, sign_extended, valid_width, AssocCommOp};
use crate::evaluation::{
    assoc_word, binary_word, count_word, eval, extension_word, extract_word, flag_word, not_word,
    word, State, Word,
};
use crate::instruction_semantics::{EffectV, ExprV, OperandV, RegisterV};
use crate::isa_specification::DecodedV;
use crate::rewrite_laws::lemma_truth;
use crate::substitute::substituted;
use crate::substitute_meaning::{lemma_substitute_keeps_meaning, state_after};
use crate::tree_laws::{
    lemma_flatten, lemma_literals, lemma_total_concat, lemma_value_fits, lemma_with_constant, total,
    value_of,
};
use crate::word_laws::lemma_combine_fits;

verus! {

/// The word that a leaf has in the state.
pub open spec fn leaf_word(given: Word) -> Option<Word> {
    word(given.value, given.width)
}

/// In the state, operands and derived values stand for what the instruction holds.
pub open spec fn describes(state: State, instruction: DecodedV) -> bool {
    &&& forall|name: Seq<char>|
        immediate_literal(field_bits(instruction.fields, name)) matches Some(literal)
            ==> #[trigger] leaf_word((state.operands)(OperandV::ImmediateField(name))) == eval(
            literal,
            state,
        )
    &&& forall|name: Seq<char>|
        selected_register(field_bits(instruction.fields, name)) matches Some(register)
            ==> #[trigger] leaf_word(
            (state.operands)(OperandV::RegisterField(RegisterV::FromField(name))),
        ) == eval(register, state)
    &&& forall|name: Seq<char>|
        derived_expr(instruction.form.derived_values, name) matches Some(value)
            ==> #[trigger] leaf_word((state.derived)(name)) == eval(value, state)
}

/// Operands under an associative operator combine their literals.
proof fn lemma_collapse_assoc(op: AssocCommOp, lhs: ExprV, rhs: ExprV, state: State)
    requires
        assoc_word(op, eval(lhs, state), eval(rhs, state)) is Some,
        collapse_assoc(op, Some(lhs), Some(rhs)) is Some,
    ensures
        eval(collapse_assoc(op, Some(lhs), Some(rhs))->0, state) == assoc_word(
            op,
            eval(lhs, state),
            eval(rhs, state),
        ),
{
    let width = eval(lhs, state)->0.width;
    let terms = flatten(op, lhs) + flatten(op, rhs);
    lemma_value_fits(lhs, state, width);
    lemma_value_fits(rhs, state, width);
    lemma_flatten(op, lhs, state, width);
    lemma_flatten(op, rhs, state, width);
    lemma_total_concat(op, flatten(op, lhs), flatten(op, rhs), state, width);
    lemma_combine_fits(op, value_of(lhs, state), value_of(rhs, state), width);
    lemma_literals(op, terms, state, width);
    lemma_with_constant(
        op,
        unknowns(terms),
        known(op, terms)->0,
        state,
        width,
        total(op, terms, state, width),
    );
}

/// Literals under a binary operator fold to its word.
proof fn lemma_collapse_binary(op: BinaryOp, lhs: ExprV, rhs: ExprV, state: State)
    requires
        binary_word(op, eval(lhs, state), eval(rhs, state)) is Some,
        collapse_binary(op, Some(lhs), Some(rhs)) is Some,
    ensures
        eval(collapse_binary(op, Some(lhs), Some(rhs))->0, state) == binary_word(
            op,
            eval(lhs, state),
            eval(rhs, state),
        ),
{
    assert(eval(binary_node(op, lhs, rhs), state) == binary_word(
        op,
        eval(lhs, state),
        eval(rhs, state),
    ));
    lemma_truth(true, state);
    lemma_truth(false, state);
}

/// Literals under a flag fold to its bit.
proof fn lemma_collapse_flag(
    op: FlagOp,
    lhs: ExprV,
    rhs: ExprV,
    flag: ExprV,
    width: u16,
    state: State,
)
    requires
        flag_word(op, eval(lhs, state), eval(rhs, state), eval(flag, state), width) is Some,
        collapse_flag(op, Some(lhs), Some(rhs), Some(flag), width) is Some,
    ensures
        eval(collapse_flag(op, Some(lhs), Some(rhs), Some(flag), width)->0, state) == flag_word(
            op,
            eval(lhs, state),
            eval(rhs, state),
            eval(flag, state),
            width,
        ),
{
    assert(eval(flag_expr(op, lhs, rhs, flag, width), state) == flag_word(
        op,
        eval(lhs, state),
        eval(rhs, state),
        eval(flag, state),
        width,
    ));
    lemma_truth(true, state);
    lemma_truth(false, state);
    if lhs is Const && rhs is Const && flag is Const {
        lemma_flag_low_bits(
            op,
            lhs->Const_value,
            rhs->Const_value,
            canonical(flag->Const_value, 1),
            width,
        );
    }
}

/// A flag depends on the low bits only.
proof fn lemma_flag_low_bits(op: FlagOp, a: u128, b: u128, c: u128, width: u16)
    requires
        valid_width(width),
    ensures
        crate::collapse::fold_flag(op, a, b, c, width) == crate::collapse::fold_flag(
            op,
            canonical(a, width),
            canonical(b, width),
            c,
            width,
        ),
{
    lemma_canonical_small(a, width);
    lemma_canonical_small(b, width);
    crate::const_eval::lemma_negative(a, width);
    crate::const_eval::lemma_negative(b, width);
}

/// A collapsed complement, count, range or extension means the same.
proof fn lemma_collapse_unary(value: ExprV, high: u16, low: u16, to_width: u16, state: State)
    requires
        eval(value, state) is Some,
    ensures
        collapse_not(Some(value)) matches Some(e) ==> eval(e, state) == not_word(
            eval(value, state),
        ),
        collapse_count(Some(value)) matches Some(e) ==> eval(e, state) == count_word(
            eval(value, state),
        ),
        collapse_extract(Some(value), high, low) matches Some(e) ==> eval(e, state) == extract_word(
            eval(value, state),
            high,
            low,
        ),
        collapse_extension(ExtensionOp::Zero, Some(value), to_width) matches Some(e) ==> eval(
            e,
            state,
        ) == extension_word(ExtensionOp::Zero, eval(value, state), to_width),
        collapse_extension(ExtensionOp::Sign, Some(value), to_width) matches Some(e) ==> eval(
            e,
            state,
        ) == extension_word(ExtensionOp::Sign, eval(value, state), to_width),
{
    match value {
        ExprV::Const { value: v, width } => {
            let c = canonical(v, width);
            lemma_canonical_small(v, width);
            lemma_canonical_small(!c, width);
            lemma_canonical_small(crate::const_eval::ones(c) as u128, width);
            if low <= high < width {
                let out = (high - low + 1) as u16;
                lemma_canonical_small(c >> low, out);
            }
            if valid_width(to_width) {
                lemma_canonical_small(sign_extended(v, width, to_width), to_width);
                lemma_canonical_small(c, to_width);
                crate::const_eval::lemma_negative(v, width);
            }
        },
        _ => {},
    }
}

/// The collapsed forms of a row mean what the expressions mean.
pub(crate) proof fn lemma_all_collapse(exprs: Seq<ExprV>, instruction: DecodedV, depth: nat, state: State)
    requires
        describes(state, instruction),
        collapsed_all(exprs, instruction, depth) is Some,
        forall|i: int| 0 <= i < exprs.len() ==> eval(#[trigger] exprs[i], state) is Some,
    ensures
        collapsed_all(exprs, instruction, depth)->0.len() == exprs.len(),
        forall|i: int|
            0 <= i < exprs.len() ==> eval(
                #[trigger] collapsed_all(exprs, instruction, depth)->0[i],
                state,
            ) == eval(exprs[i], state),
    decreases depth, exprs, 0nat,
{
    if exprs.len() > 0 {
        let front = exprs.drop_last();
        let last = exprs.last();
        assert forall|i: int| 0 <= i < front.len() implies eval(#[trigger] front[i], state)
            is Some by {
            assert(front[i] == exprs[i]);
        }
        assert(exprs[exprs.len() - 1] == last);
        let made = collapsed(last, instruction, depth);
        assert(made is Some);
        lemma_all_collapse(front, instruction, depth, state);
        lemma_collapse_keeps_meaning(last, instruction, depth, state);
        let forms = collapsed_all(exprs, instruction, depth)->0;
        assert forall|i: int| 0 <= i < exprs.len() implies eval(#[trigger] forms[i], state) == eval(
            exprs[i],
            state,
        ) by {
            if i < front.len() {
                assert(forms[i] == collapsed_all(front, instruction, depth)->0[i]);
                assert(front[i] == exprs[i]);
            }
        }
    }
}

/// Collapsing an expression for an instruction keeps its meaning, in every state whose
/// operands and derived values are those of the instruction.
pub proof fn lemma_collapse_keeps_meaning(
    expr: ExprV,
    instruction: DecodedV,
    depth: nat,
    state: State,
)
    requires
        describes(state, instruction),
        collapsed(expr, instruction, depth) is Some,
        eval(expr, state) is Some,
    ensures
        eval(collapsed(expr, instruction, depth)->0, state) == eval(expr, state),
    decreases depth, expr, 1nat,
{
    match expr {
        ExprV::Const { .. } => {},
        ExprV::Operand(OperandV::ImmediateField(name)) => {
            let given = leaf_word((state.operands)(OperandV::ImmediateField(name)));
        },
        ExprV::Operand(OperandV::RegisterField(RegisterV::FromField(name))) => {
            let given = leaf_word(
                (state.operands)(OperandV::RegisterField(RegisterV::FromField(name))),
            );
        },
        ExprV::Operand(_) => {},
        ExprV::DerivedValue(name) => {
            let given = leaf_word((state.derived)(name));
            let value = derived_expr(instruction.form.derived_values, name)->0;
            assert(eval(value, state) == eval(expr, state));
            let made = collapsed(value, instruction, (depth - 1) as nat);
            assert(collapsed(expr, instruction, depth) == made);
            lemma_collapse_keeps_meaning(value, instruction, (depth - 1) as nat, state);
        },
        ExprV::ReadRegister { register, .. } => {
            lemma_collapse_keeps_meaning(*register, instruction, depth, state);
        },
        ExprV::ReadMemory { address, .. } => {
            lemma_collapse_keeps_meaning(*address, instruction, depth, state);
        },
        ExprV::Add(lhs, rhs)
        | ExprV::Mul(lhs, rhs)
        | ExprV::And(lhs, rhs)
        | ExprV::Or(lhs, rhs)
        | ExprV::Xor(lhs, rhs) => {
            let op = match expr {
                ExprV::Add(_, _) => AssocCommOp::Add,
                ExprV::Mul(_, _) => AssocCommOp::Mul,
                ExprV::And(_, _) => AssocCommOp::And,
                ExprV::Or(_, _) => AssocCommOp::Or,
                _ => AssocCommOp::Xor,
            };
            lemma_collapse_keeps_meaning(*lhs, instruction, depth, state);
            lemma_collapse_keeps_meaning(*rhs, instruction, depth, state);
            lemma_collapse_assoc(
                op,
                collapsed(*lhs, instruction, depth)->0,
                collapsed(*rhs, instruction, depth)->0,
                state,
            );
        },
        ExprV::Sub(lhs, rhs)
        | ExprV::ShiftLeft(lhs, rhs)
        | ExprV::LogicalShiftRight(lhs, rhs)
        | ExprV::ArithmeticShiftRight(lhs, rhs)
        | ExprV::RotateRight(lhs, rhs)
        | ExprV::Equal(lhs, rhs)
        | ExprV::UnsignedLessThan(lhs, rhs)
        | ExprV::SignedLessThan(lhs, rhs) => {
            let op = match expr {
                ExprV::Sub(_, _) => BinaryOp::Sub,
                ExprV::ShiftLeft(_, _) => BinaryOp::ShiftLeft,
                ExprV::LogicalShiftRight(_, _) => BinaryOp::LogicalShiftRight,
                ExprV::ArithmeticShiftRight(_, _) => BinaryOp::ArithmeticShiftRight,
                ExprV::RotateRight(_, _) => BinaryOp::RotateRight,
                ExprV::Equal(_, _) => BinaryOp::Equal,
                ExprV::UnsignedLessThan(_, _) => BinaryOp::UnsignedLessThan,
                _ => BinaryOp::SignedLessThan,
            };
            lemma_collapse_keeps_meaning(*lhs, instruction, depth, state);
            lemma_collapse_keeps_meaning(*rhs, instruction, depth, state);
            lemma_collapse_binary(
                op,
                collapsed(*lhs, instruction, depth)->0,
                collapsed(*rhs, instruction, depth)->0,
                state,
            );
        },
        ExprV::Not(value) | ExprV::CountOnes(value) => {
            lemma_collapse_keeps_meaning(*value, instruction, depth, state);
            lemma_collapse_unary(collapsed(*value, instruction, depth)->0, 0, 0, 1, state);
        },
        ExprV::Extract { value, high, low } => {
            lemma_collapse_keeps_meaning(*value, instruction, depth, state);
            lemma_collapse_unary(collapsed(*value, instruction, depth)->0, high, low, 1, state);
        },
        ExprV::ZeroExtend { value, to_width } | ExprV::SignExtend { value, to_width } => {
            lemma_collapse_keeps_meaning(*value, instruction, depth, state);
            lemma_collapse_unary(
                collapsed(*value, instruction, depth)->0,
                0,
                0,
                to_width,
                state,
            );
        },
        ExprV::Concat(values) => {
            lemma_chunks_defined(values, state);
            let chunks = collapsed_all(values, instruction, depth);
            assert(chunks is Some);
            lemma_all_collapse(values, instruction, depth, state);
            lemma_same_chunks(values, chunks->0, state);
            lemma_joined(chunks->0, state);
        },
        ExprV::AddCarryOut { lhs, rhs, carry_in: flag, width }
        | ExprV::AddOverflow { lhs, rhs, carry_in: flag, width }
        | ExprV::SubCarryOut { lhs, rhs, borrow_in: flag, width }
        | ExprV::SubOverflow { lhs, rhs, borrow_in: flag, width } => {
            let op = match expr {
                ExprV::AddCarryOut { .. } => FlagOp::AddCarryOut,
                ExprV::AddOverflow { .. } => FlagOp::AddOverflow,
                ExprV::SubCarryOut { .. } => FlagOp::SubCarryOut,
                _ => FlagOp::SubOverflow,
            };
            lemma_collapse_keeps_meaning(*lhs, instruction, depth, state);
            lemma_collapse_keeps_meaning(*rhs, instruction, depth, state);
            lemma_collapse_keeps_meaning(*flag, instruction, depth, state);
            lemma_collapse_flag(
                op,
                collapsed(*lhs, instruction, depth)->0,
                collapsed(*rhs, instruction, depth)->0,
                collapsed(*flag, instruction, depth)->0,
                width,
                state,
            );
        },
        ExprV::Select { condition, when_true, when_false } => {
            lemma_collapse_keeps_meaning(*condition, instruction, depth, state);
            lemma_collapse_keeps_meaning(*when_true, instruction, depth, state);
            lemma_collapse_keeps_meaning(*when_false, instruction, depth, state);
        },
    }
}

/// An expression collapsed and canonicalized for an instruction means what it meant.
pub proof fn lemma_collapse_and_canonicalize(expr: ExprV, instruction: DecodedV, state: State)
    requires
        describes(state, instruction),
        eval(expr, state) is Some,
        collapsed(expr, instruction, instruction.form.derived_values.len()) matches Some(e)
            && canon(e) is Some && steady(e, state),
    ensures
        eval(
            canon(collapsed(expr, instruction, instruction.form.derived_values.len())->0)->0,
            state,
        ) == eval(expr, state),
{
    let depth = instruction.form.derived_values.len();
    lemma_collapse_keeps_meaning(expr, instruction, depth, state);
    lemma_canon_keeps_meaning(collapsed(expr, instruction, depth)->0, state);
}

/// An expression collapsed for an instruction, with earlier effects put in and in canonical
/// form, means the expression after those effects.
pub proof fn lemma_collapse_substitute_and_canonicalize(
    expr: ExprV,
    instruction: DecodedV,
    previous: Seq<EffectV>,
    state: State,
)
    requires
        describes(state_after(previous, state), instruction),
        eval(expr, state_after(previous, state)) is Some,
        collapsed(expr, instruction, instruction.form.derived_values.len()) matches Some(e) && canon(
            substituted(e, previous),
        ) is Some && eval(substituted(e, previous), state) is Some && steady(
            substituted(e, previous),
            state,
        ),
    ensures
        eval(
            canon(
                substituted(
                    collapsed(expr, instruction, instruction.form.derived_values.len())->0,
                    previous,
                ),
            )->0,
            state,
        ) == eval(expr, state_after(previous, state)),
{
    let depth = instruction.form.derived_values.len();
    let e = collapsed(expr, instruction, depth)->0;
    lemma_collapse_keeps_meaning(expr, instruction, depth, state_after(previous, state));
    lemma_substitute_keeps_meaning(e, previous, state);
    lemma_canon_keeps_meaning(substituted(e, previous), state);
}

} // verus!
