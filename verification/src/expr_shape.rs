//! Static widths of expressions, and the deterministic text key that orders them.
use vstd::prelude::*;
use vstd::string::*;

use crate::instruction_semantics::{Expr, ExprV, OperandRef, OperandV, RegisterRef, RegisterV};
use crate::text_set::lemma_text_total;

verus! {

/// The total width of concatenated chunks, while it stays within a word.
pub open spec fn chunks_width(chunks: Seq<ExprV>) -> Option<u16>
    decreases chunks, 0nat,
{
    if chunks.len() == 0 {
        Some(0)
    } else {
        match (chunks_width(chunks.drop_last()), width_of(chunks.last())) {
            (Some(above), Some(last)) => if above + last <= 128 {
                Some((above + last) as u16)
            } else {
                None
            },
            _ => None,
        }
    }
}

/// The width that two operands share.
pub open spec fn shared_width(lhs: Option<u16>, rhs: Option<u16>) -> Option<u16> {
    if lhs == rhs {
        lhs
    } else {
        None
    }
}

/// The statically known result width of an expression.
pub open spec fn width_of(expr: ExprV) -> Option<u16>
    decreases expr, 1nat,
{
    match expr {
        ExprV::Const { width, .. } => Some(width),
        ExprV::Operand(OperandV::RegisterField(RegisterV::Fixed { identifier_width, .. })) => Some(
            identifier_width,
        ),
        ExprV::Operand(_) | ExprV::DerivedValue(_) => None,
        ExprV::ReadRegister { width, .. } | ExprV::ReadMemory { width, .. } => Some(width),
        ExprV::Add(lhs, rhs)
        | ExprV::Sub(lhs, rhs)
        | ExprV::Mul(lhs, rhs)
        | ExprV::And(lhs, rhs)
        | ExprV::Or(lhs, rhs)
        | ExprV::Xor(lhs, rhs)
        | ExprV::ShiftLeft(lhs, rhs)
        | ExprV::LogicalShiftRight(lhs, rhs)
        | ExprV::ArithmeticShiftRight(lhs, rhs)
        | ExprV::RotateRight(lhs, rhs) => shared_width(width_of(*lhs), width_of(*rhs)),
        ExprV::Not(value) | ExprV::CountOnes(value) => width_of(*value),
        ExprV::Equal(_, _)
        | ExprV::UnsignedLessThan(_, _)
        | ExprV::SignedLessThan(_, _)
        | ExprV::AddCarryOut { .. }
        | ExprV::AddOverflow { .. }
        | ExprV::SubCarryOut { .. }
        | ExprV::SubOverflow { .. } => Some(1),
        ExprV::Extract { high, low, .. } => if high >= low && high - low < u16::MAX {
            Some((high - low + 1) as u16)
        } else {
            None
        },
        ExprV::Concat(values) => chunks_width(values),
        ExprV::ZeroExtend { to_width, .. } | ExprV::SignExtend { to_width, .. } => Some(to_width),
        ExprV::Select { when_true, when_false, .. } => shared_width(
            width_of(*when_true),
            width_of(*when_false),
        ),
    }
}

/// The width of a prefix of the chunks is known when the width of all of them is.
proof fn lemma_chunks_prefix(chunks: Seq<ExprV>, i: int)
    requires
        0 <= i < chunks.len(),
        chunks_width(chunks) is Some,
    ensures
        chunks_width(chunks.take(i + 1)) is Some,
    decreases chunks.len() - i,
{
    if i + 1 == chunks.len() {
        assert(chunks.take(i + 1) =~= chunks);
    } else {
        lemma_chunks_prefix(chunks, i + 1);
        assert(chunks.take(i + 2).drop_last() =~= chunks.take(i + 1));
    }
}

/// The total width of a row of chunks.
fn chunks_width_of(values: &Vec<Expr>) -> (r: Option<u16>)
    ensures
        r == chunks_width(crate::instruction_semantics::views(values@)),
    decreases values, 0nat,
{
    let ghost chunks = crate::instruction_semantics::views(values@);
    let mut total: u16 = 0;
    let mut i: usize = 0;
    assert(chunks.take(0) =~= Seq::empty());
    while i < values.len()
        invariant
            i <= values@.len(),
            chunks == crate::instruction_semantics::views(values@),
            total <= 128,
            chunks_width(chunks.take(i as int)) == Some(total),
        decreases values@.len() - i,
    {
        let width = expr_width_of(&values[i]);
        proof {
            assert(chunks.take(i + 1).drop_last() =~= chunks.take(i as int));
            assert(chunks.take(i + 1).last() == values@[i as int]@);
            if chunks_width(chunks) is Some {
                lemma_chunks_prefix(chunks, i as int);
            }
        }
        match width {
            None => {
                return None;
            },
            Some(w) => {
                if w > 128 || total + w > 128 {
                    return None;
                }
                total = total + w;
            },
        }
        i += 1;
    }
    assert(chunks.take(i as int) =~= chunks);
    Some(total)
}

fn shared(lhs: Option<u16>, rhs: Option<u16>) -> (r: Option<u16>)
    ensures
        r == shared_width(lhs, rhs),
{
    match (lhs, rhs) {
        (Some(a), Some(b)) => if a == b {
            Some(a)
        } else {
            None
        },
        _ => None,
    }
}

fn expr_width_of(expr: &Expr) -> (r: Option<u16>)
    ensures
        r == width_of(expr@),
    decreases expr, 1nat,
{
    match expr {
        Expr::Const { width, .. } => Some(*width),
        Expr::Operand(operand) => match operand {
            OperandRef::RegisterField(RegisterRef::Fixed { identifier_width, .. }) => Some(
                *identifier_width,
            ),
            _ => None,
        },
        Expr::DerivedValue(_) => None,
        Expr::ReadRegister { width, .. } | Expr::ReadMemory { width, .. } => Some(*width),
        Expr::Add(lhs, rhs)
        | Expr::Sub(lhs, rhs)
        | Expr::Mul(lhs, rhs)
        | Expr::And(lhs, rhs)
        | Expr::Or(lhs, rhs)
        | Expr::Xor(lhs, rhs)
        | Expr::ShiftLeft(lhs, rhs)
        | Expr::LogicalShiftRight(lhs, rhs)
        | Expr::ArithmeticShiftRight(lhs, rhs)
        | Expr::RotateRight(lhs, rhs) => shared(expr_width_of(lhs), expr_width_of(rhs)),
        Expr::Not(value) | Expr::CountOnes(value) => expr_width_of(value),
        Expr::Equal(_, _)
        | Expr::UnsignedLessThan(_, _)
        | Expr::SignedLessThan(_, _)
        | Expr::AddCarryOut { .. }
        | Expr::AddOverflow { .. }
        | Expr::SubCarryOut { .. }
        | Expr::SubOverflow { .. } => Some(1),
        Expr::Extract { high, low, .. } => if *high >= *low && *high - *low < u16::MAX {
            Some(*high - *low + 1)
        } else {
            None
        },
        Expr::Concat(values) => chunks_width_of(values),
        Expr::ZeroExtend { to_width, .. } | Expr::SignExtend { to_width, .. } => Some(*to_width),
        Expr::Select { when_true, when_false, .. } => shared(
            expr_width_of(when_true),
            expr_width_of(when_false),
        ),
    }
}

impl Expr {
    /// Returns the statically known result width, if all required widths agree.
    ///
    /// This method does not resolve instruction fields or derived values.
    /// Call `collapse` first when width information comes from a decoded
    /// instruction.
    pub fn expr_width(&self) -> (r: Option<u16>)
        ensures
            r == width_of(self@),
    {
        expr_width_of(self)
    }
}

/// A decimal digit.
pub open spec fn digit(d: int) -> char {
    if d == 0 {
        '0'
    } else if d == 1 {
        '1'
    } else if d == 2 {
        '2'
    } else if d == 3 {
        '3'
    } else if d == 4 {
        '4'
    } else if d == 5 {
        '5'
    } else if d == 6 {
        '6'
    } else if d == 7 {
        '7'
    } else if d == 8 {
        '8'
    } else {
        '9'
    }
}

/// The decimal digits of a number.
pub open spec fn decimal(n: nat) -> Seq<char>
    decreases n,
{
    if n < 10 {
        seq![digit(n as int)]
    } else {
        decimal(n / 10).push(digit((n % 10) as int))
    }
}

/// The text that `str`'s `Debug` writes for a string: quoted, with escapes.
pub uninterp spec fn quoted(text: Seq<char>) -> Seq<char>;

/// A name as it is, behind its length.
pub open spec fn spelled(name: Seq<char>) -> Seq<char> {
    decimal(name.len()) + ":"@ + name
}

/// The key of a name: as it is, or as `Debug` writes it.
pub open spec fn name_key(name: Seq<char>, plain: bool) -> Seq<char> {
    if plain {
        spelled(name)
    } else {
        quoted(name)
    }
}

/// The key of a register reference.
pub open spec fn register_key(register: RegisterV, plain: bool) -> Seq<char> {
    match register {
        RegisterV::Fixed { register, identifier_width } => "Fixed { register: Register("@ + decimal(
            register as nat,
        ) + "), identifier_width: "@ + decimal(identifier_width as nat) + " }"@,
        RegisterV::FromField(name) => "FromField("@ + name_key(name, plain) + ")"@,
    }
}

/// The key of an operand reference.
pub open spec fn operand_key(operand: OperandV, plain: bool) -> Seq<char> {
    match operand {
        OperandV::RegisterField(register) => "RegisterField("@ + register_key(register, plain) + ")"@,
        OperandV::ImmediateField(name) => "ImmediateField("@ + name_key(name, plain) + ")"@,
    }
}

/// The keys of a row of expressions, separated by commas.
pub open spec fn keys(exprs: Seq<ExprV>, plain: bool) -> Seq<char>
    decreases exprs, 0nat,
{
    if exprs.len() == 0 {
        seq![]
    } else if exprs.len() == 1 {
        key(exprs[0], plain)
    } else {
        keys(exprs.drop_last(), plain) + ", "@ + key(exprs.last(), plain)
    }
}

/// The text that orders expressions: the constructor names, fields and numbers in full, and names
/// as they are or as `Debug` writes them.
pub open spec fn key(expr: ExprV, plain: bool) -> Seq<char>
    decreases expr, 1nat,
{
    match expr {
        ExprV::Const { value, width } => "Const { value: "@ + decimal(value as nat) + ", width: "@ + decimal(width as nat) + " }"@,
        ExprV::Operand(operand) => "Operand("@ + operand_key(operand, plain) + ")"@,
        ExprV::DerivedValue(name) => "DerivedValue(ValueName("@ + name_key(name, plain) + "))"@,
        ExprV::ReadRegister { register, width } => "ReadRegister { register: "@ + key(*register, plain) + ", width: "@ + decimal(width as nat) + " }"@,
        ExprV::ReadMemory { address, width } => "ReadMemory { address: "@ + key(*address, plain) + ", width: "@ + decimal(width as nat) + " }"@,
        ExprV::Add(lhs, rhs) => "Add("@ + key(*lhs, plain) + ", "@ + key(*rhs, plain) + ")"@,
        ExprV::Sub(lhs, rhs) => "Sub("@ + key(*lhs, plain) + ", "@ + key(*rhs, plain) + ")"@,
        ExprV::Mul(lhs, rhs) => "Mul("@ + key(*lhs, plain) + ", "@ + key(*rhs, plain) + ")"@,
        ExprV::And(lhs, rhs) => "And("@ + key(*lhs, plain) + ", "@ + key(*rhs, plain) + ")"@,
        ExprV::Or(lhs, rhs) => "Or("@ + key(*lhs, plain) + ", "@ + key(*rhs, plain) + ")"@,
        ExprV::Xor(lhs, rhs) => "Xor("@ + key(*lhs, plain) + ", "@ + key(*rhs, plain) + ")"@,
        ExprV::Not(value) => "Not("@ + key(*value, plain) + ")"@,
        ExprV::ShiftLeft(value, amount) => "ShiftLeft("@ + key(*value, plain) + ", "@ + key(*amount, plain) + ")"@,
        ExprV::LogicalShiftRight(value, amount) => "LogicalShiftRight("@ + key(*value, plain) + ", "@ + key(*amount, plain) + ")"@,
        ExprV::ArithmeticShiftRight(value, amount) => "ArithmeticShiftRight("@ + key(*value, plain) + ", "@ + key(*amount, plain) + ")"@,
        ExprV::RotateRight(value, amount) => "RotateRight("@ + key(*value, plain) + ", "@ + key(*amount, plain) + ")"@,
        ExprV::Equal(lhs, rhs) => "Equal("@ + key(*lhs, plain) + ", "@ + key(*rhs, plain) + ")"@,
        ExprV::UnsignedLessThan(lhs, rhs) => "UnsignedLessThan("@ + key(*lhs, plain) + ", "@ + key(*rhs, plain) + ")"@,
        ExprV::SignedLessThan(lhs, rhs) => "SignedLessThan("@ + key(*lhs, plain) + ", "@ + key(*rhs, plain) + ")"@,
        ExprV::Extract { value, high, low } => "Extract { value: "@ + key(*value, plain) + ", high: "@ + decimal(high as nat) + ", low: "@ + decimal(low as nat) + " }"@,
        ExprV::Concat(values) => "Concat(["@ + keys(values, plain) + "])"@,
        ExprV::ZeroExtend { value, to_width } => "ZeroExtend { value: "@ + key(*value, plain) + ", to_width: "@ + decimal(to_width as nat) + " }"@,
        ExprV::SignExtend { value, to_width } => "SignExtend { value: "@ + key(*value, plain) + ", to_width: "@ + decimal(to_width as nat) + " }"@,
        ExprV::CountOnes(value) => "CountOnes("@ + key(*value, plain) + ")"@,
        ExprV::AddCarryOut { lhs, rhs, carry_in, width } => "AddCarryOut { lhs: "@ + key(*lhs, plain) + ", rhs: "@ + key(*rhs, plain) + ", carry_in: "@ + key(*carry_in, plain) + ", width: "@ + decimal(width as nat) + " }"@,
        ExprV::AddOverflow { lhs, rhs, carry_in, width } => "AddOverflow { lhs: "@ + key(*lhs, plain) + ", rhs: "@ + key(*rhs, plain) + ", carry_in: "@ + key(*carry_in, plain) + ", width: "@ + decimal(width as nat) + " }"@,
        ExprV::SubCarryOut { lhs, rhs, borrow_in, width } => "SubCarryOut { lhs: "@ + key(*lhs, plain) + ", rhs: "@ + key(*rhs, plain) + ", borrow_in: "@ + key(*borrow_in, plain) + ", width: "@ + decimal(width as nat) + " }"@,
        ExprV::SubOverflow { lhs, rhs, borrow_in, width } => "SubOverflow { lhs: "@ + key(*lhs, plain) + ", rhs: "@ + key(*rhs, plain) + ", borrow_in: "@ + key(*borrow_in, plain) + ", width: "@ + decimal(width as nat) + " }"@,
        ExprV::Select { condition, when_true, when_false } => "Select { condition: "@ + key(*condition, plain) + ", when_true: "@ + key(*when_true, plain) + ", when_false: "@ + key(*when_false, plain) + " }"@,
    }
}

/// Quotes and escapes a text as `str`'s `Debug` does.
///
/// The contract names what `format!("{:?}", text)` writes; it depends on the text alone.
#[verifier::external_body]
fn quote(text: &str) -> (r: String)
    ensures
        r@ == quoted(text@),
{
    format!("{:?}", text)
}

/// Writes a decimal digit.
fn digit_char(d: u128) -> (r: char)
    requires
        d < 10,
    ensures
        r == digit(d as int),
{
    if d == 0 {
        '0'
    } else if d == 1 {
        '1'
    } else if d == 2 {
        '2'
    } else if d == 3 {
        '3'
    } else if d == 4 {
        '4'
    } else if d == 5 {
        '5'
    } else if d == 6 {
        '6'
    } else if d == 7 {
        '7'
    } else if d == 8 {
        '8'
    } else {
        '9'
    }
}

/// Writes a number in decimal.
pub(crate) fn decimal_text(n: u128) -> (r: String)
    ensures
        r@ == decimal(n as nat),
    decreases n,
{
    if n < 10 {
        let mut r = String::new();
        r.push(digit_char(n));
        assert(r@ =~= decimal(n as nat));
        r
    } else {
        let mut r = decimal_text(n / 10);
        r.push(digit_char(n % 10));
        r
    }
}

/// Writes a name behind its length.
fn spell(name: &str) -> (r: String)
    ensures
        r@ == spelled(name@),
{
    let chars = crate::text::chars_of(name);
    let mut r = decimal_text(chars.len() as u128);
    r.append(":");
    r.append(name);
    r
}

fn write_name(name: &str, plain: bool) -> (r: String)
    ensures
        r@ == name_key(name@, plain),
{
    if plain {
        spell(name)
    } else {
        quote(name)
    }
}

fn register_key_text(register: &RegisterRef, plain: bool) -> (r: String)
    ensures
        r@ == register_key(register@, plain),
{
    match register {
        RegisterRef::Fixed { register, identifier_width } => {
            let mut r = "Fixed { register: Register(".to_owned();
            r.append(decimal_text(register.0 as u128).as_str());
            r.append("), identifier_width: ");
            r.append(decimal_text(*identifier_width as u128).as_str());
            r.append(" }");
            r
        },
        RegisterRef::FromField(name) => {
            let mut r = "FromField(".to_owned();
            r.append(write_name(name.as_str(), plain).as_str());
            r.append(")");
            r
        },
    }
}

fn operand_key_text(operand: &OperandRef, plain: bool) -> (r: String)
    ensures
        r@ == operand_key(operand@, plain),
{
    match operand {
        OperandRef::RegisterField(register) => {
            let mut r = "RegisterField(".to_owned();
            r.append(register_key_text(register, plain).as_str());
            r.append(")");
            r
        },
        OperandRef::ImmediateField(name) => {
            let mut r = "ImmediateField(".to_owned();
            r.append(write_name(name.as_str(), plain).as_str());
            r.append(")");
            r
        },
    }
}

fn keys_text(exprs: &Vec<Expr>, plain: bool) -> (r: String)
    ensures
        r@ == keys(crate::instruction_semantics::views(exprs@), plain),
    decreases exprs, 0nat,
{
    let ghost all = crate::instruction_semantics::views(exprs@);
    let mut r = String::new();
    let mut i: usize = 0;
    assert(all.take(0) =~= Seq::empty());
    while i < exprs.len()
        invariant
            i <= exprs@.len(),
            all == crate::instruction_semantics::views(exprs@),
            r@ == keys(all.take(i as int), plain),
        decreases exprs@.len() - i,
    {
        let text = key_text(&exprs[i], plain);
        proof {
            assert(all.take(i + 1).drop_last() =~= all.take(i as int));
            assert(all.take(i + 1).last() == exprs@[i as int]@);
        }
        if i > 0 {
            r.append(", ");
            r.append(text.as_str());
        } else {
            r = text;
        }
        i += 1;
    }
    assert(all.take(i as int) =~= all);
    r
}

fn key_text(expr: &Expr, plain: bool) -> (r: String)
    ensures
        r@ == key(expr@, plain),
    decreases expr, 1nat,
{
    match expr {
        Expr::Const { value, width } => {
            let mut r = "Const { value: ".to_owned();
            r.append(decimal_text(*value).as_str());
            r.append(", width: ");
            r.append(decimal_text(*width as u128).as_str());
            r.append(" }");
            r
        },
        Expr::Operand(operand) => {
            let mut r = "Operand(".to_owned();
            r.append(operand_key_text(operand, plain).as_str());
            r.append(")");
            r
        },
        Expr::DerivedValue(name) => {
            let mut r = "DerivedValue(ValueName(".to_owned();
            r.append(write_name(name.0.as_str(), plain).as_str());
            r.append("))");
            r
        },
        Expr::ReadRegister { register, width } => {
            let mut r = "ReadRegister { register: ".to_owned();
            r.append(key_text(register, plain).as_str());
            r.append(", width: ");
            r.append(decimal_text(*width as u128).as_str());
            r.append(" }");
            r
        },
        Expr::ReadMemory { address, width } => {
            let mut r = "ReadMemory { address: ".to_owned();
            r.append(key_text(address, plain).as_str());
            r.append(", width: ");
            r.append(decimal_text(*width as u128).as_str());
            r.append(" }");
            r
        },
        Expr::Add(lhs, rhs) => {
            let mut r = "Add(".to_owned();
            r.append(key_text(lhs, plain).as_str());
            r.append(", ");
            r.append(key_text(rhs, plain).as_str());
            r.append(")");
            r
        },
        Expr::Sub(lhs, rhs) => {
            let mut r = "Sub(".to_owned();
            r.append(key_text(lhs, plain).as_str());
            r.append(", ");
            r.append(key_text(rhs, plain).as_str());
            r.append(")");
            r
        },
        Expr::Mul(lhs, rhs) => {
            let mut r = "Mul(".to_owned();
            r.append(key_text(lhs, plain).as_str());
            r.append(", ");
            r.append(key_text(rhs, plain).as_str());
            r.append(")");
            r
        },
        Expr::And(lhs, rhs) => {
            let mut r = "And(".to_owned();
            r.append(key_text(lhs, plain).as_str());
            r.append(", ");
            r.append(key_text(rhs, plain).as_str());
            r.append(")");
            r
        },
        Expr::Or(lhs, rhs) => {
            let mut r = "Or(".to_owned();
            r.append(key_text(lhs, plain).as_str());
            r.append(", ");
            r.append(key_text(rhs, plain).as_str());
            r.append(")");
            r
        },
        Expr::Xor(lhs, rhs) => {
            let mut r = "Xor(".to_owned();
            r.append(key_text(lhs, plain).as_str());
            r.append(", ");
            r.append(key_text(rhs, plain).as_str());
            r.append(")");
            r
        },
        Expr::Not(value) => {
            let mut r = "Not(".to_owned();
            r.append(key_text(value, plain).as_str());
            r.append(")");
            r
        },
        Expr::ShiftLeft(value, amount) => {
            let mut r = "ShiftLeft(".to_owned();
            r.append(key_text(value, plain).as_str());
            r.append(", ");
            r.append(key_text(amount, plain).as_str());
            r.append(")");
            r
        },
        Expr::LogicalShiftRight(value, amount) => {
            let mut r = "LogicalShiftRight(".to_owned();
            r.append(key_text(value, plain).as_str());
            r.append(", ");
            r.append(key_text(amount, plain).as_str());
            r.append(")");
            r
        },
        Expr::ArithmeticShiftRight(value, amount) => {
            let mut r = "ArithmeticShiftRight(".to_owned();
            r.append(key_text(value, plain).as_str());
            r.append(", ");
            r.append(key_text(amount, plain).as_str());
            r.append(")");
            r
        },
        Expr::RotateRight(value, amount) => {
            let mut r = "RotateRight(".to_owned();
            r.append(key_text(value, plain).as_str());
            r.append(", ");
            r.append(key_text(amount, plain).as_str());
            r.append(")");
            r
        },
        Expr::Equal(lhs, rhs) => {
            let mut r = "Equal(".to_owned();
            r.append(key_text(lhs, plain).as_str());
            r.append(", ");
            r.append(key_text(rhs, plain).as_str());
            r.append(")");
            r
        },
        Expr::UnsignedLessThan(lhs, rhs) => {
            let mut r = "UnsignedLessThan(".to_owned();
            r.append(key_text(lhs, plain).as_str());
            r.append(", ");
            r.append(key_text(rhs, plain).as_str());
            r.append(")");
            r
        },
        Expr::SignedLessThan(lhs, rhs) => {
            let mut r = "SignedLessThan(".to_owned();
            r.append(key_text(lhs, plain).as_str());
            r.append(", ");
            r.append(key_text(rhs, plain).as_str());
            r.append(")");
            r
        },
        Expr::Extract { value, high, low } => {
            let mut r = "Extract { value: ".to_owned();
            r.append(key_text(value, plain).as_str());
            r.append(", high: ");
            r.append(decimal_text(*high as u128).as_str());
            r.append(", low: ");
            r.append(decimal_text(*low as u128).as_str());
            r.append(" }");
            r
        },
        Expr::Concat(values) => {
            let mut r = "Concat([".to_owned();
            r.append(keys_text(values, plain).as_str());
            r.append("])");
            r
        },
        Expr::ZeroExtend { value, to_width } => {
            let mut r = "ZeroExtend { value: ".to_owned();
            r.append(key_text(value, plain).as_str());
            r.append(", to_width: ");
            r.append(decimal_text(*to_width as u128).as_str());
            r.append(" }");
            r
        },
        Expr::SignExtend { value, to_width } => {
            let mut r = "SignExtend { value: ".to_owned();
            r.append(key_text(value, plain).as_str());
            r.append(", to_width: ");
            r.append(decimal_text(*to_width as u128).as_str());
            r.append(" }");
            r
        },
        Expr::CountOnes(value) => {
            let mut r = "CountOnes(".to_owned();
            r.append(key_text(value, plain).as_str());
            r.append(")");
            r
        },
        Expr::AddCarryOut { lhs, rhs, carry_in, width } => {
            let mut r = "AddCarryOut { lhs: ".to_owned();
            r.append(key_text(lhs, plain).as_str());
            r.append(", rhs: ");
            r.append(key_text(rhs, plain).as_str());
            r.append(", carry_in: ");
            r.append(key_text(carry_in, plain).as_str());
            r.append(", width: ");
            r.append(decimal_text(*width as u128).as_str());
            r.append(" }");
            r
        },
        Expr::AddOverflow { lhs, rhs, carry_in, width } => {
            let mut r = "AddOverflow { lhs: ".to_owned();
            r.append(key_text(lhs, plain).as_str());
            r.append(", rhs: ");
            r.append(key_text(rhs, plain).as_str());
            r.append(", carry_in: ");
            r.append(key_text(carry_in, plain).as_str());
            r.append(", width: ");
            r.append(decimal_text(*width as u128).as_str());
            r.append(" }");
            r
        },
        Expr::SubCarryOut { lhs, rhs, borrow_in, width } => {
            let mut r = "SubCarryOut { lhs: ".to_owned();
            r.append(key_text(lhs, plain).as_str());
            r.append(", rhs: ");
            r.append(key_text(rhs, plain).as_str());
            r.append(", borrow_in: ");
            r.append(key_text(borrow_in, plain).as_str());
            r.append(", width: ");
            r.append(decimal_text(*width as u128).as_str());
            r.append(" }");
            r
        },
        Expr::SubOverflow { lhs, rhs, borrow_in, width } => {
            let mut r = "SubOverflow { lhs: ".to_owned();
            r.append(key_text(lhs, plain).as_str());
            r.append(", rhs: ");
            r.append(key_text(rhs, plain).as_str());
            r.append(", borrow_in: ");
            r.append(key_text(borrow_in, plain).as_str());
            r.append(", width: ");
            r.append(decimal_text(*width as u128).as_str());
            r.append(" }");
            r
        },
        Expr::Select { condition, when_true, when_false } => {
            let mut r = "Select { condition: ".to_owned();
            r.append(key_text(condition, plain).as_str());
            r.append(", when_true: ");
            r.append(key_text(when_true, plain).as_str());
            r.append(", when_false: ");
            r.append(key_text(when_false, plain).as_str());
            r.append(" }");
            r
        },
    }
}

/// Produces a deterministic structural key used to order commutative terms.
pub(crate) fn canonical_sort_key(expr: &Expr) -> (r: Vec<char>)
    ensures
        r@ == key(expr@, false),
{
    crate::text::chars_of(key_text(expr, false).as_str())
}

/// Lexicographic order by code points.
pub open spec fn text_le(a: Seq<char>, b: Seq<char>) -> bool
    decreases a.len(),
{
    if a.len() == 0 {
        true
    } else if b.len() == 0 {
        false
    } else if a[0] == b[0] {
        text_le(a.drop_first(), b.drop_first())
    } else {
        (a[0] as u32) < (b[0] as u32)
    }
}

/// Compares two texts by code points.
pub(crate) fn text_not_after(a: &Vec<char>, b: &Vec<char>) -> (r: bool)
    ensures
        r == text_le(a@, b@),
{
    let mut i: usize = 0;
    assert(a@.skip(0) =~= a@);
    assert(b@.skip(0) =~= b@);
    while i < a.len()
        invariant
            i <= a@.len(),
            i <= b@.len(),
            text_le(a@, b@) == text_le(a@.skip(i as int), b@.skip(i as int)),
        decreases a@.len() - i,
    {
        if i >= b.len() {
            return false;
        }
        if a[i] != b[i] {
            return (a[i] as u32) < (b[i] as u32);
        }
        assert(a@.skip(i as int).drop_first() =~= a@.skip(i + 1));
        assert(b@.skip(i as int).drop_first() =~= b@.skip(i + 1));
        i += 1;
    }
    true
}

/// The order of expressions: by what `Debug` writes of them, and by the names as they are where
/// that is the same.
pub open spec fn key_le(a: ExprV, b: ExprV) -> bool {
    if key(a, false) == key(b, false) {
        text_le(key(a, true), key(b, true))
    } else {
        text_le(key(a, false), key(b, false))
    }
}

/// Compares two expressions, given what `Debug` writes of them.
pub(crate) fn key_not_after(a: &Expr, a_key: &Vec<char>, b: &Expr, b_key: &Vec<char>) -> (r: bool)
    requires
        a_key@ == key(a@, false),
        b_key@ == key(b@, false),
    ensures
        r == key_le(a@, b@),
{
    proof {
        lemma_text_total(a_key@, b_key@);
    }
    if !text_not_after(a_key, b_key) {
        return false;
    }
    if !text_not_after(b_key, a_key) {
        return true;
    }
    text_not_after(
        &crate::text::chars_of(key_text(a, true).as_str()),
        &crate::text::chars_of(key_text(b, true).as_str()),
    )
}

} // verus!
