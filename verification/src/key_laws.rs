//! Keys tell expressions apart, and order them.
use vstd::prelude::*;

use crate::canonical_form::weight;
use crate::expr_shape::{decimal, digit, key, key_le, keys, spelled};
use crate::expr_weight::lemma_weight_children;
use crate::instruction_semantics::{children, ExprV, OperandV, RegisterV};
use crate::text_set::{lemma_text_total, lemma_text_transitive};

verus! {

/// What keys are made of.
enum Piece {
    Text(Seq<char>),
    Name(Seq<char>),
    Number(nat),
    Part(ExprV),
    Parts(Seq<ExprV>),
}

spec fn rendered(piece: Piece) -> Seq<char> {
    match piece {
        Piece::Text(text) => text,
        Piece::Name(name) => spelled(name),
        Piece::Number(n) => decimal(n),
        Piece::Part(expr) => key(expr, true),
        Piece::Parts(exprs) => keys(exprs, true),
    }
}

/// The pieces from `i` on, one after the other.
spec fn render(pieces: Seq<Piece>, i: int) -> Seq<char>
    decreases pieces.len() - i,
{
    if i < 0 || i >= pieces.len() {
        seq![]
    } else {
        rendered(pieces[i]) + render(pieces, i + 1)
    }
}

spec fn one_part(head: Seq<char>, part: ExprV) -> Seq<Piece> {
    seq![Piece::Text(head), Piece::Part(part), Piece::Text(")"@)]
}

spec fn two_parts(head: Seq<char>, lhs: ExprV, rhs: ExprV) -> Seq<Piece> {
    seq![
        Piece::Text(head),
        Piece::Part(lhs),
        Piece::Text(", "@),
        Piece::Part(rhs),
        Piece::Text(")"@),
    ]
}

spec fn sized_part(head: Seq<char>, part: ExprV, label: Seq<char>, width: nat) -> Seq<Piece> {
    seq![
        Piece::Text(head),
        Piece::Part(part),
        Piece::Text(label),
        Piece::Number(width),
        Piece::Text(" }"@),
    ]
}

spec fn flag_parts(
    head: Seq<char>,
    lhs: ExprV,
    rhs: ExprV,
    label: Seq<char>,
    flag: ExprV,
    width: nat,
) -> Seq<Piece> {
    seq![
        Piece::Text(head),
        Piece::Part(lhs),
        Piece::Text(", rhs: "@),
        Piece::Part(rhs),
        Piece::Text(label),
        Piece::Part(flag),
        Piece::Text(", width: "@),
        Piece::Number(width),
        Piece::Text(" }"@),
    ]
}

/// The pieces of the key of an expression.
spec fn pieces(expr: ExprV) -> Seq<Piece> {
    match expr {
        ExprV::Const { value, width } => seq![
            Piece::Text("Const { value: "@),
            Piece::Number(value as nat),
            Piece::Text(", width: "@),
            Piece::Number(width as nat),
            Piece::Text(" }"@),
        ],
        ExprV::Operand(OperandV::RegisterField(RegisterV::Fixed { register, identifier_width })) => {
            seq![
                Piece::Text("Operand("@ + "RegisterField("@ + "Fixed { register: Register("@),
                Piece::Number(register as nat),
                Piece::Text("), identifier_width: "@),
                Piece::Number(identifier_width as nat),
                Piece::Text(" }"@ + ")"@ + ")"@),
            ]
        },
        ExprV::Operand(OperandV::RegisterField(RegisterV::FromField(name))) => seq![
            Piece::Text("Operand("@ + "RegisterField("@ + "FromField("@),
            Piece::Name(name),
            Piece::Text(")"@ + ")"@ + ")"@),
        ],
        ExprV::Operand(OperandV::ImmediateField(name)) => seq![
            Piece::Text("Operand("@ + "ImmediateField("@),
            Piece::Name(name),
            Piece::Text(")"@ + ")"@),
        ],
        ExprV::DerivedValue(name) => seq![
            Piece::Text("DerivedValue(ValueName("@),
            Piece::Name(name),
            Piece::Text("))"@),
        ],
        ExprV::ReadRegister { register, width } => sized_part(
            "ReadRegister { register: "@,
            *register,
            ", width: "@,
            width as nat,
        ),
        ExprV::ReadMemory { address, width } => sized_part(
            "ReadMemory { address: "@,
            *address,
            ", width: "@,
            width as nat,
        ),
        ExprV::Add(lhs, rhs) => two_parts("Add("@, *lhs, *rhs),
        ExprV::Sub(lhs, rhs) => two_parts("Sub("@, *lhs, *rhs),
        ExprV::Mul(lhs, rhs) => two_parts("Mul("@, *lhs, *rhs),
        ExprV::And(lhs, rhs) => two_parts("And("@, *lhs, *rhs),
        ExprV::Or(lhs, rhs) => two_parts("Or("@, *lhs, *rhs),
        ExprV::Xor(lhs, rhs) => two_parts("Xor("@, *lhs, *rhs),
        ExprV::Not(value) => one_part("Not("@, *value),
        ExprV::ShiftLeft(value, amount) => two_parts("ShiftLeft("@, *value, *amount),
        ExprV::LogicalShiftRight(value, amount) => two_parts(
            "LogicalShiftRight("@,
            *value,
            *amount,
        ),
        ExprV::ArithmeticShiftRight(value, amount) => two_parts(
            "ArithmeticShiftRight("@,
            *value,
            *amount,
        ),
        ExprV::RotateRight(value, amount) => two_parts("RotateRight("@, *value, *amount),
        ExprV::Equal(lhs, rhs) => two_parts("Equal("@, *lhs, *rhs),
        ExprV::UnsignedLessThan(lhs, rhs) => two_parts("UnsignedLessThan("@, *lhs, *rhs),
        ExprV::SignedLessThan(lhs, rhs) => two_parts("SignedLessThan("@, *lhs, *rhs),
        ExprV::Extract { value, high, low } => seq![
            Piece::Text("Extract { value: "@),
            Piece::Part(*value),
            Piece::Text(", high: "@),
            Piece::Number(high as nat),
            Piece::Text(", low: "@),
            Piece::Number(low as nat),
            Piece::Text(" }"@),
        ],
        ExprV::Concat(values) => seq![
            Piece::Text("Concat(["@),
            Piece::Parts(values),
            Piece::Text("])"@),
        ],
        ExprV::ZeroExtend { value, to_width } => sized_part(
            "ZeroExtend { value: "@,
            *value,
            ", to_width: "@,
            to_width as nat,
        ),
        ExprV::SignExtend { value, to_width } => sized_part(
            "SignExtend { value: "@,
            *value,
            ", to_width: "@,
            to_width as nat,
        ),
        ExprV::CountOnes(value) => one_part("CountOnes("@, *value),
        ExprV::AddCarryOut { lhs, rhs, carry_in, width } => flag_parts(
            "AddCarryOut { lhs: "@,
            *lhs,
            *rhs,
            ", carry_in: "@,
            *carry_in,
            width as nat,
        ),
        ExprV::AddOverflow { lhs, rhs, carry_in, width } => flag_parts(
            "AddOverflow { lhs: "@,
            *lhs,
            *rhs,
            ", carry_in: "@,
            *carry_in,
            width as nat,
        ),
        ExprV::SubCarryOut { lhs, rhs, borrow_in, width } => flag_parts(
            "SubCarryOut { lhs: "@,
            *lhs,
            *rhs,
            ", borrow_in: "@,
            *borrow_in,
            width as nat,
        ),
        ExprV::SubOverflow { lhs, rhs, borrow_in, width } => flag_parts(
            "SubOverflow { lhs: "@,
            *lhs,
            *rhs,
            ", borrow_in: "@,
            *borrow_in,
            width as nat,
        ),
        ExprV::Select { condition, when_true, when_false } => seq![
            Piece::Text("Select { condition: "@),
            Piece::Part(*condition),
            Piece::Text(", when_true: "@),
            Piece::Part(*when_true),
            Piece::Text(", when_false: "@),
            Piece::Part(*when_false),
            Piece::Text(" }"@),
        ],
    }
}

/// Few pieces, one after the other.
proof fn lemma_three(pieces: Seq<Piece>)
    requires
        pieces.len() == 3,
    ensures
        render(pieces, 0) == rendered(pieces[0]) + rendered(pieces[1]) + rendered(pieces[2]),
{
    assert(render(pieces, 0) == rendered(pieces[0]) + render(pieces, 1));
    assert(render(pieces, 1) == rendered(pieces[1]) + render(pieces, 2));
    assert(render(pieces, 2) == rendered(pieces[2]) + render(pieces, 3));
    assert(render(pieces, 3) == Seq::<char>::empty());
    assert(render(pieces, 0) =~= rendered(pieces[0]) + rendered(pieces[1]) + rendered(pieces[2]));
}

proof fn lemma_five(pieces: Seq<Piece>)
    requires
        pieces.len() == 5,
    ensures
        render(pieces, 0) == rendered(pieces[0]) + rendered(pieces[1]) + rendered(pieces[2])
            + rendered(pieces[3]) + rendered(pieces[4]),
{
    assert(render(pieces, 0) == rendered(pieces[0]) + render(pieces, 1));
    assert(render(pieces, 1) == rendered(pieces[1]) + render(pieces, 2));
    assert(render(pieces, 2) == rendered(pieces[2]) + render(pieces, 3));
    assert(render(pieces, 3) == rendered(pieces[3]) + render(pieces, 4));
    assert(render(pieces, 4) == rendered(pieces[4]) + render(pieces, 5));
    assert(render(pieces, 5) == Seq::<char>::empty());
    assert(render(pieces, 0) =~= rendered(pieces[0]) + rendered(pieces[1]) + rendered(pieces[2])
        + rendered(pieces[3]) + rendered(pieces[4]));
}

proof fn lemma_seven(pieces: Seq<Piece>)
    requires
        pieces.len() == 7,
    ensures
        render(pieces, 0) == rendered(pieces[0]) + rendered(pieces[1]) + rendered(pieces[2])
            + rendered(pieces[3]) + rendered(pieces[4]) + rendered(pieces[5])
            + rendered(pieces[6]),
{
    assert(render(pieces, 0) == rendered(pieces[0]) + render(pieces, 1));
    assert(render(pieces, 1) == rendered(pieces[1]) + render(pieces, 2));
    assert(render(pieces, 2) == rendered(pieces[2]) + render(pieces, 3));
    assert(render(pieces, 3) == rendered(pieces[3]) + render(pieces, 4));
    assert(render(pieces, 4) == rendered(pieces[4]) + render(pieces, 5));
    assert(render(pieces, 5) == rendered(pieces[5]) + render(pieces, 6));
    assert(render(pieces, 6) == rendered(pieces[6]) + render(pieces, 7));
    assert(render(pieces, 7) == Seq::<char>::empty());
    assert(render(pieces, 0) =~= rendered(pieces[0]) + rendered(pieces[1]) + rendered(pieces[2])
        + rendered(pieces[3]) + rendered(pieces[4]) + rendered(pieces[5]) + rendered(pieces[6]));
}

proof fn lemma_nine(pieces: Seq<Piece>)
    requires
        pieces.len() == 9,
    ensures
        render(pieces, 0) == rendered(pieces[0]) + rendered(pieces[1]) + rendered(pieces[2])
            + rendered(pieces[3]) + rendered(pieces[4]) + rendered(pieces[5])
            + rendered(pieces[6]) + rendered(pieces[7]) + rendered(pieces[8]),
{
    assert(render(pieces, 0) == rendered(pieces[0]) + render(pieces, 1));
    assert(render(pieces, 1) == rendered(pieces[1]) + render(pieces, 2));
    assert(render(pieces, 2) == rendered(pieces[2]) + render(pieces, 3));
    assert(render(pieces, 3) == rendered(pieces[3]) + render(pieces, 4));
    assert(render(pieces, 4) == rendered(pieces[4]) + render(pieces, 5));
    assert(render(pieces, 5) == rendered(pieces[5]) + render(pieces, 6));
    assert(render(pieces, 6) == rendered(pieces[6]) + render(pieces, 7));
    assert(render(pieces, 7) == rendered(pieces[7]) + render(pieces, 8));
    assert(render(pieces, 8) == rendered(pieces[8]) + render(pieces, 9));
    assert(render(pieces, 9) == Seq::<char>::empty());
    assert(render(pieces, 0) =~= rendered(pieces[0]) + rendered(pieces[1]) + rendered(pieces[2])
        + rendered(pieces[3]) + rendered(pieces[4]) + rendered(pieces[5]) + rendered(pieces[6])
        + rendered(pieces[7]) + rendered(pieces[8]));
}

/// The key is made of the pieces.
proof fn lemma_pieces(expr: ExprV)
    ensures
        key(expr, true) == render(pieces(expr), 0),
{
    let parts = pieces(expr);
    match expr {
        ExprV::Operand(OperandV::RegisterField(RegisterV::Fixed { .. })) => {
            lemma_five(parts);
            assert(key(expr, true) =~= render(parts, 0));
        },
        ExprV::Operand(_) => {
            lemma_three(parts);
            assert(key(expr, true) =~= render(parts, 0));
        },
        ExprV::Const { .. } => {
            lemma_five(parts);
        },
        ExprV::Not(_) | ExprV::CountOnes(_) | ExprV::Concat(_) | ExprV::DerivedValue(_) => {
            lemma_three(parts);
        },
        ExprV::Extract { .. } | ExprV::Select { .. } => {
            lemma_seven(parts);
        },
        ExprV::AddCarryOut { .. }
        | ExprV::AddOverflow { .. }
        | ExprV::SubCarryOut { .. }
        | ExprV::SubOverflow { .. } => {
            lemma_nine(parts);
        },
        _ => {
            lemma_five(parts);
        },
    }
}

/// A number for each constructor.
spec fn tag(expr: ExprV) -> int {
    match expr {
        ExprV::Const { .. } => 0,
        ExprV::Operand(OperandV::RegisterField(RegisterV::Fixed { .. })) => 1,
        ExprV::Operand(OperandV::RegisterField(RegisterV::FromField(_))) => 29,
        ExprV::Operand(OperandV::ImmediateField(_)) => 30,
        ExprV::DerivedValue(_) => 2,
        ExprV::ReadRegister { .. } => 3,
        ExprV::ReadMemory { .. } => 4,
        ExprV::Add(_, _) => 5,
        ExprV::Sub(_, _) => 6,
        ExprV::Mul(_, _) => 7,
        ExprV::And(_, _) => 8,
        ExprV::Or(_, _) => 9,
        ExprV::Xor(_, _) => 10,
        ExprV::Not(_) => 11,
        ExprV::ShiftLeft(_, _) => 12,
        ExprV::LogicalShiftRight(_, _) => 13,
        ExprV::ArithmeticShiftRight(_, _) => 14,
        ExprV::RotateRight(_, _) => 15,
        ExprV::Equal(_, _) => 16,
        ExprV::UnsignedLessThan(_, _) => 17,
        ExprV::SignedLessThan(_, _) => 18,
        ExprV::Extract { .. } => 19,
        ExprV::Concat(_) => 20,
        ExprV::ZeroExtend { .. } => 21,
        ExprV::SignExtend { .. } => 22,
        ExprV::CountOnes(_) => 23,
        ExprV::AddCarryOut { .. } => 24,
        ExprV::AddOverflow { .. } => 25,
        ExprV::SubCarryOut { .. } => 26,
        ExprV::SubOverflow { .. } => 27,
        ExprV::Select { .. } => 28,
    }
}

/// The constructor that the first characters of a key tell.
spec fn told_tag(text: Seq<char>) -> int {
    let (a, b, c, d, e) = (text[0], text[1], text[2], text[3], text[4]);
    if a == 'A' {
        if b == 'n' {
            8
        } else if b == 'r' {
            14
        } else if d == '(' {
            5
        } else if d == 'C' {
            24
        } else {
            25
        }
    } else if a == 'C' {
        if c == 'u' {
            23
        } else if d == 's' {
            0
        } else {
            20
        }
    } else if a == 'E' {
        if b == 'q' {
            16
        } else {
            19
        }
    } else if a == 'L' {
        13
    } else if a == 'M' {
        7
    } else if a == 'N' {
        11
    } else if a == 'O' {
        if b == 'r' {
            9
        } else if text[8] == 'I' {
            30
        } else if text[23] == 'i' {
            1
        } else {
            29
        }
    } else if a == 'D' {
        2
    } else if a == 'R' {
        if b == 'o' {
            15
        } else if e == 'R' {
            3
        } else {
            4
        }
    } else if a == 'S' {
        if b == 'h' {
            12
        } else if b == 'e' {
            28
        } else if b == 'i' {
            if e == 'e' {
                18
            } else {
                22
            }
        } else if d == '(' {
            6
        } else if d == 'C' {
            26
        } else {
            27
        }
    } else if a == 'U' {
        17
    } else if a == 'X' {
        10
    } else {
        21
    }
}

/// The first piece of a key tells the constructor.
proof fn lemma_told(expr: ExprV, rest: Seq<char>)
    ensures
        pieces(expr).len() > 0,
        pieces(expr)[0] is Text,
        rendered(pieces(expr)[0]).len() >= 3,
        rendered(pieces(expr)[0])[0] != ']',
        told_tag(rendered(pieces(expr)[0]) + rest) == tag(expr),
{
    match expr {
        ExprV::Const { .. } => {
            reveal_strlit("Const { value: ");
        },
        ExprV::Operand(OperandV::RegisterField(RegisterV::Fixed { .. })) => {
            reveal_strlit("Operand(");
            reveal_strlit("RegisterField(");
            reveal_strlit("Fixed { register: Register(");
        },
        ExprV::Operand(OperandV::RegisterField(RegisterV::FromField(_))) => {
            reveal_strlit("Operand(");
            reveal_strlit("RegisterField(");
            reveal_strlit("FromField(");
        },
        ExprV::Operand(OperandV::ImmediateField(_)) => {
            reveal_strlit("Operand(");
            reveal_strlit("ImmediateField(");
        },
        ExprV::DerivedValue(_) => {
            reveal_strlit("DerivedValue(ValueName(");
        },
        ExprV::ReadRegister { .. } => {
            reveal_strlit("ReadRegister { register: ");
        },
        ExprV::ReadMemory { .. } => {
            reveal_strlit("ReadMemory { address: ");
        },
        ExprV::Add(_, _) => {
            reveal_strlit("Add(");
        },
        ExprV::Sub(_, _) => {
            reveal_strlit("Sub(");
        },
        ExprV::Mul(_, _) => {
            reveal_strlit("Mul(");
        },
        ExprV::And(_, _) => {
            reveal_strlit("And(");
        },
        ExprV::Or(_, _) => {
            reveal_strlit("Or(");
        },
        ExprV::Xor(_, _) => {
            reveal_strlit("Xor(");
        },
        ExprV::Not(_) => {
            reveal_strlit("Not(");
        },
        ExprV::ShiftLeft(_, _) => {
            reveal_strlit("ShiftLeft(");
        },
        ExprV::LogicalShiftRight(_, _) => {
            reveal_strlit("LogicalShiftRight(");
        },
        ExprV::ArithmeticShiftRight(_, _) => {
            reveal_strlit("ArithmeticShiftRight(");
        },
        ExprV::RotateRight(_, _) => {
            reveal_strlit("RotateRight(");
        },
        ExprV::Equal(_, _) => {
            reveal_strlit("Equal(");
        },
        ExprV::UnsignedLessThan(_, _) => {
            reveal_strlit("UnsignedLessThan(");
        },
        ExprV::SignedLessThan(_, _) => {
            reveal_strlit("SignedLessThan(");
        },
        ExprV::Extract { .. } => {
            reveal_strlit("Extract { value: ");
        },
        ExprV::Concat(_) => {
            reveal_strlit("Concat([");
        },
        ExprV::ZeroExtend { .. } => {
            reveal_strlit("ZeroExtend { value: ");
        },
        ExprV::SignExtend { .. } => {
            reveal_strlit("SignExtend { value: ");
        },
        ExprV::CountOnes(_) => {
            reveal_strlit("CountOnes(");
        },
        ExprV::AddCarryOut { .. } => {
            reveal_strlit("AddCarryOut { lhs: ");
        },
        ExprV::AddOverflow { .. } => {
            reveal_strlit("AddOverflow { lhs: ");
        },
        ExprV::SubCarryOut { .. } => {
            reveal_strlit("SubCarryOut { lhs: ");
        },
        ExprV::SubOverflow { .. } => {
            reveal_strlit("SubOverflow { lhs: ");
        },
        ExprV::Select { .. } => {
            reveal_strlit("Select { condition: ");
        },
    }
}

/// The character is no decimal digit.
spec fn no_digit(c: char) -> bool {
    forall|d: int| 0 <= d < 10 ==> c != #[trigger] digit(d)
}

/// A piece can be told from what follows it.
spec fn delimited(pieces: Seq<Piece>, i: int) -> bool {
    match pieces[i] {
        Piece::Number(_) => {
            &&& i + 1 < pieces.len()
            &&& pieces[i + 1] matches Piece::Text(text) && text.len() > 0 && no_digit(text[0])
        },
        Piece::Parts(_) => {
            &&& i + 1 < pieces.len()
            &&& pieces[i + 1] matches Piece::Text(text) && text.len() > 0 && text[0] == ']'
        },
        _ => true,
    }
}

/// Two pieces are of one kind, and the same where they are texts.
spec fn alike(a: Piece, b: Piece) -> bool {
    match (a, b) {
        (Piece::Text(s), Piece::Text(t)) => s == t,
        (Piece::Name(_), Piece::Name(_)) => true,
        (Piece::Number(_), Piece::Number(_)) => true,
        (Piece::Part(_), Piece::Part(_)) => true,
        (Piece::Parts(_), Piece::Parts(_)) => true,
        _ => false,
    }
}

/// The parts of a piece are parts of the expression.
spec fn owned(piece: Piece, expr: ExprV) -> bool {
    match piece {
        Piece::Part(part) => children(expr).contains(part),
        Piece::Parts(parts) => children(expr) == parts,
        _ => true,
    }
}

proof fn lemma_delimiters()
    ensures
        ", width: "@.len() > 0 && no_digit(", width: "@[0]),
        " }"@.len() > 0 && no_digit(" }"@[0]),
        "), identifier_width: "@.len() > 0 && no_digit("), identifier_width: "@[0]),
        (" }"@ + ")"@ + ")"@).len() > 0 && no_digit((" }"@ + ")"@ + ")"@)[0]),
        ", low: "@.len() > 0 && no_digit(", low: "@[0]),
        "])"@.len() > 0 && "])"@[0] == ']',
{
    reveal_strlit(", width: ");
    reveal_strlit(" }");
    reveal_strlit("), identifier_width: ");
    reveal_strlit(", low: ");
    reveal_strlit("])");
}

/// The pieces of a key are delimited, and their parts are those of the expression.
proof fn lemma_delimited(expr: ExprV, i: int)
    requires
        0 <= i < pieces(expr).len(),
    ensures
        delimited(pieces(expr), i),
        owned(pieces(expr)[i], expr),
{
    lemma_delimiters();
    let parts = children(expr);
    if parts.len() > 0 {
        assert(parts.contains(parts[0]));
    }
    if parts.len() > 1 {
        assert(parts.contains(parts[1]));
    }
    if parts.len() > 2 {
        assert(parts.contains(parts[2]));
    }
}

/// Keys of one constructor have the same skeleton.
proof fn lemma_alike(a: ExprV, b: ExprV, i: int)
    requires
        tag(a) == tag(b),
    ensures
        pieces(a).len() == pieces(b).len(),
        0 <= i < pieces(a).len() ==> alike(pieces(a)[i], pieces(b)[i]),
{
}

/// Expressions of one constructor with the same pieces are the same.
proof fn lemma_same_pieces(a: ExprV, b: ExprV)
    requires
        tag(a) == tag(b),
        pieces(a) == pieces(b),
    ensures
        a == b,
{
    let (p, q) = (pieces(a), pieces(b));
    assert(p[0] == q[0] && p[1] == q[1] && p[2] == q[2]);
    if p.len() > 3 {
        assert(p[3] == q[3]);
    }
    if p.len() > 5 {
        assert(p[5] == q[5]);
    }
    if p.len() > 7 {
        assert(p[7] == q[7]);
    }
}

/// A common beginning can be taken away.
proof fn lemma_cut(s: Seq<char>, x: Seq<char>, y: Seq<char>)
    requires
        s + x == s + y,
    ensures
        x == y,
{
    assert(x =~= (s + x).skip(s.len() as int));
    assert(y =~= (s + y).skip(s.len() as int));
}

proof fn lemma_digits(n: nat)
    ensures
        decimal(n).len() > 0,
        forall|i: int|
            0 <= i < decimal(n).len() ==> exists|d: int|
                0 <= d < 10 && #[trigger] decimal(n)[i] == #[trigger] digit(d),
    decreases n,
{
    if n < 10 {
        assert(decimal(n)[0] == digit(n as int));
    } else {
        lemma_digits(n / 10);
        let front = decimal(n / 10);
        assert forall|i: int| 0 <= i < decimal(n).len() implies exists|d: int|
            0 <= d < 10 && #[trigger] decimal(n)[i] == #[trigger] digit(d) by {
            if i < front.len() {
                assert(decimal(n)[i] == front[i]);
            } else {
                assert(decimal(n)[i] == digit((n % 10) as int));
            }
        }
    }
}

proof fn lemma_decimal_same(n: nat, m: nat)
    requires
        decimal(n) == decimal(m),
    ensures
        n == m,
    decreases n,
{
    lemma_digits(n / 10);
    lemma_digits(m / 10);
    let (d, e) = ((n % 10) as int, (m % 10) as int);
    assert(decimal(n).last() == digit(d));
    assert(decimal(m).last() == digit(e));
    assert(d == e);
    if n >= 10 && m >= 10 {
        assert(decimal(n).drop_last() =~= decimal(n / 10));
        assert(decimal(m).drop_last() =~= decimal(m / 10));
        lemma_decimal_same(n / 10, m / 10);
    }
}

/// A number ends where the digits end.
proof fn lemma_number(n: nat, m: nat, x: Seq<char>, y: Seq<char>)
    requires
        decimal(n) + x == decimal(m) + y,
        x.len() > 0,
        y.len() > 0,
        no_digit(x[0]),
        no_digit(y[0]),
    ensures
        n == m,
        x == y,
{
    let (s, t) = (decimal(n), decimal(m));
    lemma_digits(n);
    lemma_digits(m);
    if s.len() < t.len() {
        assert((s + x)[s.len() as int] == x[0]);
        assert((t + y)[s.len() as int] == t[s.len() as int]);
    } else if t.len() < s.len() {
        assert((t + y)[t.len() as int] == y[0]);
        assert((s + x)[t.len() as int] == s[t.len() as int]);
    }
    assert(s =~= (s + x).take(s.len() as int));
    assert(t =~= (t + y).take(t.len() as int));
    lemma_decimal_same(n, m);
    lemma_cut(s, x, y);
}

/// A name ends where its length says.
proof fn lemma_spelled(a: Seq<char>, b: Seq<char>, x: Seq<char>, y: Seq<char>)
    requires
        spelled(a) + x == spelled(b) + y,
    ensures
        a == b,
        x == y,
{
    reveal_strlit(":");
    let (p, q) = (":"@ + a + x, ":"@ + b + y);
    assert(spelled(a) + x =~= decimal(a.len()) + p);
    assert(spelled(b) + y =~= decimal(b.len()) + q);
    lemma_number(a.len(), b.len(), p, q);
    assert(a =~= p.subrange(1, a.len() + 1int));
    assert(b =~= q.subrange(1, b.len() + 1int));
    lemma_cut(":"@ + a, x, y);
}

/// The keys of further expressions of a row, each behind a comma.
spec fn more_keys(exprs: Seq<ExprV>, i: int) -> Seq<char>
    decreases exprs.len() - i,
{
    if i < 0 || i >= exprs.len() {
        seq![]
    } else {
        ", "@ + key(exprs[i], true) + more_keys(exprs, i + 1)
    }
}

proof fn lemma_more_push(exprs: Seq<ExprV>, last: ExprV, i: int)
    requires
        0 <= i <= exprs.len(),
    ensures
        more_keys(exprs.push(last), i) == more_keys(exprs, i) + ", "@ + key(last, true),
    decreases exprs.len() - i,
{
    let more = exprs.push(last);
    if i < exprs.len() {
        lemma_more_push(exprs, last, i + 1);
        assert(more[i] == exprs[i]);
        assert(more_keys(more, i) =~= more_keys(exprs, i) + ", "@ + key(last, true));
    } else {
        assert(more[i] == last);
        assert(more_keys(more, i + 1) =~= Seq::empty());
        assert(more_keys(more, i) =~= more_keys(exprs, i) + ", "@ + key(last, true));
    }
}

proof fn lemma_keys_forward(exprs: Seq<ExprV>)
    requires
        exprs.len() > 0,
    ensures
        keys(exprs, true) == key(exprs[0], true) + more_keys(exprs, 1),
    decreases exprs.len(),
{
    if exprs.len() == 1 {
        assert(keys(exprs, true) =~= key(exprs[0], true) + more_keys(exprs, 1));
    } else {
        let front = exprs.drop_last();
        lemma_keys_forward(front);
        lemma_more_push(front, exprs.last(), 1);
        assert(front.push(exprs.last()) =~= exprs);
        assert(keys(exprs, true) =~= key(exprs[0], true) + more_keys(exprs, 1));
    }
}

/// The rest of a row of keys ends where the bracket closes.
proof fn lemma_more_same(
    v: Seq<ExprV>,
    w: Seq<ExprV>,
    i: int,
    x: Seq<char>,
    y: Seq<char>,
    bound: nat,
)
    requires
        1 <= i <= v.len(),
        i <= w.len(),
        forall|k: int| 0 <= k < v.len() ==> weight(#[trigger] v[k]) < bound,
        more_keys(v, i) + x == more_keys(w, i) + y,
        x.len() > 0 && x[0] == ']',
        y.len() > 0 && y[0] == ']',
    ensures
        v.len() == w.len(),
        forall|k: int| i <= k < v.len() ==> v[k] == #[trigger] w[k],
        x == y,
    decreases bound, 0nat, v.len() - i,
{
    reveal_strlit(", ");
    if i < v.len() && i < w.len() {
        let comma = ", "@;
        let (rest, other) = (more_keys(v, i + 1) + x, more_keys(w, i + 1) + y);
        assert(more_keys(v, i) + x =~= comma + (key(v[i], true) + rest));
        assert(more_keys(w, i) + y =~= comma + (key(w[i], true) + other));
        lemma_cut(comma, key(v[i], true) + rest, key(w[i], true) + other);
        lemma_key_same(v[i], w[i], rest, other);
        lemma_more_same(v, w, i + 1, x, y, bound);
    } else if i < v.len() {
        assert((more_keys(v, i) + x)[0] == ',');
        assert((more_keys(w, i) + y)[0] == ']');
    } else if i < w.len() {
        assert((more_keys(w, i) + y)[0] == ',');
        assert((more_keys(v, i) + x)[0] == ']');
    } else {
        assert(more_keys(v, i) + x =~= x);
        assert(more_keys(w, i) + y =~= y);
    }
}

proof fn lemma_key_start(expr: ExprV, rest: Seq<char>)
    ensures
        (key(expr, true) + rest).len() > 0,
        (key(expr, true) + rest)[0] != ']',
{
    lemma_pieces(expr);
    lemma_told(expr, rest);
    assert(render(pieces(expr), 0) == rendered(pieces(expr)[0]) + render(pieces(expr), 1));
}

/// A row of keys ends where the bracket closes.
proof fn lemma_keys_same(
    v: Seq<ExprV>,
    w: Seq<ExprV>,
    x: Seq<char>,
    y: Seq<char>,
    bound: nat,
)
    requires
        forall|k: int| 0 <= k < v.len() ==> weight(#[trigger] v[k]) < bound,
        keys(v, true) + x == keys(w, true) + y,
        x.len() > 0 && x[0] == ']',
        y.len() > 0 && y[0] == ']',
    ensures
        v == w,
        x == y,
    decreases bound, 1nat, 0nat,
{
    if v.len() > 0 {
        lemma_keys_forward(v);
        lemma_key_start(v[0], more_keys(v, 1) + x);
        assert(keys(v, true) + x =~= key(v[0], true) + (more_keys(v, 1) + x));
    } else {
        assert(keys(v, true) + x =~= x);
    }
    if w.len() > 0 {
        lemma_keys_forward(w);
        lemma_key_start(w[0], more_keys(w, 1) + y);
        assert(keys(w, true) + y =~= key(w[0], true) + (more_keys(w, 1) + y));
    } else {
        assert(keys(w, true) + y =~= y);
    }
    if v.len() > 0 && w.len() > 0 {
        lemma_key_same(v[0], w[0], more_keys(v, 1) + x, more_keys(w, 1) + y);
        lemma_more_same(v, w, 1, x, y, bound);
    }
    assert(v =~= w);
}

/// Pieces of one skeleton that make the same text are the same.
proof fn lemma_render_same(a: ExprV, b: ExprV, i: int, x: Seq<char>, y: Seq<char>)
    requires
        tag(a) == tag(b),
        0 <= i <= pieces(a).len(),
        render(pieces(a), i) + x == render(pieces(b), i) + y,
    ensures
        pieces(a).len() == pieces(b).len(),
        forall|k: int| i <= k < pieces(a).len() ==> pieces(a)[k] == #[trigger] pieces(b)[k],
        x == y,
    decreases weight(a), 2nat, pieces(a).len() - i,
{
    let (p, q) = (pieces(a), pieces(b));
    lemma_alike(a, b, i);
    if i < p.len() {
        let (rest, other) = (render(p, i + 1) + x, render(q, i + 1) + y);
        assert(render(p, i) + x =~= rendered(p[i]) + rest);
        assert(render(q, i) + y =~= rendered(q[i]) + other);
        lemma_delimited(a, i);
        lemma_delimited(b, i);
        lemma_weight_children(a);
        if i + 1 < p.len() {
            lemma_alike(a, b, i + 1);
            assert(render(p, i + 1) == rendered(p[i + 1]) + render(p, i + 2));
            assert(render(q, i + 1) == rendered(q[i + 1]) + render(q, i + 2));
        }
        assert(p[i] == q[i] && rest == other) by {
            match (p[i], q[i]) {
                (Piece::Text(s), Piece::Text(t)) => {
                    lemma_cut(s, rest, other);
                },
                (Piece::Name(n), Piece::Name(m)) => {
                    lemma_spelled(n, m, rest, other);
                },
                (Piece::Number(n), Piece::Number(m)) => {
                    lemma_number(n, m, rest, other);
                },
                (Piece::Part(e), Piece::Part(f)) => {
                    let k = choose|k: int| 0 <= k < children(a).len() && children(a)[k] == e;
                    assert(weight(children(a)[k]) < weight(a));
                    lemma_key_same(e, f, rest, other);
                },
                (Piece::Parts(v), Piece::Parts(w)) => {
                    assert forall|k: int| 0 <= k < v.len() implies weight(#[trigger] v[k])
                        < weight(a) by {
                        assert(children(a)[k] == v[k]);
                    }
                    lemma_keys_same(v, w, rest, other, weight(a));
                },
                _ => {},
            }
        }
        lemma_render_same(a, b, i + 1, x, y);
    } else {
        assert(render(p, i) + x =~= x);
        assert(render(q, i) + y =~= y);
    }
}

/// A key ends where the expression ends, and tells the expression.
proof fn lemma_key_same(a: ExprV, b: ExprV, x: Seq<char>, y: Seq<char>)
    requires
        key(a, true) + x == key(b, true) + y,
    ensures
        a == b,
        x == y,
    decreases weight(a), 3nat, 0nat,
{
    let (p, q) = (pieces(a), pieces(b));
    lemma_pieces(a);
    lemma_pieces(b);
    let (rest, other) = (render(p, 1) + x, render(q, 1) + y);
    lemma_told(a, rest);
    lemma_told(b, other);
    assert(render(p, 0) == rendered(p[0]) + render(p, 1));
    assert(render(q, 0) == rendered(q[0]) + render(q, 1));
    assert(key(a, true) + x =~= rendered(p[0]) + rest);
    assert(key(b, true) + y =~= rendered(q[0]) + other);
    assert(tag(a) == tag(b));
    lemma_render_same(a, b, 0, x, y);
    assert(p =~= q);
    lemma_same_pieces(a, b);
}

/// Different expressions have different keys, where names are written as they are.
pub proof fn lemma_keys_differ(a: ExprV, b: ExprV)
    requires
        key(a, true) == key(b, true),
    ensures
        a == b,
{
    let empty = Seq::<char>::empty();
    assert(key(a, true) + empty == key(b, true) + empty);
    lemma_key_same(a, b, empty, empty);
}

/// The order of expressions is reflexive, total and antisymmetric.
pub proof fn lemma_key_total(a: ExprV, b: ExprV)
    ensures
        key_le(a, b) || key_le(b, a),
        key_le(a, b) && key_le(b, a) ==> a == b,
        a == b ==> key_le(a, b),
{
    lemma_text_total(key(a, false), key(b, false));
    lemma_text_total(key(a, true), key(b, true));
    if key(a, true) == key(b, true) {
        lemma_keys_differ(a, b);
    }
}

/// The order of expressions is transitive.
pub proof fn lemma_key_transitive(a: ExprV, b: ExprV, c: ExprV)
    requires
        key_le(a, b),
        key_le(b, c),
    ensures
        key_le(a, c),
{
    let (x, y, z) = (key(a, false), key(b, false), key(c, false));
    lemma_text_total(x, y);
    lemma_text_total(y, z);
    lemma_text_transitive(x, y, z);
    if x == z {
        lemma_text_total(y, x);
        lemma_text_transitive(key(a, true), key(b, true), key(c, true));
    }
}

} // verus!
