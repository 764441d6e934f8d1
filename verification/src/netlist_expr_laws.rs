//! Expressions of a netlist are read back as they were written.
use vstd::prelude::*;

use crate::netlist_grammar::{
    binary_at, expr_at, name_at, named_term_at, rest_at, symbol_at, term_at, unary_at, ExprTree,
};
use crate::netlist_tokens::{TokenKind, TokenV};
use crate::parser::{expr_of, text_at, NetExprV, NetlistErrorV};

verus! {

/// A token as it is written.
pub type Mark = (TokenKind, Seq<char>);

/// A symbol as it is written.
pub open spec fn sign(text: Seq<char>) -> Mark {
    (TokenKind::Symbol, text)
}

/// A word as it is written.
pub open spec fn term(text: Seq<char>) -> Mark {
    (TokenKind::Word, text)
}

/// The marks stand in the row of tokens from `i` on.
pub open spec fn stands(toks: Seq<TokenV>, i: int, marks: Seq<Mark>) -> bool {
    &&& 0 <= i
    &&& i + marks.len() <= toks.len()
    &&& forall|k: int|
        0 <= k < marks.len() ==> toks[i + k].kind == (#[trigger] marks[k]).0 && toks[i + k].text
            == marks[k].1
}

/// A word that is no keyword.
pub open spec fn free_name(text: Seq<char>) -> bool {
    text != "input"@ && text != "output"@ && text != "inout"@ && text != "wire"@ && text != "tri"@
        && text != "supply0"@ && text != "supply1"@ && text != "reg"@ && text != "module"@ && text
        != "endmodule"@ && text != "assign"@
}

/// An operator of one operand.
pub open spec fn unary_sign(text: Seq<char>) -> bool {
    text == "~"@ || text == "!"@
}

/// An operator of two operands.
pub open spec fn binary_sign(text: Seq<char>) -> bool {
    text == "&"@ || text == "|"@ || text == "^"@ || text == "~^"@ || text == "^~"@ || text == "&&"@
        || text == "||"@
}

/// An expression as it is written.
pub enum Source {
    Name(Seq<char>),
    Element { name: Seq<char>, index: Seq<char> },
    Literal { kind: TokenKind, text: Seq<char> },
    One { op: Seq<char>, rhs: Box<Source> },
    Two { lhs: Box<Source>, op: Seq<char>, rhs: Box<Source> },
}

/// The expression has names that are no keywords, literals, and operators of a netlist.
pub open spec fn sound(source: Source) -> bool
    decreases source,
{
    match source {
        Source::Name(name) => free_name(name),
        Source::Element { name, .. } => free_name(name),
        Source::Literal { kind, .. } => kind == TokenKind::Number || kind == TokenKind::Constant,
        Source::One { op, rhs } => unary_sign(op) && sound(*rhs),
        Source::Two { lhs, op, rhs } => sound(*lhs) && binary_sign(op) && sound(*rhs),
    }
}

/// What the expression means.
pub open spec fn meant(source: Source) -> NetExprV
    decreases source,
{
    match source {
        Source::Name(name) => NetExprV::Net(name),
        Source::Element { name, index } => NetExprV::Net(name + "["@ + index + "]"@),
        Source::Literal { text, .. } => NetExprV::Const(text),
        Source::One { op, rhs } => NetExprV::Unary { op, rhs: Box::new(meant(*rhs)) },
        Source::Two { lhs, op, rhs } => NetExprV::Binary {
            lhs: Box::new(meant(*lhs)),
            op,
            rhs: Box::new(meant(*rhs)),
        },
    }
}

/// The expression as an operand: with brackets around an operator of two operands.
pub open spec fn operand_marks(source: Source) -> Seq<Mark>
    decreases source, 0nat,
{
    match source {
        Source::Name(name) => seq![term(name)],
        Source::Element { name, index } => seq![
            term(name),
            sign("["@),
            (TokenKind::Number, index),
            sign("]"@),
        ],
        Source::Literal { kind, text } => seq![(kind, text)],
        Source::One { op, rhs } => seq![sign(op)] + operand_marks(*rhs),
        Source::Two { lhs, op, rhs } => seq![sign("("@)] + (expression_marks(*lhs) + seq![sign(op)]
            + operand_marks(*rhs)) + seq![sign(")"@)],
    }
}

/// The expression on its own: operators in a row need no brackets on the left.
pub open spec fn expression_marks(source: Source) -> Seq<Mark>
    decreases source, 1nat,
{
    match source {
        Source::Two { lhs, op, rhs } => expression_marks(*lhs) + seq![sign(op)] + operand_marks(
            *rhs,
        ),
        _ => operand_marks(source),
    }
}

/// The first part of what stands, and the second one behind it.
pub proof fn lemma_stands_parts(toks: Seq<TokenV>, i: int, a: Seq<Mark>, b: Seq<Mark>)
    requires
        stands(toks, i, a + b),
    ensures
        stands(toks, i, a),
        stands(toks, i + a.len(), b),
{
    let all = a + b;
    assert forall|k: int| 0 <= k < a.len() implies toks[i + k].kind == (#[trigger] a[k]).0
        && toks[i + k].text == a[k].1 by {
        assert(all[k] == a[k]);
    }
    assert forall|k: int| 0 <= k < b.len() implies toks[i + a.len() + k].kind == (#[trigger] b[k]).0
        && toks[i + a.len() + k].text == b[k].1 by {
        assert(all[a.len() + k] == b[k]);
        assert(i + a.len() + k == i + (a.len() + k));
    }
}

/// One mark that stands.
pub proof fn lemma_stands_one(toks: Seq<TokenV>, i: int, mark: Mark)
    requires
        stands(toks, i, seq![mark]),
    ensures
        0 <= i < toks.len(),
        toks[i].kind == mark.0,
        toks[i].text == mark.1,
{
    assert(seq![mark][0] == mark);
    assert(toks[i + 0] == toks[i]);
}

proof fn lemma_texts()
    ensures
        "("@ != "["@,
        ")"@ != "["@,
        "~"@ != "["@,
        "!"@ != "["@,
        forall|op: Seq<char>| binary_sign(op) ==> op != "["@ && op != ")"@,
        forall|op: Seq<char>| unary_sign(op) ==> op != "("@ && op != "{"@,
        "("@ != "~"@,
        "("@ != "!"@,
        "]"@ != "["@,
        !binary_sign(")"@),
{
    reveal_strlit("(");
    reveal_strlit(")");
    reveal_strlit("[");
    reveal_strlit("]");
    reveal_strlit("{");
    reveal_strlit("~");
    reveal_strlit("!");
    reveal_strlit("&");
    reveal_strlit("|");
    reveal_strlit("^");
    reveal_strlit("~^");
    reveal_strlit("^~");
    reveal_strlit("&&");
    reveal_strlit("||");
    assert("("@[0] == '(' && ")"@[0] == ')' && "["@[0] == '[' && "]"@[0] == ']' && "{"@[0] == '{');
    assert("~"@[0] == '~' && "!"@[0] == '!' && "&"@[0] == '&' && "|"@[0] == '|' && "^"@[0] == '^');
    assert("~^"@[0] == '~' && "^~"@[0] == '^' && "&&"@[0] == '&' && "||"@[0] == '|');
}

/// A free name is a name of the grammar.
pub proof fn lemma_free_name(toks: Seq<TokenV>, i: int)
    requires
        0 <= i < toks.len(),
        toks[i].kind == TokenKind::Word,
        free_name(toks[i].text),
    ensures
        name_at(toks, i),
{
}

/// What is read as an operand means what was written.
spec fn operand_read(toks: Seq<TokenV>, i: int, source: Source) -> bool {
    exists|tree: ExprTree| #[trigger]
        expr_of(toks, tree) == Ok::<_, NetlistErrorV>(meant(source)) && term_at(toks, i)
            == Ok::<_, int>((tree, i + operand_marks(source).len()))
}

/// What is read as an expression starts with what was written.
spec fn expression_read(toks: Seq<TokenV>, i: int, source: Source) -> bool {
    exists|tree: ExprTree| #[trigger]
        expr_of(toks, tree) == Ok::<_, NetlistErrorV>(meant(source)) && expr_at(toks, i)
            == rest_at(toks, tree, i + expression_marks(source).len())
}

proof fn lemma_marks_nonempty(source: Source)
    ensures
        operand_marks(source).len() > 0,
        expression_marks(source).len() > 0,
    decreases source,
{
    match source {
        Source::One { rhs, .. } => {
            lemma_marks_nonempty(*rhs);
            assert(operand_marks(source).len() > 0);
        },
        Source::Two { lhs, rhs, .. } => {
            lemma_marks_nonempty(*lhs);
            lemma_marks_nonempty(*rhs);
        },
        _ => {},
    }
    if !(source is Two) {
        assert(expression_marks(source) == operand_marks(source));
    }
}

proof fn lemma_simple_operand(toks: Seq<TokenV>, i: int, source: Source)
    requires
        sound(source),
        toks.len() <= usize::MAX,
        stands(toks, i, operand_marks(source)),
        !symbol_at(toks, i + operand_marks(source).len(), "["@),
        source is Name || source is Element || source is Literal,
    ensures
        operand_read(toks, i, source),
{
    lemma_texts();
    let marks = operand_marks(source);
    assert(toks[i + 0].kind == marks[0].0);
    match source {
        Source::Name(name) => {
            assert(marks[0] == term(name));
            lemma_free_name(toks, i);
            let tree = ExprTree::Net { token: i as usize };
            assert(term_at(toks, i) == named_term_at(toks, i));
            assert(named_term_at(toks, i) == Ok::<_, int>((tree, i + 1)));
            assert(expr_of(toks, tree) == Ok::<_, NetlistErrorV>(meant(source)));
        },
        Source::Element { name, index } => {
            assert(marks[0] == term(name));
            assert(marks[1] == sign("["@));
            assert(marks[2] == (TokenKind::Number, index));
            assert(marks[3] == sign("]"@));
            lemma_free_name(toks, i);
            assert(symbol_at(toks, i + 1, "["@));
            let tree = ExprTree::BitSelect { name: i as usize, index: (i + 2) as usize };
            assert(term_at(toks, i) == named_term_at(toks, i));
            assert(named_term_at(toks, i) == Ok::<_, int>((tree, i + 4)));
            assert(expr_of(toks, tree) == Ok::<_, NetlistErrorV>(meant(source)));
        },
        Source::Literal { kind, text } => {
            assert(marks[0] == (kind, text));
            let tree = ExprTree::Constant { token: i as usize };
            assert(term_at(toks, i) == Ok::<_, int>((tree, i + 1)));
            assert(expr_of(toks, tree) == Ok::<_, NetlistErrorV>(meant(source)));
        },
        _ => {},
    }
}

proof fn lemma_operand(toks: Seq<TokenV>, i: int, source: Source)
    requires
        sound(source),
        toks.len() <= usize::MAX,
        stands(toks, i, operand_marks(source)),
        !symbol_at(toks, i + operand_marks(source).len(), "["@),
    ensures
        operand_read(toks, i, source),
    decreases source, 1nat,
{
    lemma_texts();
    let marks = operand_marks(source);
    match source {
        Source::One { op, rhs } => {
            lemma_stands_parts(toks, i, seq![sign(op)], operand_marks(*rhs));
            lemma_stands_one(toks, i, sign(op));
            lemma_operand(toks, i + 1, *rhs);
            let inner = choose|tree: ExprTree| #[trigger]
                expr_of(toks, tree) == Ok::<_, NetlistErrorV>(meant(*rhs)) && term_at(
                    toks,
                    i + 1,
                ) == Ok::<_, int>((tree, i + 1 + operand_marks(*rhs).len()));
            let tree = ExprTree::Unary { op: i as usize, rhs: Box::new(inner) };
            assert(unary_at(toks, i));
            assert(term_at(toks, i) == Ok::<_, int>((tree, i + marks.len())));
            assert(text_at(toks, i as usize) == op);
            assert(expr_of(toks, tree) == Ok::<_, NetlistErrorV>(meant(source)));
        },
        Source::Two { lhs, op, rhs } => {
            let inside = expression_marks(source);
            assert(marks == seq![sign("("@)] + inside + seq![sign(")"@)]);
            lemma_stands_parts(toks, i, seq![sign("("@)] + inside, seq![sign(")"@)]);
            lemma_stands_parts(toks, i, seq![sign("("@)], inside);
            lemma_stands_one(toks, i, sign("("@));
            let end = i + 1 + inside.len();
            assert(i + (seq![sign("("@)] + inside).len() == end);
            lemma_stands_one(toks, end, sign(")"@));
            lemma_pair(toks, i + 1, source);
            let tree = choose|tree: ExprTree| #[trigger]
                expr_of(toks, tree) == Ok::<_, NetlistErrorV>(meant(source)) && expr_at(
                    toks,
                    i + 1,
                ) == rest_at(toks, tree, i + 1 + inside.len());
            assert(!binary_at(toks, end));
            assert(rest_at(toks, tree, end) == Ok::<_, int>((tree, end)));
            assert(!unary_at(toks, i));
            assert(symbol_at(toks, i, "("@));
            assert(symbol_at(toks, end, ")"@));
            assert(expr_at(toks, i + 1) == Ok::<_, int>((tree, end)));
            assert(term_at(toks, i) == Ok::<_, int>((tree, end + 1)));
        },
        _ => {
            lemma_simple_operand(toks, i, source);
        },
    }
}

proof fn lemma_pair(toks: Seq<TokenV>, i: int, source: Source)
    requires
        sound(source),
        source is Two,
        toks.len() <= usize::MAX,
        stands(toks, i, expression_marks(source)),
        !symbol_at(toks, i + expression_marks(source).len(), "["@),
    ensures
        expression_read(toks, i, source),
    decreases source, 0nat,
{
    lemma_texts();
    if let Source::Two { lhs, op, rhs } = source {
        let left = expression_marks(*lhs);
        let right = operand_marks(*rhs);
        assert(expression_marks(source) == left + seq![sign(op)] + right);
        lemma_stands_parts(toks, i, left + seq![sign(op)], right);
        lemma_stands_parts(toks, i, left, seq![sign(op)]);
        let j = i + left.len();
        assert(i + (left + seq![sign(op)]).len() == j + 1);
        lemma_stands_one(toks, j, sign(op));
        lemma_expression(toks, i, *lhs);
        lemma_operand(toks, j + 1, *rhs);
        lemma_marks_nonempty(*rhs);
        let first = choose|tree: ExprTree| #[trigger]
            expr_of(toks, tree) == Ok::<_, NetlistErrorV>(meant(*lhs)) && expr_at(
                toks,
                i,
            ) == rest_at(toks, tree, i + left.len());
        let second = choose|tree: ExprTree| #[trigger]
            expr_of(toks, tree) == Ok::<_, NetlistErrorV>(meant(*rhs)) && term_at(
                toks,
                j + 1,
            ) == Ok::<_, int>((tree, j + 1 + right.len()));
        let tree = ExprTree::Binary { lhs: Box::new(first), op: j as usize, rhs: Box::new(second) };
        assert(binary_at(toks, j));
        assert(rest_at(toks, first, j) == rest_at(toks, tree, j + 1 + right.len()));
        assert(text_at(toks, j as usize) == op);
        assert(expr_of(toks, tree) == Ok::<_, NetlistErrorV>(meant(source)));
    }
}

proof fn lemma_expression(toks: Seq<TokenV>, i: int, source: Source)
    requires
        sound(source),
        toks.len() <= usize::MAX,
        stands(toks, i, expression_marks(source)),
        !symbol_at(toks, i + expression_marks(source).len(), "["@),
    ensures
        expression_read(toks, i, source),
    decreases source, 2nat,
{
    if source is Two {
        lemma_pair(toks, i, source);
    } else {
        assert(expression_marks(source) == operand_marks(source));
        lemma_operand(toks, i, source);
        lemma_marks_nonempty(source);
        let tree = choose|tree: ExprTree| #[trigger]
            expr_of(toks, tree) == Ok::<_, NetlistErrorV>(meant(source)) && term_at(
                toks,
                i,
            ) == Ok::<_, int>((tree, i + operand_marks(source).len()));
        assert(expr_at(toks, i) == rest_at(toks, tree, i + expression_marks(source).len()));
    }
}

/// The tree means what was written.
pub open spec fn reads_as(toks: Seq<TokenV>, tree: ExprTree, source: Source) -> bool {
    expr_of(toks, tree) == Ok::<_, NetlistErrorV>(meant(source))
}

/// An expression that stands among the tokens is read up to its end, and means what was written:
/// operators bind from the left, all alike, and brackets bind tighter.
pub proof fn lemma_expression_read(toks: Seq<TokenV>, i: int, source: Source) -> (tree: ExprTree)
    requires
        sound(source),
        toks.len() <= usize::MAX,
        stands(toks, i, expression_marks(source)),
        !symbol_at(toks, i + expression_marks(source).len(), "["@),
        !binary_at(toks, i + expression_marks(source).len()),
    ensures
        expr_at(toks, i) == Ok::<_, int>((tree, i + expression_marks(source).len())),
        reads_as(toks, tree, source),
        expression_marks(source).len() > 0,
{
    lemma_expression(toks, i, source);
    lemma_marks_nonempty(source);
    let end = i + expression_marks(source).len();
    let tree = choose|tree: ExprTree| #[trigger]
        expr_of(toks, tree) == Ok::<_, NetlistErrorV>(meant(source)) && expr_at(toks, i)
            == rest_at(toks, tree, end);
    assert(rest_at(toks, tree, end) == Ok::<_, int>((tree, end)));
    tree
}

} // verus!
