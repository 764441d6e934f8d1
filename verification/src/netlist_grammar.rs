//! The grammar of structural netlists.
//!
//! A netlist is read as a row of events that point at tokens: modules, declared names,
//! assignments, and instances with their parameters and connections.
use vstd::prelude::*;

use crate::netlist_tokens::{token_views, Token, TokenKind, TokenV};

verus! {

/// An expression over tokens.
#[derive(Debug)]
pub enum ExprTree {
    Concat { start: usize },
    PartSelect { start: usize },
    BitSelect { name: usize, index: usize },
    Constant { token: usize },
    Net { token: usize },
    Unary { op: usize, rhs: Box<ExprTree> },
    Binary { lhs: Box<ExprTree>, op: usize, rhs: Box<ExprTree> },
}

/// A part of a netlist, with its tokens.
#[derive(Debug)]
pub enum Event {
    Module { name: usize },
    Port { direction: usize, range: Option<(usize, usize)>, name: usize },
    Net { kind: usize, range: Option<(usize, usize)>, name: usize },
    Assign { lhs: ExprTree, rhs: ExprTree },
    Instance { cell_type: usize, name: usize },
    Parameter { port: usize, value: Option<ExprTree> },
    Connection { port: usize, value: Option<ExprTree> },
    Positional { start: usize },
}

/// What a declaration starts with: the words before its names.
#[derive(Debug, Clone, Copy)]
pub struct Head {
    pub is_port: bool,
    pub word: usize,
    pub range: Option<(usize, usize)>,
}

/// The symbol stands at `i`.
pub open spec fn symbol_at(toks: Seq<TokenV>, i: int, text: Seq<char>) -> bool {
    0 <= i < toks.len() && toks[i].kind == TokenKind::Symbol && toks[i].text == text
}

/// The word stands at `i`.
pub open spec fn word_at(toks: Seq<TokenV>, i: int, text: Seq<char>) -> bool {
    0 <= i < toks.len() && toks[i].kind == TokenKind::Word && toks[i].text == text
}

/// A decimal number stands at `i`.
pub open spec fn number_at(toks: Seq<TokenV>, i: int) -> bool {
    0 <= i < toks.len() && toks[i].kind == TokenKind::Number
}

/// A port direction stands at `i`.
pub open spec fn direction_at(toks: Seq<TokenV>, i: int) -> bool {
    word_at(toks, i, "input"@) || word_at(toks, i, "output"@) || word_at(toks, i, "inout"@)
}

/// A net kind stands at `i`.
pub open spec fn net_kind_at(toks: Seq<TokenV>, i: int) -> bool {
    word_at(toks, i, "wire"@) || word_at(toks, i, "tri"@) || word_at(toks, i, "supply0"@)
        || word_at(toks, i, "supply1"@) || word_at(toks, i, "reg"@)
}

/// A keyword stands at `i`.
pub open spec fn keyword_at(toks: Seq<TokenV>, i: int) -> bool {
    direction_at(toks, i) || net_kind_at(toks, i) || word_at(toks, i, "module"@) || word_at(
        toks,
        i,
        "endmodule"@,
    ) || word_at(toks, i, "assign"@)
}

/// A name stands at `i`.
pub open spec fn name_at(toks: Seq<TokenV>, i: int) -> bool {
    0 <= i < toks.len() && toks[i].kind == TokenKind::Word && !keyword_at(toks, i)
}

/// An operator of one operand stands at `i`.
pub open spec fn unary_at(toks: Seq<TokenV>, i: int) -> bool {
    symbol_at(toks, i, "~"@) || symbol_at(toks, i, "!"@)
}

/// An operator of two operands stands at `i`.
pub open spec fn binary_at(toks: Seq<TokenV>, i: int) -> bool {
    symbol_at(toks, i, "&"@) || symbol_at(toks, i, "|"@) || symbol_at(toks, i, "^"@) || symbol_at(
        toks,
        i,
        "~^"@,
    ) || symbol_at(toks, i, "^~"@) || symbol_at(toks, i, "&&"@) || symbol_at(toks, i, "||"@)
}

/// Behind the brace that closes `depth` open ones, or the end of the tokens where none does.
pub open spec fn close_at(toks: Seq<TokenV>, i: int, depth: nat) -> Result<int, int>
    decreases toks.len() - i,
{
    if i < 0 || i >= toks.len() || depth == 0 {
        Err(i)
    } else if symbol_at(toks, i, "{"@) {
        close_at(toks, i + 1, depth + 1)
    } else if symbol_at(toks, i, "}"@) {
        if depth == 1 {
            Ok(i + 1)
        } else {
            close_at(toks, i + 1, (depth - 1) as nat)
        }
    } else {
        close_at(toks, i + 1, depth)
    }
}

/// The operand at `i` that starts with a name.
pub open spec fn named_term_at(toks: Seq<TokenV>, i: int) -> Result<(ExprTree, int), int> {
    if !symbol_at(toks, i + 1, "["@) {
        Ok((ExprTree::Net { token: i as usize }, i + 1))
    } else if !number_at(toks, i + 2) {
        Err(i + 2)
    } else if symbol_at(toks, i + 3, "]"@) {
        Ok((ExprTree::BitSelect { name: i as usize, index: (i + 2) as usize }, i + 4))
    } else if !symbol_at(toks, i + 3, ":"@) {
        Err(i + 3)
    } else if !number_at(toks, i + 4) {
        Err(i + 4)
    } else if !symbol_at(toks, i + 5, "]"@) {
        Err(i + 5)
    } else {
        Ok((ExprTree::PartSelect { start: i as usize }, i + 6))
    }
}

/// The operand at `i`, and where it ends, or the place that no operand can have.
pub open spec fn term_at(toks: Seq<TokenV>, i: int) -> Result<(ExprTree, int), int>
    decreases toks.len() - i, 0nat,
{
    if i < 0 || i >= toks.len() {
        Err(i)
    } else if unary_at(toks, i) {
        match term_at(toks, i + 1) {
            Ok((rhs, j)) => Ok((ExprTree::Unary { op: i as usize, rhs: Box::new(rhs) }, j)),
            Err(at) => Err(at),
        }
    } else if symbol_at(toks, i, "("@) {
        match expr_at(toks, i + 1) {
            Ok((inner, j)) => if symbol_at(toks, j, ")"@) {
                Ok((inner, j + 1))
            } else {
                Err(j)
            },
            Err(at) => Err(at),
        }
    } else if symbol_at(toks, i, "{"@) {
        match close_at(toks, i + 1, 1) {
            Ok(j) => Ok((ExprTree::Concat { start: i as usize }, j)),
            Err(at) => Err(at),
        }
    } else if toks[i].kind == TokenKind::Number || toks[i].kind == TokenKind::Constant {
        Ok((ExprTree::Constant { token: i as usize }, i + 1))
    } else if name_at(toks, i) {
        named_term_at(toks, i)
    } else {
        Err(i)
    }
}

/// The expression that continues an operand at `j`: operators bind from the left, all alike.
pub open spec fn rest_at(toks: Seq<TokenV>, lhs: ExprTree, j: int) -> Result<(ExprTree, int), int>
    decreases toks.len() - j, 1nat,
{
    if !binary_at(toks, j) {
        Ok((lhs, j))
    } else {
        match term_at(toks, j + 1) {
            Ok((rhs, k)) => if j < k <= toks.len() {
                rest_at(
                    toks,
                    ExprTree::Binary {
                        lhs: Box::new(lhs),
                        op: j as usize,
                        rhs: Box::new(rhs),
                    },
                    k,
                )
            } else {
                Err(k)
            },
            Err(at) => Err(at),
        }
    }
}

/// The expression at `i`, and where it ends.
pub open spec fn expr_at(toks: Seq<TokenV>, i: int) -> Result<(ExprTree, int), int>
    decreases toks.len() - i, 2nat,
{
    match term_at(toks, i) {
        Ok((first, j)) => if i < j <= toks.len() {
            rest_at(toks, first, j)
        } else {
            Err(j)
        },
        Err(at) => Err(at),
    }
}

/// The range at `i` if there is one, and where it ends.
pub open spec fn range_at(toks: Seq<TokenV>, i: int) -> Result<(Option<(usize, usize)>, int), int> {
    if !symbol_at(toks, i, "["@) {
        Ok((None, i))
    } else if !number_at(toks, i + 1) {
        Err(i + 1)
    } else if !symbol_at(toks, i + 2, ":"@) {
        Err(i + 2)
    } else if !number_at(toks, i + 3) {
        Err(i + 3)
    } else if !symbol_at(toks, i + 4, "]"@) {
        Err(i + 4)
    } else {
        Ok((Some(((i + 1) as usize, (i + 3) as usize)), i + 5))
    }
}

/// What the declaration at `i` starts with, and where its names start.
pub open spec fn head_at(toks: Seq<TokenV>, i: int) -> Result<(Head, int), int> {
    let is_port = direction_at(toks, i);
    let kind_end = if is_port && net_kind_at(toks, i + 1) {
        i + 2
    } else {
        i + 1
    };
    match range_at(toks, kind_end) {
        Ok((range, j)) => Ok((Head { is_port, word: i as usize, range }, j)),
        Err(at) => Err(at),
    }
}

/// The declaration of one name.
pub open spec fn declared(head: Head, name: int) -> Event {
    if head.is_port {
        Event::Port { direction: head.word, range: head.range, name: name as usize }
    } else {
        Event::Net { kind: head.word, range: head.range, name: name as usize }
    }
}

/// The declarations of the names from `i` on.
pub open spec fn names_at(toks: Seq<TokenV>, head: Head, i: int) -> Result<(Seq<Event>, int), int>
    decreases toks.len() - i,
{
    if !name_at(toks, i) {
        Err(i)
    } else if !symbol_at(toks, i + 1, ","@) {
        Ok((seq![declared(head, i)], i + 1))
    } else {
        match names_at(toks, head, i + 2) {
            Ok((rest, j)) => Ok((seq![declared(head, i)] + rest, j)),
            Err(at) => Err(at),
        }
    }
}

/// One port of a module header, and where it ends: a declaration, or a name alone.
pub open spec fn port_at(toks: Seq<TokenV>, i: int) -> Result<(Seq<Event>, int), int> {
    if direction_at(toks, i) {
        match head_at(toks, i) {
            Ok((head, j)) => if name_at(toks, j) {
                Ok((seq![declared(head, j)], j + 1))
            } else {
                Err(j)
            },
            Err(at) => Err(at),
        }
    } else if name_at(toks, i) {
        Ok((seq![], i + 1))
    } else {
        Err(i)
    }
}

/// The ports from `i` on, up to the closing bracket.
pub open spec fn ports_at(toks: Seq<TokenV>, i: int) -> Result<(Seq<Event>, int), int>
    decreases toks.len() - i,
{
    match port_at(toks, i) {
        Ok((first, j)) => if symbol_at(toks, j, ")"@) {
            Ok((first, j + 1))
        } else if symbol_at(toks, j, ","@) && i < j + 1 <= toks.len() {
            match ports_at(toks, j + 1) {
                Ok((rest, k)) => Ok((first + rest, k)),
                Err(at) => Err(at),
            }
        } else {
            Err(j)
        },
        Err(at) => Err(at),
    }
}

/// A value given to a port or a parameter.
pub open spec fn given(is_parameter: bool, port: int, value: Option<ExprTree>) -> Event {
    if is_parameter {
        Event::Parameter { port: port as usize, value }
    } else {
        Event::Connection { port: port as usize, value }
    }
}

/// One connection or parameter, and where it ends.
pub open spec fn link_at(toks: Seq<TokenV>, is_parameter: bool, i: int) -> Result<
    (Event, int),
    int,
> {
    if symbol_at(toks, i, "."@) {
        if !name_at(toks, i + 1) {
            Err(i + 1)
        } else if !symbol_at(toks, i + 2, "("@) {
            Err(i + 2)
        } else if symbol_at(toks, i + 3, ")"@) {
            Ok((given(is_parameter, i + 1, None), i + 4))
        } else {
            match expr_at(toks, i + 3) {
                Ok((value, j)) => if symbol_at(toks, j, ")"@) {
                    Ok((given(is_parameter, i + 1, Some(value)), j + 1))
                } else {
                    Err(j)
                },
                Err(at) => Err(at),
            }
        }
    } else if is_parameter {
        Err(i)
    } else {
        match expr_at(toks, i) {
            Ok((_, j)) => Ok((Event::Positional { start: i as usize }, j)),
            Err(at) => Err(at),
        }
    }
}

/// The connections or parameters from `i` on, up to the closing bracket.
pub open spec fn links_at(toks: Seq<TokenV>, is_parameter: bool, i: int) -> Result<
    (Seq<Event>, int),
    int,
>
    decreases toks.len() - i,
{
    match link_at(toks, is_parameter, i) {
        Ok((first, j)) => if symbol_at(toks, j, ")"@) {
            Ok((seq![first], j + 1))
        } else if symbol_at(toks, j, ","@) && i < j + 1 <= toks.len() {
            match links_at(toks, is_parameter, j + 1) {
                Ok((rest, k)) => Ok((seq![first] + rest, k)),
                Err(at) => Err(at),
            }
        } else {
            Err(j)
        },
        Err(at) => Err(at),
    }
}

/// The bracketed connections or parameters at `i`; the brackets may be empty.
pub open spec fn link_list_at(toks: Seq<TokenV>, is_parameter: bool, i: int) -> Result<
    (Seq<Event>, int),
    int,
> {
    if !symbol_at(toks, i, "("@) {
        Err(i)
    } else if symbol_at(toks, i + 1, ")"@) {
        Ok((seq![], i + 2))
    } else {
        links_at(toks, is_parameter, i + 1)
    }
}

/// The parameters of the instance at `i`, and where its name stands.
pub open spec fn parameters_at(toks: Seq<TokenV>, i: int) -> Result<(Seq<Event>, int), int> {
    if !name_at(toks, i) {
        Err(i)
    } else if symbol_at(toks, i + 1, "#"@) {
        link_list_at(toks, true, i + 2)
    } else {
        Ok((seq![], i + 1))
    }
}

/// The instance at `i`, and where it ends.
pub open spec fn instance_at(toks: Seq<TokenV>, i: int) -> Result<(Seq<Event>, int), int> {
    match parameters_at(toks, i) {
        Ok((before, j)) => if !name_at(toks, j) {
            Err(j)
        } else {
            match link_list_at(toks, false, j + 1) {
                Ok((after, k)) => Ok(
                    (
                        seq![Event::Instance { cell_type: i as usize, name: j as usize }] + before
                            + after,
                        k,
                    ),
                ),
                Err(at) => Err(at),
            }
        },
        Err(at) => Err(at),
    }
}

/// The assignment at `i`, and where it ends.
pub open spec fn assign_at(toks: Seq<TokenV>, i: int) -> Result<(Seq<Event>, int), int> {
    match expr_at(toks, i + 1) {
        Ok((lhs, j)) => if !symbol_at(toks, j, "="@) {
            Err(j)
        } else {
            match expr_at(toks, j + 1) {
                Ok((rhs, k)) => Ok((seq![Event::Assign { lhs, rhs }], k)),
                Err(at) => Err(at),
            }
        },
        Err(at) => Err(at),
    }
}

/// The statement at `i`, and where it ends.
pub open spec fn statement_at(toks: Seq<TokenV>, i: int) -> Result<(Seq<Event>, int), int> {
    if word_at(toks, i, "assign"@) {
        assign_at(toks, i)
    } else if direction_at(toks, i) || net_kind_at(toks, i) {
        match head_at(toks, i) {
            Ok((head, j)) => names_at(toks, head, j),
            Err(at) => Err(at),
        }
    } else {
        instance_at(toks, i)
    }
}

/// The statements from `i` on, up to the end of the module.
pub open spec fn statements_at(toks: Seq<TokenV>, i: int) -> Result<(Seq<Event>, int), int>
    decreases toks.len() - i,
{
    if word_at(toks, i, "endmodule"@) {
        Ok((seq![], i + 1))
    } else {
        match statement_at(toks, i) {
            Ok((first, j)) => if symbol_at(toks, j, ";"@) && i < j + 1 <= toks.len() {
                match statements_at(toks, j + 1) {
                    Ok((rest, k)) => Ok((first + rest, k)),
                    Err(at) => Err(at),
                }
            } else {
                Err(j)
            },
            Err(at) => Err(at),
        }
    }
}

/// The module header behind the name, and where it ends.
pub open spec fn header_at(toks: Seq<TokenV>, i: int) -> Result<(Seq<Event>, int), int> {
    if !symbol_at(toks, i, "("@) {
        Ok((seq![], i))
    } else if symbol_at(toks, i + 1, ")"@) {
        Ok((seq![], i + 2))
    } else {
        ports_at(toks, i + 1)
    }
}

/// The module at `i`, and where it ends.
pub open spec fn module_at(toks: Seq<TokenV>, i: int) -> Result<(Seq<Event>, int), int> {
    if !word_at(toks, i, "module"@) {
        Err(i)
    } else if !name_at(toks, i + 1) {
        Err(i + 1)
    } else {
        match header_at(toks, i + 2) {
            Ok((ports, j)) => if !symbol_at(toks, j, ";"@) {
                Err(j)
            } else {
                match statements_at(toks, j + 1) {
                    Ok((statements, k)) => Ok(
                        (
                            seq![Event::Module { name: (i + 1) as usize }] + ports + statements,
                            k,
                        ),
                    ),
                    Err(at) => Err(at),
                }
            },
            Err(at) => Err(at),
        }
    }
}

/// The modules from `i` on, up to the end of the text, or the place of the first token that
/// cannot stand where it stands.
pub open spec fn file_at(toks: Seq<TokenV>, i: int) -> Result<Seq<Event>, int>
    decreases toks.len() - i,
{
    if i == toks.len() {
        Ok(seq![])
    } else {
        match module_at(toks, i) {
            Ok((first, j)) => if i < j <= toks.len() {
                match file_at(toks, j) {
                    Ok(rest) => Ok(first + rest),
                    Err(at) => Err(at),
                }
            } else {
                Err(j)
            },
            Err(at) => Err(at),
        }
    }
}

fn is_symbol(toks: &Vec<Token>, i: usize, text: &str) -> (r: bool)
    ensures
        r == symbol_at(token_views(toks@), i as int, text@),
{
    i < toks.len() && toks[i].kind == TokenKind::Symbol && toks[i].text == text.to_owned()
}

fn is_word(toks: &Vec<Token>, i: usize, text: &str) -> (r: bool)
    ensures
        r == word_at(token_views(toks@), i as int, text@),
{
    i < toks.len() && toks[i].kind == TokenKind::Word && toks[i].text == text.to_owned()
}

fn is_number(toks: &Vec<Token>, i: usize) -> (r: bool)
    ensures
        r == number_at(token_views(toks@), i as int),
{
    i < toks.len() && toks[i].kind == TokenKind::Number
}

fn is_direction(toks: &Vec<Token>, i: usize) -> (r: bool)
    ensures
        r == direction_at(token_views(toks@), i as int),
{
    is_word(toks, i, "input") || is_word(toks, i, "output") || is_word(toks, i, "inout")
}

fn is_net_kind(toks: &Vec<Token>, i: usize) -> (r: bool)
    ensures
        r == net_kind_at(token_views(toks@), i as int),
{
    is_word(toks, i, "wire") || is_word(toks, i, "tri") || is_word(toks, i, "supply0") || is_word(
        toks,
        i,
        "supply1",
    ) || is_word(toks, i, "reg")
}

fn is_name(toks: &Vec<Token>, i: usize) -> (r: bool)
    ensures
        r == name_at(token_views(toks@), i as int),
{
    i < toks.len() && toks[i].kind == TokenKind::Word && !is_direction(toks, i) && !is_net_kind(
        toks,
        i,
    ) && !is_word(toks, i, "module") && !is_word(toks, i, "endmodule") && !is_word(
        toks,
        i,
        "assign",
    )
}

fn is_unary(toks: &Vec<Token>, i: usize) -> (r: bool)
    ensures
        r == unary_at(token_views(toks@), i as int),
{
    is_symbol(toks, i, "~") || is_symbol(toks, i, "!")
}

fn is_binary(toks: &Vec<Token>, i: usize) -> (r: bool)
    ensures
        r == binary_at(token_views(toks@), i as int),
{
    is_symbol(toks, i, "&") || is_symbol(toks, i, "|") || is_symbol(toks, i, "^") || is_symbol(
        toks,
        i,
        "~^",
    ) || is_symbol(toks, i, "^~") || is_symbol(toks, i, "&&") || is_symbol(toks, i, "||")
}

/// There is room behind the tokens to look ahead.
pub open spec fn room(toks: Seq<Token>) -> bool {
    toks.len() + 8 <= usize::MAX
}

fn find_close(toks: &Vec<Token>, from: usize) -> (r: Result<usize, usize>)
    requires
        from <= toks@.len(),
        room(toks@),
    ensures
        match r {
            Ok(j) => close_at(token_views(toks@), from as int, 1) == Ok::<int, int>(j as int)
                && from < j <= toks@.len(),
            Err(at) => close_at(token_views(toks@), from as int, 1) == Err::<int, int>(at as int),
        },
{
    let ghost views = token_views(toks@);
    let mut depth: usize = 1;
    let mut i: usize = from;
    while i < toks.len()
        invariant
            views == token_views(toks@),
            room(toks@),
            from <= i <= toks@.len(),
            1 <= depth <= i - from + 1,
            close_at(views, from as int, 1) == close_at(views, i as int, depth as nat),
        decreases toks@.len() - i,
    {
        if is_symbol(toks, i, "{") {
            depth += 1;
        } else if is_symbol(toks, i, "}") {
            if depth == 1 {
                return Ok(i + 1);
            }
            depth -= 1;
        }
        i += 1;
    }
    Err(i)
}

fn read_named_term(toks: &Vec<Token>, i: usize) -> (r: Result<(ExprTree, usize), usize>)
    requires
        i < toks@.len(),
        room(toks@),
    ensures
        match r {
            Ok((tree, j)) => named_term_at(token_views(toks@), i as int) == Ok::<
                (ExprTree, int),
                int,
            >((tree, j as int)) && i < j <= toks@.len(),
            Err(at) => named_term_at(token_views(toks@), i as int) == Err::<(ExprTree, int), int>(
                at as int,
            ),
        },
{
    if !is_symbol(toks, i + 1, "[") {
        return Ok((ExprTree::Net { token: i }, i + 1));
    }
    if !is_number(toks, i + 2) {
        return Err(i + 2);
    }
    if is_symbol(toks, i + 3, "]") {
        return Ok((ExprTree::BitSelect { name: i, index: i + 2 }, i + 4));
    }
    if !is_symbol(toks, i + 3, ":") {
        return Err(i + 3);
    }
    if !is_number(toks, i + 4) {
        return Err(i + 4);
    }
    if !is_symbol(toks, i + 5, "]") {
        return Err(i + 5);
    }
    Ok((ExprTree::PartSelect { start: i }, i + 6))
}

fn read_term(toks: &Vec<Token>, i: usize) -> (r: Result<(ExprTree, usize), usize>)
    requires
        i <= toks@.len(),
        room(toks@),
    ensures
        match r {
            Ok((tree, j)) => term_at(token_views(toks@), i as int) == Ok::<(ExprTree, int), int>(
                (tree, j as int),
            ) && i < j <= toks@.len(),
            Err(at) => term_at(token_views(toks@), i as int) == Err::<(ExprTree, int), int>(
                at as int,
            ),
        },
    decreases toks@.len() - i, 0nat,
{
    if i >= toks.len() {
        return Err(i);
    }
    if is_unary(toks, i) {
        return match read_term(toks, i + 1) {
            Ok((rhs, j)) => Ok((ExprTree::Unary { op: i, rhs: Box::new(rhs) }, j)),
            Err(at) => Err(at),
        };
    }
    if is_symbol(toks, i, "(") {
        return match read_expr(toks, i + 1) {
            Ok((inner, j)) => if is_symbol(toks, j, ")") {
                Ok((inner, j + 1))
            } else {
                Err(j)
            },
            Err(at) => Err(at),
        };
    }
    if is_symbol(toks, i, "{") {
        return match find_close(toks, i + 1) {
            Ok(j) => Ok((ExprTree::Concat { start: i }, j)),
            Err(at) => Err(at),
        };
    }
    if toks[i].kind == TokenKind::Number || toks[i].kind == TokenKind::Constant {
        return Ok((ExprTree::Constant { token: i }, i + 1));
    }
    if is_name(toks, i) {
        return read_named_term(toks, i);
    }
    Err(i)
}

fn read_expr(toks: &Vec<Token>, i: usize) -> (r: Result<(ExprTree, usize), usize>)
    requires
        i <= toks@.len(),
        room(toks@),
    ensures
        match r {
            Ok((tree, j)) => expr_at(token_views(toks@), i as int) == Ok::<(ExprTree, int), int>(
                (tree, j as int),
            ) && i < j <= toks@.len(),
            Err(at) => expr_at(token_views(toks@), i as int) == Err::<(ExprTree, int), int>(
                at as int,
            ),
        },
    decreases toks@.len() - i, 2nat,
{
    let ghost views = token_views(toks@);
    match read_term(toks, i) {
        Err(at) => Err(at),
        Ok((first, after)) => {
            let mut lhs = first;
            let mut j: usize = after;
            assert(expr_at(views, i as int) == rest_at(views, lhs, j as int));
            while is_binary(toks, j)
                invariant
                    views == token_views(toks@),
                    room(toks@),
                    i < j <= toks@.len(),
                    expr_at(views, i as int) == rest_at(views, lhs, j as int),
                decreases toks@.len() - j,
            {
                match read_term(toks, j + 1) {
                    Err(at) => {
                        return Err(at);
                    },
                    Ok((rhs, k)) => {
                        lhs = ExprTree::Binary { lhs: Box::new(lhs), op: j, rhs: Box::new(rhs) };
                        j = k;
                    },
                }
            }
            Ok((lhs, j))
        },
    }
}

fn read_range(toks: &Vec<Token>, i: usize) -> (r: Result<(Option<(usize, usize)>, usize), usize>)
    requires
        i <= toks@.len(),
        room(toks@),
    ensures
        match r {
            Ok((range, j)) => range_at(token_views(toks@), i as int) == Ok::<
                (Option<(usize, usize)>, int),
                int,
            >((range, j as int)) && i <= j <= toks@.len(),
            Err(at) => range_at(token_views(toks@), i as int) == Err::<
                (Option<(usize, usize)>, int),
                int,
            >(at as int),
        },
{
    if !is_symbol(toks, i, "[") {
        return Ok((None, i));
    }
    if !is_number(toks, i + 1) {
        return Err(i + 1);
    }
    if !is_symbol(toks, i + 2, ":") {
        return Err(i + 2);
    }
    if !is_number(toks, i + 3) {
        return Err(i + 3);
    }
    if !is_symbol(toks, i + 4, "]") {
        return Err(i + 4);
    }
    Ok((Some((i + 1, i + 3)), i + 5))
}

fn read_head(toks: &Vec<Token>, i: usize) -> (r: Result<(Head, usize), usize>)
    requires
        i < toks@.len(),
        room(toks@),
    ensures
        match r {
            Ok((head, j)) => head_at(token_views(toks@), i as int) == Ok::<(Head, int), int>(
                (head, j as int),
            ) && i < j <= toks@.len(),
            Err(at) => head_at(token_views(toks@), i as int) == Err::<(Head, int), int>(at as int),
        },
{
    let is_port = is_direction(toks, i);
    let kind_end: usize = if is_port && is_net_kind(toks, i + 1) {
        i + 2
    } else {
        i + 1
    };
    match read_range(toks, kind_end) {
        Ok((range, j)) => Ok((Head { is_port, word: i, range }, j)),
        Err(at) => Err(at),
    }
}

fn declare(head: Head, name: usize) -> (r: Event)
    ensures
        r == declared(head, name as int),
{
    if head.is_port {
        Event::Port { direction: head.word, range: head.range, name }
    } else {
        Event::Net { kind: head.word, range: head.range, name }
    }
}

/// The events of a result.
spec fn events_of(result: Result<(Seq<Event>, int), int>) -> Seq<Event> {
    match result {
        Ok((events, _)) => events,
        Err(_) => seq![],
    }
}

/// Where a result ends.
spec fn end_of(result: Result<(Seq<Event>, int), int>) -> int {
    match result {
        Ok((_, end)) => end,
        Err(at) => at,
    }
}

/// Reading has appended the events, or they cannot be read.
spec fn read_from(
    before: Seq<Event>,
    wanted: Result<(Seq<Event>, int), int>,
    after: Seq<Event>,
    end: Result<usize, usize>,
    from: int,
    len: int,
) -> bool {
    match end {
        Ok(j) => wanted is Ok && after == before + events_of(wanted) && j == end_of(wanted) && from
            < j <= len,
        Err(at) => wanted == Err::<(Seq<Event>, int), int>(at as int),
    }
}

/// What is left to read agrees with what is wanted.
spec fn left_to_read(
    wanted: Result<(Seq<Event>, int), int>,
    done: Seq<Event>,
    rest: Result<(Seq<Event>, int), int>,
    before: Seq<Event>,
) -> bool {
    match rest {
        Ok((events, j)) => wanted is Ok && before + events_of(wanted) == done + events && end_of(
            wanted,
        ) == j,
        Err(at) => wanted == Err::<(Seq<Event>, int), int>(at),
    }
}

fn read_names(toks: &Vec<Token>, head: Head, i: usize, out: &mut Vec<Event>) -> (r: Result<
    usize,
    usize,
>)
    requires
        i <= toks@.len(),
        room(toks@),
    ensures
        read_from(
            old(out)@,
            names_at(token_views(toks@), head, i as int),
            final(out)@,
            r,
            i as int,
            toks@.len() as int,
        ),
{
    let ghost views = token_views(toks@);
    let ghost before = out@;
    let ghost wanted = names_at(views, head, i as int);
    let mut at: usize = i;
    loop
        invariant
            views == token_views(toks@),
            room(toks@),
            i <= at <= toks@.len(),
            before == old(out)@,
            wanted == names_at(views, head, i as int),
            left_to_read(wanted, out@, names_at(views, head, at as int), before),
        decreases toks@.len() - at,
    {
        if !is_name(toks, at) {
            return Err(at);
        }
        let ghost done = out@;
        let event = declare(head, at);
        let ghost added = event;
        out.push(event);
        if !is_symbol(toks, at + 1, ",") {
            assert(out@ =~= done + seq![added]);
            return Ok(at + 1);
        }
        proof {
            if let Ok((rest, _)) = names_at(views, head, at + 2) {
                assert(done + (seq![added] + rest) =~= out@ + rest);
            }
        }
        at = at + 2;
    }
}

fn read_port(toks: &Vec<Token>, i: usize, out: &mut Vec<Event>) -> (r: Result<
    usize,
    usize,
>)
    requires
        i <= toks@.len(),
        room(toks@),
    ensures
        read_from(
            old(out)@,
            port_at(token_views(toks@), i as int),
            final(out)@,
            r,
            i as int,
            toks@.len() as int,
        ),
{
    let ghost before = out@;
    if is_direction(toks, i) {
        match read_head(toks, i) {
            Ok((head, j)) => if is_name(toks, j) {
                let event = declare(head, j);
                out.push(event);
                assert(out@ =~= before + seq![declared(head, j as int)]);
                Ok(j + 1)
            } else {
                Err(j)
            },
            Err(at) => Err(at),
        }
    } else if is_name(toks, i) {
        assert(out@ =~= before + seq![]);
        Ok(i + 1)
    } else {
        Err(i)
    }
}

fn read_ports(toks: &Vec<Token>, i: usize, out: &mut Vec<Event>) -> (r: Result<
    usize,
    usize,
>)
    requires
        i <= toks@.len(),
        room(toks@),
    ensures
        read_from(
            old(out)@,
            ports_at(token_views(toks@), i as int),
            final(out)@,
            r,
            i as int,
            toks@.len() as int,
        ),
{
    let ghost views = token_views(toks@);
    let ghost before = out@;
    let ghost wanted = ports_at(views, i as int);
    let mut at: usize = i;
    loop
        invariant
            views == token_views(toks@),
            room(toks@),
            i <= at <= toks@.len(),
            before == old(out)@,
            wanted == ports_at(views, i as int),
            left_to_read(wanted, out@, ports_at(views, at as int), before),
        decreases toks@.len() - at,
    {
        let ghost done = out@;
        match read_port(toks, at, out) {
            Err(place) => {
                return Err(place);
            },
            Ok(j) => {
                let ghost first = events_of(port_at(views, at as int));
                if is_symbol(toks, j, ")") {
                    return Ok(j + 1);
                }
                if !is_symbol(toks, j, ",") {
                    return Err(j);
                }
                proof {
                    if let Ok((rest, _)) = ports_at(views, j + 1) {
                        assert(done + (first + rest) =~= out@ + rest);
                    }
                }
                at = j + 1;
            },
        }
    }
}

fn give(is_parameter: bool, port: usize, value: Option<ExprTree>) -> (r: Event)
    ensures
        r == given(is_parameter, port as int, value),
{
    if is_parameter {
        Event::Parameter { port, value }
    } else {
        Event::Connection { port, value }
    }
}

fn read_link(toks: &Vec<Token>, is_parameter: bool, i: usize) -> (r: Result<(Event, usize), usize>)
    requires
        i <= toks@.len(),
        room(toks@),
    ensures
        match r {
            Ok((event, j)) => link_at(token_views(toks@), is_parameter, i as int) == Ok::<
                (Event, int),
                int,
            >((event, j as int)) && i < j <= toks@.len(),
            Err(at) => link_at(token_views(toks@), is_parameter, i as int) == Err::<
                (Event, int),
                int,
            >(at as int),
        },
{
    if is_symbol(toks, i, ".") {
        if !is_name(toks, i + 1) {
            return Err(i + 1);
        }
        if !is_symbol(toks, i + 2, "(") {
            return Err(i + 2);
        }
        if is_symbol(toks, i + 3, ")") {
            return Ok((give(is_parameter, i + 1, None), i + 4));
        }
        match read_expr(toks, i + 3) {
            Ok((value, j)) => if is_symbol(toks, j, ")") {
                Ok((give(is_parameter, i + 1, Some(value)), j + 1))
            } else {
                Err(j)
            },
            Err(at) => Err(at),
        }
    } else if is_parameter {
        Err(i)
    } else {
        match read_expr(toks, i) {
            Ok((_, j)) => Ok((Event::Positional { start: i }, j)),
            Err(at) => Err(at),
        }
    }
}

fn read_links(toks: &Vec<Token>, is_parameter: bool, i: usize, out: &mut Vec<Event>) -> (r: Result<
    usize,
    usize,
>)
    requires
        i <= toks@.len(),
        room(toks@),
    ensures
        read_from(
            old(out)@,
            links_at(token_views(toks@), is_parameter, i as int),
            final(out)@,
            r,
            i as int,
            toks@.len() as int,
        ),
{
    let ghost views = token_views(toks@);
    let ghost before = out@;
    let ghost wanted = links_at(views, is_parameter, i as int);
    let mut at: usize = i;
    loop
        invariant
            views == token_views(toks@),
            room(toks@),
            i <= at <= toks@.len(),
            before == old(out)@,
            wanted == links_at(views, is_parameter, i as int),
            left_to_read(wanted, out@, links_at(views, is_parameter, at as int), before),
        decreases toks@.len() - at,
    {
        let ghost done = out@;
        match read_link(toks, is_parameter, at) {
            Err(place) => {
                return Err(place);
            },
            Ok((event, j)) => {
                let ghost first = event;
                out.push(event);
                if is_symbol(toks, j, ")") {
                    assert(out@ =~= done + seq![first]);
                    return Ok(j + 1);
                }
                if !is_symbol(toks, j, ",") {
                    return Err(j);
                }
                proof {
                    if let Ok((rest, _)) = links_at(views, is_parameter, j + 1) {
                        assert(done + (seq![first] + rest) =~= out@ + rest);
                    }
                }
                at = j + 1;
            },
        }
    }
}

fn read_link_list(toks: &Vec<Token>, is_parameter: bool, i: usize, out: &mut Vec<Event>) -> (r:
    Result<usize, usize>)
    requires
        i <= toks@.len() + 2,
        room(toks@),
    ensures
        read_from(
            old(out)@,
            link_list_at(token_views(toks@), is_parameter, i as int),
            final(out)@,
            r,
            i as int,
            toks@.len() as int,
        ),
{
    if !is_symbol(toks, i, "(") {
        return Err(i);
    }
    if is_symbol(toks, i + 1, ")") {
        assert(out@ =~= out@ + seq![]);
        return Ok(i + 2);
    }
    read_links(toks, is_parameter, i + 1, out)
}

fn read_instance(toks: &Vec<Token>, i: usize, out: &mut Vec<Event>) -> (r: Result<
    usize,
    usize,
>)
    requires
        i <= toks@.len(),
        room(toks@),
    ensures
        read_from(
            old(out)@,
            instance_at(token_views(toks@), i as int),
            final(out)@,
            r,
            i as int,
            toks@.len() as int,
        ),
{
    let ghost views = token_views(toks@);
    let ghost before = out@;
    if !is_name(toks, i) {
        return Err(i);
    }
    let mut parameters: Vec<Event> = Vec::new();
    let mut j: usize = i + 1;
    assert(parameters@ =~= seq![]);
    if is_symbol(toks, i + 1, "#") {
        match read_link_list(toks, true, i + 2, &mut parameters) {
            Ok(end) => {
                j = end;
                let ghost read = events_of(link_list_at(views, true, i + 2));
                assert(seq![] + read =~= read);
            },
            Err(at) => {
                return Err(at);
            },
        }
    }
    let ghost given_parameters = parameters@;
    if !is_name(toks, j) {
        return Err(j);
    }
    out.push(Event::Instance { cell_type: i, name: j });
    let ghost started = out@;
    out.append(&mut parameters);
    assert(out@ =~= started + given_parameters);
    let end = read_link_list(toks, false, j + 1, out);
    proof {
        if let Ok((after, _)) = link_list_at(views, false, j + 1) {
            assert(started + given_parameters + after =~= before + (
            seq![Event::Instance { cell_type: i as usize, name: j as usize }] + given_parameters
                + after));
        }
    }
    end
}

fn read_assign(toks: &Vec<Token>, i: usize, out: &mut Vec<Event>) -> (r: Result<
    usize,
    usize,
>)
    requires
        i < toks@.len(),
        room(toks@),
    ensures
        read_from(
            old(out)@,
            assign_at(token_views(toks@), i as int),
            final(out)@,
            r,
            i as int,
            toks@.len() as int,
        ),
{
    let ghost before = out@;
    match read_expr(toks, i + 1) {
        Err(at) => Err(at),
        Ok((lhs, j)) => {
            if !is_symbol(toks, j, "=") {
                return Err(j);
            }
            match read_expr(toks, j + 1) {
                Err(at) => Err(at),
                Ok((rhs, k)) => {
                    let event = Event::Assign { lhs, rhs };
                    let ghost added = event;
                    out.push(event);
                    assert(out@ =~= before + seq![added]);
                    Ok(k)
                },
            }
        },
    }
}

fn read_statement(toks: &Vec<Token>, i: usize, out: &mut Vec<Event>) -> (r: Result<
    usize,
    usize,
>)
    requires
        i <= toks@.len(),
        room(toks@),
    ensures
        read_from(
            old(out)@,
            statement_at(token_views(toks@), i as int),
            final(out)@,
            r,
            i as int,
            toks@.len() as int,
        ),
{
    if is_word(toks, i, "assign") {
        return read_assign(toks, i, out);
    }
    if is_direction(toks, i) || is_net_kind(toks, i) {
        match read_head(toks, i) {
            Ok((head, j)) => read_names(toks, head, j, out),
            Err(at) => Err(at),
        }
    } else {
        read_instance(toks, i, out)
    }
}

fn read_statements(toks: &Vec<Token>, i: usize, out: &mut Vec<Event>) -> (r: Result<
    usize,
    usize,
>)
    requires
        i <= toks@.len(),
        room(toks@),
    ensures
        read_from(
            old(out)@,
            statements_at(token_views(toks@), i as int),
            final(out)@,
            r,
            i as int,
            toks@.len() as int,
        ),
{
    let ghost views = token_views(toks@);
    let ghost before = out@;
    let ghost wanted = statements_at(views, i as int);
    let mut at: usize = i;
    loop
        invariant
            views == token_views(toks@),
            room(toks@),
            i <= at <= toks@.len(),
            before == old(out)@,
            wanted == statements_at(views, i as int),
            left_to_read(wanted, out@, statements_at(views, at as int), before),
        decreases toks@.len() - at,
    {
        let ghost done = out@;
        if is_word(toks, at, "endmodule") {
            assert(done + seq![] =~= done);
            return Ok(at + 1);
        }
        match read_statement(toks, at, out) {
            Err(place) => {
                return Err(place);
            },
            Ok(j) => {
                let ghost first = events_of(statement_at(views, at as int));
                if !is_symbol(toks, j, ";") {
                    return Err(j);
                }
                proof {
                    if let Ok((rest, _)) = statements_at(views, j + 1) {
                        assert(done + (first + rest) =~= out@ + rest);
                    }
                }
                at = j + 1;
            },
        }
    }
}

fn read_header(toks: &Vec<Token>, i: usize, out: &mut Vec<Event>) -> (r: Result<
    usize,
    usize,
>)
    requires
        i <= toks@.len(),
        room(toks@),
    ensures
        match r {
            Ok(j) => header_at(token_views(toks@), i as int) matches Ok((events, k))
                && final(out)@ == old(out)@ + events && j == k && i <= j <= toks@.len(),
            Err(at) => header_at(token_views(toks@), i as int) == Err::<(Seq<Event>, int), int>(
                at as int,
            ),
        },
{
    assert(out@ =~= out@ + seq![]);
    if !is_symbol(toks, i, "(") {
        return Ok(i);
    }
    if is_symbol(toks, i + 1, ")") {
        return Ok(i + 2);
    }
    read_ports(toks, i + 1, out)
}

fn read_module(toks: &Vec<Token>, i: usize, out: &mut Vec<Event>) -> (r: Result<
    usize,
    usize,
>)
    requires
        i <= toks@.len(),
        room(toks@),
    ensures
        read_from(
            old(out)@,
            module_at(token_views(toks@), i as int),
            final(out)@,
            r,
            i as int,
            toks@.len() as int,
        ),
{
    let ghost views = token_views(toks@);
    let ghost before = out@;
    if !is_word(toks, i, "module") {
        return Err(i);
    }
    if !is_name(toks, i + 1) {
        return Err(i + 1);
    }
    out.push(Event::Module { name: i + 1 });
    let ghost started = out@;
    match read_header(toks, i + 2, out) {
        Err(at) => Err(at),
        Ok(j) => {
            if !is_symbol(toks, j, ";") {
                return Err(j);
            }
            let end = read_statements(toks, j + 1, out);
            proof {
                if let Ok((statements, _)) = statements_at(views, j + 1) {
                    let ports = events_of(header_at(views, i + 2));
                    assert(started + ports + statements =~= before + (
                    seq![Event::Module { name: (i + 1) as usize }] + ports + statements));
                }
            }
            end
        },
    }
}

/// Reads the events of a whole text, or finds the first token that cannot stand where it stands.
pub fn read_file(toks: &Vec<Token>) -> (r: Result<Vec<Event>, usize>)
    requires
        room(toks@),
    ensures
        match r {
            Ok(events) => file_at(token_views(toks@), 0) == Ok::<Seq<Event>, int>(events@),
            Err(at) => file_at(token_views(toks@), 0) == Err::<Seq<Event>, int>(at as int),
        },
{
    let ghost views = token_views(toks@);
    let ghost wanted = file_at(views, 0);
    let mut out: Vec<Event> = Vec::new();
    let mut at: usize = 0;
    proof {
        if let Ok(events) = wanted {
            assert(out@ + events =~= events);
        }
    }
    while at < toks.len()
        invariant
            views == token_views(toks@),
            room(toks@),
            at <= toks@.len(),
            wanted == file_at(views, 0),
            match file_at(views, at as int) {
                Ok(rest) => wanted == Ok::<Seq<Event>, int>(out@ + rest),
                Err(place) => wanted == Err::<Seq<Event>, int>(place),
            },
        decreases toks@.len() - at,
    {
        let ghost done = out@;
        match read_module(toks, at, &mut out) {
            Err(place) => {
                return Err(place);
            },
            Ok(j) => {
                proof {
                    let first = events_of(module_at(views, at as int));
                    if let Ok(rest) = file_at(views, j as int) {
                        assert(done + (first + rest) =~= out@ + rest);
                    }
                }
                at = j;
            },
        }
    }
    assert(out@ + seq![] =~= out@);
    Ok(out)
}

} // verus!
