//! What a text is refused for, and what the refusal says.
use vstd::prelude::*;

use crate::expr_shape::decimal;
use crate::netlist_grammar::{
    close_at, expr_at, file_at, link_at, name_at, number_at, symbol_at, term_at, unary_at, Event,
    ExprTree,
};
use crate::netlist_text_laws::{feeds_before, lemma_place_counted, lemma_token_places};
use crate::netlist_tokens::{scan, tokens, tokens_from, Scan, TokenKind, TokenV};
use crate::parser::{
    after_event, after_events, chars_before, error_message, events_of_text, expr_of, module_count,
    netlist_of, ModuleV, NetExprV, NetlistErrorV, Progress,
};

verus! {

/// What an error says.
pub proof fn lemma_messages(text: Seq<char>, count: nat, start: nat)
    ensures
        error_message(NetlistErrorV::Parse(text)) == "parse error: "@ + text,
        error_message(NetlistErrorV::WrongModuleCount(count))
            == "expected exactly one module, found "@ + decimal(count),
        error_message(NetlistErrorV::UnsupportedConcat { start: start as int })
            == "unsupported concatenation in expression near byte "@ + decimal(start),
        error_message(NetlistErrorV::UnsupportedPartSelect { start: start as int })
            == "unsupported slice / part-select in expression near byte "@ + decimal(start),
        error_message(NetlistErrorV::UnsupportedPositionalConnection { start: start as int })
            == "positional instance connections are not supported near byte "@ + decimal(start),
        error_message(NetlistErrorV::Internal(text)) == "internal parser error: "@ + text,
{
}

/// The message names the place by its line and its column, both counted from one.
pub open spec fn names_place(
    text: Seq<char>,
    what: Seq<char>,
    place: int,
    message: Seq<char>,
) -> bool {
    exists|line_start: int| #[trigger]
        starts_line(text, line_start, place) && message == what + " at line "@ + decimal(
            feeds_before(text, place).len() + 1,
        ) + ", column "@ + decimal((place - line_start + 1) as nat)
}

/// The line of the place starts there.
pub open spec fn starts_line(text: Seq<char>, line_start: int, place: int) -> bool {
    &&& 0 <= line_start <= place
    &&& line_start > 0 ==> text[line_start - 1] == '\n'
    &&& forall|k: int| line_start <= k < place ==> #[trigger] text[k] != '\n'
}

/// A text that does not fit the grammar is refused with the first place that does not fit: a token
/// that cannot stand where it stands, a character that starts no token, or the end of the text.
pub proof fn lemma_misfit_named(text: Seq<char>, message: Seq<char>)
    requires
        netlist_of(text) == Err::<ModuleV, _>(NetlistErrorV::Parse(message)),
    ensures
        ({
            let (toks, bad) = tokens(text);
            match file_at(toks, 0) {
                Err(at) => if 0 <= at < toks.len() {
                    names_place(text, "unexpected token"@, toks[at].place, message)
                } else if bad is Some {
                    names_place(text, "unexpected character"@, bad->0, message)
                } else {
                    names_place(text, "unexpected end"@, text.len() as int, message)
                },
                Ok(_) => bad is Some && names_place(
                    text,
                    "unexpected character"@,
                    bad->0,
                    message,
                ),
            }
        }),
{
    let (toks, bad) = tokens(text);
    let (what, place) = match file_at(toks, 0) {
        Err(at) => if 0 <= at < toks.len() {
            lemma_token_places(text, 0, at);
            ("unexpected token"@, toks[at].place)
        } else if bad is Some {
            ("unexpected character"@, bad->0)
        } else {
            ("unexpected end"@, text.len() as int)
        },
        Ok(_) => ("unexpected character"@, bad->0),
    };
    lemma_bad_within(text, 0);
    lemma_events_error(text, message);
    assert(0 <= place <= text.len());
    lemma_place_counted(text, place);
    let line_start = place - chars_before(text, place);
    assert(starts_line(text, line_start, place));
    assert(names_place(text, what, place, message));
}

proof fn lemma_events_error(text: Seq<char>, message: Seq<char>)
    requires
        netlist_of(text) == Err::<ModuleV, _>(NetlistErrorV::Parse(message)),
    ensures
        events_of_text(text) == Err::<Seq<Event>, _>(message),
{
    if let Ok(events) = events_of_text(text) {
        if let Err(error) = after_events(tokens(text).0, events, events.len()) {
            lemma_later_errors(tokens(text).0, events, events.len());
        }
    }
}

proof fn lemma_expr_errors(toks: Seq<TokenV>, tree: ExprTree)
    ensures
        !(expr_of(toks, tree) matches Err(NetlistErrorV::Parse(_))),
    decreases tree,
{
    match tree {
        ExprTree::Unary { rhs, .. } => {
            lemma_expr_errors(toks, *rhs);
        },
        ExprTree::Binary { lhs, rhs, .. } => {
            lemma_expr_errors(toks, *lhs);
            lemma_expr_errors(toks, *rhs);
        },
        _ => {},
    }
}

proof fn lemma_later_errors(toks: Seq<TokenV>, events: Seq<Event>, n: nat)
    ensures
        !(after_events(toks, events, n) matches Err(NetlistErrorV::Parse(_))),
    decreases n,
{
    if n > 0 {
        lemma_later_errors(toks, events, (n - 1) as nat);
        match events[n - 1] {
            Event::Assign { lhs, rhs } => {
                lemma_expr_errors(toks, lhs);
                lemma_expr_errors(toks, rhs);
            },
            Event::Parameter { value: Some(tree), .. } => {
                lemma_expr_errors(toks, tree);
            },
            Event::Connection { value: Some(tree), .. } => {
                lemma_expr_errors(toks, tree);
            },
            _ => {},
        }
    }
}

proof fn lemma_bad_within(text: Seq<char>, i: int)
    requires
        0 <= i <= text.len(),
    ensures
        tokens_from(text, i).1 matches Some(place) ==> i <= place
            < text.len(),
    decreases text.len() - i,
{
    if i < text.len() {
        match scan(text, i) {
            Scan::Skip(end) => {
                if i < end <= text.len() {
                    lemma_bad_within(text, end);
                }
            },
            Scan::Found(_, end) => {
                if i < end <= text.len() {
                    lemma_bad_within(text, end);
                }
            },
            Scan::Bad => {},
        }
    }
}

/// The places at which a module starts.
pub open spec fn module_places(events: Seq<Event>, n: nat) -> Set<int> {
    Set::new(|k: int| 0 <= k < n && events[k] is Module)
}

/// The number of modules is that of the places at which one starts, and only one module is taken.
pub proof fn lemma_modules_counted(events: Seq<Event>, n: nat)
    ensures
        module_places(events, n).finite(),
        module_count(events, n) == module_places(events, n).len(),
    decreases n,
{
    let all = module_places(events, n);
    if n == 0 {
        assert(all =~= Set::empty());
    } else {
        lemma_modules_counted(events, (n - 1) as nat);
        if events[n - 1] is Module {
            assert(all =~= module_places(events, (n - 1) as nat).insert(n - 1));
        } else {
            assert(all =~= module_places(events, (n - 1) as nat));
        }
    }
}

/// A text that fits the grammar is a netlist only with one module.
pub proof fn lemma_one_module_only(text: Seq<char>)
    requires
        tokens(text).1 is None,
        file_at(tokens(text).0, 0) is Ok,
    ensures
        ({
            let events = file_at(tokens(text).0, 0)->Ok_0;
            let count = module_places(events, events.len()).len();
            (count != 1) == (netlist_of(text) matches Err(NetlistErrorV::WrongModuleCount(_)))
                && (count != 1 ==> netlist_of(text) == Err::<ModuleV, _>(
                NetlistErrorV::WrongModuleCount(count),
            ))
        }),
{
    let toks = tokens(text).0;
    let events = file_at(toks, 0)->Ok_0;
    lemma_modules_counted(events, events.len());
    lemma_count_errors(toks, events, events.len());
}

proof fn lemma_expr_counts(toks: Seq<TokenV>, tree: ExprTree)
    ensures
        !(expr_of(toks, tree) matches Err(NetlistErrorV::WrongModuleCount(_))),
    decreases tree,
{
    match tree {
        ExprTree::Unary { rhs, .. } => {
            lemma_expr_counts(toks, *rhs);
        },
        ExprTree::Binary { lhs, rhs, .. } => {
            lemma_expr_counts(toks, *lhs);
            lemma_expr_counts(toks, *rhs);
        },
        _ => {},
    }
}

proof fn lemma_count_errors(toks: Seq<TokenV>, events: Seq<Event>, n: nat)
    ensures
        !(after_events(toks, events, n) matches Err(
            NetlistErrorV::WrongModuleCount(_),
        )),
    decreases n,
{
    if n > 0 {
        lemma_count_errors(toks, events, (n - 1) as nat);
        match events[n - 1] {
            Event::Assign { lhs, rhs } => {
                lemma_expr_counts(toks, lhs);
                lemma_expr_counts(toks, rhs);
            },
            Event::Parameter { value: Some(tree), .. } => {
                lemma_expr_counts(toks, tree);
            },
            Event::Connection { value: Some(tree), .. } => {
                lemma_expr_counts(toks, tree);
            },
            _ => {},
        }
    }
}

/// How many braces are open before a place, of those from `i` on.
pub open spec fn open_braces(toks: Seq<TokenV>, i: int, k: int) -> int
    decreases k - i,
{
    if k <= i {
        0
    } else {
        open_braces(toks, i, k - 1) + if symbol_at(toks, k - 1, "{"@) {
            1int
        } else if symbol_at(toks, k - 1, "}"@) {
            -1
        } else {
            0
        }
    }
}

proof fn lemma_braces_first(toks: Seq<TokenV>, i: int, k: int)
    requires
        i < k,
    ensures
        open_braces(toks, i, k) == open_braces(toks, i, i + 1) + open_braces(toks, i + 1, k),
    decreases k - i,
{
    if k > i + 1 {
        lemma_braces_first(toks, i, k - 1);
    }
    assert(open_braces(toks, i, i) == 0);
}

proof fn lemma_closes(toks: Seq<TokenV>, i: int, depth: nat, j: int)
    requires
        0 <= i,
        depth > 0,
        close_at(toks, i, depth) == Ok::<int, int>(j),
    ensures
        i < j <= toks.len(),
        depth + open_braces(toks, i, j) == 0,
        forall|k: int| i <= k < j ==> depth + #[trigger] open_braces(toks, i, k) > 0,
    decreases toks.len() - i,
{
    reveal_strlit("{");
    reveal_strlit("}");
    assert("{"@[0] == '{' && "}"@[0] == '}');
    assert(open_braces(toks, i, i) == 0);
    assert(open_braces(toks, i, i + 1) == open_braces(toks, i, i) + (if symbol_at(toks, i, "{"@) {
        1int
    } else if symbol_at(toks, i, "}"@) {
        -1
    } else {
        0
    }));
    if symbol_at(toks, i, "}"@) && depth == 1 {
    } else {
        let next = if symbol_at(toks, i, "{"@) {
            depth + 1
        } else if symbol_at(toks, i, "}"@) {
            (depth - 1) as nat
        } else {
            depth
        };
        lemma_closes(toks, i + 1, next, j);
        lemma_braces_first(toks, i, j);
        assert forall|k: int| i <= k < j implies depth + #[trigger] open_braces(toks, i, k) > 0 by {
            if k > i {
                lemma_braces_first(toks, i, k);
                assert(next + open_braces(toks, i + 1, k) > 0);
            }
        }
    }
}

/// A concatenation runs up to the brace that closes it, and is not supported: the error gives the
/// byte at which it starts.
pub proof fn lemma_concatenations_refused(toks: Seq<TokenV>, i: int)
    requires
        toks.len() <= usize::MAX,
        symbol_at(toks, i, "{"@),
        term_at(toks, i) is Ok,
    ensures
        ({
            let (tree, j) = term_at(toks, i)->Ok_0;
            &&& expr_of(toks, tree) == Err::<NetExprV, _>(
                NetlistErrorV::UnsupportedConcat { start: toks[i].start },
            )
            &&& i + 1 < j <= toks.len()
            &&& 1 + open_braces(toks, i + 1, j) == 0
            &&& forall|k: int| i + 1 <= k < j ==> 1 + #[trigger] open_braces(toks, i + 1, k) > 0
        }),
{
    reveal_strlit("{");
    reveal_strlit("~");
    reveal_strlit("!");
    reveal_strlit("(");
    assert("{"@[0] == '{' && "~"@[0] == '~' && "!"@[0] == '!' && "("@[0] == '(');
    assert(!unary_at(toks, i));
    let (tree, j) = term_at(toks, i)->Ok_0;
    assert(close_at(toks, i + 1, 1) == Ok::<int, int>(j));
    lemma_closes(toks, i + 1, 1, j);
}

/// A range of a name is not supported as an operand: the error gives the byte at which it starts.
pub proof fn lemma_ranges_refused(toks: Seq<TokenV>, i: int)
    requires
        toks.len() <= usize::MAX,
        name_at(toks, i),
        symbol_at(toks, i + 1, "["@),
        number_at(toks, i + 2),
        symbol_at(toks, i + 3, ":"@),
        number_at(toks, i + 4),
        symbol_at(toks, i + 5, "]"@),
    ensures
        term_at(toks, i) matches Ok((tree, j)) && j == i + 6 && expr_of(toks, tree) == Err::<
            NetExprV,
            _,
        >(NetlistErrorV::UnsupportedPartSelect { start: toks[i].start }),
{
    reveal_strlit(":");
    reveal_strlit("]");
    assert(":"@[0] == ':' && "]"@[0] == ']');
    assert(toks[i].kind == TokenKind::Word);
    assert(!symbol_at(toks, i + 3, "]"@));
}

/// A connection without the name of its port is not supported: the error gives the byte at which it
/// starts.
pub proof fn lemma_positions_refused(toks: Seq<TokenV>, progress: Progress, i: int)
    requires
        toks.len() <= usize::MAX,
        0 <= i < toks.len(),
        !symbol_at(toks, i, "."@),
        expr_at(toks, i) is Ok,
    ensures
        link_at(toks, false, i) matches Ok((event, j)) && after_event(toks, progress, event) == Err::<
            Progress,
            _,
        >(NetlistErrorV::UnsupportedPositionalConnection { start: toks[i].start }),
        link_at(toks, true, i) is Err,
{
}

} // verus!
