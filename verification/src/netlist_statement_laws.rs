//! Statements of a netlist are read back as they were written.
use vstd::prelude::*;

use crate::expr_shape::decimal;
use crate::netlist_expr_laws::{
    expression_marks, free_name, lemma_expression_read, lemma_free_name, lemma_stands_one,
    lemma_stands_parts, operand_marks, reads_as, sign, sound, stands, term, unary_sign, Mark,
    Source,
};
use crate::netlist_grammar::{
    assign_at, declared, direction_at, head_at, instance_at, link_at, link_list_at, links_at,
    name_at, names_at, net_kind_at, number_at, parameters_at, range_at, statement_at, symbol_at,
    word_at, Event, ExprTree, Head,
};
use crate::netlist_tokens::{TokenKind, TokenV};
use crate::parser::text_at;

verus! {

/// A direction of ports.
pub open spec fn direction_word(text: Seq<char>) -> bool {
    text == "input"@ || text == "output"@ || text == "inout"@
}

/// A kind of nets.
pub open spec fn net_word(text: Seq<char>) -> bool {
    text == "wire"@ || text == "tri"@ || text == "supply0"@ || text == "supply1"@ || text == "reg"@
}

/// A named port or parameter with its value, as it is written.
pub struct Link {
    pub port: Seq<char>,
    pub value: Option<Source>,
}

/// A statement as it is written.
pub enum Statement {
    Ports {
        direction: Seq<char>,
        kind: Option<Seq<char>>,
        range: Option<(usize, usize)>,
        names: Seq<Seq<char>>,
    },
    Nets { kind: Seq<char>, range: Option<(usize, usize)>, names: Seq<Seq<char>> },
    Assign { lhs: Source, rhs: Source },
    Gate {
        cell: Seq<char>,
        name: Seq<char>,
        parameters: Option<Seq<Link>>,
        connections: Seq<Link>,
    },
}

/// One thing that a netlist says.
pub enum Part {
    Module { name: Seq<char> },
    Port { direction: Seq<char>, range: Option<(usize, usize)>, name: Seq<char> },
    Net { kind: Seq<char>, range: Option<(usize, usize)>, name: Seq<char> },
    Assign { lhs: Source, rhs: Source },
    Gate { cell: Seq<char>, name: Seq<char> },
    Parameter { port: Seq<char>, value: Option<Source> },
    Connection { port: Seq<char>, value: Option<Source> },
}

/// The tokens of a range are its bounds.
pub open spec fn range_says(
    toks: Seq<TokenV>,
    range: Option<(usize, usize)>,
    bounds: Option<(usize, usize)>,
) -> bool {
    match (range, bounds) {
        (None, None) => true,
        (Some((m, l)), Some((msb, lsb))) => text_at(toks, m) == decimal(
            msb as nat,
        ) && text_at(toks, l) == decimal(lsb as nat),
        _ => false,
    }
}

/// The tree, if there is one, means what was written.
pub open spec fn value_says(
    toks: Seq<TokenV>,
    tree: Option<ExprTree>,
    value: Option<Source>,
) -> bool {
    match (tree, value) {
        (None, None) => true,
        (Some(tree), Some(source)) => reads_as(toks, tree, source),
        _ => false,
    }
}

/// The event says the part.
pub open spec fn says(toks: Seq<TokenV>, event: Event, part: Part) -> bool {
    match (event, part) {
        (Event::Module { name }, Part::Module { name: n }) => text_at(toks, name) == n,
        (
            Event::Port { direction, range, name },
            Part::Port { direction: d, range: r, name: n },
        ) => text_at(toks, direction) == d && range_says(toks, range, r) && text_at(toks, name) == n,
        (Event::Net { kind, range, name }, Part::Net { kind: k, range: r, name: n }) => text_at(
            toks,
            kind,
        ) == k && range_says(toks, range, r) && text_at(toks, name) == n,
        (Event::Assign { lhs, rhs }, Part::Assign { lhs: l, rhs: r }) => reads_as(toks, lhs, l)
            && reads_as(toks, rhs, r),
        (Event::Instance { cell_type, name }, Part::Gate { cell, name: n }) => text_at(
            toks,
            cell_type,
        ) == cell && text_at(toks, name) == n,
        (Event::Parameter { port, value }, Part::Parameter { port: p, value: v }) => text_at(
            toks,
            port,
        ) == p && value_says(toks, value, v),
        (Event::Connection { port, value }, Part::Connection { port: p, value: v }) => text_at(
            toks,
            port,
        ) == p && value_says(toks, value, v),
        _ => false,
    }
}

/// The events say the parts, one by one.
pub open spec fn all_say(toks: Seq<TokenV>, events: Seq<Event>, parts: Seq<Part>) -> bool {
    &&& events.len() == parts.len()
    &&& forall|k: int| 0 <= k < parts.len() ==> says(toks, #[trigger] events[k], parts[k])
}

/// Events that say parts one after the other.
pub proof fn lemma_say_both(
    toks: Seq<TokenV>,
    events: Seq<Event>,
    parts: Seq<Part>,
    more_events: Seq<Event>,
    more_parts: Seq<Part>,
)
    requires
        all_say(toks, events, parts),
        all_say(toks, more_events, more_parts),
    ensures
        all_say(toks, events + more_events, parts + more_parts),
{
    let all = events + more_events;
    assert forall|k: int| 0 <= k < (parts + more_parts).len() implies says(
        toks,
        #[trigger] all[k],
        (parts + more_parts)[k],
    ) by {
        if k < parts.len() {
            assert(all[k] == events[k]);
        } else {
            assert(all[k] == more_events[k - parts.len()]);
        }
    }
}

/// One event says one part.
pub proof fn lemma_say_one(toks: Seq<TokenV>, event: Event, part: Part)
    requires
        says(toks, event, part),
    ensures
        all_say(toks, seq![event], seq![part]),
{
}

/// Names with commas between them.
pub open spec fn name_marks(names: Seq<Seq<char>>) -> Seq<Mark>
    decreases names.len(),
{
    if names.len() == 0 {
        seq![]
    } else if names.len() == 1 {
        seq![term(names[0])]
    } else {
        seq![term(names[0]), sign(","@)] + name_marks(names.skip(1))
    }
}

/// A range in square brackets.
pub open spec fn range_marks(range: Option<(usize, usize)>) -> Seq<Mark> {
    match range {
        None => seq![],
        Some((msb, lsb)) => seq![
            sign("["@),
            (TokenKind::Number, decimal(msb as nat)),
            sign(":"@),
            (TokenKind::Number, decimal(lsb as nat)),
            sign("]"@),
        ],
    }
}

/// A kind of nets, if one is given.
pub open spec fn kind_marks(kind: Option<Seq<char>>) -> Seq<Mark> {
    match kind {
        None => seq![],
        Some(kind) => seq![term(kind)],
    }
}

/// A link: a dot, the port, and the value in brackets.
pub open spec fn link_marks(link: Link) -> Seq<Mark> {
    seq![sign("."@), term(link.port), sign("("@)] + match link.value {
        None => seq![],
        Some(source) => expression_marks(source),
    } + seq![sign(")"@)]
}

/// Links with commas between them.
pub open spec fn links_marks(links: Seq<Link>) -> Seq<Mark>
    decreases links.len(),
{
    if links.len() == 0 {
        seq![]
    } else if links.len() == 1 {
        link_marks(links[0])
    } else {
        link_marks(links[0]) + seq![sign(","@)] + links_marks(links.skip(1))
    }
}

/// Links in brackets.
pub open spec fn list_marks(links: Seq<Link>) -> Seq<Mark> {
    seq![sign("("@)] + links_marks(links) + seq![sign(")"@)]
}

/// The parameters of a gate, if they are given.
pub open spec fn parameter_marks(parameters: Option<Seq<Link>>) -> Seq<Mark> {
    match parameters {
        None => seq![],
        Some(links) => seq![sign("#"@)] + list_marks(links),
    }
}

/// A statement without its semicolon.
pub open spec fn statement_marks(statement: Statement) -> Seq<Mark> {
    match statement {
        Statement::Ports { direction, kind, range, names } => seq![term(direction)] + kind_marks(
            kind,
        ) + range_marks(range) + name_marks(names),
        Statement::Nets { kind, range, names } => seq![term(kind)] + range_marks(range)
            + name_marks(names),
        Statement::Assign { lhs, rhs } => seq![term("assign"@)] + expression_marks(lhs) + seq![
            sign("="@),
        ] + expression_marks(rhs),
        Statement::Gate { cell, name, parameters, connections } => seq![term(cell)]
            + parameter_marks(parameters) + seq![term(name)] + list_marks(connections),
    }
}

/// Links have free names and sound values.
pub open spec fn links_sound(links: Seq<Link>) -> bool {
    forall|k: int|
        0 <= k < links.len() ==> free_name((#[trigger] links[k]).port) && (
        links[k].value matches Some(source) ==> sound(source))
}

/// The statement is made of free names, words of its kind and sound expressions.
pub open spec fn statement_sound(statement: Statement) -> bool {
    match statement {
        Statement::Ports { direction, kind, names, .. } => direction_word(direction) && (
        kind matches Some(k) ==> net_word(k)) && names_sound(names),
        Statement::Nets { kind, names, .. } => net_word(kind) && names_sound(names),
        Statement::Assign { lhs, rhs } => sound(lhs) && sound(rhs),
        Statement::Gate { cell, name, parameters, connections } => free_name(cell) && free_name(
            name,
        ) && (parameters matches Some(links) ==> links_sound(links)) && links_sound(connections),
    }
}

/// There are names, and they are free.
pub open spec fn names_sound(names: Seq<Seq<char>>) -> bool {
    names.len() > 0 && forall|k: int| 0 <= k < names.len() ==> free_name(#[trigger] names[k])
}

/// What links say.
pub open spec fn link_parts(links: Seq<Link>, is_parameter: bool) -> Seq<Part> {
    Seq::new(
        links.len(),
        |k: int|
            if is_parameter {
                Part::Parameter { port: links[k].port, value: links[k].value }
            } else {
                Part::Connection { port: links[k].port, value: links[k].value }
            },
    )
}

/// What a statement says.
pub open spec fn statement_parts(statement: Statement) -> Seq<Part> {
    match statement {
        Statement::Ports { direction, range, names, .. } => Seq::new(
            names.len(),
            |k: int| Part::Port { direction, range, name: names[k] },
        ),
        Statement::Nets { kind, range, names } => Seq::new(
            names.len(),
            |k: int| Part::Net { kind, range, name: names[k] },
        ),
        Statement::Assign { lhs, rhs } => seq![Part::Assign { lhs, rhs }],
        Statement::Gate { cell, name, parameters, connections } => seq![Part::Gate { cell, name }]
            + (match parameters {
            Some(links) => link_parts(links, true),
            None => seq![],
        }) + link_parts(connections, false),
    }
}

/// Keywords and symbols of the grammar that differ.
pub proof fn lemma_keywords()
    ensures
        forall|d: Seq<char>| direction_word(d) ==> !net_word(d) && d != "assign"@ && d
            != "endmodule"@,
        forall|d: Seq<char>| net_word(d) ==> !direction_word(d) && d != "assign"@ && d
            != "endmodule"@,
        "assign"@ != "endmodule"@,
{
    reveal_strlit("input");
    reveal_strlit("output");
    reveal_strlit("inout");
    reveal_strlit("wire");
    reveal_strlit("tri");
    reveal_strlit("supply0");
    reveal_strlit("supply1");
    reveal_strlit("reg");
    reveal_strlit("assign");
    reveal_strlit("endmodule");
    assert("input"@[0] == 'i' && "output"@[0] == 'o' && "inout"@[0] == 'i' && "wire"@[0] == 'w'
        && "tri"@[0] == 't' && "supply0"@[0] == 's' && "supply1"@[0] == 's' && "reg"@[0] == 'r'
        && "assign"@[0] == 'a' && "endmodule"@[0] == 'e');
}

/// Symbols that differ.
pub proof fn lemma_signs()
    ensures
        ")"@ != "["@,
        "="@ != "["@,
        ";"@ != "["@,
        ";"@ != ","@,
        ")"@ != ","@,
        "."@ != ")"@,
        "("@ != ")"@,
        "("@ != "#"@,
        ","@ != ")"@,
        "["@ != ")"@,
        !crate::netlist_expr_laws::binary_sign(")"@),
        !crate::netlist_expr_laws::binary_sign("="@),
        !crate::netlist_expr_laws::binary_sign(";"@),
        forall|op: Seq<char>| unary_sign(op) ==> op != ")"@,
{
    reveal_strlit("(");
    reveal_strlit(")");
    reveal_strlit("[");
    reveal_strlit("=");
    reveal_strlit(";");
    reveal_strlit(",");
    reveal_strlit(".");
    reveal_strlit("#");
    reveal_strlit("~");
    reveal_strlit("!");
    reveal_strlit("&");
    reveal_strlit("|");
    reveal_strlit("^");
    reveal_strlit("~^");
    reveal_strlit("^~");
    reveal_strlit("&&");
    reveal_strlit("||");
    assert("("@[0] == '(' && ")"@[0] == ')' && "["@[0] == '[' && "="@[0] == '=' && ";"@[0] == ';');
    assert(","@[0] == ',' && "."@[0] == '.' && "#"@[0] == '#');
    assert("~"@[0] == '~' && "!"@[0] == '!' && "&"@[0] == '&' && "|"@[0] == '|' && "^"@[0] == '^');
    assert("~^"@[0] == '~' && "^~"@[0] == '^' && "&&"@[0] == '&' && "||"@[0] == '|');
}

/// The names from a place on are declared in order.
proof fn lemma_names_read(toks: Seq<TokenV>, head: Head, i: int, names: Seq<Seq<char>>) -> (events:
    Seq<Event>)
    requires
        names_sound(names),
        toks.len() <= usize::MAX,
        stands(toks, i, name_marks(names)),
        !symbol_at(toks, i + name_marks(names).len(), ","@),
    ensures
        names_at(toks, head, i) == Ok::<_, int>((events, i + name_marks(names).len())),
        events.len() == names.len(),
        forall|k: int|
            0 <= k < names.len() ==> #[trigger] events[k] == declared(head, i + 2 * k) && 0 <= i + 2
                * k < toks.len() && toks[i + 2 * k].text == names[k],
        name_marks(names).len() > 0,
    decreases names.len(),
{
    let marks = name_marks(names);
    assert(free_name(names[0]));
    if names.len() == 1 {
        lemma_stands_one(toks, i, term(names[0]));
        lemma_free_name(toks, i);
        let events = seq![declared(head, i)];
        events
    } else {
        let rest = names.skip(1);
        let front = seq![term(names[0]), sign(","@)];
        assert(marks == front + name_marks(rest));
        lemma_stands_parts(toks, i, front, name_marks(rest));
        assert(front[0] == term(names[0]) && front[1] == sign(","@));
        assert(toks[i + 0].kind == TokenKind::Word && toks[i + 0].text == names[0]);
        assert(toks[i + 1].kind == TokenKind::Symbol && toks[i + 1].text == ","@);
        lemma_free_name(toks, i);
        assert forall|k: int| 0 <= k < rest.len() implies free_name(#[trigger] rest[k]) by {
            assert(rest[k] == names[k + 1]);
        }
        let more = lemma_names_read(toks, head, i + 2, rest);
        let events = seq![declared(head, i)] + more;
        assert(symbol_at(toks, i + 1, ","@));
        assert(names_at(toks, head, i) == Ok::<_, int>((events, i + marks.len())));
        assert forall|k: int| 0 <= k < names.len() implies #[trigger] events[k] == declared(
            head,
            i + 2 * k,
        ) && 0 <= i + 2 * k < toks.len() && toks[i + 2 * k].text == names[k] by {
            if k > 0 {
                assert(events[k] == more[k - 1]);
                assert(i + 2 + 2 * (k - 1) == i + 2 * k);
                assert(rest[k - 1] == names[k]);
            }
        }
        events
    }
}

/// A range that stands is read; where none stands, a name does.
pub(crate) proof fn lemma_range_read(
    toks: Seq<TokenV>,
    i: int,
    range: Option<(usize, usize)>,
) -> (at: Option<(usize, usize)>)
    requires
        toks.len() <= usize::MAX,
        stands(toks, i, range_marks(range)),
        range is None ==> !symbol_at(toks, i, "["@),
    ensures
        range_at(toks, i) == Ok::<_, int>((at, i + range_marks(range).len())),
        range_says(toks, at, range),
{
    match range {
        None => None,
        Some((msb, lsb)) => {
            let marks = range_marks(range);
            assert(marks[0] == sign("["@) && marks[1] == (TokenKind::Number, decimal(msb as nat)) && marks[2]
                == sign(":"@) && marks[3] == (TokenKind::Number, decimal(lsb as nat)) && marks[4] == sign("]"@));
            assert(toks[i + 0].kind == TokenKind::Symbol);
            assert(number_at(toks, i + 1) && number_at(toks, i + 3));
            assert(symbol_at(toks, i + 2, ":"@) && symbol_at(toks, i + 4, "]"@));
            assert(symbol_at(toks, i, "["@));
            Some(((i + 1) as usize, (i + 3) as usize))
        },
    }
}

/// The words and the range before declared names.
pub(crate) proof fn lemma_head_read(
    toks: Seq<TokenV>,
    i: int,
    word: Seq<char>,
    kind: Option<Seq<char>>,
    range: Option<(usize, usize)>,
) -> (head: Head)
    requires
        direction_word(word) || (net_word(word) && kind is None),
        kind matches Some(k) ==> net_word(k),
        toks.len() <= usize::MAX,
        stands(toks, i, seq![term(word)] + kind_marks(kind) + range_marks(range)),
        name_at(
            toks,
            i + (seq![term(word)] + kind_marks(kind) + range_marks(range)).len(),
        ),
    ensures
        head_at(toks, i) == Ok::<_, int>(
            (head, i + (seq![term(word)] + kind_marks(kind) + range_marks(range)).len()),
        ),
        head.is_port == direction_word(word),
        text_at(toks, head.word) == word,
        range_says(toks, head.range, range),
        direction_at(toks, i) == direction_word(word),
        net_kind_at(toks, i) == net_word(word),
{
    lemma_keywords();
    let first = seq![term(word)];
    let words = first + kind_marks(kind);
    lemma_stands_parts(toks, i, words, range_marks(range));
    lemma_stands_parts(toks, i, first, kind_marks(kind));
    lemma_stands_one(toks, i, term(word));
    let j = i + words.len();
    assert(i + first.len() == i + 1);
    if let Some(k) = kind {
        lemma_stands_one(toks, i + 1, term(k));
        assert(net_kind_at(toks, i + 1));
    } else {
        if range is Some {
            assert(range_marks(range)[0] == sign("["@));
            assert(toks[j + 0].kind == TokenKind::Symbol);
            assert(!net_kind_at(toks, i + 1));
        } else {
            assert(name_at(toks, i + 1));
            assert(!net_kind_at(toks, i + 1));
        }
    }
    let at = lemma_range_read(toks, j, range);
    Head { is_port: direction_word(word), word: i as usize, range: at }
}

/// The first mark of an expression is no closing bracket.
proof fn lemma_first_mark(source: Source)
    requires
        sound(source),
    ensures
        expression_marks(source).len() > 0,
        expression_marks(source)[0] != sign(")"@),
        operand_marks(source).len() > 0,
        operand_marks(source)[0] != sign(")"@),
    decreases source,
{
    lemma_signs();
    match source {
        Source::Two { lhs, op, rhs } => {
            lemma_first_mark(*lhs);
            assert(expression_marks(source)[0] == expression_marks(*lhs)[0]);
            assert(operand_marks(source)[0] == sign("("@));
        },
        Source::One { op, rhs } => {
            assert(operand_marks(source)[0] == sign(op));
            assert(expression_marks(source) == operand_marks(source));
        },
        Source::Name(name) => {
            assert(operand_marks(source)[0] == term(name));
            assert(expression_marks(source) == operand_marks(source));
        },
        Source::Element { name, .. } => {
            assert(operand_marks(source)[0] == term(name));
            assert(expression_marks(source) == operand_marks(source));
        },
        Source::Literal { kind, text } => {
            assert(operand_marks(source)[0] == (kind, text));
            assert(expression_marks(source) == operand_marks(source));
        },
    }
}

/// What a link says.
pub open spec fn link_part(link: Link, is_parameter: bool) -> Part {
    if is_parameter {
        Part::Parameter { port: link.port, value: link.value }
    } else {
        Part::Connection { port: link.port, value: link.value }
    }
}

proof fn lemma_link_read(toks: Seq<TokenV>, i: int, link: Link, is_parameter: bool) -> (event: Event)
    requires
        free_name(link.port),
        link.value matches Some(source) ==> sound(source),
        toks.len() <= usize::MAX,
        stands(toks, i, link_marks(link)),
    ensures
        link_at(toks, is_parameter, i) == Ok::<_, int>((event, i + link_marks(link).len())),
        says(toks, event, link_part(link, is_parameter)),
{
    lemma_signs();
    let front = seq![sign("."@), term(link.port), sign("("@)];
    let middle = match link.value {
        None => seq![],
        Some(source) => expression_marks(source),
    };
    lemma_stands_parts(toks, i, front + middle, seq![sign(")"@)]);
    lemma_stands_parts(toks, i, front, middle);
    let end = i + 3 + middle.len();
    assert(i + (front + middle).len() == end);
    lemma_stands_one(toks, end, sign(")"@));
    assert(front[0] == sign("."@) && front[1] == term(link.port) && front[2] == sign("("@));
    assert(toks[i + 0].text == "."@ && toks[i + 0].kind == TokenKind::Symbol);
    assert(toks[i + 1].text == link.port && toks[i + 1].kind == TokenKind::Word);
    assert(toks[i + 2].text == "("@ && toks[i + 2].kind == TokenKind::Symbol);
    lemma_free_name(toks, i + 1);
    assert(symbol_at(toks, i, "."@));
    assert(symbol_at(toks, i + 2, "("@));
    assert(symbol_at(toks, end, ")"@));
    let port = (i + 1) as usize;
    match link.value {
        None => {
            assert(end == i + 3);
            if is_parameter {
                Event::Parameter { port, value: None }
            } else {
                Event::Connection { port, value: None }
            }
        },
        Some(source) => {
            lemma_first_mark(source);
            assert(toks[i + 3 + 0].text == middle[0].1 && toks[i + 3 + 0].kind == middle[0].0);
            assert(!symbol_at(toks, i + 3, ")"@));
            let tree = lemma_expression_read(toks, i + 3, source);
            if is_parameter {
                Event::Parameter { port, value: Some(tree) }
            } else {
                Event::Connection { port, value: Some(tree) }
            }
        },
    }
}

proof fn lemma_links_read(toks: Seq<TokenV>, i: int, links: Seq<Link>, is_parameter: bool) -> (events:
    Seq<Event>)
    requires
        links.len() > 0,
        links_sound(links),
        toks.len() <= usize::MAX,
        stands(toks, i, links_marks(links) + seq![sign(")"@)]),
    ensures
        links_at(toks, is_parameter, i) == Ok::<_, int>(
            (events, i + links_marks(links).len() + 1),
        ),
        all_say(toks, events, link_parts(links, is_parameter)),
    decreases links.len(),
{
    lemma_signs();
    let marks = links_marks(links);
    let close = seq![sign(")"@)];
    lemma_stands_parts(toks, i, marks, close);
    lemma_stands_one(toks, i + marks.len(), sign(")"@));
    assert(symbol_at(toks, i + marks.len(), ")"@));
    let own = link_marks(links[0]);
    let parts = link_parts(links, is_parameter);
    if links.len() == 1 {
        let event = lemma_link_read(toks, i, links[0], is_parameter);
        let events = seq![event];
        lemma_say_one(toks, event, link_part(links[0], is_parameter));
        assert(parts =~= seq![link_part(links[0], is_parameter)]);
        events
    } else {
        let rest = links.skip(1);
        let comma = seq![sign(","@)];
        assert(marks == own + comma + links_marks(rest));
        lemma_stands_parts(toks, i, own + comma, links_marks(rest));
        lemma_stands_parts(toks, i, own, comma);
        lemma_stands_one(toks, i + own.len(), sign(","@));
        let event = lemma_link_read(toks, i, links[0], is_parameter);
        let j = i + own.len() + 1;
        assert(i + (own + comma).len() == j);
        assert(stands(toks, j, links_marks(rest) + close)) by {
            let tail = links_marks(rest) + close;
            assert forall|k: int| 0 <= k < tail.len() implies toks[j + k].kind == (
            #[trigger] tail[k]).0 && toks[j + k].text == tail[k].1 by {
                if k < links_marks(rest).len() {
                    assert(tail[k] == links_marks(rest)[k]);
                } else {
                    assert(tail[k] == sign(")"@));
                    assert(j + k == i + marks.len());
                }
            }
        }
        assert forall|k: int| 0 <= k < rest.len() implies free_name((#[trigger] rest[k]).port) && (
        rest[k].value matches Some(source) ==> sound(source)) by {
            assert(rest[k] == links[k + 1]);
        }
        let more = lemma_links_read(toks, j, rest, is_parameter);
        let events = seq![event] + more;
        assert(symbol_at(toks, j - 1, ","@));
        assert(!symbol_at(toks, j - 1, ")"@));
        assert(links_at(toks, is_parameter, i) == Ok::<_, int>((events, i + marks.len() + 1)));
        lemma_say_one(toks, event, link_part(links[0], is_parameter));
        lemma_say_both(
            toks,
            seq![event],
            seq![link_part(links[0], is_parameter)],
            more,
            link_parts(rest, is_parameter),
        );
        assert(parts =~= seq![link_part(links[0], is_parameter)] + link_parts(
            rest,
            is_parameter,
        ));
        events
    }
}

proof fn lemma_list_read(toks: Seq<TokenV>, i: int, links: Seq<Link>, is_parameter: bool) -> (events:
    Seq<Event>)
    requires
        links_sound(links),
        toks.len() <= usize::MAX,
        stands(toks, i, list_marks(links)),
    ensures
        link_list_at(toks, is_parameter, i) == Ok::<_, int>((events, i + list_marks(links).len())),
        all_say(toks, events, link_parts(links, is_parameter)),
{
    lemma_signs();
    let open = seq![sign("("@)];
    let close = seq![sign(")"@)];
    let inner = links_marks(links);
    assert(list_marks(links) =~= open + (inner + close));
    lemma_stands_parts(toks, i, open, inner + close);
    lemma_stands_one(toks, i, sign("("@));
    assert(symbol_at(toks, i, "("@));
    if links.len() == 0 {
        assert(inner + close =~= close);
        lemma_stands_one(toks, i + 1, sign(")"@));
        assert(symbol_at(toks, i + 1, ")"@));
        assert(link_parts(links, is_parameter) =~= seq![]);
        seq![]
    } else {
        lemma_stands_parts(toks, i + 1, inner, close);
        assert(inner[0] == sign("."@)) by {
            assert(link_marks(links[0])[0] == sign("."@));
            assert(inner[0] == link_marks(links[0])[0]);
        }
        assert(toks[i + 1 + 0].text == "."@);
        assert(!symbol_at(toks, i + 1, ")"@));
        lemma_links_read(toks, i + 1, links, is_parameter)
    }
}

proof fn lemma_gate_read(toks: Seq<TokenV>, i: int, statement: Statement) -> (events: Seq<Event>)
    requires
        statement is Gate,
        statement_sound(statement),
        toks.len() <= usize::MAX,
        stands(toks, i, statement_marks(statement)),
    ensures
        statement_at(toks, i) == Ok::<_, int>((events, i + statement_marks(statement).len())),
        all_say(toks, events, statement_parts(statement)),
{
    lemma_signs();
    lemma_keywords();
    match statement {
        Statement::Gate { cell, name, parameters, connections } => {
            let first = seq![term(cell)];
            let middle = parameter_marks(parameters);
            let own = seq![term(name)];
            let tail = list_marks(connections);
            lemma_stands_parts(toks, i, first + middle + own, tail);
            lemma_stands_parts(toks, i, first + middle, own);
            lemma_stands_parts(toks, i, first, middle);
            lemma_stands_one(toks, i, term(cell));
            lemma_free_name(toks, i);
            let j = i + 1 + middle.len();
            assert(i + (first + middle).len() == j);
            assert(i + (first + middle + own).len() == j + 1);
            lemma_stands_one(toks, j, term(name));
            lemma_free_name(toks, j);
            let event = Event::Instance { cell_type: i as usize, name: j as usize };
            assert(says(toks, event, Part::Gate { cell, name }));
            let before_parts = match parameters {
                Some(links) => link_parts(links, true),
                None => seq![],
            };
            let before = match parameters {
                None => {
                    assert(toks[i + 1].kind == TokenKind::Word);
                    assert(parameters_at(toks, i) == Ok::<_, int>((Seq::<Event>::empty(), i + 1)));
                    assert(all_say(toks, Seq::<Event>::empty(), before_parts));
                    Seq::<Event>::empty()
                },
                Some(links) => {
                    let hash = seq![sign("#"@)];
                    lemma_stands_parts(toks, i + 1, hash, list_marks(links));
                    lemma_stands_one(toks, i + 1, sign("#"@));
                    assert(symbol_at(toks, i + 1, "#"@));
                    lemma_list_read(toks, i + 2, links, true)
                },
            };
            assert(parameters_at(toks, i) == Ok::<_, int>((before, j)));
            let after = lemma_list_read(toks, j + 1, connections, false);
            let events = seq![event] + before + after;
            lemma_say_one(toks, event, Part::Gate { cell, name });
            lemma_say_both(toks, seq![event], seq![Part::Gate { cell, name }], before, before_parts);
            lemma_say_both(
                toks,
                seq![event] + before,
                seq![Part::Gate { cell, name }] + before_parts,
                after,
                link_parts(connections, false),
            );
            assert(instance_at(toks, i) == Ok::<_, int>(
                (events, i + statement_marks(statement).len()),
            ));
            assert(!word_at(toks, i, "assign"@));
            events
        },
        _ => Seq::<Event>::empty(),
    }
}

proof fn lemma_declaration_read(toks: Seq<TokenV>, i: int, statement: Statement) -> (events: Seq<
    Event,
>)
    requires
        statement is Ports || statement is Nets,
        statement_sound(statement),
        toks.len() <= usize::MAX,
        stands(toks, i, statement_marks(statement)),
        !symbol_at(toks, i + statement_marks(statement).len(), ","@),
    ensures
        statement_at(toks, i) == Ok::<_, int>((events, i + statement_marks(statement).len())),
        all_say(toks, events, statement_parts(statement)),
{
    lemma_keywords();
    let (word, kind, range, names) = match statement {
        Statement::Ports { direction, kind, range, names } => (direction, kind, range, names),
        Statement::Nets { kind, range, names } => (kind, None, range, names),
        _ => (seq![], None, None, seq![]),
    };
    let front = seq![term(word)] + kind_marks(kind) + range_marks(range);
    let marks = name_marks(names);
    assert(statement_marks(statement) =~= front + marks);
    lemma_stands_parts(toks, i, front, marks);
    let j = i + front.len();
    assert(marks[0] == term(names[0]));
    assert(toks[j + 0].kind == TokenKind::Word && toks[j + 0].text == names[0]);
    assert(free_name(names[0]));
    lemma_free_name(toks, j);
    let head = lemma_head_read(toks, i, word, kind, range);
    let events = lemma_names_read(toks, head, j, names);
    assert(front[0] == term(word));
    assert(toks[i + 0].text == word);
    assert(!word_at(toks, i, "assign"@));
    let parts = statement_parts(statement);
    assert forall|k: int| 0 <= k < parts.len() implies says(toks, #[trigger] events[k], parts[k]) by {
        assert(events[k] == declared(head, j + 2 * k));
        assert(text_at(toks, (j + 2 * k) as usize) == names[k]);
    }
    events
}

/// A statement that stands among the tokens is read up to its end, and says what was written.
pub proof fn lemma_statement_read(toks: Seq<TokenV>, i: int, statement: Statement) -> (events: Seq<
    Event,
>)
    requires
        statement_sound(statement),
        toks.len() <= usize::MAX,
        stands(toks, i, statement_marks(statement)),
        symbol_at(toks, i + statement_marks(statement).len(), ";"@),
    ensures
        statement_at(toks, i) == Ok::<_, int>((events, i + statement_marks(statement).len())),
        all_say(toks, events, statement_parts(statement)),
        !word_at(toks, i, "endmodule"@),
        statement_marks(statement).len() > 0,
{
    lemma_signs();
    lemma_keywords();
    let marks = statement_marks(statement);
    assert(toks[i + 0].text == marks[0].1);
    match statement {
        Statement::Assign { lhs, rhs } => {
            let first = seq![term("assign"@)];
            let left = expression_marks(lhs);
            let equal = seq![sign("="@)];
            let right = expression_marks(rhs);
            lemma_stands_parts(toks, i, first + left + equal, right);
            lemma_stands_parts(toks, i, first + left, equal);
            lemma_stands_parts(toks, i, first, left);
            lemma_stands_one(toks, i, term("assign"@));
            let j = i + 1 + left.len();
            assert(i + (first + left).len() == j);
            assert(i + (first + left + equal).len() == j + 1);
            lemma_stands_one(toks, j, sign("="@));
            let a = lemma_expression_read(toks, i + 1, lhs);
            let b = lemma_expression_read(toks, j + 1, rhs);
            let event = Event::Assign { lhs: a, rhs: b };
            assert(symbol_at(toks, j, "="@));
            assert(assign_at(toks, i) == Ok::<_, int>((seq![event], i + marks.len())));
            lemma_say_one(toks, event, Part::Assign { lhs, rhs });
            seq![event]
        },
        Statement::Gate { cell, .. } => {
            assert(marks[0] == term(cell));
            lemma_gate_read(toks, i, statement)
        },
        Statement::Ports { direction, .. } => {
            assert(marks[0] == term(direction));
            lemma_declaration_read(toks, i, statement)
        },
        Statement::Nets { kind, .. } => {
            assert(marks[0] == term(kind));
            lemma_declaration_read(toks, i, statement)
        },
    }
}

} // verus!
