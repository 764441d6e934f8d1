//! A module of a netlist is read back as it was written.
use vstd::prelude::*;

use crate::expr_shape::decimal;
use crate::greenthumb_laws::lemma_digits_read;
use crate::netlist_expr_laws::{
    free_name, lemma_free_name, lemma_stands_one, lemma_stands_parts, meant, sign, stands, term,
    Mark, Source,
};
use crate::netlist_grammar::{
    declared, direction_at, file_at, header_at, module_at, name_at, port_at, ports_at,
    statements_at, symbol_at, word_at, Event,
};
use crate::netlist_statement_laws::{
    all_say, direction_word, kind_marks, lemma_head_read, lemma_keywords, lemma_say_both,
    lemma_say_one, lemma_signs, lemma_statement_read, link_parts, net_word, range_marks, says,
    statement_marks, statement_parts, statement_sound, Link, Part, Statement,
};
use crate::netlist_tokens::{TokenKind, TokenV};
use crate::parser::{
    after_event, after_events, empty_module, module_count, range_value, scalars, usize_value,
    value_of, with_name, with_names, with_ports, AssignV, InstanceV, ModuleV, NetExprV,
    NetlistErrorV, Progress,
};

verus! {

/// A port of a module header, as it is written.
pub enum HeaderPort {
    Plain { name: Seq<char> },
    Typed {
        direction: Seq<char>,
        kind: Option<Seq<char>>,
        range: Option<(usize, usize)>,
        name: Seq<char>,
    },
}

/// A module, as it is written.
pub struct Written {
    pub name: Seq<char>,
    pub header: Option<Seq<HeaderPort>>,
    pub statements: Seq<Statement>,
}

/// A port of a module header.
pub open spec fn port_marks(port: HeaderPort) -> Seq<Mark> {
    match port {
        HeaderPort::Plain { name } => seq![term(name)],
        HeaderPort::Typed { direction, kind, range, name } => seq![term(direction)] + kind_marks(
            kind,
        ) + range_marks(range) + seq![term(name)],
    }
}

/// Ports with commas between them.
pub open spec fn ports_marks(ports: Seq<HeaderPort>) -> Seq<Mark>
    decreases ports.len(),
{
    if ports.len() == 0 {
        seq![]
    } else if ports.len() == 1 {
        port_marks(ports[0])
    } else {
        port_marks(ports[0]) + seq![sign(","@)] + ports_marks(ports.skip(1))
    }
}

/// The header of a module, if it has one.
pub open spec fn header_marks(header: Option<Seq<HeaderPort>>) -> Seq<Mark> {
    match header {
        None => seq![],
        Some(ports) => seq![sign("("@)] + (ports_marks(ports) + seq![sign(")"@)]),
    }
}

/// Statements, each with its semicolon, and the end of the module.
pub open spec fn body_marks(statements: Seq<Statement>) -> Seq<Mark>
    decreases statements.len(),
{
    if statements.len() == 0 {
        seq![term("endmodule"@)]
    } else {
        statement_marks(statements[0]) + (seq![sign(";"@)] + body_marks(statements.skip(1)))
    }
}

/// A module.
pub open spec fn module_marks(written: Written) -> Seq<Mark> {
    seq![term("module"@), term(written.name)] + (header_marks(written.header) + (seq![sign(";"@)]
        + body_marks(written.statements)))
}

/// The port has a free name and words of their kinds.
pub open spec fn port_sound(port: HeaderPort) -> bool {
    match port {
        HeaderPort::Plain { name } => free_name(name),
        HeaderPort::Typed { direction, kind, name, .. } => direction_word(direction) && (
        kind matches Some(k) ==> net_word(k)) && free_name(name),
    }
}

/// The module has a free name, and sound ports and statements.
pub open spec fn module_sound(written: Written) -> bool {
    &&& free_name(written.name)
    &&& written.header matches Some(ports) ==> forall|k: int|
        0 <= k < ports.len() ==> port_sound(#[trigger] ports[k])
    &&& forall|k: int|
        0 <= k < written.statements.len() ==> statement_sound(#[trigger] written.statements[k])
}

/// What a port of a header says; a name alone says nothing.
pub open spec fn port_parts(port: HeaderPort) -> Seq<Part> {
    match port {
        HeaderPort::Plain { .. } => seq![],
        HeaderPort::Typed { direction, range, name, .. } => seq![
            Part::Port { direction, range, name },
        ],
    }
}

spec fn ports_parts(ports: Seq<HeaderPort>) -> Seq<Part>
    decreases ports.len(),
{
    if ports.len() == 0 {
        seq![]
    } else {
        port_parts(ports[0]) + ports_parts(ports.skip(1))
    }
}

spec fn header_parts(header: Option<Seq<HeaderPort>>) -> Seq<Part> {
    match header {
        None => seq![],
        Some(ports) => ports_parts(ports),
    }
}

spec fn body_parts(statements: Seq<Statement>) -> Seq<Part>
    decreases statements.len(),
{
    if statements.len() == 0 {
        seq![]
    } else {
        statement_parts(statements[0]) + body_parts(statements.skip(1))
    }
}

spec fn module_parts(written: Written) -> Seq<Part> {
    seq![Part::Module { name: written.name }] + header_parts(written.header) + body_parts(
        written.statements,
    )
}

proof fn lemma_port_read(toks: Seq<TokenV>, i: int, port: HeaderPort) -> (events: Seq<Event>)
    requires
        port_sound(port),
        toks.len() <= usize::MAX,
        stands(toks, i, port_marks(port)),
    ensures
        port_at(toks, i) == Ok::<_, int>((events, i + port_marks(port).len())),
        all_say(toks, events, port_parts(port)),
        port_marks(port).len() > 0,
        !symbol_at(toks, i, ")"@),
{
    lemma_keywords();
    match port {
        HeaderPort::Plain { name } => {
            lemma_stands_one(toks, i, term(name));
            lemma_free_name(toks, i);
            assert(!direction_at(toks, i));
            assert(all_say(toks, Seq::<Event>::empty(), port_parts(port)));
            seq![]
        },
        HeaderPort::Typed { direction, kind, range, name } => {
            let front = seq![term(direction)] + kind_marks(kind) + range_marks(range);
            lemma_stands_parts(toks, i, front, seq![term(name)]);
            let j = i + front.len();
            lemma_stands_one(toks, j, term(name));
            lemma_free_name(toks, j);
            let head = lemma_head_read(toks, i, direction, kind, range);
            let event = declared(head, j);
            assert(front[0] == term(direction));
            assert(toks[i + 0].kind == TokenKind::Word);
            assert(says(toks, event, Part::Port { direction, range, name }));
            lemma_say_one(toks, event, Part::Port { direction, range, name });
            seq![event]
        },
    }
}

proof fn lemma_ports_read(toks: Seq<TokenV>, i: int, ports: Seq<HeaderPort>) -> (events: Seq<Event>)
    requires
        ports.len() > 0,
        forall|k: int| 0 <= k < ports.len() ==> port_sound(#[trigger] ports[k]),
        toks.len() <= usize::MAX,
        stands(toks, i, ports_marks(ports) + seq![sign(")"@)]),
    ensures
        ports_at(toks, i) == Ok::<_, int>((events, i + ports_marks(ports).len() + 1)),
        all_say(toks, events, ports_parts(ports)),
        !symbol_at(toks, i, ")"@),
    decreases ports.len(),
{
    lemma_signs();
    let marks = ports_marks(ports);
    let close = seq![sign(")"@)];
    lemma_stands_parts(toks, i, marks, close);
    lemma_stands_one(toks, i + marks.len(), sign(")"@));
    assert(symbol_at(toks, i + marks.len(), ")"@));
    let own = port_marks(ports[0]);
    let rest = ports.skip(1);
    assert(ports_parts(ports) == port_parts(ports[0]) + ports_parts(rest));
    if ports.len() == 1 {
        let events = lemma_port_read(toks, i, ports[0]);
        assert(rest =~= Seq::empty());
        assert(ports_parts(rest) =~= seq![]);
        assert(ports_parts(ports) =~= port_parts(ports[0]));
        events
    } else {
        let comma = seq![sign(","@)];
        lemma_stands_parts(toks, i, own + comma, ports_marks(rest));
        lemma_stands_parts(toks, i, own, comma);
        lemma_stands_one(toks, i + own.len(), sign(","@));
        let events = lemma_port_read(toks, i, ports[0]);
        let j = i + own.len() + 1;
        assert(i + (own + comma).len() == j);
        assert(stands(toks, j, ports_marks(rest) + close)) by {
            let tail = ports_marks(rest) + close;
            assert forall|k: int| 0 <= k < tail.len() implies toks[j + k].kind == (
            #[trigger] tail[k]).0 && toks[j + k].text == tail[k].1 by {
                if k < ports_marks(rest).len() {
                    assert(tail[k] == ports_marks(rest)[k]);
                } else {
                    assert(tail[k] == sign(")"@));
                    assert(j + k == i + marks.len());
                }
            }
        }
        let more = lemma_ports_read(toks, j, rest);
        assert(symbol_at(toks, j - 1, ","@));
        assert(!symbol_at(toks, j - 1, ")"@));
        assert(ports_at(toks, i) == Ok::<_, int>((events + more, i + marks.len() + 1)));
        lemma_say_both(toks, events, port_parts(ports[0]), more, ports_parts(rest));
        events + more
    }
}

proof fn lemma_header_read(toks: Seq<TokenV>, i: int, header: Option<Seq<HeaderPort>>) -> (events:
    Seq<Event>)
    requires
        header matches Some(ports) ==> forall|k: int|
            0 <= k < ports.len() ==> port_sound(#[trigger] ports[k]),
        toks.len() <= usize::MAX,
        stands(toks, i, header_marks(header)),
        header is None ==> !symbol_at(toks, i, "("@),
    ensures
        header_at(toks, i) == Ok::<_, int>((events, i + header_marks(header).len())),
        all_say(toks, events, header_parts(header)),
{
    match header {
        None => {
            assert(all_say(toks, Seq::<Event>::empty(), header_parts(header)));
            seq![]
        },
        Some(ports) => {
            let close = seq![sign(")"@)];
            let inner = ports_marks(ports);
            lemma_stands_parts(toks, i, seq![sign("("@)], inner + close);
            lemma_stands_one(toks, i, sign("("@));
            assert(symbol_at(toks, i, "("@));
            if ports.len() == 0 {
                assert(inner + close =~= close);
                lemma_stands_one(toks, i + 1, sign(")"@));
                assert(symbol_at(toks, i + 1, ")"@));
                assert(all_say(toks, Seq::<Event>::empty(), header_parts(header)));
                seq![]
            } else {
                lemma_ports_read(toks, i + 1, ports)
            }
        },
    }
}

proof fn lemma_body_read(toks: Seq<TokenV>, i: int, statements: Seq<Statement>) -> (events: Seq<
    Event,
>)
    requires
        forall|k: int| 0 <= k < statements.len() ==> statement_sound(#[trigger] statements[k]),
        toks.len() <= usize::MAX,
        stands(toks, i, body_marks(statements)),
    ensures
        statements_at(toks, i) == Ok::<_, int>((events, i + body_marks(statements).len())),
        all_say(toks, events, body_parts(statements)),
    decreases statements.len(),
{
    let marks = body_marks(statements);
    if statements.len() == 0 {
        lemma_stands_one(toks, i, term("endmodule"@));
        assert(word_at(toks, i, "endmodule"@));
        assert(all_say(toks, Seq::<Event>::empty(), body_parts(statements)));
        seq![]
    } else {
        let own = statement_marks(statements[0]);
        let stop = seq![sign(";"@)];
        let rest = statements.skip(1);
        lemma_stands_parts(toks, i, own, stop + body_marks(rest));
        let j = i + own.len();
        lemma_stands_parts(toks, j, stop, body_marks(rest));
        lemma_stands_one(toks, j, sign(";"@));
        assert(symbol_at(toks, j, ";"@));
        let events = lemma_statement_read(toks, i, statements[0]);
        let more = lemma_body_read(toks, j + 1, rest);
        assert(statements_at(toks, i) == Ok::<_, int>((events + more, i + marks.len())));
        lemma_say_both(toks, events, statement_parts(statements[0]), more, body_parts(rest));
        events + more
    }
}

proof fn lemma_module_events(toks: Seq<TokenV>, written: Written) -> (events: Seq<Event>)
    requires
        module_sound(written),
        toks.len() <= usize::MAX,
        toks.len() == module_marks(written).len(),
        stands(toks, 0, module_marks(written)),
    ensures
        file_at(toks, 0) == Ok::<_, int>(events),
        all_say(toks, events, module_parts(written)),
{
    let first = seq![term("module"@), term(written.name)];
    let header = header_marks(written.header);
    let stop = seq![sign(";"@)];
    let body = body_marks(written.statements);
    lemma_stands_parts(toks, 0, first, header + (stop + body));
    lemma_stands_parts(toks, 2, header, stop + body);
    let j = 2 + header.len() as int;
    lemma_stands_parts(toks, j, stop, body);
    lemma_stands_one(toks, j, sign(";"@));
    assert(first[0] == term("module"@) && first[1] == term(written.name));
    assert(toks[0int + 0].kind == TokenKind::Word && toks[0int + 0].text == "module"@);
    assert(toks[0int + 1].kind == TokenKind::Word && toks[0int + 1].text == written.name);
    lemma_free_name(toks, 1);
    assert(symbol_at(toks, j, ";"@));
    if written.header is None {
        reveal_strlit(";");
        reveal_strlit("(");
        assert(";"@[0] == ';' && "("@[0] == '(');
        assert(!symbol_at(toks, 2, "("@));
    }
    let ports = lemma_header_read(toks, 2, written.header);
    let statements = lemma_body_read(toks, j + 1, written.statements);
    let event = Event::Module { name: 1usize };
    assert(word_at(toks, 0, "module"@));
    assert(name_at(toks, 1));
    let events = seq![event] + ports + statements;
    let end = toks.len() as int;
    assert(j + 1 + body.len() == end);
    assert(module_at(toks, 0) == Ok::<_, int>((events, end)));
    assert(file_at(toks, end) == Ok::<Seq<Event>, int>(seq![]));
    assert(events + Seq::<Event>::empty() =~= events);
    assert(file_at(toks, 0) == Ok::<_, int>(events));
    lemma_say_one(toks, event, Part::Module { name: written.name });
    lemma_say_both(
        toks,
        seq![event],
        seq![Part::Module { name: written.name }],
        ports,
        header_parts(written.header),
    );
    lemma_say_both(
        toks,
        seq![event] + ports,
        seq![Part::Module { name: written.name }] + header_parts(written.header),
        statements,
        body_parts(written.statements),
    );
    events
}

/// The elements of a declared name: itself, or one for each index of the range, from the lower bound
/// up.
pub open spec fn elements(name: Seq<char>, range: Option<(usize, usize)>) -> Seq<Seq<char>> {
    match range {
        None => seq![name],
        Some((a, b)) => if a <= b {
            Seq::new((b - a + 1) as nat, |k: int| name + "["@ + decimal((a + k) as nat) + "]"@)
        } else {
            Seq::new((a - b + 1) as nat, |k: int| name + "["@ + decimal((b + k) as nat) + "]"@)
        },
    }
}

/// The row of names, with those of another row behind it that it lacks.
pub open spec fn extended(names: Seq<Seq<char>>, more: Seq<Seq<char>>) -> Seq<Seq<char>>
    decreases more.len(),
{
    if more.len() == 0 {
        names
    } else if names.contains(more[0]) {
        extended(names, more.skip(1))
    } else {
        extended(names.push(more[0]), more.skip(1))
    }
}

/// A module with declared ports of one name.
pub open spec fn port_added(
    module: ModuleV,
    direction: Seq<char>,
    range: Option<(usize, usize)>,
    name: Seq<char>,
) -> ModuleV {
    let new = elements(name, range);
    if direction == "input"@ {
        ModuleV { inputs: extended(module.inputs, new), ..module }
    } else if direction == "output"@ {
        ModuleV { outputs: extended(module.outputs, new), ..module }
    } else {
        ModuleV {
            inputs: extended(module.inputs, new),
            outputs: extended(module.outputs, new),
            ..module
        }
    }
}

/// A module with declared ports of several names.
pub open spec fn ports_added(
    module: ModuleV,
    direction: Seq<char>,
    range: Option<(usize, usize)>,
    names: Seq<Seq<char>>,
) -> ModuleV
    decreases names.len(),
{
    if names.len() == 0 {
        module
    } else {
        ports_added(
            port_added(module, direction, range, names[0]),
            direction,
            range,
            names.skip(1),
        )
    }
}

/// A module with wires of several names.
pub open spec fn wires_added(
    module: ModuleV,
    range: Option<(usize, usize)>,
    names: Seq<Seq<char>>,
) -> ModuleV
    decreases names.len(),
{
    if names.len() == 0 {
        module
    } else {
        wires_added(
            ModuleV { wires: extended(module.wires, elements(names[0], range)), ..module },
            range,
            names.skip(1),
        )
    }
}

/// What a value means.
pub open spec fn value_meant(value: Option<Source>) -> Option<NetExprV> {
    match value {
        None => None,
        Some(source) => Some(meant(source)),
    }
}

/// The values of ports, of the last link where a port has several.
pub open spec fn link_map(links: Seq<Link>) -> Map<Seq<char>, Option<NetExprV>>
    decreases links.len(),
{
    if links.len() == 0 {
        Map::empty()
    } else {
        link_map(links.drop_last()).insert(links.last().port, value_meant(links.last().value))
    }
}

/// A module with what a statement declares, assigns or places in it.
pub open spec fn with_statement(module: ModuleV, statement: Statement) -> ModuleV {
    match statement {
        Statement::Ports { direction, range, names, .. } => ports_added(
            module,
            direction,
            range,
            names,
        ),
        Statement::Nets { kind, range, names } => if kind == "reg"@ {
            module
        } else {
            wires_added(module, range, names)
        },
        Statement::Assign { lhs, rhs } => ModuleV {
            assignments: module.assignments.push(AssignV { lhs: meant(lhs), rhs: meant(rhs) }),
            ..module
        },
        Statement::Gate { cell, name, parameters, connections } => ModuleV {
            instances: module.instances.insert(
                name,
                InstanceV {
                    cell_type: cell,
                    name,
                    connections: link_map(connections),
                    parameters: match parameters {
                        None => Map::empty(),
                        Some(links) => link_map(links),
                    },
                },
            ),
            ..module
        },
    }
}

/// A module with what several statements put into it, one after the other.
pub open spec fn with_statements(module: ModuleV, statements: Seq<Statement>) -> ModuleV
    decreases statements.len(),
{
    if statements.len() == 0 {
        module
    } else {
        with_statements(with_statement(module, statements[0]), statements.skip(1))
    }
}

/// A module with the typed ports of its header.
pub open spec fn with_header(module: ModuleV, ports: Seq<HeaderPort>) -> ModuleV
    decreases ports.len(),
{
    if ports.len() == 0 {
        module
    } else {
        with_header(
            match ports[0] {
                HeaderPort::Plain { .. } => module,
                HeaderPort::Typed { direction, range, name, .. } => port_added(
                    module,
                    direction,
                    range,
                    name,
                ),
            },
            ports.skip(1),
        )
    }
}

/// The module that was written.
pub open spec fn module_meant(written: Written) -> ModuleV {
    let named = ModuleV {
        name: written.name,
        inputs: seq![],
        outputs: seq![],
        wires: seq![],
        instances: Map::empty(),
        assignments: seq![],
    };
    with_statements(
        match written.header {
            None => named,
            Some(ports) => with_header(named, ports),
        },
        written.statements,
    )
}

/// What a part makes of a module.
spec fn put(progress: Progress, part: Part) -> Progress {
    let module = progress.module;
    match part {
        Part::Module { name } => Progress { module: ModuleV { name, ..module }, ..progress },
        Part::Port { direction, range, name } => Progress {
            module: port_added(module, direction, range, name),
            ..progress
        },
        Part::Net { kind, range, name } => if kind == "reg"@ {
            progress
        } else {
            Progress {
                module: ModuleV {
                    wires: extended(module.wires, elements(name, range)),
                    ..module
                },
                ..progress
            }
        },
        Part::Assign { lhs, rhs } => Progress {
            module: ModuleV {
                assignments: module.assignments.push(AssignV { lhs: meant(lhs), rhs: meant(rhs) }),
                ..module
            },
            ..progress
        },
        Part::Gate { cell, name } => Progress {
            module: ModuleV {
                instances: module.instances.insert(
                    name,
                    InstanceV {
                        cell_type: cell,
                        name,
                        connections: Map::empty(),
                        parameters: Map::empty(),
                    },
                ),
                ..module
            },
            gate: name,
        },
        Part::Parameter { port, value } => {
            let gate = module.instances[progress.gate];
            Progress {
                module: ModuleV {
                    instances: module.instances.insert(
                        progress.gate,
                        InstanceV {
                            parameters: gate.parameters.insert(port, value_meant(value)),
                            ..gate
                        },
                    ),
                    ..module
                },
                ..progress
            }
        },
        Part::Connection { port, value } => {
            let gate = module.instances[progress.gate];
            Progress {
                module: ModuleV {
                    instances: module.instances.insert(
                        progress.gate,
                        InstanceV {
                            connections: gate.connections.insert(port, value_meant(value)),
                            ..gate
                        },
                    ),
                    ..module
                },
                ..progress
            }
        },
    }
}

/// What several parts make of a module.
spec fn put_all(progress: Progress, parts: Seq<Part>) -> Progress
    decreases parts.len(),
{
    if parts.len() == 0 {
        progress
    } else {
        put(put_all(progress, parts.drop_last()), parts.last())
    }
}

/// Words of a part are of their kinds, and a link has a gate.
spec fn part_fits(progress: Progress, part: Part) -> bool {
    match part {
        Part::Port { direction, .. } => direction_word(direction),
        Part::Net { kind, .. } => net_word(kind),
        Part::Parameter { .. } => progress.module.instances.contains_key(progress.gate),
        Part::Connection { .. } => progress.module.instances.contains_key(progress.gate),
        _ => true,
    }
}

proof fn lemma_put_both(progress: Progress, a: Seq<Part>, b: Seq<Part>)
    ensures
        put_all(progress, a + b) == put_all(put_all(progress, a), b),
    decreases b.len(),
{
    if b.len() == 0 {
        assert(a + b =~= a);
    } else {
        lemma_put_both(progress, a, b.drop_last());
        assert((a + b).drop_last() =~= a + b.drop_last());
        assert((a + b).last() == b.last());
    }
}

proof fn lemma_extended(names: Seq<Seq<char>>, more: Seq<Seq<char>>)
    ensures
        with_names(names, more) == extended(names, more),
    decreases more.len(),
{
    if more.len() > 0 {
        lemma_with_first(names, more);
        lemma_extended(with_name(names, more[0]), more.skip(1));
    }
}

proof fn lemma_with_first(names: Seq<Seq<char>>, more: Seq<Seq<char>>)
    requires
        more.len() > 0,
    ensures
        with_names(names, more) == with_names(with_name(names, more[0]), more.skip(1)),
    decreases more.len(),
{
    if more.len() == 1 {
        assert(more.drop_last() =~= Seq::empty());
        assert(more.skip(1) =~= Seq::empty());
        assert(with_names(names, more.drop_last()) == names);
        assert(with_names(with_name(names, more[0]), more.skip(1)) == with_name(names, more[0]));
    } else {
        lemma_with_first(names, more.drop_last());
        assert(more.drop_last().skip(1) =~= more.skip(1).drop_last());
        assert(more.skip(1).last() == more.last());
        assert(more.drop_last()[0] == more[0]);
    }
}

proof fn lemma_elements(name: Seq<char>, range: Option<(usize, usize)>)
    ensures
        scalars(name, range) == elements(name, range),
{
    assert(scalars(name, range) =~= elements(name, range));
}

proof fn lemma_range_value(toks: Seq<TokenV>, at: Option<(usize, usize)>, range: Option<(usize, usize)>)
    requires
        crate::netlist_statement_laws::range_says(toks, at, range),
    ensures
        range_value(toks, at) == Some(range),
{
    if let Some((a, b)) = range {
        lemma_digits_read(a as nat);
        lemma_digits_read(b as nat);
        assert(usize_value(decimal(a as nat)) == Some(a));
        assert(usize_value(decimal(b as nat)) == Some(b));
    }
}

proof fn lemma_part_put(toks: Seq<TokenV>, progress: Progress, event: Event, part: Part)
    requires
        says(toks, event, part),
        part_fits(progress, part),
    ensures
        after_event(toks, progress, event) == Ok::<_, NetlistErrorV>(put(progress, part)),
{
    let module = progress.module;
    match (event, part) {
        (
            Event::Port { range: at, .. },
            Part::Port { direction, range, name },
        ) => {
            lemma_range_value(toks, at, range);
            lemma_elements(name, range);
            lemma_extended(module.inputs, elements(name, range));
            lemma_extended(module.outputs, elements(name, range));
            reveal_strlit("input");
            reveal_strlit("output");
            reveal_strlit("inout");
            assert("input"@[0] == 'i' && "output"@[0] == 'o' && "inout"@[0] == 'i');
            assert("input"@[2] == 'p' && "inout"@[2] == 'o');
            assert(with_ports(module, direction, scalars(name, range)) == port_added(
                module,
                direction,
                range,
                name,
            ));
        },
        (Event::Net { range: at, .. }, Part::Net { kind, range, name }) => {
            lemma_range_value(toks, at, range);
            lemma_elements(name, range);
            lemma_extended(module.wires, elements(name, range));
            reveal_strlit("reg");
            reveal_strlit("wire");
            reveal_strlit("tri");
            reveal_strlit("supply0");
            reveal_strlit("supply1");
            assert("reg"@[0] == 'r' && "wire"@[0] == 'w' && "tri"@[0] == 't' && "supply0"@[0] == 's'
                && "supply1"@[0] == 's');
        },
        (Event::Parameter { value: at, .. }, Part::Parameter { value, .. }) => {
            assert(value_of(toks, at) == Ok::<_, NetlistErrorV>(value_meant(value)));
        },
        (Event::Connection { value: at, .. }, Part::Connection { value, .. }) => {
            assert(value_of(toks, at) == Ok::<_, NetlistErrorV>(value_meant(value)));
        },
        _ => {},
    }
}

/// Each part fits what the parts before it make.
spec fn all_fit(progress: Progress, parts: Seq<Part>) -> bool {
    forall|n: int|
        0 <= n < parts.len() ==> part_fits(put_all(progress, parts.take(n)), #[trigger] parts[n])
}

proof fn lemma_parts_put(toks: Seq<TokenV>, events: Seq<Event>, parts: Seq<Part>, n: nat)
    requires
        all_say(toks, events, parts),
        all_fit(Progress { module: empty_module(), gate: seq![] }, parts),
        n <= parts.len(),
    ensures
        after_events(toks, events, n) == Ok::<_, NetlistErrorV>(
            put_all(Progress { module: empty_module(), gate: seq![] }, parts.take(n as int)),
        ),
    decreases n,
{
    let start = Progress { module: empty_module(), gate: seq![] };
    if n > 0 {
        lemma_parts_put(toks, events, parts, (n - 1) as nat);
        let m = n - 1;
        let before = put_all(start, parts.take(m));
        assert(parts.take(n as int).drop_last() =~= parts.take(m));
        assert(parts.take(n as int).last() == parts[m]);
        assert(says(toks, events[m], parts[m]));
        assert(part_fits(before, parts[m]));
        lemma_part_put(toks, before, events[m], parts[m]);
    }
}

proof fn lemma_fit_both(progress: Progress, a: Seq<Part>, b: Seq<Part>)
    requires
        all_fit(progress, a),
        all_fit(put_all(progress, a), b),
    ensures
        all_fit(progress, a + b),
{
    let all = a + b;
    assert forall|n: int| 0 <= n < all.len() implies part_fits(
        put_all(progress, all.take(n)),
        #[trigger] all[n],
    ) by {
        if n < a.len() {
            assert(all.take(n) =~= a.take(n));
            assert(all[n] == a[n]);
        } else {
            let m = n - a.len();
            assert(all.take(n) =~= a + b.take(m));
            lemma_put_both(progress, a, b.take(m));
            assert(all[n] == b[m]);
        }
    }
}

proof fn lemma_ports_put(
    progress: Progress,
    direction: Seq<char>,
    range: Option<(usize, usize)>,
    names: Seq<Seq<char>>,
)
    requires
        direction_word(direction),
    ensures
        ({
            let parts = Seq::new(names.len(), |k: int| Part::Port { direction, range, name: names[k] });
            &&& all_fit(progress, parts)
            &&& put_all(progress, parts) == (Progress {
                module: ports_added(progress.module, direction, range, names),
                ..progress
            })
        }),
    decreases names.len(),
{
    let parts = Seq::new(names.len(), |k: int| Part::Port { direction, range, name: names[k] });
    if names.len() > 0 {
        let rest = names.skip(1);
        let more = Seq::new(rest.len(), |k: int| Part::Port { direction, range, name: rest[k] });
        let one = seq![parts[0]];
        assert(parts =~= one + more);
        assert(one.drop_last() =~= Seq::empty());
        let next = put(progress, parts[0]);
        assert(put_all(progress, one.drop_last()) == progress);
        assert(put_all(progress, one) == next);
        lemma_ports_put(next, direction, range, rest);
        lemma_put_both(progress, one, more);
    }
}

proof fn lemma_nets_put(
    progress: Progress,
    kind: Seq<char>,
    range: Option<(usize, usize)>,
    names: Seq<Seq<char>>,
)
    requires
        net_word(kind),
    ensures
        ({
            let parts = Seq::new(names.len(), |k: int| Part::Net { kind, range, name: names[k] });
            &&& all_fit(progress, parts)
            &&& put_all(progress, parts) == (Progress {
                module: if kind == "reg"@ {
                    progress.module
                } else {
                    wires_added(progress.module, range, names)
                },
                ..progress
            })
        }),
    decreases names.len(),
{
    let parts = Seq::new(names.len(), |k: int| Part::Net { kind, range, name: names[k] });
    if names.len() > 0 {
        let rest = names.skip(1);
        let more = Seq::new(rest.len(), |k: int| Part::Net { kind, range, name: rest[k] });
        let one = seq![parts[0]];
        assert(parts =~= one + more);
        assert(one.drop_last() =~= Seq::empty());
        let next = put(progress, parts[0]);
        assert(put_all(progress, one.drop_last()) == progress);
        assert(put_all(progress, one) == next);
        lemma_nets_put(next, kind, range, rest);
        lemma_put_both(progress, one, more);
    }
}

proof fn lemma_links_put(progress: Progress, links: Seq<Link>, is_parameter: bool)
    requires
        progress.module.instances.contains_key(progress.gate),
        is_parameter ==> progress.module.instances[progress.gate].parameters == Map::<
            Seq<char>,
            Option<NetExprV>,
        >::empty(),
        !is_parameter ==> progress.module.instances[progress.gate].connections == Map::<
            Seq<char>,
            Option<NetExprV>,
        >::empty(),
    ensures
        ({
            let parts = link_parts(links, is_parameter);
            let gate = progress.module.instances[progress.gate];
            let after = put_all(progress, parts);
            &&& all_fit(progress, parts)
            &&& after.gate == progress.gate
            &&& after.module == (ModuleV {
                instances: progress.module.instances.insert(
                    progress.gate,
                    if is_parameter {
                        InstanceV { parameters: link_map(links), ..gate }
                    } else {
                        InstanceV { connections: link_map(links), ..gate }
                    },
                ),
                ..progress.module
            })
        }),
    decreases links.len(),
{
    let parts = link_parts(links, is_parameter);
    let gate = progress.module.instances[progress.gate];
    if links.len() == 0 {
        assert(parts =~= Seq::empty());
        assert(progress.module.instances.insert(progress.gate, gate)
            =~= progress.module.instances);
    } else {
        let front = links.drop_last();
        lemma_links_put(progress, front, is_parameter);
        assert(parts.drop_last() =~= link_parts(front, is_parameter));
        let before = put_all(progress, link_parts(front, is_parameter));
        let after = put_all(progress, parts);
        assert(after == put(before, parts.last()));
        assert(after.module.instances =~= progress.module.instances.insert(
            progress.gate,
            if is_parameter {
                InstanceV { parameters: link_map(links), ..gate }
            } else {
                InstanceV { connections: link_map(links), ..gate }
            },
        ));
        assert forall|n: int| 0 <= n < parts.len() implies part_fits(
            put_all(progress, parts.take(n)),
            #[trigger] parts[n],
        ) by {
            assert(parts.take(n) =~= link_parts(front, is_parameter).take(n));
            if n == parts.len() - 1 {
                assert(link_parts(front, is_parameter).take(n) =~= link_parts(front, is_parameter));
            } else {
                assert(link_parts(front, is_parameter)[n] == parts[n]);
            }
        }
    }
}

proof fn lemma_gate_put(progress: Progress, statement: Statement)
    requires
        statement is Gate,
    ensures
        all_fit(progress, statement_parts(statement)),
        put_all(progress, statement_parts(statement)).module == with_statement(
            progress.module,
            statement,
        ),
{
    if let Statement::Gate { cell, name, parameters, connections } = statement {
        let one = seq![Part::Gate { cell, name }];
        let middle = match parameters {
            Some(links) => link_parts(links, true),
            None => seq![],
        };
        let tail = link_parts(connections, false);
        assert(one.drop_last() =~= Seq::empty());
        assert(put_all(progress, one.drop_last()) == progress);
        let placed = put_all(progress, one);
        assert(placed == put(progress, Part::Gate { cell, name }));
        assert(all_fit(progress, one));
        let with_parameters = put_all(placed, middle);
        match parameters {
            Some(links) => {
                lemma_links_put(placed, links, true);
            },
            None => {
                assert(put_all(placed, middle) == placed);
            },
        }
        lemma_fit_both(progress, one, middle);
        lemma_put_both(progress, one, middle);
        lemma_links_put(with_parameters, connections, false);
        lemma_fit_both(progress, one + middle, tail);
        lemma_put_both(progress, one + middle, tail);
        let after = put_all(progress, statement_parts(statement));
        assert(after.module.instances =~= with_statement(progress.module, statement).instances);
    }
}

proof fn lemma_statement_put(progress: Progress, statement: Statement)
    requires
        statement_sound(statement),
    ensures
        all_fit(progress, statement_parts(statement)),
        put_all(progress, statement_parts(statement)).module == with_statement(
            progress.module,
            statement,
        ),
{
    match statement {
        Statement::Ports { direction, range, names, .. } => {
            lemma_ports_put(progress, direction, range, names);
        },
        Statement::Nets { kind, range, names } => {
            lemma_nets_put(progress, kind, range, names);
        },
        Statement::Assign { lhs, rhs } => {
            let parts = statement_parts(statement);
            assert(parts.drop_last() =~= Seq::empty());
            assert(put_all(progress, parts.drop_last()) == progress);
        },
        Statement::Gate { .. } => {
            lemma_gate_put(progress, statement);
        },
    }
}

proof fn lemma_body_put(progress: Progress, statements: Seq<Statement>)
    requires
        forall|k: int| 0 <= k < statements.len() ==> statement_sound(#[trigger] statements[k]),
    ensures
        all_fit(progress, body_parts(statements)),
        put_all(progress, body_parts(statements)).module == with_statements(
            progress.module,
            statements,
        ),
    decreases statements.len(),
{
    if statements.len() > 0 {
        let first = statement_parts(statements[0]);
        let rest = statements.skip(1);
        lemma_statement_put(progress, statements[0]);
        let next = put_all(progress, first);
        lemma_body_put(next, rest);
        lemma_put_both(progress, first, body_parts(rest));
        lemma_fit_both(progress, first, body_parts(rest));
    }
}

proof fn lemma_header_put(progress: Progress, ports: Seq<HeaderPort>)
    requires
        forall|k: int| 0 <= k < ports.len() ==> port_sound(#[trigger] ports[k]),
    ensures
        all_fit(progress, ports_parts(ports)),
        put_all(progress, ports_parts(ports)) == (Progress {
            module: with_header(progress.module, ports),
            ..progress
        }),
    decreases ports.len(),
{
    if ports.len() > 0 {
        let first = port_parts(ports[0]);
        let rest = ports.skip(1);
        assert(port_sound(ports[0]));
        if ports[0] is Typed {
            assert(first.drop_last() =~= Seq::empty());
            assert(put_all(progress, first.drop_last()) == progress);
        }
        assert(all_fit(progress, first));
        let next = put_all(progress, first);
        lemma_header_put(next, rest);
        lemma_put_both(progress, first, ports_parts(rest));
        lemma_fit_both(progress, first, ports_parts(rest));
    }
}

proof fn lemma_one_module(toks: Seq<TokenV>, events: Seq<Event>, parts: Seq<Part>, n: nat)
    requires
        all_say(toks, events, parts),
        0 < n <= parts.len(),
        parts[0] is Module,
        forall|k: int| 0 < k < parts.len() ==> !(#[trigger] parts[k] is Module),
    ensures
        module_count(events, n) == 1,
    decreases n,
{
    assert(says(toks, events[n - 1], parts[n - 1]));
    if n == 1 {
        assert(module_count(events, 0) == 0);
    } else {
        lemma_one_module(toks, events, parts, (n - 1) as nat);
    }
}

proof fn lemma_later_parts(written: Written)
    ensures
        forall|k: int|
            0 <= k < header_parts(written.header).len() ==> !(#[trigger] header_parts(
                written.header,
            )[k] is Module),
        forall|k: int|
            0 <= k < body_parts(written.statements).len() ==> !(#[trigger] body_parts(
                written.statements,
            )[k] is Module),
{
    if let Some(ports) = written.header {
        lemma_port_parts(ports);
    }
    lemma_body_parts(written.statements);
}

proof fn lemma_port_parts(ports: Seq<HeaderPort>)
    ensures
        forall|k: int|
            0 <= k < ports_parts(ports).len() ==> !(#[trigger] ports_parts(ports)[k] is Module),
    decreases ports.len(),
{
    if ports.len() > 0 {
        lemma_port_parts(ports.skip(1));
    }
}

proof fn lemma_body_parts(statements: Seq<Statement>)
    ensures
        forall|k: int|
            0 <= k < body_parts(statements).len() ==> !(#[trigger] body_parts(statements)[k] is Module),
    decreases statements.len(),
{
    if statements.len() > 0 {
        lemma_body_parts(statements.skip(1));
        let first = statement_parts(statements[0]);
        assert forall|k: int| 0 <= k < first.len() implies !(#[trigger] first[k] is Module) by {}
    }
}

/// Tokens of a module are read as the module that was written.
pub proof fn lemma_module_read(toks: Seq<TokenV>, written: Written)
    requires
        module_sound(written),
        toks.len() <= usize::MAX,
        toks.len() == module_marks(written).len(),
        stands(toks, 0, module_marks(written)),
    ensures
        file_at(toks, 0) matches Ok(events) && {
            &&& module_count(events, events.len()) == 1
            &&& after_events(toks, events, events.len()) matches Ok(progress)
            &&& progress.module == module_meant(written)
        },
{
    let events = lemma_module_events(toks, written);
    let parts = module_parts(written);
    let start = Progress { module: empty_module(), gate: seq![] };
    let one = seq![Part::Module { name: written.name }];
    let header = header_parts(written.header);
    let body = body_parts(written.statements);
    assert(one.drop_last() =~= Seq::empty());
    assert(put_all(start, one.drop_last()) == start);
    let named = put_all(start, one);
    assert(named == put(start, Part::Module { name: written.name }));
    assert(all_fit(start, one));
    match written.header {
        Some(ports) => {
            lemma_header_put(named, ports);
        },
        None => {
            assert(put_all(named, header) == named);
        },
    }
    lemma_fit_both(start, one, header);
    lemma_put_both(start, one, header);
    let typed = put_all(named, header);
    lemma_body_put(typed, written.statements);
    lemma_fit_both(start, one + header, body);
    lemma_put_both(start, one + header, body);
    lemma_parts_put(toks, events, parts, parts.len());
    assert(parts.take(parts.len() as int) =~= parts);
    lemma_later_parts(written);
    assert(parts[0] is Module);
    assert forall|k: int| 0 < k < parts.len() implies !(#[trigger] parts[k] is Module) by {
        if k < 1 + header.len() {
            assert(parts[k] == header[k - 1]);
        } else {
            assert(parts[k] == body[k - 1 - header.len()]);
        }
    }
    lemma_one_module(toks, events, parts, parts.len());
}

} // verus!
