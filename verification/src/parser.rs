//! Structural netlists: one module of ports, nets, assignments and instances.
use vstd::prelude::*;
use vstd::string::*;

use crate::collections::{viewed, OrderedMap, Value};
use crate::expr_shape::{decimal, decimal_text};
use crate::netlist_grammar::{file_at, read_file, Event, ExprTree};
use crate::netlist_tokens::{
    bytes_before, numeral, scan, token_views, tokenize, tokens, tokens_from, Scan, Token, TokenV,
};
use crate::program_rewrite::digits_value;
use crate::text::chars_of;

verus! {

/// Why a text is no netlist.
#[derive(Debug, PartialEq, Eq)]
pub enum NetlistError {
    Parse(String),
    WrongModuleCount(usize),
    UnsupportedConcat { start: usize },
    UnsupportedPartSelect { start: usize },
    UnsupportedPositionalConnection { start: usize },
    Internal(&'static str),
}

/// The shape of an error.
pub enum NetlistErrorV {
    Parse(Seq<char>),
    WrongModuleCount(nat),
    UnsupportedConcat { start: int },
    UnsupportedPartSelect { start: int },
    UnsupportedPositionalConnection { start: int },
    Internal(Seq<char>),
}

impl View for NetlistError {
    type V = NetlistErrorV;

    open spec fn view(&self) -> NetlistErrorV {
        match *self {
            NetlistError::Parse(text) => NetlistErrorV::Parse(text@),
            NetlistError::WrongModuleCount(count) => NetlistErrorV::WrongModuleCount(count as nat),
            NetlistError::UnsupportedConcat { start } => NetlistErrorV::UnsupportedConcat {
                start: start as int,
            },
            NetlistError::UnsupportedPartSelect { start } => NetlistErrorV::UnsupportedPartSelect {
                start: start as int,
            },
            NetlistError::UnsupportedPositionalConnection { start } =>
                NetlistErrorV::UnsupportedPositionalConnection { start: start as int },
            NetlistError::Internal(text) => NetlistErrorV::Internal(text@),
        }
    }
}

/// The message of an error.
pub open spec fn error_message(error: NetlistErrorV) -> Seq<char> {
    match error {
        NetlistErrorV::Parse(text) => "parse error: "@ + text,
        NetlistErrorV::WrongModuleCount(count) => "expected exactly one module, found "@ + decimal(
            count,
        ),
        NetlistErrorV::UnsupportedConcat { start } =>
            "unsupported concatenation in expression near byte "@ + decimal(start as nat),
        NetlistErrorV::UnsupportedPartSelect { start } =>
            "unsupported slice / part-select in expression near byte "@ + decimal(start as nat),
        NetlistErrorV::UnsupportedPositionalConnection { start } =>
            "positional instance connections are not supported near byte "@ + decimal(
            start as nat,
        ),
        NetlistErrorV::Internal(text) => "internal parser error: "@ + text,
    }
}

impl NetlistError {
    /// The message of the error.
    pub fn message(&self) -> (r: String)
        ensures
            r@ == error_message(self@),
    {
        let mut text = String::new();
        match self {
            NetlistError::Parse(inner) => {
                text.append("parse error: ");
                text.append(inner.as_str());
            },
            NetlistError::WrongModuleCount(count) => {
                text.append("expected exactly one module, found ");
                text.append(decimal_text(*count as u128).as_str());
            },
            NetlistError::UnsupportedConcat { start } => {
                text.append("unsupported concatenation in expression near byte ");
                text.append(decimal_text(*start as u128).as_str());
            },
            NetlistError::UnsupportedPartSelect { start } => {
                text.append("unsupported slice / part-select in expression near byte ");
                text.append(decimal_text(*start as u128).as_str());
            },
            NetlistError::UnsupportedPositionalConnection { start } => {
                text.append("positional instance connections are not supported near byte ");
                text.append(decimal_text(*start as u128).as_str());
            },
            NetlistError::Internal(inner) => {
                text.append("internal parser error: ");
                text.append(inner);
            },
        }
        assert(text@ =~= error_message(self@));
        text
    }
}

/// An expression of a netlist.
#[derive(Debug, PartialEq, Eq, Hash)]
pub enum Expr {
    /// A scalar net reference.
    ///
    /// Examples:
    /// - "a"
    /// - "bus[3]"
    /// - "\\escaped.name[3]"
    Net(String),
    /// A Verilog constant.
    ///
    /// Examples:
    /// - "1'b0"
    /// - "32'hdead_beef"
    /// - "0"
    Const(String),
    Unary { op: String, rhs: Box<Expr> },
    Binary { lhs: Box<Expr>, op: String, rhs: Box<Expr> },
}

/// The shape of an expression.
pub enum NetExprV {
    Net(Seq<char>),
    Const(Seq<char>),
    Unary { op: Seq<char>, rhs: Box<NetExprV> },
    Binary { lhs: Box<NetExprV>, op: Seq<char>, rhs: Box<NetExprV> },
}

/// The shape of an expression.
pub open spec fn net_expr_view(expr: Expr) -> NetExprV
    decreases expr,
{
    match expr {
        Expr::Net(text) => NetExprV::Net(text@),
        Expr::Const(text) => NetExprV::Const(text@),
        Expr::Unary { op, rhs } => NetExprV::Unary { op: op@, rhs: Box::new(net_expr_view(*rhs)) },
        Expr::Binary { lhs, op, rhs } => NetExprV::Binary {
            lhs: Box::new(net_expr_view(*lhs)),
            op: op@,
            rhs: Box::new(net_expr_view(*rhs)),
        },
    }
}

impl View for Expr {
    type V = NetExprV;

    open spec fn view(&self) -> NetExprV {
        net_expr_view(*self)
    }
}

impl Expr {
    /// Reports whether two expressions are alike.
    pub fn same(&self, other: &Self) -> (r: bool)
        ensures
            r == (self@ == other@),
        decreases *self,
    {
        match (self, other) {
            (Expr::Net(a), Expr::Net(b)) => *a == *b,
            (Expr::Const(a), Expr::Const(b)) => *a == *b,
            (Expr::Unary { op, rhs }, Expr::Unary { op: op2, rhs: rhs2 }) => *op == *op2
                && rhs.same(rhs2),
            (
                Expr::Binary { lhs, op, rhs },
                Expr::Binary { lhs: lhs2, op: op2, rhs: rhs2 },
            ) => lhs.same(lhs2) && *op == *op2 && rhs.same(rhs2),
            _ => false,
        }
    }

    /// Copies an expression.
    pub fn copy(&self) -> (r: Self)
        ensures
            r@ == self@,
        decreases *self,
    {
        match self {
            Expr::Net(text) => Expr::Net(text.clone()),
            Expr::Const(text) => Expr::Const(text.clone()),
            Expr::Unary { op, rhs } => Expr::Unary { op: op.clone(), rhs: Box::new(rhs.copy()) },
            Expr::Binary { lhs, op, rhs } => Expr::Binary {
                lhs: Box::new(lhs.copy()),
                op: op.clone(),
                rhs: Box::new(rhs.copy()),
            },
        }
    }
}

impl Clone for Expr {
    fn clone(&self) -> (r: Self)
        ensures
            r@ == self@,
    {
        self.copy()
    }
}

/// What a port or a parameter is given: an expression, or nothing.
#[derive(Debug, PartialEq, Eq)]
pub struct Binding {
    pub value: Option<Expr>,
}

impl View for Binding {
    type V = Option<NetExprV>;

    open spec fn view(&self) -> Option<NetExprV> {
        match self.value {
            Some(expr) => Some(expr@),
            None => None,
        }
    }
}

impl Value for Binding {
    fn same(&self, other: &Self) -> (r: bool) {
        match (&self.value, &other.value) {
            (Some(a), Some(b)) => a.same(b),
            (None, None) => true,
            _ => false,
        }
    }

    fn duplicate(&self) -> (r: Self) {
        match &self.value {
            Some(expr) => Binding { value: Some(expr.copy()) },
            None => Binding { value: None },
        }
    }
}

/// A gate of a netlist.
#[derive(Debug, PartialEq)]
pub struct Instance {
    pub cell_type: String,
    pub name: String,
    pub connections: OrderedMap<Binding>,
    pub parameters: OrderedMap<Binding>,
}

/// The shape of a gate.
pub struct InstanceV {
    pub cell_type: Seq<char>,
    pub name: Seq<char>,
    pub connections: Map<Seq<char>, Option<NetExprV>>,
    pub parameters: Map<Seq<char>, Option<NetExprV>>,
}

impl View for Instance {
    type V = InstanceV;

    open spec fn view(&self) -> InstanceV {
        InstanceV {
            cell_type: self.cell_type@,
            name: self.name@,
            connections: self.connections@,
            parameters: self.parameters@,
        }
    }
}

impl Value for Instance {
    fn same(&self, other: &Self) -> (r: bool) {
        self.cell_type == other.cell_type && self.name == other.name && self.connections.same(
            &other.connections,
        ) && self.parameters.same(&other.parameters)
    }

    fn duplicate(&self) -> (r: Self) {
        Instance {
            cell_type: self.cell_type.clone(),
            name: self.name.clone(),
            connections: self.connections.duplicate(),
            parameters: self.parameters.duplicate(),
        }
    }
}

/// An assignment of a netlist.
#[derive(Debug, PartialEq, Eq)]
pub struct Assign {
    pub lhs: Expr,
    pub rhs: Expr,
}

/// The shape of an assignment.
pub struct AssignV {
    pub lhs: NetExprV,
    pub rhs: NetExprV,
}

impl View for Assign {
    type V = AssignV;

    open spec fn view(&self) -> AssignV {
        AssignV { lhs: self.lhs@, rhs: self.rhs@ }
    }
}

/// A module of a netlist.
#[derive(Debug, PartialEq)]
pub struct ModuleNetlist {
    pub name: String,
    pub inputs: Vec<String>,
    pub outputs: Vec<String>,
    pub wires: Vec<String>,
    pub instances: OrderedMap<Instance>,
    pub assignments: Vec<Assign>,
}

/// The shape of a module.
pub struct ModuleV {
    pub name: Seq<char>,
    pub inputs: Seq<Seq<char>>,
    pub outputs: Seq<Seq<char>>,
    pub wires: Seq<Seq<char>>,
    pub instances: Map<Seq<char>, InstanceV>,
    pub assignments: Seq<AssignV>,
}

impl View for ModuleNetlist {
    type V = ModuleV;

    open spec fn view(&self) -> ModuleV {
        ModuleV {
            name: self.name@,
            inputs: viewed(self.inputs@),
            outputs: viewed(self.outputs@),
            wires: viewed(self.wires@),
            instances: self.instances@,
            assignments: viewed(self.assignments@),
        }
    }
}

impl ModuleNetlist {
    /// All declared nets: the inputs, the outputs and the wires.
    pub fn all_declared_nets(&self) -> (r: Vec<String>)
        ensures
            viewed(r@) == self@.inputs + self@.outputs + self@.wires,
    {
        let mut nets: Vec<String> = crate::collections::duplicate_all(&self.inputs);
        let mut outputs = crate::collections::duplicate_all(&self.outputs);
        let mut wires = crate::collections::duplicate_all(&self.wires);
        nets.append(&mut outputs);
        nets.append(&mut wires);
        assert(viewed(nets@) =~= self@.inputs + self@.outputs + self@.wires);
        nets
    }
}

/// The text of a token; behind the last one there is none.
pub open spec fn text_at(toks: Seq<TokenV>, i: usize) -> Seq<char> {
    if i < toks.len() {
        toks[i as int].text
    } else {
        seq![]
    }
}

/// The byte at which a token starts.
pub open spec fn start_at(toks: Seq<TokenV>, i: usize) -> int {
    if i < toks.len() {
        toks[i as int].start
    } else {
        0
    }
}

/// The number that digits stand for, if it fits.
pub open spec fn usize_value(text: Seq<char>) -> Option<usize> {
    if text.len() > 0 && (forall|i: int| 0 <= i < text.len() ==> numeral(#[trigger] text[i]))
        && digits_value(text) <= usize::MAX {
        Some(digits_value(text) as usize)
    } else {
        None
    }
}

/// The bounds of a range, if they fit.
pub open spec fn range_value(toks: Seq<TokenV>, range: Option<(usize, usize)>) -> Option<
    Option<(usize, usize)>,
> {
    match range {
        None => Some(None),
        Some((msb, lsb)) => match (
            usize_value(text_at(toks, msb)),
            usize_value(text_at(toks, lsb)),
        ) {
            (Some(msb), Some(lsb)) => Some(Some((msb, lsb))),
            _ => None,
        },
    }
}

/// The scalar of a name at an index.
pub open spec fn indexed(name: Seq<char>, index: Seq<char>) -> Seq<char> {
    name + "["@ + index + "]"@
}

/// The scalars of a declared name: one for each index of its range, from the lowest up.
pub open spec fn scalars(name: Seq<char>, range: Option<(usize, usize)>) -> Seq<Seq<char>> {
    match range {
        None => seq![name],
        Some((msb, lsb)) => {
            let low = if msb <= lsb {
                msb
            } else {
                lsb
            };
            let high = if msb <= lsb {
                lsb
            } else {
                msb
            };
            Seq::new((high - low + 1) as nat, |k: int| indexed(name, decimal((low + k) as nat)))
        },
    }
}

/// The names with one more, unless it is there.
pub open spec fn with_name(names: Seq<Seq<char>>, name: Seq<char>) -> Seq<Seq<char>> {
    if names.contains(name) {
        names
    } else {
        names.push(name)
    }
}

/// The names with several more, each unless it is there.
pub open spec fn with_names(names: Seq<Seq<char>>, more: Seq<Seq<char>>) -> Seq<Seq<char>>
    decreases more.len(),
{
    if more.len() == 0 {
        names
    } else {
        with_name(with_names(names, more.drop_last()), more.last())
    }
}

/// The expression of a tree of tokens; concatenations and part-selects are not supported.
pub open spec fn expr_of(toks: Seq<TokenV>, tree: ExprTree) -> Result<NetExprV, NetlistErrorV>
    decreases tree,
{
    match tree {
        ExprTree::Concat { start } => Err(
            NetlistErrorV::UnsupportedConcat { start: start_at(toks, start) },
        ),
        ExprTree::PartSelect { start } => Err(
            NetlistErrorV::UnsupportedPartSelect { start: start_at(toks, start) },
        ),
        ExprTree::BitSelect { name, index } => Ok(
            NetExprV::Net(indexed(text_at(toks, name), text_at(toks, index))),
        ),
        ExprTree::Constant { token } => Ok(NetExprV::Const(text_at(toks, token))),
        ExprTree::Net { token } => Ok(NetExprV::Net(text_at(toks, token))),
        ExprTree::Unary { op, rhs } => match expr_of(toks, *rhs) {
            Ok(rhs) => Ok(NetExprV::Unary { op: text_at(toks, op), rhs: Box::new(rhs) }),
            Err(error) => Err(error),
        },
        ExprTree::Binary { lhs, op, rhs } => match expr_of(toks, *lhs) {
            Ok(lhs) => match expr_of(toks, *rhs) {
                Ok(rhs) => Ok(
                    NetExprV::Binary {
                        lhs: Box::new(lhs),
                        op: text_at(toks, op),
                        rhs: Box::new(rhs),
                    },
                ),
                Err(error) => Err(error),
            },
            Err(error) => Err(error),
        },
    }
}

/// The value of a port or a parameter.
pub open spec fn value_of(toks: Seq<TokenV>, value: Option<ExprTree>) -> Result<
    Option<NetExprV>,
    NetlistErrorV,
> {
    match value {
        None => Ok(None),
        Some(tree) => match expr_of(toks, tree) {
            Ok(expr) => Ok(Some(expr)),
            Err(error) => Err(error),
        },
    }
}

/// A module as far as it is read, and the instance that links belong to.
pub struct Progress {
    pub module: ModuleV,
    pub gate: Seq<char>,
}

/// The module with declared ports.
pub open spec fn with_ports(module: ModuleV, direction: Seq<char>, names: Seq<Seq<char>>) -> ModuleV {
    ModuleV {
        inputs: if direction == "input"@ || direction == "inout"@ {
            with_names(module.inputs, names)
        } else {
            module.inputs
        },
        outputs: if direction == "output"@ || direction == "inout"@ {
            with_names(module.outputs, names)
        } else {
            module.outputs
        },
        ..module
    }
}

/// The kind makes a wire.
pub open spec fn wire_kind(kind: Seq<char>) -> bool {
    kind == "wire"@ || kind == "tri"@ || kind == "supply0"@ || kind == "supply1"@
}

/// What an event makes of a module as far as it is read.
pub open spec fn after_event(toks: Seq<TokenV>, progress: Progress, event: Event) -> Result<
    Progress,
    NetlistErrorV,
> {
    let module = progress.module;
    match event {
        Event::Module { name } => Ok(
            Progress { module: ModuleV { name: text_at(toks, name), ..module }, ..progress },
        ),
        Event::Port { direction, range, name } => match range_value(toks, range) {
            None => Err(NetlistErrorV::Internal("bad range number"@)),
            Some(bounds) => Ok(
                Progress {
                    module: with_ports(
                        module,
                        text_at(toks, direction),
                        scalars(text_at(toks, name), bounds),
                    ),
                    ..progress
                },
            ),
        },
        Event::Net { kind, range, name } => match range_value(toks, range) {
            None => Err(NetlistErrorV::Internal("bad range number"@)),
            Some(bounds) => if wire_kind(text_at(toks, kind)) {
                Ok(
                    Progress {
                        module: ModuleV {
                            wires: with_names(
                                module.wires,
                                scalars(text_at(toks, name), bounds),
                            ),
                            ..module
                        },
                        ..progress
                    },
                )
            } else {
                Ok(progress)
            },
        },
        Event::Assign { lhs, rhs } => match expr_of(toks, lhs) {
            Err(error) => Err(error),
            Ok(lhs) => match expr_of(toks, rhs) {
                Err(error) => Err(error),
                Ok(rhs) => Ok(
                    Progress {
                        module: ModuleV {
                            assignments: module.assignments.push(AssignV { lhs, rhs }),
                            ..module
                        },
                        ..progress
                    },
                ),
            },
        },
        Event::Instance { cell_type, name } => Ok(
            Progress {
                module: ModuleV {
                    instances: module.instances.insert(
                        text_at(toks, name),
                        InstanceV {
                            cell_type: text_at(toks, cell_type),
                            name: text_at(toks, name),
                            connections: Map::empty(),
                            parameters: Map::empty(),
                        },
                    ),
                    ..module
                },
                gate: text_at(toks, name),
            },
        ),
        Event::Parameter { port, value } => match value_of(toks, value) {
            Err(error) => Err(error),
            Ok(value) => if !module.instances.contains_key(progress.gate) {
                Err(NetlistErrorV::Internal("link without an instance"@))
            } else {
                let gate = module.instances[progress.gate];
                Ok(
                    Progress {
                        module: ModuleV {
                            instances: module.instances.insert(
                                progress.gate,
                                InstanceV {
                                    parameters: gate.parameters.insert(
                                        text_at(toks, port),
                                        value,
                                    ),
                                    ..gate
                                },
                            ),
                            ..module
                        },
                        ..progress
                    },
                )
            },
        },
        Event::Connection { port, value } => match value_of(toks, value) {
            Err(error) => Err(error),
            Ok(value) => if !module.instances.contains_key(progress.gate) {
                Err(NetlistErrorV::Internal("link without an instance"@))
            } else {
                let gate = module.instances[progress.gate];
                Ok(
                    Progress {
                        module: ModuleV {
                            instances: module.instances.insert(
                                progress.gate,
                                InstanceV {
                                    connections: gate.connections.insert(
                                        text_at(toks, port),
                                        value,
                                    ),
                                    ..gate
                                },
                            ),
                            ..module
                        },
                        ..progress
                    },
                )
            },
        },
        Event::Positional { start } => Err(
            NetlistErrorV::UnsupportedPositionalConnection { start: start_at(toks, start) },
        ),
    }
}

/// A module with nothing in it.
pub open spec fn empty_module() -> ModuleV {
    ModuleV {
        name: seq![],
        inputs: seq![],
        outputs: seq![],
        wires: seq![],
        instances: Map::empty(),
        assignments: seq![],
    }
}

/// What the first `n` events make of an empty module, or the first error.
pub open spec fn after_events(toks: Seq<TokenV>, events: Seq<Event>, n: nat) -> Result<
    Progress,
    NetlistErrorV,
>
    decreases n,
{
    if n == 0 {
        Ok(Progress { module: empty_module(), gate: seq![] })
    } else {
        match after_events(toks, events, (n - 1) as nat) {
            Ok(progress) => after_event(toks, progress, events[n - 1]),
            Err(error) => Err(error),
        }
    }
}

/// How many modules start in the first `n` events.
pub open spec fn module_count(events: Seq<Event>, n: nat) -> nat
    decreases n,
{
    if n == 0 {
        0
    } else {
        module_count(events, (n - 1) as nat) + if events[n - 1] is Module {
            1nat
        } else {
            0nat
        }
    }
}

/// How many line feeds stand before `i`.
pub open spec fn lines_before(text: Seq<char>, i: int) -> nat
    decreases i,
{
    if i <= 0 {
        0
    } else {
        lines_before(text, i - 1) + if text[i - 1] == '\n' {
            1nat
        } else {
            0nat
        }
    }
}

/// How many characters stand before `i` in its line.
pub open spec fn chars_before(text: Seq<char>, i: int) -> nat
    decreases i,
{
    if i <= 0 || text[i - 1] == '\n' {
        0
    } else {
        chars_before(text, i - 1) + 1
    }
}

/// What does not fit a netlist, with its line and column.
pub open spec fn misfit(text: Seq<char>, what: Seq<char>, i: int) -> Seq<char> {
    what + " at line "@ + decimal(lines_before(text, i) + 1) + ", column "@ + decimal(
        chars_before(text, i) + 1,
    )
}

/// The events of a text, or what does not fit and where: the first token that cannot stand where
/// it stands, a character that starts no token, or the end of the text.
pub open spec fn events_of_text(text: Seq<char>) -> Result<Seq<Event>, Seq<char>> {
    let (toks, bad) = tokens(text);
    match (file_at(toks, 0), bad) {
        (Err(at), _) if 0 <= at < toks.len() => Err(
            misfit(text, "unexpected token"@, toks[at].place),
        ),
        (_, Some(place)) => Err(misfit(text, "unexpected character"@, place)),
        (Err(_), None) => Err(misfit(text, "unexpected end"@, text.len() as int)),
        (Ok(events), None) => Ok(events),
    }
}

/// The netlist of a text, or why it has none.
pub open spec fn netlist_of(text: Seq<char>) -> Result<ModuleV, NetlistErrorV> {
    match events_of_text(text) {
        Err(what) => Err(NetlistErrorV::Parse(what)),
        Ok(events) => if module_count(events, events.len()) != 1 {
            Err(NetlistErrorV::WrongModuleCount(module_count(events, events.len())))
        } else {
            match after_events(tokens(text).0, events, events.len()) {
                Ok(progress) => Ok(progress.module),
                Err(error) => Err(error),
            }
        },
    }
}

fn token_text(toks: &Vec<Token>, i: usize) -> (r: String)
    ensures
        r@ == text_at(token_views(toks@), i),
{
    if i < toks.len() {
        toks[i].text.clone()
    } else {
        String::new()
    }
}

fn token_start(toks: &Vec<Token>, i: usize) -> (r: usize)
    ensures
        r == start_at(token_views(toks@), i),
{
    if i < toks.len() {
        toks[i].start
    } else {
        0
    }
}

fn parse_usize(text: &String) -> (r: Option<usize>)
    ensures
        r == usize_value(text@),
{
    let chars = chars_of(text.as_str());
    if chars.len() == 0 {
        return None;
    }
    let mut value: Option<usize> = Some(0);
    let mut i: usize = 0;
    assert(text@.take(0) =~= Seq::empty());
    while i < chars.len()
        invariant
            chars@ == text@,
            i <= chars@.len(),
            forall|j: int| 0 <= j < i ==> numeral(#[trigger] text@[j]),
            match value {
                Some(found) => found == digits_value(text@.take(i as int)),
                None => digits_value(text@.take(i as int)) > usize::MAX,
            },
        decreases chars@.len() - i,
    {
        let c = chars[i];
        if !('0' <= c && c <= '9') {
            assert(!numeral(text@[i as int]));
            return None;
        }
        proof {
            assert(text@.take(i + 1).drop_last() =~= text@.take(i as int));
            assert(text@.take(i + 1).last() == c);
        }
        let step: usize = (c as u32 - '0' as u32) as usize;
        value = match value {
            Some(found) => match found.checked_mul(10) {
                Some(tenfold) => tenfold.checked_add(step),
                None => None,
            },
            None => None,
        };
        i += 1;
    }
    assert(text@.take(i as int) =~= text@);
    value
}

/// The bounds of a range.
#[derive(Debug, Clone, Copy, PartialEq, Eq, Structural)]
pub struct Range {
    pub msb: usize,
    pub lsb: usize,
}

/// The bounds of a range as a pair.
pub open spec fn bounds(range: Option<Range>) -> Option<(usize, usize)> {
    match range {
        Some(range) => Some((range.msb, range.lsb)),
        None => None,
    }
}

fn parse_range(toks: &Vec<Token>, range: &Option<(usize, usize)>) -> (r: Result<
    Option<Range>,
    NetlistError,
>)
    ensures
        match r {
            Ok(found) => range_value(token_views(toks@), *range) == Some(bounds(found)),
            Err(error) => range_value(token_views(toks@), *range) is None && error@
                == NetlistErrorV::Internal("bad range number"@),
        },
{
    match range {
        None => Ok(None),
        Some((msb, lsb)) => {
            let msb = parse_usize(&token_text(toks, *msb));
            let lsb = parse_usize(&token_text(toks, *lsb));
            match (msb, lsb) {
                (Some(msb), Some(lsb)) => Ok(Some(Range { msb, lsb })),
                _ => Err(NetlistError::Internal("bad range number")),
            }
        },
    }
}

fn index_name(name: &String, index: &String) -> (r: String)
    ensures
        r@ == indexed(name@, index@),
{
    let mut text = name.clone();
    text.append("[");
    text.append(index.as_str());
    text.append("]");
    text
}

/// The scalars of a declared name, from the lowest index up.
pub fn expand_decl_name(name: &String, range: Option<Range>) -> (r: Vec<String>)
    ensures
        viewed(r@) == scalars(name@, bounds(range)),
{
    let mut names: Vec<String> = Vec::new();
    match range {
        None => {
            names.push(name.clone());
            assert(viewed(names@) =~= seq![name@]);
            names
        },
        Some(range) => {
            let lo: usize = if range.msb <= range.lsb {
                range.msb
            } else {
                range.lsb
            };
            let hi: usize = if range.msb <= range.lsb {
                range.lsb
            } else {
                range.msb
            };
            let ghost wanted = scalars(name@, Some((range.msb, range.lsb)));
            let mut i: usize = lo;
            while i < hi
                invariant
                    lo <= i <= hi,
                    wanted == Seq::new(
                        (hi - lo + 1) as nat,
                        |k: int| indexed(name@, decimal((lo + k) as nat)),
                    ),
                    names@.len() == i - lo,
                    forall|k: int| 0 <= k < i - lo ==> (#[trigger] names@[k])@ == wanted[k],
                decreases hi - i,
            {
                names.push(index_name(name, &decimal_text(i as u128)));
                i += 1;
            }
            names.push(index_name(name, &decimal_text(i as u128)));
            assert(viewed(names@) =~= wanted);
            names
        },
    }
}

/// Adds a name unless it is there.
pub fn push_unique(v: &mut Vec<String>, name: String)
    ensures
        viewed(final(v)@) == with_name(viewed(old(v)@), name@),
{
    let ghost rows = viewed(v@);
    let mut i: usize = 0;
    while i < v.len()
        invariant
            rows == viewed(v@),
            v@ == old(v)@,
            i <= v@.len(),
            forall|j: int| 0 <= j < i ==> #[trigger] rows[j] != name@,
        decreases v@.len() - i,
    {
        assert(rows[i as int] == v@[i as int]@);
        if v[i] == name {
            assert(rows.contains(name@));
            return ;
        }
        i += 1;
    }
    assert(!rows.contains(name@));
    proof {
        crate::collections::lemma_viewed_push(v@, name);
    }
    v.push(name);
}

fn push_all_unique(v: &mut Vec<String>, names: &Vec<String>)
    ensures
        viewed(final(v)@) == with_names(viewed(old(v)@), viewed(names@)),
{
    let ghost before = viewed(v@);
    let ghost all = viewed(names@);
    let mut i: usize = 0;
    assert(all.take(0) =~= Seq::empty());
    while i < names.len()
        invariant
            all == viewed(names@),
            i <= all.len(),
            viewed(v@) == with_names(before, all.take(i as int)),
        decreases all.len() - i,
    {
        proof {
            assert(all.take(i + 1).drop_last() =~= all.take(i as int));
            assert(all.take(i + 1).last() == names@[i as int]@);
        }
        push_unique(v, names[i].clone());
        i += 1;
    }
    assert(all.take(i as int) =~= all);
}

/// Two outcomes agree.
spec fn agrees<A: View>(r: Result<A, NetlistError>, wanted: Result<A::V, NetlistErrorV>) -> bool {
    match r {
        Ok(found) => wanted is Ok && wanted->Ok_0 == found@,
        Err(error) => wanted is Err && wanted->Err_0 == error@,
    }
}

fn visit_expr(toks: &Vec<Token>, tree: &ExprTree) -> (r: Result<Expr, NetlistError>)
    ensures
        agrees(r, expr_of(token_views(toks@), *tree)),
    decreases *tree,
{
    match tree {
        ExprTree::Concat { start } => Err(
            NetlistError::UnsupportedConcat { start: token_start(toks, *start) },
        ),
        ExprTree::PartSelect { start } => Err(
            NetlistError::UnsupportedPartSelect { start: token_start(toks, *start) },
        ),
        ExprTree::BitSelect { name, index } => Ok(
            Expr::Net(index_name(&token_text(toks, *name), &token_text(toks, *index))),
        ),
        ExprTree::Constant { token } => Ok(Expr::Const(token_text(toks, *token))),
        ExprTree::Net { token } => Ok(Expr::Net(token_text(toks, *token))),
        ExprTree::Unary { op, rhs } => match visit_expr(toks, rhs) {
            Ok(rhs) => Ok(Expr::Unary { op: token_text(toks, *op), rhs: Box::new(rhs) }),
            Err(error) => Err(error),
        },
        ExprTree::Binary { lhs, op, rhs } => match visit_expr(toks, lhs) {
            Ok(lhs) => match visit_expr(toks, rhs) {
                Ok(rhs) => Ok(
                    Expr::Binary {
                        lhs: Box::new(lhs),
                        op: token_text(toks, *op),
                        rhs: Box::new(rhs),
                    },
                ),
                Err(error) => Err(error),
            },
            Err(error) => Err(error),
        },
    }
}

fn visit_value(toks: &Vec<Token>, value: &Option<ExprTree>) -> (r: Result<Binding, NetlistError>)
    ensures
        agrees(r, value_of(token_views(toks@), *value)),
{
    match value {
        None => Ok(Binding { value: None }),
        Some(tree) => match visit_expr(toks, tree) {
            Ok(expr) => Ok(Binding { value: Some(expr) }),
            Err(error) => Err(error),
        },
    }
}

/// Adds declared ports to a module.
fn visit_port_decl(
    toks: &Vec<Token>,
    module: &mut ModuleNetlist,
    direction: usize,
    range: &Option<(usize, usize)>,
    name: usize,
) -> (r: Result<(), NetlistError>)
    ensures
        match range_value(token_views(toks@), *range) {
            None => r is Err && r->Err_0@ == NetlistErrorV::Internal("bad range number"@),
            Some(found) => r is Ok && final(module)@ == with_ports(
                old(module)@,
                text_at(token_views(toks@), direction),
                scalars(text_at(token_views(toks@), name), found),
            ),
        },
{
    let range = match parse_range(toks, range) {
        Ok(range) => range,
        Err(error) => {
            return Err(error);
        },
    };
    let names = expand_decl_name(&token_text(toks, name), range);
    let dir = token_text(toks, direction);
    let both = dir == "inout".to_owned();
    if both || dir == "input".to_owned() {
        push_all_unique(&mut module.inputs, &names);
    }
    if both || dir == "output".to_owned() {
        push_all_unique(&mut module.outputs, &names);
    }
    Ok(())
}

/// Adds declared nets to a module.
fn visit_net_decl(
    toks: &Vec<Token>,
    module: &mut ModuleNetlist,
    kind: usize,
    range: &Option<(usize, usize)>,
    name: usize,
) -> (r: Result<(), NetlistError>)
    ensures
        match range_value(token_views(toks@), *range) {
            None => r is Err && r->Err_0@ == NetlistErrorV::Internal("bad range number"@),
            Some(found) => r is Ok && final(module)@ == if wire_kind(
                text_at(token_views(toks@), kind),
            ) {
                ModuleV {
                    wires: with_names(
                        old(module)@.wires,
                        scalars(text_at(token_views(toks@), name), found),
                    ),
                    ..old(module)@
                }
            } else {
                old(module)@
            },
        },
{
    let range = match parse_range(toks, range) {
        Ok(range) => range,
        Err(error) => {
            return Err(error);
        },
    };
    let kind = token_text(toks, kind);
    if kind == "wire".to_owned() || kind == "tri".to_owned() || kind == "supply0".to_owned() || kind
        == "supply1".to_owned() {
        let names = expand_decl_name(&token_text(toks, name), range);
        push_all_unique(&mut module.wires, &names);
    }
    Ok(())
}

/// Adds an assignment to a module.
fn visit_assign(
    toks: &Vec<Token>,
    module: &mut ModuleNetlist,
    lhs: &ExprTree,
    rhs: &ExprTree,
    gate: Ghost<Seq<char>>,
) -> (r: Result<(), NetlistError>)
    ensures
        ({
            let wanted = after_event(
                token_views(toks@),
                Progress { module: old(module)@, gate: gate@ },
                Event::Assign { lhs: *lhs, rhs: *rhs },
            );
            match r {
                Ok(_) => wanted == Ok::<Progress, NetlistErrorV>(
                    Progress { module: final(module)@, gate: gate@ },
                ),
                Err(error) => wanted == Err::<Progress, NetlistErrorV>(error@),
            }
        }),
{
    let lhs = match visit_expr(toks, lhs) {
        Ok(expr) => expr,
        Err(error) => {
            return Err(error);
        },
    };
    let rhs = match visit_expr(toks, rhs) {
        Ok(expr) => expr,
        Err(error) => {
            return Err(error);
        },
    };
    let assign = Assign { lhs, rhs };
    proof {
        crate::collections::lemma_viewed_push(module.assignments@, assign);
    }
    module.assignments.push(assign);
    Ok(())
}

/// Adds a connection or a parameter to a gate.
fn visit_link(
    toks: &Vec<Token>,
    module: &mut ModuleNetlist,
    gate: &String,
    is_parameter: bool,
    port: usize,
    value: &Option<ExprTree>,
) -> (r: Result<(), NetlistError>)
    ensures
        ({
            let wanted = after_event(
                token_views(toks@),
                Progress { module: old(module)@, gate: gate@ },
                if is_parameter {
                    Event::Parameter { port, value: *value }
                } else {
                    Event::Connection { port, value: *value }
                },
            );
            match r {
                Ok(_) => wanted == Ok::<Progress, NetlistErrorV>(
                    Progress { module: final(module)@, gate: gate@ },
                ),
                Err(error) => wanted == Err::<Progress, NetlistErrorV>(error@),
            }
        }),
{
    let binding = match visit_value(toks, value) {
        Ok(binding) => binding,
        Err(error) => {
            return Err(error);
        },
    };
    let mut updated = match module.instances.get(gate.as_str()) {
        Some(instance) => instance.duplicate(),
        None => {
            return Err(NetlistError::Internal("link without an instance"));
        },
    };
    if is_parameter {
        updated.parameters.insert(token_text(toks, port), binding);
    } else {
        updated.connections.insert(token_text(toks, port), binding);
    }
    module.instances.insert(gate.clone(), updated);
    Ok(())
}

/// Takes an event into a module; the instance that links belong to may change.
fn visit_event(toks: &Vec<Token>, module: &mut ModuleNetlist, gate: &mut String, event: &Event) -> (r:
    Result<(), NetlistError>)
    ensures
        ({
            let wanted = after_event(
                token_views(toks@),
                Progress { module: old(module)@, gate: old(gate)@ },
                *event,
            );
            match r {
                Ok(_) => wanted == Ok::<Progress, NetlistErrorV>(
                    Progress { module: final(module)@, gate: final(gate)@ },
                ),
                Err(error) => wanted == Err::<Progress, NetlistErrorV>(error@),
            }
        }),
{
    match event {
        Event::Module { name } => {
            module.name = token_text(toks, *name);
            Ok(())
        },
        Event::Port { direction, range, name } => visit_port_decl(
            toks,
            module,
            *direction,
            range,
            *name,
        ),
        Event::Net { kind, range, name } => visit_net_decl(toks, module, *kind, range, *name),
        Event::Assign { lhs, rhs } => visit_assign(toks, module, lhs, rhs, Ghost(gate@)),
        Event::Instance { cell_type, name } => {
            let instance = Instance {
                cell_type: token_text(toks, *cell_type),
                name: token_text(toks, *name),
                connections: OrderedMap::new(),
                parameters: OrderedMap::new(),
            };
            *gate = token_text(toks, *name);
            module.instances.insert(token_text(toks, *name), instance);
            Ok(())
        },
        Event::Parameter { port, value } => visit_link(toks, module, gate, true, *port, value),
        Event::Connection { port, value } => visit_link(toks, module, gate, false, *port, value),
        Event::Positional { start } => Err(
            NetlistError::UnsupportedPositionalConnection { start: token_start(toks, *start) },
        ),
    }
}

proof fn lemma_error_stays(toks: Seq<TokenV>, events: Seq<Event>, k: nat, n: nat)
    requires
        k <= n,
        after_events(toks, events, k) is Err,
    ensures
        after_events(toks, events, n) == after_events(toks, events, k),
    decreases n - k,
{
    if k < n {
        lemma_error_stays(toks, events, k + 1, n);
    }
}

fn count_modules(events: &Vec<Event>) -> (r: usize)
    ensures
        r == module_count(events@, events@.len()),
{
    let mut count: usize = 0;
    let mut i: usize = 0;
    while i < events.len()
        invariant
            i <= events@.len(),
            count <= i,
            count == module_count(events@, i as nat),
        decreases events@.len() - i,
    {
        if let Event::Module { .. } = &events[i] {
            count += 1;
        }
        i += 1;
    }
    count
}

/// The module that events describe, or the first error.
fn visit_module(toks: &Vec<Token>, events: &Vec<Event>) -> (r: Result<
    ModuleNetlist,
    NetlistError,
>)
    ensures
        match (r, after_events(token_views(toks@), events@, events@.len())) {
            (Ok(module), Ok(progress)) => module@ == progress.module,
            (Err(error), Err(wanted)) => error@ == wanted,
            _ => false,
        },
{
    let ghost views = token_views(toks@);
    let mut module = ModuleNetlist {
        name: String::new(),
        inputs: Vec::new(),
        outputs: Vec::new(),
        wires: Vec::new(),
        instances: OrderedMap::new(),
        assignments: Vec::new(),
    };
    let mut gate = String::new();
    let mut i: usize = 0;
    proof {
        assert(module@.inputs =~= seq![]);
        assert(module@.outputs =~= seq![]);
        assert(module@.wires =~= seq![]);
        assert(module@.assignments =~= seq![]);
        assert(module@.name =~= seq![]);
        assert(gate@ =~= seq![]);
    }
    while i < events.len()
        invariant
            views == token_views(toks@),
            i <= events@.len(),
            after_events(views, events@, i as nat) == Ok::<Progress, NetlistErrorV>(
                Progress { module: module@, gate: gate@ },
            ),
        decreases events@.len() - i,
    {
        match visit_event(toks, &mut module, &mut gate, &events[i]) {
            Ok(_) => {},
            Err(error) => {
                proof {
                    lemma_error_stays(views, events@, (i + 1) as nat, events@.len());
                }
                return Err(error);
            },
        }
        i += 1;
    }
    Ok(module)
}

proof fn lemma_tokens_bounded(text: Seq<char>, i: int)
    requires
        0 <= i <= text.len(),
    ensures
        tokens_from(text, i).0.len() <= text.len() - i,
        forall|k: int|
            0 <= k < tokens_from(text, i).0.len() ==> 0 <= (#[trigger] tokens_from(
                text,
                i,
            ).0[k]).place < text.len(),
    decreases text.len() - i,
{
    if i < text.len() {
        match scan(text, i) {
            Scan::Skip(end) => {
                if i < end <= text.len() {
                    lemma_tokens_bounded(text, end);
                }
            },
            Scan::Found(_, end) => {
                if i < end <= text.len() {
                    lemma_tokens_bounded(text, end);
                    let rest = tokens_from(text, end).0;
                    assert forall|k: int| 0 <= k < tokens_from(text, i).0.len() implies 0 <= (
                    #[trigger] tokens_from(text, i).0[k]).place < text.len() by {
                        if k > 0 {
                            assert(tokens_from(text, i).0[k] == rest[k - 1]);
                        }
                    }
                }
            },
            _ => {},
        }
    }
}

proof fn lemma_bytes_cover(text: Seq<char>, n: int)
    requires
        0 <= n,
    ensures
        n <= bytes_before(text, n),
    decreases n,
{
    if n > 0 {
        lemma_bytes_cover(text, n - 1);
    }
}

/// Says what does not fit, with its line and column.
fn misfit_text(chars: &Vec<char>, what: &str, place: usize) -> (r: String)
    requires
        place <= chars@.len(),
        chars@.len() < usize::MAX,
    ensures
        r@ == misfit(chars@, what@, place as int),
{
    let mut line: usize = 1;
    let mut column: usize = 1;
    let mut i: usize = 0;
    while i < place
        invariant
            i <= place <= chars@.len(),
            chars@.len() < usize::MAX,
            1 <= line <= i + 1,
            1 <= column <= i + 1,
            line == lines_before(chars@, i as int) + 1,
            column == chars_before(chars@, i as int) + 1,
        decreases place - i,
    {
        if chars[i] == '\n' {
            line += 1;
            column = 1;
        } else {
            column += 1;
        }
        i += 1;
    }
    let mut text = String::new();
    text.append(what);
    text.append(" at line ");
    text.append(decimal_text(line as u128).as_str());
    text.append(", column ");
    text.append(decimal_text(column as u128).as_str());
    assert(text@ =~= misfit(chars@, what@, place as int));
    text
}

/// Reads the netlist of a text.
pub fn parse_netlist(src: &str) -> (r: Result<ModuleNetlist, NetlistError>)
    requires
        bytes_before(src@, src@.len() as int) + 8 <= usize::MAX,
    ensures
        match (r, netlist_of(src@)) {
            (Ok(module), Ok(wanted)) => module@ == wanted,
            (Err(error), Err(wanted)) => error@ == wanted,
            _ => false,
        },
{
    let chars = chars_of(src);
    proof {
        lemma_tokens_bounded(src@, 0);
        lemma_bytes_cover(src@, src@.len() as int);
    }
    let (toks, bad) = tokenize(&chars);
    let outcome = read_file(&toks);
    if let Err(at) = &outcome {
        if *at < toks.len() {
            let place = toks[*at].place;
            assert(tokens(src@).0[*at as int] == toks@[*at as int]@);
            return Err(NetlistError::Parse(misfit_text(&chars, "unexpected token", place)));
        }
    }
    if let Some(place) = bad {
        return Err(NetlistError::Parse(misfit_text(&chars, "unexpected character", place)));
    }
    match outcome {
        Err(_) => Err(NetlistError::Parse(misfit_text(&chars, "unexpected end", chars.len()))),
        Ok(events) => {
            let count = count_modules(&events);
            if count != 1 {
                return Err(NetlistError::WrongModuleCount(count));
            }
            visit_module(&toks, &events)
        },
    }
}

} // verus!
