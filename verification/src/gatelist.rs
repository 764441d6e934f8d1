//! Netlist text with unused gates commented out and constant outputs assigned.
use vstd::prelude::*;
use vstd::string::*;

use crate::bit::Bit;
use crate::collections::OrderedSet;
use crate::text::{char_rows, chars_of, lines, lines_of, slice_chars, text_of};

verus! {

/// A wire that a removed gate drove, and the constant that it now has.
#[derive(Debug, Clone, PartialEq, Eq)]
pub struct GateOutputAssignment {
    pub wire_name: String,
    pub value: Bit,
}

/// White space.
pub open spec fn white(c: char) -> bool {
    let code = c as u32;
    ||| 0x9 <= code <= 0xd
    ||| code == 0x20
    ||| code == 0x85
    ||| code == 0xa0
    ||| code == 0x1680
    ||| 0x2000 <= code <= 0x200a
    ||| code == 0x2028
    ||| code == 0x2029
    ||| code == 0x202f
    ||| code == 0x205f
    ||| code == 0x3000
}

/// Where the text before `n` ends once white space is left off.
pub open spec fn trimmed_end(text: Seq<char>, n: int) -> int
    decreases n,
{
    if n <= 0 {
        0
    } else if white(text[n - 1]) {
        trimmed_end(text, n - 1)
    } else {
        n
    }
}

/// Where the text from `i` on starts once white space is left off.
pub open spec fn trimmed_start(text: Seq<char>, i: int) -> int
    decreases text.len() - i,
{
    if i < 0 || i >= text.len() {
        text.len() as int
    } else if white(text[i]) {
        trimmed_start(text, i + 1)
    } else {
        i
    }
}

/// Where the word before `n` starts.
pub open spec fn word_start(text: Seq<char>, n: int) -> int
    decreases n,
{
    if n <= 0 {
        0
    } else if white(text[n - 1]) {
        n
    } else {
        word_start(text, n - 1)
    }
}

/// The first opening bracket from `i` on.
pub open spec fn bracket_at(line: Seq<char>, i: int) -> Option<int>
    decreases line.len() - i,
{
    if i < 0 || i >= line.len() {
        None
    } else if line[i] == '(' {
        Some(i)
    } else {
        bracket_at(line, i + 1)
    }
}

/// The last word before the first bracket, if it is not the only one.
pub open spec fn instance_name(line: Seq<char>) -> Option<Seq<char>> {
    match bracket_at(line, 0) {
        None => None,
        Some(bracket) => {
            let end = trimmed_end(line, bracket);
            let start = word_start(line, end);
            if trimmed_end(line, start) > 0 {
                Some(line.subrange(start, end))
            } else {
                None
            }
        },
    }
}

/// The line ends a statement.
pub open spec fn ends_statement(line: Seq<char>) -> bool {
    let end = trimmed_end(line, line.len() as int);
    end > 0 && line[end - 1] == ';'
}

/// A gate that is to be commented out starts on the line.
pub open spec fn starts_gate(line: Seq<char>, gates: Set<Seq<char>>) -> bool {
    instance_name(line) matches Some(name) && gates.contains(name)
}

/// The statement that is open behind the first `n` lines belongs to a gate commented out.
pub open spec fn commenting(rows: Seq<Seq<char>>, gates: Set<Seq<char>>, n: nat) -> bool
    decreases n, 0nat,
{
    n > 0 && comments(rows, gates, (n - 1) as nat) && !ends_statement(rows[n - 1])
}

/// The line after the first `n` is commented out.
pub open spec fn comments(rows: Seq<Seq<char>>, gates: Set<Seq<char>>, n: nat) -> bool
    decreases n, 1nat,
{
    commenting(rows, gates, n) || starts_gate(rows[n as int], gates)
}

/// The lines with those of unused gates commented out.
pub open spec fn commented_lines(rows: Seq<Seq<char>>, gates: Set<Seq<char>>) -> Seq<Seq<char>> {
    Seq::new(
        rows.len(),
        |i: int|
            if comments(rows, gates, i as nat) {
                "//"@ + rows[i]
            } else {
                rows[i]
            },
    )
}

/// How many gates start on the first `n` lines and are commented out.
pub open spec fn gate_count(rows: Seq<Seq<char>>, gates: Set<Seq<char>>, n: nat) -> nat
    decreases n,
{
    if n == 0 {
        0
    } else {
        gate_count(rows, gates, (n - 1) as nat) + if !commenting(rows, gates, (n - 1) as nat)
            && starts_gate(rows[n - 1], gates) {
            1nat
        } else {
            0nat
        }
    }
}

/// The constant of a definite bit.
pub open spec fn verilog_const(bit: Bit) -> Seq<char> {
    if bit == Bit::High {
        "1'b1"@
    } else {
        "1'b0"@
    }
}

/// The statement that assigns a constant to a wire.
pub open spec fn assign_statement(assignment: GateOutputAssignment) -> Seq<char> {
    "  assign "@ + assignment.wire_name@ + " = "@ + verilog_const(assignment.value) + ";"@
}

/// The statements of several assignments.
pub open spec fn assign_statements(assignments: Seq<GateOutputAssignment>) -> Seq<Seq<char>> {
    Seq::new(assignments.len(), |i: int| assign_statement(assignments[i]))
}

/// The line is the end of a module.
pub open spec fn ends_module(line: Seq<char>) -> bool {
    let start = trimmed_start(line, 0);
    let end = trimmed_end(line, line.len() as int);
    start < end && line.subrange(start, end) == "endmodule"@
}

/// The last line before `n` that ends a module.
pub open spec fn module_end(rows: Seq<Seq<char>>, n: int) -> Option<int>
    decreases n,
{
    if n <= 0 {
        None
    } else if ends_module(rows[n - 1]) {
        Some(n - 1)
    } else {
        module_end(rows, n - 1)
    }
}

/// The lines with assignments before the end of the module.
pub open spec fn with_assignments(
    rows: Seq<Seq<char>>,
    assignments: Seq<GateOutputAssignment>,
) -> Seq<Seq<char>> {
    match module_end(rows, rows.len() as int) {
        Some(at) => if assignments.len() == 0 {
            rows
        } else {
            rows.take(at) + assign_statements(assignments) + rows.skip(at)
        },
        None => rows,
    }
}

/// The lines as a text, with line feeds between them.
pub open spec fn joined(rows: Seq<Seq<char>>) -> Seq<char>
    decreases rows.len(),
{
    if rows.len() == 0 {
        seq![]
    } else if rows.len() == 1 {
        rows[0]
    } else {
        joined(rows.drop_last()) + "\n"@ + rows.last()
    }
}

/// The netlist with unused gates commented out and constants assigned.
pub open spec fn gatelist_text(
    verilog: Seq<char>,
    gates: Set<Seq<char>>,
    assignments: Seq<GateOutputAssignment>,
) -> Seq<char> {
    joined(with_assignments(commented_lines(lines(verilog), gates), assignments)) + "\n"@
}

/// Where no gate is unused the lines stay as they are.
pub proof fn lemma_no_gates(rows: Seq<Seq<char>>)
    ensures
        commented_lines(rows, Set::empty()) == rows,
        gate_count(rows, Set::empty(), rows.len()) == 0,
{
    assert forall|n: nat| !#[trigger] comments(rows, Set::empty(), n) by {
        lemma_nothing_commented(rows, n);
    }
    assert(commented_lines(rows, Set::empty()) =~= rows);
    lemma_nothing_counted(rows, rows.len());
}

proof fn lemma_nothing_commented(rows: Seq<Seq<char>>, n: nat)
    ensures
        !commenting(rows, Set::empty(), n),
        !comments(rows, Set::empty(), n),
    decreases n,
{
    if n > 0 {
        lemma_nothing_commented(rows, (n - 1) as nat);
    }
}

proof fn lemma_nothing_counted(rows: Seq<Seq<char>>, n: nat)
    ensures
        gate_count(rows, Set::empty(), n) == 0,
    decreases n,
{
    if n > 0 {
        lemma_nothing_counted(rows, (n - 1) as nat);
    }
}

/// Reports whether a character is white space.
pub(crate) fn is_white(c: char) -> (r: bool)
    ensures
        r == white(c),
{
    let code: u32 = c as u32;
    (0x9 <= code && code <= 0xd) || code == 0x20 || code == 0x85 || code == 0xa0 || code == 0x1680
        || (0x2000 <= code && code <= 0x200a) || code == 0x2028 || code == 0x2029 || code == 0x202f
        || code == 0x205f || code == 0x3000
}

fn find_trimmed_end(text: &Vec<char>, n: usize) -> (r: usize)
    requires
        n <= text@.len(),
    ensures
        r == trimmed_end(text@, n as int),
        r <= n,
{
    let mut end: usize = n;
    while end > 0 && is_white(text[end - 1])
        invariant
            end <= n <= text@.len(),
            trimmed_end(text@, n as int) == trimmed_end(text@, end as int),
        decreases end,
    {
        end -= 1;
    }
    end
}

fn find_trimmed_start(text: &Vec<char>) -> (r: usize)
    ensures
        r == trimmed_start(text@, 0),
        r <= text@.len(),
{
    let mut start: usize = 0;
    while start < text.len() && is_white(text[start])
        invariant
            start <= text@.len(),
            trimmed_start(text@, 0) == trimmed_start(text@, start as int),
        decreases text@.len() - start,
    {
        start += 1;
    }
    start
}

fn find_word_start(text: &Vec<char>, n: usize) -> (r: usize)
    requires
        n <= text@.len(),
    ensures
        r == word_start(text@, n as int),
        r <= n,
{
    let mut start: usize = n;
    while start > 0 && !is_white(text[start - 1])
        invariant
            start <= n <= text@.len(),
            word_start(text@, n as int) == word_start(text@, start as int),
        decreases start,
    {
        start -= 1;
    }
    start
}

/// The name of the instance that starts on a line.
pub fn instance_name_on_line(line: &Vec<char>) -> (r: Option<String>)
    ensures
        match r {
            Some(name) => instance_name(line@) == Some(name@),
            None => instance_name(line@) is None,
        },
{
    let mut bracket: usize = 0;
    while bracket < line.len() && line[bracket] != '('
        invariant
            bracket <= line@.len(),
            bracket_at(line@, 0) == bracket_at(line@, bracket as int),
        decreases line@.len() - bracket,
    {
        bracket += 1;
    }
    if bracket == line.len() {
        return None;
    }
    let end = find_trimmed_end(line, bracket);
    let start = find_word_start(line, end);
    if find_trimmed_end(line, start) == 0 {
        return None;
    }
    Some(text_of(&slice_chars(line, start, end)))
}

/// The constant of a definite bit.
pub fn bit_to_verilog_const(bit: Bit) -> (r: &'static str)
    requires
        bit.concrete(),
    ensures
        r@ == verilog_const(bit),
{
    if bit == Bit::High {
        "1'b1"
    } else {
        "1'b0"
    }
}

fn is_statement_end(line: &Vec<char>) -> (r: bool)
    ensures
        r == ends_statement(line@),
{
    let end = find_trimmed_end(line, line.len());
    end > 0 && line[end - 1] == ';'
}

/// Comments a line out.
fn comment_line(line: &Vec<char>) -> (r: Vec<char>)
    ensures
        r@ == "//"@ + line@,
{
    let mut text = "//".to_owned();
    text.append(text_of(line).as_str());
    chars_of(text.as_str())
}

/// Comments the lines of unused gates out; also counts the gates.
fn comment_gates(rows: &Vec<Vec<char>>, gates: &OrderedSet<String>) -> (r: (Vec<Vec<char>>, usize))
    ensures
        char_rows(r.0@) == commented_lines(char_rows(rows@), gates@),
        r.1 == gate_count(char_rows(rows@), gates@, rows@.len()),
{
    let ghost all = char_rows(rows@);
    let ghost wanted = commented_lines(all, gates@);
    let mut optimized_lines: Vec<Vec<char>> = Vec::new();
    let mut commented_gate_count: usize = 0;
    let mut comment_current_instance = false;
    let mut i: usize = 0;
    while i < rows.len()
        invariant
            all == char_rows(rows@),
            wanted == commented_lines(all, gates@),
            i <= rows@.len(),
            optimized_lines@.len() == i,
            forall|j: int| 0 <= j < i ==> (#[trigger] optimized_lines@[j])@ == wanted[j],
            commented_gate_count <= i,
            commented_gate_count == gate_count(all, gates@, i as nat),
            comment_current_instance == commenting(all, gates@, i as nat),
        decreases rows@.len() - i,
    {
        let line = &rows[i];
        assert(all[i as int] == line@);
        let starts_unused_instance = !comment_current_instance && match instance_name_on_line(
            line,
        ) {
            Some(name) => gates.contains(&name),
            None => false,
        };
        if comment_current_instance || starts_unused_instance {
            optimized_lines.push(comment_line(line));
            if starts_unused_instance {
                commented_gate_count += 1;
            }
            comment_current_instance = !is_statement_end(line);
        } else {
            optimized_lines.push(slice_chars(line, 0, line.len()));
            assert(line@.subrange(0, line@.len() as int) =~= line@);
        }
        i += 1;
    }
    assert(char_rows(optimized_lines@) =~= wanted);
    (optimized_lines, commented_gate_count)
}

/// Reports whether a line is the end of a module.
fn is_module_end(line: &Vec<char>) -> (r: bool)
    ensures
        r == ends_module(line@),
{
    let start = find_trimmed_start(line);
    let end = find_trimmed_end(line, line.len());
    if start >= end {
        return false;
    }
    text_of(&slice_chars(line, start, end)) == "endmodule".to_owned()
}

/// Appends copies of rows to rows.
fn append_rows(rows: &mut Vec<Vec<char>>, more: &Vec<Vec<char>>, from: usize, to: usize)
    requires
        from <= to <= more@.len(),
    ensures
        char_rows(final(rows)@) == char_rows(old(rows)@) + char_rows(more@).subrange(
            from as int,
            to as int,
        ),
{
    let ghost before = char_rows(rows@);
    let ghost all = char_rows(more@);
    let mut i: usize = from;
    assert(char_rows(rows@) =~= before + all.subrange(from as int, from as int));
    while i < to
        invariant
            from <= i <= to <= more@.len(),
            all == char_rows(more@),
            char_rows(rows@) == before + all.subrange(from as int, i as int),
        decreases to - i,
    {
        let ghost now = rows@;
        let copy = slice_chars(&more[i], 0, more[i].len());
        assert(copy@ =~= all[i as int]);
        rows.push(copy);
        assert(char_rows(rows@) =~= char_rows(now).push(all[i as int]));
        assert(char_rows(rows@) =~= before + all.subrange(from as int, i + 1));
        i += 1;
    }
}

/// The statement that assigns a constant to a wire.
fn assignment_line(assignment: &GateOutputAssignment) -> (r: Vec<char>)
    requires
        assignment.value.concrete(),
    ensures
        r@ == assign_statement(*assignment),
{
    let mut text = "  assign ".to_owned();
    text.append(assignment.wire_name.as_str());
    text.append(" = ");
    text.append(bit_to_verilog_const(assignment.value));
    text.append(";");
    chars_of(text.as_str())
}

/// Puts assignments before the end of the module.
fn insert_assignments(rows: &Vec<Vec<char>>, assignments: &Vec<GateOutputAssignment>) -> (r: Vec<
    Vec<char>,
>)
    requires
        assignments@.len() > 0 ==> module_end(char_rows(rows@), rows@.len() as int) is Some,
        forall|i: int|
            0 <= i < assignments@.len() ==> (#[trigger] assignments@[i]).value.concrete(),
    ensures
        char_rows(r@) == with_assignments(char_rows(rows@), assignments@),
{
    let ghost all = char_rows(rows@);
    let mut at: usize = rows.len();
    while at > 0 && !is_module_end(&rows[at - 1])
        invariant
            all == char_rows(rows@),
            at <= rows@.len(),
            module_end(all, rows@.len() as int) == module_end(all, at as int),
        decreases at,
    {
        assert(all[at - 1] == rows@[at - 1]@);
        at -= 1;
    }
    let mut result: Vec<Vec<char>> = Vec::new();
    assert(char_rows(result@) =~= seq![]);
    if assignments.len() == 0 || at == 0 {
        append_rows(&mut result, rows, 0, rows.len());
        assert(seq![] + all.subrange(0, all.len() as int) =~= all);
        return result;
    }
    assert(all[at - 1] == rows@[at - 1]@);
    let end = at - 1;
    append_rows(&mut result, rows, 0, end);
    assert(char_rows(result@) =~= all.take(end as int));
    let ghost statements = assign_statements(assignments@);
    let mut i: usize = 0;
    assert(char_rows(result@) =~= all.take(end as int) + statements.take(0));
    while i < assignments.len()
        invariant
            statements == assign_statements(assignments@),
            i <= assignments@.len(),
            forall|i: int|
                0 <= i < assignments@.len() ==> (#[trigger] assignments@[i]).value.concrete(),
            char_rows(result@) == all.take(end as int) + statements.take(i as int),
        decreases assignments@.len() - i,
    {
        let ghost now = result@;
        assert(assignments@[i as int].value.concrete());
        let line = assignment_line(&assignments[i]);
        let ghost added = line@;
        result.push(line);
        assert(char_rows(result@) =~= char_rows(now).push(added));
        assert(char_rows(result@) =~= all.take(end as int) + statements.take(i + 1));
        i += 1;
    }
    assert(statements.take(i as int) =~= statements);
    append_rows(&mut result, rows, end, rows.len());
    assert(all.subrange(end as int, all.len() as int) =~= all.skip(end as int));
    result
}

/// Joins lines with line feeds.
fn join_lines(rows: &Vec<Vec<char>>) -> (r: String)
    ensures
        r@ == joined(char_rows(rows@)),
{
    let ghost all = char_rows(rows@);
    let mut text = String::new();
    let mut i: usize = 0;
    assert(text@ =~= joined(all.take(0)));
    while i < rows.len()
        invariant
            all == char_rows(rows@),
            i <= rows@.len(),
            text@ == joined(all.take(i as int)),
        decreases rows@.len() - i,
    {
        proof {
            assert(all.take(i + 1).drop_last() =~= all.take(i as int));
            assert(all.take(i + 1).last() == rows@[i as int]@);
            assert(all.take(i + 1)[0] == all[0]);
        }
        if i > 0 {
            text.append("\n");
        }
        text.append(text_of(&rows[i]).as_str());
        proof {
            if i == 0 {
                assert(text@ =~= all[0]);
            }
        }
        i += 1;
    }
    assert(all.take(i as int) =~= all);
    text
}

/// A copy of a netlist with unused gate instances commented out and constant output assignments
/// inserted before `endmodule`, and how many gates were commented out.
pub fn commented_gatelist(
    verilog: &str,
    gates_to_comment: &OrderedSet<String>,
    assignments: &Vec<GateOutputAssignment>,
) -> (r: (String, usize))
    requires
        forall|i: int|
            0 <= i < assignments@.len() ==> (#[trigger] assignments@[i]).value.concrete(),
        assignments@.len() > 0 ==> ({
            let rows = commented_lines(lines(verilog@), gates_to_comment@);
            module_end(rows, rows.len() as int) is Some
        }),
    ensures
        r.0@ == gatelist_text(verilog@, gates_to_comment@, assignments@),
        r.1 == gate_count(lines(verilog@), gates_to_comment@, lines(verilog@).len()),
{
    let rows = lines_of(&chars_of(verilog));
    let (optimized_lines, commented_gate_count) = comment_gates(&rows, gates_to_comment);
    assert(char_rows(optimized_lines@).len() == optimized_lines@.len());
    let lines_out = insert_assignments(&optimized_lines, assignments);
    let mut optimized_verilog = join_lines(&lines_out);
    optimized_verilog.append("\n");
    (optimized_verilog, commented_gate_count)
}

} // verus!
