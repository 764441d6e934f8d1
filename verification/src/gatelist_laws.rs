//! What is left of a netlist when gates are commented out and constants assigned.
use vstd::prelude::*;

use crate::bit::Bit;
use crate::gatelist::{
    assign_statement, bracket_at, commented_lines, commenting, comments, ends_module,
    ends_statement, gate_count, gatelist_text, instance_name, joined, module_end, starts_gate,
    trimmed_end, trimmed_start, white, with_assignments, word_start, GateOutputAssignment,
};
use crate::text::lines;
use crate::text_laws::{
    ended, lemma_ended_one, lemma_lines_come_apart, lemma_lines_make_text, one_line,
};

verus! {

/// Of the basic characters, just the space, the tab and what moves on to another line or page are
/// white.
pub proof fn lemma_white(c: char)
    requires
        c as u32 <= 0x7e,
    ensures
        white(c) <==> c == ' ' || c == '\t' || c == '\n' || c == '\r' || c as u32 == 0xb || c as u32
            == 0xc,
{
}

/// All of the text is white.
pub open spec fn blank(text: Seq<char>) -> bool {
    forall|i: int| 0 <= i < text.len() ==> white(#[trigger] text[i])
}

/// The part of the text from one place to before another is white.
pub open spec fn blank_part(text: Seq<char>, from: int, to: int) -> bool {
    forall|i: int| from <= i < to ==> white(#[trigger] text[i])
}

/// The last character of the line that is not white is a semicolon.
pub open spec fn closes(line: Seq<char>) -> bool {
    exists|p: int|
        0 <= p < line.len() && #[trigger] line[p] == ';' && blank_part(
            line,
            p + 1,
            line.len() as int,
        )
}

/// The word from `start` to before `end` is an instance name on the line: nothing but white space
/// separates it from the first opening bracket, white space stands before it, and before that
/// something else does.
pub open spec fn names_instance(line: Seq<char>, start: int, end: int) -> bool {
    &&& 0 < start < end < line.len()
    &&& forall|i: int| start <= i < end ==> !white(#[trigger] line[i])
    &&& white(line[start - 1])
    &&& !blank_part(line, 0, start)
    &&& exists|b: int|
        end <= b < line.len() && #[trigger] line[b] == '(' && blank_part(line, end, b) && forall|
            i: int,
        |
            0 <= i < b ==> #[trigger] line[i] != '('
}

/// An instance of one of the gates is named on the line.
pub open spec fn opens_gate(line: Seq<char>, gates: Set<Seq<char>>) -> bool {
    exists|start: int, end: int| #[trigger]
        names_instance(line, start, end) && gates.contains(line.subrange(start, end))
}

proof fn lemma_trimmed_end(text: Seq<char>, n: int)
    requires
        0 <= n <= text.len(),
    ensures
        0 <= trimmed_end(text, n) <= n,
        blank_part(text, trimmed_end(text, n), n),
        trimmed_end(text, n) > 0 ==> !white(text[trimmed_end(text, n) - 1]),
        trimmed_end(text, n) == 0 <==> blank_part(text, 0, n),
    decreases n,
{
    if n > 0 && white(text[n - 1]) {
        lemma_trimmed_end(text, n - 1);
        let e = trimmed_end(text, n);
        assert forall|i: int| e <= i < n implies white(#[trigger] text[i]) by {
            if i < n - 1 {
                assert(blank_part(text, e, n - 1));
            }
        }
        if blank_part(text, 0, n) {
            assert(blank_part(text, 0, n - 1));
        }
    } else if n > 0 {
        assert(!white(text[n - 1]));
    }
}

proof fn lemma_trimmed_start(text: Seq<char>, i: int)
    requires
        0 <= i <= text.len(),
    ensures
        i <= trimmed_start(text, i) <= text.len(),
        blank_part(text, i, trimmed_start(text, i)),
        trimmed_start(text, i) < text.len() ==> !white(text[trimmed_start(text, i)]),
    decreases text.len() - i,
{
    if i < text.len() && white(text[i]) {
        lemma_trimmed_start(text, i + 1);
    }
}

proof fn lemma_word_start(text: Seq<char>, n: int)
    requires
        0 <= n <= text.len(),
    ensures
        0 <= word_start(text, n) <= n,
        forall|i: int| word_start(text, n) <= i < n ==> !white(#[trigger] text[i]),
        word_start(text, n) > 0 ==> white(text[word_start(text, n) - 1]),
    decreases n,
{
    if n > 0 && !white(text[n - 1]) {
        lemma_word_start(text, n - 1);
    }
}

proof fn lemma_bracket(line: Seq<char>, i: int)
    requires
        0 <= i <= line.len(),
    ensures
        match bracket_at(line, i) {
            Some(b) => i <= b < line.len() && line[b] == '(' && forall|k: int|
                i <= k < b ==> #[trigger] line[k] != '(',
            None => forall|k: int| i <= k < line.len() ==> #[trigger] line[k] != '(',
        },
    decreases line.len() - i,
{
    if i < line.len() && line[i] != '(' {
        lemma_bracket(line, i + 1);
    }
}

/// A line closes a statement exactly if its last character that is not white is a semicolon.
pub proof fn lemma_closes(line: Seq<char>)
    ensures
        ends_statement(line) <==> closes(line),
{
    let n = line.len() as int;
    lemma_trimmed_end(line, n);
    let e = trimmed_end(line, n);
    reveal_strlit(";");
    assert(!white(';'));
    if ends_statement(line) {
        assert(line[e - 1] == ';' && blank_part(line, e - 1 + 1, n));
    }
    if closes(line) {
        let p = choose|p: int|
            0 <= p < line.len() && #[trigger] line[p] == ';' && blank_part(line, p + 1, n);
        assert(e == p + 1) by {
            if e <= p {
                assert(white(line[p]));
            }
            if e > p + 1 {
                assert(white(line[e - 1]));
            }
        }
    }
}

/// The name of the instance on a line is the word before the first opening bracket, if another
/// word stands before it.
pub proof fn lemma_instance_named(line: Seq<char>, name: Seq<char>)
    ensures
        instance_name(line) == Some(name) <==> exists|start: int, end: int| #[trigger]
            names_instance(line, start, end) && line.subrange(start, end) == name,
{
    lemma_bracket(line, 0);
    assert(!white('('));
    if let Some(b) = bracket_at(line, 0) {
        lemma_trimmed_end(line, b);
        let end = trimmed_end(line, b);
        lemma_word_start(line, end);
        let start = word_start(line, end);
        lemma_trimmed_end(line, start);
        if trimmed_end(line, start) > 0 {
            assert(start < end) by {
                if start == end {
                    assert(white(line[start - 1]));
                    assert(!white(line[end - 1]));
                }
            }
            assert(line[b] == '(' && blank_part(line, end, b));
            assert(names_instance(line, start, end));
        }
        assert forall|s: int, e: int| #[trigger] names_instance(line, s, e) implies s == start && e
            == end && trimmed_end(line, start) > 0 by {
            let c = choose|c: int|
                e <= c < line.len() && #[trigger] line[c] == '(' && blank_part(line, e, c)
                    && forall|i: int| 0 <= i < c ==> #[trigger] line[i] != '(';
            assert(c == b) by {
                if c < b {
                    assert(line[c] != '(');
                }
                if b < c {
                    assert(line[b] != '(');
                }
            }
            assert(e == end) by {
                if e < end {
                    assert(white(line[end - 1]));
                }
                if end < e {
                    assert(white(line[e - 1]));
                }
            }
            assert(s == start) by {
                if s < start {
                    assert(!white(line[start - 1]));
                }
                if start < s {
                    assert(!white(line[s - 1]));
                }
            }
        }
    }
}

proof fn lemma_opens(line: Seq<char>, gates: Set<Seq<char>>)
    ensures
        starts_gate(line, gates) <==> opens_gate(line, gates),
{
    if let Some(name) = instance_name(line) {
        lemma_instance_named(line, name);
        if gates.contains(name) {
            let (s, e) = choose|s: int, e: int| #[trigger]
                names_instance(line, s, e) && line.subrange(s, e) == name;
            assert(names_instance(line, s, e) && gates.contains(line.subrange(s, e)));
        }
    }
    if opens_gate(line, gates) {
        let (s, e) = choose|s: int, e: int| #[trigger]
            names_instance(line, s, e) && gates.contains(line.subrange(s, e));
        lemma_instance_named(line, line.subrange(s, e));
    }
}

/// The line is part of a statement that opens with one of the gates: the statement opens on the
/// line or before it, and does not close in between.
pub open spec fn belongs_to_gate(rows: Seq<Seq<char>>, gates: Set<Seq<char>>, i: int) -> bool {
    exists|j: int| #[trigger] reaches(rows, gates, j, i)
}

/// A gate opens on line `j`, and no line from there to before `i` closes.
pub open spec fn reaches(rows: Seq<Seq<char>>, gates: Set<Seq<char>>, j: int, i: int) -> bool {
    &&& 0 <= j <= i
    &&& opens_gate(rows[j], gates)
    &&& forall|k: int| j <= k < i ==> !closes(#[trigger] rows[k])
}

proof fn lemma_commented(rows: Seq<Seq<char>>, gates: Set<Seq<char>>, n: nat)
    ensures
        comments(rows, gates, n) <==> belongs_to_gate(rows, gates, n as int),
        commenting(rows, gates, n) <==> n > 0 && belongs_to_gate(rows, gates, n - 1) && !closes(
            rows[n - 1],
        ),
    decreases n,
{
    lemma_opens(rows[n as int], gates);
    if n > 0 {
        let m = (n - 1) as nat;
        lemma_commented(rows, gates, m);
        lemma_closes(rows[m as int]);
        if comments(rows, gates, m) && !closes(rows[m as int]) {
            let j = choose|j: int| #[trigger] reaches(rows, gates, j, m as int);
            assert(reaches(rows, gates, j, n as int));
        }
    }
    if starts_gate(rows[n as int], gates) {
        assert(reaches(rows, gates, n as int, n as int));
    }
    if belongs_to_gate(rows, gates, n as int) {
        let j = choose|j: int| #[trigger] reaches(rows, gates, j, n as int);
        if j < n {
            assert(reaches(rows, gates, j, n - 1));
            assert(!closes(rows[n - 1]));
        }
    }
}

/// Of every line just the two slashes of a comment are new, and they stand exactly before the
/// lines of the gates' statements.
pub proof fn lemma_gates_commented(rows: Seq<Seq<char>>, gates: Set<Seq<char>>, i: int)
    requires
        0 <= i < rows.len(),
    ensures
        commented_lines(rows, gates).len() == rows.len(),
        belongs_to_gate(rows, gates, i) ==> commented_lines(rows, gates)[i] == seq!['/', '/']
            + rows[i],
        !belongs_to_gate(rows, gates, i) ==> commented_lines(rows, gates)[i] == rows[i],
{
    lemma_commented(rows, gates, i as nat);
    reveal_strlit("//");
    assert("//"@ =~= seq!['/', '/']);
}

/// The lines before `n` on which a gate's statement opens that no other gate's statement has
/// reached.
pub open spec fn gate_openings(rows: Seq<Seq<char>>, gates: Set<Seq<char>>, n: int) -> Set<int> {
    Set::new(
        |i: int|
            0 <= i < n && opens_gate(rows[i], gates) && !(i > 0 && belongs_to_gate(
                rows,
                gates,
                i - 1,
            ) && !closes(rows[i - 1])),
    )
}

/// The count is the number of statements that are commented out.
pub proof fn lemma_gates_counted(rows: Seq<Seq<char>>, gates: Set<Seq<char>>, n: nat)
    ensures
        gate_openings(rows, gates, n as int).finite(),
        gate_count(rows, gates, n) == gate_openings(rows, gates, n as int).len(),
    decreases n,
{
    let now = gate_openings(rows, gates, n as int);
    if n == 0 {
        assert(now =~= Set::empty());
    } else {
        let m = (n - 1) as nat;
        lemma_gates_counted(rows, gates, m);
        lemma_commented(rows, gates, m);
        lemma_opens(rows[m as int], gates);
        let before = gate_openings(rows, gates, m as int);
        if now.contains(m as int) {
            assert(now =~= before.insert(m as int));
        } else {
            assert(now =~= before);
        }
    }
}

/// The line is the word that ends a module, with nothing but white space around it.
pub open spec fn is_module_end(line: Seq<char>) -> bool {
    exists|a: int| #[trigger] module_end_at(line, a)
}

/// The word that ends a module stands at the place, with nothing but white space around it.
pub open spec fn module_end_at(line: Seq<char>, a: int) -> bool {
    &&& 0 <= a <= line.len() - 9
    &&& line.subrange(a, a + 9) == seq!['e', 'n', 'd', 'm', 'o', 'd', 'u', 'l', 'e']
    &&& blank_part(line, 0, a)
    &&& blank_part(line, a + 9, line.len() as int)
}

/// What ends a module.
pub proof fn lemma_module_end(line: Seq<char>)
    ensures
        ends_module(line) <==> is_module_end(line),
{
    reveal_strlit("endmodule");
    let n = line.len() as int;
    let start = trimmed_start(line, 0);
    let end = trimmed_end(line, n);
    lemma_trimmed_start(line, 0);
    lemma_trimmed_end(line, n);
    let wanted = seq!['e', 'n', 'd', 'm', 'o', 'd', 'u', 'l', 'e'];
    assert("endmodule"@ =~= wanted);
    if ends_module(line) {
        assert(line.subrange(start, end).len() == 9);
        assert(module_end_at(line, start));
    }
    if is_module_end(line) {
        let a = choose|a: int| #[trigger] module_end_at(line, a);
        let part = line.subrange(a, a + 9);
        assert(part[0] == 'e' && part[8] == 'e');
        assert(line[a] == 'e' && line[a + 8] == 'e');
        assert(!white('e'));
        assert(start == a) by {
            if start < a {
                assert(white(line[start]));
            }
            if a < start {
                assert(white(line[a]));
            }
        }
        assert(end == a + 9) by {
            if end < a + 9 {
                assert(white(line[a + 8]));
            }
            if a + 9 < end {
                assert(white(line[end - 1]));
            }
        }
    }
}

proof fn lemma_last_module_end(rows: Seq<Seq<char>>, n: int)
    requires
        0 <= n <= rows.len(),
    ensures
        match module_end(rows, n) {
            Some(at) => 0 <= at < n && is_module_end(rows[at]) && forall|k: int|
                at < k < n ==> !is_module_end(#[trigger] rows[k]),
            None => forall|k: int| 0 <= k < n ==> !is_module_end(#[trigger] rows[k]),
        },
    decreases n,
{
    if n > 0 {
        lemma_module_end(rows[n - 1]);
        lemma_last_module_end(rows, n - 1);
    }
}

/// The line assigns the value to the wire.
pub open spec fn assigns(line: Seq<char>, wire: Seq<char>, value: Bit) -> bool {
    line == seq![' ', ' ', 'a', 's', 's', 'i', 'g', 'n', ' '] + wire + seq![
        ' ',
        '=',
        ' ',
        '1',
        '\'',
        'b',
        if value == Bit::High {
            '1'
        } else {
            '0'
        },
        ';',
    ]
}

proof fn lemma_assigns(assignment: GateOutputAssignment)
    ensures
        assigns(assign_statement(assignment), assignment.wire_name@, assignment.value),
{
    reveal_strlit("  assign ");
    reveal_strlit(" = ");
    reveal_strlit("1'b1");
    reveal_strlit("1'b0");
    reveal_strlit(";");
    let line = assign_statement(assignment);
    let bit = if assignment.value == Bit::High {
        '1'
    } else {
        '0'
    };
    assert(line =~= seq![' ', ' ', 'a', 's', 's', 'i', 'g', 'n', ' '] + assignment.wire_name@
        + seq![' ', '=', ' ', '1', '\'', 'b', bit, ';']);
}

/// Before the last line that ends a module stand the statements that assign the values to the
/// wires, one for each assignment and in their order; all other lines stay as they are.
pub proof fn lemma_assignments_placed(
    rows: Seq<Seq<char>>,
    assignments: Seq<GateOutputAssignment>,
    at: int,
)
    requires
        0 <= at < rows.len(),
        is_module_end(rows[at]),
        forall|k: int| at < k < rows.len() ==> !is_module_end(#[trigger] rows[k]),
    ensures
        ({
            let out = with_assignments(rows, assignments);
            let n = assignments.len() as int;
            &&& out.len() == rows.len() + n
            &&& forall|i: int| 0 <= i < at ==> #[trigger] out[i] == rows[i]
            &&& forall|i: int|
                0 <= i < n ==> assigns(
                    #[trigger] out[at + i],
                    assignments[i].wire_name@,
                    assignments[i].value,
                )
            &&& forall|i: int| at <= i < rows.len() ==> #[trigger] rows[i] == out[i + n]
        }),
{
    lemma_last_module_end(rows, rows.len() as int);
    let found = module_end(rows, rows.len() as int);
    if found is None {
        assert(!is_module_end(rows[at]));
    } else if found->0 < at {
        assert(!is_module_end(rows[at]));
    } else if at < found->0 {
        assert(!is_module_end(rows[found->0]));
    }
    assert forall|i: int| 0 <= i < assignments.len() implies assigns(
        #[trigger] with_assignments(rows, assignments)[at + i],
        assignments[i].wire_name@,
        assignments[i].value,
    ) by {
        lemma_assigns(assignments[i]);
    }
}

/// Without a line that ends a module, or without assignments, the lines stay as they are.
pub proof fn lemma_nothing_assigned(rows: Seq<Seq<char>>, assignments: Seq<GateOutputAssignment>)
    requires
        assignments.len() == 0 || forall|k: int|
            0 <= k < rows.len() ==> !is_module_end(#[trigger] rows[k]),
    ensures
        with_assignments(rows, assignments) == rows,
{
    lemma_last_module_end(rows, rows.len() as int);
}

proof fn lemma_joined_ended(rows: Seq<Seq<char>>)
    requires
        rows.len() > 0,
    ensures
        joined(rows) + seq!['\n'] == ended(rows, false),
    decreases rows.len(),
{
    reveal_strlit("\n");
    assert("\n"@ =~= seq!['\n']);
    if rows.len() == 1 {
        lemma_ended_one(rows[0]);
        assert(rows =~= seq![rows[0]]);
        assert(joined(rows) + seq!['\n'] =~= ended(rows, false));
    } else {
        let front = rows.drop_last();
        lemma_joined_ended(front);
        lemma_ended_push(front, rows.last());
        assert(front.push(rows.last()) =~= rows);
        assert(joined(rows) + seq!['\n'] =~= joined(front) + seq!['\n'] + rows.last() + seq!['\n']);
    }
}

pub(crate) proof fn lemma_ended_push(rows: Seq<Seq<char>>, row: Seq<char>)
    ensures
        ended(rows.push(row), false) == ended(rows, false) + row + seq!['\n'],
    decreases rows.len(),
{
    let more = rows.push(row);
    if rows.len() == 0 {
        lemma_ended_one(row);
        assert(more =~= seq![row]);
        assert(ended(more, false) =~= ended(rows, false) + row + seq!['\n']);
    } else {
        lemma_ended_push(rows.drop_first(), row);
        assert(more.drop_first() =~= rows.drop_first().push(row));
        assert(ended(more, false) =~= ended(rows, false) + row + seq!['\n']);
    }
}

/// The text that is written has just the lines of the netlist, with the gates commented out and the
/// constants assigned.
pub proof fn lemma_gatelist_lines(
    verilog: Seq<char>,
    gates: Set<Seq<char>>,
    assignments: Seq<GateOutputAssignment>,
)
    requires
        forall|i: int| 0 <= i < verilog.len() ==> #[trigger] verilog[i] != '\r',
        lines(verilog).len() > 0,
        forall|i: int| 0 <= i < assignments.len() ==> one_line((#[trigger] assignments[i]).wire_name@),
    ensures
        lines(gatelist_text(verilog, gates, assignments)) == with_assignments(
            commented_lines(lines(verilog), gates),
            assignments,
        ),
{
    reveal_strlit("\n");
    assert("\n"@ =~= seq!['\n']);
    let rows = lines(verilog);
    lemma_lines_make_text(verilog);
    let commented = commented_lines(rows, gates);
    let out = with_assignments(commented, assignments);
    assert forall|i: int| 0 <= i < commented.len() implies one_line(#[trigger] commented[i]) && (
    commented[i].len() == 0 || commented[i].last() != '\r') by {
        lemma_gates_commented(rows, gates, i);
        assert(one_line(rows[i]));
        if belongs_to_gate(rows, gates, i) {
            let line = commented[i];
            assert forall|k: int| 0 <= k < line.len() implies #[trigger] line[k] != '\n' by {
                if k >= 2 {
                    assert(line[k] == rows[i][k - 2]);
                }
            }
            if rows[i].len() > 0 {
                assert(line.last() == rows[i][rows[i].len() - 1]);
            }
        } else if rows[i].len() > 0 {
            assert(rows[i][rows[i].len() - 1] != '\r');
        }
    }
    assert forall|i: int| 0 <= i < out.len() implies one_line(#[trigger] out[i]) && (out[i].len()
        == 0 || out[i].last() != '\r') by {
        if let Some(at) = module_end(commented, commented.len() as int) {
            lemma_last_module_end(commented, commented.len() as int);
            let n = assignments.len();
            if assignments.len() > 0 {
                if i < at {
                    assert(out[i] == commented[i]);
                } else if i < at + n {
                    let assignment = assignments[i - at];
                    lemma_assigns(assignment);
                    assert(out[i] == assign_statement(assignment));
                    let line = out[i];
                    let wire = assignment.wire_name@;
                    assert(one_line(assignments[i - at].wire_name@));
                    assert forall|k: int| 0 <= k < line.len() implies #[trigger] line[k] != '\n' by {
                        if 9 <= k < 9 + wire.len() {
                            assert(line[k] == wire[k - 9]);
                        }
                    }
                } else {
                    assert(out[i] == commented[i - n]);
                }
            }
        }
    }
    lemma_joined_ended(out);
    let rest = Seq::<char>::empty();
    lemma_lines_come_apart(out, false, rest);
    assert(ended(out, false) + rest =~= ended(out, false));
}

} // verus!
