//! Lines put together come apart again, and decimal numbers are written digit by digit.
use vstd::prelude::*;

use crate::expr_shape::decimal;
use crate::text::{line_end, lines, lines_from, without_return};

verus! {

/// The text holds no line feed.
pub open spec fn one_line(text: Seq<char>) -> bool {
    forall|i: int| 0 <= i < text.len() ==> #[trigger] text[i] != '\n'
}

/// Each line with its end: a line feed, or a carriage return and a line feed.
pub open spec fn ended(rows: Seq<Seq<char>>, crlf: bool) -> Seq<char>
    decreases rows.len(),
{
    if rows.len() == 0 {
        seq![]
    } else if crlf {
        rows[0] + seq!['\r', '\n'] + ended(rows.drop_first(), crlf)
    } else {
        rows[0] + seq!['\n'] + ended(rows.drop_first(), crlf)
    }
}

/// One line with its end.
pub(crate) proof fn lemma_ended_one(row: Seq<char>)
    ensures
        ended(seq![row], false) == row + seq!['\n'],
{
    let rows = seq![row];
    let none = rows.drop_first();
    assert(none.len() == 0);
    assert(ended(none, false) =~= Seq::<char>::empty());
    assert(ended(rows, false) =~= row + seq!['\n']);
}

proof fn lemma_line_end(text: Seq<char>, from: int, n: int)
    requires
        0 <= from <= n <= text.len(),
        forall|i: int| from <= i < n ==> #[trigger] text[i] != '\n',
        n < text.len() ==> text[n] == '\n',
    ensures
        line_end(text, from) == n,
    decreases n - from,
{
    if from < n {
        lemma_line_end(text, from + 1, n);
    }
}

proof fn lemma_ended_from(text: Seq<char>, from: int, rows: Seq<Seq<char>>, crlf: bool, rest: Seq<char>)
    requires
        0 <= from <= text.len(),
        text.skip(from) == ended(rows, crlf) + rest,
        one_line(rest),
        forall|i: int|
            0 <= i < rows.len() ==> one_line(#[trigger] rows[i]) && (crlf || rows[i].len() == 0
                || rows[i].last() != '\r'),
    ensures
        lines_from(text, from) == if rest.len() == 0 {
            rows
        } else {
            rows.push(rest)
        },
    decreases rows.len(),
{
    let left = text.skip(from);
    if rows.len() == 0 {
        assert(left =~= rest);
        assert forall|i: int| from <= i < text.len() implies #[trigger] text[i] != '\n' by {
            assert(left[i - from] == rest[i - from]);
        }
        lemma_line_end(text, from, text.len() as int);
        if rest.len() > 0 {
            assert(text.subrange(from, text.len() as int) =~= rest);
            assert(lines_from(text, from) =~= rows.push(rest));
        } else {
            assert(lines_from(text, from) =~= rows);
        }
    } else {
        let row = rows[0];
        let more = rows.drop_first();
        let after = ended(more, crlf) + rest;
        let gap = if crlf {
            seq!['\r', '\n']
        } else {
            seq!['\n']
        };
        assert(left =~= row + gap + after);
        let n = from + row.len() + gap.len() - 1;
        assert forall|i: int| from <= i < n implies #[trigger] text[i] != '\n' by {
            assert(left[i - from] == text[i]);
            if i - from < row.len() {
                assert(row[i - from] == text[i]);
            }
        }
        assert(left[n - from] == text[n]);
        lemma_line_end(text, from, n);
        let cut = text.subrange(from, n);
        if crlf {
            assert(cut =~= row.push('\r'));
            assert(without_return(cut) =~= row);
        } else {
            assert(cut =~= row);
            assert(without_return(cut) =~= row);
        }
        assert(text.skip(n + 1) =~= left.skip(n + 1 - from));
        assert(text.skip(n + 1) =~= after);
        assert forall|i: int| 0 <= i < more.len() implies one_line(#[trigger] more[i]) && (crlf
            || more[i].len() == 0 || more[i].last() != '\r') by {
            assert(more[i] == rows[i + 1]);
        }
        lemma_ended_from(text, n + 1, more, crlf, rest);
        assert(lines_from(text, from) == seq![row] + lines_from(text, n + 1));
        if rest.len() == 0 {
            assert(seq![row] + more =~= rows);
        } else {
            assert(seq![row] + more.push(rest) =~= rows.push(rest));
        }
    }
}

/// The lines of a text are the rows that it was put together of, whether they end with line feeds
/// or with carriage returns and line feeds, and whether or not the last one is ended.
pub proof fn lemma_lines_come_apart(rows: Seq<Seq<char>>, crlf: bool, rest: Seq<char>)
    requires
        one_line(rest),
        forall|i: int|
            0 <= i < rows.len() ==> one_line(#[trigger] rows[i]) && (crlf || rows[i].len() == 0
                || rows[i].last() != '\r'),
    ensures
        lines(ended(rows, crlf) + rest) == if rest.len() == 0 {
            rows
        } else {
            rows.push(rest)
        },
{
    let text = ended(rows, crlf) + rest;
    assert(text.skip(0) =~= text);
    lemma_ended_from(text, 0, rows, crlf, rest);
}

proof fn lemma_lines_from_whole(text: Seq<char>, from: int)
    requires
        0 <= from <= text.len(),
        forall|i: int| 0 <= i < text.len() ==> #[trigger] text[i] != '\r',
    ensures
        forall|k: int|
            0 <= k < lines_from(text, from).len() ==> one_line(#[trigger] lines_from(text, from)[k])
                && (forall|i: int|
                0 <= i < lines_from(text, from)[k].len() ==> #[trigger] lines_from(
                    text,
                    from,
                )[k][i] != '\r'),
        text.skip(from) == ended(lines_from(text, from), false) || text.skip(from) + seq!['\n']
            == ended(lines_from(text, from), false),
    decreases text.len() - from,
{
    let rows = lines_from(text, from);
    if from < text.len() {
        let end = line_end(text, from);
        lemma_line_end_bounds(text, from);
        let row = text.subrange(from, end);
        if end == text.len() {
            assert(rows =~= seq![row]);
            lemma_ended_one(row);
            assert(text.skip(from) + seq!['\n'] =~= ended(rows, false));
        } else {
            lemma_lines_from_whole(text, end + 1);
            let more = lines_from(text, end + 1);
            assert(without_return(row) == row) by {
                if row.len() > 0 {
                    assert(row.last() == text[end - 1]);
                }
            }
            assert(rows == seq![row] + more);
            assert(rows.drop_first() =~= more);
            assert forall|k: int| 0 <= k < rows.len() implies one_line(#[trigger] rows[k]) && (
            forall|i: int| 0 <= i < rows[k].len() ==> #[trigger] rows[k][i] != '\r') by {
                if k > 0 {
                    assert(rows[k] == more[k - 1]);
                }
            }
            assert(text.skip(from) =~= row + seq!['\n'] + text.skip(end + 1));
            assert(text.skip(from) + seq!['\n'] =~= row + seq!['\n'] + (text.skip(end + 1) + seq![
                '\n',
            ]));
        }
    } else {
        assert(text.skip(from) =~= ended(rows, false));
    }
}

proof fn lemma_line_end_bounds(text: Seq<char>, from: int)
    requires
        0 <= from <= text.len(),
    ensures
        from <= line_end(text, from) <= text.len(),
        line_end(text, from) < text.len() ==> text[line_end(text, from)] == '\n',
        forall|i: int| from <= i < line_end(text, from) ==> #[trigger] text[i] != '\n',
    decreases text.len() - from,
{
    if from < text.len() && text[from] != '\n' {
        lemma_line_end_bounds(text, from + 1);
    }
}

/// A text without carriage returns is its lines with line feeds, up to the end of the last one.
pub proof fn lemma_lines_make_text(text: Seq<char>)
    requires
        forall|i: int| 0 <= i < text.len() ==> #[trigger] text[i] != '\r',
    ensures
        text == ended(lines(text), false) || text + seq!['\n'] == ended(lines(text), false),
        forall|k: int|
            0 <= k < lines(text).len() ==> one_line(#[trigger] lines(text)[k]) && (forall|i: int|
                0 <= i < lines(text)[k].len() ==> #[trigger] lines(text)[k][i] != '\r'),
{
    lemma_lines_from_whole(text, 0);
    assert(text.skip(0) =~= text);
}

/// A number is written with decimal digits: its last digit behind what is written of its tenth
/// part.
pub proof fn lemma_decimal_digits(n: nat)
    ensures
        n < 10 ==> decimal(n).len() == 1 && decimal(n)[0] as u32 == 0x30 + n,
        n >= 10 ==> decimal(n).len() > 1 && decimal(n).drop_last() == decimal(n / 10)
            && decimal(n).last() as u32 == 0x30 + n % 10,
{
    if n >= 10 {
        lemma_decimal_nonempty(n / 10);
        assert(decimal(n).drop_last() =~= decimal(n / 10));
    }
}

proof fn lemma_decimal_nonempty(n: nat)
    ensures
        decimal(n).len() > 0,
    decreases n,
{
    if n >= 10 {
        lemma_decimal_nonempty(n / 10);
    }
}

} // verus!
