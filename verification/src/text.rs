//! Small text helpers over `str`, `String` and character rows.
use vstd::prelude::*;

verus! {

/// `String::push` appends one character.
pub assume_specification[ String::push ](s: &mut String, ch: char)
    ensures
        final(s)@ == old(s)@.push(ch),
;

/// The characters of a text, in order.
pub fn chars_of(s: &str) -> (r: Vec<char>)
    ensures
        r@ == s@,
{
    let mut r: Vec<char> = Vec::new();
    for c in it: s.chars()
        invariant
            it.seq() == s@,
            r@ == s@.take(it.index()),
    {
        r.push(c);
        assert(r@ =~= s@.take(it.index() + 1));
    }
    assert(r@ =~= s@);
    r
}

/// The text with the given characters.
pub fn text_of(chars: &Vec<char>) -> (r: String)
    ensures
        r@ == chars@,
{
    let mut r = String::new();
    let mut i: usize = 0;
    while i < chars.len()
        invariant
            i <= chars@.len(),
            r@ == chars@.take(i as int),
        decreases chars@.len() - i,
    {
        r.push(chars[i]);
        i += 1;
        assert(r@ =~= chars@.take(i as int));
    }
    assert(chars@.take(i as int) =~= chars@);
    r
}

/// The position of the first line feed from `from` on, or the length where there is none.
pub open spec fn line_end(text: Seq<char>, from: int) -> int
    decreases text.len() - from,
{
    if from < 0 || from >= text.len() {
        text.len() as int
    } else if text[from] == '\n' {
        from
    } else {
        line_end(text, from + 1)
    }
}

/// The line that ends at a line feed, without the carriage return before it.
pub open spec fn without_return(line: Seq<char>) -> Seq<char> {
    if line.len() > 0 && line.last() == '\r' {
        line.drop_last()
    } else {
        line
    }
}

/// The lines of a text: they end with a line feed or a carriage return and a line feed, and
/// the last line may lack its end.
pub open spec fn lines_from(text: Seq<char>, from: int) -> Seq<Seq<char>>
    decreases text.len() - from,
{
    let end = line_end(text, from);
    if from < 0 || from >= text.len() || !(from <= end <= text.len()) {
        seq![]
    } else if end == text.len() {
        seq![text.subrange(from, end)]
    } else {
        seq![without_return(text.subrange(from, end))] + lines_from(text, end + 1)
    }
}

/// The lines of a text.
pub open spec fn lines(text: Seq<char>) -> Seq<Seq<char>> {
    lines_from(text, 0)
}

/// The views of a row of character rows.
pub open spec fn char_rows(rows: Seq<Vec<char>>) -> Seq<Seq<char>> {
    Seq::new(rows.len(), |i: int| rows[i]@)
}

/// Copies a part of a row of characters.
pub fn slice_chars(chars: &Vec<char>, from: usize, to: usize) -> (r: Vec<char>)
    requires
        from <= to <= chars@.len(),
    ensures
        r@ == chars@.subrange(from as int, to as int),
{
    let mut r: Vec<char> = Vec::new();
    let mut i: usize = from;
    assert(r@ =~= chars@.subrange(from as int, i as int));
    while i < to
        invariant
            from <= i <= to <= chars@.len(),
            r@ == chars@.subrange(from as int, i as int),
        decreases to - i,
    {
        r.push(chars[i]);
        i += 1;
        assert(r@ =~= chars@.subrange(from as int, i as int));
    }
    r
}

/// Splits a text into its lines.
pub fn lines_of(text: &Vec<char>) -> (r: Vec<Vec<char>>)
    ensures
        char_rows(r@) == lines(text@),
{
    let mut r: Vec<Vec<char>> = Vec::new();
    let mut from: usize = 0;
    assert(char_rows(r@) + lines_from(text@, 0) =~= lines(text@));
    while from < text.len()
        invariant
            from <= text@.len(),
            char_rows(r@) + lines_from(text@, from as int) == lines(text@),
        decreases text@.len() - from,
    {
        let mut end: usize = from;
        while end < text.len() && text[end] != '\n'
            invariant
                from <= end <= text@.len(),
                line_end(text@, from as int) == line_end(text@, end as int),
            decreases text@.len() - end,
        {
            end += 1;
        }
        assert(line_end(text@, from as int) == end);
        let ghost before = char_rows(r@);
        let ghost rest = lines_from(text@, from as int);
        if end == text.len() {
            let line = slice_chars(text, from, end);
            r.push(line);
            assert(char_rows(r@) =~= before + rest);
            assert(lines_from(text@, end as int) =~= Seq::empty());
            assert(char_rows(r@) + lines_from(text@, end as int) =~= char_rows(r@));
            from = end;
        } else {
            let mut to: usize = end;
            if end > from && text[end - 1] == '\r' {
                to = end - 1;
            }
            let line = slice_chars(text, from, to);
            assert(line@ =~= without_return(text@.subrange(from as int, end as int)));
            r.push(line);
            assert(char_rows(r@) =~= before.push(line@));
            assert(char_rows(r@) + lines_from(text@, end + 1) =~= before + rest);
            from = end + 1;
        }
    }
    assert(lines_from(text@, from as int) =~= Seq::empty());
    assert(char_rows(r@) =~= lines(text@));
    r
}

} // verus!
