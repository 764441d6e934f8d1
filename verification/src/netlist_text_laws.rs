//! The text of a module is read back as the module that was written.
use vstd::prelude::*;

use crate::gatelist::white;
use crate::netlist_expr_laws::{stands, Mark};
use crate::netlist_module_laws::{
    lemma_module_read, module_marks, module_meant, module_sound, Written,
};
use crate::netlist_tokens::{
    based_end, behind_pair, bytes_before, in_class, run_end, scan, tokens, tokens_from, CharClass,
    Scan, TokenKind, TokenV,
};
use crate::parser::{chars_before, lines_before, netlist_of, NetlistErrorV};

verus! {

/// A decimal digit.
pub open spec fn figure(c: char) -> bool {
    '0' <= c <= '9'
}

/// A letter or an underscore.
pub open spec fn initial(c: char) -> bool {
    ('a' <= c <= 'z') || ('A' <= c <= 'Z') || c == '_'
}

/// A digit of a based constant, or a mark that stands in its place.
pub open spec fn based_figure(c: char) -> bool {
    figure(c) || ('a' <= c <= 'f') || ('A' <= c <= 'F') || c == 'x' || c == 'X' || c == 'z' || c
        == 'Z' || c == '?' || c == '_'
}

/// A letter that names a base.
pub open spec fn base_letter(c: char) -> bool {
    c == 'b' || c == 'B' || c == 'o' || c == 'O' || c == 'd' || c == 'D' || c == 'h' || c == 'H'
}

/// A name or a keyword: a letter or an underscore, and then letters, digits, underscores and dollar
/// signs; or a backslash and anything but white space.
pub open spec fn word_text(text: Seq<char>) -> bool {
    text.len() > 0 && {
        ||| initial(text[0]) && forall|k: int|
            0 <= k < text.len() ==> initial(#[trigger] text[k]) || figure(text[k]) || text[k] == '$'
        ||| text[0] == '\\' && forall|k: int| 0 <= k < text.len() ==> !white(#[trigger] text[k])
    }
}

/// Decimal digits.
pub open spec fn number_text(text: Seq<char>) -> bool {
    text.len() > 0 && forall|k: int| 0 <= k < text.len() ==> figure(#[trigger] text[k])
}

/// Digits with an underscore behind the first one.
pub open spec fn spaced_text(text: Seq<char>) -> bool {
    &&& text.len() > 0
    &&& figure(text[0])
    &&& text.contains('_')
    &&& forall|k: int| 0 <= k < text.len() ==> figure(#[trigger] text[k]) || text[k] == '_'
}

/// A constant with a base: a size that may be missing, a quote, a sign that may be missing, the
/// base, and digits.
pub open spec fn based_text(
    text: Seq<char>,
    size: Seq<char>,
    flag: Seq<char>,
    base: char,
    digits: Seq<char>,
) -> bool {
    &&& text == size + (seq!['\''] + (flag + (seq![base] + digits)))
    &&& size.len() > 0 ==> figure(size[0])
    &&& forall|k: int| 0 <= k < size.len() ==> figure(#[trigger] size[k]) || size[k] == '_'
    &&& flag == Seq::<char>::empty() || flag == seq!['s'] || flag == seq!['S']
    &&& base_letter(base)
    &&& digits.len() > 0
    &&& forall|k: int| 0 <= k < digits.len() ==> based_figure(#[trigger] digits[k])
}

/// A bracket, a separator or an operator.
pub open spec fn sign_text(text: Seq<char>) -> bool {
    ||| {
        let c = text[0];
        &&& text.len() == 1
        &&& c == '(' || c == ')' || c == '[' || c == ']' || c == '{' || c == '}' || c == ',' || c
            == ';' || c == ':' || c == '.' || c == '=' || c == '#' || c == '~' || c == '!' || c
            == '&' || c == '|' || c == '^' || c == '+' || c == '-' || c == '*' || c == '/'
    }
    ||| text == seq!['&', '&']
    ||| text == seq!['|', '|']
    ||| text == seq!['~', '^']
    ||| text == seq!['^', '~']
}

/// The text of a token is of its kind.
pub open spec fn well_spelled(mark: Mark) -> bool {
    match mark.0 {
        TokenKind::Word => word_text(mark.1),
        TokenKind::Number => number_text(mark.1),
        TokenKind::Constant => spaced_text(mark.1) || exists|
            size: Seq<char>,
            flag: Seq<char>,
            base: char,
            digits: Seq<char>,
        | #[trigger] based_text(mark.1, size, flag, base, digits),
        TokenKind::Symbol => sign_text(mark.1),
    }
}

/// The texts of tokens, each with a space behind it.
pub open spec fn spaced_out(marks: Seq<Mark>) -> Seq<char>
    decreases marks.len(),
{
    if marks.len() == 0 {
        seq![]
    } else {
        marks[0].1 + (seq![' '] + spaced_out(marks.skip(1)))
    }
}

proof fn lemma_run_end(text: Seq<char>, i: int, end: int, class: CharClass)
    requires
        0 <= i <= end <= text.len(),
        forall|k: int| i <= k < end ==> in_class(#[trigger] text[k], class),
        end < text.len() ==> !in_class(text[end], class),
    ensures
        run_end(text, i, class) == end,
    decreases end - i,
{
    if i < end {
        assert(in_class(text[i], class));
        lemma_run_end(text, i + 1, end, class);
    }
}

proof fn lemma_run_stops(text: Seq<char>, i: int, at: int, class: CharClass)
    requires
        0 <= i <= at < text.len(),
        !in_class(text[at], class),
    ensures
        run_end(text, i, class) <= at,
    decreases at - i,
{
    if i < at {
        lemma_run_stops(text, i + 1, at, class);
    }
}

/// The text has the token at the place, with a space behind it.
spec fn token_here(text: Seq<char>, i: int, own: Seq<char>) -> bool {
    &&& 0 <= i
    &&& own.len() > 0
    &&& i + own.len() < text.len()
    &&& text[i + own.len()] == ' '
    &&& forall|k: int| 0 <= k < own.len() ==> text[i + k] == #[trigger] own[k]
}

proof fn lemma_word_scanned(text: Seq<char>, i: int, own: Seq<char>)
    requires
        token_here(text, i, own),
        word_text(own),
    ensures
        scan(text, i) == Scan::Found(TokenKind::Word, i + own.len()),
{
    let end = i + own.len();
    assert(text[i + 0] == own[0]);
    if initial(own[0]) {
        assert forall|k: int| i <= k < end implies in_class(#[trigger] text[k], CharClass::Name) by {
            assert(text[i + (k - i)] == own[k - i]);
        }
        lemma_run_end(text, i, end, CharClass::Name);
    } else {
        assert forall|k: int| i <= k < end implies in_class(#[trigger] text[k], CharClass::Solid) by {
            assert(text[i + (k - i)] == own[k - i]);
        }
        lemma_run_end(text, i, end, CharClass::Solid);
    }
}

proof fn lemma_number_scanned(text: Seq<char>, i: int, own: Seq<char>)
    requires
        token_here(text, i, own),
        number_text(own),
    ensures
        scan(text, i) == Scan::Found(TokenKind::Number, i + own.len()),
{
    let end = i + own.len();
    assert(text[i + 0] == own[0]);
    assert forall|k: int| i <= k < end implies figure(#[trigger] text[k]) by {
        assert(text[i + (k - i)] == own[k - i]);
    }
    lemma_run_end(text, i, end, CharClass::Decimal);
    lemma_run_end(text, i, end, CharClass::Digit);
}

proof fn lemma_spaced_scanned(text: Seq<char>, i: int, own: Seq<char>)
    requires
        token_here(text, i, own),
        spaced_text(own),
    ensures
        scan(text, i) == Scan::Found(TokenKind::Constant, i + own.len()),
{
    let end = i + own.len();
    assert(text[i + 0] == own[0]);
    assert forall|k: int| i <= k < end implies figure(#[trigger] text[k]) || text[k] == '_' by {
        assert(text[i + (k - i)] == own[k - i]);
    }
    lemma_run_end(text, i, end, CharClass::Decimal);
    let at = choose|at: int| 0 <= at < own.len() && own[at] == '_';
    assert(text[i + at] == '_');
    lemma_run_stops(text, i, i + at, CharClass::Digit);
}

proof fn lemma_based_scanned(
    text: Seq<char>,
    i: int,
    own: Seq<char>,
    size: Seq<char>,
    flag: Seq<char>,
    base: char,
    digits: Seq<char>,
)
    requires
        token_here(text, i, own),
        based_text(own, size, flag, base, digits),
    ensures
        scan(text, i) == Scan::Found(TokenKind::Constant, i + own.len()),
{
    let end = i + own.len();
    let quote = i + size.len();
    let at = quote + 1 + flag.len();
    assert(own.len() == size.len() + 1 + flag.len() + 1 + digits.len());
    assert(own[size.len() as int] == '\'');
    assert(text[i + size.len()] == '\'');
    assert(own[(size.len() + 1 + flag.len()) as int] == base);
    assert(text[i + (size.len() + 1 + flag.len())] == base);
    assert(text[at] == base);
    if flag.len() > 0 {
        assert(own[(size.len() + 1) as int] == flag[0]);
        assert(text[i + (size.len() + 1)] == flag[0]);
        assert(text[quote + 1] == flag[0]);
    } else {
        assert(at == quote + 1);
    }
    assert forall|k: int| at + 1 <= k < end implies in_class(
        #[trigger] text[k],
        CharClass::Based,
    ) by {
        let m = k - (at + 1);
        assert(own[size.len() + 1 + flag.len() + 1 + m] == digits[m]);
        assert(text[i + (k - i)] == own[k - i]);
    }
    lemma_run_end(text, at + 1, end, CharClass::Based);
    assert(based_end(text, quote) == Some(end));
    assert(text[i + 0] == own[0]);
    if size.len() > 0 {
        assert forall|k: int| i <= k < quote implies in_class(
            #[trigger] text[k],
            CharClass::Decimal,
        ) by {
            assert(own[k - i] == size[k - i]);
            assert(text[i + (k - i)] == own[k - i]);
        }
        assert(own[0] == size[0]);
        lemma_run_end(text, i, quote, CharClass::Decimal);
    }
}

proof fn lemma_sign_scanned(text: Seq<char>, i: int, own: Seq<char>)
    requires
        token_here(text, i, own),
        sign_text(own),
    ensures
        scan(text, i) == Scan::Found(TokenKind::Symbol, i + own.len()),
{
    assert(text[i + 0] == own[0]);
    if own.len() == 1 {
        assert(text[i + 1] == ' ');
    } else {
        assert(own.len() == 2);
        assert(text[i + 1] == own[1]);
    }
}

proof fn lemma_scanned(text: Seq<char>, i: int, mark: Mark)
    requires
        token_here(text, i, mark.1),
        well_spelled(mark),
    ensures
        scan(text, i) == Scan::Found(mark.0, i + mark.1.len()),
{
    match mark.0 {
        TokenKind::Word => {
            lemma_word_scanned(text, i, mark.1);
        },
        TokenKind::Number => {
            lemma_number_scanned(text, i, mark.1);
        },
        TokenKind::Constant => {
            if spaced_text(mark.1) {
                lemma_spaced_scanned(text, i, mark.1);
            } else {
                let (size, flag, base, digits) = choose|
                    size: Seq<char>,
                    flag: Seq<char>,
                    base: char,
                    digits: Seq<char>,
                | #[trigger] based_text(mark.1, size, flag, base, digits);
                lemma_based_scanned(text, i, mark.1, size, flag, base, digits);
            }
        },
        TokenKind::Symbol => {
            lemma_sign_scanned(text, i, mark.1);
        },
    }
}

/// The tokens have the kinds and the texts of the marks.
pub open spec fn marked(toks: Seq<TokenV>, marks: Seq<Mark>) -> bool {
    &&& toks.len() == marks.len()
    &&& forall|k: int|
        0 <= k < marks.len() ==> toks[k].kind == (#[trigger] marks[k]).0 && toks[k].text
            == marks[k].1
}

proof fn lemma_mark_nonempty(mark: Mark)
    requires
        well_spelled(mark),
    ensures
        mark.1.len() > 0,
{
}

proof fn lemma_tokens_from(text: Seq<char>, i: int, marks: Seq<Mark>)
    requires
        0 <= i <= text.len(),
        text.skip(i) == spaced_out(marks),
        forall|k: int| 0 <= k < marks.len() ==> well_spelled(#[trigger] marks[k]),
    ensures
        tokens_from(text, i).1 is None,
        marked(tokens_from(text, i).0, marks),
    decreases marks.len(),
{
    if marks.len() == 0 {
        assert(text.skip(i).len() == 0);
    } else {
        let own = marks[0].1;
        let rest = marks.skip(1);
        let tail = spaced_out(rest);
        assert(text.skip(i) == own + (seq![' '] + tail));
        assert(text.skip(i).len() == own.len() + 1 + tail.len());
        lemma_mark_nonempty(marks[0]);
        let end = i + own.len();
        assert forall|k: int| 0 <= k < own.len() implies text[i + k] == #[trigger] own[k] by {
            assert(text.skip(i)[k] == own[k]);
        }
        assert(text.skip(i)[own.len() as int] == ' ');
        assert(text[end] == ' ');
        lemma_scanned(text, i, marks[0]);
        assert(text.skip(end + 1) =~= tail) by {
            assert forall|k: int| 0 <= k < tail.len() implies text.skip(end + 1)[k] == tail[k] by {
                assert(text.skip(i)[own.len() + 1 + k] == tail[k]);
            }
        }
        lemma_tokens_from(text, end + 1, rest);
        assert(scan(text, end) == Scan::Skip(end + 1));
        assert(tokens_from(text, end) == tokens_from(text, end + 1));
        let more = tokens_from(text, end).0;
        let all = tokens_from(text, i).0;
        assert(all.len() == 1 + more.len());
        assert(text.subrange(i, end) =~= own);
        assert forall|k: int| 0 <= k < marks.len() implies all[k].kind == (#[trigger] marks[k]).0
            && all[k].text == marks[k].1 by {
            if k > 0 {
                assert(all[k] == more[k - 1]);
                assert(rest[k - 1] == marks[k]);
            }
        }
    }
}

/// Tokens that are written with spaces behind them are read one by one.
pub proof fn lemma_tokens_read(marks: Seq<Mark>)
    requires
        forall|k: int| 0 <= k < marks.len() ==> well_spelled(#[trigger] marks[k]),
    ensures
        tokens(spaced_out(marks)).1 is None,
        marked(tokens(spaced_out(marks)).0, marks),
{
    let text = spaced_out(marks);
    assert(text.skip(0) =~= text);
    lemma_tokens_from(text, 0, marks);
}

/// A netlist of one module is read as the module that was written: its name, its ports and wires in
/// the order in which they are declared, its assignments, and its instances with their links.
pub proof fn lemma_netlist_read(written: Written)
    requires
        module_sound(written),
        module_marks(written).len() <= usize::MAX,
        forall|k: int|
            0 <= k < module_marks(written).len() ==> well_spelled(
                #[trigger] module_marks(written)[k],
            ),
    ensures
        netlist_of(spaced_out(module_marks(written))) == Ok::<_, NetlistErrorV>(
            module_meant(written),
        ),
{
    let marks = module_marks(written);
    lemma_tokens_read(marks);
    let toks = tokens(spaced_out(marks)).0;
    assert(stands(toks, 0, marks)) by {
        assert forall|k: int| 0 <= k < marks.len() implies toks[0 + k].kind == (
        #[trigger] marks[k]).0 && toks[0 + k].text == marks[k].1 by {
            assert(0 + k == k);
        }
    }
    lemma_module_read(toks, written);
}

/// The line feeds before a place.
pub open spec fn feeds_before(text: Seq<char>, i: int) -> Set<int> {
    Set::new(|k: int| 0 <= k < i && text[k] == '\n')
}

/// The line of a place counts the line feeds before it, and its column the characters since the last
/// one.
pub proof fn lemma_place_counted(text: Seq<char>, i: int)
    requires
        0 <= i <= text.len(),
    ensures
        feeds_before(text, i).finite(),
        lines_before(text, i) == feeds_before(text, i).len(),
        chars_before(text, i) <= i,
        forall|k: int| i - chars_before(text, i) <= k < i ==> #[trigger] text[k] != '\n',
        chars_before(text, i) < i ==> text[i - chars_before(text, i) - 1] == '\n',
    decreases i,
{
    let all = feeds_before(text, i);
    if i == 0 {
        assert(all =~= Set::empty());
    } else {
        lemma_place_counted(text, i - 1);
        if text[i - 1] == '\n' {
            assert(all =~= feeds_before(text, i - 1).insert(i - 1));
        } else {
            assert(all =~= feeds_before(text, i - 1));
        }
    }
}

/// The place is the first one from `i` on where the two characters stand.
pub open spec fn first_pair(text: Seq<char>, i: int, a: char, b: char, at: int) -> bool {
    &&& i <= at
    &&& at + 1 < text.len()
    &&& text[at] == a
    &&& text[at + 1] == b
    &&& forall|k: int| i <= k < at ==> !(#[trigger] text[k] == a && text[k + 1] == b)
}

proof fn lemma_behind_pair(text: Seq<char>, i: int, a: char, b: char, at: int)
    requires
        0 <= i,
        first_pair(text, i, a, b, at),
    ensures
        behind_pair(text, i, a, b) == Some(at + 2),
    decreases at - i,
{
    if i < at {
        assert(!(text[i] == a && text[i + 1] == b));
        lemma_behind_pair(text, i + 1, a, b, at);
    }
}

/// White space, comments, attributes and directives say nothing: the tokens are those behind them.
pub proof fn lemma_gaps_skipped(text: Seq<char>, i: int, end: int)
    requires
        0 <= i < text.len(),
    ensures
        text[i] == ' ' || text[i] == '\t' || text[i] == '\n' || text[i] == '\r' ==> tokens_from(
            text,
            i,
        ) == tokens_from(text, i + 1),
        i < end <= text.len() && (end < text.len() ==> text[end] == '\n') && (forall|k: int|
            i <= k < end ==> #[trigger] text[k] != '\n') && (text[i] == '`' || (i + 1 < end
            && text[i] == '/' && text[i + 1] == '/')) ==> tokens_from(text, i) == tokens_from(
            text,
            end,
        ),
        i + 1 < text.len() && text[i] == '/' && text[i + 1] == '*' && first_pair(
            text,
            i + 2,
            '*',
            '/',
            end,
        ) ==> tokens_from(text, i) == tokens_from(text, end + 2),
        i + 1 < text.len() && text[i] == '(' && text[i + 1] == '*' && first_pair(
            text,
            i + 2,
            '*',
            ')',
            end,
        ) ==> tokens_from(text, i) == tokens_from(text, end + 2),
{
    if i < end <= text.len() && (end < text.len() ==> text[end] == '\n') && (forall|k: int|
        i <= k < end ==> #[trigger] text[k] != '\n') {
        lemma_run_end(text, i, end, CharClass::Line);
    }
    if first_pair(text, i + 2, '*', '/', end) {
        lemma_behind_pair(text, i + 2, '*', '/', end);
    }
    if first_pair(text, i + 2, '*', ')', end) {
        lemma_behind_pair(text, i + 2, '*', ')', end);
    }
}

/// Tokens start at the bytes before them: as many as characters in a text of the basic set, and up
/// to four for each character elsewhere.
pub proof fn lemma_bytes_counted(text: Seq<char>, n: int)
    requires
        0 <= n <= text.len(),
    ensures
        (forall|k: int| 0 <= k < n ==> (#[trigger] text[k] as u32) < 0x80) ==> bytes_before(text, n)
            == n,
        n <= bytes_before(text, n) <= 4 * n,
        n > 0 ==> bytes_before(text, n) - bytes_before(text, n - 1) == if (text[n - 1] as u32)
            < 0x80 {
            1int
        } else if (text[n - 1] as u32) < 0x800 {
            2
        } else if (text[n - 1] as u32) < 0x10000 {
            3
        } else {
            4
        },
    decreases n,
{
    if n > 0 {
        lemma_bytes_counted(text, n - 1);
    }
}

/// A token has the text between its place and its end, and starts at the bytes before its place.
pub proof fn lemma_token_places(text: Seq<char>, i: int, k: int)
    requires
        0 <= i <= text.len(),
        0 <= k < tokens_from(text, i).0.len(),
    ensures
        ({
            let token = tokens_from(text, i).0[k];
            &&& i <= token.place
            &&& token.text.len() > 0
            &&& token.place + token.text.len() <= text.len()
            &&& token.text == text.subrange(token.place, token.place + token.text.len())
            &&& token.start == bytes_before(text, token.place)
            &&& k > 0 ==> tokens_from(text, i).0[k - 1].place + tokens_from(text, i).0[k
                - 1].text.len() <= token.place
        }),
    decreases text.len() - i,
{
    if i < text.len() {
        match scan(text, i) {
            Scan::Skip(end) => {
                if i < end <= text.len() {
                    lemma_token_places(text, end, k);
                }
            },
            Scan::Found(_, end) => {
                if i < end <= text.len() {
                    let rest = tokens_from(text, end).0;
                    let all = tokens_from(text, i).0;
                    if k > 0 {
                        assert(all[k] == rest[k - 1]);
                        lemma_token_places(text, end, k - 1);
                        if k > 1 {
                            assert(all[k - 1] == rest[k - 2]);
                        }
                    }
                }
            },
            Scan::Bad => {},
        }
    }
}

} // verus!
