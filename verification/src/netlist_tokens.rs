//! The words, numbers and symbols of netlist text.
use vstd::prelude::*;

use crate::gatelist::white;
use crate::text::{slice_chars, text_of};

verus! {

/// What a token is.
#[derive(Debug, Clone, Copy, PartialEq, Eq, Structural)]
pub enum TokenKind {
    /// A name or a keyword; a name with a backslash runs up to white space
    Word,
    /// Decimal digits
    Number,
    /// Any other constant
    Constant,
    /// An operator, a bracket or a separator
    Symbol,
}

/// A token with the byte and the character at which it starts.
pub struct Token {
    pub kind: TokenKind,
    pub text: String,
    pub start: usize,
    pub place: usize,
}

/// The shape of a token.
pub struct TokenV {
    pub kind: TokenKind,
    pub text: Seq<char>,
    pub start: int,
    pub place: int,
}

impl View for Token {
    type V = TokenV;

    open spec fn view(&self) -> TokenV {
        TokenV {
            kind: self.kind,
            text: self.text@,
            start: self.start as int,
            place: self.place as int,
        }
    }
}

/// Classes of characters that tokens run over.
#[derive(Debug, Clone, Copy, PartialEq, Eq, Structural)]
pub enum CharClass {
    /// Letters, digits, underscores and dollar signs
    Name,
    /// Anything but white space
    Solid,
    /// Digits
    Digit,
    /// Digits and underscores
    Decimal,
    /// Digits of any base, unknown and floating ones, and underscores
    Based,
    /// Anything but a line feed
    Line,
}

/// A letter of the basic set.
pub open spec fn letter(c: char) -> bool {
    ('a' <= c <= 'z') || ('A' <= c <= 'Z')
}

/// A digit.
pub open spec fn numeral(c: char) -> bool {
    '0' <= c <= '9'
}

/// The character is of the class.
pub open spec fn in_class(c: char, class: CharClass) -> bool {
    match class {
        CharClass::Name => letter(c) || numeral(c) || c == '_' || c == '$',
        CharClass::Solid => !white(c),
        CharClass::Digit => numeral(c),
        CharClass::Decimal => numeral(c) || c == '_',
        CharClass::Based => numeral(c) || ('a' <= c <= 'f') || ('A' <= c <= 'F') || c == 'x' || c
            == 'X' || c == 'z' || c == 'Z' || c == '?' || c == '_',
        CharClass::Line => c != '\n',
    }
}

/// Where the run of the class from `i` on ends.
pub open spec fn run_end(text: Seq<char>, i: int, class: CharClass) -> int
    decreases text.len() - i,
{
    if i < 0 || i >= text.len() || !in_class(text[i], class) {
        i
    } else {
        run_end(text, i + 1, class)
    }
}

/// The two characters stand at `i`.
pub open spec fn pair_at(text: Seq<char>, i: int, a: char, b: char) -> bool {
    0 <= i && i + 1 < text.len() && text[i] == a && text[i + 1] == b
}

/// Behind the first place from `i` on where the two characters stand.
pub open spec fn behind_pair(text: Seq<char>, i: int, a: char, b: char) -> Option<int>
    decreases text.len() - i,
{
    if i < 0 || i + 1 >= text.len() {
        None
    } else if text[i] == a && text[i + 1] == b {
        Some(i + 2)
    } else {
        behind_pair(text, i + 1, a, b)
    }
}

/// Where the digits of a based constant end, behind its quote at `i`.
///
/// `None` where the base or the digits are missing.
pub open spec fn based_end(text: Seq<char>, i: int) -> Option<int> {
    let base = if 0 <= i + 1 < text.len() && (text[i + 1] == 's' || text[i + 1] == 'S') {
        i + 2
    } else {
        i + 1
    };
    if 0 <= base < text.len() && base_char(text[base]) && run_end(text, base + 1, CharClass::Based)
        > base + 1 {
        Some(run_end(text, base + 1, CharClass::Based))
    } else {
        None
    }
}

/// A letter that names a base.
pub open spec fn base_char(c: char) -> bool {
    c == 'b' || c == 'B' || c == 'o' || c == 'O' || c == 'd' || c == 'D' || c == 'h' || c == 'H'
}

/// A character that stands as a symbol of its own.
pub open spec fn symbol_char(c: char) -> bool {
    c == '(' || c == ')' || c == '[' || c == ']' || c == '{' || c == '}' || c == ',' || c == ';' || c
        == ':' || c == '.' || c == '=' || c == '#' || c == '~' || c == '!' || c == '&' || c == '|'
        || c == '^' || c == '+' || c == '-' || c == '*' || c == '/'
}

/// Two characters that stand as one symbol.
pub open spec fn symbol_pair(a: char, b: char) -> bool {
    (a == '&' && b == '&') || (a == '|' && b == '|') || (a == '~' && b == '^') || (a == '^' && b
        == '~')
}

/// What stands next in the text.
pub enum Scan {
    /// White space, a comment, an attribute or a directive up to the place
    Skip(int),
    /// A token up to the place
    Found(TokenKind, int),
    /// Nothing that a netlist can hold
    Bad,
}

/// What stands at `i`.
pub open spec fn scan(text: Seq<char>, i: int) -> Scan {
    let c = text[i];
    if white(c) {
        Scan::Skip(i + 1)
    } else if c == '`' || pair_at(text, i, '/', '/') {
        Scan::Skip(run_end(text, i, CharClass::Line))
    } else if pair_at(text, i, '/', '*') {
        match behind_pair(text, i + 2, '*', '/') {
            Some(end) => Scan::Skip(end),
            None => Scan::Bad,
        }
    } else if pair_at(text, i, '(', '*') {
        match behind_pair(text, i + 2, '*', ')') {
            Some(end) => Scan::Skip(end),
            None => Scan::Bad,
        }
    } else if letter(c) || c == '_' {
        Scan::Found(TokenKind::Word, run_end(text, i, CharClass::Name))
    } else if c == '\\' {
        Scan::Found(TokenKind::Word, run_end(text, i, CharClass::Solid))
    } else if numeral(c) {
        let end = run_end(text, i, CharClass::Decimal);
        if end < text.len() && text[end] == '\'' {
            match based_end(text, end) {
                Some(end) => Scan::Found(TokenKind::Constant, end),
                None => Scan::Bad,
            }
        } else if end == run_end(text, i, CharClass::Digit) {
            Scan::Found(TokenKind::Number, end)
        } else {
            Scan::Found(TokenKind::Constant, end)
        }
    } else if c == '\'' {
        match based_end(text, i) {
            Some(end) => Scan::Found(TokenKind::Constant, end),
            None => Scan::Bad,
        }
    } else if i + 1 < text.len() && symbol_pair(c, text[i + 1]) {
        Scan::Found(TokenKind::Symbol, i + 2)
    } else if symbol_char(c) {
        Scan::Found(TokenKind::Symbol, i + 1)
    } else {
        Scan::Bad
    }
}

/// How many bytes a character takes in UTF-8.
pub open spec fn byte_count(c: char) -> nat {
    let code = c as u32;
    if code < 0x80 {
        1
    } else if code < 0x800 {
        2
    } else if code < 0x10000 {
        3
    } else {
        4
    }
}

/// How many bytes the first `n` characters take.
pub open spec fn bytes_before(text: Seq<char>, n: int) -> nat
    decreases n,
{
    if n <= 0 {
        0
    } else {
        bytes_before(text, n - 1) + byte_count(text[n - 1])
    }
}

/// The tokens of the text from `i` on, up to the first place where something else stands.
pub open spec fn tokens_from(text: Seq<char>, i: int) -> (Seq<TokenV>, Option<int>)
    decreases text.len() - i,
{
    if i < 0 || i >= text.len() {
        (seq![], None)
    } else {
        match scan(text, i) {
            Scan::Bad => (seq![], Some(i)),
            Scan::Skip(end) => if i < end <= text.len() {
                tokens_from(text, end)
            } else {
                (seq![], Some(i))
            },
            Scan::Found(kind, end) => if i < end <= text.len() {
                let (rest, bad) = tokens_from(text, end);
                (
                    seq![
                        TokenV {
                            kind,
                            text: text.subrange(i, end),
                            start: bytes_before(text, i) as int,
                            place: i,
                        },
                    ] + rest,
                    bad,
                )
            } else {
                (seq![], Some(i))
            },
        }
    }
}

/// The tokens of a text, and the place behind them that no token can have.
pub open spec fn tokens(text: Seq<char>) -> (Seq<TokenV>, Option<int>) {
    tokens_from(text, 0)
}

/// The shapes of tokens.
pub open spec fn token_views(tokens: Seq<Token>) -> Seq<TokenV> {
    Seq::new(tokens.len(), |i: int| tokens[i]@)
}

fn is_in_class(c: char, class: CharClass) -> (r: bool)
    ensures
        r == in_class(c, class),
{
    let is_letter = ('a' <= c && c <= 'z') || ('A' <= c && c <= 'Z');
    let is_numeral = '0' <= c && c <= '9';
    match class {
        CharClass::Name => is_letter || is_numeral || c == '_' || c == '$',
        CharClass::Solid => !crate::gatelist::is_white(c),
        CharClass::Digit => is_numeral,
        CharClass::Decimal => is_numeral || c == '_',
        CharClass::Based => is_numeral || ('a' <= c && c <= 'f') || ('A' <= c && c <= 'F') || c
            == 'x' || c == 'X' || c == 'z' || c == 'Z' || c == '?' || c == '_',
        CharClass::Line => c != '\n',
    }
}

fn find_run_end(text: &Vec<char>, i: usize, class: CharClass) -> (r: usize)
    requires
        i <= text@.len(),
    ensures
        r == run_end(text@, i as int, class),
        i <= r <= text@.len(),
{
    let mut end: usize = i;
    while end < text.len() && is_in_class(text[end], class)
        invariant
            i <= end <= text@.len(),
            run_end(text@, i as int, class) == run_end(text@, end as int, class),
        decreases text@.len() - end,
    {
        end += 1;
    }
    end
}

fn is_pair_at(text: &Vec<char>, i: usize, a: char, b: char) -> (r: bool)
    requires
        i < text@.len(),
    ensures
        r == pair_at(text@, i as int, a, b),
{
    text.len() - i > 1 && text[i] == a && text[i + 1] == b
}

fn find_behind_pair(text: &Vec<char>, i: usize, a: char, b: char) -> (r: Option<usize>)
    requires
        i <= text@.len(),
    ensures
        match r {
            Some(end) => behind_pair(text@, i as int, a, b) == Some(end as int) && i < end
                <= text@.len(),
            None => behind_pair(text@, i as int, a, b) is None,
        },
{
    let mut at: usize = i;
    while text.len() - at > 1
        invariant
            i <= at <= text@.len(),
            behind_pair(text@, i as int, a, b) == behind_pair(text@, at as int, a, b),
        decreases text@.len() - at,
    {
        if text[at] == a && text[at + 1] == b {
            return Some(at + 2);
        }
        at += 1;
    }
    None
}

fn find_based_end(text: &Vec<char>, i: usize) -> (r: Option<usize>)
    requires
        i < text@.len(),
    ensures
        match r {
            Some(end) => based_end(text@, i as int) == Some(end as int) && i < end <= text@.len(),
            None => based_end(text@, i as int) is None,
        },
{
    let len = text.len();
    let mut base: usize = i + 1;
    if base < len && (text[base] == 's' || text[base] == 'S') {
        base += 1;
    }
    if base >= text.len() {
        return None;
    }
    let c = text[base];
    if c == 'b' || c == 'B' || c == 'o' || c == 'O' || c == 'd' || c == 'D' || c == 'h' || c
        == 'H' {
        let end = find_run_end(text, base + 1, CharClass::Based);
        if end > base + 1 {
            return Some(end);
        }
    }
    None
}

/// What stands next, with the place where it ends; no kind for what is skipped.
struct Piece {
    kind: Option<TokenKind>,
    end: usize,
}

fn next_piece(text: &Vec<char>, i: usize) -> (r: Option<Piece>)
    requires
        i < text@.len(),
    ensures
        match r {
            None => scan(text@, i as int) is Bad,
            Some(piece) => i <= piece.end <= text@.len() && scan(text@, i as int)
                == match piece.kind {
                Some(kind) => Scan::Found(kind, piece.end as int),
                None => Scan::Skip(piece.end as int),
            },
        },
{
    let len = text.len();
    let c = text[i];
    let is_letter = ('a' <= c && c <= 'z') || ('A' <= c && c <= 'Z');
    if crate::gatelist::is_white(c) {
        return Some(Piece { kind: None, end: i + 1 });
    }
    if c == '`' || is_pair_at(text, i, '/', '/') {
        return Some(Piece { kind: None, end: find_run_end(text, i, CharClass::Line) });
    }
    if is_pair_at(text, i, '/', '*') {
        return match find_behind_pair(text, i + 2, '*', '/') {
            Some(end) => Some(Piece { kind: None, end }),
            None => None,
        };
    }
    if is_pair_at(text, i, '(', '*') {
        return match find_behind_pair(text, i + 2, '*', ')') {
            Some(end) => Some(Piece { kind: None, end }),
            None => None,
        };
    }
    if is_letter || c == '_' {
        return Some(
            Piece { kind: Some(TokenKind::Word), end: find_run_end(text, i, CharClass::Name) },
        );
    }
    if c == '\\' {
        return Some(
            Piece { kind: Some(TokenKind::Word), end: find_run_end(text, i, CharClass::Solid) },
        );
    }
    if '0' <= c && c <= '9' {
        let end = find_run_end(text, i, CharClass::Decimal);
        if end < text.len() && text[end] == '\'' {
            return match find_based_end(text, end) {
                Some(end) => Some(Piece { kind: Some(TokenKind::Constant), end }),
                None => None,
            };
        }
        if end == find_run_end(text, i, CharClass::Digit) {
            return Some(Piece { kind: Some(TokenKind::Number), end });
        }
        return Some(Piece { kind: Some(TokenKind::Constant), end });
    }
    if c == '\'' {
        return match find_based_end(text, i) {
            Some(end) => Some(Piece { kind: Some(TokenKind::Constant), end }),
            None => None,
        };
    }
    if len - i > 1 {
        let d = text[i + 1];
        if (c == '&' && d == '&') || (c == '|' && d == '|') || (c == '~' && d == '^') || (c == '^'
            && d == '~') {
            return Some(Piece { kind: Some(TokenKind::Symbol), end: i + 2 });
        }
    }
    if c == '(' || c == ')' || c == '[' || c == ']' || c == '{' || c == '}' || c == ',' || c == ';'
        || c == ':' || c == '.' || c == '=' || c == '#' || c == '~' || c == '!' || c == '&' || c
        == '|' || c == '^' || c == '+' || c == '-' || c == '*' || c == '/' {
        return Some(Piece { kind: Some(TokenKind::Symbol), end: i + 1 });
    }
    None
}

fn count_bytes(text: &Vec<char>, from: usize, to: usize, before: usize) -> (r: usize)
    requires
        from <= to <= text@.len(),
        before == bytes_before(text@, from as int),
        bytes_before(text@, text@.len() as int) <= usize::MAX,
    ensures
        r == bytes_before(text@, to as int),
{
    let mut bytes: usize = before;
    let mut i: usize = from;
    while i < to
        invariant
            from <= i <= to <= text@.len(),
            bytes == bytes_before(text@, i as int),
            bytes_before(text@, text@.len() as int) <= usize::MAX,
        decreases to - i,
    {
        let code: u32 = text[i] as u32;
        proof {
            lemma_bytes_grow(text@, i + 1, text@.len() as int);
        }
        bytes = bytes + if code < 0x80 {
            1
        } else if code < 0x800 {
            2
        } else if code < 0x10000 {
            3
        } else {
            4
        };
        i += 1;
    }
    bytes
}

proof fn lemma_bytes_grow(text: Seq<char>, m: int, n: int)
    requires
        m <= n,
    ensures
        bytes_before(text, m) <= bytes_before(text, n),
    decreases n - m,
{
    if m < n {
        lemma_bytes_grow(text, m, n - 1);
    }
}

/// Splits a text into tokens, up to the first place that no token can have.
pub fn tokenize(text: &Vec<char>) -> (r: (Vec<Token>, Option<usize>))
    requires
        bytes_before(text@, text@.len() as int) <= usize::MAX,
    ensures
        tokens(text@).0 == token_views(r.0@),
        match r.1 {
            Some(bad) => tokens(text@).1 == Some(bad as int) && bad < text@.len(),
            None => tokens(text@).1 is None,
        },
{
    let ghost wanted = tokens(text@);
    let mut found: Vec<Token> = Vec::new();
    let mut i: usize = 0;
    let mut bytes: usize = 0;
    assert(token_views(found@) =~= seq![]);
    assert(seq![] + wanted.0 =~= wanted.0);
    while i < text.len()
        invariant
            i <= text@.len(),
            wanted == tokens(text@),
            bytes == bytes_before(text@, i as int),
            bytes_before(text@, text@.len() as int) <= usize::MAX,
            wanted.0 == token_views(found@) + tokens_from(text@, i as int).0,
            wanted.1 == tokens_from(text@, i as int).1,
        decreases text@.len() - i,
    {
        match next_piece(text, i) {
            None => {
                assert(token_views(found@) + seq![] =~= token_views(found@));
                return (found, Some(i));
            },
            Some(piece) => {
                if piece.end <= i {
                    assert(token_views(found@) + seq![] =~= token_views(found@));
                    return (found, Some(i));
                }
                if let Some(kind) = piece.kind {
                    let ghost before = found@;
                    let word = slice_chars(text, i, piece.end);
                    let token = Token { kind, text: text_of(&word), start: bytes, place: i };
                    let ghost added = token@;
                    found.push(token);
                    proof {
                        let rest = tokens_from(text@, piece.end as int).0;
                        assert(token_views(found@) =~= token_views(before).push(added));
                        assert(token_views(before) + (seq![added] + rest) =~= token_views(found@)
                            + rest);
                    }
                }
                bytes = count_bytes(text, i, piece.end, bytes);
                i = piece.end;
            },
        }
    }
    assert(token_views(found@) + seq![] =~= token_views(found@));
    (found, None)
}

} // verus!
