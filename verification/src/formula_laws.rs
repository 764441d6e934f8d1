//! What becomes of a formula before it is evaluated.
use vstd::prelude::*;

use crate::lookup_table::{operator_char, prepared, stands_alone, word_char, word_replaced};

verus! {

/// A letter, a digit or an underscore.
pub open spec fn in_word(c: char) -> bool {
    ('a' <= c <= 'z') || ('A' <= c <= 'Z') || ('0' <= c <= '9') || c == '_'
}

/// The character at the place is no part of a longer word.
pub open spec fn apart(formula: Seq<char>, i: int) -> bool {
    (i > 0 ==> !in_word(formula[i - 1])) && (i + 1 < formula.len() ==> !in_word(formula[i + 1]))
}

/// What becomes of one character: the signs of conjunction and disjunction change, a one and a zero
/// that are words of their own become the constants, and all else stays.
pub open spec fn becomes(formula: Seq<char>, i: int) -> Seq<char> {
    let c = formula[i];
    if c == '*' {
        seq!['&']
    } else if c == '+' {
        seq!['|']
    } else if c == '1' && apart(formula, i) {
        "High()"@
    } else if c == '0' && apart(formula, i) {
        "Low()"@
    } else {
        seq![c]
    }
}

/// What becomes of the first characters.
pub open spec fn all_become(formula: Seq<char>, n: nat) -> Seq<char>
    decreases n,
{
    if n == 0 {
        seq![]
    } else {
        all_become(formula, (n - 1) as nat) + becomes(formula, n - 1)
    }
}

proof fn lemma_replaced_prefix(
    text: Seq<char>,
    letter: char,
    replacement: Seq<char>,
    m: nat,
    n: nat,
)
    requires
        m <= n <= text.len(),
    ensures
        word_replaced(text, letter, replacement, m).len() <= word_replaced(
            text,
            letter,
            replacement,
            n,
        ).len(),
        forall|k: int|
            0 <= k < word_replaced(text, letter, replacement, m).len() ==> #[trigger] word_replaced(
                text,
                letter,
                replacement,
                n,
            )[k] == word_replaced(text, letter, replacement, m)[k],
    decreases n - m,
{
    if m < n {
        lemma_replaced_prefix(text, letter, replacement, m, (n - 1) as nat);
    }
}

proof fn lemma_replaced_grows(text: Seq<char>, letter: char, replacement: Seq<char>, n: nat)
    requires
        n <= text.len(),
        replacement.len() > 0,
    ensures
        word_replaced(text, letter, replacement, n).len() >= n,
    decreases n,
{
    if n > 0 {
        lemma_replaced_grows(text, letter, replacement, (n - 1) as nat);
    }
}

/// Characters that are no zeros stay.
proof fn lemma_rest_stays(high: Seq<char>, low: Seq<char>, from: nat, piece: Seq<char>, n: nat)
    requires
        n <= piece.len(),
        from + piece.len() <= high.len(),
        forall|k: int| 0 <= k < piece.len() ==> high[from + k] == #[trigger] piece[k] && piece[k] != '0',
    ensures
        word_replaced(high, '0', low, from + n) == word_replaced(high, '0', low, from) + piece.take(
            n as int,
        ),
    decreases n,
{
    if n > 0 {
        lemma_rest_stays(high, low, from, piece, (n - 1) as nat);
        let m = (from + n) as nat;
        assert(high[m - 1] == piece[n - 1]);
        assert(piece.take(n as int) =~= piece.take(n - 1).push(piece[n - 1]));
        assert(word_replaced(high, '0', low, m) == word_replaced(high, '0', low, (m - 1) as nat).push(
            high[m - 1],
        ));
        assert(word_replaced(high, '0', low, from) + piece.take(n as int) =~= (word_replaced(
            high,
            '0',
            low,
            from,
        ) + piece.take(n - 1)).push(piece[n - 1]));
    } else {
        assert(word_replaced(high, '0', low, from) + piece.take(0) =~= word_replaced(
            high,
            '0',
            low,
            from,
        ));
    }
}

proof fn lemma_prefix_becomes(formula: Seq<char>, n: nat)
    requires
        n <= formula.len(),
    ensures
        ({
            let operators = Seq::new(formula.len(), |i: int| operator_char(formula[i]));
            let high = word_replaced(operators, '1', "High()"@, operators.len());
            let before = word_replaced(operators, '1', "High()"@, n);
            before.len() <= high.len() && word_replaced(high, '0', "Low()"@, before.len())
                == all_become(formula, n)
        }),
    decreases n,
{
    let operators = Seq::new(formula.len(), |i: int| operator_char(formula[i]));
    let all = operators.len();
    let one = "High()"@;
    let low = "Low()"@;
    let high = word_replaced(operators, '1', one, all);
    let before = word_replaced(operators, '1', one, n);
    reveal_strlit("High()");
    reveal_strlit("Low()");
    lemma_replaced_prefix(operators, '1', one, n, all);
    if n > 0 {
        let m = (n - 1) as nat;
        let i = n - 1;
        lemma_prefix_becomes(formula, m);
        let start = word_replaced(operators, '1', one, m);
        let pos = start.len();
        lemma_replaced_prefix(operators, '1', one, m, all);
        lemma_replaced_grows(operators, '1', one, m);
        let c = operators[i];
        assert(c == operator_char(formula[i]));
        assert(i > 0 ==> operators[i - 1] == operator_char(formula[i - 1]));
        assert(i + 1 < all ==> operators[i + 1] == operator_char(formula[i + 1]));
        assert(stands_alone(operators, i) == apart(formula, i));
        if c == '1' && stands_alone(operators, i) {
            assert(before == start + one);
            assert forall|k: int| 0 <= k < one.len() implies high[pos + k] == #[trigger] one[k]
                && one[k] != '0' by {
                assert(before[pos + k] == one[k]);
            }
            lemma_rest_stays(high, low, pos, one, one.len());
            assert(one.take(one.len() as int) =~= one);
        } else {
            assert(before == start.push(c));
            assert(before[pos as int] == c);
            assert(high[pos as int] == c);
            let done = word_replaced(high, '0', low, (pos + 1) as nat);
            if c == '0' {
                assert(word_char(c));
                if i > 0 {
                    let l = (m - 1) as nat;
                    let earlier = word_replaced(operators, '1', one, l);
                    assert(!(operators[i - 1] == '1' && stands_alone(operators, i - 1))) by {
                        assert(operators[(i - 1) + 1] == c);
                    }
                    assert(start == earlier.push(operators[i - 1]));
                    assert(high[pos - 1] == start[pos - 1]);
                    assert(high[pos - 1] == operators[i - 1]);
                } else {
                    assert(start =~= seq![]);
                    assert(pos == 0);
                }
                if n < all {
                    let next = word_replaced(operators, '1', one, n + 1);
                    lemma_replaced_prefix(operators, '1', one, n + 1, all);
                    assert(!(operators[i + 1] == '1' && stands_alone(operators, i + 1))) by {
                        assert(operators[(i + 1) - 1] == c);
                    }
                    assert(next == before.push(operators[i + 1]));
                    assert(next[(pos + 1) as int] == operators[i + 1]);
                    assert(high[(pos + 1) as int] == operators[i + 1]);
                } else {
                    assert(high == before);
                }
                assert(stands_alone(high, pos as int) == stands_alone(operators, i));
            }
            assert(done == if c == '0' && stands_alone(high, pos as int) {
                word_replaced(high, '0', low, pos) + low
            } else {
                word_replaced(high, '0', low, pos).push(c)
            });
            assert(word_replaced(high, '0', low, pos).push(c) =~= word_replaced(high, '0', low, pos)
                + seq![c]);
        }
    }
}

/// A prepared formula is made of what becomes of each character, in order.
pub proof fn lemma_formula_prepared(formula: Seq<char>)
    ensures
        prepared(formula) == all_become(formula, formula.len()),
{
    lemma_prefix_becomes(formula, formula.len());
}

} // verus!
