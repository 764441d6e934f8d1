//! Boolean functions over bits as lookup tables.
use regex::Regex;
use rhai::{Engine, Scope};
use vstd::arithmetic::power::{lemma_pow_positive, pow};
use vstd::prelude::*;
use vstd::string::*;

use crate::bit::Bit;
use crate::collections::{viewed, OrderedMap, Value};
use crate::text::{chars_of, text_of};

verus! {

/// Lookup table implementation for boolean functions involving the Bit enum
#[derive(Debug, PartialEq, Eq, Hash, Clone)]
pub struct LookupTable {
    /// Number of inputs in the boolean function
    pub input_count: usize,
    /// Truth table with 4^n values for each input
    /// Indexes are encoded as following:
    ///     1. 00 = low
    ///     2. 01 = high
    ///     3. 10 = variable
    ///     4. 11 = test
    /// For a 3 input function where the inputs are aa, bb, cc, the index in this vector is 0bccbbaa (c goes in MSB, etc)
    pub truth_table: Vec<Bit>,
    /// Function inputs
    pub input_names: Vec<String>,
    /// Optional: original function value
    pub function: Option<String>,
}

impl View for Bit {
    type V = Bit;

    open spec fn view(&self) -> Bit {
        *self
    }
}

impl Value for Bit {
    fn same(&self, other: &Self) -> (r: bool) {
        *self == *other
    }

    fn duplicate(&self) -> (r: Self) {
        *self
    }
}

/// The two-bit code of a bit.
pub open spec fn code(bit: Bit) -> int {
    match bit {
        Bit::Low => 0,
        Bit::High => 1,
        Bit::Var => 2,
        Bit::Test => 3,
    }
}

/// The bit with a two-bit code.
pub open spec fn decoded(code: int) -> Bit {
    if code == 0 {
        Bit::Low
    } else if code == 1 {
        Bit::High
    } else if code == 2 {
        Bit::Var
    } else {
        Bit::Test
    }
}

/// The place of a row of operands in a table: their codes are its digits, the first one lowest.
pub open spec fn row_index(operands: Seq<Bit>) -> int
    decreases operands.len(),
{
    if operands.len() == 0 {
        0
    } else {
        code(operands[0]) + 4 * row_index(operands.skip(1))
    }
}

/// The operands of a place in a table.
pub open spec fn row_operands(index: int, count: nat) -> Seq<Bit>
    decreases count,
{
    if count == 0 {
        seq![]
    } else {
        seq![decoded(index % 4)] + row_operands(index / 4, (count - 1) as nat)
    }
}

/// How many rows a table has.
pub open spec fn row_count(count: nat) -> int {
    pow(4, count)
}

proof fn lemma_row_count(count: nat)
    ensures
        row_count(count) >= 1,
        row_count(0) == 1,
        count > 0 ==> row_count(count) == 4 * row_count((count - 1) as nat),
{
    lemma_pow_positive(4, count);
    reveal(pow);
}

/// Operands have a place in the table.
pub proof fn lemma_row_index(operands: Seq<Bit>)
    ensures
        0 <= row_index(operands) < row_count(operands.len()),
    decreases operands.len(),
{
    lemma_row_count(operands.len());
    if operands.len() > 0 {
        lemma_row_index(operands.skip(1));
    }
}

/// The operands of a place have that place: no two rows of operands share one.
pub proof fn lemma_row_of_index(operands: Seq<Bit>)
    ensures
        row_operands(row_index(operands), operands.len()) == operands,
    decreases operands.len(),
{
    if operands.len() > 0 {
        lemma_row_of_index(operands.skip(1));
        let index = row_index(operands);
        assert(index % 4 == code(operands[0]));
        assert(index / 4 == row_index(operands.skip(1)));
        assert(seq![operands[0]] + operands.skip(1) =~= operands);
    } else {
        assert(operands =~= seq![]);
    }
}

/// Every place of a table belongs to its operands.
pub proof fn lemma_index_of_row(index: int, count: nat)
    requires
        0 <= index < row_count(count),
    ensures
        row_operands(index, count).len() == count,
        row_index(row_operands(index, count)) == index,
    decreases count,
{
    lemma_row_count(count);
    if count > 0 {
        lemma_index_of_row(index / 4, (count - 1) as nat);
        let row = row_operands(index, count);
        let rest = row_operands(index / 4, (count - 1) as nat);
        assert(row.skip(1) =~= rest);
        assert(row[0] == decoded(index % 4));
        assert(code(decoded(index % 4)) == index % 4);
    }
}

/// The two-bit code of a bit.
fn code_of(bit: Bit) -> (r: usize)
    ensures
        r == code(bit),
{
    match bit {
        Bit::Low => 0,
        Bit::High => 1,
        Bit::Var => 2,
        Bit::Test => 3,
    }
}

/// The operands of a place in a table.
fn operands_of(index: usize, count: usize) -> (r: Vec<Bit>)
    ensures
        r@ == row_operands(index as int, count as nat),
{
    let ghost wanted = row_operands(index as int, count as nat);
    let mut operands: Vec<Bit> = Vec::new();
    let mut left: usize = index;
    let mut k: usize = 0;
    assert(operands@ + row_operands(left as int, (count - k) as nat) =~= wanted);
    while k < count
        invariant
            k <= count,
            operands@ + row_operands(left as int, (count - k) as nat) == wanted,
        decreases count - k,
    {
        let ghost before = operands@;
        let digit: usize = left % 4;
        let bit = if digit == 0 {
            Bit::Low
        } else if digit == 1 {
            Bit::High
        } else if digit == 2 {
            Bit::Var
        } else {
            Bit::Test
        };
        operands.push(bit);
        proof {
            let rest = row_operands((left / 4) as int, (count - k - 1) as nat);
            assert(row_operands(left as int, (count - k) as nat) == seq![bit] + rest);
            assert(before + (seq![bit] + rest) =~= operands@ + rest);
        }
        left = left / 4;
        k += 1;
    }
    assert(operands@ + seq![] =~= operands@);
    operands
}

/// Adds the digits of a row of operands up, the last one first.
fn index_from(operands: &[Bit], from: usize) -> (r: usize)
    requires
        from <= operands@.len(),
        row_count(operands@.len()) <= usize::MAX,
    ensures
        r == row_index(operands@.skip(from as int)),
    decreases operands@.len() - from,
{
    proof {
        lemma_row_index(operands@.skip(from as int));
        lemma_row_index(operands@);
        lemma_count_grows((operands@.len() - from) as nat, operands@.len());
    }
    if from == operands.len() {
        assert(operands@.skip(from as int) =~= seq![]);
        0
    } else {
        assert(operands@.skip(from as int).skip(1) =~= operands@.skip(from + 1));
        let rest = index_from(operands, from + 1);
        code_of(operands[from]) + 4 * rest
    }
}

proof fn lemma_count_grows(small: nat, large: nat)
    requires
        small <= large,
    ensures
        row_count(small) <= row_count(large),
    decreases large - small,
{
    if small < large {
        lemma_row_count(large);
        lemma_count_grows(small, (large - 1) as nat);
    }
}

impl LookupTable {
    /// The table has a value for each row of operands.
    pub open spec fn wf(&self) -> bool {
        self.truth_table@.len() == row_count(self.input_count as nat)
    }

    pub fn new(
        input_count: usize,
        truth_table: Vec<Bit>,
        input_names: Vec<String>,
        function: Option<String>,
    ) -> (r: Self)
        requires
            // Truth table length should be equal to 4**input_count
            truth_table@.len() == row_count(input_count as nat),
        ensures
            r.wf(),
            r.input_count == input_count,
            r.truth_table == truth_table,
            r.input_names == input_names,
            r.function == function,
    {
        LookupTable { input_count, truth_table, input_names, function }
    }

    /// Takes a list of operands, in the same order as `self.input_names`, and returns the result in the LUT
    pub fn evaluate(&self, operands: &[Bit]) -> (r: Bit)
        requires
            self.wf(),
            operands@.len() == self.input_count,
        ensures
            r == self.truth_table@[row_index(operands@)],
    {
        proof {
            lemma_row_index(operands@);
            vstd::std_specs::vec::axiom_spec_len(&self.truth_table);
        }
        // Find the correct index in the LUT
        let index = self.get_index(operands);
        self.truth_table[index]
    }

    /// Used to get the index in the lookup table corresponding with certain operands
    pub fn get_index(&self, operands: &[Bit]) -> (r: usize)
        requires
            row_count(operands@.len()) <= usize::MAX,
        ensures
            r == row_index(operands@),
    {
        assert(operands@.skip(0) =~= operands@);
        index_from(operands, 0)
    }

    /// Evaluates the expression in the LUT
    /// # Arguments
    /// * `operands` - a map which contains key-value pairs of the inputs and outputs in the expression
    pub fn evaluate_named(&self, operands: &OrderedMap<Bit>) -> (r: Bit)
        requires
            self.wf(),
            self.input_names@.len() == self.input_count,
            forall|i: int|
                0 <= i < self.input_names@.len() ==> operands@.contains_key(
                    (#[trigger] self.input_names@[i])@,
                ),
        ensures
            r == self.truth_table@[row_index(
                Seq::new(self.input_names@.len(), |i: int| operands@[self.input_names@[i]@]),
            )],
    {
        let ghost wanted = Seq::new(
            self.input_names@.len(),
            |i: int| operands@[self.input_names@[i]@],
        );
        let mut operands_unnamed: Vec<Bit> = Vec::new();
        let mut i: usize = 0;
        while i < self.input_names.len()
            invariant
                i <= self.input_names@.len(),
                wanted == Seq::new(
                    self.input_names@.len(),
                    |i: int| operands@[self.input_names@[i]@],
                ),
                forall|i: int|
                    0 <= i < self.input_names@.len() ==> operands@.contains_key(
                        (#[trigger] self.input_names@[i])@,
                    ),
                operands_unnamed@ == wanted.take(i as int),
            decreases self.input_names@.len() - i,
        {
            assert(operands@.contains_key(self.input_names@[i as int]@));
            if let Some(bit) = operands.get(self.input_names[i].as_str()) {
                operands_unnamed.push(*bit);
            }
            i += 1;
            assert(operands_unnamed@ =~= wanted.take(i as int));
        }
        assert(wanted.take(i as int) =~= wanted);
        self.evaluate(operands_unnamed.as_slice())
    }
}

/// A letter, a digit or an underscore of the basic set.
pub open spec fn word_char(c: char) -> bool {
    ('a' <= c <= 'z') || ('A' <= c <= 'Z') || ('0' <= c <= '9') || c == '_'
}

/// The text is all of the basic set.
pub open spec fn basic_text(text: Seq<char>) -> bool {
    forall|i: int| 0 <= i < text.len() ==> (#[trigger] text[i] as int) < 128
}

/// The character at `i` is a word of its own.
pub open spec fn stands_alone(text: Seq<char>, i: int) -> bool {
    &&& i == 0 || !word_char(text[i - 1])
    &&& i + 1 == text.len() || !word_char(text[i + 1])
}

/// The first `n` characters of a text, with a one-letter word replaced.
pub open spec fn word_replaced(
    text: Seq<char>,
    letter: char,
    replacement: Seq<char>,
    n: nat,
) -> Seq<char>
    decreases n,
{
    if n == 0 {
        seq![]
    } else {
        let before = word_replaced(text, letter, replacement, (n - 1) as nat);
        if text[n - 1] == letter && stands_alone(text, n - 1) {
            before + replacement
        } else {
            before.push(text[n - 1])
        }
    }
}

/// `Regex::new` on a letter between word boundaries, and `Regex::replace_all`: every occurrence
/// of the letter that is a word of its own gives way to the replacement.
///
/// What the boundaries are in texts beyond the basic set is left unsaid.
#[verifier::external_body]
fn replace_word(text: &String, letter: char, replacement: &str) -> (r: String)
    requires
        word_char(letter),
        !replacement@.contains('$'),
    ensures
        basic_text(text@) ==> r@ == word_replaced(
            text@,
            letter,
            replacement@,
            text@.len(),
        ),
{
    Regex::new(&format!(r"\b{letter}\b")).unwrap().replace_all(text, replacement).into_owned()
}

/// A character of a plain formula.
pub open spec fn formula_char(c: char) -> bool {
    word_char(c) || c == ' ' || c == '\t' || c == '\n' || c == '\r' || c == '(' || c == ')' || c == '&' || c == '|' || c
        == '^' || c == '!'
}

/// The text is made of names, brackets and operators.
pub open spec fn plain_formula(text: Seq<char>) -> bool {
    forall|i: int| 0 <= i < text.len() ==> formula_char(#[trigger] text[i])
}

/// White space.
pub open spec fn blank(c: char) -> bool {
    c == ' ' || c == '\t' || c == '\n' || c == '\r'
}

/// The end of what stands before a place, without white space and negations.
pub open spec fn mark_before(text: Seq<char>, i: int) -> int
    decreases i,
{
    if i <= 0 {
        0
    } else if blank(text[i - 1]) || text[i - 1] == '!' {
        mark_before(text, i - 1)
    } else {
        i
    }
}

/// The start of the word that ends at a place.
pub open spec fn word_start(text: Seq<char>, end: int) -> int
    decreases end,
{
    if end <= 0 {
        0
    } else if word_char(text[end - 1]) {
        word_start(text, end - 1)
    } else {
        end
    }
}

/// The name of a bit constant.
pub open spec fn constant_name(word: Seq<char>) -> bool {
    word == "High"@ || word == "Low"@ || word == "Variable"@ || word == "Test"@
}

/// The opening bracket at `i` groups, or belongs to a bit constant: no other word stands before
/// it, also not with a negation between.
pub open spec fn bracket_known(text: Seq<char>, i: int) -> bool {
    let end = mark_before(text, i);
    let start = word_start(text, end);
    start == end || {
        &&& constant_name(text.subrange(start, end))
        &&& forall|j: int| end <= j < i ==> #[trigger] text[j] != '!'
    }
}

/// The text is made of names, brackets and operators, and calls nothing but the bit constants.
pub open spec fn safe_formula(text: Seq<char>) -> bool {
    plain_formula(text) && forall|i: int|
        0 <= i < text.len() && #[trigger] text[i] == '(' ==> bracket_known(text, i)
}

/// What the `rhai` engine makes of a formula with the names bound to the bits: `None` where it
/// does not parse or does not come to a bit.
pub uninterp spec fn formula_value(
    formula: Seq<char>,
    names: Seq<Seq<char>>,
    values: Seq<Bit>,
) -> Option<Bit>;

/// `Engine::compile_expression` and `Engine::eval_ast_with_scope`, with bits and their operators
/// registered: the value of a formula that calls nothing but the bit constants is a function of
/// the formula, the names and the values.
///
/// Other calls would reach the engine's standard functions, which can ask for the time, sleep or
/// evaluate a text.
#[verifier::external_body]
fn evaluate_formula(formula: &String, names: &Vec<String>, values: &Vec<Bit>) -> (r: Option<Bit>)
    requires
        names@.len() == values@.len(),
        safe_formula(formula@),
    ensures
        r == formula_value(formula@, viewed(names@), values@),
{
    let mut engine = Engine::new();
    engine.set_fast_operators(false).register_type_with_name::<Bit>("Bit")
        .register_fn("High", || Bit::High).register_fn("Low", || Bit::Low)
        .register_fn("Variable", || Bit::Var).register_fn("Test", || Bit::Test)
        .register_fn("!", |a: Bit| !a).register_fn("&", |a: Bit, b: Bit| a & b)
        .register_fn("|", |a: Bit, b: Bit| a | b).register_fn("^", |a: Bit, b: Bit| a ^ b);
    let mut scope = Scope::new();
    for (name, value) in names.iter().zip(values) {
        scope.push(name, *value);
    }
    let ast = engine.compile_expression(formula).ok()?;
    engine.eval_ast_with_scope::<Bit>(&mut scope, &ast).ok()
}

/// A Liberty operator in the engine's notation.
pub open spec fn operator_char(c: char) -> char {
    if c == '*' {
        '&'
    } else if c == '+' {
        '|'
    } else {
        c
    }
}

/// A Liberty formula in the engine's notation: `*` and `+` are conjunction and disjunction, and
/// the words `1` and `0` are the constants.
pub open spec fn prepared(formula: Seq<char>) -> Seq<char> {
    let operators = Seq::new(formula.len(), |i: int| operator_char(formula[i]));
    let high = word_replaced(operators, '1', "High()"@, operators.len());
    word_replaced(high, '0', "Low()"@, high.len())
}

/// The text is a formula of names, brackets and Liberty operators.
pub open spec fn liberty_formula(text: Seq<char>) -> bool {
    forall|i: int| 0 <= i < text.len() ==> formula_char(operator_char(#[trigger] text[i]))
}

/// The values of a prepared formula for all rows of operands; `None` where one is missing.
pub open spec fn table_defined(formula: Seq<char>, names: Seq<Seq<char>>) -> bool {
    forall|i: int|
        0 <= i < row_count(names.len()) ==> formula_value(
            formula,
            names,
            #[trigger] row_operands(i, names.len()),
        ) is Some
}

/// The table of a prepared formula.
pub open spec fn formula_table(formula: Seq<char>, names: Seq<Seq<char>>) -> Seq<Bit> {
    Seq::new(
        row_count(names.len()) as nat,
        |i: int| formula_value(formula, names, row_operands(i, names.len()))->0,
    )
}

proof fn lemma_replaced_plain(text: Seq<char>, letter: char, replacement: Seq<char>, n: nat)
    requires
        n <= text.len(),
        plain_formula(text),
        plain_formula(replacement),
    ensures
        plain_formula(word_replaced(text, letter, replacement, n)),
    decreases n,
{
    if n > 0 {
        lemma_replaced_plain(text, letter, replacement, (n - 1) as nat);
        let before = word_replaced(text, letter, replacement, (n - 1) as nat);
        let after = word_replaced(text, letter, replacement, n);
        assert forall|i: int| 0 <= i < after.len() implies formula_char(#[trigger] after[i]) by {
            if i < before.len() {
                assert(after[i] == before[i]);
            } else if text[n - 1] == letter && stands_alone(text, n - 1) {
                assert(after[i] == replacement[i - before.len()]);
            } else {
                assert(after[i] == text[n - 1]);
            }
        }
    }
}

proof fn lemma_plain_basic(text: Seq<char>)
    requires
        plain_formula(text),
    ensures
        basic_text(text),
{
    assert forall|i: int| 0 <= i < text.len() implies (#[trigger] text[i] as int) < 128 by {
        assert(formula_char(text[i]));
    }
}

/// Puts a Liberty formula into the engine's notation.
pub fn prepare_formula(formula: &str) -> (r: String)
    ensures
        liberty_formula(formula@) ==> r@ == prepared(formula@) && plain_formula(r@),
{
    let chars = chars_of(formula);
    let ghost operators = Seq::new(formula@.len(), |i: int| operator_char(formula@[i]));
    let mut replaced: Vec<char> = Vec::new();
    let mut i: usize = 0;
    // The liberty file expressions support * and + for the bitwise operators
    while i < chars.len()
        invariant
            i <= chars@.len(),
            chars@ == formula@,
            operators == Seq::new(formula@.len(), |i: int| operator_char(formula@[i])),
            replaced@ == operators.take(i as int),
        decreases chars@.len() - i,
    {
        let c = if chars[i] == '*' {
            '&'
        } else if chars[i] == '+' {
            '|'
        } else {
            chars[i]
        };
        replaced.push(c);
        i += 1;
        assert(replaced@ =~= operators.take(i as int));
    }
    assert(replaced@ =~= operators);
    proof {
        reveal_strlit("High()");
        reveal_strlit("Low()");
        if liberty_formula(formula@) {
            assert forall|i: int| 0 <= i < operators.len() implies formula_char(
                #[trigger] operators[i],
            ) by {
                assert(operators[i] == operator_char(formula@[i]));
            }
            lemma_plain_basic(operators);
            lemma_replaced_plain(operators, '1', "High()"@, operators.len());
            let high = word_replaced(operators, '1', "High()"@, operators.len());
            lemma_plain_basic(high);
            lemma_replaced_plain(high, '0', "Low()"@, high.len());
        }
    }
    // They also support 1 and 0 for hardcoded bits
    let high = replace_word(&text_of(&replaced), '1', "High()");
    replace_word(&high, '0', "Low()")
}

/// The values of a prepared formula for all rows of operands; `None` where one is missing.
pub fn tabulate(formula: &String, names: &Vec<String>) -> (r: Option<Vec<Bit>>)
    requires
        row_count(names@.len()) <= usize::MAX,
        safe_formula(formula@),
    ensures
        match r {
            Some(table) => table_defined(formula@, viewed(names@)) && table@ == formula_table(
                formula@,
                viewed(names@),
            ),
            None => !table_defined(formula@, viewed(names@)),
        },
{
    let ghost views = viewed(names@);
    let count = names.len();
    let rows = count_rows(count);
    let mut truth_table: Vec<Bit> = Vec::new();
    let mut i: usize = 0;
    // We need to permute every bit
    while i < rows
        invariant
            rows == row_count(names@.len()),
            count == names@.len(),
            views == viewed(names@),
            views.len() == count,
            i <= rows,
            truth_table@.len() == i,
            safe_formula(formula@),
            forall|j: int|
                0 <= j < i ==> formula_value(
                    formula@,
                    views,
                    #[trigger] row_operands(j, views.len()),
                ) == Some(truth_table@[j]),
        decreases rows - i,
    {
        let operands = operands_of(i, count);
        proof {
            lemma_index_of_row(i as int, count as nat);
        }
        match evaluate_formula(formula, names, &operands) {
            Some(bit) => {
                truth_table.push(bit);
            },
            None => {
                assert(row_operands(i as int, views.len()) == operands@);
                return None;
            },
        }
        i += 1;
    }
    assert(truth_table@ =~= formula_table(formula@, views));
    Some(truth_table)
}

/// How many rows a table has.
fn count_rows(count: usize) -> (r: usize)
    requires
        row_count(count as nat) <= usize::MAX,
    ensures
        r == row_count(count as nat),
{
    let mut rows: usize = 1;
    let mut i: usize = 0;
    proof {
        lemma_row_count(0);
    }
    while i < count
        invariant
            i <= count,
            row_count(count as nat) <= usize::MAX,
            rows == row_count(i as nat),
        decreases count - i,
    {
        proof {
            lemma_row_count((i + 1) as nat);
            lemma_count_grows((i + 1) as nat, count as nat);
        }
        rows = rows * 4;
        i += 1;
    }
    rows
}

/// Copies texts.
fn owned_names(names: &Vec<&str>) -> (r: Vec<String>)
    ensures
        viewed(r@) == Seq::new(names@.len(), |i: int| names@[i]@),
{
    let mut owned: Vec<String> = Vec::new();
    let mut i: usize = 0;
    while i < names.len()
        invariant
            i <= names@.len(),
            owned@.len() == i,
            forall|j: int| 0 <= j < i ==> (#[trigger] owned@[j])@ == names@[j]@,
        decreases names@.len() - i,
    {
        owned.push(names[i].to_owned());
        i += 1;
    }
    assert(viewed(owned@) =~= Seq::new(names@.len(), |i: int| names@[i]@));
    owned
}

/// The views of texts.
pub open spec fn texts(names: Seq<&str>) -> Seq<Seq<char>> {
    Seq::new(names.len(), |i: int| names[i]@)
}

impl LookupTable {
    /// The table of a prepared formula whose values are at hand.
    pub fn from_table(formula: String, input_names: Vec<String>, truth_table: Vec<Bit>) -> (r: Self)
        requires
            truth_table@.len() == row_count(input_names@.len()),
        ensures
            r.wf(),
            r.input_count == input_names@.len(),
            r.truth_table@ == truth_table@,
            r.input_names@ == input_names@,
            r.function == Some(formula),
    {
        LookupTable {
            input_count: input_names.len(),
            truth_table,
            input_names,
            function: Some(formula),
        }
    }

    /// Defines a new LookupTable from a boolean function string.
    /// The syntax used is the same as that defined in the Liberty file format
    /// For the specification, see page 156 in the following document
    /// https://people.eecs.berkeley.edu/~alanmi/publications/other/liberty07_03.pdf
    ///
    /// Does not support certain constructs (e.g. postfix invert, space for and)
    ///
    /// # Arguments
    /// * `expr` - the boolean function expression as a string
    /// * `inputs` - a vector of the names of all inputs in the expression, in the order they will be included in the LUT
    pub fn new_from_string(expr: &str, input_names: Vec<&str>) -> (r: Self)
        requires
            row_count(input_names@.len()) <= usize::MAX,
            liberty_formula(expr@),
            safe_formula(prepared(expr@)),
            table_defined(prepared(expr@), texts(input_names@)),
        ensures
            r.wf(),
            r.input_count == input_names@.len(),
            viewed(r.input_names@) == texts(input_names@),
            r.function matches Some(function) && function@ == prepared(expr@),
            r.truth_table@ == formula_table(prepared(expr@), texts(input_names@)),
    {
        let names = owned_names(&input_names);
        let formula = prepare_formula(expr);
        assert(viewed(names@) == texts(input_names@));
        proof {
            lemma_row_count(names@.len());
        }
        let truth_table = tabulate(&formula, &names).unwrap();
        Self::from_table(formula, names, truth_table)
    }

    /// Defines a new LookupTable from a boolean function string; `None` where the formula has
    /// characters beyond names, brackets and operators, calls anything but the bit constants,
    /// does not parse, or has no value for some operands.
    pub fn try_new_from_string(expr: &str, input_names: Vec<&str>) -> (r: Option<Self>)
        requires
            row_count(input_names@.len()) <= usize::MAX,
        ensures
            match r {
                Some(table) => {
                    &&& liberty_formula(expr@)
                    &&& safe_formula(prepared(expr@))
                    &&& table_defined(prepared(expr@), texts(input_names@))
                    &&& table.wf()
                    &&& table.input_count == input_names@.len()
                    &&& viewed(table.input_names@) == texts(input_names@)
                    &&& table.function matches Some(function) && function@ == prepared(expr@)
                    &&& table.truth_table@ == formula_table(prepared(expr@), texts(input_names@))
                },
                None => !liberty_formula(expr@) || !safe_formula(prepared(expr@))
                    || !table_defined(prepared(expr@), texts(input_names@)),
            },
    {
        if !is_liberty_formula(expr) {
            return None;
        }
        let names = owned_names(&input_names);
        let formula = prepare_formula(expr);
        assert(viewed(names@) == texts(input_names@));
        if !calls_known(&formula) || tabulate(&formula, &names).is_none() {
            return None;
        }
        Some(Self::new_from_string(expr, input_names))
    }
}

/// Reports whether a plain text calls nothing but the bit constants.
fn calls_known(text: &String) -> (r: bool)
    requires
        plain_formula(text@),
    ensures
        r == safe_formula(text@),
{
    let chars = chars_of(text.as_str());
    let mut i: usize = 0;
    while i < chars.len()
        invariant
            chars@ == text@,
            i <= chars@.len(),
            forall|j: int| 0 <= j < i && #[trigger] text@[j] == '(' ==> bracket_known(text@, j),
        decreases chars@.len() - i,
    {
        if chars[i] == '(' && !is_bracket_known(&chars, i) {
            assert(text@[i as int] == '(');
            return false;
        }
        i += 1;
    }
    true
}

/// Reports whether the opening bracket at `i` groups or belongs to a bit constant.
fn is_bracket_known(chars: &Vec<char>, i: usize) -> (r: bool)
    requires
        i < chars@.len(),
    ensures
        r == bracket_known(chars@, i as int),
{
    let mut end: usize = i;
    let mut negated = false;
    while end > 0 && (chars[end - 1] == ' ' || chars[end - 1] == '\t' || chars[end - 1] == '\n'
        || chars[end - 1] == '\r' || chars[end - 1] == '!')
        invariant
            end <= i < chars@.len(),
            mark_before(chars@, end as int) == mark_before(chars@, i as int),
            negated == exists|j: int| end <= j < i && #[trigger] chars@[j] == '!',
        decreases end,
    {
        if chars[end - 1] == '!' {
            negated = true;
        }
        assert(negated == exists|j: int| end - 1 <= j < i && #[trigger] chars@[j] == '!') by {
            if exists|j: int| end <= j < i && #[trigger] chars@[j] == '!' {
                let j = choose|j: int| end <= j < i && #[trigger] chars@[j] == '!';
                assert(end - 1 <= j < i && chars@[j] == '!');
            }
            assert(chars@[end - 1] == '!' ==> end - 1 <= end - 1 < i);
        }
        end -= 1;
    }
    let mut start: usize = end;
    while start > 0 && is_word_char(chars[start - 1])
        invariant
            start <= end < chars@.len(),
            word_start(chars@, start as int) == word_start(chars@, end as int),
        decreases start,
    {
        start -= 1;
    }
    if start == end {
        return true;
    }
    let mut word: Vec<char> = Vec::new();
    let mut k: usize = start;
    while k < end
        invariant
            start <= k <= end < chars@.len(),
            word@ == chars@.subrange(start as int, k as int),
        decreases end - k,
    {
        word.push(chars[k]);
        k += 1;
        assert(word@ =~= chars@.subrange(start as int, k as int));
    }
    let name = text_of(&word);
    let constant = name == "High".to_owned() || name == "Low".to_owned() || name
        == "Variable".to_owned() || name == "Test".to_owned();
    constant && !negated
}

/// Reports whether the character is a letter, a digit or an underscore of the basic set.
fn is_word_char(c: char) -> (r: bool)
    ensures
        r == word_char(c),
{
    ('a' <= c && c <= 'z') || ('A' <= c && c <= 'Z') || ('0' <= c && c <= '9') || c == '_'
}

/// Reports whether the text is made of names, brackets and Liberty operators.
fn is_liberty_formula(text: &str) -> (r: bool)
    ensures
        r == liberty_formula(text@),
{
    let chars = chars_of(text);
    let mut i: usize = 0;
    while i < chars.len()
        invariant
            chars@ == text@,
            i <= chars@.len(),
            forall|j: int| 0 <= j < i ==> formula_char(operator_char(#[trigger] text@[j])),
        decreases chars@.len() - i,
    {
        let c = chars[i];
        let word = is_word_char(c);
        let operator = c == ' ' || c == '\t' || c == '\n' || c == '\r' || c == '(' || c == ')' || c == '&'
            || c == '|' || c == '^' || c == '!' || c == '*' || c == '+';
        if !word && !operator {
            assert(!formula_char(operator_char(text@[i as int])));
            return false;
        }
        i += 1;
    }
    true
}

} // verus!
