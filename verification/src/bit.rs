//! Four-valued bits, bit patterns seen as cubes, and lookup tables over them.
use std::ops::Not;
use vstd::prelude::*;
use vstd::std_specs::ops::{BitAndSpecImpl, BitOrSpecImpl, BitXorSpecImpl, NotSpecImpl};

use crate::collections::{OrderedSet, Value};

pub use crate::lookup_table::LookupTable;

verus! {

/// Enum for the Bit type used in symbolic simulation.
#[derive(PartialEq, Eq, Debug, Copy, Clone, Hash, Structural)]
pub enum Bit {
    /// Logical 1
    High,
    /// Logical 0
    Low,
    /// Variable value (could be either 0 or 1)
    Var,
    /// Test value to test whether an operand affects the output of an expression.
    /// Behaves the same as Variable but with higher precedence.
    Test,
}

impl Bit {
    /// A definite zero or one.
    pub open spec fn concrete(self) -> bool {
        self == Bit::High || self == Bit::Low
    }

    /// Negation: swaps the definite values, keeps the unknown ones.
    pub open spec fn negated(self) -> Bit {
        match self {
            Bit::High => Bit::Low,
            Bit::Low => Bit::High,
            other => other,
        }
    }

    /// Conjunction: a zero wins, then `Test`, then `Var`.
    pub open spec fn conjoined(self, rhs: Bit) -> Bit {
        if self == Bit::Low || rhs == Bit::Low {
            Bit::Low
        } else if self == Bit::Test || rhs == Bit::Test {
            Bit::Test
        } else if self == Bit::Var || rhs == Bit::Var {
            Bit::Var
        } else {
            Bit::High
        }
    }

    /// Disjunction: a one wins, then `Test`, then `Var`.
    pub open spec fn disjoined(self, rhs: Bit) -> Bit {
        if self == Bit::High || rhs == Bit::High {
            Bit::High
        } else if self == Bit::Test || rhs == Bit::Test {
            Bit::Test
        } else if self == Bit::Var || rhs == Bit::Var {
            Bit::Var
        } else {
            Bit::Low
        }
    }

    /// Exclusive or: `Test` wins, then `Var`; definite values compare.
    pub open spec fn exclusive(self, rhs: Bit) -> Bit {
        if self == Bit::Test || rhs == Bit::Test {
            Bit::Test
        } else if self == Bit::Var || rhs == Bit::Var {
            Bit::Var
        } else if self == rhs {
            Bit::Low
        } else {
            Bit::High
        }
    }

    /// Reports whether the bit is a definite zero or one.
    pub fn is_concrete(&self) -> (r: bool)
        ensures
            r == self.concrete(),
    {
        match self {
            Bit::High | Bit::Low => true,
            Bit::Var | Bit::Test => false,
        }
    }
}

impl std::ops::Not for Bit {
    type Output = Self;

    fn not(self) -> (r: Self) {
        match self {
            Bit::Low => Bit::High,
            Bit::High => Bit::Low,
            Bit::Test => Bit::Test,
            Bit::Var => Bit::Var,
        }
    }
}

impl NotSpecImpl for Bit {
    open spec fn obeys_not_spec() -> bool {
        true
    }

    open spec fn not_req(self) -> bool {
        true
    }

    open spec fn not_spec(self) -> Self {
        self.negated()
    }
}

impl std::ops::BitAnd for Bit {
    type Output = Self;

    fn bitand(self, rhs: Self) -> (r: Self) {
        match (self, rhs) {
            (Bit::Low, _) | (_, Bit::Low) => Bit::Low,
            (Bit::Test, _) | (_, Bit::Test) => Bit::Test,
            (Bit::Var, _) | (_, Bit::Var) => Bit::Var,
            (Bit::High, Bit::High) => Bit::High,
        }
    }
}

impl BitAndSpecImpl for Bit {
    open spec fn obeys_bitand_spec() -> bool {
        true
    }

    open spec fn bitand_req(self, rhs: Self) -> bool {
        true
    }

    open spec fn bitand_spec(self, rhs: Self) -> Self {
        self.conjoined(rhs)
    }
}

impl std::ops::BitOr for Bit {
    type Output = Self;

    fn bitor(self, rhs: Self) -> (r: Self) {
        match (self, rhs) {
            (Bit::High, _) | (_, Bit::High) => Bit::High,
            (Bit::Test, _) | (_, Bit::Test) => Bit::Test,
            (Bit::Var, _) | (_, Bit::Var) => Bit::Var,
            (Bit::Low, Bit::Low) => Bit::Low,
        }
    }
}

impl BitOrSpecImpl for Bit {
    open spec fn obeys_bitor_spec() -> bool {
        true
    }

    open spec fn bitor_req(self, rhs: Self) -> bool {
        true
    }

    open spec fn bitor_spec(self, rhs: Self) -> Self {
        self.disjoined(rhs)
    }
}

impl std::ops::BitXor for Bit {
    type Output = Self;

    fn bitxor(self, rhs: Self) -> (r: Self) {
        match (self, rhs) {
            (Bit::Test, _) | (_, Bit::Test) => Bit::Test,
            (Bit::Var, _) | (_, Bit::Var) => Bit::Var,
            (Bit::High, Bit::Low) | (Bit::Low, Bit::High) => Bit::High,
            (Bit::High, Bit::High) | (Bit::Low, Bit::Low) => Bit::Low,
        }
    }
}

impl BitXorSpecImpl for Bit {
    open spec fn obeys_bitxor_spec() -> bool {
        true
    }

    open spec fn bitxor_req(self, rhs: Self) -> bool {
        true
    }

    open spec fn bitxor_spec(self, rhs: Self) -> Self {
        self.exclusive(rhs)
    }
}

/// An ordered row of bits, most significant bit first.
#[derive(Debug, PartialEq, Eq, Hash)]
pub struct BitPattern {
    pub bits: Vec<Bit>,
}

impl View for BitPattern {
    type V = Seq<Bit>;

    open spec fn view(&self) -> Seq<Bit> {
        self.bits@
    }
}

impl Clone for BitPattern {
    fn clone(&self) -> (r: Self)
        ensures
            r@ == self@,
    {
        BitPattern { bits: copy_bits(&self.bits) }
    }
}

impl Value for BitPattern {
    fn same(&self, other: &BitPattern) -> (r: bool) {
        if self.bits.len() != other.bits.len() {
            return false;
        }
        let mut i: usize = 0;
        while i < self.bits.len()
            invariant
                self@.len() == other@.len(),
                i <= self@.len(),
                forall|j: int| 0 <= j < i ==> self@[j] == other@[j],
            decreases self@.len() - i,
        {
            if self.bits[i] != other.bits[i] {
                assert(self@[i as int] != other@[i as int]);
                return false;
            }
            i += 1;
        }
        assert(self@ =~= other@);
        true
    }

    fn duplicate(&self) -> (r: BitPattern) {
        self.clone()
    }
}

/// A pattern bit accepts an input bit: definite bits accept only themselves.
pub open spec fn bit_accepts(pattern_bit: Bit, bit: Bit) -> bool {
    pattern_bit.concrete() ==> bit == pattern_bit
}

/// The first bits of `pattern` accept all of `prefix`.
pub open spec fn prefix_matches(pattern: Seq<Bit>, prefix: Seq<Bit>) -> bool {
    &&& prefix.len() <= pattern.len()
    &&& forall|i: int| 0 <= i < prefix.len() ==> bit_accepts(#[trigger] pattern[i], prefix[i])
}

/// `pattern` accepts exactly the bit rows of its own length that agree with its definite bits.
pub open spec fn pattern_matches(pattern: Seq<Bit>, bits: Seq<Bit>) -> bool {
    pattern.len() == bits.len() && prefix_matches(pattern, bits)
}

/// Every bit is a definite zero or one.
pub open spec fn all_concrete(bits: Seq<Bit>) -> bool {
    forall|i: int| 0 <= i < bits.len() ==> (#[trigger] bits[i]).concrete()
}

/// The bit denoted by a pattern character.
pub open spec fn char_bit(c: char) -> Bit {
    if c == '0' {
        Bit::Low
    } else if c == '1' {
        Bit::High
    } else {
        Bit::Var
    }
}

/// A character of the pattern notation.
pub open spec fn is_pattern_char(c: char) -> bool {
    c == '0' || c == '1' || c == 'x'
}

/// The row of bits written by `text` in the pattern notation.
pub open spec fn pattern_of(text: Seq<char>) -> Seq<Bit> {
    Seq::new(text.len(), |i: int| char_bit(text[i]))
}

/// The row of `width` variable bits.
pub open spec fn variable_pattern(width: nat) -> Seq<Bit> {
    Seq::new(width, |i: int| Bit::Var)
}

/// How often `bit` occurs in `bits`.
pub open spec fn occurrences(bits: Seq<Bit>, bit: Bit) -> nat
    decreases bits.len(),
{
    if bits.len() == 0 {
        0
    } else {
        occurrences(bits.drop_last(), bit) + if bits.last() == bit {
            1nat
        } else {
            0nat
        }
    }
}

/// One of the two bits is a zero, the other a one.
pub open spec fn opposed(a: Bit, b: Bit) -> bool {
    (a == Bit::High && b == Bit::Low) || (a == Bit::Low && b == Bit::High)
}

/// The two rows agree everywhere but at `at`, where they are opposed.
pub open spec fn differ_only_at(a: Seq<Bit>, b: Seq<Bit>, at: int) -> bool {
    &&& 0 <= at < a.len()
    &&& opposed(a[at], b[at])
    &&& forall|i: int| 0 <= i < a.len() && i != at ==> #[trigger] a[i] == b[i]
}

/// The two rows are adjacent: opposed in exactly one place and equal in all others.
pub open spec fn mergeable(a: Seq<Bit>, b: Seq<Bit>) -> bool {
    a.len() == b.len() && exists|at: int| differ_only_at(a, b, at)
}

/// The common row of two adjacent rows: variable where they differ.
pub open spec fn merged(a: Seq<Bit>, b: Seq<Bit>) -> Seq<Bit> {
    Seq::new(
        a.len(),
        |i: int|
            if a[i] == b[i] {
                a[i]
            } else {
                Bit::Var
            },
    )
}

/// The number written by a row of definite bits, most significant bit first.
pub open spec fn bits_value(bits: Seq<Bit>) -> nat
    decreases bits.len(),
{
    if bits.len() == 0 {
        0
    } else {
        2 * bits_value(bits.drop_last()) + if bits.last() == Bit::High {
            1nat
        } else {
            0nat
        }
    }
}

/// The two cubes share no point: they are opposed somewhere.
pub open spec fn cubes_disjoint(a: Seq<Bit>, b: Seq<Bit>) -> bool {
    exists|i: int| 0 <= i < a.len() && i < b.len() && opposed(#[trigger] a[i], b[i])
}

/// The cube `a` contains the cube `b`, as far as both reach.
pub open spec fn cube_contains(a: Seq<Bit>, b: Seq<Bit>) -> bool {
    forall|i: int|
        0 <= i < a.len() && i < b.len() ==> (#[trigger] a[i] == Bit::Var || a[i] == b[i])
}

/// A place where subtracting `b` from `a` splits `a`.
pub open spec fn splits_at(a: Seq<Bit>, b: Seq<Bit>, i: int) -> bool {
    0 <= i < a.len() && !a[i].concrete() && b[i].concrete()
}

/// `a` narrowed to `b` at the splitting places before `k`.
pub open spec fn narrowed(a: Seq<Bit>, b: Seq<Bit>, k: int) -> Seq<Bit> {
    Seq::new(
        a.len(),
        |i: int|
            if i < k && splits_at(a, b, i) {
                b[i]
            } else {
                a[i]
            },
    )
}

/// The piece of `a` that leaves `b` first at the splitting place `k`.
pub open spec fn piece(a: Seq<Bit>, b: Seq<Bit>, k: int) -> Seq<Bit> {
    narrowed(a, b, k).update(k, b[k].negated())
}

/// The sharp product: the pieces of `a` outside of `b`.
pub open spec fn sharp(a: Seq<Bit>, b: Seq<Bit>) -> Set<Seq<Bit>> {
    if cubes_disjoint(a, b) {
        Set::empty().insert(a)
    } else {
        Set::new(|p: Seq<Bit>| exists|k: int| splits_at(a, b, k) && p == #[trigger] piece(a, b, k))
    }
}

/// Subtracting `b` from `a` is defined: a `Test` of `b` meets a `Test` of `a`.
pub open spec fn sharp_defined(a: Seq<Bit>, b: Seq<Bit>) -> bool {
    &&& a.len() == b.len()
    &&& cubes_disjoint(a, b) || forall|i: int|
        0 <= i < a.len() && #[trigger] b[i] == Bit::Test ==> a[i] == Bit::Test
}

/// Copies a row of bits.
pub(crate) fn copy_bits(bits: &Vec<Bit>) -> (r: Vec<Bit>)
    ensures
        r@ == bits@,
{
    let mut r: Vec<Bit> = Vec::new();
    let mut i: usize = 0;
    while i < bits.len()
        invariant
            i <= bits@.len(),
            r@ == bits@.take(i as int),
        decreases bits@.len() - i,
    {
        r.push(bits[i]);
        i += 1;
        assert(r@ =~= bits@.take(i as int));
    }
    assert(bits@.take(i as int) =~= bits@);
    r
}

/// The counts of a longer row are at least those of a prefix.
pub(crate) proof fn lemma_occurrences_step(bits: Seq<Bit>, bit: Bit, i: int)
    requires
        0 <= i < bits.len(),
    ensures
        occurrences(bits.take(i + 1), bit) == occurrences(bits.take(i), bit) + if bits[i] == bit {
            1nat
        } else {
            0nat
        },
        occurrences(bits.take(i), bit) <= i,
    decreases i,
{
    assert(bits.take(i + 1).drop_last() =~= bits.take(i));
    if i > 0 {
        lemma_occurrences_step(bits, bit, i - 1);
    }
}

/// A row of definite bits writes a number at least as large as any of its prefixes does.
proof fn lemma_value_of_prefix(bits: Seq<Bit>, i: int)
    requires
        0 <= i <= bits.len(),
    ensures
        bits_value(bits.take(i)) <= bits_value(bits),
        i < bits.len() ==> bits_value(bits.take(i + 1)) == 2 * bits_value(bits.take(i)) + if bits[i]
            == Bit::High {
            1nat
        } else {
            0nat
        },
    decreases bits.len() - i,
{
    if i < bits.len() {
        lemma_value_of_prefix(bits, i + 1);
        assert(bits.take(i + 1).drop_last() =~= bits.take(i));
    } else {
        assert(bits.take(i) =~= bits);
    }
}

/// The number written by `bits` fits as many binary digits as there are bits.
pub proof fn lemma_value_bound(bits: Seq<Bit>)
    ensures
        bits_value(bits) < vstd::arithmetic::power2::pow2(bits.len()),
    decreases bits.len(),
{
    vstd::arithmetic::power2::lemma2_to64();
    if bits.len() > 0 {
        lemma_value_bound(bits.drop_last());
        vstd::arithmetic::power2::lemma_pow2_unfold(bits.len());
    }
}

impl BitPattern {
    pub fn new(bits: Vec<Bit>) -> (r: Self)
        ensures
            r@ == bits@,
    {
        Self { bits }
    }

    pub fn len(&self) -> (r: usize)
        ensures
            r == self@.len(),
    {
        self.bits.len()
    }

    /// Reads the pattern notation: `0`, `1` and `x` for a variable bit.
    pub fn parse(s: &str) -> (r: Self)
        requires
            forall|i: int| 0 <= i < s@.len() ==> is_pattern_char(#[trigger] s@[i]),
        ensures
            r@ == pattern_of(s@),
    {
        let chars = crate::text::chars_of(s);
        let mut bits: Vec<Bit> = Vec::new();
        let mut i: usize = 0;
        while i < chars.len()
            invariant
                i <= chars@.len(),
                chars@ == s@,
                bits@ == pattern_of(s@).take(i as int),
            decreases chars@.len() - i,
        {
            let bit = match chars[i] {
                '0' => Bit::Low,
                '1' => Bit::High,
                _ => Bit::Var,
            };
            bits.push(bit);
            i += 1;
            assert(bits@ =~= pattern_of(s@).take(i as int));
        }
        assert(bits@ =~= pattern_of(s@));
        Self { bits }
    }

    pub fn variable(width: usize) -> (r: Self)
        ensures
            r@ == variable_pattern(width as nat),
    {
        let mut bits: Vec<Bit> = Vec::new();
        let mut i: usize = 0;
        while i < width
            invariant
                i <= width,
                bits@ == variable_pattern(i as nat),
            decreases width - i,
        {
            bits.push(Bit::Var);
            i += 1;
            assert(bits@ =~= variable_pattern(i as nat));
        }
        Self { bits }
    }

    /// Checks whether a k bit prefix matches the first k bits of the pattern.
    pub fn matches_prefix(&self, prefix: &[Bit]) -> (r: bool)
        ensures
            r == prefix_matches(self@, prefix@),
    {
        if prefix.len() > self.bits.len() {
            return false;
        }
        let mut i: usize = 0;
        while i < prefix.len()
            invariant
                prefix@.len() <= self@.len(),
                i <= prefix@.len(),
                forall|j: int| 0 <= j < i ==> bit_accepts(#[trigger] self@[j], prefix@[j]),
            decreases prefix@.len() - i,
        {
            let pattern_bit = self.bits[i];
            let bit = prefix[i];
            if pattern_bit.is_concrete() && bit != pattern_bit {
                assert(!bit_accepts(self@[i as int], prefix@[i as int]));
                return false;
            }
            i += 1;
        }
        true
    }

    pub fn matches_bits(&self, bits: &[Bit]) -> (r: bool)
        ensures
            r == pattern_matches(self@, bits@),
    {
        if self.bits.len() != bits.len() {
            return false;
        }
        self.matches_prefix(bits)
    }

    pub fn num_high(&self) -> (r: usize)
        ensures
            r == occurrences(self@, Bit::High),
    {
        self.count(Bit::High)
    }

    pub fn num_variable(&self) -> (r: usize)
        ensures
            r == occurrences(self@, Bit::Var),
    {
        self.count(Bit::Var)
    }

    fn count(&self, bit: Bit) -> (r: usize)
        ensures
            r == occurrences(self@, bit),
    {
        let mut n: usize = 0;
        let mut i: usize = 0;
        while i < self.bits.len()
            invariant
                i <= self@.len(),
                n <= i,
                n == occurrences(self@.take(i as int), bit),
            decreases self@.len() - i,
        {
            proof {
                lemma_occurrences_step(self@, bit, i as int);
            }
            if self.bits[i] == bit {
                n += 1;
            }
            i += 1;
        }
        assert(self@.take(i as int) =~= self@);
        n
    }

    /// Two patterns merge when exactly one position holds opposed bits and all others agree.
    pub fn can_merge_with(&self, other: &BitPattern) -> (r: bool)
        ensures
            r == mergeable(self@, other@),
    {
        if self.bits.len() != other.bits.len() {
            return false;
        }
        let mut found = false;
        let ghost mut at: int = 0;
        let mut i: usize = 0;
        while i < self.bits.len()
            invariant
                self@.len() == other@.len(),
                i <= self@.len(),
                found ==> 0 <= at < i && opposed(self@[at], other@[at]),
                forall|j: int|
                    0 <= j < i && !(found && j == at) ==> #[trigger] self@[j] == other@[j],
            decreases self@.len() - i,
        {
            let b1 = self.bits[i];
            let b2 = other.bits[i];
            if b1 != b2 {
                let fits = (b1 == Bit::High && b2 == Bit::Low) || (b1 == Bit::Low && b2
                    == Bit::High);
                if !fits || found {
                    proof {
                        if mergeable(self@, other@) {
                            let k = choose|k: int| differ_only_at(self@, other@, k);
                            assert(self@[i as int] != other@[i as int]);
                            assert(k == i);
                            if found {
                                assert(self@[at] != other@[at]);
                                assert(false);
                            }
                        }
                    }
                    return false;
                }
                found = true;
                proof {
                    at = i as int;
                }
            }
            i += 1;
        }
        proof {
            if found {
                assert(differ_only_at(self@, other@, at));
            } else if mergeable(self@, other@) {
                let k = choose|k: int| differ_only_at(self@, other@, k);
                assert(self@[k] == other@[k]);
            }
        }
        found
    }

    pub fn merge_with(&self, other: &BitPattern) -> (r: Self)
        requires
            mergeable(self@, other@),
        ensures
            r@ == merged(self@, other@),
    {
        let mut bits: Vec<Bit> = Vec::new();
        let mut i: usize = 0;
        while i < self.bits.len()
            invariant
                self@.len() == other@.len(),
                i <= self@.len(),
                bits@ == merged(self@, other@).take(i as int),
            decreases self@.len() - i,
        {
            if self.bits[i] == other.bits[i] {
                bits.push(self.bits[i]);
            } else {
                bits.push(Bit::Var);
            }
            i += 1;
            assert(bits@ =~= merged(self@, other@).take(i as int));
        }
        assert(bits@ =~= merged(self@, other@));
        Self { bits }
    }

    /// The number written by a pattern of definite bits, where it is one of a word.
    pub fn try_to_int(&self) -> (r: Option<u128>)
        ensures
            match r {
                Some(value) => all_concrete(self@) && value == bits_value(self@),
                None => !all_concrete(self@) || bits_value(self@) > u128::MAX,
            },
    {
        let mut value: u128 = 0;
        let mut i: usize = 0;
        while i < self.bits.len()
            invariant
                i <= self@.len(),
                forall|k: int| 0 <= k < i ==> (#[trigger] self@[k]).concrete(),
                value == bits_value(self@.take(i as int)),
            decreases self@.len() - i,
        {
            proof {
                lemma_value_of_prefix(self@, i as int);
                lemma_value_of_prefix(self@, i + 1);
            }
            if value > u128::MAX / 2 {
                return None;
            }
            value = match self.bits[i] {
                Bit::High => 2 * value + 1,
                Bit::Low => 2 * value,
                _ => {
                    return None;
                },
            };
            i += 1;
        }
        assert(self@.take(i as int) =~= self@);
        Some(value)
    }

    /// The number written by a pattern of definite bits.
    pub fn to_int(&self) -> (r: u128)
        requires
            all_concrete(self@),
            bits_value(self@) <= u128::MAX,
        ensures
            r == bits_value(self@),
    {
        self.try_to_int().unwrap()
    }

    /// Returns whether two cubes are disjoint.
    fn cube_disjoint(&self, other: &BitPattern) -> (r: bool)
        ensures
            r == cubes_disjoint(self@, other@),
    {
        let mut i: usize = 0;
        while i < self.bits.len() && i < other.bits.len()
            invariant
                i <= self@.len(),
                i <= other@.len(),
                forall|j: int| 0 <= j < i ==> !opposed(#[trigger] self@[j], other@[j]),
            decreases self@.len() - i,
        {
            let x = self.bits[i];
            let y = other.bits[i];
            if (x == Bit::Low && y == Bit::High) || (x == Bit::High && y == Bit::Low) {
                assert(opposed(self@[i as int], other@[i as int]));
                return true;
            }
            i += 1;
        }
        false
    }

    /// Returns whether `self` covers `other`.
    pub fn covers(&self, other: &BitPattern) -> (r: bool)
        ensures
            r == cube_contains(self@, other@),
    {
        let mut i: usize = 0;
        while i < self.bits.len() && i < other.bits.len()
            invariant
                i <= self@.len(),
                i <= other@.len(),
                forall|j: int|
                    0 <= j < i ==> (#[trigger] self@[j] == Bit::Var || self@[j] == other@[j]),
            decreases self@.len() - i,
        {
            if self.bits[i] != Bit::Var && self.bits[i] != other.bits[i] {
                assert(!(self@[i as int] == Bit::Var || self@[i as int] == other@[i as int]));
                return false;
            }
            i += 1;
        }
        true
    }

    /// Cube subtraction/sharp operation. For A # B, the result is the part of cube A not covered by
    /// cube B.
    /// The sharp product is described in
    /// Roth, J. Paul. “Algebraic Topological Methods for the Synthesis of Switching Systems. I.”
    /// Transactions of the American Mathematical Society 88, no. 2 (1958): 301–26.
    /// <https://doi.org/10.2307/1993216>.
    pub fn cube_subtract(&self, other: &BitPattern) -> (r: OrderedSet<BitPattern>)
        requires
            sharp_defined(self@, other@),
        ensures
            r@ == sharp(self@, other@),
            r.distinct(),
    {
        let mut res: OrderedSet<BitPattern> = OrderedSet::new();
        if self.cube_disjoint(other) {
            res.insert(self.clone());
            assert(res@ =~= sharp(self@, other@));
            return res;
        }
        let mut inside = self.clone();
        let mut i: usize = 0;
        assert(inside@ =~= narrowed(self@, other@, 0));
        while i < self.bits.len()
            invariant
                self@.len() == other@.len(),
                !cubes_disjoint(self@, other@),
                i <= self@.len(),
                res.distinct(),
                inside@ == narrowed(self@, other@, i as int),
                res@ == Set::new(
                    |p: Seq<Bit>|
                        exists|k: int|
                            k < i && splits_at(self@, other@, k) && p == #[trigger] piece(
                                self@,
                                other@,
                                k,
                            ),
                ),
            decreases self@.len() - i,
        {
            let ghost before = res@;
            let other_bit = other.bits[i];
            if !self.bits[i].is_concrete() && other_bit.is_concrete() {
                let mut outside = inside.clone();
                outside.bits.set(i, other_bit.not());
                assert(outside@ =~= piece(self@, other@, i as int));
                res.insert(outside);
                inside.bits.set(i, other_bit);
                assert(splits_at(self@, other@, i as int));
            }
            i += 1;
            assert(inside@ =~= narrowed(self@, other@, i as int));
            assert(res@ =~= Set::new(
                |p: Seq<Bit>|
                    exists|k: int|
                        k < i && splits_at(self@, other@, k) && p == #[trigger] piece(
                            self@,
                            other@,
                            k,
                        ),
            ));
        }
        assert(res@ =~= sharp(self@, other@));
        res
    }
}

} // verus!
