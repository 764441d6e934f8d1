//! The encodings of instruction forms under restrictions of their fields.
use vstd::prelude::*;

use crate::bit::{Bit, BitPattern};
use crate::collections::{
    lemma_push_to_set, lemma_viewed_push, viewed, viewed_option, OrderedMap, OrderedSet,
};
use crate::field_uses::{all_of_len, merge_pattern_set, merged_patterns, FieldUses, FieldUsesV};
use crate::isa_specification::{
    predicate_views, FieldV, FormV, InstructionForm, MergeMode, Predicate, PredicateV,
};

verus! {

/// Two bits can stand for a common value: they agree or one of them is variable.
pub open spec fn compatible(a: Bit, b: Bit) -> bool {
    a == Bit::Var || b == Bit::Var || a == b
}

/// The pattern narrowed to a value, where the two are compatible.
pub open spec fn constrained(pattern: Seq<Bit>, value: Seq<Bit>) -> Option<Seq<Bit>> {
    if pattern.len() == value.len() && forall|i: int|
        0 <= i < pattern.len() ==> compatible(#[trigger] pattern[i], value[i]) {
        Some(
            Seq::new(
                pattern.len(),
                |i: int|
                    if pattern[i] == Bit::Var {
                        value[i]
                    } else {
                        pattern[i]
                    },
            ),
        )
    } else {
        None
    }
}

/// The pattern with one bit narrowed to a value, where the two are compatible.
pub open spec fn bit_constrained(pattern: Seq<Bit>, at: int, value: Bit) -> Option<Seq<Bit>> {
    if pattern[at] == Bit::Var {
        Some(pattern.update(at, value))
    } else if pattern[at] == value {
        Some(pattern)
    } else {
        None
    }
}

/// The patterns narrowed to one of the values.
pub open spec fn constrained_in(patterns: Set<Seq<Bit>>, values: Seq<Seq<Bit>>) -> Set<Seq<Bit>> {
    Set::new(
        |q: Seq<Bit>|
            exists|p: Seq<Bit>, k: int|
                #[trigger] patterns.contains(p) && 0 <= k < values.len() && constrained(
                    p,
                    #[trigger] values[k],
                ) == Some(q),
    )
}

/// The patterns with the bit at `at` narrowed to a value.
pub open spec fn constrained_bit(patterns: Set<Seq<Bit>>, at: int, value: Bit) -> Set<Seq<Bit>> {
    Set::new(
        |q: Seq<Bit>|
            exists|p: Seq<Bit>|
                #[trigger] patterns.contains(p) && bit_constrained(p, at, value) == Some(q),
    )
}

/// The patterns narrowed by a row of predicates, one after the other.
pub open spec fn narrow_all(
    predicates: Seq<PredicateV>,
    patterns: Set<Seq<Bit>>,
    len: nat,
    offset: int,
    field_name: Seq<char>,
) -> Set<Seq<Bit>>
    decreases predicates, 0nat,
{
    if predicates.len() == 0 {
        patterns
    } else {
        narrow(
            predicates.last(),
            narrow_all(predicates.drop_last(), patterns, len, offset, field_name),
            len,
            offset,
            field_name,
        )
    }
}

/// The patterns of `len` bits of a field narrowed so that they can satisfy a predicate.
///
/// A predicate on another field, or on a bit outside of the `len` bits from `offset` on,
/// narrows nothing.
pub open spec fn narrow(
    predicate: PredicateV,
    patterns: Set<Seq<Bit>>,
    len: nat,
    offset: int,
    field_name: Seq<char>,
) -> Set<Seq<Bit>>
    decreases predicate, 1nat,
{
    match predicate {
        PredicateV::Always => patterns,
        PredicateV::Never => Set::empty(),
        PredicateV::And(inner) => narrow_all(inner, patterns, len, offset, field_name),
        PredicateV::FieldEq { field_name: name, value } => if name == field_name {
            constrained_in(patterns, seq![value])
        } else {
            patterns
        },
        PredicateV::BitEq { index, value } => if offset <= index < offset + len {
            constrained_bit(patterns, index - offset, value)
        } else {
            patterns
        },
        PredicateV::FieldIn { field_name: name, values } => if name == field_name {
            merged_patterns(constrained_in(patterns, values), len)
        } else {
            patterns
        },
    }
}

/// The set of the patterns of a row.
pub open spec fn pattern_set(patterns: Seq<BitPattern>) -> Set<Seq<Bit>> {
    viewed(patterns).to_set()
}

/// Narrows a pattern to a value.
fn constrain_pattern(pattern: &BitPattern, value: &BitPattern) -> (r: Option<BitPattern>)
    ensures
        viewed_option(r) == constrained(pattern@, value@),
{
    if pattern.bits.len() != value.bits.len() {
        return None;
    }
    let mut bits: Vec<Bit> = Vec::new();
    let mut i: usize = 0;
    while i < pattern.bits.len()
        invariant
            i <= pattern@.len(),
            pattern@.len() == value@.len(),
            bits@.len() == i,
            forall|j: int| 0 <= j < i ==> compatible(#[trigger] pattern@[j], value@[j]),
            forall|j: int|
                0 <= j < i ==> #[trigger] bits@[j] == if pattern@[j] == Bit::Var {
                    value@[j]
                } else {
                    pattern@[j]
                },
        decreases pattern@.len() - i,
    {
        let a = pattern.bits[i];
        let b = value.bits[i];
        if a != Bit::Var && b != Bit::Var && a != b {
            assert(!compatible(pattern@[i as int], value@[i as int]));
            return None;
        }
        bits.push(
            if a == Bit::Var {
                b
            } else {
                a
            },
        );
        i += 1;
    }
    let r = BitPattern { bits };
    assert(Some(r@) =~= constrained(pattern@, value@)) by {
        assert(r@ =~= constrained(pattern@, value@)->0);
    }
    Some(r)
}

/// Narrows each pattern to each of the values.
fn constrain_to_values(patterns: &Vec<BitPattern>, values: &Vec<BitPattern>) -> (r: Vec<BitPattern>)
    ensures
        pattern_set(r@) == constrained_in(pattern_set(patterns@), viewed(values@)),
{
    let ghost rows = viewed(patterns@);
    let ghost wanted = viewed(values@);
    let mut r: Vec<BitPattern> = Vec::new();
    let mut i: usize = 0;
    assert(rows.take(0).to_set() =~= Set::empty());
    assert(pattern_set(r@) =~= constrained_in(rows.take(0).to_set(), wanted));
    while i < patterns.len()
        invariant
            i <= patterns@.len(),
            rows == viewed(patterns@),
            wanted == viewed(values@),
            pattern_set(r@) == constrained_in(rows.take(i as int).to_set(), wanted),
        decreases patterns@.len() - i,
    {
        let pattern = &patterns[i];
        let ghost before = pattern_set(r@);
        let ghost single = Set::<Seq<Bit>>::empty().insert(pattern@);
        let mut k: usize = 0;
        assert(constrained_in(single, wanted.take(0)) =~= Set::empty());
        assert(pattern_set(r@) =~= before.union(constrained_in(single, wanted.take(0))));
        while k < values.len()
            invariant
                k <= values@.len(),
                wanted == viewed(values@),
                single == Set::<Seq<Bit>>::empty().insert(pattern@),
                pattern_set(r@) == before.union(constrained_in(single, wanted.take(k as int))),
            decreases values@.len() - k,
        {
            let ghost inner = pattern_set(r@);
            assert(wanted[k as int] == values@[k as int]@);
            let narrowed = constrain_pattern(pattern, &values[k]);
            let ghost result = constrained(pattern@, wanted[k as int]);
            if let Some(narrowed) = narrowed {
                proof {
                    lemma_viewed_push(r@, narrowed);
                    lemma_push_to_set(viewed(r@), narrowed@);
                }
                r.push(narrowed);
            }
            proof {
                let now = constrained_in(single, wanted.take(k + 1));
                let was = constrained_in(single, wanted.take(k as int));
                assert forall|q: Seq<Bit>| now.contains(q) == (was.contains(q) || result
                    == Some(q)) by {
                    if now.contains(q) {
                        let (p, n) = choose|p: Seq<Bit>, n: int|
                            #[trigger] single.contains(p) && 0 <= n < wanted.take(k + 1).len()
                                && constrained(p, #[trigger] wanted.take(k + 1)[n]) == Some(q);
                        if n < k {
                            assert(single.contains(p) && wanted.take(k as int)[n] == wanted[n]);
                        }
                    }
                    if was.contains(q) {
                        let (p, n) = choose|p: Seq<Bit>, n: int|
                            #[trigger] single.contains(p) && 0 <= n < wanted.take(k as int).len()
                                && constrained(p, #[trigger] wanted.take(k as int)[n]) == Some(q);
                        assert(single.contains(p) && wanted.take(k + 1)[n] == wanted[n]);
                    }
                    if result == Some(q) {
                        assert(single.contains(pattern@) && wanted.take(k + 1)[k as int]
                            == wanted[k as int]);
                    }
                }
                assert(pattern_set(r@) =~= before.union(now));
            }
            k += 1;
        }
        proof {
            assert(wanted.take(k as int) =~= wanted);
            assert(rows[i as int] == pattern@);
            assert(rows.take(i + 1) =~= rows.take(i as int).push(rows[i as int]));
            lemma_push_to_set(rows.take(i as int), rows[i as int]);
            let was = rows.take(i as int).to_set();
            let now = rows.take(i + 1).to_set();
            assert forall|q: Seq<Bit>| constrained_in(now, wanted).contains(q) == (constrained_in(
                was,
                wanted,
            ).contains(q) || constrained_in(single, wanted).contains(q)) by {
                if constrained_in(now, wanted).contains(q) {
                    let (p, n) = choose|p: Seq<Bit>, n: int|
                        #[trigger] now.contains(p) && 0 <= n < wanted.len() && constrained(
                            p,
                            #[trigger] wanted[n],
                        ) == Some(q);
                    assert(was.contains(p) || single.contains(p));
                }
                if constrained_in(was, wanted).contains(q) {
                    let (p, n) = choose|p: Seq<Bit>, n: int|
                        #[trigger] was.contains(p) && 0 <= n < wanted.len() && constrained(
                            p,
                            #[trigger] wanted[n],
                        ) == Some(q);
                    assert(now.contains(p));
                }
                if constrained_in(single, wanted).contains(q) {
                    let (p, n) = choose|p: Seq<Bit>, n: int|
                        #[trigger] single.contains(p) && 0 <= n < wanted.len() && constrained(
                            p,
                            #[trigger] wanted[n],
                        ) == Some(q);
                    assert(now.contains(p));
                }
            }
            assert(pattern_set(r@) =~= constrained_in(now, wanted));
        }
        i += 1;
    }
    assert(rows.take(i as int) =~= rows);
    r
}

/// Narrows one bit of each pattern.
fn constrain_bit(patterns: &Vec<BitPattern>, at: usize, value: Bit) -> (r: Vec<BitPattern>)
    requires
        forall|i: int| 0 <= i < patterns@.len() ==> at < (#[trigger] patterns@[i])@.len(),
    ensures
        pattern_set(r@) == constrained_bit(pattern_set(patterns@), at as int, value),
{
    let ghost rows = viewed(patterns@);
    let mut r: Vec<BitPattern> = Vec::new();
    let mut i: usize = 0;
    assert(rows.take(0).to_set() =~= Set::empty());
    assert(pattern_set(r@) =~= constrained_bit(rows.take(0).to_set(), at as int, value));
    while i < patterns.len()
        invariant
            i <= patterns@.len(),
            rows == viewed(patterns@),
            forall|i: int| 0 <= i < patterns@.len() ==> at < (#[trigger] patterns@[i])@.len(),
            pattern_set(r@) == constrained_bit(rows.take(i as int).to_set(), at as int, value),
        decreases patterns@.len() - i,
    {
        let mut pattern = patterns[i].clone();
        let ghost before = pattern_set(r@);
        let ghost whole = pattern@;
        let bit = pattern.bits[at];
        let ghost result = bit_constrained(whole, at as int, value);
        if bit == Bit::Var || bit == value {
            if bit == Bit::Var {
                pattern.bits.set(at, value);
            }
            proof {
                lemma_viewed_push(r@, pattern);
                lemma_push_to_set(viewed(r@), pattern@);
            }
            r.push(pattern);
        }
        proof {
            assert(rows[i as int] == whole);
            assert(rows.take(i + 1) =~= rows.take(i as int).push(rows[i as int]));
            lemma_push_to_set(rows.take(i as int), rows[i as int]);
            let was = rows.take(i as int).to_set();
            let now = rows.take(i + 1).to_set();
            assert forall|q: Seq<Bit>| constrained_bit(now, at as int, value).contains(q) == (
            constrained_bit(was, at as int, value).contains(q) || result == Some(q)) by {
                if constrained_bit(now, at as int, value).contains(q) {
                    let p = choose|p: Seq<Bit>|
                        #[trigger] now.contains(p) && bit_constrained(p, at as int, value)
                            == Some(q);
                    assert(was.contains(p) || p == whole);
                }
                if constrained_bit(was, at as int, value).contains(q) {
                    let p = choose|p: Seq<Bit>|
                        #[trigger] was.contains(p) && bit_constrained(p, at as int, value)
                            == Some(q);
                    assert(now.contains(p));
                }
                if result == Some(q) {
                    assert(now.contains(whole));
                }
            }
            assert(pattern_set(r@) =~= constrained_bit(now, at as int, value));
        }
        i += 1;
    }
    assert(rows.take(i as int) =~= rows);
    r
}

/// Merges a row of patterns of one length.
fn merge_patterns(patterns: &Vec<BitPattern>, len: usize) -> (r: Vec<BitPattern>)
    requires
        all_of_len(pattern_set(patterns@), len as nat),
    ensures
        pattern_set(r@) == merged_patterns(pattern_set(patterns@), len as nat),
{
    broadcast use OrderedSet::lemma_rows;

    let set = OrderedSet::from_vec(crate::collections::duplicate_all(patterns));
    let merged = merge_pattern_set(&set, len);
    merged.to_vec()
}

/// Narrowing keeps the length of the patterns.
pub(crate) proof fn lemma_narrow_len(
    predicate: PredicateV,
    patterns: Set<Seq<Bit>>,
    len: nat,
    offset: int,
    field_name: Seq<char>,
)
    requires
        all_of_len(patterns, len),
    ensures
        all_of_len(narrow(predicate, patterns, len, offset, field_name), len),
    decreases predicate, 1nat,
{
    match predicate {
        PredicateV::And(inner) => {
            lemma_narrow_all_len(inner, patterns, len, offset, field_name);
        },
        PredicateV::FieldIn { field_name: name, values } => {
            if name == field_name {
                crate::field_uses::lemma_merged_len(constrained_in(patterns, values), len);
            }
        },
        _ => {},
    }
}

proof fn lemma_narrow_all_len(
    predicates: Seq<PredicateV>,
    patterns: Set<Seq<Bit>>,
    len: nat,
    offset: int,
    field_name: Seq<char>,
)
    requires
        all_of_len(patterns, len),
    ensures
        all_of_len(narrow_all(predicates, patterns, len, offset, field_name), len),
    decreases predicates, 0nat,
{
    if predicates.len() > 0 {
        lemma_narrow_all_len(predicates.drop_last(), patterns, len, offset, field_name);
        lemma_narrow_len(
            predicates.last(),
            narrow_all(predicates.drop_last(), patterns, len, offset, field_name),
            len,
            offset,
            field_name,
        );
    }
}

fn apply_all_constraints(
    predicates: &Vec<Predicate>,
    patterns: Vec<BitPattern>,
    len: usize,
    offset: usize,
    field_name: &String,
) -> (r: Vec<BitPattern>)
    requires
        all_of_len(pattern_set(patterns@), len as nat),
        offset + len <= usize::MAX,
    ensures
        pattern_set(r@) == narrow_all(
            predicate_views(predicates@),
            pattern_set(patterns@),
            len as nat,
            offset as int,
            field_name@,
        ),
    decreases predicates, 0nat,
{
    let ghost all = predicate_views(predicates@);
    let ghost start = pattern_set(patterns@);
    let mut narrowed = patterns;
    let mut i: usize = 0;
    assert(all.take(0) =~= Seq::empty());
    while i < predicates.len()
        invariant
            i <= predicates@.len(),
            all == predicate_views(predicates@),
            all_of_len(start, len as nat),
            offset + len <= usize::MAX,
            pattern_set(narrowed@) == narrow_all(
                all.take(i as int),
                start,
                len as nat,
                offset as int,
                field_name@,
            ),
        decreases predicates@.len() - i,
    {
        proof {
            assert(all.take(i + 1).drop_last() =~= all.take(i as int));
            assert(all.take(i + 1).last() == predicates@[i as int]@);
            lemma_narrow_all_len(
                all.take(i as int),
                start,
                len as nat,
                offset as int,
                field_name@,
            );
        }
        narrowed = apply_constraints(&predicates[i], narrowed, len, offset, field_name);
        i += 1;
    }
    assert(all.take(i as int) =~= all);
    narrowed
}

fn apply_constraints(
    predicate: &Predicate,
    patterns: Vec<BitPattern>,
    len: usize,
    offset: usize,
    field_name: &String,
) -> (r: Vec<BitPattern>)
    requires
        all_of_len(pattern_set(patterns@), len as nat),
        offset + len <= usize::MAX,
    ensures
        pattern_set(r@) == narrow(
            predicate@,
            pattern_set(patterns@),
            len as nat,
            offset as int,
            field_name@,
        ),
    decreases predicate, 1nat,
{
    match predicate {
        Predicate::Always => patterns,
        Predicate::Never => {
            let none: Vec<BitPattern> = Vec::new();
            assert(pattern_set(none@) =~= Set::empty());
            none
        },
        Predicate::And(inner) => {
            assert(predicate@ == PredicateV::And(predicate_views(inner@)));
            apply_all_constraints(inner, patterns, len, offset, field_name)
        },
        Predicate::FieldEq { field_name: name, value } => {
            if *name == *field_name {
                let mut values: Vec<BitPattern> = Vec::new();
                values.push(value.clone());
                assert(viewed(values@) =~= seq![value@]);
                constrain_to_values(&patterns, &values)
            } else {
                patterns
            }
        },
        Predicate::BitEq { index, value } => {
            if *index < offset || *index >= offset + len {
                return patterns;
            }
            proof {
                assert forall|i: int| 0 <= i < patterns@.len() implies (
                #[trigger] patterns@[i])@.len() == len by {
                    assert(viewed(patterns@)[i] == patterns@[i]@);
                    assert(pattern_set(patterns@).contains(patterns@[i]@));
                }
            }
            constrain_bit(&patterns, *index - offset, *value)
        },
        Predicate::FieldIn { field_name: name, values } => {
            if *name == *field_name {
                let narrowed = constrain_to_values(&patterns, values);
                merge_patterns(&narrowed, len)
            } else {
                patterns
            }
        },
    }
}

impl InstructionForm {
    /// Elaborates variable bits in a BitPattern to satisfy the predicate of InstructionForm::when.
    /// `FieldIn` can split one broad pattern into multiple constrained patterns.
    /// Arguments:
    /// * `pattern` - the BitPattern to elaborate.
    /// * `pattern_idx` - the starting index of the pattern in the overall instruction encoding (used for checking BitEq predicates)
    /// * `field_name` - the name of the field corresponding to this pattern (used for checking FieldEq and FieldIn predicates)
    ///
    /// The order of the patterns, and how often one is repeated, is left open.
    pub fn constrain_variable_bits(
        &self,
        pattern: &BitPattern,
        pattern_idx: usize,
        field_name: &str,
    ) -> (r: Vec<BitPattern>)
        requires
            pattern_idx + pattern@.len() <= usize::MAX,
        ensures
            pattern_set(r@) == narrow(
                self@.when,
                set![pattern@],
                pattern@.len(),
                pattern_idx as int,
                field_name@,
            ),
    {
        let mut patterns: Vec<BitPattern> = Vec::new();
        patterns.push(pattern.clone());
        proof {
            assert(viewed(patterns@) =~= seq![pattern@]);
            lemma_push_to_set(Seq::<Seq<Bit>>::empty(), pattern@);
            assert(Seq::<Seq<Bit>>::empty().push(pattern@) =~= seq![pattern@]);
            assert(Seq::<Seq<Bit>>::empty().to_set() =~= Set::empty());
            assert(pattern_set(patterns@) =~= set![pattern@]);
        }
        apply_constraints(
            &self.when,
            patterns,
            pattern.len(),
            pattern_idx,
            &field_name.to_owned(),
        )
    }
}

/// The name under which predicates see a field: fields without a name share one.
pub open spec fn predicate_name(field: FieldV) -> Seq<char> {
    match field.name {
        Some(name) => name,
        None => "__const__"@,
    }
}

/// The patterns that the uses give a field, before the form's condition narrows them.
///
/// `None` where the uses do not fit the field: another merge mode, another length, or a field
/// without a name that has variable bits.
pub open spec fn field_patterns(field: FieldV, uses: Map<Seq<char>, FieldUsesV>) -> Option<
    Set<Seq<Bit>>,
> {
    match field.name {
        None => if (exists|i: int| 0 <= i < field.bits.len() && field.bits[i] == Bit::Var)
            || field.merge_mode != MergeMode::VariableBits {
            None
        } else {
            Some(set![field.bits])
        },
        Some(name) => if !uses.contains_key(name) {
            Some(Set::empty())
        } else {
            match (field.merge_mode, uses[name]) {
                (MergeMode::VariableBits, FieldUsesV::VariableBits { pattern, len, .. }) => if len
                    != field.bits.len() {
                    None
                } else {
                    match pattern {
                        Some(pattern) => Some(set![pattern]),
                        None => Some(Set::empty()),
                    }
                },
                (MergeMode::Uses, FieldUsesV::Uses { patterns, len, .. }) => if len
                    != field.bits.len() {
                    None
                } else {
                    Some(patterns)
                },
                _ => None,
            }
        },
    }
}

/// The bits can stand in the field at `i` behind the given ones.
pub open spec fn field_option(
    form: FormV,
    uses: Map<Seq<char>, FieldUsesV>,
    i: int,
    offset: nat,
    option: Seq<Bit>,
) -> bool {
    exists|p: Seq<Bit>|
        #[trigger] field_patterns(form.fields[i], uses)->0.contains(p) && narrow(
            form.when,
            set![p],
            p.len(),
            offset as int,
            predicate_name(form.fields[i]),
        ).contains(option)
}

/// From the field at `i` on, every field that an encoding reaches fits its uses.
pub open spec fn encodable_from(
    form: FormV,
    uses: Map<Seq<char>, FieldUsesV>,
    i: int,
    prefix: Seq<Bit>,
) -> bool
    decreases form.fields.len() - i,
{
    if i < 0 || i >= form.fields.len() {
        true
    } else {
        &&& field_patterns(form.fields[i], uses) is Some
        &&& forall|p: Seq<Bit>|
            #[trigger] field_patterns(form.fields[i], uses)->0.contains(p) ==> prefix.len()
                + p.len() <= usize::MAX
        &&& forall|option: Seq<Bit>|
            #[trigger] field_option(form, uses, i, prefix.len(), option) ==> encodable_from(
                form,
                uses,
                i + 1,
                prefix + option,
            )
    }
}

/// The encoding continues the prefix with the fields from `i` on.
pub open spec fn encodes_from(
    form: FormV,
    uses: Map<Seq<char>, FieldUsesV>,
    i: int,
    prefix: Seq<Bit>,
    encoding: Seq<Bit>,
) -> bool
    decreases form.fields.len() - i,
{
    if i < 0 || i >= form.fields.len() {
        encoding == prefix
    } else {
        exists|option: Seq<Bit>|
            #[trigger] field_option(form, uses, i, prefix.len(), option) && encodes_from(
                form,
                uses,
                i + 1,
                prefix + option,
                encoding,
            )
    }
}

/// The uses fit the fields that encodings reach.
pub open spec fn encodable(form: FormV, uses: Map<Seq<char>, FieldUsesV>) -> bool {
    encodable_from(form, uses, 0, seq![])
}

/// The encodings of a form: the product of what the fields may hold.
pub open spec fn encodings_of(form: FormV, uses: Map<Seq<char>, FieldUsesV>) -> Set<Seq<Bit>> {
    Set::new(|e: Seq<Bit>| encodes_from(form, uses, 0, seq![], e))
}

/// The patterns that the uses give a field.
fn patterns_for_field(
    field: &crate::isa_specification::InstructionField,
    field_values: &OrderedMap<FieldUses>,
) -> (r: Vec<BitPattern>)
    requires
        field_patterns(field@, field_values@) is Some,
    ensures
        field_patterns(field@, field_values@) == Some(pattern_set(r@)),
{
    broadcast use OrderedSet::lemma_rows;

    let mut r: Vec<BitPattern> = Vec::new();
    assert(pattern_set(r@) =~= Set::empty());
    match &field.name {
        None => {
            r.push(field.pattern.clone());
            proof {
                assert(viewed(r@) =~= seq![field.pattern@]);
                assert(pattern_set(r@) =~= set![field.pattern@]) by {
                    assert(viewed(r@)[0] == field.pattern@);
                }
            }
        },
        Some(name) => {
            if let Some(uses) = field_values.get(name.as_str()) {
                match uses {
                    FieldUses::VariableBits { pattern, .. } => {
                        if let Some(pattern) = pattern {
                            r.push(pattern.clone());
                            proof {
                                assert(viewed(r@) =~= seq![pattern@]);
                                assert(pattern_set(r@) =~= set![pattern@]) by {
                                    assert(viewed(r@)[0] == pattern@);
                                }
                            }
                        }
                    },
                    FieldUses::Uses { patterns, .. } => {
                        r = patterns.to_vec();
                    },
                }
            }
        },
    }
    r
}

/// Appends a row of bits.
fn append_bits(bits: &Vec<Bit>, more: &Vec<Bit>) -> (r: Vec<Bit>)
    ensures
        r@ == bits@ + more@,
{
    let mut r = crate::bit::copy_bits(bits);
    let mut i: usize = 0;
    assert(r@ =~= bits@ + more@.take(0));
    while i < more.len()
        invariant
            i <= more@.len(),
            r@ == bits@ + more@.take(i as int),
        decreases more@.len() - i,
    {
        r.push(more[i]);
        i += 1;
        assert(r@ =~= bits@ + more@.take(i as int));
    }
    assert(more@.take(i as int) =~= more@);
    r
}

/// The encodings that continue the prefix with one of the first options.
spec fn encodes_with(
    form: FormV,
    uses: Map<Seq<char>, FieldUsesV>,
    i: int,
    prefix: Seq<Bit>,
    options: Set<Seq<Bit>>,
    encoding: Seq<Bit>,
) -> bool {
    exists|option: Seq<Bit>|
        #[trigger] options.contains(option) && encodes_from(
            form,
            uses,
            i + 1,
            prefix + option,
            encoding,
        )
}

/// Continues a prefix with each option for the field at `index`.
fn extend_with_options(
    form: &InstructionForm,
    field_values: &OrderedMap<FieldUses>,
    current: &Vec<Bit>,
    options: &Vec<BitPattern>,
    index: usize,
    encodings: &mut OrderedSet<BitPattern>,
)
    requires
        index < form.fields@.len(),
        old(encodings).distinct(),
        forall|option: Seq<Bit>|
            #[trigger] pattern_set(options@).contains(option) ==> encodable_from(
                form@,
                field_values@,
                index + 1,
                current@ + option,
            ),
    ensures
        final(encodings).distinct(),
        final(encodings)@ == old(encodings)@.union(
            Set::new(
                |e: Seq<Bit>|
                    encodes_with(
                        form@,
                        field_values@,
                        index as int,
                        current@,
                        pattern_set(options@),
                        e,
                    ),
            ),
        ),
    decreases form.fields@.len() - index, 0nat,
{
    let ghost rows = viewed(options@);
    let ghost start = encodings@;
    let mut k: usize = 0;
    assert(rows.take(0).to_set() =~= Set::empty());
    assert(encodings@ =~= start.union(
        Set::new(
            |e: Seq<Bit>|
                encodes_with(
                    form@,
                    field_values@,
                    index as int,
                    current@,
                    rows.take(0).to_set(),
                    e,
                ),
        ),
    ));
    while k < options.len()
        invariant
            k <= options@.len(),
            rows == viewed(options@),
            index < form.fields@.len(),
            encodings.distinct(),
            forall|option: Seq<Bit>|
                #[trigger] pattern_set(options@).contains(option) ==> encodable_from(
                    form@,
                    field_values@,
                    index + 1,
                    current@ + option,
                ),
            encodings@ == start.union(
                Set::new(
                    |e: Seq<Bit>|
                        encodes_with(
                            form@,
                            field_values@,
                            index as int,
                            current@,
                            rows.take(k as int).to_set(),
                            e,
                        ),
                ),
            ),
        decreases options@.len() - k,
    {
        let next = append_bits(current, &options[k].bits);
        proof {
            assert(rows[k as int] == options@[k as int]@);
            assert(pattern_set(options@).contains(rows[k as int]));
        }
        assert(index < form.fields.len());
        collect_encodings(form, field_values, &next, index + 1, encodings);
        proof {
            assert(rows.take(k + 1) =~= rows.take(k as int).push(rows[k as int]));
            lemma_push_to_set(rows.take(k as int), rows[k as int]);
            let was = rows.take(k as int).to_set();
            let now = rows.take(k + 1).to_set();
            assert forall|e: Seq<Bit>| encodes_with(
                form@,
                field_values@,
                index as int,
                current@,
                now,
                e,
            ) == (encodes_with(form@, field_values@, index as int, current@, was, e)
                || encodes_from(form@, field_values@, index + 1, next@, e)) by {
                if encodes_with(form@, field_values@, index as int, current@, was, e) {
                    let option = choose|option: Seq<Bit>|
                        #[trigger] was.contains(option) && encodes_from(
                            form@,
                            field_values@,
                            index + 1,
                            current@ + option,
                            e,
                        );
                    assert(now.contains(option));
                }
                if encodes_from(form@, field_values@, index + 1, next@, e) {
                    assert(now.contains(rows[k as int]));
                }
                if encodes_with(form@, field_values@, index as int, current@, now, e) {
                    let option = choose|option: Seq<Bit>|
                        #[trigger] now.contains(option) && encodes_from(
                            form@,
                            field_values@,
                            index + 1,
                            current@ + option,
                            e,
                        );
                    assert(was.contains(option) || option == rows[k as int]);
                }
            }
            assert(encodings@ =~= start.union(
                Set::new(
                    |e: Seq<Bit>|
                        encodes_with(form@, field_values@, index as int, current@, now, e),
                ),
            ));
        }
        k += 1;
    }
    assert(rows.take(k as int) =~= rows);
}

/// The options for a field that come from one of the given patterns.
spec fn options_of(
    form: FormV,
    i: int,
    offset: nat,
    patterns: Set<Seq<Bit>>,
    option: Seq<Bit>,
) -> bool {
    exists|p: Seq<Bit>|
        #[trigger] patterns.contains(p) && narrow(
            form.when,
            set![p],
            p.len(),
            offset as int,
            predicate_name(form.fields[i]),
        ).contains(option)
}

/// Lists what can stand in the field at `index` behind the prefix.
fn options_for_field(
    form: &InstructionForm,
    field_values: &OrderedMap<FieldUses>,
    index: usize,
    offset: usize,
) -> (r: Vec<BitPattern>)
    requires
        index < form.fields@.len(),
        field_patterns(form@.fields[index as int], field_values@) is Some,
        forall|p: Seq<Bit>|
            #[trigger] field_patterns(form@.fields[index as int], field_values@)->0.contains(p)
                ==> offset + p.len() <= usize::MAX,
    ensures
        forall|option: Seq<Bit>|
            pattern_set(r@).contains(option) == #[trigger] field_option(
                form@,
                field_values@,
                index as int,
                offset as nat,
                option,
            ),
{
    let field = &form.fields[index];
    assert(form@.fields[index as int] == field@);
    let patterns = patterns_for_field(field, field_values);
    let name = match &field.name {
        Some(name) => name.clone(),
        None => "__const__".to_owned(),
    };
    assert(name@ == predicate_name(field@));
    let ghost rows = viewed(patterns@);
    let mut r: Vec<BitPattern> = Vec::new();
    let mut k: usize = 0;
    assert(rows.take(0).to_set() =~= Set::empty());
    while k < patterns.len()
        invariant
            k <= patterns@.len(),
            rows == viewed(patterns@),
            index < form.fields@.len(),
            name@ == predicate_name(form@.fields[index as int]),
            field_patterns(form@.fields[index as int], field_values@) == Some(rows.to_set()),
            forall|p: Seq<Bit>|
                #[trigger] field_patterns(
                    form@.fields[index as int],
                    field_values@,
                )->0.contains(p) ==> offset + p.len() <= usize::MAX,
            forall|option: Seq<Bit>|
                pattern_set(r@).contains(option) == #[trigger] options_of(
                    form@,
                    index as int,
                    offset as nat,
                    rows.take(k as int).to_set(),
                    option,
                ),
        decreases patterns@.len() - k,
    {
        proof {
            assert(rows[k as int] == patterns@[k as int]@);
            assert(rows.to_set().contains(rows[k as int]));
            assert(field_patterns(form@.fields[index as int], field_values@)->0.contains(
                rows[k as int],
            ));
        }
        let mut narrowed = form.constrain_variable_bits(&patterns[k], offset, name.as_str());
        let ghost before = r@;
        let ghost added = narrowed@;
        r.append(&mut narrowed);
        proof {
            assert(viewed(r@) =~= viewed(before) + viewed(added));
            assert(rows.take(k + 1) =~= rows.take(k as int).push(rows[k as int]));
            lemma_push_to_set(rows.take(k as int), rows[k as int]);
            let was = rows.take(k as int).to_set();
            let now = rows.take(k + 1).to_set();
            assert forall|option: Seq<Bit>| pattern_set(r@).contains(option)
                == #[trigger] options_of(
                form@,
                index as int,
                offset as nat,
                now,
                option,
            ) by {
                assert(pattern_set(r@).contains(option) == (pattern_set(before).contains(option)
                    || pattern_set(added).contains(option))) by {
                    let joint = viewed(before) + viewed(added);
                    if pattern_set(before).contains(option) {
                        let n = choose|n: int|
                            0 <= n < viewed(before).len() && viewed(before)[n] == option;
                        assert(joint[n] == option);
                    }
                    if pattern_set(added).contains(option) {
                        let n = choose|n: int|
                            0 <= n < viewed(added).len() && viewed(added)[n] == option;
                        assert(joint[viewed(before).len() + n] == option);
                    }
                }
                if options_of(form@, index as int, offset as nat, was, option) {
                    let p = choose|p: Seq<Bit>|
                        #[trigger] was.contains(p) && narrow(
                            form@.when,
                            set![p],
                            p.len(),
                            offset as int,
                            predicate_name(form@.fields[index as int]),
                        ).contains(option);
                    assert(now.contains(p));
                }
                if pattern_set(added).contains(option) {
                    assert(now.contains(rows[k as int]));
                }
                if options_of(form@, index as int, offset as nat, now, option) {
                    let p = choose|p: Seq<Bit>|
                        #[trigger] now.contains(p) && narrow(
                            form@.when,
                            set![p],
                            p.len(),
                            offset as int,
                            predicate_name(form@.fields[index as int]),
                        ).contains(option);
                    assert(was.contains(p) || p == rows[k as int]);
                }
            }
        }
        k += 1;
    }
    proof {
        assert(rows.take(k as int) =~= rows);
        assert forall|option: Seq<Bit>| pattern_set(r@).contains(option)
            == #[trigger] field_option(
            form@,
            field_values@,
            index as int,
            offset as nat,
            option,
        ) by {
            let patterns = field_patterns(form@.fields[index as int], field_values@)->0;
            if options_of(form@, index as int, offset as nat, rows.to_set(), option) {
                let p = choose|p: Seq<Bit>|
                    #[trigger] rows.to_set().contains(p) && narrow(
                        form@.when,
                        set![p],
                        p.len(),
                        offset as int,
                        predicate_name(form@.fields[index as int]),
                    ).contains(option);
                assert(patterns.contains(p));
            }
            if field_option(form@, field_values@, index as int, offset as nat, option) {
                let p = choose|p: Seq<Bit>|
                    #[trigger] patterns.contains(p) && narrow(
                        form@.when,
                        set![p],
                        p.len(),
                        offset as int,
                        predicate_name(form@.fields[index as int]),
                    ).contains(option);
                assert(rows.to_set().contains(p));
            }
            assert(rows.take(k as int) == rows);
        }
    }
    r
}

/// Adds the encodings that continue a prefix with the fields from `index` on.
fn collect_encodings(
    form: &InstructionForm,
    field_values: &OrderedMap<FieldUses>,
    current: &Vec<Bit>,
    index: usize,
    encodings: &mut OrderedSet<BitPattern>,
)
    requires
        index <= form.fields@.len(),
        old(encodings).distinct(),
        encodable_from(form@, field_values@, index as int, current@),
    ensures
        final(encodings).distinct(),
        final(encodings)@ == old(encodings)@.union(
            Set::new(
                |e: Seq<Bit>| encodes_from(form@, field_values@, index as int, current@, e),
            ),
        ),
    decreases form.fields@.len() - index, 1nat,
{
    assert(form@.fields.len() == form.fields@.len());
    if index == form.fields.len() {
        encodings.insert(BitPattern { bits: crate::bit::copy_bits(current) });
        assert(encodings@ =~= old(encodings)@.union(
            Set::new(|e: Seq<Bit>| encodes_from(form@, field_values@, index as int, current@, e)),
        ));
        return ;
    }
    let options = options_for_field(form, field_values, index, current.len());
    proof {
        assert forall|option: Seq<Bit>| #[trigger] pattern_set(options@).contains(
            option,
        ) implies encodable_from(form@, field_values@, index + 1, current@ + option) by {
            assert(field_option(
                form@,
                field_values@,
                index as int,
                current@.len(),
                option,
            ));
        }
    }
    extend_with_options(form, field_values, current, &options, index, encodings);
    proof {
        assert forall|e: Seq<Bit>| encodes_with(
            form@,
            field_values@,
            index as int,
            current@,
            pattern_set(options@),
            e,
        ) == encodes_from(form@, field_values@, index as int, current@, e) by {
            if encodes_with(
                form@,
                field_values@,
                index as int,
                current@,
                pattern_set(options@),
                e,
            ) {
                let option = choose|option: Seq<Bit>|
                    #[trigger] pattern_set(options@).contains(option) && encodes_from(
                        form@,
                        field_values@,
                        index + 1,
                        current@ + option,
                        e,
                    );
                assert(field_option(
                    form@,
                    field_values@,
                    index as int,
                    current@.len(),
                    option,
                ));
            }
            if encodes_from(form@, field_values@, index as int, current@, e) {
                let option = choose|option: Seq<Bit>|
                    #[trigger] field_option(
                        form@,
                        field_values@,
                        index as int,
                        current@.len(),
                        option,
                    ) && encodes_from(
                        form@,
                        field_values@,
                        index + 1,
                        current@ + option,
                        e,
                    );
                assert(pattern_set(options@).contains(option));
            }
        }
        assert(encodings@ =~= old(encodings)@.union(
            Set::new(|e: Seq<Bit>| encodes_from(form@, field_values@, index as int, current@, e)),
        ));
    }
}

impl InstructionForm {
    /// Given a vector of field uses, produce all the possible encodings of this instruction form that would match those field uses.
    /// Things like variable bits are NOT expanded.
    /// This is the raw output, so certain inefficiencies may exist (eg this may output [0, 1] when [x] is more efficient)
    ///
    /// No encoding is listed twice; their order is left open.
    pub fn fields_to_encodings(&self, field_values: &OrderedMap<FieldUses>) -> (r: Vec<BitPattern>)
        requires
            encodable(self@, field_values@),
        ensures
            pattern_set(r@) == encodings_of(self@, field_values@),
            viewed(r@).no_duplicates(),
    {
        broadcast use OrderedSet::lemma_rows;

        let mut encodings: OrderedSet<BitPattern> = OrderedSet::new();
        let current: Vec<Bit> = Vec::new();
        assert(current@ =~= seq![]);
        collect_encodings(self, field_values, &current, 0, &mut encodings);
        assert(encodings@ =~= encodings_of(self@, field_values@));
        encodings.to_vec()
    }
}

} // verus!
