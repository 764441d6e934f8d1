//! The encodings of a form under some uses are those of the instructions that the uses allow.
use vstd::prelude::*;

use crate::bit::{all_concrete, bit_accepts, pattern_matches, Bit};
use crate::candidate_laws::lemma_decoded_from;
use crate::collapse::field_bits;
use crate::decode::{check, check_all, field_slice, filled_fields, first_match, some_matches};
use crate::encodings::{
    bit_constrained, compatible, constrained, constrained_bit, constrained_in, encodes_from,
    encodings_of, field_option, field_patterns, narrow, narrow_all, predicate_name,
};
use crate::field_uses::{all_of_len, lemma_merged_len, FieldUsesV};
use crate::isa_candidate::{
    fields_allowed, form_active, has_variable, supports, value_allowed, CandidateV,
    ISACandidateError,
};
use crate::isa_optimization::{candidate_encodings, forms_encodings, instructions_encodings, RulesV};
use crate::isa_specification::{
    fields_width, lemma_width_prefix, FieldV, FormV, InstructionV, PredicateV,
};
use crate::merge_laws::{lemma_merging_keeps_points, lemma_merging_testless};
use crate::pattern_cover::{all_testless, covered, testless};

verus! {

/// All predicates of a row are met by the bits of a field.
pub open spec fn meets_all(
    predicates: Seq<PredicateV>,
    bits: Seq<Bit>,
    offset: int,
    name: Seq<char>,
) -> bool
    decreases predicates, 0nat,
{
    if predicates.len() == 0 {
        true
    } else {
        meets_all(predicates.drop_last(), bits, offset, name) && meets(
            predicates.last(),
            bits,
            offset,
            name,
        )
    }
}

/// What a predicate says of the field with the name, at the offset, is met by its bits.
pub open spec fn meets(
    predicate: PredicateV,
    bits: Seq<Bit>,
    offset: int,
    name: Seq<char>,
) -> bool
    decreases predicate, 1nat,
{
    match predicate {
        PredicateV::Always => true,
        PredicateV::Never => false,
        PredicateV::And(inner) => meets_all(inner, bits, offset, name),
        PredicateV::FieldEq { field_name, value } => field_name == name ==> pattern_matches(
            value,
            bits,
        ),
        PredicateV::FieldIn { field_name, values } => field_name == name ==> some_matches(
            values,
            bits,
        ),
        PredicateV::BitEq { index, value } => offset <= index < offset + bits.len()
            ==> bits[index - offset] == value,
    }
}

/// All predicates of a row narrow patterns without `Test` bits to such ones.
pub open spec fn narrowable_all(predicates: Seq<PredicateV>) -> bool
    decreases predicates, 0nat,
{
    forall|i: int| 0 <= i < predicates.len() ==> narrowable(#[trigger] predicates[i])
}

/// The predicate speaks of values without `Test` bits and of definite bits.
pub open spec fn narrowable(predicate: PredicateV) -> bool
    decreases predicate, 1nat,
{
    match predicate {
        PredicateV::Always | PredicateV::Never => true,
        PredicateV::And(inner) => narrowable_all(inner),
        PredicateV::FieldEq { value, .. } => testless(value),
        PredicateV::FieldIn { values, .. } => forall|k: int|
            0 <= k < values.len() ==> testless(#[trigger] values[k]),
        PredicateV::BitEq { value, .. } => value.concrete(),
    }
}

/// All predicates of a row are clear.
pub open spec fn clear_all(predicates: Seq<PredicateV>, fields: Seq<FieldV>) -> bool
    decreases predicates, 0nat,
{
    forall|i: int| 0 <= i < predicates.len() ==> clear(#[trigger] predicates[i], fields)
}

/// The predicate speaks of fields and bits that there are, of definite values of a field or a
/// bit, and of patterns without `Test` bits.
pub open spec fn clear(predicate: PredicateV, fields: Seq<FieldV>) -> bool
    decreases predicate, 1nat,
{
    match predicate {
        PredicateV::Always | PredicateV::Never => true,
        PredicateV::And(inner) => clear_all(inner, fields),
        PredicateV::FieldEq { field_name, value } => all_concrete(value) && has_field(
            fields,
            field_name,
        ),
        PredicateV::FieldIn { field_name, values } => {
            &&& forall|k: int| 0 <= k < values.len() ==> testless(#[trigger] values[k])
            &&& has_field(fields, field_name)
        },
        PredicateV::BitEq { index, value } => value.concrete() && index < fields_width(fields),
    }
}

proof fn lemma_clear_all(predicates: Seq<PredicateV>, fields: Seq<FieldV>)
    requires
        clear_all(predicates, fields),
    ensures
        narrowable_all(predicates),
    decreases predicates, 0nat,
{
    assert forall|i: int| 0 <= i < predicates.len() implies narrowable(
        #[trigger] predicates[i],
    ) by {
        lemma_clear(predicates[i], fields);
    }
}

/// A clear predicate can narrow.
proof fn lemma_clear(predicate: PredicateV, fields: Seq<FieldV>)
    requires
        clear(predicate, fields),
    ensures
        narrowable(predicate),
    decreases predicate, 1nat,
{
    match predicate {
        PredicateV::And(inner) => {
            lemma_clear_all(inner, fields);
        },
        PredicateV::FieldEq { value, .. } => {
            assert forall|i: int| 0 <= i < value.len() implies #[trigger] value[i]
                != Bit::Test by {
                assert(value[i].concrete());
            }
        },
        _ => {},
    }
}

/// One of the fields has the name.
pub open spec fn has_field(fields: Seq<FieldV>, name: Seq<char>) -> bool {
    exists|i: int| 0 <= i < fields.len() && (#[trigger] fields[i]).name == Some(name)
}

/// The fields that have names have different ones, and none has the name under which
/// predicates see the others.
pub open spec fn well_named(fields: Seq<FieldV>) -> bool {
    &&& forall|i: int, j: int|
        0 <= i < j < fields.len() && (#[trigger] fields[i]).name is Some ==> fields[i].name != (
        #[trigger] fields[j]).name
    &&& forall|i: int|
        0 <= i < fields.len() ==> (#[trigger] fields[i]).name != Some("__const__"@)
}

/// The uses give every field patterns of its length without `Test` bits.
pub open spec fn uses_cover(fields: Seq<FieldV>, uses: Map<Seq<char>, FieldUsesV>) -> bool {
    forall|i: int|
        0 <= i < fields.len() ==> {
            let patterns = field_patterns(#[trigger] fields[i], uses);
            &&& patterns is Some
            &&& all_of_len(patterns->0, fields[i].bits.len())
            &&& all_testless(patterns->0)
        }
}

/// The fields without names accept their parts of the bits.
pub open spec fn constants_match(fields: Seq<FieldV>, bits: Seq<Bit>) -> bool {
    forall|i: int|
        0 <= i < fields.len() && (#[trigger] fields[i]).name is None ==> pattern_matches(
            fields[i].bits,
            field_slice(fields, bits, i),
        )
}

/// A pattern narrowed to a value stands for the points of both.
proof fn lemma_constrained(p: Seq<Bit>, value: Seq<Bit>, x: Seq<Bit>)
    requires
        testless(p),
        testless(value),
        all_concrete(x),
        p.len() == x.len(),
    ensures
        constrained(p, value) matches Some(q) ==> q.len() == p.len() && testless(q) && (
        pattern_matches(q, x) == (pattern_matches(p, x) && pattern_matches(value, x))),
        pattern_matches(p, x) && pattern_matches(value, x) ==> constrained(p, value) is Some,
{
    if pattern_matches(p, x) && pattern_matches(value, x) {
        assert forall|i: int| 0 <= i < p.len() implies compatible(#[trigger] p[i], value[i]) by {
            assert(bit_accepts(p[i], x[i]));
            assert(bit_accepts(value[i], x[i]));
            assert(value[i] != Bit::Test);
        }
    }
    if constrained(p, value) is Some {
        let q = constrained(p, value)->0;
        assert forall|i: int| 0 <= i < q.len() implies #[trigger] q[i] != Bit::Test by {
            assert(p[i] != Bit::Test);
            assert(value[i] != Bit::Test);
        }
        if pattern_matches(q, x) {
            assert forall|i: int| 0 <= i < x.len() implies bit_accepts(#[trigger] p[i], x[i]) by {
                assert(bit_accepts(q[i], x[i]));
            }
            assert forall|i: int| 0 <= i < x.len() implies bit_accepts(
                #[trigger] value[i],
                x[i],
            ) by {
                assert(bit_accepts(q[i], x[i]));
                assert(compatible(p[i], value[i]));
                assert(p[i] != Bit::Test);
            }
        }
        if pattern_matches(p, x) && pattern_matches(value, x) {
            assert forall|i: int| 0 <= i < x.len() implies bit_accepts(#[trigger] q[i], x[i]) by {
                assert(bit_accepts(p[i], x[i]));
                assert(bit_accepts(value[i], x[i]));
            }
        }
    }
}

/// Patterns narrowed to one of several values stand for their points within the values.
proof fn lemma_constrained_in(
    patterns: Set<Seq<Bit>>,
    values: Seq<Seq<Bit>>,
    len: nat,
    x: Seq<Bit>,
)
    requires
        all_testless(patterns),
        all_of_len(patterns, len),
        forall|k: int| 0 <= k < values.len() ==> testless(#[trigger] values[k]),
        all_concrete(x),
        x.len() == len,
    ensures
        all_testless(constrained_in(patterns, values)),
        all_of_len(constrained_in(patterns, values), len),
        covered(constrained_in(patterns, values), x) == (covered(patterns, x) && some_matches(
            values,
            x,
        )),
{
    let next = constrained_in(patterns, values);
    assert forall|q: Seq<Bit>| #[trigger] next.contains(q) implies testless(q) && q.len() == len
        && (pattern_matches(q, x) ==> covered(patterns, x) && some_matches(values, x)) by {
        let (p, k) = choose|p: Seq<Bit>, k: int|
            #[trigger] patterns.contains(p) && 0 <= k < values.len() && constrained(
                p,
                #[trigger] values[k],
            ) == Some(q);
        lemma_constrained(p, values[k], x);
    }
    if covered(next, x) {
        let q = choose|q: Seq<Bit>| #[trigger] next.contains(q) && pattern_matches(q, x);
        assert(next.contains(q));
    }
    if covered(patterns, x) && some_matches(values, x) {
        let p = choose|p: Seq<Bit>| #[trigger] patterns.contains(p) && pattern_matches(p, x);
        let k = choose|k: int| 0 <= k < values.len() && pattern_matches(#[trigger] values[k], x);
        lemma_constrained(p, values[k], x);
        let q = constrained(p, values[k])->0;
        assert(patterns.contains(p) && constrained(p, values[k]) == Some(q));
        assert(next.contains(q));
    }
}

/// Patterns with one bit narrowed stand for their points with that bit.
proof fn lemma_constrained_bit(
    patterns: Set<Seq<Bit>>,
    at: int,
    value: Bit,
    len: nat,
    x: Seq<Bit>,
)
    requires
        all_testless(patterns),
        all_of_len(patterns, len),
        value.concrete(),
        0 <= at < len,
        all_concrete(x),
        x.len() == len,
    ensures
        all_testless(constrained_bit(patterns, at, value)),
        all_of_len(constrained_bit(patterns, at, value), len),
        covered(constrained_bit(patterns, at, value), x) == (covered(patterns, x) && x[at]
            == value),
{
    let next = constrained_bit(patterns, at, value);
    assert forall|q: Seq<Bit>| #[trigger] next.contains(q) implies testless(q) && q.len() == len
        && (pattern_matches(q, x) ==> covered(patterns, x) && x[at] == value) by {
        let p = choose|p: Seq<Bit>|
            #[trigger] patterns.contains(p) && bit_constrained(p, at, value) == Some(q);
        assert(testless(p));
        assert(q[at] == value);
        assert forall|i: int| 0 <= i < q.len() implies #[trigger] q[i] != Bit::Test by {
            assert(p[i] != Bit::Test);
        }
        if pattern_matches(q, x) {
            assert(bit_accepts(q[at], x[at]));
            assert forall|i: int| 0 <= i < x.len() implies bit_accepts(#[trigger] p[i], x[i]) by {
                assert(bit_accepts(q[i], x[i]));
            }
            assert(pattern_matches(p, x));
        }
    }
    if covered(next, x) {
        let q = choose|q: Seq<Bit>| #[trigger] next.contains(q) && pattern_matches(q, x);
        assert(next.contains(q));
    }
    if covered(patterns, x) && x[at] == value {
        let p = choose|p: Seq<Bit>| #[trigger] patterns.contains(p) && pattern_matches(p, x);
        assert(bit_accepts(p[at], x[at]));
        assert(testless(p));
        assert(p[at] != Bit::Test);
        let q = if p[at] == Bit::Var {
            p.update(at, value)
        } else {
            p
        };
        assert(bit_constrained(p, at, value) == Some(q));
        assert(next.contains(q));
        assert forall|i: int| 0 <= i < x.len() implies bit_accepts(#[trigger] q[i], x[i]) by {
            assert(bit_accepts(p[i], x[i]));
        }
        assert(pattern_matches(q, x));
    }
}

proof fn lemma_narrow_all(
    predicates: Seq<PredicateV>,
    patterns: Set<Seq<Bit>>,
    len: nat,
    offset: int,
    name: Seq<char>,
    x: Seq<Bit>,
)
    requires
        narrowable_all(predicates),
        all_testless(patterns),
        all_of_len(patterns, len),
        all_concrete(x),
        x.len() == len,
    ensures
        all_testless(narrow_all(predicates, patterns, len, offset, name)),
        all_of_len(narrow_all(predicates, patterns, len, offset, name), len),
        covered(narrow_all(predicates, patterns, len, offset, name), x) == (covered(patterns, x)
            && meets_all(predicates, x, offset, name)),
    decreases predicates, 0nat,
{
    if predicates.len() > 0 {
        let front = predicates.drop_last();
        assert(narrowable_all(front)) by {
            assert forall|i: int| 0 <= i < front.len() implies narrowable(
                #[trigger] front[i],
            ) by {
                assert(front[i] == predicates[i]);
            }
        }
        assert(narrowable(predicates[predicates.len() - 1]));
        lemma_narrow_all(front, patterns, len, offset, name, x);
        lemma_narrow(
            predicates.last(),
            narrow_all(front, patterns, len, offset, name),
            len,
            offset,
            name,
            x,
        );
    }
}

/// Narrowing keeps the points of the patterns that meet the predicate, and no others.
pub proof fn lemma_narrow(
    predicate: PredicateV,
    patterns: Set<Seq<Bit>>,
    len: nat,
    offset: int,
    name: Seq<char>,
    x: Seq<Bit>,
)
    requires
        narrowable(predicate),
        all_testless(patterns),
        all_of_len(patterns, len),
        all_concrete(x),
        x.len() == len,
    ensures
        all_testless(narrow(predicate, patterns, len, offset, name)),
        all_of_len(narrow(predicate, patterns, len, offset, name), len),
        covered(narrow(predicate, patterns, len, offset, name), x) == (covered(patterns, x)
            && meets(predicate, x, offset, name)),
    decreases predicate, 1nat,
{
    match predicate {
        PredicateV::Always | PredicateV::Never => {},
        PredicateV::And(inner) => {
            lemma_narrow_all(inner, patterns, len, offset, name, x);
        },
        PredicateV::FieldEq { field_name, value } => {
            if field_name == name {
                let values = seq![value];
                lemma_constrained_in(patterns, values, len, x);
                assert(some_matches(values, x) == pattern_matches(value, x)) by {
                    assert(values[0] == value);
                }
            }
        },
        PredicateV::FieldIn { field_name, values } => {
            if field_name == name {
                lemma_constrained_in(patterns, values, len, x);
                let narrowed = constrained_in(patterns, values);
                lemma_merging_keeps_points(narrowed, x, len);
                lemma_merging_testless(narrowed, len);
                lemma_merged_len(narrowed, len);
            }
        },
        PredicateV::BitEq { index, value } => {
            if offset <= index < offset + len {
                lemma_constrained_bit(patterns, index - offset, value, len, x);
            }
        },
    }
}

/// A field of a form may hold its part of the bits.
pub open spec fn part_allowed(
    form: FormV,
    uses: Map<Seq<char>, FieldUsesV>,
    bits: Seq<Bit>,
    i: int,
) -> bool {
    let part = field_slice(form.fields, bits, i);
    &&& covered(field_patterns(form.fields[i], uses)->0, part)
    &&& meets(
        form.when,
        part,
        fields_width(form.fields.take(i)) as int,
        predicate_name(form.fields[i]),
    )
}

/// The parts of the bits and where they stand.
pub(crate) proof fn lemma_part(fields: Seq<FieldV>, bits: Seq<Bit>, i: int)
    requires
        0 <= i < fields.len(),
        fields_width(fields) == bits.len(),
        all_concrete(bits),
    ensures
        ({
            let part = field_slice(fields, bits, i);
            let start = fields_width(fields.take(i)) as int;
            &&& part.len() == fields[i].bits.len()
            &&& fields_width(fields.take(i + 1)) == start + part.len()
            &&& start + part.len() <= bits.len()
            &&& part == bits.subrange(start, start + part.len())
            &&& all_concrete(part)
            &&& forall|k: int| 0 <= k < part.len() ==> #[trigger] part[k] == bits[start + k]
        }),
{
    reveal(field_slice);
    lemma_width_prefix(fields, i);
    lemma_width_prefix(fields, i + 1);
    assert(fields.take(i + 1).drop_last() =~= fields.take(i));
    let part = field_slice(fields, bits, i);
    let start = fields_width(fields.take(i)) as int;
    assert forall|k: int| 0 <= k < part.len() implies (#[trigger] part[k]).concrete() by {
        assert(part[k] == bits[start + k]);
    }
}

/// A field has an option that accepts a part exactly when it may hold the part.
proof fn lemma_option(form: FormV, uses: Map<Seq<char>, FieldUsesV>, bits: Seq<Bit>, i: int)
    requires
        0 <= i < form.fields.len(),
        fields_width(form.fields) == bits.len(),
        all_concrete(bits),
        narrowable(form.when),
        uses_cover(form.fields, uses),
    ensures
        forall|option: Seq<Bit>| #[trigger]
            field_option(form, uses, i, fields_width(form.fields.take(i)), option) ==> {
                &&& option.len() == form.fields[i].bits.len()
                &&& pattern_matches(option, field_slice(form.fields, bits, i)) ==> part_allowed(
                    form,
                    uses,
                    bits,
                    i,
                )
            },
        part_allowed(form, uses, bits, i) ==> exists|option: Seq<Bit>| #[trigger]
            field_option(form, uses, i, fields_width(form.fields.take(i)), option)
                && pattern_matches(option, field_slice(form.fields, bits, i)),
{
    let field = form.fields[i];
    let part = field_slice(form.fields, bits, i);
    let offset = fields_width(form.fields.take(i));
    let name = predicate_name(field);
    let patterns = field_patterns(field, uses)->0;
    let len = field.bits.len();
    lemma_part(form.fields, bits, i);
    assert(field_patterns(form.fields[i], uses) is Some);
    assert forall|p: Seq<Bit>| #[trigger] patterns.contains(p) implies {
        let narrowed = narrow(form.when, set![p], p.len(), offset as int, name);
        &&& p.len() == len
        &&& all_of_len(narrowed, len)
        &&& covered(narrowed, part) == (pattern_matches(p, part) && meets(
            form.when,
            part,
            offset as int,
            name,
        ))
    } by {
        let single = set![p];
        assert(testless(p) && p.len() == len);
        lemma_narrow(form.when, single, len, offset as int, name, part);
        assert(covered(single, part) == pattern_matches(p, part)) by {
            assert(single.contains(p));
        }
    }
    assert forall|option: Seq<Bit>| #[trigger]
        field_option(form, uses, i, offset, option) implies option.len() == len && (
    pattern_matches(option, part) ==> part_allowed(form, uses, bits, i)) by {
        let p = choose|p: Seq<Bit>|
            #[trigger] field_patterns(form.fields[i], uses)->0.contains(p) && narrow(
                form.when,
                set![p],
                p.len(),
                offset as int,
                predicate_name(form.fields[i]),
            ).contains(option);
        assert(patterns.contains(p));
        let narrowed = narrow(form.when, set![p], p.len(), offset as int, name);
        assert(narrowed.contains(option));
        if pattern_matches(option, part) {
            assert(covered(narrowed, part));
            assert(covered(patterns, part));
        }
    }
    if part_allowed(form, uses, bits, i) {
        let p = choose|p: Seq<Bit>| #[trigger] patterns.contains(p) && pattern_matches(p, part);
        let narrowed = narrow(form.when, set![p], p.len(), offset as int, name);
        assert(covered(narrowed, part));
        let option = choose|option: Seq<Bit>|
            #[trigger] narrowed.contains(option) && pattern_matches(option, part);
        assert(field_patterns(form.fields[i], uses)->0.contains(p));
        assert(field_option(form, uses, i, offset, option));
    }
}

/// An encoding that accepts the bits begins with its prefix and has allowed parts behind it.
pub(crate) proof fn lemma_encodes_sound(
    form: FormV,
    uses: Map<Seq<char>, FieldUsesV>,
    bits: Seq<Bit>,
    i: int,
    prefix: Seq<Bit>,
    encoding: Seq<Bit>,
)
    requires
        0 <= i <= form.fields.len(),
        fields_width(form.fields) == bits.len(),
        all_concrete(bits),
        narrowable(form.when),
        uses_cover(form.fields, uses),
        prefix.len() == fields_width(form.fields.take(i)),
        encodes_from(form, uses, i, prefix, encoding),
    ensures
        prefix.len() <= encoding.len(),
        encoding.take(prefix.len() as int) == prefix,
        pattern_matches(encoding, bits) ==> forall|k: int|
            i <= k < form.fields.len() ==> #[trigger] part_allowed(form, uses, bits, k),
    decreases form.fields.len() - i,
{
    if i < form.fields.len() {
        let option = choose|option: Seq<Bit>|
            #[trigger] field_option(form, uses, i, prefix.len(), option) && encodes_from(
                form,
                uses,
                i + 1,
                prefix + option,
                encoding,
            );
        lemma_option(form, uses, bits, i);
        lemma_part(form.fields, bits, i);
        assert(field_option(form, uses, i, fields_width(form.fields.take(i)), option));
        lemma_encodes_sound(form, uses, bits, i + 1, prefix + option, encoding);
        let more = prefix + option;
        assert(encoding.take(prefix.len() as int) =~= encoding.take(more.len() as int).take(
            prefix.len() as int,
        ));
        assert(more.take(prefix.len() as int) =~= prefix);
        if pattern_matches(encoding, bits) {
            let part = field_slice(form.fields, bits, i);
            assert forall|k: int| 0 <= k < part.len() implies bit_accepts(
                #[trigger] option[k],
                part[k],
            ) by {
                let at = prefix.len() + k;
                assert(encoding.take(more.len() as int)[at] == more[at]);
                assert(bit_accepts(encoding[at], bits[at]));
            }
            assert(pattern_matches(option, part));
            assert(part_allowed(form, uses, bits, i));
        }
    } else {
        assert(encoding.take(prefix.len() as int) =~= prefix);
    }
}

/// Where all parts are allowed, some encoding accepts the bits.
pub(crate) proof fn lemma_encodes_complete(
    form: FormV,
    uses: Map<Seq<char>, FieldUsesV>,
    bits: Seq<Bit>,
    i: int,
    prefix: Seq<Bit>,
) -> (encoding: Seq<Bit>)
    requires
        0 <= i <= form.fields.len(),
        fields_width(form.fields) == bits.len(),
        all_concrete(bits),
        narrowable(form.when),
        uses_cover(form.fields, uses),
        prefix.len() == fields_width(form.fields.take(i)),
        pattern_matches(prefix, bits.take(prefix.len() as int)),
        forall|k: int|
            i <= k < form.fields.len() ==> #[trigger] part_allowed(form, uses, bits, k),
    ensures
        encodes_from(form, uses, i, prefix, encoding),
        pattern_matches(encoding, bits),
    decreases form.fields.len() - i,
{
    if i < form.fields.len() {
        lemma_option(form, uses, bits, i);
        lemma_part(form.fields, bits, i);
        assert(part_allowed(form, uses, bits, i));
        let part = field_slice(form.fields, bits, i);
        let option = choose|option: Seq<Bit>| #[trigger]
            field_option(form, uses, i, fields_width(form.fields.take(i)), option)
                && pattern_matches(option, part);
        let more = prefix + option;
        let seen = bits.take(more.len() as int);
        assert forall|k: int| 0 <= k < seen.len() implies bit_accepts(
            #[trigger] more[k],
            seen[k],
        ) by {
            if k < prefix.len() {
                assert(bit_accepts(prefix[k], bits.take(prefix.len() as int)[k]));
            } else {
                let at = k - prefix.len();
                assert(bit_accepts(option[at], part[at]));
                assert(part[at] == bits[prefix.len() + at]);
            }
        }
        let encoding = lemma_encodes_complete(form, uses, bits, i + 1, more);
        assert(field_option(form, uses, i, prefix.len(), option) && encodes_from(
            form,
            uses,
            i + 1,
            prefix + option,
            encoding,
        ));
        encoding
    } else {
        assert(form.fields.take(i) =~= form.fields);
        assert(bits.take(prefix.len() as int) =~= bits);
        prefix
    }
}

/// The first field with a name is the only one.
proof fn lemma_only_field(fields: Seq<FieldV>, i: int, name: Seq<char>)
    requires
        0 <= i < fields.len(),
        fields[i].name == Some(name),
        forall|j: int| 0 <= j < fields.len() && j != i ==> (#[trigger] fields[j]).name != Some(name),
    ensures
        field_bits(fields, name) == Some(fields[i].bits),
    decreases fields.len(),
{
    let front = fields.drop_last();
    if i < fields.len() - 1 {
        assert forall|j: int| 0 <= j < front.len() && j != i implies (
        #[trigger] front[j]).name != Some(name) by {
            assert(front[j] == fields[j]);
        }
        lemma_only_field(front, i, name);
    } else {
        assert forall|j: int| 0 <= j < front.len() implies (#[trigger] front[j]).name != Some(
            name,
        ) by {
            assert(front[j] == fields[j]);
        }
        lemma_no_field(front, name);
    }
}

proof fn lemma_no_field(fields: Seq<FieldV>, name: Seq<char>)
    requires
        forall|j: int| 0 <= j < fields.len() ==> (#[trigger] fields[j]).name != Some(name),
    ensures
        field_bits(fields, name) is None,
    decreases fields.len(),
{
    if fields.len() > 0 {
        let front = fields.drop_last();
        assert(fields[fields.len() - 1].name != Some(name));
        assert forall|j: int| 0 <= j < front.len() implies (#[trigger] front[j]).name != Some(
            name,
        ) by {
            assert(front[j] == fields[j]);
        }
        lemma_no_field(front, name);
    }
}

/// The place of a bit in the fields.
proof fn lemma_place(fields: Seq<FieldV>, index: int) -> (i: int)
    requires
        0 <= index < fields_width(fields),
    ensures
        0 <= i < fields.len(),
        fields_width(fields.take(i)) <= index < fields_width(fields.take(i)) + fields[i].bits.len(),
    decreases fields.len(),
{
    let front = fields.drop_last();
    if index < fields_width(front) {
        let i = lemma_place(front, index);
        assert(front.take(i) =~= fields.take(i));
        i
    } else {
        assert(fields.take(fields.len() - 1) =~= front);
        fields.len() - 1
    }
}

/// The parts of the bits meet a predicate.
pub open spec fn parts_meet(predicate: PredicateV, fields: Seq<FieldV>, bits: Seq<Bit>) -> bool {
    forall|i: int|
        0 <= i < fields.len() ==> meets(
            predicate,
            #[trigger] field_slice(fields, bits, i),
            fields_width(fields.take(i)) as int,
            predicate_name(fields[i]),
        )
}

proof fn lemma_check_all_parts(predicates: Seq<PredicateV>, fields: Seq<FieldV>, bits: Seq<Bit>)
    requires
        clear_all(predicates, fields),
        well_named(fields),
        fields.len() > 0,
        fields_width(fields) == bits.len(),
        all_concrete(bits),
    ensures
        check_all(predicates, bits, filled_fields(fields, bits)) is Some,
        (check_all(predicates, bits, filled_fields(fields, bits)) == Some(true)) == parts_meet(
            PredicateV::And(predicates),
            fields,
            bits,
        ),
    decreases predicates, 0nat,
{
    if predicates.len() > 0 {
        let front = predicates.drop_last();
        let last = predicates.last();
        assert(clear_all(front, fields)) by {
            assert forall|i: int| 0 <= i < front.len() implies clear(
                #[trigger] front[i],
                fields,
            ) by {
                assert(front[i] == predicates[i]);
            }
        }
        assert(clear(predicates[predicates.len() - 1], fields));
        lemma_check_all_parts(front, fields, bits);
        lemma_check_parts(last, fields, bits);
        assert(parts_meet(PredicateV::And(predicates), fields, bits) == (parts_meet(
            PredicateV::And(front),
            fields,
            bits,
        ) && parts_meet(last, fields, bits))) by {
            assert forall|i: int| 0 <= i < fields.len() implies meets(
                PredicateV::And(predicates),
                #[trigger] field_slice(fields, bits, i),
                fields_width(fields.take(i)) as int,
                predicate_name(fields[i]),
            ) == (meets(
                PredicateV::And(front),
                field_slice(fields, bits, i),
                fields_width(fields.take(i)) as int,
                predicate_name(fields[i]),
            ) && meets(
                last,
                field_slice(fields, bits, i),
                fields_width(fields.take(i)) as int,
                predicate_name(fields[i]),
            )) by {
                let part = field_slice(fields, bits, i);
                let offset = fields_width(fields.take(i)) as int;
                let name = predicate_name(fields[i]);
                assert(meets(PredicateV::And(predicates), part, offset, name) == meets_all(
                    predicates,
                    part,
                    offset,
                    name,
                ));
                assert(meets(PredicateV::And(front), part, offset, name) == meets_all(
                    front,
                    part,
                    offset,
                    name,
                ));
            }
        }
    } else {
        assert forall|i: int| 0 <= i < fields.len() implies meets(
            PredicateV::And(predicates),
            #[trigger] field_slice(fields, bits, i),
            fields_width(fields.take(i)) as int,
            predicate_name(fields[i]),
        ) by {
            assert(meets_all(
                predicates,
                field_slice(fields, bits, i),
                fields_width(fields.take(i)) as int,
                predicate_name(fields[i]),
            ));
        }
    }
}

/// A predicate holds of the whole encoding when each part meets what it says of the part.
proof fn lemma_check_parts(predicate: PredicateV, fields: Seq<FieldV>, bits: Seq<Bit>)
    requires
        clear(predicate, fields),
        well_named(fields),
        fields.len() > 0,
        fields_width(fields) == bits.len(),
        all_concrete(bits),
    ensures
        check(predicate, bits, filled_fields(fields, bits)) is Some,
        (check(predicate, bits, filled_fields(fields, bits)) == Some(true)) == parts_meet(
            predicate,
            fields,
            bits,
        ),
    decreases predicate, 1nat,
{
    let filled = filled_fields(fields, bits);
    match predicate {
        PredicateV::Always => {},
        PredicateV::Never => {
            let part = field_slice(fields, bits, 0);
            assert(!meets(
                predicate,
                part,
                fields_width(fields.take(0)) as int,
                predicate_name(fields[0]),
            ));
        },
        PredicateV::And(inner) => {
            lemma_check_all_parts(inner, fields, bits);
        },
        PredicateV::FieldEq { field_name, .. } | PredicateV::FieldIn { field_name, .. } => {
            let at = choose|i: int|
                0 <= i < fields.len() && (#[trigger] fields[i]).name == Some(field_name);
            lemma_named_part(fields, bits, at, field_name);
            let part = field_slice(fields, bits, at);
            lemma_part(fields, bits, at);
            let holds = check(predicate, bits, filled) == Some(true);
            match predicate {
                PredicateV::FieldEq { value, .. } => {
                    assert(holds == (part == value));
                    assert(pattern_matches(value, part) == (value == part)) by {
                        lemma_definite_match(value, part);
                    }
                },
                _ => {},
            }
            assert(meets(
                predicate,
                part,
                fields_width(fields.take(at)) as int,
                predicate_name(fields[at]),
            ) == holds);
            if holds {
                assert forall|i: int| 0 <= i < fields.len() implies meets(
                    predicate,
                    #[trigger] field_slice(fields, bits, i),
                    fields_width(fields.take(i)) as int,
                    predicate_name(fields[i]),
                ) by {
                    if i != at {
                        assert(fields[i].name != fields[at].name);
                        assert(fields[at].name != Some("__const__"@));
                        assert(predicate_name(fields[i]) != field_name);
                    }
                }
            }
        },
        PredicateV::BitEq { index, value } => {
            let at = lemma_place(fields, index as int);
            lemma_part(fields, bits, at);
            let part = field_slice(fields, bits, at);
            let start = fields_width(fields.take(at)) as int;
            assert(part[index - start] == bits[index as int]);
            assert(meets(predicate, part, start, predicate_name(fields[at])) == (bits[index as int]
                == value));
            if bits[index as int] == value {
                assert forall|i: int| 0 <= i < fields.len() implies meets(
                    predicate,
                    #[trigger] field_slice(fields, bits, i),
                    fields_width(fields.take(i)) as int,
                    predicate_name(fields[i]),
                ) by {
                    lemma_part(fields, bits, i);
                    let p = field_slice(fields, bits, i);
                    let s = fields_width(fields.take(i)) as int;
                    if s <= index < s + p.len() {
                        assert(p[index - s] == bits[s + (index - s)]);
                    }
                }
            }
        },
    }
}

/// A definite pattern accepts only itself.
proof fn lemma_definite_match(value: Seq<Bit>, part: Seq<Bit>)
    requires
        all_concrete(value),
    ensures
        pattern_matches(value, part) == (value == part),
{
    if pattern_matches(value, part) {
        assert forall|k: int| 0 <= k < value.len() implies value[k] == part[k] by {
            assert(value[k].concrete());
            assert(bit_accepts(value[k], part[k]));
        }
        assert(value =~= part);
    }
}

/// The field with a name has its part of the encoding.
proof fn lemma_named_part(fields: Seq<FieldV>, bits: Seq<Bit>, at: int, name: Seq<char>)
    requires
        0 <= at < fields.len(),
        fields[at].name == Some(name),
        well_named(fields),
    ensures
        field_bits(filled_fields(fields, bits), name) == Some(field_slice(fields, bits, at)),
{
    let filled = filled_fields(fields, bits);
    assert forall|j: int| 0 <= j < filled.len() && j != at implies (#[trigger] filled[j]).name
        != Some(name) by {
        assert(filled[j].name == fields[j].name);
        if j < at {
            assert(fields[j].name is Some ==> fields[j].name != fields[at].name);
        } else {
            assert(fields[at].name != fields[j].name);
        }
    }
    lemma_only_field(filled, at, name);
}

/// A value without variable bits is allowed by a field's uses where the patterns that they
/// give the field cover it.
pub(crate) proof fn lemma_allowed_part(field: FieldV, uses: Map<Seq<char>, FieldUsesV>, part: Seq<Bit>)
    requires
        field_patterns(field, uses) is Some,
        field.name is Some,
        all_concrete(part),
    ensures
        covered(field_patterns(field, uses)->0, part) == (uses.contains_key(field.name->0)
            && value_allowed(part, uses[field.name->0])),
{
    let name = field.name->0;
    let patterns = field_patterns(field, uses)->0;
    assert(!has_variable(part)) by {
        assert forall|i: int| 0 <= i < part.len() implies #[trigger] part[i] != Bit::Var by {
            assert(part[i].concrete());
        }
    }
    if uses.contains_key(name) {
        match uses[name] {
            FieldUsesV::VariableBits { pattern, .. } => {
                if pattern is Some {
                    assert(patterns.contains(pattern->0));
                }
            },
            _ => {},
        }
    }
}

/// An encoding of a form under some uses accepts definite bits exactly when the form's
/// condition holds of them, its constants match, and the uses allow the value of every field.
pub proof fn lemma_encodings_are_allowed(
    form: FormV,
    uses: Map<Seq<char>, FieldUsesV>,
    bits: Seq<Bit>,
)
    requires
        form.fields.len() > 0,
        clear(form.when, form.fields),
        well_named(form.fields),
        uses_cover(form.fields, uses),
        fields_width(form.fields) == bits.len(),
        all_concrete(bits),
    ensures
        covered(encodings_of(form, uses), bits) == {
            &&& check(form.when, bits, filled_fields(form.fields, bits)) == Some(true)
            &&& constants_match(form.fields, bits)
            &&& fields_allowed(filled_fields(form.fields, bits), uses)
        },
{
    let fields = form.fields;
    let filled = filled_fields(fields, bits);
    let encodings = encodings_of(form, uses);
    let all_parts = forall|k: int|
        0 <= k < fields.len() ==> #[trigger] part_allowed(form, uses, bits, k);
    let empty = Seq::<Bit>::empty();
    assert(fields.take(0) =~= Seq::empty());
    lemma_clear(form.when, fields);
    if covered(encodings, bits) {
        let e = choose|e: Seq<Bit>| #[trigger] encodings.contains(e) && pattern_matches(e, bits);
        assert(encodes_from(form, uses, 0, seq![], e));
        assert(seq![] =~= empty);
        lemma_encodes_sound(form, uses, bits, 0, empty, e);
        assert(all_parts);
    }
    if all_parts {
        assert(bits.take(0) =~= empty);
        let e = lemma_encodes_complete(form, uses, bits, 0, empty);
        assert(seq![] =~= empty);
        assert(encodings.contains(e));
    }
    lemma_check_parts(form.when, fields, bits);
    assert forall|k: int| 0 <= k < fields.len() implies covered(
        field_patterns(#[trigger] fields[k], uses)->0,
        field_slice(fields, bits, k),
    ) == (if fields[k].name is Some {
        uses.contains_key(fields[k].name->0) && value_allowed(
            field_slice(fields, bits, k),
            uses[fields[k].name->0],
        )
    } else {
        pattern_matches(fields[k].bits, field_slice(fields, bits, k))
    }) by {
        let part = field_slice(fields, bits, k);
        lemma_part(fields, bits, k);
        assert(field_patterns(fields[k], uses) is Some);
        if fields[k].name is Some {
            lemma_allowed_part(fields[k], uses, part);
        } else {
            assert(field_patterns(fields[k], uses)->0.contains(fields[k].bits));
        }
    }
    let wanted = parts_meet(form.when, fields, bits) && constants_match(fields, bits)
        && fields_allowed(filled, uses);
    if all_parts {
        assert forall|k: int| 0 <= k < fields.len() implies meets(
            form.when,
            #[trigger] field_slice(fields, bits, k),
            fields_width(fields.take(k)) as int,
            predicate_name(fields[k]),
        ) by {
            assert(part_allowed(form, uses, bits, k));
        }
        assert forall|k: int| 0 <= k < fields.len() && (
        #[trigger] fields[k]).name is None implies pattern_matches(
            fields[k].bits,
            field_slice(fields, bits, k),
        ) by {
            assert(part_allowed(form, uses, bits, k));
        }
        assert forall|k: int| 0 <= k < filled.len() && (
        #[trigger] filled[k]).name is Some implies uses.contains_key(filled[k].name->0)
            && value_allowed(filled[k].bits, uses[filled[k].name->0]) by {
            assert(part_allowed(form, uses, bits, k));
            assert(filled[k].name == fields[k].name);
        }
        assert(wanted);
    }
    if wanted {
        assert forall|k: int| 0 <= k < fields.len() implies #[trigger] part_allowed(
            form,
            uses,
            bits,
            k,
        ) by {
            let part = field_slice(fields, bits, k);
            let field = fields[k];
            assert(filled[k].name == field.name && filled[k].bits == part);
        }
        assert(all_parts);
    }
}

/// The encodings of the active forms of an instruction are among what is found for its forms.
pub(crate) proof fn lemma_forms_found(
    rules: RulesV,
    candidate: CandidateV,
    instruction: InstructionV,
    n: nat,
    j: int,
)
    requires
        0 <= j < n <= instruction.forms.len(),
        forms_encodings(rules, candidate, instruction, n) matches Some(Ok(_)),
        form_active(candidate.active_forms, instruction.name, instruction.forms[j].name),
    ensures
        encodings_of(instruction.forms[j], candidate.valid_field_uses).subset_of(
            found_in(forms_encodings(rules, candidate, instruction, n)),
        ),
    decreases n,
{
    if j < n - 1 {
        lemma_forms_found(rules, candidate, instruction, (n - 1) as nat, j);
    }
}

proof fn lemma_instructions_found(rules: RulesV, candidate: CandidateV, n: nat, i: int, j: int)
    requires
        0 <= i < n <= rules.instructions.len(),
        0 <= j < rules.instructions[i].forms.len(),
        instructions_encodings(rules, candidate, n) matches Some(Ok(_)),
        form_active(
            candidate.active_forms,
            rules.instructions[i].name,
            rules.instructions[i].forms[j].name,
        ),
    ensures
        encodings_of(rules.instructions[i].forms[j], candidate.valid_field_uses).subset_of(
            found_in(instructions_encodings(rules, candidate, n)),
        ),
    decreases n,
{
    if i < n - 1 {
        lemma_instructions_found(rules, candidate, (n - 1) as nat, i, j);
    } else {
        let instruction = rules.instructions[i];
        lemma_forms_found(rules, candidate, instruction, instruction.forms.len(), j);
    }
}

/// The encodings that were found, where nothing speaks against the candidate.
pub open spec fn found_in(outcome: Option<Result<Set<Seq<Bit>>, ISACandidateError>>) -> Set<
    Seq<Bit>,
> {
    match outcome {
        Some(Ok(found)) => found,
        _ => Set::empty(),
    }
}

/// A decoded instruction that a valid candidate supports has its encoding among the valid
/// encodings.
pub proof fn lemma_supported_is_valid(rules: RulesV, candidate: CandidateV, bits: Seq<Bit>)
    requires
        candidate_encodings(rules, candidate) matches Some(Ok(_)),
        all_concrete(bits),
        bits.len() > 0,
        first_match(rules.instructions, bits) matches Some(Some(d)) && supports(candidate, d)
            && clear(d.form.when, d.form.fields) && well_named(d.form.fields) && uses_cover(
            d.form.fields,
            candidate.valid_field_uses,
        ),
    ensures
        covered(found_in(candidate_encodings(rules, candidate)), bits),
{
    let (i, j) = lemma_decoded_from(rules.instructions, bits);
    let form = rules.instructions[i].forms[j];
    let n = rules.instructions.len();
    lemma_instructions_found(rules, candidate, n, i, j);
    assert(form.fields.len() > 0);
    lemma_encodings_are_allowed(form, candidate.valid_field_uses, bits);
    let e = choose|e: Seq<Bit>|
        #[trigger] encodings_of(form, candidate.valid_field_uses).contains(e) && pattern_matches(
            e,
            bits,
        );
    assert(found_in(candidate_encodings(rules, candidate)).contains(e));
}

} // verus!
