//! What mutation, random candidates and repairs can come to.
use vstd::prelude::*;

use crate::bit::{all_concrete, Bit};
use crate::candidate_laws::put_together;
use crate::change_laws::{lemma_agreeing_point, other_agrees, same_field};
use crate::decode_laws::{agrees, lemma_put_take};
use crate::drawn_patterns::drawn_point;
use crate::field_uses::{all_of_len, merged_uses, FieldUsesV};
use crate::form_repair::{joined_uses, repair_bits};
use crate::isa_candidate::{form_names, max_candidate, CandidateV};
use crate::isa_optimization::RulesV;
use crate::isa_specification::{fields_width, FieldV, FormV, InstructionV};
use crate::mutation::{
    active_forms_mutate, candidate_mutates, drawn_name, field_mutates, fields_mutate, forms_mutate,
    pattern_mutates, patterns_mutate, point_gained, point_lost, point_of, without_point, FieldDraws,
};
use crate::pattern_cover::all_testless;
use crate::protected_features::{listed_forms, restored};
use crate::random_candidates::{concrete_rows, random_candidate, random_use};
use crate::search_laws::{
    in_register, in_unrestricted, lemma_point_taken, lemma_restored, lemma_selectable,
};
use crate::semantic_matching::named_instruction;
use crate::support_laws::{lemma_agrees, lemma_merged_permits, lemma_permits_covered, permits};

verus! {

/// The uses have gained one value.
pub open spec fn gains(uses: FieldUsesV, after: FieldUsesV, point: Seq<Bit>) -> bool {
    &&& all_concrete(point)
    &&& !permits(uses, point)
    &&& forall|bits: Seq<Bit>|
        all_concrete(bits) ==> #[trigger] permits(after, bits) == (permits(uses, bits) || bits
            == point)
}

/// One of the listed patterns has lost one value.
pub open spec fn loses(
    patterns: Set<Seq<Bit>>,
    after: FieldUsesV,
    pattern: Seq<Bit>,
    point: Seq<Bit>,
) -> bool {
    &&& patterns.contains(pattern)
    &&& all_concrete(point)
    &&& agrees(pattern, point)
    &&& forall|bits: Seq<Bit>|
        all_concrete(bits) ==> #[trigger] permits(after, bits) == (other_agrees(
            patterns,
            pattern,
            bits,
        ) || (agrees(pattern, bits) && bits != point))
}

/// The pattern has changed at one place: a constant bit became variable or flipped, another bit
/// became constant.
pub open spec fn turns_at(p: Seq<Bit>, q: Seq<Bit>, const_to_var: bool, at: int) -> bool {
    &&& 0 <= at < p.len()
    &&& q.len() == p.len()
    &&& forall|i: int| 0 <= i < p.len() && i != at ==> #[trigger] q[i] == p[i]
    &&& q[at] != p[at]
    &&& q[at] != Bit::Test
    &&& p[at] == Bit::Low || p[at] == Bit::High ==> (q[at] == Bit::Var) == const_to_var
    &&& p[at] == Bit::Var || p[at] == Bit::Test ==> q[at] != Bit::Var
}

/// A single pattern that mutates appears, disappears where that was drawn, or changes at one place.
pub proof fn lemma_pattern_mutation(
    uses: FieldUsesV,
    to_none: bool,
    const_to_var: bool,
    after: FieldUsesV,
)
    requires
        uses is VariableBits,
        field_mutates(uses, to_none, const_to_var, after),
    ensures
        same_field(uses, after),
        uses->pattern is None ==> {
            &&& after->pattern matches Some(q)
            &&& q.len() == uses->VariableBits_len
            &&& !q.contains(Bit::Test)
        },
        uses->pattern is Some && to_none ==> after->pattern is None,
        uses->pattern is Some && !to_none ==> after->pattern is Some && exists|at: int| #[trigger]
            turns_at(uses->pattern->0, after->pattern->0, const_to_var, at),
{
    if uses->pattern is Some && !to_none {
        let p = uses->pattern->0;
        let q = after->pattern->0;
        let at = choose|at: int| #[trigger] pattern_mutates(p, const_to_var, at, q);
        let bit = q[at];
        assert(q == p.update(at, bit));
        assert(turns_at(p, q, const_to_var, at));
    }
}

/// Listed patterns that mutate gain or lose one value.
pub proof fn lemma_patterns_mutation(
    uses: FieldUsesV,
    to_none: bool,
    const_to_var: bool,
    after: FieldUsesV,
)
    requires
        uses matches FieldUsesV::Uses { patterns, len, .. } && all_of_len(patterns, len as nat)
            && all_testless(patterns),
        field_mutates(uses, to_none, const_to_var, after),
    ensures
        same_field(uses, after),
        (exists|point: Seq<Bit>| #[trigger] gains(uses, after, point)) || exists|
            pattern: Seq<Bit>,
            point: Seq<Bit>,
        | #[trigger] loses(uses->patterns, after, pattern, point),
{
    let patterns = uses->patterns;
    let len = uses->Uses_len;
    let name = uses->Uses_name;
    let changed = choose|changed: Set<Seq<Bit>>| #[trigger]
        patterns_mutate(patterns, len as nat, changed) && after == merged_uses(
            FieldUsesV::Uses { name, patterns: changed, len },
        );
    let raw = FieldUsesV::Uses { name, patterns: changed, len };
    if exists|point: Seq<Bit>| #[trigger] point_gained(patterns, len as nat, point, changed) {
        let point = choose|point: Seq<Bit>| #[trigger]
            point_gained(patterns, len as nat, point, changed);
        assert(all_of_len(changed, len as nat));
        lemma_permits_covered(uses, point);
        assert forall|bits: Seq<Bit>| all_concrete(bits) implies #[trigger] permits(after, bits)
            == (permits(uses, bits) || bits == point) by {
            lemma_merged_permits(raw, bits);
            lemma_agreeing_point(point, bits);
            if permits(raw, bits) {
                let p = choose|p: Seq<Bit>| #[trigger] changed.contains(p) && agrees(p, bits);
                if p != point {
                    assert(patterns.contains(p));
                }
            }
            if permits(uses, bits) {
                let p = choose|p: Seq<Bit>| #[trigger] patterns.contains(p) && agrees(p, bits);
                assert(changed.contains(p));
            }
            if bits == point {
                assert(changed.contains(point));
            }
        }
        assert(gains(uses, after, point));
    } else {
        let (pattern, point) = choose|pattern: Seq<Bit>, point: Seq<Bit>| #[trigger]
            point_lost(patterns, pattern, point, changed);
        lemma_lost_len(patterns, pattern, point, len as nat);
        assert(all_concrete(point)) by {
            assert forall|i: int| 0 <= i < point.len() implies (#[trigger] point[i]).concrete() by {
                assert(pattern[i] != Bit::Test);
            }
        }
        assert(agrees(pattern, point)) by {
            assert forall|k: int| 0 <= k < point.len() implies (pattern[k] == Bit::High
                ==> #[trigger] point[k] == Bit::High) && (pattern[k] == Bit::Low ==> point[k]
                == Bit::Low) by {}
        }
        assert forall|bits: Seq<Bit>| all_concrete(bits) implies #[trigger] permits(after, bits)
            == (other_agrees(patterns, pattern, bits) || (agrees(pattern, bits) && bits != point)) by {
            lemma_merged_permits(raw, bits);
            lemma_permits_covered(raw, bits);
            lemma_point_taken(patterns, pattern, point, bits);
            lemma_agrees(pattern, bits);
            let others = patterns.remove(pattern);
            let rest = FieldUsesV::Uses { name, patterns: others, len };
            lemma_permits_covered(rest, bits);
            if permits(rest, bits) {
                let p = choose|p: Seq<Bit>| #[trigger] others.contains(p) && agrees(p, bits);
                assert(patterns.contains(p));
            }
            if other_agrees(patterns, pattern, bits) {
                let p = choose|p: Seq<Bit>| #[trigger]
                    patterns.contains(p) && p != pattern && agrees(p, bits);
                assert(others.contains(p));
            }
        }
        assert(loses(patterns, after, pattern, point));
    }
}

proof fn lemma_lost_len(patterns: Set<Seq<Bit>>, pattern: Seq<Bit>, point: Seq<Bit>, len: nat)
    requires
        patterns.contains(pattern),
        all_of_len(patterns, len),
        point_of(pattern, point),
    ensures
        all_of_len(without_point(patterns, pattern, point), len),
{
    let after = without_point(patterns, pattern, point);
    assert forall|p: Seq<Bit>| #[trigger] after.contains(p) implies p.len() == len by {
        if !patterns.contains(p) {
            crate::search_laws::lemma_piece_len(pattern, point, p);
        }
    }
}

/// Mutation changes the drawn fields that the search may restrict, and no others.
pub proof fn lemma_fields_mutation(
    rules: RulesV,
    names: Seq<Seq<char>>,
    field_draws: Seq<FieldDraws>,
    form_draws: Seq<bool>,
    before: CandidateV,
    after: CandidateV,
    k: int,
)
    requires
        candidate_mutates(rules, names, field_draws, form_draws, before, after),
        0 <= k < names.len(),
        before.valid_field_uses.contains_key(names[k]),
        !in_unrestricted(rules, names[k]),
    ensures
        after.valid_field_uses.contains_key(names[k]),
        field_draws[k].mutates && !in_register(rules, names[k]) ==> field_mutates(
            before.valid_field_uses[names[k]],
            field_draws[k].to_none,
            field_draws[k].const_to_var,
            after.valid_field_uses[names[k]],
        ),
        !field_draws[k].mutates || in_register(rules, names[k]) ==> after.valid_field_uses[names[k]]
            == before.valid_field_uses[names[k]],
{
    let changed = choose|changed: CandidateV|
        fields_mutate(
            rules,
            names,
            field_draws,
            before.valid_field_uses,
            changed.valid_field_uses,
        ) && active_forms_mutate(
            rules,
            form_draws,
            rules.instructions.len() as int,
            before.active_forms,
            changed.active_forms,
        ) && after == #[trigger] restored(rules, changed);
    let name = names[k];
    assert(before.valid_field_uses.dom().contains(name));
    assert(changed.valid_field_uses.dom().contains(name));
    lemma_selectable(rules, name);
    lemma_restored(rules, changed, name, name);
    assert(changed.valid_field_uses[names[k]] == changed.valid_field_uses[name]);
}

/// The forms of an instruction that is not drawn stay, with the unrestricted ones added.
pub proof fn lemma_forms_stay(
    rules: RulesV,
    names: Seq<Seq<char>>,
    field_draws: Seq<FieldDraws>,
    form_draws: Seq<bool>,
    before: CandidateV,
    after: CandidateV,
    name: Seq<char>,
    form: Seq<char>,
)
    requires
        candidate_mutates(rules, names, field_draws, form_draws, before, after),
        before.active_forms.contains_key(name),
        forall|i: int|
            0 <= i < rules.instructions.len() && form_draws[i] ==> (#[trigger] rules.instructions[i]).name
                != name,
    ensures
        after.active_forms.contains_key(name),
        after.active_forms[name].contains(form) == (before.active_forms[name].contains(form) || (
        rules.unrestricted.contains_key(name) && rules.unrestricted[name].contains(form))),
{
    let changed = choose|changed: CandidateV|
        fields_mutate(
            rules,
            names,
            field_draws,
            before.valid_field_uses,
            changed.valid_field_uses,
        ) && active_forms_mutate(
            rules,
            form_draws,
            rules.instructions.len() as int,
            before.active_forms,
            changed.active_forms,
        ) && after == #[trigger] restored(rules, changed);
    assert(before.active_forms.dom().contains(name));
    assert(changed.active_forms.dom().contains(name));
    assert(!drawn_name(rules.instructions, form_draws, rules.instructions.len() as int, name));
    lemma_restored(rules, changed, name, form);
}

/// A drawn instruction is left with forms of its own, the unrestricted ones among them.
pub proof fn lemma_forms_drawn(
    rules: RulesV,
    names: Seq<Seq<char>>,
    field_draws: Seq<FieldDraws>,
    form_draws: Seq<bool>,
    before: CandidateV,
    after: CandidateV,
    i: int,
    form: Seq<char>,
)
    requires
        candidate_mutates(rules, names, field_draws, form_draws, before, after),
        0 <= i < rules.instructions.len(),
        form_draws[i],
        forall|a: int|
            0 <= a < i ==> (#[trigger] rules.instructions[a]).name != rules.instructions[i].name,
        before.active_forms.contains_key(rules.instructions[i].name),
    ensures
        ({
            let name = rules.instructions[i].name;
            let always = rules.unrestricted.contains_key(name)
                && rules.unrestricted[name].contains(form);
            &&& after.active_forms.contains_key(name)
            &&& always ==> after.active_forms[name].contains(form)
            &&& after.active_forms[name].contains(form) && !always ==> exists|j: int|
                0 <= j < rules.instructions[i].forms.len() && (
                #[trigger] rules.instructions[i].forms[j]).name == form
        }),
{
    let changed = choose|changed: CandidateV|
        fields_mutate(
            rules,
            names,
            field_draws,
            before.valid_field_uses,
            changed.valid_field_uses,
        ) && active_forms_mutate(
            rules,
            form_draws,
            rules.instructions.len() as int,
            before.active_forms,
            changed.active_forms,
        ) && after == #[trigger] restored(rules, changed);
    let name = rules.instructions[i].name;
    assert(before.active_forms.dom().contains(name));
    assert(changed.active_forms.dom().contains(name));
    assert(drawn_name(rules.instructions, form_draws, rules.instructions.len() as int, name));
    lemma_restored(rules, changed, name, form);
    lemma_named_first(rules.instructions, name, i);
    let forms = rules.instructions[i].forms;
    assert(forms_mutate(rules, rules.instructions[i], changed.active_forms[name]));
    if changed.active_forms[name].contains(form) {
        let all = Seq::new(forms.len(), |j: int| forms[j].name);
        assert(form_names(forms).contains(form));
        let j = choose|j: int| 0 <= j < all.len() && all[j] == form;
        assert(forms[j].name == form);
    }
}

/// The instruction of a name is the first one of that name.
pub proof fn lemma_named_first(instructions: Seq<InstructionV>, name: Seq<char>, i: int)
    requires
        0 <= i < instructions.len(),
        instructions[i].name == name,
        forall|a: int| 0 <= a < i ==> (#[trigger] instructions[a]).name != name,
    ensures
        named_instruction(instructions, name) == Some(instructions[i]),
    decreases instructions.len(),
{
    let front = instructions.drop_last();
    if i < instructions.len() - 1 {
        assert(front[i] == instructions[i]);
        lemma_named_first(front, name, i);
    } else {
        assert forall|a: int| 0 <= a < front.len() implies (#[trigger] front[a]).name != name by {
            assert(front[a] == instructions[a]);
        }
        lemma_named_none(front, name);
    }
}

/// There is no instruction of a name that none has.
pub proof fn lemma_named_none(instructions: Seq<InstructionV>, name: Seq<char>)
    requires
        forall|a: int| 0 <= a < instructions.len() ==> (#[trigger] instructions[a]).name != name,
    ensures
        named_instruction(instructions, name) is None,
    decreases instructions.len(),
{
    if instructions.len() > 0 {
        let front = instructions.drop_last();
        assert forall|a: int| 0 <= a < front.len() implies (#[trigger] front[a]).name != name by {
            assert(front[a] == instructions[a]);
        }
        lemma_named_none(front, name);
        assert(instructions.last() == instructions[instructions.len() - 1]);
    }
}

/// A random candidate has the fields of the instruction set, with fixed uses where there are some,
/// and else with random ones of the same field: one pattern, or at least one value.
pub proof fn lemma_random_fields(
    instructions: Seq<InstructionV>,
    fixed: Map<Seq<char>, FieldUsesV>,
    required: Map<Seq<char>, Set<Seq<char>>>,
    candidate: CandidateV,
    name: Seq<char>,
)
    requires
        random_candidate(instructions, fixed, required, candidate),
    ensures
        ({
            let full = max_candidate(instructions).valid_field_uses;
            let uses = candidate.valid_field_uses;
            &&& uses.contains_key(name) == full.contains_key(name)
            &&& full.contains_key(name) && fixed.contains_key(name) ==> uses[name] == fixed[name]
            &&& full.contains_key(name) && !fixed.contains_key(name) ==> {
                &&& same_field(full[name], uses[name])
                &&& uses[name] matches FieldUsesV::VariableBits { pattern, len, .. } ==> pattern
                    matches Some(p) && p.len() == len && !p.contains(Bit::Test)
                &&& uses[name] matches FieldUsesV::Uses { len, .. } ==> exists|bits: Seq<Bit>|
                    all_concrete(bits) && bits.len() == len && #[trigger] permits(uses[name], bits)
            }
        }),
{
    let full = max_candidate(instructions).valid_field_uses;
    let uses = candidate.valid_field_uses;
    assert(uses.dom().contains(name) == full.dom().contains(name));
    if full.contains_key(name) && !fixed.contains_key(name) {
        assert(random_use(full[name], uses[name]));
        if let FieldUsesV::Uses { name: own, len, .. } = full[name] {
            let rows = choose|rows: Set<Seq<Bit>>| #[trigger]
                concrete_rows(rows, len as nat) && uses[name] == merged_uses(
                    FieldUsesV::Uses { name: own, patterns: rows, len },
                );
            let raw = FieldUsesV::Uses { name: own, patterns: rows, len };
            if forall|p: Seq<Bit>| !rows.contains(p) {
                assert(rows =~= Set::empty());
            }
            let p = choose|p: Seq<Bit>| rows.contains(p);
            assert(p.len() == len && all_concrete(p));
            lemma_merged_permits(raw, p);
            lemma_agreeing_point(p, p);
            assert(permits(raw, p));
            assert(permits(uses[name], p));
        }
    }
}

/// A random candidate has the instructions of the instruction set, with forms of theirs, the required
/// ones among them.
pub proof fn lemma_random_forms(
    instructions: Seq<InstructionV>,
    fixed: Map<Seq<char>, FieldUsesV>,
    required: Map<Seq<char>, Set<Seq<char>>>,
    candidate: CandidateV,
    name: Seq<char>,
    form: Seq<char>,
)
    requires
        random_candidate(instructions, fixed, required, candidate),
    ensures
        ({
            let full = max_candidate(instructions).active_forms;
            let active = candidate.active_forms;
            &&& active.contains_key(name) == full.contains_key(name)
            &&& full.contains_key(name) && active[name].contains(form) ==> full[name].contains(form)
            &&& full.contains_key(name) && full[name].contains(form) && required.contains_key(name)
                && required[name].contains(form) ==> active[name].contains(form)
        }),
{
    let full = max_candidate(instructions).active_forms;
    let active = candidate.active_forms;
    assert(active.dom().contains(name) == full.dom().contains(name));
    if full.contains_key(name) {
        assert(full[name].intersect(listed_forms(required, name)).contains(form) == (
        full[name].contains(form) && listed_forms(required, name).contains(form)));
    }
}

/// A drawn point has the definite bits of its pattern, and the drawn ones for the variable bits.
pub proof fn lemma_point_drawn(pattern: Seq<Bit>, drawn: Seq<bool>)
    ensures
        drawn_point(pattern, drawn).len() == pattern.len(),
        forall|i: int|
            0 <= i < pattern.len() && pattern[i] != Bit::Var ==> #[trigger] drawn_point(
                pattern,
                drawn,
            )[i] == pattern[i],
        forall|i: int|
            0 <= i < pattern.len() && pattern[i] == Bit::Var ==> match #[trigger] drawn_point(
                pattern,
                drawn,
            )[i] {
                Bit::High => drawn[i],
                Bit::Low => !drawn[i],
                _ => false,
            },
{
}

proof fn lemma_put_width(fields: Seq<FieldV>, own: Seq<FieldV>)
    requires
        fields.len() == own.len(),
        forall|k: int| 0 <= k < own.len() ==> (#[trigger] fields[k]).bits.len() == own[k].bits.len(),
    ensures
        put_together(fields).len() == fields_width(own),
    decreases fields.len(),
{
    if fields.len() > 0 {
        let front = fields.drop_last();
        let rest = own.drop_last();
        assert forall|k: int| 0 <= k < rest.len() implies (#[trigger] front[k]).bits.len()
            == rest[k].bits.len() by {
            assert(front[k] == fields[k] && rest[k] == own[k]);
        }
        lemma_put_width(front, rest);
        assert(fields[fields.len() - 1].bits.len() == own[own.len() - 1].bits.len());
    }
}

/// The value that a repair takes for a field out of an encoding is what the encoding holds there,
/// with zeros for variable bits.
pub proof fn lemma_repair_value(form: FormV, fields: Seq<FieldV>, k: int, i: int)
    requires
        fields.len() == form.fields.len(),
        forall|l: int|
            0 <= l < fields.len() ==> (#[trigger] fields[l]).bits.len() == form.fields[l].bits.len(),
        0 <= k < fields.len(),
        0 <= i < fields[k].bits.len(),
    ensures
        repair_bits(form, k, put_together(fields)).len() == fields[k].bits.len(),
        repair_bits(form, k, put_together(fields))[i] == if fields[k].bits[i] == Bit::Var {
            Bit::Low
        } else {
            fields[k].bits[i]
        },
{
    let all = put_together(fields);
    let before = fields.take(k);
    let own = form.fields.take(k);
    assert forall|l: int| 0 <= l < own.len() implies (#[trigger] before[l]).bits.len()
        == own[l].bits.len() by {
        assert(before[l] == fields[l] && own[l] == form.fields[l]);
    }
    lemma_put_width(before, own);
    lemma_put_take(fields, k);
    lemma_put_take(fields, k + 1);
    let n = put_together(before).len() as int;
    assert(fields.take(k + 1).drop_last() =~= before);
    assert(fields.take(k + 1).last() == fields[k]);
    let upto = put_together(fields.take(k + 1));
    assert(upto == put_together(before) + fields[k].bits);
    assert(upto[n + i] == fields[k].bits[i]);
    assert(all[n + i] == upto[n + i]);
}

/// Uses that are joined have the values of both; listed values have no others, and a pattern is
/// variable exactly where one of the two is variable or they differ.
pub proof fn lemma_joined(existing: FieldUsesV, repair: FieldUsesV, bits: Seq<Bit>)
    ensures
        same_kind(existing, repair) && (repair is VariableBits ==> repair->pattern is Some)
            <==> joined_uses(existing, repair) is Some,
        joined_uses(existing, repair) matches Some(joined) ==> {
            &&& same_field(existing, joined)
            &&& joined is Uses ==> permits(joined, bits) == (permits(existing, bits) || permits(
                repair,
                bits,
            ))
            &&& joined is VariableBits && existing->pattern is None ==> joined->pattern
                == repair->pattern
            &&& joined is VariableBits && existing->pattern is Some ==> {
                let a = existing->pattern->0;
                let b = repair->pattern->0;
                &&& joined->pattern matches Some(c)
                &&& c.len() == a.len()
                &&& forall|i: int|
                    0 <= i < a.len() && i < b.len() ==> if a[i] == b[i] {
                        #[trigger] c[i] == a[i]
                    } else {
                        c[i] == Bit::Var
                    }
            }
        },
{
    if let (
        FieldUsesV::Uses { patterns, .. },
        FieldUsesV::Uses { patterns: more, .. },
    ) = (existing, repair) {
        if let Some(joined) = joined_uses(existing, repair) {
            let all = joined->patterns;
            if permits(joined, bits) {
                let p = choose|p: Seq<Bit>| #[trigger] all.contains(p) && agrees(p, bits);
                assert(patterns.contains(p) || more.contains(p));
            }
            if permits(existing, bits) {
                let p = choose|p: Seq<Bit>| #[trigger] patterns.contains(p) && agrees(p, bits);
                assert(all.contains(p));
            }
            if permits(repair, bits) {
                let p = choose|p: Seq<Bit>| #[trigger] more.contains(p) && agrees(p, bits);
                assert(all.contains(p));
            }
        }
    }
}

/// Two uses keep values in the same way, of the same length.
pub open spec fn same_kind(a: FieldUsesV, b: FieldUsesV) -> bool {
    match (a, b) {
        (
            FieldUsesV::VariableBits { len: l, .. },
            FieldUsesV::VariableBits { len: k, .. },
        ) => l == k,
        (FieldUsesV::Uses { len: l, .. }, FieldUsesV::Uses { len: k, .. }) => l == k,
        _ => false,
    }
}

} // verus!
