//! What changes, draws and choices of a search give.
use vstd::prelude::*;

use crate::bit::{all_concrete, variable_pattern, Bit};
use crate::collections::viewed;
use crate::decode_laws::agrees;
use crate::field_uses::FieldUsesV;
use crate::form_repair::protected;
use crate::isa_candidate::CandidateV;
use crate::isa_optimization::RulesV;
use crate::isa_specification::{FormV, InstructionV};
use crate::mutation::{
    change_fits, field_changed, forms_with, names_where, patterns_changed, point_of, FieldChange,
};
use crate::pattern_cover::all_testless;
use crate::protected_features::restored;
use crate::random_candidates::{chosen_active, chosen_uses, survivors};
use crate::search_laws::{in_register, in_unrestricted, lemma_point_taken, lemma_selectable};
use crate::support_laws::{lemma_merged_permits, lemma_permits_covered, permits};

verus! {

/// Two uses belong to the same field, with values kept in the same way.
pub open spec fn same_field(a: FieldUsesV, b: FieldUsesV) -> bool {
    match (a, b) {
        (
            FieldUsesV::VariableBits { name: n, len: l, .. },
            FieldUsesV::VariableBits { name: m, len: k, .. },
        ) => n == m && l == k,
        (
            FieldUsesV::Uses { name: n, len: l, .. },
            FieldUsesV::Uses { name: m, len: k, .. },
        ) => n == m && l == k,
        _ => false,
    }
}

/// A pattern that appears has a bit for each drawn number: zero, one, or a variable bit; one that
/// disappears leaves no value; and one that turns keeps its other bits, and changes the bit at the
/// place.
pub proof fn lemma_pattern_changes(uses: FieldUsesV, const_to_var: bool, change: FieldChange)
    requires
        uses is VariableBits,
        change_fits(uses, change),
    ensures
        ({
            let after = field_changed(uses, const_to_var, change);
            &&& same_field(uses, after)
            &&& match change {
                FieldChange::Appear(drawn) => after->pattern matches Some(p) && p.len()
                    == drawn@.len() && forall|i: int|
                    0 <= i < p.len() ==> match #[trigger] p[i] {
                        Bit::Low => drawn@[i] == 0,
                        Bit::High => drawn@[i] == 1,
                        Bit::Var => drawn@[i] != 0 && drawn@[i] != 1,
                        Bit::Test => false,
                    },
                FieldChange::Vanish => after->pattern is None,
                FieldChange::Turn { place, drawn } => uses->pattern matches Some(p)
                    && after->pattern matches Some(q) && {
                    &&& q.len() == p.len()
                    &&& forall|i: int| 0 <= i < p.len() && i != place ==> #[trigger] q[i] == p[i]
                    &&& match p[place as int] {
                        Bit::Low => q[place as int] == (if const_to_var {
                            Bit::Var
                        } else {
                            Bit::High
                        }),
                        Bit::High => q[place as int] == (if const_to_var {
                            Bit::Var
                        } else {
                            Bit::Low
                        }),
                        _ => q[place as int] == (if drawn {
                            Bit::High
                        } else {
                            Bit::Low
                        }),
                    }
                },
                FieldChange::Point { .. } => false,
            }
        }),
{
}

/// A listed pattern other than the given one agrees with the bits.
pub open spec fn other_agrees(
    patterns: Set<Seq<Bit>>,
    pattern: Seq<Bit>,
    bits: Seq<Bit>,
) -> bool {
    exists|p: Seq<Bit>| #[trigger] patterns.contains(p) && p != pattern && agrees(p, bits)
}

/// A point that is added to listed patterns is one more value; one that is taken out of a pattern
/// is no value any more, unless another pattern has it.
pub proof fn lemma_point_changes(
    uses: FieldUsesV,
    const_to_var: bool,
    change: FieldChange,
    bits: Seq<Bit>,
)
    requires
        uses matches FieldUsesV::Uses { patterns, .. } && all_testless(patterns),
        change_fits(uses, change),
        all_concrete(bits),
        change matches FieldChange::Point { ordered, picked, point } && all_concrete(point@) && (
        picked < ordered@.len() ==> point_of(ordered@[picked as int]@, point@)),
    ensures
        ({
            let after = field_changed(uses, const_to_var, change);
            &&& same_field(uses, after)
            &&& change matches FieldChange::Point { ordered, picked, point } ==> if picked
                == ordered@.len() {
                permits(after, bits) == (permits(uses, bits) || bits == point@)
            } else {
                permits(after, bits) == (other_agrees(
                    uses->patterns,
                    ordered@[picked as int]@,
                    bits,
                ) || (agrees(ordered@[picked as int]@, bits) && bits != point@))
            }
        }),
{
    let patterns = uses->patterns;
    let len = uses->Uses_len;
    let name = uses->Uses_name;
    if let FieldChange::Point { ordered, picked, point } = change {
        let rows = viewed(ordered@);
        let changed = patterns_changed(rows, picked as int, point@);
        let raw = FieldUsesV::Uses { name, patterns: changed, len };
        crate::mutation::lemma_changed_len(rows, picked as int, point@, len as nat);
        lemma_merged_permits(raw, bits);
        lemma_permits_covered(raw, bits);
        lemma_permits_covered(uses, bits);
        if picked == ordered@.len() {
            if permits(raw, bits) {
                let p = choose|p: Seq<Bit>| #[trigger] changed.contains(p) && agrees(p, bits);
                if p == point@ {
                    lemma_agreeing_point(point@, bits);
                } else {
                    assert(patterns.contains(p));
                }
            }
            if permits(uses, bits) {
                let p = choose|p: Seq<Bit>| #[trigger] patterns.contains(p) && agrees(p, bits);
                assert(changed.contains(p));
            }
            if bits == point@ {
                assert(changed.contains(point@));
                assert(agrees(point@, bits));
            }
        } else {
            let pattern = rows[picked as int];
            assert(pattern == ordered@[picked as int]@);
            assert(rows.to_set().contains(pattern));
            lemma_point_taken(patterns, pattern, point@, bits);
            let others = patterns.remove(pattern);
            let rest = FieldUsesV::Uses { name, patterns: others, len };
            lemma_permits_covered(rest, bits);
            assert(permits(rest, bits) == other_agrees(patterns, pattern, bits)) by {
                if permits(rest, bits) {
                    let p = choose|p: Seq<Bit>| #[trigger] others.contains(p) && agrees(p, bits);
                    assert(patterns.contains(p));
                }
                if other_agrees(patterns, pattern, bits) {
                    let p = choose|p: Seq<Bit>| #[trigger]
                        patterns.contains(p) && p != pattern && agrees(p, bits);
                    assert(others.contains(p));
                }
            }
            crate::support_laws::lemma_agrees(pattern, bits);
        }
    }
}

pub(crate) proof fn lemma_agreeing_point(point: Seq<Bit>, bits: Seq<Bit>)
    requires
        all_concrete(point),
    ensures
        agrees(point, bits) == (bits == point),
{
    if agrees(point, bits) {
        assert forall|i: int| 0 <= i < bits.len() implies bits[i] == point[i] by {
            assert(point[i].concrete());
            assert(bits[i] == bits[i]);
        }
        assert(bits =~= point);
    }
}

/// A protected candidate has the restored forms, restored uses for the fields that the search may
/// restrict, and every value for the others.
pub proof fn lemma_protected(
    rules: RulesV,
    candidate: CandidateV,
    name: Seq<char>,
    bits: Seq<Bit>,
)
    ensures
        ({
            let after = protected(rules, candidate);
            let before = restored(rules, candidate);
            &&& after.active_forms == before.active_forms
            &&& after.valid_field_uses.contains_key(name) == before.valid_field_uses.contains_key(
                name,
            )
            &&& before.valid_field_uses.contains_key(name) ==> if in_register(rules, name)
                || in_unrestricted(rules, name) {
                &&& same_field(after.valid_field_uses[name], before.valid_field_uses[name])
                &&& permits(after.valid_field_uses[name], bits) == (bits.len()
                    == match before.valid_field_uses[name] {
                    FieldUsesV::Uses { len, .. } => len,
                    FieldUsesV::VariableBits { len, .. } => len,
                })
            } else {
                after.valid_field_uses[name] == before.valid_field_uses[name]
            }
        }),
{
    lemma_selectable(rules, name);
    let before = restored(rules, candidate);
    let after = protected(rules, candidate);
    if before.valid_field_uses.contains_key(name) && (in_register(rules, name) || in_unrestricted(
        rules,
        name,
    )) {
        let len = match before.valid_field_uses[name] {
            FieldUsesV::Uses { len, .. } => len,
            FieldUsesV::VariableBits { len, .. } => len,
        };
        let open = variable_pattern(len as nat);
        assert(open.len() == len);
        assert(agrees(open, bits) == (bits.len() == len));
        if let FieldUsesV::Uses { patterns, .. } = after.valid_field_uses[name] {
            assert(patterns.contains(open));
        }
    }
}

/// The places stand in ascending order.
pub open spec fn ascending(places: Seq<int>) -> bool {
    forall|a: int, b: int| 0 <= a < b < places.len() ==> #[trigger] places[a] < #[trigger] places[b]
}

/// The places are valid ones of the children, in order, and the survivors stand there; a valid
/// child that is left out comes later than all of them and finds no room.
pub open spec fn survive_at(
    children: Seq<CandidateV>,
    valid: Seq<bool>,
    wanted: nat,
    places: Seq<int>,
    kept: Seq<CandidateV>,
) -> bool {
    &&& places.len() == kept.len()
    &&& kept.len() <= wanted
    &&& ascending(places)
    &&& forall|k: int|
        0 <= k < places.len() ==> 0 <= #[trigger] places[k] < children.len() && valid[places[k]]
            && kept[k] == children[places[k]]
    &&& forall|i: int|
        0 <= i < children.len() && #[trigger] valid[i] && !places.contains(i) ==> kept.len()
            == wanted && forall|k: int| 0 <= k < places.len() ==> #[trigger] places[k] < i
}

/// A generation is filled with the first valid children, as many as there is room for.
pub proof fn lemma_survivors(children: Seq<CandidateV>, valid: Seq<bool>, wanted: nat)
    ensures
        exists|places: Seq<int>| #[trigger]
            survive_at(children, valid, wanted, places, survivors(children, valid, wanted)),
    decreases children.len(),
{
    let kept = survivors(children, valid, wanted);
    if children.len() == 0 {
        assert(survive_at(children, valid, wanted, Seq::<int>::empty(), kept));
    } else {
        let front = children.drop_last();
        let last = children.len() - 1;
        lemma_survivors(front, valid, wanted);
        let fewer = survivors(front, valid, wanted);
        let before = choose|places: Seq<int>| #[trigger]
            survive_at(front, valid, wanted, places, fewer);
        if fewer.len() < wanted && valid[last] {
            let places = before.push(last);
            assert(places[before.len() as int] == last);
            assert forall|i: int|
                0 <= i < children.len() && #[trigger] valid[i] && !places.contains(
                    i,
                ) implies kept.len() == wanted && forall|k: int|
                0 <= k < places.len() ==> #[trigger] places[k] < i by {
                if i < last {
                    if before.contains(i) {
                        let k = choose|k: int| 0 <= k < before.len() && before[k] == i;
                        assert(places[k] == i);
                    }
                } else {
                    assert(places.contains(last));
                }
            }
            assert(survive_at(children, valid, wanted, places, kept));
        } else {
            assert(survive_at(children, valid, wanted, before, kept));
        }
    }
}

/// The names stand at ascending places of the forms, at all places where the name is listed or not,
/// as is wanted.
pub open spec fn named_at(
    forms: Seq<FormV>,
    listed: Set<Seq<char>>,
    wanted: bool,
    places: Seq<int>,
    names: Seq<Seq<char>>,
) -> bool {
    &&& places.len() == names.len()
    &&& ascending(places)
    &&& forall|k: int|
        0 <= k < places.len() ==> 0 <= #[trigger] places[k] < forms.len() && names[k]
            == forms[places[k]].name
    &&& forall|j: int|
        0 <= j < forms.len() ==> places.contains(j) == (listed.contains((#[trigger] forms[j]).name)
            == wanted)
}

/// The forms that are listed, or those that are not, come in the order of the instruction.
pub proof fn lemma_names_in_order(forms: Seq<FormV>, listed: Set<Seq<char>>, wanted: bool)
    ensures
        exists|places: Seq<int>| #[trigger]
            named_at(forms, listed, wanted, places, names_where(forms, listed, wanted)),
    decreases forms.len(),
{
    let names = names_where(forms, listed, wanted);
    if forms.len() == 0 {
        assert(named_at(forms, listed, wanted, Seq::<int>::empty(), names));
    } else {
        let front = forms.drop_last();
        let last = forms.len() - 1;
        lemma_names_in_order(front, listed, wanted);
        let fewer = names_where(front, listed, wanted);
        let before = choose|places: Seq<int>| #[trigger]
            named_at(front, listed, wanted, places, fewer);
        let places = if listed.contains(forms.last().name) == wanted {
            before.push(last)
        } else {
            before
        };
        assert forall|j: int| 0 <= j < forms.len() implies places.contains(j) == (listed.contains(
            (#[trigger] forms[j]).name,
        ) == wanted) by {
            if j < last {
                assert(front[j] == forms[j]);
                if before.contains(j) {
                    let k = choose|k: int| 0 <= k < before.len() && before[k] == j;
                    assert(places[k] == j);
                }
                if places.contains(j) {
                    let k = choose|k: int| 0 <= k < places.len() && places[k] == j;
                    assert(before[k] == j);
                }
            } else {
                if listed.contains(forms.last().name) == wanted {
                    assert(places[before.len() as int] == last);
                } else if places.contains(j) {
                    let k = choose|k: int| 0 <= k < places.len() && places[k] == j;
                    assert(before[k] < front.len());
                }
            }
        }
        assert(named_at(forms, listed, wanted, places, names));
    }
}

/// The forms that a choice leaves are the listed forms of the instruction, and those at the picked
/// places among its other forms.
pub proof fn lemma_forms_chosen(
    instruction: InstructionV,
    listed: Set<Seq<char>>,
    picks: Seq<usize>,
    places: Seq<int>,
    name: Seq<char>,
)
    requires
        named_at(
            instruction.forms,
            listed,
            false,
            places,
            names_where(instruction.forms, listed, false),
        ),
        forall|k: int| 0 <= k < picks.len() ==> #[trigger] picks[k] < places.len(),
    ensures
        forms_with(instruction, listed, picks).contains(name) <==> {
            ||| listed.contains(name) && exists|j: int|
                0 <= j < instruction.forms.len() && (#[trigger] instruction.forms[j]).name == name
            ||| exists|k: int|
                0 <= k < picks.len() && instruction.forms[places[#[trigger] picks[k] as int]].name
                    == name
        },
{
    let forms = instruction.forms;
    let others = names_where(forms, listed, false);
    let kept = names_where(forms, listed, true);
    lemma_names_in_order(forms, listed, true);
    let at = choose|at: Seq<int>| #[trigger] named_at(forms, listed, true, at, kept);
    if kept.to_set().contains(name) {
        let k = choose|k: int| 0 <= k < kept.len() && kept[k] == name;
        assert(at.contains(at[k]));
        assert(forms[at[k]].name == name);
    }
    if listed.contains(name) && exists|j: int|
        0 <= j < forms.len() && (#[trigger] forms[j]).name == name {
        let j = choose|j: int| 0 <= j < forms.len() && (#[trigger] forms[j]).name == name;
        assert(at.contains(j));
        let k = choose|k: int| 0 <= k < at.len() && at[k] == j;
        assert(kept[k] == name);
    }
    let picked = crate::mutation::picked_names(others, picks);
    if picked.contains(name) {
        let k = choose|k: int| 0 <= k < picks.len() && others[#[trigger] picks[k] as int] == name;
        assert(others[picks[k] as int] == forms[places[picks[k] as int]].name);
    }
    if exists|k: int| 0 <= k < picks.len() && forms[places[#[trigger] picks[k] as int]].name == name {
        let k = choose|k: int|
            0 <= k < picks.len() && forms[places[#[trigger] picks[k] as int]].name == name;
        assert(others[picks[k] as int] == name);
    }
}

/// A random candidate has its fixed uses, and the drawn ones for the other fields.
pub proof fn lemma_uses_chosen(
    full: Map<Seq<char>, FieldUsesV>,
    fixed: Map<Seq<char>, FieldUsesV>,
    drawn: Map<Seq<char>, FieldUsesV>,
    name: Seq<char>,
)
    ensures
        chosen_uses(full, fixed, drawn).contains_key(name) == full.contains_key(name),
        full.contains_key(name) && fixed.contains_key(name) ==> chosen_uses(full, fixed, drawn)[name]
            == fixed[name],
        full.contains_key(name) && !fixed.contains_key(name) ==> chosen_uses(
            full,
            fixed,
            drawn,
        )[name] == drawn[name],
{
}

/// A random candidate has the forms of an instruction that are drawn, and those that are required.
pub proof fn lemma_active_chosen(
    instructions: Seq<InstructionV>,
    required: Map<Seq<char>, Set<Seq<char>>>,
    drawn: Seq<Vec<bool>>,
    i: int,
    form: Seq<char>,
)
    requires
        0 <= i < instructions.len(),
        drawn.len() == instructions.len(),
        forall|a: int|
            i < a < instructions.len() ==> (#[trigger] instructions[a]).name != instructions[i].name,
    ensures
        ({
            let active = chosen_active(instructions, required, drawn);
            let name = instructions[i].name;
            &&& active.contains_key(name)
            &&& active[name].contains(form) <==> exists|j: int|
                0 <= j < instructions[i].forms.len() && (#[trigger] instructions[i].forms[j]).name
                    == form && (drawn[i]@[j] || (required.contains_key(name)
                    && required[name].contains(form)))
        }),
    decreases instructions.len(),
{
    let front = instructions.drop_last();
    if i < instructions.len() - 1 {
        assert(front[i] == instructions[i]);
        assert forall|a: int| i < a < front.len() implies (#[trigger] front[a]).name
            != front[i].name by {
            assert(front[a] == instructions[a]);
        }
        lemma_active_chosen(front, required, drawn.drop_last(), i, form);
        assert(drawn.drop_last()[i] == drawn[i]);
        assert(instructions[instructions.len() - 1].name != instructions[i].name);
    } else {
        assert(instructions.last() == instructions[i]);
        assert(drawn.last() == drawn[i]);
    }
}

} // verus!
