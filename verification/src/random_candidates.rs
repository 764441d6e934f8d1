//! Random candidates, and how generations of candidates are made up.
use itertools::Itertools;
use rand::rngs::StdRng;
use vstd::prelude::*;

use crate::bit::{all_concrete, Bit, BitPattern};
use crate::collections::{viewed, OrderedMap, OrderedSet, Value};
use crate::field_uses::{all_of_len, merged_uses, FieldUses, FieldUsesV};
use crate::form_repair::protected;
use crate::isa_candidate::{
    form_names, isa_forms, isa_uses, lists_form, max_candidate, uses_of_pattern, with_field,
    with_fields, with_forms, CandidateV, ISACandidate,
};
use crate::isa_optimization::{IsaOptimizationManager, RulesV};
use crate::isa_specification::{
    FieldV, FormV, ISA, Instruction, InstructionField, InstructionV, MergeMode,
};
use crate::mutation::{random_bit_pattern, random_concrete_pattern, same_but_rng};
use crate::pattern_cover::testless;
use crate::protected_features::{listed_forms, unrestricted_names};
use crate::random_draws::{draw_bool, draw_small};

verus! {

/// At least one row, all of the length and without variable bits.
pub open spec fn concrete_rows(patterns: Set<Seq<Bit>>, len: nat) -> bool {
    &&& patterns != Set::<Seq<Bit>>::empty()
    &&& patterns.finite()
    &&& forall|p: Seq<Bit>| #[trigger] patterns.contains(p) ==> p.len() == len && all_concrete(p)
}

/// What random uses a field can get, given the uses of its whole pattern: a row of zeros, ones
/// and variable bits, or merged rows of zeros and ones.
pub open spec fn random_use(full: FieldUsesV, uses: FieldUsesV) -> bool {
    match full {
        FieldUsesV::VariableBits { name, len, .. } => exists|p: Seq<Bit>| #[trigger]
            testless(p) && p.len() == len && uses == (FieldUsesV::VariableBits {
                name,
                pattern: Some(p),
                len,
            }),
        FieldUsesV::Uses { name, len, .. } => exists|rows: Set<Seq<Bit>>| #[trigger]
            concrete_rows(rows, len as nat) && uses == merged_uses(
                FieldUsesV::Uses { name, patterns: rows, len },
            ),
    }
}

/// Each field has its fixed uses or random ones.
pub open spec fn random_uses(
    full: Map<Seq<char>, FieldUsesV>,
    fixed: Map<Seq<char>, FieldUsesV>,
    uses: Map<Seq<char>, FieldUsesV>,
) -> bool {
    &&& uses.dom() == full.dom()
    &&& forall|name: Seq<char>| #[trigger]
        full.contains_key(name) ==> if fixed.contains_key(name) {
            uses[name] == fixed[name]
        } else {
            random_use(full[name], uses[name])
        }
}

/// Each instruction has all required ones of its forms, and any others.
pub open spec fn random_forms(
    full: Map<Seq<char>, Set<Seq<char>>>,
    required: Map<Seq<char>, Set<Seq<char>>>,
    forms: Map<Seq<char>, Set<Seq<char>>>,
) -> bool {
    &&& forms.dom() == full.dom()
    &&& forall|name: Seq<char>| #[trigger]
        full.contains_key(name) ==> forms[name].subset_of(full[name]) && full[name].intersect(
            listed_forms(required, name),
        ).subset_of(forms[name])
}

/// What random candidates an instruction set has.
pub open spec fn random_candidate(
    instructions: Seq<InstructionV>,
    fixed: Map<Seq<char>, FieldUsesV>,
    required: Map<Seq<char>, Set<Seq<char>>>,
    candidate: CandidateV,
) -> bool {
    let full = max_candidate(instructions);
    &&& random_uses(full.valid_field_uses, fixed, candidate.valid_field_uses)
    &&& random_forms(full.active_forms, required, candidate.active_forms)
}

/// Fields whose values are listed one by one are narrow enough to draw how many there are,
/// unless their uses are fixed.
pub open spec fn drawable(fields: Seq<FieldV>, fixed: Map<Seq<char>, FieldUsesV>) -> bool {
    forall|k: int|
        0 <= k < fields.len() && (#[trigger] fields[k]).merge_mode == MergeMode::Uses
            && fields[k].name is Some && !fixed.contains_key(fields[k].name->0)
            ==> fields[k].bits.len() <= 30
}

/// So are the fields of all forms.
pub open spec fn drawable_forms(forms: Seq<FormV>, fixed: Map<Seq<char>, FieldUsesV>) -> bool {
    forall|j: int| 0 <= j < forms.len() ==> drawable((#[trigger] forms[j]).fields, fixed)
}

/// So are the fields of all instructions.
pub open spec fn drawable_isa(
    instructions: Seq<InstructionV>,
    fixed: Map<Seq<char>, FieldUsesV>,
) -> bool {
    forall|i: int|
        0 <= i < instructions.len() ==> drawable_forms((#[trigger] instructions[i]).forms, fixed)
}

/// Random rows of zeros and ones, at least one.
fn random_rows(len: usize, rng: &mut StdRng) -> (r: Vec<BitPattern>)
    requires
        len <= 30,
    ensures
        concrete_rows(viewed(r@).to_set(), len as nat),
{
    let most: i32 = power(len);
    let count: i32 = draw_small(rng, 1, most);
    let mut rows: Vec<BitPattern> = Vec::new();
    let mut i: i32 = 0;
    while i < count
        invariant
            0 <= i <= count,
            rows@.len() == i,
            forall|k: int|
                0 <= k < i ==> (#[trigger] rows@[k])@.len() == len && all_concrete(rows@[k]@),
        decreases count - i,
    {
        rows.push(random_concrete_pattern(len, rng));
        i += 1;
    }
    proof {
        let all = viewed(rows@);
        assert(all.to_set().contains(all[0]));
        vstd::seq_lib::seq_to_set_is_finite(all);
        assert forall|p: Seq<Bit>| #[trigger] all.to_set().contains(p) implies p.len() == len
            && all_concrete(p) by {
            let k = choose|k: int| 0 <= k < all.len() && all[k] == p;
            assert(rows@[k]@ == p);
        }
    }
    rows
}

/// A power of two.
fn power(exponent: usize) -> (r: i32)
    requires
        exponent <= 30,
    ensures
        r >= 1,
        r == vstd::arithmetic::power2::pow2(exponent as nat),
{
    let mut r: i32 = 1;
    let mut i: usize = 0;
    proof {
        vstd::arithmetic::power2::lemma2_to64();
    }
    while i < exponent
        invariant
            i <= exponent <= 30,
            1 <= r,
            r == vstd::arithmetic::power2::pow2(i as nat),
        decreases exponent - i,
    {
        proof {
            vstd::arithmetic::power2::lemma2_to64();
            vstd::arithmetic::power2::lemma_pow2_unfold((i + 1) as nat);
            if i + 1 < 30 {
                vstd::arithmetic::power2::lemma_pow2_strictly_increases((i + 1) as nat, 30);
            }
        }
        r = r * 2;
        i += 1;
    }
    r
}

/// The uses of a field whose values are the drawn rows, merged.
pub fn uses_of_rows(name: &String, rows: Vec<BitPattern>, len: usize) -> (r: FieldUses)
    requires
        all_of_len(viewed(rows@).to_set(), len as nat),
    ensures
        r@ == merged_uses(
            FieldUsesV::Uses { name: name@, patterns: viewed(rows@).to_set(), len },
        ),
{
    FieldUses::Uses { name: name.clone(), patterns: OrderedSet::from_vec(rows), len }.merge()
}

/// The uses of a field whose values are those of the drawn row.
pub fn uses_of_row(name: &String, row: BitPattern) -> (r: FieldUses)
    ensures
        r@ == (FieldUsesV::VariableBits {
            name: name@,
            pattern: Some(row@),
            len: row@.len() as usize,
        }),
{
    let len = row.len();
    FieldUses::VariableBits { name: name.clone(), pattern: Some(row), len }
}

/// Random uses for a field of the name.
fn random_field_use(name: &String, field: &InstructionField, rng: &mut StdRng) -> (r: FieldUses)
    requires
        field@.merge_mode == MergeMode::Uses ==> field@.bits.len() <= 30,
    ensures
        random_use(uses_of_pattern(name@, field@.bits, field@.merge_mode, true), r@),
{
    let len = field.pattern.len();
    match field.merge_mode {
        // Generate at least one concrete pattern so the initial random ISA is not
        // trivially empty for every form using this field.
        MergeMode::Uses => {
            let rows = random_rows(len, rng);
            assert(concrete_rows(viewed(rows@).to_set(), len as nat));
            uses_of_rows(name, rows, len)
        },
        MergeMode::VariableBits => {
            let row = random_bit_pattern(len, rng);
            assert(testless(row@));
            uses_of_row(name, row)
        },
    }
}

/// Uses are drawn for the fields whose uses are not fixed, and only for those.
pub open spec fn uses_drawn(
    full: Map<Seq<char>, FieldUsesV>,
    fixed: Map<Seq<char>, FieldUsesV>,
    drawn: Map<Seq<char>, FieldUsesV>,
) -> bool {
    &&& drawn.dom() == full.dom().difference(fixed.dom())
    &&& forall|name: Seq<char>| #[trigger]
        drawn.contains_key(name) ==> random_use(full[name], drawn[name])
}

/// The fixed uses of each field, or else the drawn ones.
pub open spec fn chosen_uses(
    full: Map<Seq<char>, FieldUsesV>,
    fixed: Map<Seq<char>, FieldUsesV>,
    drawn: Map<Seq<char>, FieldUsesV>,
) -> Map<Seq<char>, FieldUsesV> {
    Map::new(
        |name: Seq<char>| full.contains_key(name),
        |name: Seq<char>|
            if fixed.contains_key(name) {
                fixed[name]
            } else {
                drawn[name]
            },
    )
}

/// The forms of an instruction that are drawn or required.
pub open spec fn chosen_forms(
    instruction: InstructionV,
    required: Map<Seq<char>, Set<Seq<char>>>,
    drawn: Seq<bool>,
) -> Set<Seq<char>> {
    Set::new(
        |name: Seq<char>|
            exists|j: int|
                0 <= j < instruction.forms.len() && (#[trigger] instruction.forms[j]).name == name
                    && (drawn[j] || listed_forms(required, instruction.name).contains(name)),
    )
}

/// The forms of all instructions that are drawn or required, by instruction name.
pub open spec fn chosen_active(
    instructions: Seq<InstructionV>,
    required: Map<Seq<char>, Set<Seq<char>>>,
    drawn: Seq<Vec<bool>>,
) -> Map<Seq<char>, Set<Seq<char>>>
    decreases instructions.len(),
{
    if instructions.len() == 0 {
        Map::empty()
    } else {
        chosen_active(instructions.drop_last(), required, drawn.drop_last()).insert(
            instructions.last().name,
            chosen_forms(instructions.last(), required, drawn.last()@),
        )
    }
}

/// There is a draw for each form of each instruction.
pub open spec fn draws_match(instructions: Seq<InstructionV>, drawn: Seq<Vec<bool>>) -> bool {
    &&& drawn.len() == instructions.len()
    &&& forall|i: int|
        0 <= i < instructions.len() ==> (#[trigger] drawn[i])@.len() == instructions[i].forms.len()
}

/// The forms of an instruction that are drawn or required.
pub fn drawn_forms(
    instruction: &Instruction,
    required: &OrderedMap<OrderedSet<String>>,
    drawn: &Vec<bool>,
) -> (r: OrderedSet<String>)
    requires
        drawn@.len() == instruction@.forms.len(),
    ensures
        r@ == chosen_forms(instruction@, required@, drawn@),
{
    let ghost all = instruction@.forms;
    let ghost wanted = listed_forms(required@, instruction@.name);
    let mut forms: OrderedSet<String> = OrderedSet::new();
    let mut j: usize = 0;
    while j < instruction.forms.len()
        invariant
            all == viewed(instruction.forms@),
            all == instruction@.forms,
            wanted == listed_forms(required@, instruction@.name),
            j <= all.len(),
            drawn@.len() == all.len(),
            forall|name: Seq<char>| #[trigger]
                forms@.contains(name) <==> exists|i: int|
                    0 <= i < j && (#[trigger] all[i]).name == name && (drawn@[i]
                        || wanted.contains(name)),
        decreases all.len() - j,
    {
        let form = &instruction.forms[j];
        assert(all[j as int] == form@);
        let ghost was = forms@;
        let chosen = drawn[j] || lists_form(required, &instruction.name, &form.name);
        if chosen {
            forms.insert(form.name.clone());
        }
        proof {
            assert forall|name: Seq<char>| #[trigger] forms@.contains(name) <==> exists|i: int|
                0 <= i < j + 1 && (#[trigger] all[i]).name == name && (drawn@[i]
                    || wanted.contains(name)) by {
                if was.contains(name) {
                    let i = choose|i: int|
                        0 <= i < j && (#[trigger] all[i]).name == name && (drawn@[i]
                            || wanted.contains(name));
                    assert(all[i].name == name);
                }
                if chosen && form@.name == name {
                    assert(all[j as int].name == name);
                }
            }
        }
        j += 1;
    }
    assert(forms@ =~= chosen_forms(instruction@, required@, drawn@));
    forms
}

/// Draws uses for the fields whose names are new.
fn draw_fields(
    drawn: &mut OrderedMap<FieldUses>,
    fields: &Vec<InstructionField>,
    fixed: &OrderedMap<FieldUses>,
    rng: &mut StdRng,
    full: Ghost<Map<Seq<char>, FieldUsesV>>,
)
    requires
        uses_drawn(full@, fixed@, old(drawn)@),
        drawable(viewed(fields@), fixed@),
    ensures
        uses_drawn(with_fields(full@, viewed(fields@), true), fixed@, final(drawn)@),
{
    let ghost all = viewed(fields@);
    let mut k: usize = 0;
    assert(all.take(0) =~= Seq::empty());
    while k < fields.len()
        invariant
            all == viewed(fields@),
            k <= all.len(),
            drawable(all, fixed@),
            uses_drawn(with_fields(full@, all.take(k as int), true), fixed@, drawn@),
        decreases all.len() - k,
    {
        let field = &fields[k];
        let ghost before = with_fields(full@, all.take(k as int), true);
        let ghost after = with_field(before, field@, true);
        proof {
            assert(all[k as int] == field@);
            assert(all.take(k + 1).drop_last() =~= all.take(k as int));
            assert(all.take(k + 1).last() == field@);
        }
        if let Some(name) = &field.name {
            assert(drawn@.dom().contains(name@) == before.dom().difference(fixed@.dom()).contains(
                name@,
            ));
            if !fixed.contains_key(name.as_str()) && !drawn.contains_key(name.as_str()) {
                let uses = random_field_use(name, field, rng);
                drawn.insert(name.clone(), uses);
            }
            proof {
                assert(drawn@.dom() =~= after.dom().difference(fixed@.dom()));
                assert forall|other: Seq<char>| #[trigger] drawn@.contains_key(
                    other,
                ) implies random_use(after[other], drawn@[other]) by {
                    if before.contains_key(other) {
                        assert(after[other] == before[other]);
                    }
                }
            }
        }
        k += 1;
    }
    assert(all.take(k as int) =~= all);
}

/// Draws for each form of an instruction, and uses for the fields of the forms.
fn draw_forms(
    drawn: &mut OrderedMap<FieldUses>,
    instruction: &Instruction,
    fixed: &OrderedMap<FieldUses>,
    rng: &mut StdRng,
    full: Ghost<Map<Seq<char>, FieldUsesV>>,
) -> (r: Vec<bool>)
    requires
        uses_drawn(full@, fixed@, old(drawn)@),
        drawable_forms(instruction@.forms, fixed@),
    ensures
        uses_drawn(with_forms(full@, instruction@.forms, true), fixed@, final(drawn)@),
        r@.len() == instruction@.forms.len(),
{
    let ghost all = instruction@.forms;
    let mut flags: Vec<bool> = Vec::new();
    assert(all.take(0) =~= Seq::empty());
    while flags.len() < instruction.forms.len()
        invariant
            all == viewed(instruction.forms@),
            flags@.len() <= all.len(),
            drawable_forms(all, fixed@),
            uses_drawn(with_forms(full@, all.take(flags@.len() as int), true), fixed@, drawn@),
        decreases all.len() - flags@.len(),
    {
        let j: usize = flags.len();
        let form = &instruction.forms[j];
        proof {
            assert(all[j as int] == form@);
            assert(all.take(j + 1).drop_last() =~= all.take(j as int));
            assert(all.take(j + 1).last() == form@);
        }
        flags.push(draw_bool(rng));
        let before = Ghost(with_forms(full@, all.take(j as int), true));
        draw_fields(drawn, &form.fields, fixed, rng, before);
    }
    assert(all.take(flags@.len() as int) =~= all);
    flags
}

/// Chosen forms are random ones.
proof fn lemma_chosen_random(
    instructions: Seq<InstructionV>,
    required: Map<Seq<char>, Set<Seq<char>>>,
    drawn: Seq<Vec<bool>>,
)
    requires
        draws_match(instructions, drawn),
    ensures
        random_forms(
            isa_forms(instructions, true),
            required,
            chosen_active(instructions, required, drawn),
        ),
    decreases instructions.len(),
{
    let full = isa_forms(instructions, true);
    let active = chosen_active(instructions, required, drawn);
    if instructions.len() > 0 {
        let (front, last) = (instructions.drop_last(), instructions.last());
        assert forall|i: int| 0 <= i < front.len() implies (
        #[trigger] drawn.drop_last()[i])@.len() == front[i].forms.len() by {
            assert(drawn[i] == drawn.drop_last()[i]);
        }
        lemma_chosen_random(front, required, drawn.drop_last());
        let names = Seq::new(last.forms.len(), |i: int| last.forms[i].name);
        let chosen = chosen_forms(last, required, drawn.last()@);
        assert forall|name: Seq<char>| chosen.contains(name) implies form_names(
            last.forms,
        ).contains(name) by {
            let i = choose|i: int|
                0 <= i < last.forms.len() && (#[trigger] last.forms[i]).name == name;
            assert(names[i] == name);
        }
        assert forall|name: Seq<char>|
            form_names(last.forms).contains(name) && listed_forms(required, last.name).contains(
                name,
            ) implies chosen.contains(name) by {
            let i = choose|i: int| 0 <= i < names.len() && names[i] == name;
            assert(last.forms[i].name == name);
        }
    }
    assert(active.dom() =~= full.dom());
}

impl ISACandidate {
    /// Generates a random ISACandidate with the same field names, field widths, and instruction
    /// keys as the ISA.
    pub fn random_isa(isa: &ISA, rng: &mut StdRng) -> (r: Self)
        requires
            drawable_isa(viewed(isa.instructions@), Map::empty()),
        ensures
            random_candidate(viewed(isa.instructions@), Map::empty(), Map::empty(), r@),
            r.wf(),
    {
        let fixed: OrderedMap<FieldUses> = OrderedMap::new();
        let required: OrderedMap<OrderedSet<String>> = OrderedMap::new();
        Self::random_isa_with_fixed_fields(isa, rng, &fixed, &required)
    }

    /// Generates a random ISACandidate with some uses fixed and some forms required.
    pub fn random_isa_with_fixed_fields(
        isa: &ISA,
        rng: &mut StdRng,
        fixed_field_uses: &OrderedMap<FieldUses>,
        required_active_forms: &OrderedMap<OrderedSet<String>>,
    ) -> (r: Self)
        requires
            drawable_isa(viewed(isa.instructions@), fixed_field_uses@),
        ensures
            random_candidate(
                viewed(isa.instructions@),
                fixed_field_uses@,
                required_active_forms@,
                r@,
            ),
            r.wf(),
    {
        let ghost all = viewed(isa.instructions@);
        let ghost fixed = fixed_field_uses@;
        let mut drawn_uses: OrderedMap<FieldUses> = OrderedMap::new();
        let mut drawn_flags: Vec<Vec<bool>> = Vec::new();
        proof {
            assert(all.take(0) =~= Seq::empty());
            assert(drawn_uses@.dom() =~= isa_uses(all.take(0), true).dom().difference(fixed.dom()));
        }
        while drawn_flags.len() < isa.instructions.len()
            invariant
                all == viewed(isa.instructions@),
                fixed == fixed_field_uses@,
                drawable_isa(all, fixed),
                drawn_flags@.len() <= all.len(),
                draws_match(all.take(drawn_flags@.len() as int), drawn_flags@),
                uses_drawn(
                    isa_uses(all.take(drawn_flags@.len() as int), true),
                    fixed,
                    drawn_uses@,
                ),
            decreases all.len() - drawn_flags@.len(),
        {
            let i: usize = drawn_flags.len();
            let instruction = &isa.instructions[i];
            proof {
                assert(all[i as int] == instruction@);
                assert(all.take(i + 1).drop_last() =~= all.take(i as int));
                assert(all.take(i + 1).last() == instruction@);
            }
            let full = Ghost(isa_uses(all.take(i as int), true));
            let ghost was = drawn_flags@;
            let flags = draw_forms(&mut drawn_uses, instruction, fixed_field_uses, rng, full);
            drawn_flags.push(flags);
            assert forall|k: int| 0 <= k < i + 1 implies (#[trigger] drawn_flags@[k])@.len()
                == all.take(i + 1)[k].forms.len() by {
                if k < i {
                    assert(was[k] == drawn_flags@[k]);
                    assert(all.take(i as int)[k] == all[k]);
                }
            }
        }
        assert(all.take(drawn_flags@.len() as int) =~= all);
        let r = Self::of_draws(
            isa,
            fixed_field_uses,
            required_active_forms,
            &drawn_uses,
            &drawn_flags,
        );
        proof {
            lemma_chosen_random(all, required_active_forms@, drawn_flags@);
            let full = isa_uses(all, true);
            assert(r@.valid_field_uses.dom() =~= full.dom());
            assert forall|name: Seq<char>|
                full.contains_key(name) && !fixed.contains_key(name) implies random_use(
                full[name],
                #[trigger] r@.valid_field_uses[name],
            ) by {
                assert(drawn_uses@.contains_key(name));
            }
        }
        r
    }

    /// The candidate that draws make: each field has its fixed uses or else the drawn ones, and
    /// each instruction has the forms that are drawn or required.
    pub fn of_draws(
        isa: &ISA,
        fixed_field_uses: &OrderedMap<FieldUses>,
        required_active_forms: &OrderedMap<OrderedSet<String>>,
        drawn_uses: &OrderedMap<FieldUses>,
        drawn_flags: &Vec<Vec<bool>>,
    ) -> (r: Self)
        requires
            draws_match(viewed(isa.instructions@), drawn_flags@),
            forall|name: Seq<char>| #[trigger]
                isa_uses(viewed(isa.instructions@), true).contains_key(name)
                    ==> fixed_field_uses@.contains_key(name) || drawn_uses@.contains_key(name),
        ensures
            r@.valid_field_uses == chosen_uses(
                isa_uses(viewed(isa.instructions@), true),
                fixed_field_uses@,
                drawn_uses@,
            ),
            r@.active_forms == chosen_active(
                viewed(isa.instructions@),
                required_active_forms@,
                drawn_flags@,
            ),
            r.wf(),
    {
        ISACandidate {
            valid_field_uses: choose_uses(isa, fixed_field_uses, drawn_uses),
            active_forms: choose_active(isa, required_active_forms, drawn_flags),
        }
    }
}

/// The fixed uses of each field, or else the drawn ones.
fn choose_uses(
    isa: &ISA,
    fixed: &OrderedMap<FieldUses>,
    drawn: &OrderedMap<FieldUses>,
) -> (r: OrderedMap<FieldUses>)
    requires
        forall|name: Seq<char>| #[trigger]
            isa_uses(viewed(isa.instructions@), true).contains_key(name) ==> fixed@.contains_key(
                name,
            ) || drawn@.contains_key(name),
    ensures
        r@ == chosen_uses(isa_uses(viewed(isa.instructions@), true), fixed@, drawn@),
        r.distinct(),
{
    let full = ISACandidate::max_isa(isa).valid_field_uses;
    let ghost rows = full.rows();
    let ghost whole = chosen_uses(full@, fixed@, drawn@);
    let mut uses: OrderedMap<FieldUses> = OrderedMap::new();
    let mut i: usize = 0;
    proof {
        full.lemma_rows();
    }
    while i < full.len()
        invariant
            rows == full.rows(),
            full@ == isa_uses(viewed(isa.instructions@), true),
            whole == chosen_uses(full@, fixed@, drawn@),
            forall|name: Seq<char>| #[trigger]
                isa_uses(viewed(isa.instructions@), true).contains_key(name)
                    ==> fixed@.contains_key(name) || drawn@.contains_key(name),
            i <= rows.len(),
            uses.distinct(),
            forall|name: Seq<char>| #[trigger]
                uses@.contains_key(name) <==> exists|k: int|
                    0 <= k < i && (#[trigger] rows[k]).0 == name,
            forall|name: Seq<char>| #[trigger]
                uses@.contains_key(name) ==> uses@[name] == whole[name] && whole.contains_key(name),
        decreases rows.len() - i,
    {
        let name = full.name_at(i);
        assert(whole.contains_key(name@));
        let ghost was = uses@;
        let chosen = match fixed.get(name.as_str()) {
            Some(found) => found.duplicate(),
            None => drawn.get(name.as_str()).unwrap().duplicate(),
        };
        uses.insert(name.clone(), chosen);
        assert forall|other: Seq<char>| #[trigger] uses@.contains_key(other) <==> exists|k: int|
            0 <= k < i + 1 && (#[trigger] rows[k]).0 == other by {
            if was.contains_key(other) {
                let k = choose|k: int| 0 <= k < i && (#[trigger] rows[k]).0 == other;
                assert(rows[k].0 == other);
            }
            if other == name@ {
                assert(rows[i as int].0 == other);
            }
        }
        i += 1;
    }
    assert forall|name: Seq<char>| whole.contains_key(name) implies uses@.contains_key(name) by {
        crate::collections::lemma_map_of_absent(rows, name);
    }
    assert(uses@ =~= whole);
    uses
}

/// The forms of all instructions that are drawn or required.
fn choose_active(
    isa: &ISA,
    required: &OrderedMap<OrderedSet<String>>,
    drawn: &Vec<Vec<bool>>,
) -> (r: OrderedMap<OrderedSet<String>>)
    requires
        draws_match(viewed(isa.instructions@), drawn@),
    ensures
        r@ == chosen_active(viewed(isa.instructions@), required@, drawn@),
        r.distinct(),
{
    let ghost all = viewed(isa.instructions@);
    let mut active: OrderedMap<OrderedSet<String>> = OrderedMap::new();
    let mut i: usize = 0;
    proof {
        assert(active@ =~= chosen_active(all.take(0), required@, drawn@.take(0)));
    }
    while i < isa.instructions.len()
        invariant
            all == viewed(isa.instructions@),
            draws_match(all, drawn@),
            i <= all.len(),
            active.distinct(),
            active@ == chosen_active(all.take(i as int), required@, drawn@.take(i as int)),
        decreases all.len() - i,
    {
        let instruction = &isa.instructions[i];
        proof {
            assert(all[i as int] == instruction@);
            assert(all.take(i + 1).drop_last() =~= all.take(i as int));
            assert(all.take(i + 1).last() == instruction@);
            assert(drawn@.take(i + 1).drop_last() =~= drawn@.take(i as int));
            assert(drawn@.take(i + 1).last() == drawn@[i as int]);
        }
        active.insert(instruction.name.clone(), drawn_forms(instruction, required, &drawn[i]));
        i += 1;
    }
    proof {
        assert(all.take(i as int) =~= all);
        assert(drawn@.take(i as int) =~= drawn@);
    }
    active
}

impl<'a> IsaOptimizationManager<'a> {
    /// The uses of unrestricted fields in the unreduced instruction set.
    pub(crate) fn unrestricted_uses(&self) -> (r: OrderedMap<FieldUses>)
        requires
            self.wf(),
        ensures
            r@ == self@.max_uses().restrict(unrestricted_names(self@)),
            r.distinct(),
    {
        let names = self.unrestricted_field_names();
        let ghost rows = names.rows();
        let ghost max = self@.max_uses();
        let mut uses: OrderedMap<FieldUses> = OrderedMap::new();
        let mut i: usize = 0;
        assert(uses@ =~= max.restrict(rows.take(0).to_set()));
        while i < names.len()
            invariant
                self.wf(),
                rows == names.rows(),
                max == self@.max_uses(),
                i <= rows.len(),
                uses.distinct(),
                uses@ == max.restrict(rows.take(i as int).to_set()),
            decreases rows.len() - i,
        {
            let name = names.get(i);
            if let Some(found) = self.max_isa_candidate.valid_field_uses.get(name.as_str()) {
                uses.insert(name.clone(), found.duplicate());
            }
            proof {
                assert(rows.take(i + 1) =~= rows.take(i as int).push(rows[i as int]));
                crate::collections::lemma_push_to_set(rows.take(i as int), rows[i as int]);
                assert(uses@ =~= max.restrict(rows.take(i + 1).to_set()));
            }
            i += 1;
        }
        proof {
            assert(rows.take(i as int) =~= rows);
            names.lemma_rows();
        }
        uses
    }

    /// A random candidate that has all protected features.
    pub fn random_isa_candidate(&mut self) -> (r: ISACandidate)
        requires
            old(self).wf(),
            drawable_isa(
                old(self)@.instructions,
                old(self)@.max_uses().restrict(unrestricted_names(old(self)@)),
            ),
        ensures
            random_protected(old(self)@, r@),
            r.wf(),
            same_but_rng(*old(self), *final(self)),
    {
        let fixed_field_uses = self.unrestricted_uses();
        let ghost rules = self@;
        let mut candidate = ISACandidate::random_isa_with_fixed_fields(
            self.isa,
            &mut self.rng,
            &fixed_field_uses,
            &self.unrestricted_forms,
        );
        let ghost drawn = candidate@;
        assert(self@ == rules);
        self.restore_unrestricted_features(&mut candidate);
        self.restore_unmutatable_fields(&mut candidate);
        assert(candidate@ == protected(rules, drawn));
        candidate
    }
}

/// A random candidate with all protected features put back.
pub open spec fn random_protected(rules: RulesV, candidate: CandidateV) -> bool {
    exists|drawn: CandidateV|
        random_candidate(
            rules.instructions,
            rules.max_uses().restrict(unrestricted_names(rules)),
            rules.unrestricted,
            drawn,
        ) && candidate == #[trigger] protected(rules, drawn)
}

/// The row lists the places of keys, larger keys first, and equal ones in their order.
pub open spec fn ranks(keys: Seq<i64>, order: Seq<usize>) -> bool {
    &&& order.len() == keys.len()
    &&& order.no_duplicates()
    &&& forall|i: int| 0 <= i < order.len() ==> #[trigger] order[i] < keys.len()
    &&& forall|i: int, j: int|
        0 <= i < j < order.len() ==> keys[#[trigger] order[i] as int] > keys[
        #[trigger] order[j] as int] || (keys[order[i] as int] == keys[order[j] as int] && order[i]
            < order[j])
}

/// `Itertools::sorted_by` with the comparison reversed, on the places of the keys: larger keys
/// come first, and the sort is stable.
#[verifier::external_body]
fn rank_descending(keys: &Vec<i64>) -> (r: Vec<usize>)
    ensures
        ranks(keys@, r@),
{
    keys.iter().enumerate().sorted_by(|(_, a), (_, b)| b.cmp(a)).map(|(idx, _)| idx).collect()
}

/// The candidates of several views, in order.
pub open spec fn candidate_views(candidates: Seq<ISACandidate>) -> Seq<CandidateV> {
    Seq::new(candidates.len(), |i: int| candidates[i]@)
}

/// The first valid children, as many as are wanted.
pub open spec fn survivors(children: Seq<CandidateV>, valid: Seq<bool>, wanted: nat) -> Seq<
    CandidateV,
>
    decreases children.len(),
{
    if children.len() == 0 {
        seq![]
    } else {
        let before = survivors(children.drop_last(), valid, wanted);
        if before.len() < wanted && valid[children.len() - 1] {
            before.push(children.last())
        } else {
            before
        }
    }
}

impl<'a> IsaOptimizationManager<'a> {
    /// The places of the elite: of the largest keys, as many as the elite has.
    pub fn elite_indices(&self, keys: &Vec<i64>) -> (r: Vec<usize>)
        ensures
            exists|order: Seq<usize>| #[trigger]
                ranks(keys@, order) && r@ == order.take(
                    if self.elite_candidate_count < order.len() {
                        self.elite_candidate_count as int
                    } else {
                        order.len() as int
                    },
                ),
    {
        let order = rank_descending(keys);
        let mut elite: Vec<usize> = Vec::new();
        let mut i: usize = 0;
        while i < order.len() && i < self.elite_candidate_count
            invariant
                i <= order@.len(),
                i <= self.elite_candidate_count,
                elite@ == order@.take(i as int),
            decreases order@.len() - i,
        {
            elite.push(order[i]);
            i += 1;
            assert(elite@ =~= order@.take(i as int));
        }
        assert(ranks(keys@, order@));
        elite
    }

    /// What the first generation starts from: a third of it has all features, and two have
    /// the fewest.
    pub fn initial_seeds(&self, min_isa: &ISACandidate) -> (r: Vec<ISACandidate>)
        requires
            self.population_size / 3 + 2 <= usize::MAX,
        ensures
            candidate_views(r@) == Seq::new(
                (self.population_size / 3) as nat,
                |i: int| max_candidate(self@.instructions),
            ).push(min_isa@).push(min_isa@),
    {
        let ghost wanted = Seq::new(
            (self.population_size / 3) as nat,
            |i: int| max_candidate(self@.instructions),
        );
        let max_isa = ISACandidate::max_isa(self.isa);
        let mut seeds: Vec<ISACandidate> = Vec::new();
        let mut i: usize = 0;
        let count = self.population_size / 3;
        while i < count
            invariant
                i <= count,
                count == self.population_size / 3,
                max_isa@ == max_candidate(self@.instructions),
                seeds@.len() == i,
                forall|j: int|
                    0 <= j < i ==> (#[trigger] seeds@[j])@ == max_candidate(self@.instructions),
            decreases count - i,
        {
            seeds.push(max_isa.clone());
            i += 1;
        }
        seeds.push(min_isa.clone());
        seeds.push(min_isa.clone());
        assert(candidate_views(seeds@) =~= wanted.push(min_isa@).push(min_isa@));
        seeds
    }

    /// Fills a generation up with valid children, as long as there is room.
    pub fn fill_generation(
        &self,
        kept: Vec<ISACandidate>,
        children: Vec<ISACandidate>,
        valid: &Vec<bool>,
    ) -> (r: Vec<ISACandidate>)
        requires
            valid@.len() == children@.len(),
            kept@.len() <= self.population_size,
        ensures
            candidate_views(r@) == candidate_views(kept@) + survivors(
                candidate_views(children@),
                valid@,
                (self.population_size - kept@.len()) as nat,
            ),
            r@.len() <= self.population_size,
    {
        let ghost first = candidate_views(kept@);
        let ghost all = candidate_views(children@);
        let ghost wanted = (self.population_size - kept@.len()) as nat;
        let mut generation = kept;
        let mut i: usize = 0;
        proof {
            assert(all.take(0) =~= Seq::empty());
            assert(survivors(all.take(0), valid@, wanted) =~= seq![]);
            assert(candidate_views(generation@) =~= first + seq![]);
        }
        while i < children.len()
            invariant
                all == candidate_views(children@),
                wanted == self.population_size - first.len(),
                first.len() <= self.population_size,
                valid@.len() == children@.len(),
                i <= children@.len(),
                generation@.len() <= self.population_size,
                candidate_views(generation@) == first + survivors(
                    all.take(i as int),
                    valid@,
                    wanted,
                ),
            decreases children@.len() - i,
        {
            let ghost before = generation@;
            let ghost kept_children = survivors(all.take(i as int), valid@, wanted);
            proof {
                assert(all.take(i + 1).drop_last() =~= all.take(i as int));
                assert(all.take(i + 1).last() == children@[i as int]@);
                assert(candidate_views(generation@).len() == first.len() + kept_children.len());
            }
            if generation.len() < self.population_size && valid[i] {
                generation.push(children[i].clone());
                assert(candidate_views(generation@) =~= candidate_views(before).push(
                    children@[i as int]@,
                ));
                assert(candidate_views(before).push(children@[i as int]@) =~= first
                    + kept_children.push(children@[i as int]@));
            }
            i += 1;
        }
        assert(all.take(i as int) =~= all);
        generation
    }
}

} // verus!
