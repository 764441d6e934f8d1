//! The effects of a decoded instruction, resolved and in canonical form.
use vstd::prelude::*;

use crate::canonical_form::canon;
use crate::collapse::collapsed;
use crate::collections::{viewed, viewed_option};
use crate::instruction_semantics::{effect_views, Effect, EffectV, Expr, ExprV};
use crate::isa_specification::{DecodedInstruction, DecodedV, ISA, InstructionV};
use crate::substitute::substituted;

verus! {

/// An expression of an instruction after the effects before it, in canonical form.
#[verifier::opaque]
pub open spec fn lowered_expr(expr: ExprV, instruction: DecodedV, previous: Seq<EffectV>) -> Option<
    ExprV,
> {
    match collapsed(expr, instruction, instruction.form.derived_values.len()) {
        Some(resolved) => canon(substituted(resolved, previous)),
        None => None,
    }
}

/// An effect of an instruction with all of its expressions lowered.
pub open spec fn lowered_effect(
    effect: EffectV,
    instruction: DecodedV,
    previous: Seq<EffectV>,
) -> Option<EffectV> {
    match effect {
        EffectV::WriteRegister { guard, register, value } => match (
            lowered_expr(guard, instruction, previous),
            lowered_expr(register, instruction, previous),
            lowered_expr(value, instruction, previous),
        ) {
            (Some(guard), Some(register), Some(value)) => Some(
                EffectV::WriteRegister { guard, register, value },
            ),
            _ => None,
        },
        EffectV::WriteMemory { guard, address, value, width } => match (
            lowered_expr(guard, instruction, previous),
            lowered_expr(address, instruction, previous),
            lowered_expr(value, instruction, previous),
        ) {
            (Some(guard), Some(address), Some(value)) => Some(
                EffectV::WriteMemory { guard, address, value, width },
            ),
            _ => None,
        },
    }
}

/// The effects of an instruction, lowered one by one.
pub open spec fn lowered_effects(
    effects: Seq<EffectV>,
    instruction: DecodedV,
    previous: Seq<EffectV>,
) -> Option<Seq<EffectV>>
    decreases effects.len(),
{
    if effects.len() == 0 {
        Some(seq![])
    } else {
        match (
            lowered_effects(effects.drop_last(), instruction, previous),
            lowered_effect(effects.last(), instruction, previous),
        ) {
            (Some(before), Some(last)) => Some(before.push(last)),
            _ => None,
        }
    }
}

/// The first instruction with the name.
pub open spec fn named_instruction(instructions: Seq<InstructionV>, name: Seq<char>) -> Option<
    InstructionV,
>
    decreases instructions.len(),
{
    if instructions.len() == 0 {
        None
    } else {
        match named_instruction(instructions.drop_last(), name) {
            Some(found) => Some(found),
            None => if instructions.last().name == name {
                Some(instructions.last())
            } else {
                None
            },
        }
    }
}

/// The lowered effects of a decoded instruction of an instruction set.
pub open spec fn decoded_effects(
    instruction: DecodedV,
    instructions: Seq<InstructionV>,
    previous: Seq<EffectV>,
) -> Option<Seq<EffectV>> {
    match named_instruction(instructions, instruction.name) {
        Some(found) => lowered_effects(found.effects, instruction, previous),
        None => None,
    }
}

fn lower_expr(expr: &Expr, instruction: &DecodedInstruction, previous: &Vec<Effect>) -> (r: Option<
    Expr,
>)
    ensures
        viewed_option(r) == lowered_expr(expr@, instruction@, effect_views(previous@)),
{
    proof {
        reveal(lowered_expr);
    }
    let resolved = expr.try_collapse(instruction)?;
    resolved.substitute(previous).try_canonicalize()
}

fn lower_effect(effect: &Effect, instruction: &DecodedInstruction, previous: &Vec<Effect>) -> (r:
    Option<Effect>)
    ensures
        viewed_option(r) == lowered_effect(effect@, instruction@, effect_views(previous@)),
{
    match effect {
        Effect::WriteRegister { guard, register, value } => {
            let guard = lower_expr(guard, instruction, previous)?;
            let register = lower_expr(register, instruction, previous)?;
            let value = lower_expr(value, instruction, previous)?;
            Some(Effect::WriteRegister { guard, register, value })
        },
        Effect::WriteMemory { guard, address, value, width } => {
            let guard = lower_expr(guard, instruction, previous)?;
            let address = lower_expr(address, instruction, previous)?;
            let value = lower_expr(value, instruction, previous)?;
            Some(Effect::WriteMemory { guard, address, value, width: *width })
        },
    }
}

proof fn lemma_lowered_prefix(
    effects: Seq<EffectV>,
    instruction: DecodedV,
    previous: Seq<EffectV>,
    k: int,
)
    requires
        0 <= k <= effects.len(),
        lowered_effects(effects, instruction, previous) is Some,
    ensures
        lowered_effects(effects.take(k), instruction, previous) is Some,
    decreases effects.len(),
{
    if k == effects.len() {
        assert(effects.take(k) =~= effects);
    } else {
        lemma_lowered_prefix(effects.drop_last(), instruction, previous, k);
        assert(effects.drop_last().take(k) =~= effects.take(k));
    }
}

/// Finds the first instruction with the name.
pub(crate) fn find_instruction<'a>(isa: &'a ISA, name: &String) -> (r: Option<
    &'a crate::isa_specification::Instruction,
>)
    ensures
        match r {
            Some(found) => named_instruction(viewed(isa.instructions@), name@) == Some(found@),
            None => named_instruction(viewed(isa.instructions@), name@) is None,
        },
{
    let ghost all = viewed(isa.instructions@);
    let mut found: Option<&'a crate::isa_specification::Instruction> = None;
    let mut i: usize = 0;
    assert(all.take(0) =~= Seq::empty());
    while i < isa.instructions.len()
        invariant
            i <= isa.instructions@.len(),
            all == viewed(isa.instructions@),
            match found {
                Some(found) => named_instruction(all.take(i as int), name@) == Some(found@),
                None => named_instruction(all.take(i as int), name@) is None,
            },
        decreases isa.instructions@.len() - i,
    {
        proof {
            assert(all.take(i + 1).drop_last() =~= all.take(i as int));
            assert(all.take(i + 1).last() == isa.instructions@[i as int]@);
        }
        if found.is_none() && isa.instructions[i].name == *name {
            found = Some(&isa.instructions[i]);
        }
        i += 1;
    }
    assert(all.take(i as int) =~= all);
    found
}

/// The effects of a decoded instruction: resolved, after the effects before it, canonical.
pub fn instruction_to_lowered_effects(
    instruction: &DecodedInstruction,
    isa: &ISA,
    previous: &Vec<Effect>,
) -> (r: Vec<Effect>)
    requires
        decoded_effects(instruction@, viewed(isa.instructions@), effect_views(previous@)) is Some,
    ensures
        decoded_effects(instruction@, viewed(isa.instructions@), effect_views(previous@)) == Some(
            effect_views(r@),
        ),
{
    try_lowered_effects(instruction, isa, previous).unwrap()
}

/// Lowers the effects of a decoded instruction, where the instruction set has the instruction and
/// all of its expressions can be resolved and have canonical forms.
pub fn try_lowered_effects(
    instruction: &DecodedInstruction,
    isa: &ISA,
    previous: &Vec<Effect>,
) -> (r: Option<Vec<Effect>>)
    ensures
        match r {
            Some(effects) => decoded_effects(
                instruction@,
                viewed(isa.instructions@),
                effect_views(previous@),
            ) == Some(effect_views(effects@)),
            None => decoded_effects(
                instruction@,
                viewed(isa.instructions@),
                effect_views(previous@),
            ) is None,
        },
{
    let found = find_instruction(isa, &instruction.name)?;
    let ghost all = effect_views(found.effects@);
    let ghost before = effect_views(previous@);
    let mut r: Vec<Effect> = Vec::new();
    let mut i: usize = 0;
    assert(all.take(0) =~= Seq::empty());
    assert(effect_views(r@) =~= Seq::empty());
    while i < found.effects.len()
        invariant
            i <= found.effects@.len(),
            all == effect_views(found.effects@),
            before == effect_views(previous@),
            decoded_effects(instruction@, viewed(isa.instructions@), before) == lowered_effects(
                all,
                instruction@,
                before,
            ),
            lowered_effects(all.take(i as int), instruction@, before) == Some(effect_views(r@)),
        decreases found.effects@.len() - i,
    {
        proof {
            assert(all.take(i + 1).drop_last() =~= all.take(i as int));
            assert(all.take(i + 1).last() == found.effects@[i as int]@);
            if lowered_effects(all, instruction@, before) is Some {
                lemma_lowered_prefix(all, instruction@, before, i + 1);
            }
        }
        let effect = lower_effect(&found.effects[i], instruction, previous)?;
        let ghost rows = effect_views(r@);
        r.push(effect);
        assert(effect_views(r@) =~= rows.push(effect@));
        i += 1;
    }
    assert(all.take(i as int) =~= all);
    Some(r)
}

} // verus!
