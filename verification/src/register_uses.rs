//! The registers that effects read and write.
use vstd::prelude::*;

use crate::canonical_form::weight;
use crate::collections::OrderedSet;
use crate::const_eval::{canonical, canonical_word, valid_width};
use crate::expr_shape::width_of;
use crate::expr_weight::lemma_weight_children;
use crate::instruction_semantics::{
    children, effect_views, Effect, EffectV, Expr, ExprV, OperandRef, OperandV, RegisterRef,
    RegisterV,
};
use crate::isa_specification::ArchitecturalRegister;

verus! {

/// The register that a fixed register operand names; nothing for other expressions.
///
/// The outer `None` stands for a width that no register has.
pub open spec fn register_of(expr: ExprV, data_width: u16) -> Option<Option<ArchitecturalRegister>> {
    match expr {
        ExprV::Operand(OperandV::RegisterField(RegisterV::Fixed { register, identifier_width })) => {
            if identifier_width <= u8::MAX && data_width <= u8::MAX {
                Some(
                    Some(
                        ArchitecturalRegister {
                            identifier: register,
                            identifier_width: identifier_width as u8,
                            width: data_width as u8,
                        },
                    ),
                )
            } else {
                None
            }
        },
        _ => Some(None),
    }
}

/// Every register that the expression reads has a width that a register can have.
pub open spec fn reads_defined(expr: ExprV) -> bool
    decreases weight(expr),
{
    proof {
        lemma_weight_children(expr);
    }
    (match expr {
        ExprV::ReadRegister { register, width } => register_of(*register, width) is Some,
        _ => true,
    }) && forall|i: int|
        0 <= i < children(expr).len() ==> reads_defined(#[trigger] children(expr)[i])
}

/// The registers that an expression reads.
pub open spec fn reads_of(expr: ExprV) -> Set<ArchitecturalRegister>
    decreases weight(expr),
{
    proof {
        lemma_weight_children(expr);
    }
    Set::new(
        |r: ArchitecturalRegister|
            (expr matches ExprV::ReadRegister { register, width } && register_of(*register, width)
                == Some(Some(r))) || exists|i: int|
                0 <= i < children(expr).len() && reads_of(#[trigger] children(expr)[i]).contains(r),
    )
}

/// The guard is a literal zero.
pub open spec fn guard_false(guard: ExprV) -> bool {
    guard matches ExprV::Const { value, width } && canonical(value, width) == 0
}

/// The guard is a literal true.
pub open spec fn guard_true(guard: ExprV) -> bool {
    guard matches ExprV::Const { value, width } && width == 1 && canonical(value, width) == 1
}

/// A literal guard has a valid width.
pub open spec fn guard_valid(guard: ExprV) -> bool {
    guard matches ExprV::Const { width, .. } ==> valid_width(width)
}

/// The guard, the place and the value of an effect.
pub open spec fn effect_parts(effect: EffectV) -> (ExprV, ExprV, ExprV) {
    match effect {
        EffectV::WriteRegister { guard, register, value } => (guard, register, value),
        EffectV::WriteMemory { guard, address, value, .. } => (guard, address, value),
    }
}

/// What an effect reads can be told.
pub open spec fn effect_reads_defined(effect: EffectV) -> bool {
    let (guard, place, value) = effect_parts(effect);
    guard_valid(guard) && (guard_false(guard) || (reads_defined(guard) && reads_defined(place)
        && reads_defined(value)))
}

/// The registers that an effect reads: none if it never happens.
pub open spec fn effect_reads(effect: EffectV) -> Set<ArchitecturalRegister> {
    let (guard, place, value) = effect_parts(effect);
    if guard_false(guard) {
        Set::empty()
    } else {
        reads_of(guard).union(reads_of(place)).union(reads_of(value))
    }
}

/// The registers that a row of effects reads.
pub open spec fn all_reads(effects: Seq<EffectV>) -> Set<ArchitecturalRegister>
    decreases effects.len(),
{
    if effects.len() == 0 {
        Set::empty()
    } else {
        all_reads(effects.drop_last()).union(effect_reads(effects.last()))
    }
}

/// The register that an effect writes for sure.
///
/// The outer `None` stands for a width that is unknown or that no register has.
pub open spec fn effect_write(effect: EffectV) -> Option<Option<ArchitecturalRegister>> {
    match effect {
        EffectV::WriteRegister { guard, register, value } => if guard_true(guard) {
            match width_of(value) {
                Some(width) => register_of(register, width),
                None => None,
            }
        } else {
            Some(None)
        },
        _ => Some(None),
    }
}

/// The registers that a row of effects writes for sure.
pub open spec fn all_writes(effects: Seq<EffectV>) -> Set<ArchitecturalRegister> {
    Set::new(
        |r: ArchitecturalRegister|
            exists|i: int|
                0 <= i < effects.len() && effect_write(#[trigger] effects[i]) == Some(Some(r)),
    )
}

/// What the effects read and write can be told.
pub open spec fn uses_defined(effects: Seq<EffectV>) -> bool {
    forall|i: int|
        0 <= i < effects.len() ==> effect_reads_defined(#[trigger] effects[i]) && effect_write(
            effects[i],
        ) is Some
}

/// Names the register of a fixed register operand.
fn register_expr_to_architectural_register(expr: &Expr, data_width: u16) -> (r: Option<
    ArchitecturalRegister,
>)
    requires
        register_of(expr@, data_width) is Some,
    ensures
        register_of(expr@, data_width) == Some(r),
{
    match expr {
        Expr::Operand(OperandRef::RegisterField(RegisterRef::Fixed { register, identifier_width })) => {
            Some(
                ArchitecturalRegister {
                    identifier: register.0,
                    identifier_width: *identifier_width as u8,
                    width: data_width as u8,
                },
            )
        },
        _ => None,
    }
}

/// Adds the registers that an expression reads.
fn collect_expr_register_reads(expr: &Expr, reads: &mut OrderedSet<ArchitecturalRegister>)
    requires
        reads_defined(expr@),
    ensures
        final(reads)@ == old(reads)@.union(reads_of(expr@)),
        old(reads).distinct() ==> final(reads).distinct(),
    decreases weight(expr@),
{
    let ghost parts = children(expr@);
    let ghost own: Set<ArchitecturalRegister> = Set::new(
        |r: ArchitecturalRegister|
            expr@ matches ExprV::ReadRegister { register, width } && register_of(*register, width)
                == Some(Some(r)),
    );
    proof {
        lemma_weight_children(expr@);
    }
    if let Expr::ReadRegister { register, width } = expr {
        if let Some(register) = register_expr_to_architectural_register(register, *width) {
            reads.insert(register);
        }
    }
    assert(reads@ =~= old(reads)@.union(own));
    let all = expr.children();
    let mut i: usize = 0;
    while i < all.len()
        invariant
            i <= all@.len(),
            parts == children(expr@),
            all@.len() == parts.len(),
            forall|j: int| 0 <= j < all@.len() ==> (#[trigger] all@[j])@ == parts[j],
            forall|j: int| 0 <= j < parts.len() ==> weight(#[trigger] parts[j]) < weight(expr@),
            forall|j: int| 0 <= j < parts.len() ==> reads_defined(#[trigger] parts[j]),
            old(reads).distinct() ==> reads.distinct(),
            reads@ == old(reads)@.union(own).union(
                Set::new(
                    |r: ArchitecturalRegister|
                        exists|j: int| 0 <= j < i && reads_of(#[trigger] parts[j]).contains(r),
                ),
            ),
        decreases all@.len() - i,
    {
        let ghost before = reads@;
        collect_expr_register_reads(all[i], reads);
        i += 1;
        assert(reads@ =~= old(reads)@.union(own).union(
            Set::new(
                |r: ArchitecturalRegister|
                    exists|j: int| 0 <= j < i && reads_of(#[trigger] parts[j]).contains(r),
            ),
        ));
    }
    assert(reads@ =~= old(reads)@.union(reads_of(expr@)));
}

fn guard_is_const_false(guard: &Expr) -> (r: bool)
    requires
        guard_valid(guard@),
    ensures
        r == guard_false(guard@),
{
    match guard {
        Expr::Const { value, width } => canonical_word(*value, *width) == 0,
        _ => false,
    }
}

fn guard_is_const_true(guard: &Expr) -> (r: bool)
    ensures
        r == guard_true(guard@),
{
    match guard {
        Expr::Const { value, width } => *width == 1 && canonical_word(*value, *width) == 1,
        _ => false,
    }
}

/// Reports whether a register operand has widths that a register can have.
fn is_register_defined(expr: &Expr, data_width: u16) -> (r: bool)
    ensures
        r == (register_of(expr@, data_width) is Some),
{
    match expr {
        Expr::Operand(
            OperandRef::RegisterField(RegisterRef::Fixed { identifier_width, .. }),
        ) => *identifier_width <= 0xff && data_width <= 0xff,
        _ => true,
    }
}

/// Reports whether every register that an expression reads has a width that a register can have.
fn are_reads_defined(expr: &Expr) -> (r: bool)
    ensures
        r == reads_defined(expr@),
    decreases weight(expr@),
{
    let ghost parts = children(expr@);
    proof {
        lemma_weight_children(expr@);
    }
    if let Expr::ReadRegister { register, width } = expr {
        if !is_register_defined(register, *width) {
            return false;
        }
    }
    let all = expr.children();
    let mut i: usize = 0;
    while i < all.len()
        invariant
            i <= all@.len(),
            parts == children(expr@),
            all@.len() == parts.len(),
            forall|j: int| 0 <= j < all@.len() ==> (#[trigger] all@[j])@ == parts[j],
            forall|j: int| 0 <= j < parts.len() ==> weight(#[trigger] parts[j]) < weight(expr@),
            forall|j: int| 0 <= j < i ==> reads_defined(#[trigger] parts[j]),
        decreases all@.len() - i,
    {
        assert(all@[i as int]@ == parts[i as int]);
        if !are_reads_defined(all[i]) {
            return false;
        }
        i += 1;
    }
    true
}

/// Reports whether what an effect reads can be told.
fn are_effect_reads_defined(guard: &Expr, place: &Expr, value: &Expr) -> (r: bool)
    ensures
        r == (guard_valid(guard@) && (guard_false(guard@) || (reads_defined(guard@)
            && reads_defined(place@) && reads_defined(value@)))),
{
    if let Expr::Const { width, .. } = guard {
        if *width == 0 || *width > 128 {
            return false;
        }
    }
    guard_is_const_false(guard) || (are_reads_defined(guard) && are_reads_defined(place)
        && are_reads_defined(value))
}

/// Reports whether what effects read and write can be told.
pub fn are_uses_defined(effects: &Vec<Effect>) -> (r: bool)
    ensures
        r == uses_defined(effect_views(effects@)),
{
    let ghost all = effect_views(effects@);
    let mut i: usize = 0;
    while i < effects.len()
        invariant
            i <= effects@.len(),
            all == effect_views(effects@),
            forall|j: int|
                0 <= j < i ==> effect_reads_defined(#[trigger] all[j]) && effect_write(
                    all[j],
                ) is Some,
        decreases effects@.len() - i,
    {
        assert(all[i as int] == effects@[i as int]@);
        let defined = match &effects[i] {
            Effect::WriteRegister { guard, register, value } => are_effect_reads_defined(
                guard,
                register,
                value,
            ) && (!guard_is_const_true(guard) || match value.expr_width() {
                Some(width) => is_register_defined(register, width),
                None => false,
            }),
            Effect::WriteMemory { guard, address, value, .. } => are_effect_reads_defined(
                guard,
                address,
                value,
            ),
        };
        if !defined {
            assert(!(effect_reads_defined(all[i as int]) && effect_write(all[i as int]) is Some));
            return false;
        }
        i += 1;
    }
    true
}

/// Registers which are read by an instruction. Assumed to happen *before* writes.
pub fn instruction_register_reads(effects: &Vec<Effect>) -> (r: OrderedSet<ArchitecturalRegister>)
    requires
        forall|i: int|
            0 <= i < effects@.len() ==> effect_reads_defined(#[trigger] effect_views(effects@)[i]),
    ensures
        r@ == all_reads(effect_views(effects@)),
        r.distinct(),
{
    let ghost all = effect_views(effects@);
    let mut reads: OrderedSet<ArchitecturalRegister> = OrderedSet::new();
    let mut i: usize = 0;
    assert(all.take(0) =~= Seq::empty());
    while i < effects.len()
        invariant
            i <= effects@.len(),
            all == effect_views(effects@),
            forall|i: int|
                0 <= i < effects@.len() ==> effect_reads_defined(#[trigger] all[i]),
            reads@ == all_reads(all.take(i as int)),
            reads.distinct(),
        decreases effects@.len() - i,
    {
        proof {
            assert(all[i as int] == effects@[i as int]@);
            assert(all.take(i + 1).drop_last() =~= all.take(i as int));
            assert(all.take(i + 1).last() == effects@[i as int]@);
        }
        let ghost before = reads@;
        match &effects[i] {
            Effect::WriteRegister { guard, register, value } => {
                if !guard_is_const_false(guard) {
                    collect_expr_register_reads(guard, &mut reads);
                    collect_expr_register_reads(register, &mut reads);
                    collect_expr_register_reads(value, &mut reads);
                }
            },
            Effect::WriteMemory { guard, address, value, .. } => {
                if !guard_is_const_false(guard) {
                    collect_expr_register_reads(guard, &mut reads);
                    collect_expr_register_reads(address, &mut reads);
                    collect_expr_register_reads(value, &mut reads);
                }
            },
        }
        assert(reads@ =~= before.union(effect_reads(all[i as int])));
        i += 1;
    }
    assert(all.take(i as int) =~= all);
    reads
}

/// Registers which are written by an instruction. Only returned if the guard evaluates to 1
/// (always) for the purpose of being more conservative with live-out registers.
pub fn instruction_register_writes(effects: &Vec<Effect>) -> (r: OrderedSet<ArchitecturalRegister>)
    requires
        forall|i: int|
            0 <= i < effects@.len() ==> effect_write(#[trigger] effect_views(effects@)[i]) is Some,
    ensures
        r@ == all_writes(effect_views(effects@)),
        r.distinct(),
{
    let ghost all = effect_views(effects@);
    let mut writes: OrderedSet<ArchitecturalRegister> = OrderedSet::new();
    let mut i: usize = 0;
    assert(writes@ =~= all_writes(all.take(0)));
    while i < effects.len()
        invariant
            i <= effects@.len(),
            all == effect_views(effects@),
            forall|i: int| 0 <= i < effects@.len() ==> effect_write(#[trigger] all[i]) is Some,
            writes@ == all_writes(all.take(i as int)),
            writes.distinct(),
        decreases effects@.len() - i,
    {
        assert(all[i as int] == effects@[i as int]@);
        let ghost was = all.take(i as int);
        let ghost now = all.take(i + 1);
        let mut written: Option<ArchitecturalRegister> = None;
        if let Effect::WriteRegister { guard, register, value } = &effects[i] {
            if guard_is_const_true(guard) {
                written = register_expr_to_architectural_register(
                    register,
                    value.expr_width().unwrap(),
                );
            }
        }
        assert(effect_write(all[i as int]) == Some(written));
        if let Some(register) = written {
            writes.insert(register);
        }
        proof {
            assert forall|r: ArchitecturalRegister| all_writes(now).contains(r) == (all_writes(
                was,
            ).contains(r) || written == Some(r)) by {
                if all_writes(was).contains(r) {
                    let j = choose|j: int|
                        0 <= j < was.len() && effect_write(#[trigger] was[j]) == Some(Some(r));
                    assert(now[j] == was[j]);
                }
                if written == Some(r) {
                    assert(now[i as int] == all[i as int]);
                }
                if all_writes(now).contains(r) {
                    let j = choose|j: int|
                        0 <= j < now.len() && effect_write(#[trigger] now[j]) == Some(Some(r));
                    if j < i {
                        assert(was[j] == now[j]);
                    }
                }
            }
            assert(writes@ =~= all_writes(now));
        }
        i += 1;
    }
    assert(all.take(i as int) =~= all);
    writes
}

} // verus!
