//! Forwarding earlier writes into the reads of an expression, and the combined passes.
use vstd::prelude::*;

use crate::canonical_form::canon;
use crate::collapse::collapsed;
use crate::collections::viewed_option;
use crate::expr_shape::width_of;
use crate::instruction_semantics::{
    and_expr, effect_views, equal, read_memory, read_register, select, views, Effect, EffectV, Expr,
    ExprV,
};
use crate::isa_specification::DecodedInstruction;

verus! {

/// A value that replaces another one where a guarded write hits the place that is read.
pub open spec fn forwarded(
    guard: ExprV,
    place: ExprV,
    written_place: ExprV,
    value: ExprV,
    otherwise: ExprV,
) -> ExprV {
    ExprV::Select {
        condition: Box::new(
            ExprV::And(
                Box::new(guard),
                Box::new(ExprV::Equal(Box::new(place), Box::new(written_place))),
            ),
        ),
        when_true: Box::new(value),
        when_false: Box::new(otherwise),
    }
}

/// A register read after the effects: the latest write that hits it wins.
pub open spec fn register_after(effects: Seq<EffectV>, register: ExprV, width: u16) -> ExprV
    decreases effects.len(),
{
    if effects.len() == 0 {
        ExprV::ReadRegister { register: Box::new(register), width }
    } else {
        let before = register_after(effects.drop_last(), register, width);
        match effects.last() {
            EffectV::WriteRegister { guard, register: written, value } => if width_of(value)
                == Some(width) {
                forwarded(guard, register, written, value, before)
            } else {
                before
            },
            _ => before,
        }
    }
}

/// A memory read after the effects: the latest write that hits it wins.
pub open spec fn memory_after(effects: Seq<EffectV>, address: ExprV, width: u16) -> ExprV
    decreases effects.len(),
{
    if effects.len() == 0 {
        ExprV::ReadMemory { address: Box::new(address), width }
    } else {
        let before = memory_after(effects.drop_last(), address, width);
        match effects.last() {
            EffectV::WriteMemory { guard, address: written, value, width: written_width } => if width
                == written_width {
                forwarded(guard, address, written, value, before)
            } else {
                before
            },
            _ => before,
        }
    }
}

/// A row of expressions after the effects.
pub open spec fn substituted_all(exprs: Seq<ExprV>, effects: Seq<EffectV>) -> Seq<ExprV>
    decreases exprs, 0nat,
{
    Seq::new(
        exprs.len(),
        |i: int|
            if 0 <= i < exprs.len() {
                substituted(exprs[i], effects)
            } else {
                arbitrary()
            },
    )
}

/// An expression over the state before the effects that reads the state after them.
pub open spec fn substituted(expr: ExprV, effects: Seq<EffectV>) -> ExprV
    decreases expr, 1nat,
{
    match expr {
        ExprV::ReadRegister { register, width } => register_after(
            effects,
            substituted(*register, effects),
            width,
        ),
        ExprV::ReadMemory { address, width } => memory_after(
            effects,
            substituted(*address, effects),
            width,
        ),
        ExprV::Add(lhs, rhs) => ExprV::Add(Box::new(substituted(*lhs, effects)), Box::new(substituted(*rhs, effects))),
        ExprV::Sub(lhs, rhs) => ExprV::Sub(Box::new(substituted(*lhs, effects)), Box::new(substituted(*rhs, effects))),
        ExprV::Mul(lhs, rhs) => ExprV::Mul(Box::new(substituted(*lhs, effects)), Box::new(substituted(*rhs, effects))),
        ExprV::And(lhs, rhs) => ExprV::And(Box::new(substituted(*lhs, effects)), Box::new(substituted(*rhs, effects))),
        ExprV::Or(lhs, rhs) => ExprV::Or(Box::new(substituted(*lhs, effects)), Box::new(substituted(*rhs, effects))),
        ExprV::Xor(lhs, rhs) => ExprV::Xor(Box::new(substituted(*lhs, effects)), Box::new(substituted(*rhs, effects))),
        ExprV::Not(value) => ExprV::Not(Box::new(substituted(*value, effects))),
        ExprV::ShiftLeft(value, amount) => ExprV::ShiftLeft(Box::new(substituted(*value, effects)), Box::new(substituted(*amount, effects))),
        ExprV::LogicalShiftRight(value, amount) => ExprV::LogicalShiftRight(Box::new(substituted(*value, effects)), Box::new(substituted(*amount, effects))),
        ExprV::ArithmeticShiftRight(value, amount) => ExprV::ArithmeticShiftRight(Box::new(substituted(*value, effects)), Box::new(substituted(*amount, effects))),
        ExprV::RotateRight(value, amount) => ExprV::RotateRight(Box::new(substituted(*value, effects)), Box::new(substituted(*amount, effects))),
        ExprV::Equal(lhs, rhs) => ExprV::Equal(Box::new(substituted(*lhs, effects)), Box::new(substituted(*rhs, effects))),
        ExprV::UnsignedLessThan(lhs, rhs) => ExprV::UnsignedLessThan(Box::new(substituted(*lhs, effects)), Box::new(substituted(*rhs, effects))),
        ExprV::SignedLessThan(lhs, rhs) => ExprV::SignedLessThan(Box::new(substituted(*lhs, effects)), Box::new(substituted(*rhs, effects))),
        ExprV::Extract { value, high, low } => ExprV::Extract { value: Box::new(substituted(*value, effects)), high, low },
        ExprV::Concat(values) => ExprV::Concat(substituted_all(values, effects)),
        ExprV::ZeroExtend { value, to_width } => ExprV::ZeroExtend { value: Box::new(substituted(*value, effects)), to_width },
        ExprV::SignExtend { value, to_width } => ExprV::SignExtend { value: Box::new(substituted(*value, effects)), to_width },
        ExprV::CountOnes(value) => ExprV::CountOnes(Box::new(substituted(*value, effects))),
        ExprV::AddCarryOut { lhs, rhs, carry_in, width } => ExprV::AddCarryOut { lhs: Box::new(substituted(*lhs, effects)), rhs: Box::new(substituted(*rhs, effects)), carry_in: Box::new(substituted(*carry_in, effects)), width },
        ExprV::AddOverflow { lhs, rhs, carry_in, width } => ExprV::AddOverflow { lhs: Box::new(substituted(*lhs, effects)), rhs: Box::new(substituted(*rhs, effects)), carry_in: Box::new(substituted(*carry_in, effects)), width },
        ExprV::SubCarryOut { lhs, rhs, borrow_in, width } => ExprV::SubCarryOut { lhs: Box::new(substituted(*lhs, effects)), rhs: Box::new(substituted(*rhs, effects)), borrow_in: Box::new(substituted(*borrow_in, effects)), width },
        ExprV::SubOverflow { lhs, rhs, borrow_in, width } => ExprV::SubOverflow { lhs: Box::new(substituted(*lhs, effects)), rhs: Box::new(substituted(*rhs, effects)), borrow_in: Box::new(substituted(*borrow_in, effects)), width },
        ExprV::Select { condition, when_true, when_false } => ExprV::Select { condition: Box::new(substituted(*condition, effects)), when_true: Box::new(substituted(*when_true, effects)), when_false: Box::new(substituted(*when_false, effects)) },
        ExprV::Const { .. } | ExprV::Operand(_) | ExprV::DerivedValue(_) => expr,
    }
}

/// Wraps a register read into the writes of the effects.
fn forward_register(effects: &Vec<Effect>, register: Expr, width: u16) -> (r: Expr)
    ensures
        r@ == register_after(effect_views(effects@), register@, width),
{
    let ghost all = effect_views(effects@);
    let mut r = read_register(register.clone(), width);
    let mut i: usize = 0;
    assert(all.take(0) =~= Seq::empty());
    while i < effects.len()
        invariant
            i <= effects@.len(),
            all == effect_views(effects@),
            r@ == register_after(all.take(i as int), register@, width),
        decreases effects@.len() - i,
    {
        proof {
            assert(all.take(i + 1).drop_last() =~= all.take(i as int));
            assert(all.take(i + 1).last() == effects@[i as int]@);
        }
        match &effects[i] {
            Effect::WriteRegister { guard, register: written, value } => {
                let hits = match value.expr_width() {
                    Some(written_width) => written_width == width,
                    None => false,
                };
                if hits {
                    r = select(
                        and_expr(guard.clone(), equal(register.clone(), written.clone())),
                        value.clone(),
                        r,
                    );
                }
            },
            _ => {},
        }
        i += 1;
    }
    assert(all.take(i as int) =~= all);
    r
}

/// Wraps a memory read into the writes of the effects.
fn forward_memory(effects: &Vec<Effect>, address: Expr, width: u16) -> (r: Expr)
    ensures
        r@ == memory_after(effect_views(effects@), address@, width),
{
    let ghost all = effect_views(effects@);
    let mut r = read_memory(address.clone(), width);
    let mut i: usize = 0;
    assert(all.take(0) =~= Seq::empty());
    while i < effects.len()
        invariant
            i <= effects@.len(),
            all == effect_views(effects@),
            r@ == memory_after(all.take(i as int), address@, width),
        decreases effects@.len() - i,
    {
        proof {
            assert(all.take(i + 1).drop_last() =~= all.take(i as int));
            assert(all.take(i + 1).last() == effects@[i as int]@);
        }
        match &effects[i] {
            Effect::WriteMemory { guard, address: written, value, width: written_width } => {
                if width == *written_width {
                    r = select(
                        and_expr(guard.clone(), equal(address.clone(), written.clone())),
                        value.clone(),
                        r,
                    );
                }
            },
            _ => {},
        }
        i += 1;
    }
    assert(all.take(i as int) =~= all);
    r
}

fn substitute_exprs(exprs: &Vec<Expr>, effects: &Vec<Effect>) -> (r: Vec<Expr>)
    ensures
        views(r@) == substituted_all(views(exprs@), effect_views(effects@)),
    decreases exprs, 0nat,
{
    let mut r: Vec<Expr> = Vec::new();
    let mut i: usize = 0;
    while i < exprs.len()
        invariant
            i <= exprs@.len(),
            r@.len() == i,
            forall|j: int|
                0 <= j < i ==> (#[trigger] r@[j])@ == substituted(
                    exprs@[j]@,
                    effect_views(effects@),
                ),
        decreases exprs@.len() - i,
    {
        let e = substitute_expr(&exprs[i], effects);
        r.push(e);
        i += 1;
    }
    assert(views(r@) =~= substituted_all(views(exprs@), effect_views(effects@)));
    r
}

fn substitute_expr(expr: &Expr, effects: &Vec<Effect>) -> (r: Expr)
    ensures
        r@ == substituted(expr@, effect_views(effects@)),
    decreases expr, 1nat,
{
    match expr {
        Expr::Const { .. } | Expr::Operand(_) | Expr::DerivedValue(_) => expr.clone(),
        Expr::ReadRegister { register, width } => forward_register(
            effects,
            substitute_expr(register, effects),
            *width,
        ),
        Expr::ReadMemory { address, width } => forward_memory(
            effects,
            substitute_expr(address, effects),
            *width,
        ),
        Expr::Add(lhs, rhs) => Expr::Add(Box::new(substitute_expr(lhs, effects)), Box::new(substitute_expr(rhs, effects))),
        Expr::Sub(lhs, rhs) => Expr::Sub(Box::new(substitute_expr(lhs, effects)), Box::new(substitute_expr(rhs, effects))),
        Expr::Mul(lhs, rhs) => Expr::Mul(Box::new(substitute_expr(lhs, effects)), Box::new(substitute_expr(rhs, effects))),
        Expr::And(lhs, rhs) => Expr::And(Box::new(substitute_expr(lhs, effects)), Box::new(substitute_expr(rhs, effects))),
        Expr::Or(lhs, rhs) => Expr::Or(Box::new(substitute_expr(lhs, effects)), Box::new(substitute_expr(rhs, effects))),
        Expr::Xor(lhs, rhs) => Expr::Xor(Box::new(substitute_expr(lhs, effects)), Box::new(substitute_expr(rhs, effects))),
        Expr::Not(value) => Expr::Not(Box::new(substitute_expr(value, effects))),
        Expr::ShiftLeft(value, amount) => Expr::ShiftLeft(Box::new(substitute_expr(value, effects)), Box::new(substitute_expr(amount, effects))),
        Expr::LogicalShiftRight(value, amount) => Expr::LogicalShiftRight(Box::new(substitute_expr(value, effects)), Box::new(substitute_expr(amount, effects))),
        Expr::ArithmeticShiftRight(value, amount) => Expr::ArithmeticShiftRight(Box::new(substitute_expr(value, effects)), Box::new(substitute_expr(amount, effects))),
        Expr::RotateRight(value, amount) => Expr::RotateRight(Box::new(substitute_expr(value, effects)), Box::new(substitute_expr(amount, effects))),
        Expr::Equal(lhs, rhs) => Expr::Equal(Box::new(substitute_expr(lhs, effects)), Box::new(substitute_expr(rhs, effects))),
        Expr::UnsignedLessThan(lhs, rhs) => Expr::UnsignedLessThan(Box::new(substitute_expr(lhs, effects)), Box::new(substitute_expr(rhs, effects))),
        Expr::SignedLessThan(lhs, rhs) => Expr::SignedLessThan(Box::new(substitute_expr(lhs, effects)), Box::new(substitute_expr(rhs, effects))),
        Expr::Extract { value, high, low } => Expr::Extract { value: Box::new(substitute_expr(value, effects)), high: *high, low: *low },
        Expr::Concat(values) => Expr::Concat(substitute_exprs(values, effects)),
        Expr::ZeroExtend { value, to_width } => Expr::ZeroExtend { value: Box::new(substitute_expr(value, effects)), to_width: *to_width },
        Expr::SignExtend { value, to_width } => Expr::SignExtend { value: Box::new(substitute_expr(value, effects)), to_width: *to_width },
        Expr::CountOnes(value) => Expr::CountOnes(Box::new(substitute_expr(value, effects))),
        Expr::AddCarryOut { lhs, rhs, carry_in, width } => Expr::AddCarryOut { lhs: Box::new(substitute_expr(lhs, effects)), rhs: Box::new(substitute_expr(rhs, effects)), carry_in: Box::new(substitute_expr(carry_in, effects)), width: *width },
        Expr::AddOverflow { lhs, rhs, carry_in, width } => Expr::AddOverflow { lhs: Box::new(substitute_expr(lhs, effects)), rhs: Box::new(substitute_expr(rhs, effects)), carry_in: Box::new(substitute_expr(carry_in, effects)), width: *width },
        Expr::SubCarryOut { lhs, rhs, borrow_in, width } => Expr::SubCarryOut { lhs: Box::new(substitute_expr(lhs, effects)), rhs: Box::new(substitute_expr(rhs, effects)), borrow_in: Box::new(substitute_expr(borrow_in, effects)), width: *width },
        Expr::SubOverflow { lhs, rhs, borrow_in, width } => Expr::SubOverflow { lhs: Box::new(substitute_expr(lhs, effects)), rhs: Box::new(substitute_expr(rhs, effects)), borrow_in: Box::new(substitute_expr(borrow_in, effects)), width: *width },
        Expr::Select { condition, when_true, when_false } => Expr::Select { condition: Box::new(substitute_expr(condition, effects)), when_true: Box::new(substitute_expr(when_true, effects)), when_false: Box::new(substitute_expr(when_false, effects)) },
    }
}

impl Expr {
    /// Replaces register/memory reads with guarded forwarding from prior writes.
    ///
    /// Each read becomes a latest-write-wins select chain. A previous write is
    /// visible only when its guard is true and its destination identifier equals
    /// the read identifier. Newly inserted values are not recursively
    /// substituted. Run this once per instruction-composition step; applying it
    /// repeatedly to the same prior effects can repeatedly wrap the fallback
    /// read.
    pub fn substitute(self, previous_effects: &Vec<Effect>) -> (r: Self)
        ensures
            r@ == substituted(self@, effect_views(previous_effects@)),
    {
        substitute_expr(&self, previous_effects)
    }

    /// Recursively converts an expression to a deterministic reduced form.
    ///
    /// This pass does not resolve decoded fields or derived values and does not
    /// generally evaluate constant operations; call `collapse` first for those
    /// jobs. It normalizes associative operations, rewrites subtraction into
    /// addition and multiplication by a constant into shifts and adds, and lowers
    /// `Or`, `Xor`, and `Select` to `And`/`Not`.
    ///
    /// Handles the following identities:
    ///
    /// Associative/commutative normalization:
    /// - Flatten and sort nested `Add`, `Mul`, `And`, `Or`, and `Xor` terms.
    /// - Fold constant terms of the same width.
    ///
    /// Neutral elements:
    /// - `x + 0 = x`
    /// - `x * 1 = x`
    /// - `x & all_ones = x`
    /// - `x | 0 = x`
    /// - `x ^ 0 = x`
    /// - `x - 0 = x`
    ///
    /// Absorbing elements:
    /// - `x * 0 = 0`
    /// - `x & 0 = 0`
    /// - `x | all_ones = all_ones`
    ///
    /// Idempotence and cancellation:
    /// - `x & x = x`
    /// - `x | x = x`
    /// - `x ^ x = 0`
    /// - `x - x = 0`
    /// - `x & !x = 0`
    /// - `x | !x = all_ones`
    ///
    /// Absorption:
    /// - `x & (x | y) = x`
    /// - `x | (x & y) = x`
    ///
    /// Arithmetic and logical normalization:
    /// - `x - y = x + !y + 1`
    /// - `!!x = x`
    /// - Fold `!constant`
    ///
    /// Shift and rotate identities:
    /// - Shifting or rotating by zero returns the input.
    /// - Shifting or rotating zero returns zero.
    ///
    /// Comparisons and selection:
    /// - `x == x = true` (constant(1, 1))
    /// - `x < x = false` (constant(0, 1))
    /// - `select(true, x, y) = x`
    /// - `select(false, x, y) = y`
    /// - `select(c, x, x) = x`
    ///
    /// Width and structural identities:
    /// - Extracting x bits of a value of width x returns the value itself
    /// - Extending a value of with x to x bits returns the value itself
    /// - Collapse nested extensions and adjacent constant concatenation terms.
    pub fn canonicalize(self) -> (r: Self)
        requires
            canon(self@) is Some,
        ensures
            canon(self@) == Some(r@),
    {
        self.try_canonicalize().unwrap()
    }

    /// Canonicalizes an expression, where it has a canonical form.
    pub fn try_canonicalize(self) -> (r: Option<Self>)
        ensures
            viewed_option(r) == canon(self@),
    {
        crate::canonicalize::canonicalize_expr(self)
    }

    /// Resolves instruction-dependent values, then canonicalizes the result.
    pub fn collapse_and_canonicalize(self, instruction: &DecodedInstruction) -> (r: Self)
        requires
            collapsed(self@, instruction@, instruction@.form.derived_values.len()) matches Some(e)
                && canon(e) is Some,
        ensures
            canon(
                collapsed(self@, instruction@, instruction@.form.derived_values.len())->0,
            ) == Some(r@),
    {
        self.collapse(instruction).canonicalize()
    }

    /// Resolves the current instruction, substitutes prior state writes, then
    /// canonicalizes the resulting expression.
    ///
    /// `previous_effects` must already refer to collapsed expressions in the
    /// same state coordinate system. Substitution intentionally occurs before
    /// canonicalization so inserted `Select` nodes and arithmetic can reduce.
    pub fn collapse_substitute_and_canonicalize(
        self,
        instruction: &DecodedInstruction,
        previous_effects: &Vec<Effect>,
    ) -> (r: Self)
        requires
            collapsed(self@, instruction@, instruction@.form.derived_values.len()) matches Some(e)
                && canon(substituted(e, effect_views(previous_effects@))) is Some,
        ensures
            canon(
                substituted(
                    collapsed(self@, instruction@, instruction@.form.derived_values.len())->0,
                    effect_views(previous_effects@),
                ),
            ) == Some(r@),
    {
        self.collapse(instruction).substitute(previous_effects).canonicalize()
    }
}

} // verus!
