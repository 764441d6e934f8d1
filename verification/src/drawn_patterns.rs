//! What drawn numbers and truth values make of bits, patterns and points.
use vstd::prelude::*;

use crate::bit::{Bit, BitPattern};

verus! {

/// The constant bit for a drawn number: zero for nothing, else one.
pub open spec fn constant_bit(drawn: i32) -> Bit {
    if drawn == 0 {
        Bit::Low
    } else {
        Bit::High
    }
}

/// The bit for a drawn number: zero, one, or a variable bit.
pub open spec fn any_bit(drawn: i32) -> Bit {
    if drawn == 0 {
        Bit::Low
    } else if drawn == 1 {
        Bit::High
    } else {
        Bit::Var
    }
}

/// The constant bit for a drawn truth value.
pub open spec fn truth_bit(drawn: bool) -> Bit {
    if drawn {
        Bit::High
    } else {
        Bit::Low
    }
}

/// The pattern with each variable bit replaced by the constant drawn for its place.
pub open spec fn drawn_point(pattern: Seq<Bit>, drawn: Seq<bool>) -> Seq<Bit> {
    Seq::new(
        pattern.len(),
        |i: int|
            if pattern[i] == Bit::Var {
                truth_bit(drawn[i])
            } else {
                pattern[i]
            },
    )
}

/// The constant bit for a drawn number.
pub fn bit_of_draw(drawn: i32) -> (r: Bit)
    ensures
        r == constant_bit(drawn),
{
    if drawn == 0 {
        Bit::Low
    } else {
        Bit::High
    }
}

/// The row of constant bits for drawn numbers.
pub fn constants_of_draws(drawn: &Vec<i32>) -> (r: BitPattern)
    ensures
        r@ == Seq::new(drawn@.len(), |i: int| constant_bit(drawn@[i])),
{
    let mut bits: Vec<Bit> = Vec::new();
    while bits.len() < drawn.len()
        invariant
            bits@.len() <= drawn@.len(),
            forall|i: int| 0 <= i < bits@.len() ==> #[trigger] bits@[i] == constant_bit(drawn@[i]),
        decreases drawn@.len() - bits@.len(),
    {
        bits.push(bit_of_draw(drawn[bits.len()]));
    }
    BitPattern { bits }
}

/// The row of zeros, ones and variable bits for drawn numbers.
pub fn pattern_of_draws(drawn: &Vec<i32>) -> (r: BitPattern)
    ensures
        r@ == Seq::new(drawn@.len(), |i: int| any_bit(drawn@[i])),
{
    let mut bits: Vec<Bit> = Vec::new();
    while bits.len() < drawn.len()
        invariant
            bits@.len() <= drawn@.len(),
            forall|i: int| 0 <= i < bits@.len() ==> #[trigger] bits@[i] == any_bit(drawn@[i]),
        decreases drawn@.len() - bits@.len(),
    {
        let number = drawn[bits.len()];
        let bit = if number == 0 {
            Bit::Low
        } else if number == 1 {
            Bit::High
        } else {
            Bit::Var
        };
        bits.push(bit);
    }
    BitPattern { bits }
}

/// The pattern with each variable bit replaced by the constant drawn for its place.
pub fn point_of_draws(pattern: &BitPattern, drawn: &Vec<bool>) -> (r: BitPattern)
    requires
        drawn@.len() == pattern@.len(),
    ensures
        r@ == drawn_point(pattern@, drawn@),
{
    let mut bits: Vec<Bit> = Vec::new();
    while bits.len() < pattern.bits.len()
        invariant
            bits@.len() <= pattern@.len(),
            drawn@.len() == pattern@.len(),
            forall|i: int|
                0 <= i < bits@.len() ==> #[trigger] bits@[i] == drawn_point(pattern@, drawn@)[i],
        decreases pattern@.len() - bits@.len(),
    {
        let i: usize = bits.len();
        let bit = if pattern.bits[i] != Bit::Var {
            pattern.bits[i]
        } else if drawn[i] {
            Bit::High
        } else {
            Bit::Low
        };
        bits.push(bit);
    }
    BitPattern { bits }
}

} // verus!
