//! Laws of the operators on bits that may be unknown.
use vstd::prelude::*;

use crate::bit::{bit_accepts, Bit};

verus! {

/// An operator on unknown bits accepts whatever it makes of the values that they may have.
pub proof fn lemma_operators_cover(a: Bit, b: Bit, x: Bit, y: Bit)
    requires
        x.concrete(),
        y.concrete(),
        bit_accepts(a, x),
        bit_accepts(b, y),
    ensures
        bit_accepts(a.negated(), x.negated()),
        bit_accepts(a.conjoined(b), x.conjoined(y)),
        bit_accepts(a.disjoined(b), x.disjoined(y)),
        bit_accepts(a.exclusive(b), x.exclusive(y)),
{
}

/// The operators are commutative and associative, also on unknown bits.
pub proof fn lemma_operators_commute(a: Bit, b: Bit, c: Bit)
    ensures
        a.conjoined(b) == b.conjoined(a),
        a.disjoined(b) == b.disjoined(a),
        a.exclusive(b) == b.exclusive(a),
        a.conjoined(b).conjoined(c) == a.conjoined(b.conjoined(c)),
        a.disjoined(b).disjoined(c) == a.disjoined(b.disjoined(c)),
        a.exclusive(b).exclusive(c) == a.exclusive(b.exclusive(c)),
{
}

/// Negation undoes itself and exchanges conjunction and disjunction.
pub proof fn lemma_negation(a: Bit, b: Bit)
    ensures
        a.negated().negated() == a,
        a.conjoined(b).negated() == a.negated().disjoined(b.negated()),
        a.disjoined(b).negated() == a.negated().conjoined(b.negated()),
        a.exclusive(b).negated() == a.negated().exclusive(b),
{
}

} // verus!
