//! Laws of fixed-width arithmetic: what the identities of the canonical form rest on.
use vstd::arithmetic::div_mod::{
    lemma_add_mod_noop, lemma_mod_bound, lemma_mul_mod_noop, lemma_small_mod,
};
use vstd::arithmetic::mul::{lemma_mul_is_associative, lemma_mul_is_commutative};
use vstd::arithmetic::power2::{lemma_pow2_strictly_increases, pow2};
use vstd::prelude::*;

use crate::canonical_form::opposite;
use crate::const_eval::{
    canonical, combine, is_annihilator, is_identity, lemma_canonical_is_mod, lemma_canonical_small,
    lemma_mask, mask, valid_width, AssocCommOp,
};

verus! {

/// The number is its own low part: it fits the width.
pub open spec fn fits(value: u128, width: u16) -> bool {
    valid_width(width) && canonical(value, width) == value
}

/// The word that the operator ignores.
pub open spec fn unit(op: AssocCommOp, width: u16) -> u128 {
    match op {
        AssocCommOp::Add | AssocCommOp::Or | AssocCommOp::Xor => 0,
        AssocCommOp::Mul => 1,
        AssocCommOp::And => mask(width),
    }
}

/// Bitwise operators on numbers within a mask obey the laws of Boolean algebra.
proof fn lemma_bitwise(a: u128, b: u128, c: u128, m: u128)
    by (bit_vector)
    requires
        a & m == a,
        b & m == b,
        c & m == c,
    ensures
        (a & b) & m == a & b,
        (a | b) & m == a | b,
        (a ^ b) & m == a ^ b,
        a & b == b & a,
        a | b == b | a,
        a ^ b == b ^ a,
        (a & b) & c == a & (b & c),
        (a | b) | c == a | (b | c),
        (a ^ b) ^ c == a ^ (b ^ c),
        a & m == a,
        m & m == m,
        0u128 & m == 0,
        a | 0 == a,
        a ^ 0 == a,
        a & a == a,
        a | a == a,
        a ^ a == 0,
        a & (a | b) == a,
        a | (a & b) == a,
        a & 0 == 0,
        a | m == m,
        (!a & m) & m == !a & m,
        a & (!a & m) == 0,
        a | (!a & m) == m,
        !(!a & m) & m == a,
        a ^ b == (a & (!b & m)) | ((!a & m) & b),
        a | b == !((!a & m) & (!b & m)) & m,
{
}

/// A number fits a width when it is below the power of two.
pub proof fn lemma_fits(value: u128, width: u16)
    requires
        valid_width(width),
    ensures
        fits(value, width) == (value < pow2(width as nat)),
        fits(canonical(value, width), width),
        fits(0, width),
        fits(1, width),
        fits(mask(width), width),
        mask(width) == pow2(width as nat) - 1,
        pow2(width as nat) >= 2,
        pow2(width as nat) <= u128::MAX + 1,
{
    lemma_canonical_is_mod(value, width);
    lemma_canonical_small(value, width);
    lemma_canonical_small(0, width);
    lemma_canonical_small(1, width);
    lemma_mask(width);
    lemma_canonical_small(mask(width), width);
    assert(pow2(0) == 1 && pow2(1) == 2) by {
        vstd::arithmetic::power2::lemma2_to64();
    }
    if width > 1 {
        lemma_pow2_strictly_increases(1, width as nat);
    }
}

/// Sums and products modulo a number make a commutative monoid.
proof fn lemma_modular(a: int, b: int, c: int, p: int)
    requires
        p > 0,
    ensures
        (((a + b) % p) + c) % p == (a + ((b + c) % p)) % p,
        (((a * b) % p) * c) % p == (a * ((b * c) % p)) % p,
        a * b == b * a,
{
    lemma_add_mod_noop(a + b, c, p);
    lemma_add_mod_noop((a + b) % p, c, p);
    lemma_add_mod_noop(a, b + c, p);
    lemma_add_mod_noop(a, (b + c) % p, p);
    vstd::arithmetic::div_mod::lemma_mod_twice(a + b, p);
    vstd::arithmetic::div_mod::lemma_mod_twice(b + c, p);
    lemma_mul_mod_noop(a * b, c, p);
    lemma_mul_mod_noop((a * b) % p, c, p);
    lemma_mul_mod_noop(a, b * c, p);
    lemma_mul_mod_noop(a, (b * c) % p, p);
    vstd::arithmetic::div_mod::lemma_mod_twice(a * b, p);
    vstd::arithmetic::div_mod::lemma_mod_twice(b * c, p);
    lemma_mul_is_associative(a, b, c);
    lemma_mul_is_commutative(a, b);
}

/// An associative operator maps words of a width to words of the width.
pub proof fn lemma_combine_fits(op: AssocCommOp, a: u128, b: u128, width: u16)
    requires
        fits(a, width),
        fits(b, width),
    ensures
        fits(combine(op, a, b, width), width),
        op == AssocCommOp::Add ==> combine(op, a, b, width) == (a + b) % pow2(width as nat) as int,
        op == AssocCommOp::Mul ==> combine(op, a, b, width) == (a * b) % pow2(width as nat) as int,
        op == AssocCommOp::And ==> combine(op, a, b, width) == a & b,
        op == AssocCommOp::Or ==> combine(op, a, b, width) == a | b,
        op == AssocCommOp::Xor ==> combine(op, a, b, width) == a ^ b,
{
    lemma_fits(a, width);
    lemma_bitwise(a, b, b, mask(width));
    let p = pow2(width as nat) as int;
    lemma_mod_bound(a + b, p);
    lemma_mod_bound(a * b, p);
    lemma_fits(combine(op, a, b, width), width);
}

/// The operators are commutative and associative.
pub proof fn lemma_combine_monoid(op: AssocCommOp, a: u128, b: u128, c: u128, width: u16)
    requires
        fits(a, width),
        fits(b, width),
        fits(c, width),
    ensures
        combine(op, a, b, width) == combine(op, b, a, width),
        combine(op, combine(op, a, b, width), c, width) == combine(
            op,
            a,
            combine(op, b, c, width),
            width,
        ),
{
    lemma_combine_fits(op, a, b, width);
    lemma_combine_fits(op, b, a, width);
    lemma_combine_fits(op, b, c, width);
    lemma_combine_fits(op, combine(op, a, b, width), c, width);
    lemma_combine_fits(op, a, combine(op, b, c, width), width);
    lemma_bitwise(a, b, c, mask(width));
    lemma_fits(a, width);
    lemma_modular(a as int, b as int, c as int, pow2(width as nat) as int);
}

/// The unit of an operator fits the width and is ignored.
pub proof fn lemma_combine_unit(op: AssocCommOp, a: u128, width: u16)
    requires
        fits(a, width),
    ensures
        fits(unit(op, width), width),
        combine(op, a, unit(op, width), width) == a,
        combine(op, unit(op, width), a, width) == a,
        is_identity(op, a, width) == (a == unit(op, width)),
{
    lemma_fits(a, width);
    lemma_bitwise(a, a, a, mask(width));
    lemma_combine_fits(op, a, unit(op, width), width);
    lemma_combine_monoid(op, a, unit(op, width), a, width);
    lemma_small_mod(a as nat, pow2(width as nat));
}

/// A determining word alone decides the result.
pub proof fn lemma_combine_annihilator(op: AssocCommOp, a: u128, b: u128, width: u16)
    requires
        fits(a, width),
        fits(b, width),
        is_annihilator(op, b, width),
    ensures
        combine(op, a, b, width) == b,
{
    lemma_combine_fits(op, a, b, width);
    lemma_fits(a, width);
    lemma_bitwise(a, b, b, mask(width));
    lemma_small_mod(0, pow2(width as nat));
}

/// Conjunction and disjunction ignore repetitions and absorb each other, and a word and its
/// complement determine them; equal words cancel in an exclusive disjunction.
pub proof fn lemma_combine_boolean(op: AssocCommOp, a: u128, b: u128, width: u16)
    requires
        fits(a, width),
        fits(b, width),
    ensures
        op == AssocCommOp::And || op == AssocCommOp::Or ==> {
            &&& combine(op, a, a, width) == a
            &&& combine(op, a, combine(opposite(op), a, b, width), width) == a
        },
        combine(AssocCommOp::And, a, canonical(!a, width), width) == 0,
        combine(AssocCommOp::Or, a, canonical(!a, width), width) == mask(width),
        combine(AssocCommOp::Xor, a, a, width) == 0,
        fits(canonical(!a, width), width),
        canonical(!canonical(!a, width), width) == a,
        combine(AssocCommOp::Or, a, b, width) == canonical(
            !combine(AssocCommOp::And, canonical(!a, width), canonical(!b, width), width),
            width,
        ),
        combine(AssocCommOp::Xor, a, b, width) == combine(
            AssocCommOp::Or,
            combine(AssocCommOp::And, a, canonical(!b, width), width),
            combine(AssocCommOp::And, canonical(!a, width), b, width),
            width,
        ),
{
    let m = mask(width);
    let na = canonical(!a, width);
    let nb = canonical(!b, width);
    lemma_bitwise(a, b, b, m);
    lemma_bitwise(b, a, a, m);
    assert(fits(na, width));
    assert(fits(nb, width));
    lemma_combine_fits(AssocCommOp::And, a, a, width);
    lemma_combine_fits(AssocCommOp::Or, a, a, width);
    lemma_combine_fits(AssocCommOp::Xor, a, a, width);
    lemma_combine_fits(AssocCommOp::And, a, b, width);
    lemma_combine_fits(AssocCommOp::Or, a, b, width);
    lemma_combine_fits(AssocCommOp::And, a, combine(AssocCommOp::Or, a, b, width), width);
    lemma_combine_fits(AssocCommOp::Or, a, combine(AssocCommOp::And, a, b, width), width);
    lemma_combine_fits(AssocCommOp::And, a, na, width);
    lemma_combine_fits(AssocCommOp::Or, a, na, width);
    lemma_combine_fits(AssocCommOp::And, na, nb, width);
    lemma_combine_fits(AssocCommOp::And, a, nb, width);
    lemma_combine_fits(AssocCommOp::And, na, b, width);
    lemma_combine_fits(AssocCommOp::Xor, a, b, width);
    lemma_combine_fits(
        AssocCommOp::Or,
        combine(AssocCommOp::And, a, nb, width),
        combine(AssocCommOp::And, na, b, width),
        width,
    );
}

} // verus!
