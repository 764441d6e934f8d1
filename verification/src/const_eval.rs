//! Fixed-width arithmetic on `u128` words: what the operators compute on constants.
use vstd::arithmetic::power2::{lemma_pow2_unfold, pow2};
use vstd::prelude::*;

verus! {

/// A width that a word can have.
pub open spec fn valid_width(width: u16) -> bool {
    1 <= width <= 128
}

/// The word with the low `width` bits set.
pub open spec fn mask(width: u16) -> u128 {
    if width >= 128 {
        u128::MAX
    } else {
        ((1u128 << width) - 1) as u128
    }
}

/// The low `width` bits of `value`.
pub open spec fn canonical(value: u128, width: u16) -> u128 {
    value & mask(width)
}

/// The word with only the most significant bit of `width` bits set.
pub open spec fn top_bit(width: u16) -> u128 {
    1u128 << ((width - 1) as u16)
}

/// The word is negative when read in two's complement.
pub open spec fn negative(value: u128, width: u16) -> bool {
    value & top_bit(width) != 0
}

/// The low `width` bits of `value` read in two's complement.
pub open spec fn signed(value: u128, width: u16) -> int {
    if negative(value, width) {
        canonical(value, width) - pow2(width as nat)
    } else {
        canonical(value, width) as int
    }
}

/// Sign extension from one width to another.
pub open spec fn sign_extended(value: u128, from_width: u16, to_width: u16) -> u128 {
    if negative(value, from_width) {
        canonical(value, from_width) | (mask(to_width) ^ mask(from_width))
    } else {
        canonical(value, from_width)
    }
}

/// Left shift; everything is shifted out by an amount of at least the width.
pub open spec fn shifted_left(value: u128, amount: u128, width: u16) -> u128 {
    if amount >= width {
        0
    } else {
        canonical(canonical(value, width) << amount, width)
    }
}

/// Right shift with zeros; everything is shifted out by an amount of at least the width.
pub open spec fn shifted_right(value: u128, amount: u128, width: u16) -> u128 {
    if amount >= width {
        0
    } else {
        canonical(value, width) >> amount
    }
}

/// Right shift with copies of the sign bit.
pub open spec fn shifted_right_signed(value: u128, amount: u128, width: u16) -> u128 {
    let fill = if amount >= width {
        mask(width)
    } else {
        mask(width) ^ (mask(width) >> amount)
    };
    if negative(value, width) {
        shifted_right(value, amount, width) | fill
    } else {
        shifted_right(value, amount, width)
    }
}

/// Right rotation by the amount modulo the width.
pub open spec fn rotated_right(value: u128, amount: u128, width: u16) -> u128 {
    let shift = (amount as int % width as int) as u128;
    if shift == 0 {
        canonical(value, width)
    } else {
        canonical(
            (canonical(value, width) >> shift) | (canonical(value, width) << ((width - shift) as u128)),
            width,
        )
    }
}

/// The number of set bits.
pub open spec fn ones(value: u128) -> nat
    decreases value,
{
    if value == 0 {
        0
    } else {
        ones(value / 2) + (value % 2) as nat
    }
}

/// The sum of the two words and the carry does not fit the width.
pub open spec fn carries(lhs: u128, rhs: u128, carry_in: u128, width: u16) -> bool {
    canonical(lhs, width) + canonical(rhs, width) + canonical(carry_in, 1) >= pow2(width as nat)
}

/// The difference of the two words and the borrow needs no borrow itself.
pub open spec fn borrows_not(lhs: u128, rhs: u128, borrow_in: u128, width: u16) -> bool {
    canonical(lhs, width) >= canonical(rhs, width) + canonical(borrow_in, 1)
}

/// An integer has no two's complement representation in the width.
pub open spec fn out_of_signed_range(value: int, width: u16) -> bool {
    value < -pow2((width - 1) as nat) || value >= pow2((width - 1) as nat)
}

/// The signed sum of the two words and the carry leaves the signed range.
pub open spec fn add_overflows(lhs: u128, rhs: u128, carry_in: u128, width: u16) -> bool {
    out_of_signed_range(signed(lhs, width) + signed(rhs, width) + canonical(carry_in, 1), width)
}

/// The signed difference of the two words and the borrow leaves the signed range.
pub open spec fn sub_overflows(lhs: u128, rhs: u128, borrow_in: u128, width: u16) -> bool {
    out_of_signed_range(signed(lhs, width) - signed(rhs, width) - canonical(borrow_in, 1), width)
}

/// The mask is one less than a power of two, and the top bit is half of that power.
pub proof fn lemma_mask(width: u16)
    requires
        valid_width(width),
    ensures
        mask(width) == pow2(width as nat) - 1,
        top_bit(width) == pow2((width - 1) as nat),
        pow2(width as nat) == 2 * pow2((width - 1) as nat),
        width < 128 ==> 1u128 << width == pow2(width as nat),
    decreases width,
{
    lemma_pow2_unfold(width as nat);
    if width == 1 {
        assert(pow2(0) == 1) by {
            vstd::arithmetic::power2::lemma2_to64();
        }
        assert(1u128 << 0u16 == 1u128 && 1u128 << 1u16 == 2u128) by (bit_vector);
    } else {
        let prev = (width - 1) as u16;
        lemma_mask(prev);
        if width < 128 {
            assert(1u128 << width == 2 * (1u128 << ((width - 1) as u16))) by (bit_vector)
                requires
                    2 <= width < 128,
            ;
        } else {
            assert(1u128 << 127u16 == 0x8000_0000_0000_0000_0000_0000_0000_0000u128) by (bit_vector);
        }
    }
}

/// Taking the low bits of a word is taking it modulo a power of two.
pub proof fn lemma_canonical_is_mod(value: u128, width: u16)
    requires
        valid_width(width),
    ensures
        canonical(value, width) == value as nat % pow2(width as nat),
        canonical(value, width) <= mask(width),
        canonical(value, width) < pow2(width as nat),
    decreases width,
{
    lemma_mask(width);
    let m = mask(width);
    assert(value & m == ((value / 2) & (m / 2)) * 2 + ((value % 2) & (m % 2))) by (bit_vector);
    assert((value % 2) & 1 == value % 2) by (bit_vector);
    if width == 1 {
        assert(pow2(1) == 2) by {
            vstd::arithmetic::power2::lemma2_to64();
        }
        assert((value / 2) & 0 == 0) by (bit_vector);
    } else {
        let prev = (width - 1) as u16;
        lemma_mask(prev);
        assert(m / 2 == mask(prev));
        assert(m % 2 == 1);
        lemma_canonical_is_mod(value / 2, prev);
        let p = pow2(prev as nat) as int;
        assert(value as int % (2 * p) == 2 * ((value as int / 2) % p) + value as int % 2) by {
            vstd::arithmetic::div_mod::lemma_mod_breakdown(value as int, 2, p);
        }
    }
}

/// A word below the power of two is its own low part.
pub proof fn lemma_canonical_small(value: u128, width: u16)
    requires
        valid_width(width),
    ensures
        value < pow2(width as nat) ==> canonical(value, width) == value,
        canonical(canonical(value, width), width) == canonical(value, width),
{
    lemma_canonical_is_mod(value, width);
    lemma_canonical_is_mod(canonical(value, width), width);
    if value < pow2(width as nat) {
        vstd::arithmetic::div_mod::lemma_small_mod(value as nat, pow2(width as nat));
    }
    vstd::arithmetic::div_mod::lemma_small_mod(canonical(value, width) as nat, pow2(width as nat));
}

/// A word is negative when its low part reaches the upper half of its range.
pub proof fn lemma_negative(value: u128, width: u16)
    requires
        valid_width(width),
    ensures
        negative(value, width) == (canonical(value, width) >= pow2((width - 1) as nat)),
        negative(canonical(value, width), width) == negative(value, width),
        -pow2((width - 1) as nat) <= signed(value, width) < pow2((width - 1) as nat),
{
    lemma_mask(width);
    lemma_canonical_is_mod(value, width);
    let m = mask(width);
    let t = top_bit(width);
    let c = value & m;
    assert(m == t + (t - 1));
    let k = (width - 1) as u16;
    assert((c & t == 0) == (value & t == 0) && (c & t != 0) == (c >= t)) by (bit_vector)
        requires
            c == value & m,
            m == t + (t - 1),
            t == 1u128 << k,
            k < 128,
    ;
}

/// Associative and commutative operators.
#[derive(Clone, Copy, Debug, PartialEq, Eq, Structural)]
pub enum AssocCommOp {
    Add,
    Mul,
    And,
    Or,
    Xor,
}

/// What an associative and commutative operator makes of two words of the width.
pub open spec fn combine(op: AssocCommOp, lhs: u128, rhs: u128, width: u16) -> u128 {
    match op {
        AssocCommOp::Add => ((lhs + rhs) % pow2(width as nat) as int) as u128,
        AssocCommOp::Mul => ((lhs * rhs) % pow2(width as nat) as int) as u128,
        AssocCommOp::And => canonical(lhs & rhs, width),
        AssocCommOp::Or => canonical(lhs | rhs, width),
        AssocCommOp::Xor => canonical(lhs ^ rhs, width),
    }
}

/// The word that the operator ignores.
pub open spec fn is_identity(op: AssocCommOp, value: u128, width: u16) -> bool {
    match op {
        AssocCommOp::Add | AssocCommOp::Or | AssocCommOp::Xor => value == 0,
        AssocCommOp::Mul => value == 1,
        AssocCommOp::And => value == mask(width),
    }
}

/// The word that alone determines the operator's result.
pub open spec fn is_annihilator(op: AssocCommOp, value: u128, width: u16) -> bool {
    match op {
        AssocCommOp::Mul | AssocCommOp::And => value == 0,
        AssocCommOp::Or => value == mask(width),
        AssocCommOp::Add | AssocCommOp::Xor => false,
    }
}

/// The difference of two words, modulo the width.
pub open spec fn difference(lhs: u128, rhs: u128, width: u16) -> u128 {
    ((lhs - rhs) % pow2(width as nat) as int) as u128
}

/// The complement of a word within the width.
pub open spec fn complement(value: u128, width: u16) -> u128 {
    canonical(!value, width)
}

/// The range of all words is a multiple of the range of the words of a width.
proof fn lemma_range(width: u16)
    requires
        valid_width(width),
    ensures
        pow2(width as nat) > 0,
        pow2(width as nat) <= (u128::MAX + 1),
        forall|x: int|
            (#[trigger] (x % (u128::MAX + 1))) % pow2(width as nat) as int
                == x % pow2(width as nat) as int,
{
    lemma_mask(width);
    lemma_mask(128);
    let p = pow2(width as nat) as int;
    let q = pow2((128 - width) as nat) as int;
    vstd::arithmetic::power2::lemma_pow2_adds(width as nat, (128 - width) as nat);
    vstd::arithmetic::power2::lemma_pow2_pos((128 - width) as nat);
    vstd::arithmetic::power2::lemma_pow2_pos(width as nat);
    assert forall|x: int|
        (#[trigger] (x % (u128::MAX + 1))) % p == x % p by {
        vstd::arithmetic::div_mod::lemma_mod_mod(x, p, q);
    }
}

/// Reducing an integer to a word and then to the width is reducing it to the width.
pub(crate) proof fn lemma_reduced_word(word: u128, exact: int, width: u16)
    requires
        valid_width(width),
        word == exact % (u128::MAX + 1),
    ensures
        canonical(word, width) == exact % pow2(width as nat) as int,
        0 <= exact % pow2(width as nat) as int <= u128::MAX,
{
    lemma_range(width);
    lemma_mask(width);
    lemma_canonical_is_mod(word, width);
}

/// Returns a mask with the low `width` bits set.
pub fn bit_mask(width: u16) -> (r: u128)
    requires
        valid_width(width),
    ensures
        r == mask(width),
        r == pow2(width as nat) - 1,
{
    proof {
        lemma_mask(width);
    }
    if width == 128 {
        u128::MAX
    } else {
        (1u128 << width) - 1
    }
}

/// Returns the most-significant bit mask for a value of `width` bits.
pub(crate) fn sign_bit(width: u16) -> (r: u128)
    requires
        valid_width(width),
    ensures
        r == top_bit(width),
{
    1u128 << (width - 1)
}

/// Truncates `value` to the requested bit-vector width.
pub(crate) fn canonical_word(value: u128, width: u16) -> (r: u128)
    requires
        valid_width(width),
    ensures
        r == canonical(value, width),
        r <= mask(width),
        r < pow2(width as nat),
{
    proof {
        lemma_canonical_is_mod(value, width);
    }
    value & bit_mask(width)
}

/// Evaluates sign extension to a width that is not smaller.
pub(crate) fn sign_extend_const(value: u128, from_width: u16, to_width: u16) -> (r: u128)
    requires
        valid_width(from_width),
        from_width <= to_width <= 128,
    ensures
        r == sign_extended(value, from_width, to_width),
{
    let low = canonical_word(value, from_width);
    proof {
        lemma_negative(value, from_width);
    }
    if low & sign_bit(from_width) == 0 {
        low
    } else {
        low | (bit_mask(to_width) ^ bit_mask(from_width))
    }
}

/// Evaluates a logical left shift, returning zero for oversized amounts.
pub(crate) fn shift_left_const(value: u128, amount: u128, width: u16) -> (r: u128)
    requires
        valid_width(width),
    ensures
        r == shifted_left(value, amount, width),
{
    if amount >= width as u128 {
        0
    } else {
        canonical_word(canonical_word(value, width) << amount, width)
    }
}

/// Evaluates a logical right shift, returning zero for oversized amounts.
pub(crate) fn logical_shift_right_const(value: u128, amount: u128, width: u16) -> (r: u128)
    requires
        valid_width(width),
    ensures
        r == shifted_right(value, amount, width),
{
    if amount >= width as u128 {
        0
    } else {
        canonical_word(value, width) >> amount
    }
}

/// Evaluates an arithmetic right shift with sign fill.
pub(crate) fn arithmetic_shift_right_const(value: u128, amount: u128, width: u16) -> (r: u128)
    requires
        valid_width(width),
    ensures
        r == shifted_right_signed(value, amount, width),
{
    let shifted = logical_shift_right_const(value, amount, width);
    if value & sign_bit(width) == 0 {
        shifted
    } else if amount >= width as u128 {
        shifted | bit_mask(width)
    } else {
        shifted | (bit_mask(width) ^ (bit_mask(width) >> amount))
    }
}

/// Evaluates rotate-right with the amount reduced modulo `width`.
pub(crate) fn rotate_right_const(value: u128, amount: u128, width: u16) -> (r: u128)
    requires
        valid_width(width),
    ensures
        r == rotated_right(value, amount, width),
{
    let low = canonical_word(value, width);
    let shift: u128 = amount % (width as u128);
    if shift == 0 {
        low
    } else {
        canonical_word((low >> shift) | (low << (width as u128 - shift)), width)
    }
}

/// Counts the set bits of a word.
pub(crate) fn count_ones_const(value: u128) -> (r: u128)
    ensures
        r == ones(value),
        r <= 128,
{
    let mut rest: u128 = value;
    let mut n: u128 = 0;
    let mut left: u16 = 128;
    proof {
        lemma_mask(128);
    }
    while rest != 0
        invariant
            left <= 128,
            n + left <= 128,
            rest < pow2(left as nat),
            n + ones(rest) == ones(value),
        decreases rest,
    {
        proof {
            if left == 0 {
                assert(pow2(0) == 1) by {
                    vstd::arithmetic::power2::lemma2_to64();
                }
            } else {
                lemma_pow2_unfold(left as nat);
            }
        }
        n = n + rest % 2;
        rest = rest / 2;
        left = left - 1;
    }
    n
}

/// Evaluates unsigned carry-out from `lhs + rhs + carry_in`.
pub(crate) fn add_carry_out_const(lhs: u128, rhs: u128, carry_in: u128, width: u16) -> (r: bool)
    requires
        valid_width(width),
    ensures
        r == carries(lhs, rhs, carry_in, width),
{
    let l = canonical_word(lhs, width);
    let r = canonical_word(rhs, width);
    let c = canonical_word(carry_in, 1);
    let m = bit_mask(width);
    proof {
        lemma_mask(1);
        lemma_mask(width);
        assert(pow2(1) == 2) by {
            vstd::arithmetic::power2::lemma2_to64();
        }
    }
    // l + r + c > m, without leaving the word.
    if l > m - r {
        true
    } else {
        c > m - r - l
    }
}

/// Evaluates architectural subtraction carry, meaning “no borrow.”
pub(crate) fn sub_carry_out_const(lhs: u128, rhs: u128, borrow_in: u128, width: u16) -> (r: bool)
    requires
        valid_width(width),
    ensures
        r == borrows_not(lhs, rhs, borrow_in, width),
{
    let l = canonical_word(lhs, width);
    let r = canonical_word(rhs, width);
    let b = canonical_word(borrow_in, 1);
    l >= r && l - r >= b
}

/// Evaluates signed overflow from `lhs + rhs + carry_in`.
pub(crate) fn add_overflow_const(lhs: u128, rhs: u128, carry_in: u128, width: u16) -> (r: bool)
    requires
        valid_width(width),
    ensures
        r == add_overflows(lhs, rhs, carry_in, width),
{
    let l = canonical_word(lhs, width);
    let r = canonical_word(rhs, width);
    let c = canonical_word(carry_in, 1);
    let sum = l.wrapping_add(r).wrapping_add(c);
    let result = canonical_word(sum, width);
    let sign = sign_bit(width);
    proof {
        lemma_mask(1);
        lemma_mask(width);
        assert(pow2(1) == 2) by {
            vstd::arithmetic::power2::lemma2_to64();
        }
        lemma_negative(lhs, width);
        lemma_negative(rhs, width);
        lemma_negative(sum, width);
        lemma_reduced_word(sum, l + r + c, width);
        let p = pow2(width as nat) as int;
        assert(result == (l + r + c) % p);
        if l + r + c < p {
            vstd::arithmetic::div_mod::lemma_small_mod((l + r + c) as nat, p as nat);
        } else {
            vstd::arithmetic::div_mod::lemma_mod_sub_multiples_vanish((l + r + c) as int, p);
            vstd::arithmetic::div_mod::lemma_small_mod((l + r + c - p) as nat, p as nat);
        }
    }
    let l_negative = l & sign != 0;
    let r_negative = r & sign != 0;
    let result_negative = result & sign != 0;
    l_negative == r_negative && result_negative != l_negative
}

/// Evaluates signed overflow from `lhs - rhs - borrow_in`.
pub(crate) fn sub_overflow_const(lhs: u128, rhs: u128, borrow_in: u128, width: u16) -> (r: bool)
    requires
        valid_width(width),
    ensures
        r == sub_overflows(lhs, rhs, borrow_in, width),
{
    let l = canonical_word(lhs, width);
    let r = canonical_word(rhs, width);
    let b = canonical_word(borrow_in, 1);
    let diff = l.wrapping_sub(r).wrapping_sub(b);
    let result = canonical_word(diff, width);
    let sign = sign_bit(width);
    proof {
        lemma_mask(1);
        lemma_mask(width);
        assert(pow2(1) == 2) by {
            vstd::arithmetic::power2::lemma2_to64();
        }
        lemma_negative(lhs, width);
        lemma_negative(rhs, width);
        lemma_negative(diff, width);
        lemma_reduced_word(diff, l - r - b, width);
        let p = pow2(width as nat) as int;
        assert(result == (l - r - b) % p);
        if l - r - b >= 0 {
            vstd::arithmetic::div_mod::lemma_small_mod((l - r - b) as nat, p as nat);
        } else {
            vstd::arithmetic::div_mod::lemma_mod_add_multiples_vanish((l - r - b) as int, p);
            vstd::arithmetic::div_mod::lemma_small_mod((l - r - b + p) as nat, p as nat);
        }
    }
    let l_negative = l & sign != 0;
    let r_negative = r & sign != 0;
    let result_negative = result & sign != 0;
    l_negative != r_negative && result_negative != l_negative
}

/// Compares two words in two's complement.
pub(crate) fn signed_less_const(lhs: u128, rhs: u128, width: u16) -> (r: bool)
    requires
        valid_width(width),
    ensures
        r == (signed(lhs, width) < signed(rhs, width)),
{
    let l = canonical_word(lhs, width);
    let r = canonical_word(rhs, width);
    let sign = sign_bit(width);
    proof {
        lemma_mask(width);
        lemma_negative(lhs, width);
        lemma_negative(rhs, width);
    }
    let l_negative = l & sign != 0;
    let r_negative = r & sign != 0;
    if l_negative == r_negative {
        l < r
    } else {
        l_negative
    }
}

/// Evaluates one associative/commutative operation on two words.
pub(crate) fn fold_assoc_comm_const(op: AssocCommOp, lhs: u128, rhs: u128, width: u16) -> (r: u128)
    requires
        valid_width(width),
    ensures
        r == combine(op, lhs, rhs, width),
        r <= mask(width),
{
    proof {
        lemma_mask(width);
        if op == AssocCommOp::Add {
            lemma_reduced_word(lhs.wrapping_add(rhs), lhs + rhs, width);
        }
        if op == AssocCommOp::Mul {
            lemma_reduced_word(lhs.wrapping_mul(rhs), lhs * rhs, width);
        }
    }
    let word: u128 = match op {
        AssocCommOp::Add => lhs.wrapping_add(rhs),
        AssocCommOp::Mul => lhs.wrapping_mul(rhs),
        AssocCommOp::And => lhs & rhs,
        AssocCommOp::Or => lhs | rhs,
        AssocCommOp::Xor => lhs ^ rhs,
    };
    canonical_word(word, width)
}

/// Evaluates subtraction on two words.
pub(crate) fn difference_const(lhs: u128, rhs: u128, width: u16) -> (r: u128)
    requires
        valid_width(width),
    ensures
        r == difference(lhs, rhs, width),
{
    proof {
        lemma_reduced_word(lhs.wrapping_sub(rhs), lhs - rhs, width);
    }
    canonical_word(lhs.wrapping_sub(rhs), width)
}

/// Reports whether `value` is the neutral element for `op`.
pub(crate) fn is_assoc_comm_identity(op: AssocCommOp, value: u128, width: u16) -> (r: bool)
    requires
        valid_width(width),
    ensures
        r == is_identity(op, value, width),
{
    match op {
        AssocCommOp::Add | AssocCommOp::Or | AssocCommOp::Xor => value == 0,
        AssocCommOp::Mul => value == 1,
        AssocCommOp::And => value == bit_mask(width),
    }
}

/// Reports whether `value` determines the result of `op`.
pub(crate) fn is_assoc_comm_annihilator(op: AssocCommOp, value: u128, width: u16) -> (r: bool)
    requires
        valid_width(width),
    ensures
        r == is_annihilator(op, value, width),
{
    match op {
        AssocCommOp::Mul | AssocCommOp::And => value == 0,
        AssocCommOp::Or => value == bit_mask(width),
        AssocCommOp::Add | AssocCommOp::Xor => false,
    }
}

} // verus!
