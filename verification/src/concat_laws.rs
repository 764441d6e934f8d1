//! Why merging neighbouring literals keeps what a concatenation means.
use vstd::arithmetic::div_mod::lemma_small_mod;
use vstd::arithmetic::power2::{lemma_pow2_adds, pow2};
use vstd::prelude::*;

use crate::canonical_form::{joined, lit, merge_chunks};
use crate::const_eval::{canonical, lemma_canonical_small, mask, valid_width};
use crate::evaluation::{
    eval, eval_chunks, is_word, joined_word, lemma_eval_is_word, word, State, Word,
};
use crate::instruction_semantics::ExprV;
use crate::product_laws::lemma_shl;
use crate::word_laws::lemma_fits;

verus! {

/// The number of two joined words is exact.
proof fn lemma_joined_exact(a: Word, b: Word)
    requires
        is_word(a),
        is_word(b),
        a.width + b.width <= 128,
    ensures
        joined_word(Some(a), Some(b)) == Some(
            Word {
                value: (a.value * pow2(b.width as nat) + b.value) as u128,
                width: (a.width + b.width) as u16,
            },
        ),
        0 <= a.value * pow2(b.width as nat) + b.value < pow2((a.width + b.width) as nat),
        pow2((a.width + b.width) as nat) <= u128::MAX + 1,
        is_word(joined_word(Some(a), Some(b))->0),
{
    let w = (a.width + b.width) as u16;
    let pa = pow2(a.width as nat) as int;
    let pb = pow2(b.width as nat) as int;
    lemma_pow2_adds(a.width as nat, b.width as nat);
    assert(0 <= a.value * pb <= (pa - 1) * pb && (pa - 1) * pb == pa * pb - pb)
        by (nonlinear_arith)
        requires
            0 <= a.value <= pa - 1,
            pb >= 0,
    ;
    lemma_fits(0, w);
    let value = (a.value * pb + b.value) as u128;
    lemma_fits(value, w);
}

/// Joining three words does not depend on which two are joined first.
proof fn lemma_joined_associative(a: Word, b: Word, c: Word)
    requires
        is_word(a),
        is_word(b),
        is_word(c),
        a.width + b.width + c.width <= 128,
    ensures
        joined_word(joined_word(Some(a), Some(b)), Some(c)) == joined_word(
            Some(a),
            joined_word(Some(b), Some(c)),
        ),
{
    lemma_joined_exact(a, b);
    lemma_joined_exact(b, c);
    let ab = joined_word(Some(a), Some(b))->0;
    let bc = joined_word(Some(b), Some(c))->0;
    let pb = pow2(b.width as nat) as int;
    let pc = pow2(c.width as nat) as int;
    lemma_pow2_adds(b.width as nat, c.width as nat);
    assert((a.value * pb + b.value) * pc + c.value == a.value * (pb * pc) + (b.value * pc
        + c.value)) by (nonlinear_arith);
}

/// Two literals put together by shifting make the joined word.
proof fn lemma_shift_joins(above: u128, above_width: u16, value: u128, width: u16)
    requires
        valid_width(above_width),
        valid_width(width),
        above_width + width <= 128,
    ensures
        ({
            let total = (above_width + width) as u16;
            word(
                canonical(
                    (canonical(above, above_width) << width) | canonical(value, width),
                    total,
                ),
                total,
            ) == joined_word(word(above, above_width), word(value, width))
        }),
{
    let a = canonical(above, above_width);
    let b = canonical(value, width);
    let total = (above_width + width) as u16;
    lemma_fits(above, above_width);
    lemma_fits(a, above_width);
    lemma_fits(value, width);
    lemma_fits(b, width);
    let wa = Word { value: a, width: above_width };
    let wb = Word { value: b, width };
    lemma_joined_exact(wa, wb);
    crate::const_eval::lemma_mask(width);
    let m = mask(width);
    lemma_shl(a, width as u128);
    lemma_small_mod((a * pow2(width as nat)) as nat, (u128::MAX + 1) as nat);
    assert(a << width == a << (width as u128)) by (bit_vector);
    assert((a << width) | b == (a << width) + b) by (bit_vector)
        requires
            width < 128,
            m == ((1u128 << width) - 1),
            b & m == b,
    ;
    lemma_fits((a << width) | b, total);
}

/// Chunks with neighbouring literals merged mean the same.
pub proof fn lemma_merge(chunks: Seq<ExprV>, state: State)
    requires
        eval_chunks(chunks, state) is Some,
        merge_chunks(chunks) is Some,
    ensures
        merge_chunks(chunks)->0.len() > 0,
        eval_chunks(merge_chunks(chunks)->0, state) == eval_chunks(chunks, state),
    decreases chunks.len(),
{
    let front = chunks.drop_last();
    let last = chunks.last();
    let before = merge_chunks(front)->0;
    let merged = merge_chunks(chunks)->0;
    lemma_eval_is_word(last, state);
    let b = eval(last, state);
    if last is Const {
        let fresh = lit(canonical(last->Const_value, last->Const_width), last->Const_width);
        lemma_canonical_small(last->Const_value, last->Const_width);
        assert(eval(fresh, state) == b);
    }
    if chunks.len() == 1 {
        assert(front =~= Seq::empty());
        assert(merge_chunks(front) == Some(Seq::<ExprV>::empty()));
        assert(merged.len() == 1);
    } else {
        lemma_merge(front, state);
        let a = eval_chunks(front, state);
        assert(joined_word(a, b) == eval_chunks(chunks, state));
        if last is Const && before.last() is Const {
            let above = before.last();
            let whole = merged.last();
            let rest = before.drop_last();
            assert(merged == rest.push(whole));
            lemma_shift_joins(
                above->Const_value,
                above->Const_width,
                last->Const_value,
                last->Const_width,
            );
            assert(eval(whole, state) == joined_word(eval(above, state), b));
            if before.len() == 1 {
                assert(rest =~= Seq::empty());
                assert(merged =~= seq![whole]);
            } else {
                assert(merged.drop_last() =~= rest);
                let top = eval_chunks(rest, state);
                lemma_chunks_word(rest, state);
                lemma_eval_is_word(above, state);
                lemma_joined_associative(top->0, eval(above, state)->0, b->0);
            }
        } else {
            let pushed = merged.last();
            assert(merged == before.push(pushed));
            assert(merged.drop_last() =~= before);
            assert(eval(pushed, state) == b);
        }
    }
}

/// Chunks only have words of valid widths.
proof fn lemma_chunks_word(chunks: Seq<ExprV>, state: State)
    ensures
        eval_chunks(chunks, state) matches Some(w) ==> is_word(w),
{
    lemma_eval_is_word(ExprV::Concat(chunks), state);
}

/// A concatenation of merged chunks means the same.
pub proof fn lemma_joined(chunks: Seq<ExprV>, state: State)
    requires
        eval_chunks(chunks, state) is Some,
        joined(chunks) is Some,
    ensures
        eval(joined(chunks)->0, state) == eval_chunks(chunks, state),
{
    lemma_merge(chunks, state);
}

} // verus!
