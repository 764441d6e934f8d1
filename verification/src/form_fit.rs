//! When the uses of fields fit a form: encodings are then defined, and as wide as the form.
use vstd::prelude::*;

use crate::bit::Bit;
use crate::encodings::{
    encodable, encodable_from, encodes_from, encodings_of, field_option, field_patterns,
    lemma_narrow_len, narrow, predicate_name,
};
use crate::field_uses::{all_of_len, FieldUsesV};
use crate::isa_candidate::{isa_uses, with_fields, with_forms};
use crate::isa_specification::{
    fields_width, lemma_width_prefix, FieldV, FormV, InstructionV, MergeMode,
};

verus! {

/// The uses are merged like the field, and their values have its width.
pub open spec fn uses_fit(uses: FieldUsesV, field: FieldV) -> bool {
    match (field.merge_mode, uses) {
        (MergeMode::Uses, FieldUsesV::Uses { patterns, len, .. }) => len == field.bits.len()
            && all_of_len(patterns, len as nat),
        (MergeMode::VariableBits, FieldUsesV::VariableBits { pattern, len, .. }) => len
            == field.bits.len() && (pattern matches Some(p) ==> p.len() == len),
        _ => false,
    }
}

/// The uses of the form's fields fit them as far as they are known.
pub open spec fn fits(form: FormV, uses: Map<Seq<char>, FieldUsesV>) -> bool {
    forall|k: int|
        0 <= k < form.fields.len() && (#[trigger] form.fields[k]).name is Some
            && uses.contains_key(form.fields[k].name->0) ==> uses_fit(
            uses[form.fields[k].name->0],
            form.fields[k],
        )
}

/// The unnamed fields of the form are constants.
pub open spec fn plain_constants(form: FormV) -> bool {
    forall|k: int|
        0 <= k < form.fields.len() && (#[trigger] form.fields[k]).name is None
            ==> field_patterns(form.fields[k], Map::empty()) is Some
}

/// The uses have all names of the form's fields.
pub open spec fn lists_fields(form: FormV, uses: Map<Seq<char>, FieldUsesV>) -> bool {
    forall|k: int|
        0 <= k < form.fields.len() && (#[trigger] form.fields[k]).name is Some
            ==> uses.contains_key(form.fields[k].name->0)
}

proof fn lemma_option_len(
    form: FormV,
    uses: Map<Seq<char>, FieldUsesV>,
    i: int,
    offset: nat,
    option: Seq<Bit>,
)
    requires
        fits(form, uses),
        plain_constants(form),
        0 <= i < form.fields.len(),
        field_option(form, uses, i, offset, option),
    ensures
        option.len() == form.fields[i].bits.len(),
{
    let field = form.fields[i];
    let p = choose|p: Seq<Bit>|
        #[trigger] field_patterns(field, uses)->0.contains(p) && narrow(
            form.when,
            set![p],
            p.len(),
            offset as int,
            predicate_name(field),
        ).contains(option);
    lemma_pattern_len(form, uses, i, p);
    lemma_narrow_len(form.when, set![p], p.len(), offset as int, predicate_name(field));
}

proof fn lemma_pattern_len(
    form: FormV,
    uses: Map<Seq<char>, FieldUsesV>,
    i: int,
    p: Seq<Bit>,
)
    requires
        fits(form, uses),
        plain_constants(form),
        0 <= i < form.fields.len(),
        field_patterns(form.fields[i], uses)->0.contains(p),
    ensures
        field_patterns(form.fields[i], uses) is Some,
        p.len() == form.fields[i].bits.len(),
{
    let field = form.fields[i];
    assert(field.name is None ==> field_patterns(field, Map::empty()) is Some);
}

proof fn lemma_fits_from(form: FormV, uses: Map<Seq<char>, FieldUsesV>, i: int, prefix: Seq<Bit>)
    requires
        fits(form, uses),
        plain_constants(form),
        fields_width(form.fields) <= usize::MAX,
        0 <= i <= form.fields.len(),
        prefix.len() == fields_width(form.fields.take(i)),
    ensures
        encodable_from(form, uses, i, prefix),
        forall|e: Seq<Bit>| #[trigger]
            encodes_from(form, uses, i, prefix, e) ==> e.len() == fields_width(form.fields),
    decreases form.fields.len() - i,
{
    if i == form.fields.len() {
        assert(form.fields.take(i) =~= form.fields);
    } else {
        let field = form.fields[i];
        let next = form.fields.take(i + 1);
        assert(next.drop_last() =~= form.fields.take(i));
        assert(next.last() == field);
        lemma_width_prefix(form.fields, i + 1);
        assert(field.name is None ==> field_patterns(field, Map::empty()) is Some);
        assert(field_patterns(field, uses) is Some);
        assert forall|p: Seq<Bit>| #[trigger] field_patterns(field, uses)->0.contains(
            p,
        ) implies prefix.len() + p.len() <= usize::MAX by {
            lemma_pattern_len(form, uses, i, p);
        }
        assert forall|option: Seq<Bit>| #[trigger] field_option(
            form,
            uses,
            i,
            prefix.len(),
            option,
        ) implies encodable_from(form, uses, i + 1, prefix + option) && forall|e: Seq<Bit>|
            #[trigger] encodes_from(form, uses, i + 1, prefix + option, e) ==> e.len()
                == fields_width(form.fields) by {
            lemma_option_len(form, uses, i, prefix.len(), option);
            lemma_fits_from(form, uses, i + 1, prefix + option);
        }
        assert forall|e: Seq<Bit>| #[trigger] encodes_from(form, uses, i, prefix, e) implies e.len()
            == fields_width(form.fields) by {
            let option = choose|option: Seq<Bit>|
                #[trigger] field_option(form, uses, i, prefix.len(), option) && encodes_from(
                    form,
                    uses,
                    i + 1,
                    prefix + option,
                    e,
                );
            assert(field_option(form, uses, i, prefix.len(), option));
        }
    }
}

/// Where the uses fit a form, its encodings are defined, and each is as wide as the form.
pub proof fn lemma_fits_encodable(form: FormV, uses: Map<Seq<char>, FieldUsesV>)
    requires
        fits(form, uses),
        plain_constants(form),
        fields_width(form.fields) <= usize::MAX,
    ensures
        encodable(form, uses),
        all_of_len(encodings_of(form, uses), fields_width(form.fields)),
{
    assert(form.fields.take(0) =~= Seq::empty());
    lemma_fits_from(form, uses, 0, seq![]);
}

proof fn lemma_with_fields_lists(uses: Map<Seq<char>, FieldUsesV>, fields: Seq<FieldV>, full: bool)
    ensures
        uses.dom().subset_of(with_fields(uses, fields, full).dom()),
        forall|k: int|
            0 <= k < fields.len() && (#[trigger] fields[k]).name is Some ==> with_fields(
                uses,
                fields,
                full,
            ).contains_key(fields[k].name->0),
    decreases fields.len(),
{
    if fields.len() > 0 {
        lemma_with_fields_lists(uses, fields.drop_last(), full);
        let before = with_fields(uses, fields.drop_last(), full);
        assert forall|k: int| 0 <= k < fields.len() && (
        #[trigger] fields[k]).name is Some implies with_fields(uses, fields, full).contains_key(
            fields[k].name->0,
        ) by {
            if k < fields.len() - 1 {
                assert(fields.drop_last()[k] == fields[k]);
                assert(before.contains_key(fields[k].name->0));
            }
        }
    }
}

proof fn lemma_with_forms_lists(
    uses: Map<Seq<char>, FieldUsesV>,
    forms: Seq<FormV>,
    full: bool,
    j: int,
)
    ensures
        uses.dom().subset_of(with_forms(uses, forms, full).dom()),
        0 <= j < forms.len() ==> lists_fields(forms[j], with_forms(uses, forms, full)),
    decreases forms.len(),
{
    if forms.len() > 0 {
        lemma_with_forms_lists(uses, forms.drop_last(), full, j);
        let before = with_forms(uses, forms.drop_last(), full);
        let after = with_forms(uses, forms, full);
        lemma_with_fields_lists(before, forms.last().fields, full);
        assert(after == with_fields(before, forms.last().fields, full));
        if 0 <= j < forms.len() - 1 {
            assert(forms.drop_last()[j] == forms[j]);
            assert forall|k: int| 0 <= k < forms[j].fields.len() && (
            #[trigger] forms[j].fields[k]).name is Some implies after.contains_key(
                forms[j].fields[k].name->0,
            ) by {
                assert(before.dom().contains(forms[j].fields[k].name->0));
            }
        }
    }
}

/// The uses of an instruction set have the names of all fields.
pub proof fn lemma_isa_lists_fields(instructions: Seq<InstructionV>, full: bool, i: int, j: int)
    requires
        0 <= i < instructions.len(),
        0 <= j < instructions[i].forms.len(),
    ensures
        lists_fields(instructions[i].forms[j], isa_uses(instructions, full)),
    decreases instructions.len(),
{
    let before = isa_uses(instructions.drop_last(), full);
    let after = isa_uses(instructions, full);
    lemma_with_forms_lists(before, instructions.last().forms, full, j);
    if i < instructions.len() - 1 {
        lemma_isa_lists_fields(instructions.drop_last(), full, i, j);
        let form = instructions[i].forms[j];
        assert(instructions.drop_last()[i].forms[j] == form);
        assert forall|k: int| 0 <= k < form.fields.len() && (
        #[trigger] form.fields[k]).name is Some implies after.contains_key(
            form.fields[k].name->0,
        ) by {
            assert(before.dom().contains(form.fields[k].name->0));
        }
    }
}

} // verus!
