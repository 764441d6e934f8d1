//! Collapsing, canonicalizing and substituting expressions.
use isa_minimization::bit::BitPattern;
use isa_minimization::const_eval::bit_mask;
use isa_minimization::instruction_semantics::{
    add, add_carry_out, add_overflow, and_expr, arithmetic_shift_right, bool_const, constant,
    count_ones, derived_value, equal, extract, field_is, fixed_register, immediate_field,
    logical_shift_right, mul, not_expr, or_expr, read_fixed_register, read_memory, read_register,
    register_field, rotate_right, select, shift_left, sign_extend, signed_less_than, sub,
    sub_carry_out, sub_overflow, unsigned_less_than, xor_expr, zero_extend, Effect, Expr, Register,
    ValueName,
};
use isa_minimization::isa_specification::{
    DecodedInstruction, DerivedValue, Instruction, InstructionField, InstructionForm,
};

fn concat(values: Vec<Expr>) -> Expr {
    isa_minimization::instruction_semantics::concat(values)
}

/// Builds a decoded instruction with no fields or derived values.
fn empty_instruction() -> DecodedInstruction {
    DecodedInstruction {
        name: "test".to_owned(),
        form: InstructionForm::new("test"),
        bits: Vec::new(),
        fields: Vec::new(),
        branch_instruction: None,
        mem_addr: 0,
        static_instruction: false,
        assembly_line: 0,
    }
}

/// Builds the shared decoded fixture used by field-resolution tests.
fn decoded_fixture_instruction() -> DecodedInstruction {
    let instruction = Instruction::new("fixture", 8).form(
        InstructionForm::new("imm_form")
            .field(InstructionField::constant("10"))
            .field(InstructionField::variable("rd", 2).merge_mode_uses())
            .field(InstructionField::variable("imm", 4))
            .derived_value(DerivedValue {
                name: ValueName("expanded".to_owned()),
                value: add(zero_extend(immediate_field("imm"), 8), constant(1, 8)),
            })
            .derived_value(DerivedValue {
                name: ValueName("doubled".to_owned()),
                value: shift_left(derived_value("expanded"), constant(1, 8)),
            }),
    );
    let bits = BitPattern::parse("10110101");
    instruction
        .find_match(&bits.bits)
        .expect("fixture instruction should decode")
}

/// Asserts recursively that subtraction, OR, and XOR have been lowered.
fn assert_operator_reduced(expr: &Expr) {
    match expr {
        Expr::Sub(_, _) | Expr::Or(_, _) | Expr::Xor(_, _) => {
            panic!("expression still contains a reduced operator: {expr:?}")
        }
        Expr::Const { .. } | Expr::Operand(_) | Expr::DerivedValue(_) => {}
        Expr::ReadRegister { register, .. } => assert_operator_reduced(register),
        Expr::ReadMemory { address, .. } => assert_operator_reduced(address),
        Expr::Not(value)
        | Expr::CountOnes(value)
        | Expr::Extract { value, .. }
        | Expr::ZeroExtend { value, .. }
        | Expr::SignExtend { value, .. } => assert_operator_reduced(value),
        Expr::Add(lhs, rhs)
        | Expr::Mul(lhs, rhs)
        | Expr::And(lhs, rhs)
        | Expr::ShiftLeft(lhs, rhs)
        | Expr::LogicalShiftRight(lhs, rhs)
        | Expr::ArithmeticShiftRight(lhs, rhs)
        | Expr::RotateRight(lhs, rhs)
        | Expr::Equal(lhs, rhs)
        | Expr::UnsignedLessThan(lhs, rhs)
        | Expr::SignedLessThan(lhs, rhs) => {
            assert_operator_reduced(lhs);
            assert_operator_reduced(rhs);
        }
        Expr::Concat(values) => {
            for value in values {
                assert_operator_reduced(value);
            }
        }
        Expr::AddCarryOut {
            lhs, rhs, carry_in, ..
        }
        | Expr::AddOverflow {
            lhs, rhs, carry_in, ..
        } => {
            assert_operator_reduced(lhs);
            assert_operator_reduced(rhs);
            assert_operator_reduced(carry_in);
        }
        Expr::SubCarryOut {
            lhs,
            rhs,
            borrow_in,
            ..
        }
        | Expr::SubOverflow {
            lhs,
            rhs,
            borrow_in,
            ..
        } => {
            assert_operator_reduced(lhs);
            assert_operator_reduced(rhs);
            assert_operator_reduced(borrow_in);
        }
        Expr::Select {
            condition,
            when_true,
            when_false,
        } => {
            assert_operator_reduced(condition);
            assert_operator_reduced(when_true);
            assert_operator_reduced(when_false);
        }
    }
}

#[test]
fn collapse_signed_operations_use_declared_width() {
    let instruction = empty_instruction();

    assert_eq!(
        arithmetic_shift_right(constant(0xff, 8), constant(1, 8)).collapse(&instruction),
        constant(0xff, 8)
    );
    assert_eq!(
        signed_less_than(constant(0xff, 8), constant(0x00, 8)).collapse(&instruction),
        bool_const(true)
    );
    assert_eq!(
        signed_less_than(constant(0x7f, 8), constant(0xff, 8)).collapse(&instruction),
        bool_const(false)
    );
}

#[test]
fn collapse_extract_concat_and_large_shifts() {
    let instruction = empty_instruction();

    assert_eq!(
        extract(constant(0xabcd, 16), 11, 4).collapse(&instruction),
        constant(0xbc, 8)
    );
    assert_eq!(
        concat(vec![constant(0xa, 4), constant(0xbc, 8)]).collapse(&instruction),
        constant(0xabc, 12)
    );
    assert_eq!(
        shift_left(constant(1, 8), constant(8, 8)).collapse(&instruction),
        constant(0, 8)
    );
    assert_eq!(
        logical_shift_right(constant(0x80, 8), constant(8, 8)).collapse(&instruction),
        constant(0, 8)
    );
    assert_eq!(
        arithmetic_shift_right(constant(0x80, 8), constant(8, 8)).collapse(&instruction),
        constant(0xff, 8)
    );
}

#[test]
fn collapse_flag_helpers_fold_constants() {
    let instruction = empty_instruction();

    assert_eq!(
        add_carry_out(constant(0xff, 8), constant(0x00, 8), bool_const(true), 8)
            .collapse(&instruction),
        bool_const(true)
    );
    assert_eq!(
        add_overflow(constant(0x7f, 8), constant(0x00, 8), bool_const(true), 8)
            .collapse(&instruction),
        bool_const(true)
    );
    assert_eq!(
        sub_carry_out(constant(0x00, 8), constant(0x01, 8), bool_const(false), 8)
            .collapse(&instruction),
        bool_const(false)
    );
    assert_eq!(
        sub_overflow(constant(0x80, 8), constant(0x00, 8), bool_const(true), 8)
            .collapse(&instruction),
        bool_const(true)
    );
}

#[test]
fn canonicalized_subtraction_flags_match_original_semantics_exhaustively() {
    let instruction = empty_instruction();

    // Exhaust every possible lhs, rhs, and borrow input for small widths.
    // The original subtraction helpers and their canonicalized addition
    // forms use separate constant evaluators, so this compares behavior
    // rather than merely checking that a particular AST rewrite occurred.
    for width in 1..=8 {
        let value_count = 1u128 << width;
        for lhs in 0..value_count {
            for rhs in 0..value_count {
                for borrow_in in [false, true] {
                    let lhs = constant(lhs, width);
                    let rhs = constant(rhs, width);
                    let borrow_in = bool_const(borrow_in);

                    let sub_carry =
                        sub_carry_out(lhs.clone(), rhs.clone(), borrow_in.clone(), width);
                    assert_eq!(
                        sub_carry.clone().collapse(&instruction),
                        sub_carry.canonicalize().collapse(&instruction),
                        "SubCarryOut conversion failed for width={width}, lhs={lhs:?}, rhs={rhs:?}, borrow_in={borrow_in:?}"
                    );

                    let sub_overflow =
                        sub_overflow(lhs.clone(), rhs.clone(), borrow_in.clone(), width);
                    assert_eq!(
                        sub_overflow.clone().collapse(&instruction),
                        sub_overflow.canonicalize().collapse(&instruction),
                        "SubOverflow conversion failed for width={width}, lhs={lhs:?}, rhs={rhs:?}, borrow_in={borrow_in:?}"
                    );
                }
            }
        }
    }
}

#[test]
fn canonicalized_subtraction_flags_match_original_semantics_at_wide_boundaries() {
    let instruction = empty_instruction();

    for width in [16, 32, 64, 127, 128] {
        let mask = bit_mask(width);
        let sign_bit = 1u128 << (width - 1);
        let values = [0, 1, sign_bit - 1, sign_bit, sign_bit + 1, mask - 1, mask];

        for lhs in values {
            for rhs in values {
                for borrow_in in [false, true] {
                    let lhs = constant(lhs, width);
                    let rhs = constant(rhs, width);
                    let borrow_in = bool_const(borrow_in);

                    let sub_carry =
                        sub_carry_out(lhs.clone(), rhs.clone(), borrow_in.clone(), width);
                    assert_eq!(
                        sub_carry.clone().collapse(&instruction),
                        sub_carry.canonicalize().collapse(&instruction),
                        "wide SubCarryOut conversion failed for width={width}, lhs={lhs:?}, rhs={rhs:?}, borrow_in={borrow_in:?}"
                    );

                    let sub_overflow =
                        sub_overflow(lhs.clone(), rhs.clone(), borrow_in.clone(), width);
                    assert_eq!(
                        sub_overflow.clone().collapse(&instruction),
                        sub_overflow.canonicalize().collapse(&instruction),
                        "wide SubOverflow conversion failed for width={width}, lhs={lhs:?}, rhs={rhs:?}, borrow_in={borrow_in:?}"
                    );
                }
            }
        }
    }
}

#[test]
fn collapse_decoded_instruction_fields_and_derived_values() {
    let instruction = decoded_fixture_instruction();

    assert_eq!(
        immediate_field("imm").collapse(&instruction),
        constant(5, 4)
    );
    assert_eq!(
        register_field("rd").collapse(&instruction),
        fixed_register(Register(3), 2)
    );
    assert_eq!(
        derived_value("expanded").collapse(&instruction),
        constant(6, 8)
    );
    assert_eq!(
        derived_value("doubled").collapse(&instruction),
        constant(12, 8)
    );
    assert_eq!(
        select(
            field_is("rd", 3, 2),
            derived_value("doubled"),
            constant(0, 8)
        )
        .collapse(&instruction),
        constant(12, 8)
    );
}

#[test]
fn collapse_decoded_instruction_register_and_memory_wrappers() {
    let instruction = decoded_fixture_instruction();

    assert_eq!(
        read_register(register_field("rd"), 8).collapse(&instruction),
        read_register(fixed_register(Register(3), 2), 8)
    );
    assert_eq!(
        read_memory(
            add(zero_extend(immediate_field("imm"), 32), constant(4, 32)),
            16
        )
        .collapse(&instruction),
        read_memory(constant(9, 32), 16)
    );
}

#[test]
fn expr_width_tracks_register_reads_and_unresolved_instruction_values() {
    let instruction = decoded_fixture_instruction();

    assert_eq!(
        read_fixed_register(Register(1), 4, 32).expr_width(),
        Some(32)
    );
    assert_eq!(
        read_register(fixed_register(Register(1), 4), 32).expr_width(),
        Some(32)
    );
    assert_eq!(
        read_register(register_field("rd"), 32)
            .collapse(&instruction)
            .expr_width(),
        Some(32)
    );

    assert_eq!(immediate_field("imm").expr_width(), None);
    assert_eq!(register_field("rd").expr_width(), None);
    assert_eq!(derived_value("expanded").expr_width(), None);
    assert_eq!(
        add(immediate_field("imm"), constant(1, 4)).expr_width(),
        None
    );

    assert_eq!(
        immediate_field("imm").collapse(&instruction).expr_width(),
        Some(4)
    );
    assert_eq!(
        derived_value("expanded")
            .collapse(&instruction)
            .expr_width(),
        Some(8)
    );
}

#[test]
fn collapse_preserves_nonconstant_structure_with_collapsed_children() {
    let instruction = decoded_fixture_instruction();

    assert_eq!(
        concat(vec![
            constant(0xa, 4),
            read_register(register_field("rd"), 8),
            constant(0x3, 2),
            constant(0x2, 2),
        ])
        .collapse(&instruction),
        concat(vec![
            constant(0xa, 4),
            read_register(fixed_register(Register(3), 2), 8),
            constant(0xe, 4),
        ])
    );
    assert_eq!(
        select(
            read_register(register_field("rd"), 1),
            derived_value("expanded"),
            sub(constant(0, 8), constant(1, 8)),
        )
        .collapse(&instruction),
        select(
            read_register(fixed_register(Register(3), 2), 1),
            constant(6, 8),
            constant(0xff, 8),
        )
    );
}

#[test]
fn substitute_preserves_signed_comparison_kind() {
    let lhs = read_fixed_register(Register(1), 4, 8);
    let rhs = read_fixed_register(Register(2), 4, 8);
    let expression = signed_less_than(lhs, rhs);

    assert!(matches!(
        expression.substitute(&Vec::new()),
        Expr::SignedLessThan(_, _)
    ));
}

#[test]
fn substitute_builds_register_forwarding_chain_in_latest_write_order() {
    let selector = read_fixed_register(Register(9), 4, 4);
    let guard_1 = read_fixed_register(Register(10), 4, 1);
    let guard_2 = read_fixed_register(Register(11), 4, 1);
    let guard_3 = read_fixed_register(Register(12), 4, 1);
    let reg_1 = fixed_register(Register(1), 4);
    let reg_2 = fixed_register(Register(2), 4);
    let reg_3 = fixed_register(Register(3), 4);
    let original_read = read_register(selector.clone(), 8);
    let previous_effects = vec![
        Effect::write_register_if(guard_1.clone(), reg_1.clone(), constant(0x11, 8)),
        Effect::write_register_if(guard_2.clone(), reg_2.clone(), constant(0x22, 8)),
        Effect::write_register_if(guard_3.clone(), reg_3.clone(), constant(0x33, 8)),
    ];

    assert_eq!(
        original_read.clone().substitute(&previous_effects),
        select(
            and_expr(guard_3, equal(selector.clone(), reg_3)),
            constant(0x33, 8),
            select(
                and_expr(guard_2, equal(selector.clone(), reg_2)),
                constant(0x22, 8),
                select(
                    and_expr(guard_1, equal(selector, reg_1)),
                    constant(0x11, 8),
                    original_read,
                ),
            ),
        )
    );
}

#[test]
fn substitute_builds_memory_forwarding_chain_and_ignores_wrong_kind_or_width() {
    let address = read_fixed_register(Register(9), 4, 32);
    let guard_1 = read_fixed_register(Register(10), 4, 1);
    let guard_2 = read_fixed_register(Register(11), 4, 1);
    let address_1 = constant(0x100, 32);
    let address_2 = constant(0x200, 32);
    let original_read = read_memory(address.clone(), 8);
    let previous_effects = vec![
        Effect::write_register(address_1.clone(), constant(0xff, 8)),
        Effect::write_memory(address_1.clone(), constant(0xabcd, 16), 16),
        Effect::write_memory_if(guard_1.clone(), address_1.clone(), constant(0x11, 8), 8),
        Effect::write_memory_if(guard_2.clone(), address_2.clone(), constant(0x22, 8), 8),
    ];

    assert_eq!(
        original_read.clone().substitute(&previous_effects),
        select(
            and_expr(guard_2, equal(address.clone(), address_2)),
            constant(0x22, 8),
            select(
                and_expr(guard_1, equal(address, address_1)),
                constant(0x11, 8),
                original_read,
            ),
        )
    );
}

#[test]
fn substitute_forwards_through_identifiers_before_matching_memory_writes() {
    let previous_effects = vec![
        Effect::write_register(fixed_register(Register(0), 8), constant(0x200, 32)),
        Effect::write_memory(constant(0x200, 32), constant(0xaa, 8), 8),
    ];

    assert_eq!(
        read_memory(read_fixed_register(Register(0), 8, 32), 8)
            .substitute(&previous_effects)
            .canonicalize(),
        constant(0xaa, 8)
    );
}

#[test]
fn collapse_canonicalizes_constants_inside_operations() {
    let instruction = empty_instruction();

    assert_eq!(
        equal(constant(0x1ff, 8), constant(0xff, 8)).collapse(&instruction),
        bool_const(true)
    );
    assert_eq!(
        add(constant(0xff, 8), constant(2, 8)).collapse(&instruction),
        constant(1, 8)
    );
    assert_eq!(
        sub(constant(0, 8), constant(1, 8)).collapse(&instruction),
        constant(0xff, 8)
    );
    assert_eq!(
        mul(constant(0x10, 8), constant(0x10, 8)).collapse(&instruction),
        constant(0, 8)
    );
    assert_eq!(
        not_expr(constant(0x1f, 4)).collapse(&instruction),
        constant(0, 4)
    );
    assert_eq!(
        count_ones(constant(0x1ff, 8)).collapse(&instruction),
        constant(8, 8)
    );
}

#[test]
fn collapse_bitwise_comparisons_and_rotates() {
    let instruction = empty_instruction();

    assert_eq!(
        and_expr(constant(0xf0, 8), constant(0x3c, 8)).collapse(&instruction),
        constant(0x30, 8)
    );
    assert_eq!(
        or_expr(constant(0xf0, 8), constant(0x0f, 8)).collapse(&instruction),
        constant(0xff, 8)
    );
    assert_eq!(
        xor_expr(constant(0xaa, 8), constant(0xff, 8)).collapse(&instruction),
        constant(0x55, 8)
    );
    assert_eq!(
        unsigned_less_than(constant(0x100, 8), constant(1, 8)).collapse(&instruction),
        bool_const(true)
    );
    assert_eq!(
        rotate_right(constant(0x96, 8), constant(12, 8)).collapse(&instruction),
        constant(0x69, 8)
    );
}

#[test]
fn collapse_128_bit_edge_cases() {
    let instruction = empty_instruction();
    let sign_bit = 1u128 << 127;

    assert_eq!(
        add(constant(!0u128, 128), constant(1, 128)).collapse(&instruction),
        constant(0, 128)
    );
    assert_eq!(
        sub(constant(0, 128), constant(1, 128)).collapse(&instruction),
        constant(!0u128, 128)
    );
    assert_eq!(
        add_carry_out(
            constant(!0u128, 128),
            constant(0, 128),
            bool_const(true),
            128
        )
        .collapse(&instruction),
        bool_const(true)
    );
    assert_eq!(
        shift_left(constant(1, 128), constant(128, 128)).collapse(&instruction),
        constant(0, 128)
    );
    assert_eq!(
        logical_shift_right(constant(!0u128, 128), constant(128, 128)).collapse(&instruction),
        constant(0, 128)
    );
    assert_eq!(
        arithmetic_shift_right(constant(sign_bit, 128), constant(128, 128))
            .collapse(&instruction),
        constant(!0u128, 128)
    );
    assert_eq!(
        rotate_right(constant(1, 128), constant(127, 128)).collapse(&instruction),
        constant(2, 128)
    );
}

#[test]
fn collapse_extend_and_count_ones_constants() {
    let instruction = empty_instruction();

    assert_eq!(
        zero_extend(constant(0x1ff, 8), 16).collapse(&instruction),
        constant(0x00ff, 16)
    );
    assert_eq!(
        sign_extend(constant(0x80, 8), 16).collapse(&instruction),
        constant(0xff80, 16)
    );
    assert_eq!(
        sign_extend(constant(0x7f, 8), 16).collapse(&instruction),
        constant(0x007f, 16)
    );
    assert_eq!(
        count_ones(constant(0b1010_1100, 8)).collapse(&instruction),
        constant(4, 8)
    );
}

#[test]
fn collapse_assoc_comm_add_folds_nested_constants_preserving_term_order() {
    let instruction = empty_instruction();
    let x = read_register(fixed_register(Register(1), 4), 8);
    let y = read_register(fixed_register(Register(2), 4), 8);

    assert_eq!(
        add(
            add(x.clone(), constant(2, 8)),
            add(constant(3, 8), y.clone())
        )
        .collapse(&instruction),
        add(add(x, y), constant(5, 8))
    );
    assert_eq!(
        add(
            add(constant(250, 8), constant(10, 8)),
            read_fixed_register(Register(3), 8, 8)
        )
        .collapse(&instruction),
        add(read_fixed_register(Register(3), 8, 8), constant(4, 8))
    );
}

#[test]
fn collapse_assoc_comm_multiplication_folds_identities_and_annihilators() {
    let instruction = empty_instruction();
    let x = read_register(fixed_register(Register(1), 4), 8);

    assert_eq!(
        mul(mul(x.clone(), constant(3, 8)), constant(5, 8)).collapse(&instruction),
        mul(x.clone(), constant(15, 8))
    );
    assert_eq!(
        mul(mul(x.clone(), constant(1, 8)), constant(1, 8)).collapse(&instruction),
        x.clone()
    );
    assert_eq!(
        mul(add(x, constant(2, 8)), constant(0, 8)).collapse(&instruction),
        constant(0, 8)
    );
}

#[test]
fn collapse_assoc_comm_bitwise_ops_fold_identities_and_annihilators() {
    let instruction = empty_instruction();
    let x = read_register(fixed_register(Register(1), 4), 8);
    let y = read_register(fixed_register(Register(2), 4), 8);

    assert_eq!(
        and_expr(and_expr(x.clone(), constant(0xff, 8)), y.clone()).collapse(&instruction),
        and_expr(x.clone(), y.clone())
    );
    assert_eq!(
        and_expr(or_expr(x.clone(), constant(1, 8)), constant(0, 8)).collapse(&instruction),
        constant(0, 8)
    );
    assert_eq!(
        or_expr(or_expr(x.clone(), constant(0, 8)), constant(0xff, 8)).collapse(&instruction),
        constant(0xff, 8)
    );
    assert_eq!(
        xor_expr(
            xor_expr(x.clone(), constant(0b1010, 8)),
            constant(0b1100, 8)
        )
        .collapse(&instruction),
        xor_expr(x.clone(), constant(0b0110, 8))
    );
    assert_eq!(
        xor_expr(xor_expr(x, constant(0b1010, 8)), constant(0b1010, 8)).collapse(&instruction),
        read_register(fixed_register(Register(1), 4), 8)
    );
}

#[test]
fn collapse_assoc_comm_simplifies_decoded_instruction_terms() {
    let instruction = decoded_fixture_instruction();

    assert_eq!(
        add(
            add(
                zero_extend(immediate_field("imm"), 8),
                read_register(register_field("rd"), 8)
            ),
            add(constant(9, 8), constant(1, 8)),
        )
        .collapse(&instruction),
        add(
            read_register(fixed_register(Register(3), 2), 8),
            constant(15, 8)
        )
    );
    assert_eq!(
        xor_expr(
            xor_expr(
                derived_value("expanded"),
                read_register(register_field("rd"), 8)
            ),
            constant(6, 8),
        )
        .collapse(&instruction),
        read_register(fixed_register(Register(3), 2), 8)
    );
}

#[test]
fn collapse_assoc_comm_does_not_rewrite_non_commutative_ops() {
    let instruction = empty_instruction();
    let x = read_register(fixed_register(Register(1), 4), 8);

    assert_eq!(
        sub(add(x.clone(), constant(2, 8)), constant(1, 8)).collapse(&instruction),
        sub(add(x.clone(), constant(2, 8)), constant(1, 8))
    );
    assert_eq!(
        shift_left(add(x.clone(), constant(2, 8)), constant(1, 8)).collapse(&instruction),
        shift_left(add(x, constant(2, 8)), constant(1, 8))
    );
}

#[test]
fn canonicalize_sorts_and_folds_associative_commutative_terms() {
    let x = read_fixed_register(Register(1), 8, 8);
    let y = read_fixed_register(Register(2), 8, 8);

    let expr_1 = add(y.clone(), add(constant(2, 8), x.clone())).canonicalize();
    let expr_2 = add(add(x.clone(), y.clone()), constant(2, 8)).canonicalize();

    assert_eq!(expr_1, expr_2);
    assert_eq!(expr_1, add(add(x, y), constant(2, 8)));
    assert_eq!(
        add(
            add(constant(250, 8), constant(10, 8)),
            read_fixed_register(Register(3), 8, 8)
        )
        .canonicalize(),
        add(read_fixed_register(Register(3), 8, 8), constant(4, 8))
    );
}

#[test]
fn collapse_and_canonicalize_resolves_instruction_fields_before_normalizing() {
    let instruction = decoded_fixture_instruction();

    assert_eq!(
        add(
            read_register(register_field("rd"), 8),
            add(
                add(constant(4, 8), zero_extend(immediate_field("imm"), 8)),
                constant(6, 8),
            ),
        )
        .collapse_and_canonicalize(&instruction),
        add(
            read_register(fixed_register(Register(3), 2), 8),
            constant(15, 8)
        )
    );
}

#[test]
fn canonicalize_bitwise_deduplicates_and_cancels_and_xor_terms() {
    let x = fixed_register(Register(1), 4);
    let y = fixed_register(Register(2), 4);

    assert_eq!(
        and_expr(y.clone(), and_expr(x.clone(), x.clone())).canonicalize(),
        and_expr(x.clone(), y.clone())
    );
    assert_eq!(
        xor_expr(x.clone(), x.clone()).canonicalize(),
        constant(0, 4)
    );
    assert_eq!(
        xor_expr(y.clone(), xor_expr(x.clone(), x.clone())).canonicalize(),
        y
    );
}

#[test]
fn canonicalize_cancels_known_width_register_xor() {
    let x = read_fixed_register(Register(1), 4, 4);

    assert_eq!(
        xor_expr(x.clone(), x.clone()).canonicalize(),
        constant(0, 4)
    );
}

#[test]
fn canonicalize_identities_annihilators_and_local_rules() {
    let x = read_fixed_register(Register(1), 8, 8);

    assert_eq!(add(x.clone(), constant(0, 8)).canonicalize(), x.clone());
    assert_eq!(mul(x.clone(), constant(1, 8)).canonicalize(), x.clone());
    assert_eq!(
        mul(x.clone(), constant(0, 8)).canonicalize(),
        constant(0, 8)
    );
    assert_eq!(
        and_expr(x.clone(), constant(0, 8)).canonicalize(),
        constant(0, 8)
    );
    assert_eq!(
        or_expr(x.clone(), constant(0xff, 8)).canonicalize(),
        constant(0xff, 8)
    );
    assert_eq!(sub(x.clone(), constant(0, 8)).canonicalize(), x.clone());
    assert_eq!(not_expr(not_expr(x.clone())).canonicalize(), x.clone());
    assert_eq!(
        shift_left(x.clone(), constant(0, 8)).canonicalize(),
        x.clone()
    );
    assert_eq!(
        logical_shift_right(constant(0, 8), x.clone()).canonicalize(),
        constant(0, 8)
    );
    assert_eq!(rotate_right(x.clone(), constant(0, 8)).canonicalize(), x);
}

#[test]
fn canonicalize_comparisons_and_selects() {
    let x = read_fixed_register(Register(1), 4, 4);
    let y = read_fixed_register(Register(2), 4, 4);

    assert_eq!(
        equal(y.clone(), x.clone()).canonicalize(),
        equal(x.clone(), y.clone()).canonicalize()
    );
    assert_eq!(equal(x.clone(), x.clone()).canonicalize(), bool_const(true));
    assert_eq!(
        unsigned_less_than(x.clone(), x.clone()).canonicalize(),
        bool_const(false)
    );
    assert_eq!(
        signed_less_than(x.clone(), x.clone()).canonicalize(),
        bool_const(false)
    );
    assert_eq!(
        select(bool_const(true), x.clone(), y.clone()).canonicalize(),
        x.clone()
    );
    assert_eq!(
        select(read_fixed_register(Register(3), 4, 4), x.clone(), x.clone()).canonicalize(),
        x
    );
}

#[test]
fn canonicalize_reduces_boolean_select_to_and_and_not() {
    let condition = read_fixed_register(Register(1), 4, 1);
    let when_true = read_fixed_register(Register(2), 4, 1);
    let when_false = read_fixed_register(Register(3), 4, 1);

    let canonical = select(condition, when_true, when_false).canonicalize();

    assert_operator_reduced(&canonical);
    assert!(!matches!(canonical, Expr::Select { .. }));
    assert_eq!(canonical.expr_width(), Some(1));
    assert_eq!(canonical.clone().canonicalize(), canonical);
}

#[test]
fn canonicalize_boolean_select_matches_sum_of_products() {
    let condition = read_fixed_register(Register(1), 4, 1);
    let when_true = read_fixed_register(Register(2), 4, 1);
    let when_false = read_fixed_register(Register(3), 4, 1);
    let sum_of_products = or_expr(
        and_expr(condition.clone(), when_true.clone()),
        and_expr(not_expr(condition.clone()), when_false.clone()),
    );

    assert_eq!(
        select(condition, when_true, when_false).canonicalize(),
        sum_of_products.canonicalize()
    );
}

#[test]
fn canonicalize_select_preserves_vector_result_width() {
    let condition = read_fixed_register(Register(1), 4, 1);
    let when_true = read_fixed_register(Register(2), 4, 8);
    let when_false = read_fixed_register(Register(3), 4, 8);

    assert_eq!(
        select(condition, when_true, when_false)
            .canonicalize()
            .expr_width(),
        Some(8)
    );
}

#[test]
fn canonicalize_vector_select_matches_masked_sum_of_products() {
    let condition = read_fixed_register(Register(1), 4, 1);
    let when_true = read_fixed_register(Register(2), 4, 8);
    let when_false = read_fixed_register(Register(3), 4, 8);
    let mask = sign_extend(condition.clone(), 8);
    let sum_of_products = or_expr(
        and_expr(mask.clone(), when_true.clone()),
        and_expr(not_expr(mask), when_false.clone()),
    );

    assert_eq!(
        select(condition, when_true, when_false).canonicalize(),
        sum_of_products.canonicalize()
    );
}

#[test]
fn canonicalize_folds_constants_across_nested_bitwise_operations() {
    let x = read_fixed_register(Register(1), 4, 4);

    assert_eq!(
        and_expr(
            constant(0b1110, 4),
            and_expr(x.clone(), constant(0b1001, 4)),
        )
        .canonicalize(),
        and_expr(x.clone(), constant(0b1000, 4))
    );
    assert_eq!(
        and_expr(
            and_expr(constant(0b1111, 4), x.clone()),
            and_expr(constant(0b1101, 4), constant(0b1011, 4)),
        )
        .canonicalize(),
        and_expr(x, constant(0b1001, 4))
    );

    let x = read_fixed_register(Register(1), 4, 4);
    assert_eq!(
        or_expr(constant(0b0100, 4), or_expr(x.clone(), constant(0b0011, 4)),).canonicalize(),
        or_expr(x.clone(), constant(0b0111, 4)).canonicalize()
    );
    assert_eq!(
        xor_expr(
            constant(0b1100, 4),
            xor_expr(x.clone(), constant(0b1010, 4)),
        )
        .canonicalize(),
        xor_expr(x, constant(0b0110, 4)).canonicalize()
    );
}

#[test]
fn canonicalize_folds_not_constants_and_complements() {
    let x = read_fixed_register(Register(1), 4, 8);
    let y = read_fixed_register(Register(2), 4, 8);

    assert_eq!(
        not_expr(constant(0b1010_1100, 8)).canonicalize(),
        constant(0b0101_0011, 8)
    );
    assert_eq!(
        and_expr(x.clone(), not_expr(x.clone())).canonicalize(),
        constant(0, 8)
    );
    assert_eq!(
        and_expr(y.clone(), and_expr(not_expr(x.clone()), x.clone())).canonicalize(),
        constant(0, 8)
    );
    assert_eq!(
        or_expr(x.clone(), not_expr(x.clone())).canonicalize(),
        constant(0xff, 8)
    );
    assert_eq!(
        or_expr(y, or_expr(x.clone(), not_expr(x))).canonicalize(),
        constant(0xff, 8)
    );
}

#[test]
fn canonicalize_applies_boolean_absorption() {
    let x = read_fixed_register(Register(1), 4, 8);
    let y = read_fixed_register(Register(2), 4, 8);
    let z = read_fixed_register(Register(3), 4, 8);

    assert_eq!(
        and_expr(x.clone(), or_expr(x.clone(), y.clone())).canonicalize(),
        x.clone()
    );
    assert_eq!(
        or_expr(x.clone(), and_expr(x.clone(), y.clone())).canonicalize(),
        x.clone()
    );
    assert_eq!(
        and_expr(z.clone(), and_expr(or_expr(y, z.clone()), x.clone()),).canonicalize(),
        and_expr(x, z)
    );
}

#[test]
fn canonicalize_width_changing_and_structural_ops() {
    let instruction = empty_instruction();
    let x = fixed_register(Register(1), 8);

    assert_eq!(extract(x.clone(), 7, 0).canonicalize(), x.clone());
    assert_eq!(
        extract(constant(0xabcd, 16), 11, 4).collapse_and_canonicalize(&instruction),
        constant(0xbc, 8)
    );
    assert_eq!(
        concat(vec![
            constant(0xa, 4),
            read_fixed_register(Register(1), 4, 4),
            constant(0x3, 2),
            constant(0x2, 2),
        ])
        .canonicalize(),
        concat(vec![
            constant(0xa, 4),
            read_fixed_register(Register(1), 4, 4),
            constant(0xe, 4),
        ])
    );
    assert_eq!(
        zero_extend(fixed_register(Register(2), 8), 8).canonicalize(),
        fixed_register(Register(2), 8)
    );
    assert_eq!(
        sign_extend(sign_extend(fixed_register(Register(2), 8), 16), 32).canonicalize(),
        sign_extend(fixed_register(Register(2), 8), 32)
    );
    assert_eq!(
        count_ones(constant(0b1010_1100, 8)).collapse_and_canonicalize(&instruction),
        constant(4, 8)
    );
}

#[test]
fn canonicalize_recurses_through_effect_helper_expressions() {
    let x = read_fixed_register(Register(1), 8, 8);

    assert_eq!(
        add_carry_out(
            add(x.clone(), constant(0, 8)),
            constant(0xff, 8),
            bool_const(true),
            8
        )
        .canonicalize(),
        add_carry_out(x.clone(), constant(0xff, 8), bool_const(true), 8)
    );
    assert_eq!(
        sub_overflow(
            sub(x.clone(), constant(0, 8)),
            constant(0x80, 8),
            bool_const(false),
            8
        )
        .canonicalize(),
        add_overflow(x, constant(0x7f, 8), bool_const(true), 8)
    );
}

#[test]
fn canonicalize_equates_logical_normal_forms() {
    let a = read_fixed_register(Register(1), 4, 8);
    let b = read_fixed_register(Register(2), 4, 8);
    let c = read_fixed_register(Register(3), 4, 8);

    let associated_or = or_expr(or_expr(a.clone(), b.clone()), c.clone()).canonicalize();
    let permuted_or = or_expr(c.clone(), or_expr(b.clone(), a.clone())).canonicalize();
    assert_eq!(associated_or, permuted_or);

    let de_morgan_or = not_expr(and_expr(not_expr(a.clone()), not_expr(b.clone())));
    assert_eq!(
        or_expr(a.clone(), b.clone()).canonicalize(),
        de_morgan_or.canonicalize()
    );

    let de_morgan_and = not_expr(or_expr(not_expr(a.clone()), not_expr(b.clone())));
    assert_eq!(
        and_expr(a.clone(), b.clone()).canonicalize(),
        de_morgan_and.canonicalize()
    );

    let xor_sum_of_products = or_expr(
        and_expr(a.clone(), not_expr(b.clone())),
        and_expr(not_expr(a.clone()), b.clone()),
    );
    assert_eq!(
        xor_expr(a.clone(), b.clone()).canonicalize(),
        xor_sum_of_products.canonicalize()
    );

    let associated_xor = xor_expr(xor_expr(a.clone(), b.clone()), c.clone()).canonicalize();
    let permuted_xor = xor_expr(c, xor_expr(b, a)).canonicalize();
    assert_eq!(associated_xor, permuted_xor);

    assert_eq!(associated_or.clone().canonicalize(), associated_or);
    assert_eq!(associated_xor.clone().canonicalize(), associated_xor);
}

#[test]
fn canonicalize_equates_addition_and_subtraction_normal_forms() {
    let x = read_fixed_register(Register(1), 4, 8);
    let y = read_fixed_register(Register(2), 4, 8);
    let z = read_fixed_register(Register(3), 4, 8);

    let associated_add = add(
        add(x.clone(), constant(3, 8)),
        add(y.clone(), constant(5, 8)),
    )
    .canonicalize();
    let permuted_add = add(constant(8, 8), add(y.clone(), x.clone())).canonicalize();
    assert_eq!(associated_add, permuted_add);

    let twos_complement_sub = add(add(x.clone(), not_expr(y.clone())), constant(1, 8));
    assert_eq!(
        sub(x.clone(), y.clone()).canonicalize(),
        twos_complement_sub.canonicalize()
    );

    let add_of_subtraction = add(x.clone(), sub(y.clone(), z.clone())).canonicalize();
    let subtraction_of_add = sub(add(y, x), z).canonicalize();
    assert_eq!(add_of_subtraction, subtraction_of_add);
}

#[test]
fn canonicalize_eliminates_reduced_operators_recursively() {
    let x = read_fixed_register(Register(1), 4, 8);
    let y = read_fixed_register(Register(2), 4, 8);
    let z = read_fixed_register(Register(3), 4, 8);
    let expression = add(
        sub(
            or_expr(x.clone(), z.clone()),
            xor_expr(y.clone(), z.clone()),
        ),
        xor_expr(x.clone(), or_expr(y, sub(z, x))),
    );

    let canonical = expression.canonicalize();
    assert_operator_reduced(&canonical);
    assert_eq!(canonical.clone().canonicalize(), canonical);
}

#[test]
fn canonicalize_reduces_operators_after_resolving_instruction_fields() {
    let instruction = decoded_fixture_instruction();
    let expression = sub(
        or_expr(
            derived_value("expanded"),
            zero_extend(immediate_field("imm"), 8),
        ),
        xor_expr(
            read_register(register_field("rd"), 8),
            derived_value("doubled"),
        ),
    );

    let canonical = expression.collapse_and_canonicalize(&instruction);
    assert_operator_reduced(&canonical);
    assert_eq!(canonical.clone().canonicalize(), canonical);
}

#[test]
fn canonicalize_reduction_handles_identities_before_expansion() {
    let x = read_fixed_register(Register(1), 4, 8);

    assert_eq!(or_expr(x.clone(), x.clone()).canonicalize(), x.clone());
    assert_eq!(or_expr(x.clone(), constant(0, 8)).canonicalize(), x.clone());
    assert_eq!(
        or_expr(x.clone(), constant(0xff, 8)).canonicalize(),
        constant(0xff, 8)
    );
    assert_eq!(
        xor_expr(x.clone(), x.clone()).canonicalize(),
        constant(0, 8)
    );
    assert_eq!(
        xor_expr(x.clone(), constant(0, 8)).canonicalize(),
        x.clone()
    );
    assert_eq!(sub(x.clone(), x.clone()).canonicalize(), constant(0, 8));
    assert_eq!(sub(x.clone(), constant(0, 8)).canonicalize(), x);
}

#[test]
fn canonicalize_reduction_is_idempotent_across_widths() {
    for width in [1, 8, 128] {
        let x = read_fixed_register(Register(1), 4, width);
        let y = read_fixed_register(Register(2), 4, width);
        let canonical =
            sub(xor_expr(x.clone(), y.clone()), or_expr(not_expr(x), y)).canonicalize();

        assert_operator_reduced(&canonical);
        assert_eq!(canonical.clone().canonicalize(), canonical);
    }
}

#[test]
fn canonicalize_equates_multiplicative_and_nested_normal_forms() {
    let x = read_fixed_register(Register(1), 4, 8);
    let y = read_fixed_register(Register(2), 4, 8);
    let z = read_fixed_register(Register(3), 4, 8);

    let associated_mul = mul(
        mul(x.clone(), constant(3, 8)),
        mul(y.clone(), constant(5, 8)),
    )
    .canonicalize();
    let permuted_mul = mul(constant(15, 8), mul(y.clone(), x.clone())).canonicalize();
    assert_eq!(associated_mul, permuted_mul);

    let nested_left = and_expr(
        or_expr(x.clone(), y.clone()),
        not_expr(xor_expr(y.clone(), z.clone())),
    )
    .canonicalize();
    let nested_right = and_expr(
        not_expr(and_expr(not_expr(y.clone()), not_expr(x.clone()))),
        not_expr(or_expr(
            and_expr(y.clone(), not_expr(z.clone())),
            and_expr(not_expr(y), z),
        )),
    )
    .canonicalize();
    assert_eq!(nested_left, nested_right);

    assert_eq!(nested_left.clone().canonicalize(), nested_left);
}

#[test]
fn canonicalize_rewrites_preserve_four_bit_semantics() {
    let instruction = empty_instruction();

    for lhs in 0..16 {
        for rhs in 0..16 {
            let lhs = constant(lhs, 4);
            let rhs = constant(rhs, 4);
            let expressions = [
                add(lhs.clone(), rhs.clone()),
                sub(lhs.clone(), rhs.clone()),
                or_expr(lhs.clone(), rhs.clone()),
                xor_expr(lhs.clone(), rhs.clone()),
                xor_expr(
                    or_expr(lhs.clone(), rhs.clone()),
                    and_expr(not_expr(lhs.clone()), rhs.clone()),
                ),
                sub(
                    add(lhs.clone(), rhs.clone()),
                    xor_expr(lhs.clone(), rhs.clone()),
                ),
            ];

            for expression in expressions {
                let original = expression.clone().collapse(&instruction);
                let canonical = expression.canonicalize().collapse(&instruction);
                assert_eq!(canonical, original);
            }
        }
    }
}

#[test]
fn canonicalize_rewrites_preserve_edge_width_semantics() {
    let instruction = empty_instruction();

    for (width, lhs, rhs) in [
        (1, 0, 1),
        (1, 1, 1),
        (8, 0, 0xff),
        (8, 0x80, 0x7f),
        (128, 0, u128::MAX),
        (128, 1 << 127, (1 << 127) - 1),
    ] {
        let lhs = constant(lhs, width);
        let rhs = constant(rhs, width);
        let expressions = [
            sub(lhs.clone(), rhs.clone()),
            or_expr(lhs.clone(), rhs.clone()),
            xor_expr(lhs.clone(), rhs.clone()),
            sub(
                xor_expr(lhs.clone(), rhs.clone()),
                or_expr(not_expr(lhs.clone()), rhs.clone()),
            ),
        ];

        for expression in expressions {
            let expected = expression.clone().collapse(&instruction);
            let canonical = expression.canonicalize();
            assert_operator_reduced(&canonical);
            assert_eq!(canonical.collapse(&instruction), expected);
        }
    }
}

#[test]
fn mul_by_two_reduces_to_shift() {
    let instruction = empty_instruction();
    let lhs = read_fixed_register(Register(1), 4, 8);
    let rhs = constant(2, 8);
    let expression = mul(lhs.clone(), rhs);
    assert_eq!(
        expression.collapse_and_canonicalize(&instruction),
        shift_left(lhs, constant(1, 8)).collapse_and_canonicalize(&instruction)
    )
}

#[test]
fn mul_by_three_reduces_to_shift_add() {
    let instruction = empty_instruction();
    let lhs = read_fixed_register(Register(1), 4, 8);
    let rhs = constant(3, 8);
    let expression = mul(lhs.clone(), rhs);
    assert_eq!(
        expression.collapse_and_canonicalize(&instruction),
        add(shift_left(lhs.clone(), constant(1, 8)), lhs)
            .collapse_and_canonicalize(&instruction)
    )
}

#[test]
fn mul_by_seven_reduces_to_shift_add() {
    let instruction = empty_instruction();
    let lhs = read_fixed_register(Register(1), 4, 8);
    let rhs = constant(7, 8);
    let expression = mul(lhs.clone(), rhs);
    assert_eq!(
        expression.collapse_and_canonicalize(&instruction),
        // x * 7 = x << 2 + x << 1 + x
        add(
            shift_left(lhs.clone(), constant(2, 8)),
            add(shift_left(lhs.clone(), constant(1, 8)), lhs)
        )
        .collapse_and_canonicalize(&instruction)
    )
}

#[test]
fn mul_nested() {
    let instruction = empty_instruction();
    let register = read_fixed_register(Register(1), 4, 8);
    let lhs = constant(2, 8);
    let rhs = mul(register.clone(), constant(4, 8));
    let expression = mul(lhs, rhs);

    assert_eq!(
        expression.collapse_and_canonicalize(&instruction),
        // 2 * (x * 4) = x << 3
        shift_left(register, constant(3, 8))
    )
}

#[test]
fn mul_add_identity() {
    let instruction = empty_instruction();
    let register = read_fixed_register(Register(1), 4, 8);
    let expression = add(constant(0, 8), mul(constant(5, 8), register.clone()));
    assert_eq!(
        expression.clone().collapse_and_canonicalize(&instruction),
        // 0 + (x * 5) = x << 2 + x
        add(
            register.clone(),
            shift_left(register.clone(), constant(2, 8))
        )
        .canonicalize()
    );

    // also check another order just for fun
    assert_eq!(
        expression.collapse_and_canonicalize(&instruction),
        // 0 + (x * 5) = x << 2 + x
        add(shift_left(register.clone(), constant(2, 8)), register).canonicalize()
    );
}
