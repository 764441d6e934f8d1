//! What expressions mean stays the same under collapsing, canonicalizing and substituting.
use isa_minimization::bit::BitPattern;
use isa_minimization::instruction_semantics::{
    add, add_carry_out, add_overflow, and_expr, arithmetic_shift_right, bool_const, constant,
    count_ones, derived_value, equal, extract, immediate_field, logical_shift_right, mul, not_expr,
    or_expr, read_memory, read_register, rotate_right, select, shift_left, sign_extend,
    signed_less_than, sub, sub_carry_out, sub_overflow, unsigned_less_than, xor_expr, zero_extend,
    Effect, Expr, ValueName,
};
use isa_minimization::isa_specification::{
    DecodedInstruction, DerivedValue, Instruction, InstructionField, InstructionForm,
};

fn no_fields() -> DecodedInstruction {
    DecodedInstruction {
        name: "plain".to_owned(),
        form: InstructionForm::new("plain"),
        bits: Vec::new(),
        fields: Vec::new(),
        branch_instruction: None,
        mem_addr: 0,
        static_instruction: false,
        assembly_line: 0,
    }
}

fn value_of(expr: Expr) -> Expr {
    expr.collapse(&no_fields())
}

/// The register with the number that a byte of the test is read from.
fn byte(register: u8) -> Expr {
    read_register(constant(register as u128, 4), 8)
}

fn write(register: u8, value: u128) -> Effect {
    Effect::write_register(constant(register as u128, 4), constant(value, 8))
}

/// The value of an expression over two registers.
fn at(expr: &Expr, a: u128, b: u128) -> Expr {
    value_of(expr.clone().substitute(&vec![write(0, a), write(1, b)]))
}

fn samples() -> Vec<Expr> {
    let a = || byte(0);
    let b = || byte(1);
    vec![
        add(add(a(), constant(250, 8)), add(b(), constant(9, 8))),
        sub(a(), b()),
        mul(a(), constant(11, 8)),
        mul(mul(constant(3, 8), a()), mul(b(), constant(5, 8))),
        or_expr(a(), and_expr(a(), b())),
        and_expr(a(), or_expr(b(), a())),
        xor_expr(xor_expr(a(), b()), xor_expr(a(), constant(0x5a, 8))),
        not_expr(or_expr(not_expr(a()), b())),
        select(unsigned_less_than(a(), b()), add(a(), b()), sub(a(), b())),
        select(signed_less_than(a(), b()), constant(1, 8), constant(2, 8)),
        zero_extend(zero_extend(a(), 12), 16),
        sign_extend(sign_extend(a(), 12), 16),
        extract(isa_minimization::instruction_semantics::concat(vec![a(), b()]), 11, 4),
        isa_minimization::instruction_semantics::concat(vec![
            constant(2, 3),
            constant(1, 2),
            a(),
            constant(1, 1),
            constant(3, 2),
        ]),
        shift_left(a(), and_expr(b(), constant(7, 8))),
        logical_shift_right(a(), constant(3, 8)),
        arithmetic_shift_right(a(), constant(3, 8)),
        rotate_right(a(), b()),
        count_ones(a()),
        add_carry_out(a(), b(), bool_const(true), 8),
        sub_overflow(a(), b(), bool_const(true), 8),
        equal(a(), sub(add(a(), b()), b())),
    ]
}

#[test]
fn canonical_forms_keep_their_values() {
    for sample in samples() {
        let form = sample.clone().canonicalize();
        for a in [0u128, 1, 2, 0x55, 0x7f, 0x80, 0xaa, 0xff] {
            for b in [0u128, 1, 3, 0x7f, 0x80, 0xfe, 0xff] {
                assert_eq!(at(&sample, a, b), at(&form, a, b), "{sample:?} at {a} and {b}");
            }
        }
    }
}

#[test]
fn a_product_of_a_shifted_factor_keeps_its_value_while_the_amount_fits() {
    let sample = mul(shift_left(byte(0), byte(1)), constant(6, 8));
    let form = sample.clone().canonicalize();
    for b in [0u128, 1, 7, 8, 200, 253] {
        assert_eq!(at(&sample, 5, b), at(&form, 5, b));
    }
    // The amounts are 255 + 1 and 255 + 2, which wrap around to no shift and to one place.
    assert_eq!(at(&sample, 5, 255), constant(0, 8));
    assert_eq!(at(&form, 5, 255), constant(15, 8));
}

#[test]
fn terms_are_absorbed_by_terms_that_stay() {
    // Both disjunctions have the form `a`, which each of them contains.
    let side = || or_expr(byte(0), constant(0, 8));
    let sample = and_expr(and_expr(side(), side()), byte(1));
    assert_eq!(sample.canonicalize(), and_expr(byte(0), byte(1)));
    assert_eq!(and_expr(side(), side()).canonicalize(), byte(0));
    assert_eq!(and_expr(side(), or_expr(byte(0), byte(1))).canonicalize(), byte(0));
    // The third term contains the form of the second one, which contains the first one.
    let second = || or_expr(byte(0), byte(1));
    let third = or_expr(not_expr(not_expr(second())), byte(2));
    let chain = and_expr(and_expr(byte(0), second()), third);
    assert_eq!(chain.canonicalize(), byte(0));
}

#[test]
fn order_and_grouping_do_not_change_the_canonical_form() {
    let operators: [fn(Expr, Expr) -> Expr; 5] = [add, mul, and_expr, or_expr, xor_expr];
    let a = || or_expr(byte(0), byte(1));
    let b = || and_expr(byte(2), not_expr(byte(1)));
    let c = || add(byte(0), constant(7, 8));
    for op in operators {
        assert_eq!(op(a(), b()).canonicalize(), op(b(), a()).canonicalize());
        let grouped = op(op(a(), b()), c()).canonicalize();
        assert_eq!(grouped, op(c(), op(b(), a())).canonicalize());
        assert_eq!(grouped, op(a(), op(b(), c())).canonicalize());
    }
    assert_eq!(equal(a(), c()).canonicalize(), equal(c(), a()).canonicalize());
    // Instruction fields and derived values have no known width, which sums and products ask for.
    let operators: [fn(Expr, Expr) -> Expr; 3] = [and_expr, or_expr, xor_expr];
    let a = || or_expr(immediate_field("imm"), byte(1));
    let b = || and_expr(derived_value("offset"), byte(0));
    let c = || xor_expr(derived_value("imm"), immediate_field("offset\""));
    for op in operators {
        assert_eq!(op(a(), b()).canonicalize(), op(b(), a()).canonicalize());
        let grouped = op(op(a(), b()), c()).canonicalize();
        assert_eq!(grouped, op(c(), op(b(), a())).canonicalize());
        assert_eq!(grouped, op(a(), op(b(), c())).canonicalize());
    }
    assert_eq!(equal(a(), c()).canonicalize(), equal(c(), a()).canonicalize());
}

#[test]
fn expressions_that_do_not_fit_have_no_form() {
    let plain = no_fields();
    for misfit in [
        immediate_field("imm"),
        derived_value("offset"),
        add(constant(1, 8), constant(1, 16)),
        sub(constant(1, 8), constant(1, 16)),
        not_expr(constant(1, 0)),
        extract(constant(1, 8), 8, 0),
        extract(byte(0), 0, 1),
        zero_extend(constant(1, 8), 4),
        select(constant(1, 2), byte(0), byte(1)),
        unsigned_less_than(immediate_field("imm"), byte(0)),
    ] {
        assert_eq!(misfit.try_collapse(&plain), None);
    }
    for misfit in [
        constant(0, 129),
        add(constant(1, 8), constant(1, 16)),
        sub(immediate_field("imm"), byte(0)),
        not_expr(constant(1, 0)),
        extract(byte(0), 8, 0),
        sign_extend(byte(0), 4),
        select(byte(0), byte(1), byte(2)),
        shift_left(byte(0), constant(1, 129)),
        equal(byte(0), and_expr(constant(1, 8), constant(1, 4))),
    ] {
        assert_eq!(misfit.try_canonicalize(), None);
    }
    let fitting = add(byte(0), constant(3, 8));
    assert_eq!(fitting.try_collapse(&plain), Some(fitting.clone().collapse(&plain)));
    assert_eq!(fitting.clone().try_canonicalize(), Some(fitting.canonicalize()));
    assert_eq!(BitPattern::parse("101").try_to_int(), Some(5));
    assert_eq!(BitPattern::parse("1x1").try_to_int(), None);
    assert_eq!(BitPattern::parse(&"1".repeat(128)).try_to_int(), Some(u128::MAX));
    assert_eq!(BitPattern::parse(&"1".repeat(129)).try_to_int(), None);
}

#[test]
fn canonical_forms_of_literals_fold_like_the_expressions() {
    for width in [1u16, 3, 8, 128] {
        let mask = if width == 128 { u128::MAX } else { (1u128 << width) - 1 };
        for (a, b) in [(0u128, 0u128), (1, 0), (5, 6), (6, 5), (0x80, 0x7f), (u128::MAX, 1)] {
            let (a, b) = (a & mask, b & mask);
            let l = || constant(a, width);
            let r = || constant(b, width);
            let mut all = vec![
                add(l(), r()),
                sub(l(), r()),
                mul(l(), r()),
                and_expr(l(), r()),
                or_expr(l(), r()),
                xor_expr(l(), r()),
            ];
            for flag in [false, true] {
                all.push(sub_carry_out(l(), r(), bool_const(flag), width));
                all.push(sub_overflow(l(), r(), bool_const(flag), width));
                all.push(add_carry_out(l(), r(), bool_const(flag), width));
                all.push(add_overflow(l(), r(), bool_const(flag), width));
            }
            for expr in all {
                assert_eq!(value_of(expr.clone().canonicalize()), value_of(expr));
            }
            assert_eq!(sub(l(), r()).canonicalize(), constant(a.wrapping_sub(b) & mask, width));
        }
    }
}

#[test]
fn canonical_forms_have_no_lowered_operators() {
    fn is_plain(expr: &Expr) -> bool {
        match expr {
            Expr::Sub(_, _)
            | Expr::Or(_, _)
            | Expr::Xor(_, _)
            | Expr::Select { .. }
            | Expr::SubCarryOut { .. }
            | Expr::SubOverflow { .. } => false,
            Expr::Const { value, width } => *width == 128 || *value < (1u128 << *width),
            Expr::Operand(_) | Expr::DerivedValue(_) => true,
            Expr::ReadRegister { register: part, .. }
            | Expr::ReadMemory { address: part, .. }
            | Expr::Not(part)
            | Expr::CountOnes(part)
            | Expr::Extract { value: part, .. }
            | Expr::ZeroExtend { value: part, .. }
            | Expr::SignExtend { value: part, .. } => is_plain(part),
            Expr::Add(l, r)
            | Expr::Mul(l, r)
            | Expr::And(l, r)
            | Expr::ShiftLeft(l, r)
            | Expr::LogicalShiftRight(l, r)
            | Expr::ArithmeticShiftRight(l, r)
            | Expr::RotateRight(l, r)
            | Expr::Equal(l, r)
            | Expr::UnsignedLessThan(l, r)
            | Expr::SignedLessThan(l, r) => is_plain(l) && is_plain(r),
            Expr::Concat(parts) => parts.iter().all(is_plain),
            Expr::AddCarryOut { lhs, rhs, carry_in, .. }
            | Expr::AddOverflow { lhs, rhs, carry_in, .. } => {
                is_plain(lhs) && is_plain(rhs) && is_plain(carry_in)
            }
        }
    }
    for sample in samples() {
        assert!(is_plain(&sample.canonicalize()));
    }
    assert_eq!(constant(0x1ff, 8).canonicalize(), constant(0xff, 8));
}

#[test]
fn canonical_forms_order_their_terms_by_quoted_names() {
    // A quotation mark in a name is escaped, and the escape sorts behind `#`.
    let hash = || derived_value("a#");
    let quote = || derived_value("a\"");
    assert_eq!(
        and_expr(quote(), hash()).canonicalize(),
        and_expr(hash(), quote())
    );
    assert_eq!(
        and_expr(hash(), quote()).canonicalize(),
        and_expr(hash(), quote())
    );
}

#[test]
fn canonicalizing_twice_changes_nothing() {
    for sample in samples() {
        let form = sample.canonicalize();
        assert_eq!(form.clone().canonicalize(), form);
    }
}

#[test]
fn substituting_reads_the_state_after_the_writes() {
    let effects = vec![
        write(0, 3),
        Effect::write_register_if(
            equal(byte(2), constant(1, 8)),
            constant(0, 4),
            constant(9, 8),
        ),
        Effect::write_memory(constant(16, 8), constant(0x42, 8), 8),
    ];
    let sum = add(byte(0), read_memory(constant(16, 8), 8)).substitute(&effects);
    let before = |r2: u128| vec![write(2, r2)];
    assert_eq!(value_of(sum.clone().substitute(&before(1))), constant(0x4b, 8));
    assert_eq!(value_of(sum.substitute(&before(0))), constant(0x45, 8));
}

#[test]
fn collapsing_puts_the_instruction_in() {
    let instruction = Instruction::new("add_immediate", 8).form(
        InstructionForm::new("form")
            .field(InstructionField::constant("01"))
            .field(InstructionField::variable("imm", 6))
            .derived_value(DerivedValue {
                name: ValueName("wide".to_owned()),
                value: zero_extend(immediate_field("imm"), 8),
            })
            .derived_value(DerivedValue {
                name: ValueName("twice".to_owned()),
                value: add(derived_value("wide"), derived_value("wide")),
            }),
    );
    let decoded = instruction
        .find_match(&BitPattern::parse("01101010").bits)
        .unwrap();
    let expr = sub(derived_value("twice"), immediate_field("imm"));
    assert_eq!(derived_value("twice").collapse(&decoded), constant(84, 8));
    assert_eq!(
        zero_extend(immediate_field("imm"), 8).collapse(&decoded),
        constant(42, 8)
    );
    assert_eq!(
        sub(derived_value("twice"), constant(4, 8)).collapse_and_canonicalize(&decoded),
        constant(80, 8)
    );
    assert_eq!(expr.expr_width(), None);
    assert_eq!(
        add(derived_value("wide"), byte(0))
            .collapse_substitute_and_canonicalize(&decoded, &vec![write(0, 1)])
            .collapse(&decoded),
        constant(43, 8)
    );
}
