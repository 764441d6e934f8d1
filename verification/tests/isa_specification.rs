//! Decoding, field uses and encodings.
use isa_minimization::bit::{Bit, BitPattern};
use isa_minimization::collections::{OrderedMap, OrderedSet};
use isa_minimization::instruction_semantics::Expr;
use isa_minimization::isa_specification::{
    and, bit_eq, c, field_eq, field_in, instruction_valid_under_field_uses, ArchitecturalRegister,
    BranchOffset, DecodedField, DecodedInstruction, FieldUses, ISA, Instruction, InstructionField,
    InstructionForm, MergeMode, StackDirection, StackPointer,
};

type FieldName = String;

fn named(fields: Vec<(FieldName, FieldUses)>) -> OrderedMap<FieldUses> {
    let mut map = OrderedMap::new();
    for (name, uses) in fields {
        map.insert(name, uses);
    }
    map
}

fn minimal_isa(instruction: Instruction) -> ISA {
    let reg = ArchitecturalRegister {
        identifier: 0,
        identifier_width: 1,
        width: 32,
    };
    ISA {
        registers: vec![reg],
        instructions: vec![instruction],
        sp: StackPointer {
            register: reg,
            stack_size: 16,
            direction: StackDirection::Downwards,
        },
        pc: reg,
    }
}

#[test]
fn decode_program_reads_binary_file() {
    let instruction = Instruction::new("NOP", 2)
        .form(InstructionForm::new("nop_form").field(InstructionField::constant("01")));
    let isa = minimal_isa(instruction);

    let decoded = DecodedInstruction::decode_program_str("01\n01\n", &isa).unwrap();

    assert_eq!(decoded.len(), 2);
    assert!(decoded.iter().all(|instr| instr.name == "NOP"));
    assert_eq!(decoded[0].assembly_line, 0);
    assert_eq!(decoded[1].assembly_line, 1);
}

#[test]
fn field_and_predicate_builders_cover_variable_bits_and_field_in() {
    let field = InstructionField::variable("mode", 2)
        .merge_mode_uses()
        .merge_mode_variable_bits();
    assert_eq!(field.merge_mode, MergeMode::VariableBits);

    let instruction = Instruction::new("TEST", 2).form(
        InstructionForm::new("form")
            .field(field)
            .when(field_in("mode", vec!["01", "10"])),
    );

    assert!(
        instruction
            .find_match(&BitPattern::parse("01").bits)
            .is_some()
    );
    assert!(
        instruction
            .find_match(&BitPattern::parse("10").bits)
            .is_some()
    );
    assert!(
        instruction
            .find_match(&BitPattern::parse("11").bits)
            .is_none()
    );
}

#[test]
fn find_match_marks_branch_instructions_static() {
    let instruction = Instruction::new("BRANCH", 2)
        .branch_instruction(BranchOffset::PCRelative(Expr::Const { value: 0, width: 8 }))
        .form(InstructionForm::new("branch_form").field(InstructionField::constant("11")));

    let decoded = instruction
        .find_match(&BitPattern::parse("11").bits)
        .expect("branch instruction should decode");

    assert!(decoded.branch_instruction.is_some());
    assert!(decoded.static_instruction);
}

fn decoded_with_form(form: InstructionForm, fields: Vec<DecodedField>) -> DecodedInstruction {
    DecodedInstruction {
        name: "TEST".to_string(),
        form,
        bits: BitPattern::parse("101011").bits,
        fields,
        branch_instruction: None,
        mem_addr: 0,
        static_instruction: false,
        assembly_line: 0,
    }
}

fn decoded_field(name: Option<&str>, value: &str, merge_mode: MergeMode) -> DecodedField {
    DecodedField {
        name: name.map(str::to_string),
        value: BitPattern::parse(value),
        merge_mode,
        is_immediate: false,
        is_register_read: false,
        is_register_write: false,
    }
}

fn uses(name: &str, patterns: &[&str]) -> (FieldName, FieldUses) {
    let len = patterns.first().expect("uses requires patterns").len();
    (
        name.to_string(),
        FieldUses::Uses {
            name: name.to_string(),
            patterns: OrderedSet::from_vec(
                patterns.iter().map(|pattern| BitPattern::parse(pattern)).collect(),
            ),
            len,
        },
    )
}

fn variable_bits(name: &str, pattern: &str) -> (FieldName, FieldUses) {
    (
        name.to_string(),
        FieldUses::VariableBits {
            name: name.to_string(),
            pattern: Some(BitPattern::parse(pattern)),
            len: pattern.len(),
        },
    )
}

#[test]
fn instruction_valid_under_field_uses_accepts_matching_named_fields() {
    let instr = decoded_with_form(
        InstructionForm::new("form"),
        vec![
            decoded_field(None, "101", MergeMode::VariableBits),
            decoded_field(Some("opcode"), "10", MergeMode::Uses),
            decoded_field(Some("imm"), "0110", MergeMode::VariableBits),
        ],
    );
    let valid_field_uses =
        named(vec![uses("opcode", &["00", "10"]), variable_bits("imm", "0xx0")]);

    assert!(instruction_valid_under_field_uses(
        &instr,
        &valid_field_uses
    ));
}

#[test]
fn instruction_valid_under_field_uses_rejects_empty_variable_bits_use() {
    let instr = decoded_with_form(
        InstructionForm::new("form"),
        vec![decoded_field(Some("imm"), "01", MergeMode::VariableBits)],
    );
    let valid_field_uses = named(vec![(
        "imm".to_string(),
        FieldUses::VariableBits {
            name: "imm".to_string(),
            pattern: None,
            len: 2,
        },
    )]);

    assert!(!instruction_valid_under_field_uses(
        &instr,
        &valid_field_uses
    ));
}

#[test]
fn instruction_valid_under_field_uses_accepts_variable_decoded_uses_field() {
    let instr = decoded_with_form(
        InstructionForm::new("form"),
        vec![decoded_field(Some("opcode"), "1x", MergeMode::Uses)],
    );
    let valid_field_uses = named(vec![uses("opcode", &["10"])]);

    assert!(instruction_valid_under_field_uses(
        &instr,
        &valid_field_uses
    ));
}

#[test]
fn instruction_valid_under_field_uses_rejects_missing_field_use() {
    let instr = decoded_with_form(
        InstructionForm::new("form"),
        vec![decoded_field(Some("opcode"), "10", MergeMode::Uses)],
    );

    assert!(!instruction_valid_under_field_uses(&instr, &OrderedMap::new()));
}

#[test]
fn instruction_valid_under_field_uses_rejects_nonmatching_uses_pattern() {
    let instr = decoded_with_form(
        InstructionForm::new("form"),
        vec![decoded_field(Some("opcode"), "10", MergeMode::Uses)],
    );
    let valid_field_uses = named(vec![uses("opcode", &["00", "01"])]);

    assert!(!instruction_valid_under_field_uses(
        &instr,
        &valid_field_uses
    ));
}

#[test]
fn instruction_valid_under_field_uses_rejects_nonmatching_variable_bits_pattern() {
    let instr = decoded_with_form(
        InstructionForm::new("form"),
        vec![decoded_field(Some("imm"), "0110", MergeMode::VariableBits)],
    );
    let valid_field_uses = named(vec![variable_bits("imm", "1xx0")]);

    assert!(!instruction_valid_under_field_uses(
        &instr,
        &valid_field_uses
    ));
}

#[test]
fn instruction_valid_under_field_uses_rejects_failed_form_predicate() {
    let instr = decoded_with_form(
        InstructionForm::new("form")
            .field(InstructionField::variable("mode", 2))
            .when(field_eq("mode", "11")),
        vec![decoded_field(Some("mode"), "10", MergeMode::VariableBits)],
    );
    let valid_field_uses = named(vec![variable_bits("mode", "xx")]);

    assert!(!instruction_valid_under_field_uses(
        &instr,
        &valid_field_uses
    ));
}


#[test]
fn test_simple_match() {
    let test = Instruction::new("TEST", 2).form(
        InstructionForm::new("form1")
            .fields(vec![
                InstructionField::variable("field1", 1), // bit 0 must be 0
                InstructionField::variable("field2", 1), // bit 1 must be 0
            ])
            .when(and(vec![field_eq("field1", "0"), field_eq("field2", "0")])),
    );
    let test_bits = vec![Bit::Low, Bit::Low];
    let test_decoded = test.find_match(&test_bits);
    assert!(test_decoded.is_some());
    let test_decoded = test_decoded.unwrap();
    assert_eq!(test_decoded.bits, test_bits);
    assert_eq!(test_decoded.fields.len(), 2);
    assert_eq!(test_decoded.fields[0].name, Some("field1".to_string()));
    assert_eq!(test_decoded.fields[0].value, BitPattern::parse("0"));
    assert_eq!(test_decoded.fields[1].name, Some("field2".to_string()));
    assert_eq!(test_decoded.fields[1].value, BitPattern::parse("0"));
}

#[test]
fn decoded_fields_preserve_immediate_marker() {
    let test =
        Instruction::new("TEST", 6).form(InstructionForm::new("form1").fields(vec![
            InstructionField::constant("10"),
            InstructionField::variable("rd", 2).merge_mode_uses(),
            InstructionField::variable("imm", 2).immediate(),
        ]));

    let decoded = test
        .find_match(&[
            Bit::High,
            Bit::Low,
            Bit::High,
            Bit::Low,
            Bit::Low,
            Bit::High,
        ])
        .expect("instruction should decode");

    assert!(!decoded.fields[0].is_immediate);
    assert!(!decoded.fields[1].is_immediate);
    assert!(decoded.fields[2].is_immediate);
}

#[test]
fn test_no_match() {
    let test = Instruction::new("TEST", 2).form(
        InstructionForm::new("form1")
            .fields(vec![
                InstructionField::variable("field1", 1), // bit 0 must be 0
                InstructionField::variable("field2", 1), // bit 1 must be 0
            ])
            .when(and(vec![field_eq("field1", "0"), field_eq("field2", "0")])),
    );
    let test_bits = vec![Bit::High, Bit::Low];
    let test_decoded = test.find_match(&test_bits);
    assert!(test_decoded.is_none());
}

#[test]
fn test_ambiguous_match() {
    let test = Instruction::new("TEST", 2)
        .form(
            InstructionForm::new("form1")
                .fields(vec![
                    InstructionField::variable("field1", 1), // bit 0 must be 0
                    InstructionField::variable("field2", 1), // bit 1 must be 0
                ])
                .when(and(vec![field_eq("field1", "0"), field_eq("field2", "0")])),
        )
        .form(
            InstructionForm::new("form2")
                .fields(vec![
                    InstructionField::variable("field1", 1), // bit 0 must be 0
                    InstructionField::variable("field2", 1), // bit 1 must be 0
                ])
                .when(and(vec![field_eq("field1", "0"), field_eq("field2", "0")])),
        );
    let test_bits = vec![Bit::Low, Bit::Low];
    let test_decoded = test.find_match(&test_bits);
    assert!(test_decoded.is_none());
}

#[test]
fn test_disambiguation() {
    let test = Instruction::new("TEST", 3)
        .form(
            InstructionForm::new("form1")
                .fields(vec![
                    InstructionField::variable("field1", 1), // bit 0 must be 0
                    InstructionField::variable("field2", 1), // bit 1 must be 0
                    InstructionField::variable("field3", 1), // bit 2 must be 0
                ])
                .when(and(vec![field_eq("field1", "0"), field_eq("field2", "0")])),
        )
        .form(
            InstructionForm::new("form2")
                .fields(vec![
                    InstructionField::variable("field1", 1), // bit 0 must be 0
                    InstructionField::variable("field2", 1), // bit 1 must be 0
                    InstructionField::variable("field4", 1), // bit 2 must be 0
                ])
                .when(and(vec![field_eq("field1", "0"), field_eq("field2", "1")])),
        );
    let test_bits = vec![Bit::Low, Bit::High, Bit::Var];
    let test_decoded = test.find_match(&test_bits);
    assert!(test_decoded.is_some());
    let test_decoded = test_decoded.unwrap();
    assert_eq!(test_decoded.bits, test_bits);
    assert_eq!(test_decoded.fields.len(), 3);
    assert_eq!(test_decoded.fields[0].name, Some("field1".to_string()));
    assert_eq!(test_decoded.fields[0].value, BitPattern::parse("0"));
    assert_eq!(test_decoded.fields[1].name, Some("field2".to_string()));
    assert_eq!(test_decoded.fields[1].value, BitPattern::parse("1"));
    assert_eq!(test_decoded.fields[2].name, Some("field4".to_string()));
    assert_eq!(test_decoded.fields[2].value, BitPattern::parse("x"));
}


#[test]
fn constrain_variable_bits_applies_field_and_bit_eq_predicates() {
    let form = InstructionForm::new("form1")
        .field(InstructionField::variable("field1", 3))
        .when(and(vec![field_eq("field1", "1x0"), bit_eq(1, Bit::High)]));

    assert_eq!(
        form.constrain_variable_bits(&BitPattern::parse("xxx"), 0, "field1"),
        vec![BitPattern::parse("110")]
    );
}

#[test]
fn constrain_variable_bits_rejects_unsatisfiable_predicates() {
    let form = InstructionForm::new("form1")
        .field(InstructionField::variable("field1", 2))
        .when(and(vec![field_eq("field1", "10"), bit_eq(1, Bit::High)]));

    assert_eq!(
        form.constrain_variable_bits(&BitPattern::parse("1x"), 0, "field1"),
        Vec::<BitPattern>::new()
    );
}

#[test]
fn constrain_variable_bits_expands_field_in_predicates() {
    let form = InstructionForm::new("form1")
        .field(InstructionField::variable("field1", 2))
        .when(field_in("field1", vec!["0x", "x1"]));
    let expected = OrderedSet::from_vec(vec![BitPattern::parse("0x"), BitPattern::parse("x1")]);

    assert_eq!(
        OrderedSet::from_vec(form.constrain_variable_bits(&BitPattern::parse("xx"), 0, "field1")),
        expected
    );
}

#[test]
fn constrain_variable_bits_merges_field_in_results() {
    let form = InstructionForm::new("form1")
        .field(InstructionField::variable("field1", 2))
        .when(field_in("field1", vec!["00", "10"]));

    assert_eq!(
        form.constrain_variable_bits(&BitPattern::parse("xx"), 0, "field1"),
        vec![BitPattern::parse("x0")]
    );
}

#[test]
fn test_variable_bits() {
    let form = InstructionForm::new("form1").field(InstructionField::variable("field1", 2));
    let mut field_values = OrderedMap::new();
    field_values.insert(
        "field1".to_string(),
        FieldUses::VariableBits {
            name: "field1".to_string(),
            pattern: Some(BitPattern::parse("x1")),
            len: 2,
        },
    );
    let encodings = form.fields_to_encodings(&field_values);
    assert_eq!(encodings.len(), 1);
    assert_eq!(encodings[0], BitPattern::parse("x1"));
}

#[test]
fn test_variable_bits_none_generates_no_encodings() {
    let form = InstructionForm::new("form1").field(InstructionField::variable("field1", 2));
    let mut field_values = OrderedMap::new();
    field_values.insert(
        "field1".to_string(),
        FieldUses::VariableBits {
            name: "field1".to_string(),
            pattern: None,
            len: 2,
        },
    );

    let encodings = form.fields_to_encodings(&field_values);

    assert!(encodings.is_empty());
}

#[test]
fn test_uses() {
    let form = InstructionForm::new("form1")
        .field(InstructionField::variable("field1", 2).merge_mode_uses());
    let mut field_values = OrderedMap::new();
    field_values.insert(
        "field1".to_string(),
        FieldUses::Uses {
            name: "field1".to_string(),
            patterns: OrderedSet::from_vec(vec![BitPattern::parse("00"),
                BitPattern::parse("01"),
                BitPattern::parse("11"),
            ]),
            len: 2,
        },
    );
    let encodings = form.fields_to_encodings(&field_values);
    assert_eq!(encodings.len(), 3);
    assert!(encodings.contains(&BitPattern::parse("00")));
    assert!(encodings.contains(&BitPattern::parse("01")));
    assert!(encodings.contains(&BitPattern::parse("11")));
}

#[test]
fn fields_to_encodings_splits_wildcard_uses_with_field_in_predicate() {
    let form = InstructionForm::new("form1")
        .field(InstructionField::variable("field1", 2).merge_mode_uses())
        .when(field_in("field1", vec!["00", "10"]));
    let mut field_values = OrderedMap::new();
    field_values.insert(
        "field1".to_string(),
        FieldUses::Uses {
            name: "field1".to_string(),
            patterns: OrderedSet::from_vec(vec![BitPattern::parse("xx")]),
            len: 2,
        },
    );

    let encodings = form.fields_to_encodings(&field_values);

    assert_eq!(encodings, vec![BitPattern::parse("x0")]);
}

#[test]
fn test_mixed() {
    let form = InstructionForm::new("form1")
        .field(InstructionField::variable("field1", 2).merge_mode_uses())
        .field(InstructionField::variable("field2", 1));
    let mut field_values = OrderedMap::new();
    field_values.insert(
        "field1".to_string(),
        FieldUses::Uses {
            name: "field1".to_string(),
            patterns: OrderedSet::from_vec(vec![BitPattern::parse("00"), BitPattern::parse("01")]),
            len: 2,
        },
    );
    field_values.insert(
        "field2".to_string(),
        FieldUses::VariableBits {
            name: "field2".to_string(),
            pattern: Some(BitPattern::parse("x")),
            len: 1,
        },
    );
    let encodings = form.fields_to_encodings(&field_values);
    assert_eq!(encodings.len(), 2);
    assert!(encodings.contains(&BitPattern::parse("00x")));
    assert!(encodings.contains(&BitPattern::parse("01x")));
}

#[test]
fn test_complex() {
    let form = InstructionForm::new("form1")
        .field(InstructionField::variable("field1", 2).merge_mode_uses())
        .field(InstructionField::variable("field2", 2))
        .field(InstructionField::variable("field3", 3).merge_mode_uses());
    let mut field_values = OrderedMap::new();
    field_values.insert(
        "field1".to_string(),
        FieldUses::Uses {
            name: "field1".to_string(),
            patterns: OrderedSet::from_vec(vec![BitPattern::parse("00"), BitPattern::parse("01")]),
            len: 2,
        },
    );
    field_values.insert(
        "field2".to_string(),
        FieldUses::VariableBits {
            name: "field2".to_string(),
            pattern: Some(BitPattern::parse("xx")),
            len: 2,
        },
    );
    field_values.insert(
        "field3".to_string(),
        FieldUses::Uses {
            name: "field3".to_string(),
            patterns: OrderedSet::from_vec(vec![BitPattern::parse("000"), BitPattern::parse("111")]),
            len: 3,
        },
    );
    let encodings = form.fields_to_encodings(&field_values);
    assert_eq!(encodings.len(), 4);
    assert!(encodings.contains(&BitPattern::parse("00xx000")));
    assert!(encodings.contains(&BitPattern::parse("00xx111")));
    assert!(encodings.contains(&BitPattern::parse("01xx000")));
    assert!(encodings.contains(&BitPattern::parse("01xx111")));
}

#[test]
fn test_consts() {
    let form = InstructionForm::new("form1")
        .field(c("10"))
        .field(InstructionField::variable("field1", 2).merge_mode_uses());
    let mut field_values = OrderedMap::new();
    field_values.insert(
        "field1".to_string(),
        FieldUses::Uses {
            name: "field1".to_string(),
            patterns: OrderedSet::from_vec(vec![BitPattern::parse("00"), BitPattern::parse("01")]),
            len: 2,
        },
    );
    let encodings = form.fields_to_encodings(&field_values);
    assert_eq!(encodings.len(), 2);
    assert!(encodings.contains(&BitPattern::parse("1000")));
    assert!(encodings.contains(&BitPattern::parse("1001")));
}

#[test]
fn test_field_predicate_constraint_variable() {
    let form = InstructionForm::new("form1")
        .field(c("100101"))
        .field(InstructionField::variable("field2", 2))
        .field(c("10010"))
        .when(field_eq("field2", "00"));
    let mut field_values = OrderedMap::new();
    field_values.insert(
        "field2".to_string(),
        FieldUses::VariableBits {
            name: "field2".to_string(),
            pattern: Some(BitPattern::parse("xx")),
            len: 2,
        },
    );
    let encodings = form.fields_to_encodings(&field_values);
    assert_eq!(encodings.len(), 1);
    assert!(encodings.contains(&BitPattern::parse("1001010010010")));
}

#[test]
fn test_field_predicate_constraint_uses() {
    let form = InstructionForm::new("form1")
        .field(c("100101"))
        .field(InstructionField::variable("field2", 2).merge_mode_uses())
        .field(c("10010"))
        .when(field_eq("field2", "00"));
    let mut field_values = OrderedMap::new();
    field_values.insert(
        "field2".to_string(),
        FieldUses::Uses {
            name: "field2".to_string(),
            patterns: OrderedSet::from_vec(vec![BitPattern::parse("00"),
                BitPattern::parse("0x"),
                BitPattern::parse("01"),
            ]),
            len: 2,
        },
    );
    let encodings = form.fields_to_encodings(&field_values);
    assert_eq!(encodings.len(), 1);
    assert!(encodings.contains(&BitPattern::parse("1001010010010")));
}

#[test]
fn test_field_predicate_constraint_unsatisfiable() {
    let form = InstructionForm::new("form1")
        .field(c("100101"))
        .field(InstructionField::variable("field2", 2).merge_mode_uses())
        .field(c("10010"))
        .when(field_eq("field2", "00"));
    let mut field_values = OrderedMap::new();
    field_values.insert(
        "field2".to_string(),
        FieldUses::Uses {
            name: "field2".to_string(),
            patterns: OrderedSet::from_vec(vec![BitPattern::parse("01"), BitPattern::parse("10")]),
            len: 2,
        },
    );
    let encodings = form.fields_to_encodings(&field_values);
    assert_eq!(encodings.len(), 0);
}

#[test]
fn test_field_predicate_constraint_multiple() {
    let form = InstructionForm::new("form1")
        .field(c("100101"))
        .field(InstructionField::variable("field2", 2).merge_mode_uses())
        .field(c("10010"))
        .field(InstructionField::variable("field3", 1))
        .when(and(vec![field_eq("field2", "00"), bit_eq(13, Bit::High)]));
    let mut field_values = OrderedMap::new();
    field_values.insert(
        "field2".to_string(),
        FieldUses::Uses {
            name: "field2".to_string(),
            patterns: OrderedSet::from_vec(vec![BitPattern::parse("00"),
                BitPattern::parse("0x"),
                BitPattern::parse("01"),
            ]),
            len: 2,
        },
    );
    field_values.insert(
        "field3".to_string(),
        FieldUses::VariableBits {
            name: "field3".to_string(),
            pattern: Some(BitPattern::parse("x")),
            len: 1,
        },
    );
    let encodings = form.fields_to_encodings(&field_values);
    assert_eq!(encodings.len(), 1);
    assert!(encodings.contains(&BitPattern::parse("10010100100101")));
}


#[test]
fn test_merge() {
    let field_uses = FieldUses::Uses {
        name: "field1".to_string(),
        patterns: OrderedSet::from_vec(vec![BitPattern::parse("00"),
            BitPattern::parse("01"),
            BitPattern::parse("11"),
        ]),
        len: 2,
    };
    let merged = field_uses.merge();
    // 00, 01, and 11 can be merged into 0x and x1, but it will still be FieldUses::Uses
    let FieldUses::Uses {
        name,
        patterns,
        len,
    } = merged
    else {
        panic!("Merged FieldUses should be MergeMode::Uses");
    };
    assert_eq!(name, "field1".to_string());
    assert_eq!(len, 2);
    assert_eq!(patterns.len(), 2);
    assert!(patterns.contains(&BitPattern::parse("0x")));
    assert!(patterns.contains(&BitPattern::parse("x1")));
}

#[test]
fn test_no_merge() {
    let field_uses = FieldUses::Uses {
        name: "field1".to_string(),
        patterns: OrderedSet::from_vec(vec![BitPattern::parse("00"), BitPattern::parse("11")]),
        len: 2,
    };
    let merged = field_uses.merge();
    assert_eq!(
        merged,
        FieldUses::Uses {
            name: "field1".to_string(),
            patterns: OrderedSet::from_vec(vec![BitPattern::parse("00"), BitPattern::parse("11")]),
            len: 2,
        }
    );
}

#[test]
fn test_merge_3bit() {
    let field_uses = FieldUses::Uses {
        name: "field1".to_string(),
        patterns: OrderedSet::from_vec(vec![BitPattern::parse("000"),
            BitPattern::parse("001"),
            BitPattern::parse("111"),
        ]),
        len: 3,
    };
    let merged = field_uses.merge();
    let FieldUses::Uses {
        name,
        patterns,
        len,
    } = merged
    else {
        panic!("Merged FieldUses should be MergeMode::Uses");
    };
    assert_eq!(name, "field1".to_string());
    assert_eq!(len, 3);
    assert_eq!(patterns.len(), 2);
    assert!(patterns.contains(&BitPattern::parse("00x")));
    assert!(patterns.contains(&BitPattern::parse("111")));
}

#[test]
fn test_merge_complex() {
    let field_uses = FieldUses::Uses {
        name: "field1".to_string(),
        patterns: OrderedSet::from_vec(vec![BitPattern::parse("000"),
            BitPattern::parse("001"),
            BitPattern::parse("010"),
            BitPattern::parse("011"),
            BitPattern::parse("100"),
            BitPattern::parse("101"),
            BitPattern::parse("110"),
            BitPattern::parse("111"),
        ]),
        len: 3,
    };
    let merged = field_uses.merge();
    let FieldUses::Uses {
        name,
        patterns,
        len,
    } = merged
    else {
        panic!("Merged FieldUses should be MergeMode::Uses");
    };
    assert_eq!(name, "field1".to_string());
    assert_eq!(len, 3);
    assert_eq!(patterns.len(), 1);
    assert!(patterns.contains(&BitPattern::parse("xxx")));
}

#[test]
fn test_merge_removes_subsumed_pattern() {
    let field_uses = FieldUses::Uses {
        name: "field1".to_string(),
        patterns: OrderedSet::from_vec(vec![BitPattern::parse("0x"), BitPattern::parse("00")]),
        len: 2,
    };

    assert_eq!(
        field_uses.merge(),
        FieldUses::Uses {
            name: "field1".to_string(),
            patterns: OrderedSet::from_vec(vec![BitPattern::parse("0x")]),
            len: 2,
        }
    );
}

#[test]
fn test_merge_removes_subsumed_pattern_after_merge_round() {
    let field_uses = FieldUses::Uses {
        name: "field1".to_string(),
        patterns: OrderedSet::from_vec(vec![BitPattern::parse("00"),
            BitPattern::parse("01"),
            BitPattern::parse("0x"),
        ]),
        len: 2,
    };

    assert_eq!(
        field_uses.merge(),
        FieldUses::Uses {
            name: "field1".to_string(),
            patterns: OrderedSet::from_vec(vec![BitPattern::parse("0x")]),
            len: 2,
        }
    );
}

#[test]
fn test_merge_preserves_empty_variable_bits() {
    let field_uses = FieldUses::VariableBits {
        name: "field1".to_string(),
        pattern: None,
        len: 3,
    };

    assert_eq!(
        field_uses.merge(),
        FieldUses::VariableBits {
            name: "field1".to_string(),
            pattern: None,
            len: 3,
        }
    );
}
