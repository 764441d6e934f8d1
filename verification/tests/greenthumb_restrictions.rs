//! Restrictions of the superoptimizer.
use isa_minimization::bit::BitPattern;
use isa_minimization::collections::{OrderedMap, OrderedSet, Value};
use isa_minimization::greenthumb_restrictions::{
    GreenthumbRestrictionOptions, GreenthumbRestrictionSet,
};
use isa_minimization::isa_optimization::ISACandidate;
use isa_minimization::isa_specification::{
    ArchitecturalRegister, FieldUses, ISA, Instruction, InstructionField, InstructionForm,
    StackDirection, StackPointer,
};
use isa_minimization::text_set::TextSet;

fn named<V: Value>(entries: Vec<(String, V)>) -> OrderedMap<V> {
    let mut map = OrderedMap::new();
    for (name, value) in entries {
        map.insert(name, value);
    }
    map
}

fn texts(items: &[&str]) -> TextSet {
    let mut set = TextSet::new();
    for item in items {
        set.insert(item.to_string());
    }
    set
}

fn toy_isa() -> ISA {
    ISA {
        registers: vec![
            ArchitecturalRegister {
                identifier: 0,
                identifier_width: 1,
                width: 32,
            },
            ArchitecturalRegister {
                identifier: 1,
                identifier_width: 1,
                width: 32,
            },
        ],
        instructions: vec![
            Instruction::new("alu", 4).form(
                InstructionForm::new("base")
                    .field(InstructionField::constant("10"))
                    .field(InstructionField::variable("opcode", 2).merge_mode_uses()),
            ),
            Instruction::new("branch_ops_b", 4).form(
                InstructionForm::new("base")
                    .field(InstructionField::constant("11"))
                    .field(InstructionField::variable("target", 2)),
            ),
        ],
        sp: StackPointer {
            register: ArchitecturalRegister {
                identifier: 1,
                identifier_width: 1,
                width: 32,
            },
            stack_size: 4,
            direction: StackDirection::Downwards,
        },
        pc: ArchitecturalRegister {
            identifier: 1,
            identifier_width: 1,
            width: 32,
        },
    }
}

#[test]
fn candidate_emits_default_deny_allow_patterns() {
    let isa = toy_isa();
    let candidate = ISACandidate {
        valid_field_uses: named(vec![(
            "opcode".to_string(),
            FieldUses::Uses {
                name: "opcode".to_string(),
                patterns: OrderedSet::from_vec(vec![BitPattern::parse("0x")]),
                len: 2,
            },
        )]),
        active_forms: named(vec![("alu".to_string(), OrderedSet::from_vec(vec!["base".to_string()]))]),
    };

    let restrictions = GreenthumbRestrictionSet::from_candidate(
        &isa,
        &candidate,
        &GreenthumbRestrictionOptions::default(),
    );

    assert_eq!(
        restrictions.to_racket_default_deny(),
        "((default deny)\n (allow \"100x\")\n)\n"
    );
}

#[test]
fn branch_forms_can_be_excluded() {
    let isa = toy_isa();
    let candidate = ISACandidate::max_isa(&isa);
    let restrictions = GreenthumbRestrictionSet::from_candidate(
        &isa,
        &candidate,
        &GreenthumbRestrictionOptions {
            exclude_branches: true,
            exclude_multiplies: false,
            exclude_extension_ops: false,
        },
    );

    assert!(restrictions.allow_patterns.contains("10xx"));
    assert!(!restrictions.allow_patterns.contains("11xx"));
}

#[test]
fn deny_patterns_are_emitted_after_allows() {
    let restrictions = GreenthumbRestrictionSet {
        allow_patterns: texts(&["xxxxxxxxxxxxxxxxxxxxxxxxxxxxxxxx"]),
        deny_patterns: TextSet::new(),
    }
    .with_deny_pattern("11110000111100001111000011110000");

    assert_eq!(
        restrictions.to_racket_default_deny(),
        "((default deny)\n (allow \"xxxxxxxxxxxxxxxxxxxxxxxxxxxxxxxx\")\n (deny \"11110000111100001111000011110000\")\n)\n"
    );
}

#[test]
fn inactive_forms_emit_no_allow_patterns() {
    let isa = toy_isa();
    let candidate = ISACandidate {
        valid_field_uses: named(vec![(
            "opcode".to_string(),
            FieldUses::Uses {
                name: "opcode".to_string(),
                patterns: OrderedSet::from_vec(vec![BitPattern::parse("xx")]),
                len: 2,
            },
        )]),
        active_forms: named(vec![("alu".to_string(), OrderedSet::new())]),
    };

    let restrictions = GreenthumbRestrictionSet::from_candidate(
        &isa,
        &candidate,
        &GreenthumbRestrictionOptions::default(),
    );

    assert!(restrictions.allow_patterns.is_empty());
}
