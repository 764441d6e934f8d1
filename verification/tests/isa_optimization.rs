//! The search for a reduced instruction set.
use isa_minimization::bit::{Bit, BitPattern};
use isa_minimization::collections::{OrderedMap, OrderedSet};
use isa_minimization::isa_optimization::{ISACandidate, ISACandidateError, IsaOptimizationManager};
use isa_minimization::isa_specification::{
    ArchitecturalRegister, DecodedInstruction, FieldUses, ISA, Instruction, InstructionField,
    InstructionForm, StackDirection, StackPointer,
};
use isa_minimization::mutation::{mutate_field, random_pattern, FieldDraws};
use isa_minimization::pattern_cover::{construct_bitpatterns_frequencies, uncovered_patterns};
use rand::rngs::StdRng;
use rand::{RngExt, SeedableRng};
use std::collections::{HashMap, HashSet};
use std::ops::{Deref, DerefMut};

const P_MUT_CONST_TO_VAR: f64 = 0.5;
const P_MUT_VAR_TO_NONE: f64 = 0.05;

/// A search with the rates at which its coins fall.
struct Manager {
    inner: IsaOptimizationManager<'static>,
    coins: StdRng,
    crossover_rate: f64,
    crossover_gene_rate: f64,
    mutate_field_rate: f64,
    mutate_form_rate: f64,
}

impl Deref for Manager {
    type Target = IsaOptimizationManager<'static>;

    fn deref(&self) -> &Self::Target {
        &self.inner
    }
}

impl DerefMut for Manager {
    fn deref_mut(&mut self) -> &mut Self::Target {
        &mut self.inner
    }
}

impl Manager {
    fn coin(&mut self, rate: f64) -> bool {
        self.coins.random::<f64>() < rate
    }

    fn coin_row(&mut self, rate: f64, len: usize) -> Vec<bool> {
        (0..len).map(|_| self.coin(rate)).collect()
    }

    fn with_fixed_field_uses(self, fixed: OrderedMap<FieldUses>) -> Self {
        Manager {
            inner: self.inner.with_fixed_field_uses(fixed),
            ..self
        }
    }

    fn field_selectable_for_ga_restriction(&self, name: &str) -> bool {
        self.inner.field_selectable_for_ga_restriction(&name.to_string())
    }

    fn reproduce(
        &mut self,
        parent1: &ISACandidate,
        parent2: &ISACandidate,
    ) -> (ISACandidate, ISACandidate) {
        let crossover = self.coin(self.crossover_rate);
        let fields = self.coin_row(self.crossover_gene_rate, parent1.valid_field_uses.len());
        let forms = self.coin_row(self.crossover_gene_rate, self.inner.isa.instructions.len());
        self.inner.reproduce(parent1, parent2, crossover, &fields, &forms)
    }

    fn mutate(&mut self, candidate: ISACandidate) -> ISACandidate {
        let mut fields = Vec::new();
        for _ in 0..candidate.valid_field_uses.len() {
            fields.push(FieldDraws {
                mutates: self.coin(self.mutate_field_rate),
                to_none: self.coin(P_MUT_VAR_TO_NONE),
                const_to_var: !self.coin(P_MUT_CONST_TO_VAR),
            });
        }
        let forms = self.coin_row(self.mutate_form_rate, self.inner.isa.instructions.len());
        self.inner.mutate(&candidate, &fields, &forms)
    }

    fn mutate_active_forms(&mut self, name: &str, _active: OrderedSet<String>) -> OrderedSet<String> {
        self.inner.mutate_active_forms(&name.to_string())
    }

    fn mutate_field(&mut self, field: FieldUses, _field_width: usize) -> FieldUses {
        let to_none = self.coin(P_MUT_VAR_TO_NONE);
        let const_to_var = !self.coin(P_MUT_CONST_TO_VAR);
        mutate_field(&field, to_none, const_to_var, &mut self.inner.rng)
    }

    fn random_pattern(&mut self, patterns: &OrderedSet<BitPattern>, _width: usize) -> BitPattern {
        random_pattern(patterns, &mut self.inner.rng)
    }
}

fn manager(rng: StdRng) -> Manager {
    manager_with_forms(test_isa(), rng, OrderedMap::new(), OrderedMap::new(), vec![])
}

fn manager_with(
    isa: ISA,
    rng: StdRng,
    mandatory_forms: OrderedMap<OrderedSet<String>>,
    program: Vec<DecodedInstruction>,
) -> Manager {
    manager_with_forms(isa, rng, mandatory_forms, OrderedMap::new(), program)
}

fn manager_with_forms(
    isa: ISA,
    rng: StdRng,
    mandatory_forms: OrderedMap<OrderedSet<String>>,
    unrestricted_forms: OrderedMap<OrderedSet<String>>,
    program: Vec<DecodedInstruction>,
) -> Manager {
    let isa = Box::leak(Box::new(isa));
    Manager {
        inner: IsaOptimizationManager::new(
            isa,
            rng,
            mandatory_forms,
            unrestricted_forms,
            program,
            1,
            0,
        ),
        coins: StdRng::seed_from_u64(0x5eed),
        crossover_rate: 0.0,
        crossover_gene_rate: 0.0,
        mutate_field_rate: 1.0,
        mutate_form_rate: 0.0,
    }
}

fn forms(names: &[&str]) -> OrderedSet<String> {
    OrderedSet::from_vec(names.iter().map(|name| name.to_string()).collect())
}

fn forms_map(entries: &[(&str, &[&str])]) -> OrderedMap<OrderedSet<String>> {
    let mut map = OrderedMap::new();
    for (name, names) in entries {
        map.insert(name.to_string(), forms(names));
    }
    map
}

fn uses_map(entries: &[(&str, FieldUses)]) -> OrderedMap<FieldUses> {
    let mut map = OrderedMap::new();
    for (name, uses) in entries {
        map.insert(name.to_string(), uses.clone());
    }
    map
}

fn test_isa() -> ISA {
    let register = ArchitecturalRegister {
        identifier: 0,
        identifier_width: 1,
        width: 1,
    };

    ISA {
        registers: vec![register],
        instructions: vec![],
        sp: StackPointer {
            register,
            stack_size: 0,
            direction: StackDirection::Downwards,
        },
        pc: register,
    }
}

fn isa_with_instructions(instructions: Vec<Instruction>) -> ISA {
    ISA {
        instructions,
        ..test_isa()
    }
}

fn one_field_instruction() -> Instruction {
    Instruction::new("INST", 2).form(
        InstructionForm::new("base")
            .field(InstructionField::constant("1"))
            .field(InstructionField::variable("bit", 1)),
    )
}

fn two_form_instruction() -> Instruction {
    Instruction::new("INST", 2)
        .form(
            InstructionForm::new("base")
                .field(InstructionField::constant("1"))
                .field(InstructionField::variable("bit", 1)),
        )
        .form(
            InstructionForm::new("inactive")
                .field(InstructionField::constant("0"))
                .field(InstructionField::variable("bit", 1)),
        )
}

fn uses_field_instruction() -> Instruction {
    Instruction::new("USES", 3).form(
        InstructionForm::new("base")
            .field(InstructionField::constant("1"))
            .field(InstructionField::variable("opcode", 2).merge_mode_uses()),
    )
}

fn two_uses_field_instruction() -> Instruction {
    Instruction::new("USES2", 5).form(
        InstructionForm::new("base")
            .field(InstructionField::constant("1"))
            .field(InstructionField::variable("left", 2).merge_mode_uses())
            .field(InstructionField::variable("right", 2).merge_mode_uses()),
    )
}

fn unrestricted_field_instruction() -> Instruction {
    Instruction::new("UNRES", 3)
        .form(
            InstructionForm::new("base")
                .field(InstructionField::constant("1"))
                .field(InstructionField::variable("opcode", 2).merge_mode_uses()),
        )
        .form(
            InstructionForm::new("inactive")
                .field(InstructionField::constant("0"))
                .field(InstructionField::variable("mode", 2)),
        )
}

fn register_operand_instruction() -> Instruction {
    Instruction::new("REG", 4).form(
        InstructionForm::new("base")
            .field(InstructionField::constant("1"))
            .field(
                InstructionField::variable("rn", 2)
                    .merge_mode_uses()
                    .register_read(),
            )
            .field(InstructionField::variable("mode", 1)),
    )
}

fn decode_one(isa: &ISA, bits: &str) -> DecodedInstruction {
    let decoded =
        DecodedInstruction::decode_program_str(bits, isa).expect("test instruction decodes");
    assert_eq!(decoded.len(), 1);
    decoded.into_iter().next().unwrap()
}

fn static_decode_one(isa: &ISA, bits: &str) -> DecodedInstruction {
    let mut decoded = decode_one(isa, bits);
    decoded.static_instruction = true;
    decoded
}

fn patterns(patterns: &[&str]) -> OrderedSet<BitPattern> {
    OrderedSet::from_vec(
        patterns
            .iter()
            .map(|pattern| BitPattern::parse(pattern))
            .collect(),
    )
}

fn pattern_string(pattern: &BitPattern) -> String {
    pattern
        .bits
        .iter()
        .map(|bit| match bit {
            Bit::Low => '0',
            Bit::High => '1',
            Bit::Var => 'x',
            Bit::Test => 't',
        })
        .collect()
}

fn assert_concrete(pattern: &BitPattern) {
    assert!(
        pattern
            .bits
            .iter()
            .all(|bit| matches!(bit, Bit::Low | Bit::High)),
        "expected a concrete pattern, got {}",
        pattern_string(pattern)
    );
}

fn assert_uncovered(pattern: &BitPattern, covered: &OrderedSet<BitPattern>) {
    assert!(
        !covered
            .to_vec()
            .iter()
            .any(|covered_pattern| covered_pattern.matches_bits(&pattern.bits)),
        "expected {} to be uncovered",
        pattern_string(pattern)
    );
}

fn variable_bits_field(pattern: &str) -> FieldUses {
    FieldUses::VariableBits {
        name: "field".to_string(),
        pattern: Some(BitPattern::parse(pattern)),
        len: pattern.len(),
    }
}

fn empty_variable_bits_field(len: usize) -> FieldUses {
    FieldUses::VariableBits {
        name: "field".to_string(),
        pattern: None,
        len,
    }
}

fn uses_field(patterns: &[&str]) -> FieldUses {
    let len = patterns
        .first()
        .map(|pattern| pattern.len())
        .expect("Uses test helper requires at least one pattern");
    assert!(
        patterns.iter().all(|pattern| pattern.len() == len),
        "Uses test helper patterns must have the same length"
    );
    FieldUses::Uses {
        name: "field".to_string(),
        patterns: self::patterns(patterns),
        len,
    }
}

fn unwrap_variable_bits(field: FieldUses) -> BitPattern {
    let FieldUses::VariableBits { pattern, .. } = field else {
        panic!("expected VariableBits field");
    };
    pattern.expect("expected populated VariableBits pattern")
}

fn unwrap_uses(field: FieldUses) -> OrderedSet<BitPattern> {
    let FieldUses::Uses { patterns, .. } = field else {
        panic!("expected Uses field");
    };
    patterns
}

fn candidate(fields: &[(&str, FieldUses)]) -> ISACandidate {
    ISACandidate {
        valid_field_uses: uses_map(fields),
        active_forms: OrderedMap::new(),
    }
}

fn candidate_with_active_forms(
    fields: &[(&str, FieldUses)],
    active_forms: &[(&str, &[&str])],
) -> ISACandidate {
    ISACandidate {
        valid_field_uses: uses_map(fields),
        active_forms: forms_map(active_forms),
    }
}

fn valid_encodings_ok(
    manager: &Manager,
    candidate: &ISACandidate,
) -> OrderedSet<BitPattern> {
    match manager.valid_encodings(candidate) {
        Ok(encodings) => encodings,
        Err(ISACandidateError::MandatoryFormsError) => {
            panic!("valid_encodings unexpectedly rejected mandatory forms")
        }
        Err(ISACandidateError::UnrestrictedFormsError) => {
            panic!("valid_encodings unexpectedly rejected unrestricted forms")
        }
        Err(ISACandidateError::FixedFieldUsesError) => {
            panic!("valid_encodings unexpectedly rejected fixed field uses")
        }
        Err(ISACandidateError::StaticInstructionError) => {
            panic!("valid_encodings unexpectedly rejected static instructions")
        }
    }
}

fn field_names(candidate: &ISACandidate) -> HashSet<String> {
    (0..candidate.valid_field_uses.len())
        .map(|i| candidate.valid_field_uses.name_at(i).clone())
        .collect()
}

fn assert_same_field_use_shape(left: &ISACandidate, right: &ISACandidate) {
    assert_eq!(field_names(left), field_names(right));

    for i in 0..left.valid_field_uses.len() {
        let name = left.valid_field_uses.name_at(i);
        let left_field = left.valid_field_uses.value_at(i);
        let right_field = right
            .valid_field_uses
            .get(name)
            .expect("field key sets should match");
        match (left_field, right_field) {
            (
                FieldUses::VariableBits { len: left_len, .. },
                FieldUses::VariableBits { len: right_len, .. },
            ) => assert_eq!(left_len, right_len),
            (FieldUses::Uses { len: left_len, .. }, FieldUses::Uses { len: right_len, .. }) => {
                assert_eq!(left_len, right_len)
            }
            _ => panic!("field {name} has different FieldUses variants"),
        }
    }
}

#[test]
fn random_isa_preserves_instruction_keys_field_modes_and_widths() {
    let isa = isa_with_instructions(vec![Instruction::new("INST", 4).form(
        InstructionForm::new("base")
            .field(InstructionField::variable("var", 2))
            .field(InstructionField::variable("uses", 2).merge_mode_uses()),
    )]);
    let mut rng = StdRng::seed_from_u64(0x5100);

    let candidate = ISACandidate::random_isa(&isa, &mut rng);

    assert!(candidate.active_forms.contains_key("INST"));
    assert_eq!(candidate.valid_field_uses.len(), 2);

    let FieldUses::VariableBits { pattern, .. } = candidate
        .valid_field_uses
        .get("var")
        .expect("var field should be present")
    else {
        panic!("expected VariableBits field");
    };
    assert_eq!(
        pattern
            .as_ref()
            .expect("random ISA should populate var")
            .len(),
        2
    );

    let FieldUses::Uses { patterns, len, .. } = candidate
        .valid_field_uses
        .get("uses")
        .expect("uses field should be present")
    else {
        panic!("expected Uses field");
    };
    assert_eq!(*len, 2);
    assert_eq!(patterns.len(), 1);
    assert!(patterns.to_vec().iter().all(|pattern| pattern.len() == *len));
    assert!(patterns.to_vec().iter().all(|pattern| {
        pattern
            .bits
            .iter()
            .all(|bit| matches!(bit, Bit::Low | Bit::High))
    }));
}

#[test]
fn random_isa_is_deterministic_for_seeded_rng() {
    let isa = isa_with_instructions(vec![two_form_instruction()]);
    let mut rng1 = StdRng::seed_from_u64(0x5101);
    let mut rng2 = StdRng::seed_from_u64(0x5101);

    assert_eq!(
        ISACandidate::random_isa(&isa, &mut rng1),
        ISACandidate::random_isa(&isa, &mut rng2)
    );
}

#[test]
fn from_program_builds_minimum_field_uses_and_active_forms() {
    let isa = isa_with_instructions(vec![
        Instruction::new("INST", 4)
            .form(
                InstructionForm::new("base")
                    .field(InstructionField::constant("10"))
                    .field(InstructionField::variable("mode", 1))
                    .field(InstructionField::variable("opcode", 1).merge_mode_uses()),
            )
            .form(
                InstructionForm::new("other")
                    .field(InstructionField::constant("11"))
                    .field(InstructionField::variable("mode", 1))
                    .field(InstructionField::variable("opcode", 1).merge_mode_uses()),
            ),
        Instruction::new("UNUSED", 3).form(
            InstructionForm::new("base")
                .field(InstructionField::constant("0"))
                .field(InstructionField::variable("unused", 2)),
        ),
    ]);
    let program = vec![decode_one(&isa, "1000"), decode_one(&isa, "1011")];

    let candidate = ISACandidate::from_program(&isa, &program);

    assert_eq!(
        candidate.active_forms.get("INST"),
        Some(&forms(&["base"]))
    );
    assert_eq!(candidate.active_forms.get("UNUSED"), Some(&forms(&[])));
    assert_eq!(candidate.valid_field_uses.len(), 3);
    assert_eq!(
        candidate.valid_field_uses.get("mode"),
        Some(&FieldUses::VariableBits {
            name: "mode".to_string(),
            pattern: Some(BitPattern::parse("x")),
            len: 1,
        })
    );
    assert_eq!(
        candidate.valid_field_uses.get("opcode"),
        Some(&FieldUses::Uses {
            name: "opcode".to_string(),
            patterns: patterns(&["x"]),
            len: 1,
        })
    );
    assert_eq!(
        candidate.valid_field_uses.get("unused"),
        Some(&FieldUses::VariableBits {
            name: "unused".to_string(),
            pattern: None,
            len: 2,
        })
    );
}

#[test]
fn minimum_isa_repairs_missing_explicit_mandatory_form() {
    let isa = isa_with_instructions(vec![
        Instruction::new("USED", 2).form(
            InstructionForm::new("base")
                .field(InstructionField::constant("1"))
                .field(InstructionField::variable("bit", 1)),
        ),
        Instruction::new("MAND", 3).form(
            InstructionForm::new("base")
                .field(InstructionField::constant("0"))
                .field(InstructionField::variable("opcode", 2).merge_mode_uses()),
        ),
        Instruction::new("OPTIONAL", 2).form(
            InstructionForm::new("base")
                .field(InstructionField::constant("0"))
                .field(InstructionField::variable("unused", 1)),
        ),
    ]);
    let program = vec![decode_one(&isa, "11")];
    let mandatory_forms =
        forms_map(&[("MAND", &["base"])]);
    let manager = manager_with(isa, StdRng::seed_from_u64(0x510B), mandatory_forms, program);

    let candidate = manager.minimum_isa_features_for_program();

    assert_eq!(
        candidate.active_forms.get("MAND"),
        Some(&forms(&["base"]))
    );
    assert_eq!(
        candidate.active_forms.get("OPTIONAL"),
        Some(&forms(&[]))
    );
    let FieldUses::Uses { patterns, .. } = candidate
        .valid_field_uses
        .get("opcode")
        .expect("mandatory repair should add opcode")
    else {
        panic!("expected Uses field");
    };
    assert_eq!(patterns.len(), 1);
    assert!(patterns.to_vec().iter().all(|pattern| {
        pattern
            .bits
            .iter()
            .all(|bit| matches!(bit, Bit::Low | Bit::High))
    }));
    assert!(matches!(manager.valid_encodings(&candidate), Ok(_)));
}

#[test]
fn minimum_isa_mandatory_repair_merges_with_program_fields() {
    let isa = isa_with_instructions(vec![Instruction::new("INST", 2)
        .form(
            InstructionForm::new("program")
                .field(InstructionField::constant("1"))
                .field(InstructionField::variable("mode", 1)),
        )
        .form(
            InstructionForm::new("mandatory")
                .field(InstructionField::constant("0"))
                .field(InstructionField::variable("mode", 1)),
        )]);
    let program = vec![decode_one(&isa, "11")];
    let mandatory_forms =
        forms_map(&[("INST", &["mandatory"])]);
    let manager = manager_with(isa, StdRng::seed_from_u64(0x510D), mandatory_forms, program);

    let candidate = manager.minimum_isa_features_for_program();

    assert_eq!(
        candidate.valid_field_uses.get("mode"),
        Some(&FieldUses::VariableBits {
            name: "mode".to_string(),
            pattern: Some(BitPattern::parse("x")),
            len: 1,
        })
    );
    assert!(matches!(manager.valid_encodings(&candidate), Ok(_)));
}

#[test]
fn minimum_isa_repairs_empty_mandatory_instruction_with_one_form() {
    let isa = isa_with_instructions(vec![two_form_instruction()]);
    let mandatory_forms = forms_map(&[("INST", &[])]);
    let manager = manager_with(isa, StdRng::seed_from_u64(0x510C), mandatory_forms, vec![]);

    let candidate = manager.minimum_isa_features_for_program();
    let active_forms = candidate
        .active_forms
        .get("INST")
        .expect("candidate should have an INST active-form entry");

    assert_eq!(active_forms.len(), 1);
    assert!(active_forms.contains(&"base".to_string()) || active_forms.contains(&"inactive".to_string()));
    assert!(matches!(manager.valid_encodings(&candidate), Ok(_)));
}

#[test]
fn all_isa_candidate_constructors_create_compatible_valid_field_uses() {
    let isa = isa_with_instructions(vec![
        Instruction::new("INST", 4)
            .form(
                InstructionForm::new("base")
                    .field(InstructionField::constant("10"))
                    .field(InstructionField::variable("mode", 1))
                    .field(InstructionField::variable("opcode", 1).merge_mode_uses()),
            )
            .form(
                InstructionForm::new("other")
                    .field(InstructionField::constant("11"))
                    .field(InstructionField::variable("mode", 1))
                    .field(InstructionField::variable("opcode", 1).merge_mode_uses()),
            ),
        Instruction::new("UNUSED", 3).form(
            InstructionForm::new("base")
                .field(InstructionField::constant("0"))
                .field(InstructionField::variable("unused", 2)),
        ),
    ]);
    let program = vec![decode_one(&isa, "1000")];
    let max_candidate = ISACandidate::max_isa(&isa);
    let from_program_candidate = ISACandidate::from_program(&isa, &program);
    let mut rng = StdRng::seed_from_u64(0x5102);
    let random_candidate = ISACandidate::random_isa(&isa, &mut rng);

    assert_same_field_use_shape(&max_candidate, &from_program_candidate);
    assert_same_field_use_shape(&max_candidate, &random_candidate);
}

#[test]
fn register_operand_fields_are_not_selectable_ga_genes() {
    let manager = manager_with(
        isa_with_instructions(vec![register_operand_instruction()]),
        StdRng::seed_from_u64(0x5103),
        OrderedMap::new(),
        vec![],
    );

    assert!(!manager.field_selectable_for_ga_restriction("rn"));
    assert!(manager.field_selectable_for_ga_restriction("mode"));
}

#[test]
fn unrestricted_form_fields_are_not_selectable_ga_genes() {
    let manager = manager_with_forms(
        isa_with_instructions(vec![unrestricted_field_instruction()]),
        StdRng::seed_from_u64(0x5106),
        OrderedMap::new(),
        forms_map(&[("UNRES", &["base"])]),
        vec![],
    );

    assert!(!manager.field_selectable_for_ga_restriction("opcode"));
    assert!(manager.field_selectable_for_ga_restriction("mode"));
}

#[test]
fn unrestricted_form_validation_is_encoding_order_insensitive() {
    let manager = manager_with_forms(
        isa_with_instructions(vec![two_uses_field_instruction()]),
        StdRng::seed_from_u64(0x510A),
        OrderedMap::new(),
        forms_map(&[("USES2", &["base"])]),
        vec![],
    );
    let candidate = candidate_with_active_forms(
        &[
            (
                "left",
                FieldUses::Uses {
                    name: "left".to_string(),
                    patterns: patterns(&["11", "10", "01", "00"]),
                    len: 2,
                },
            ),
            (
                "right",
                FieldUses::Uses {
                    name: "right".to_string(),
                    patterns: patterns(&["10", "00", "11", "01"]),
                    len: 2,
                },
            ),
        ],
        &[("USES2", &["base"])],
    );

    assert!(matches!(manager.valid_encodings(&candidate), Ok(_)));
}

#[test]
fn children_do_not_swap_register_operand_field_uses() {
    let isa = isa_with_instructions(vec![register_operand_instruction()]);
    let mut manager = manager_with(isa, StdRng::seed_from_u64(0x5104), OrderedMap::new(), vec![]);
    manager.crossover_rate = 1.0;
    manager.crossover_gene_rate = 1.0;
    let parent1 = candidate_with_active_forms(
        &[
            ("rn", uses_field(&["00"])),
            ("mode", variable_bits_field("0")),
        ],
        &[("REG", &["base"])],
    );
    let parent2 = candidate_with_active_forms(
        &[
            ("rn", uses_field(&["11"])),
            ("mode", variable_bits_field("1")),
        ],
        &[("REG", &["base"])],
    );

    let (child1, child2) = manager.reproduce(&parent1, &parent2);

    assert_eq!(
        child1.valid_field_uses.get("rn"),
        parent1.valid_field_uses.get("rn")
    );
    assert_eq!(
        child2.valid_field_uses.get("rn"),
        parent2.valid_field_uses.get("rn")
    );
    assert_eq!(
        child1.valid_field_uses.get("mode"),
        parent2.valid_field_uses.get("mode")
    );
    assert_eq!(
        child2.valid_field_uses.get("mode"),
        parent1.valid_field_uses.get("mode")
    );
}

#[test]
fn random_isa_candidate_preserves_unrestricted_form_fields_and_active_forms() {
    let mut manager = manager_with_forms(
        isa_with_instructions(vec![unrestricted_field_instruction()]),
        StdRng::seed_from_u64(0x5107),
        OrderedMap::new(),
        forms_map(&[("UNRES", &["base"])]),
        vec![],
    );

    for seed in 0..64 {
        manager.rng = StdRng::seed_from_u64(seed);
        let candidate = manager.random_isa_candidate();

        assert_eq!(
            candidate.valid_field_uses.get("opcode"),
            manager.max_isa_candidate.valid_field_uses.get("opcode")
        );
        assert!(
            candidate
                .active_forms
                .get("UNRES")
                .is_some_and(|forms| forms.contains(&"base".to_string())),
            "unrestricted form should be active in random candidate"
        );
    }
}

#[test]
fn mutate_preserves_unrestricted_form_fields_and_active_forms() {
    let mut manager = manager_with_forms(
        isa_with_instructions(vec![unrestricted_field_instruction()]),
        StdRng::seed_from_u64(0x5108),
        OrderedMap::new(),
        forms_map(&[("UNRES", &["base"])]),
        vec![],
    );
    manager.mutate_field_rate = 1.0;
    manager.mutate_form_rate = 1.0;
    let original = candidate_with_active_forms(
        &[
            ("opcode", uses_field(&["xx"])),
            ("mode", variable_bits_field("00")),
        ],
        &[("UNRES", &["base", "inactive"])],
    );

    for seed in 0..64 {
        manager.rng = StdRng::seed_from_u64(seed);
        let mutated = manager.mutate(original.clone());

        assert_eq!(
            mutated.valid_field_uses.get("opcode"),
            manager.max_isa_candidate.valid_field_uses.get("opcode")
        );
        assert!(
            mutated
                .active_forms
                .get("UNRES")
                .is_some_and(|forms| forms.contains(&"base".to_string())),
            "unrestricted form should remain active after mutation"
        );
    }
}

#[test]
fn children_do_not_swap_or_drop_unrestricted_form_fields() {
    let isa = isa_with_instructions(vec![unrestricted_field_instruction()]);
    let mut manager = manager_with_forms(
        isa,
        StdRng::seed_from_u64(0x5109),
        OrderedMap::new(),
        forms_map(&[("UNRES", &["base"])]),
        vec![],
    );
    manager.crossover_rate = 1.0;
    manager.crossover_gene_rate = 1.0;
    let parent1 = candidate_with_active_forms(
        &[
            ("opcode", uses_field(&["xx"])),
            ("mode", variable_bits_field("00")),
        ],
        &[("UNRES", &["base"])],
    );
    let parent2 = candidate_with_active_forms(
        &[
            ("opcode", uses_field(&["00"])),
            ("mode", variable_bits_field("11")),
        ],
        &[("UNRES", &["inactive"])],
    );

    let (child1, child2) = manager.reproduce(&parent1, &parent2);

    for child in [&child1, &child2] {
        assert_eq!(
            child.valid_field_uses.get("opcode"),
            manager.max_isa_candidate.valid_field_uses.get("opcode")
        );
        assert!(
            child
                .active_forms
                .get("UNRES")
                .is_some_and(|forms| forms.contains(&"base".to_string())),
            "unrestricted form should remain active after crossover"
        );
    }
}

#[test]
fn mutate_does_not_change_register_operand_field_uses() {
    let mut manager = manager_with(
        isa_with_instructions(vec![register_operand_instruction()]),
        StdRng::seed_from_u64(0x5105),
        OrderedMap::new(),
        vec![],
    );
    manager.mutate_field_rate = 1.0;
    manager.mutate_form_rate = 0.0;
    let original = candidate_with_active_forms(
        &[
            ("rn", uses_field(&["00"])),
            ("mode", variable_bits_field("0")),
        ],
        &[("REG", &["base"])],
    );

    let mutated = manager.mutate(original.clone());

    assert_eq!(
        mutated.valid_field_uses.get("rn"),
        original.valid_field_uses.get("rn")
    );
}

#[test]
fn instruction_conflict_count_returns_zero_when_program_matches_candidate() {
    let isa = isa_with_instructions(vec![one_field_instruction()]);
    let program = vec![decode_one(&isa, "11")];
    let manager = manager_with(isa, StdRng::seed_from_u64(0x7000), OrderedMap::new(), program);
    let candidate = candidate_with_active_forms(
        &[("bit", variable_bits_field("x"))],
        &[("INST", &["base"])],
    );

    assert_eq!(manager.instruction_conflict_count(&candidate), 0);
}

#[test]
fn instruction_conflict_count_counts_inactive_instruction_form() {
    let isa = isa_with_instructions(vec![one_field_instruction()]);
    let program = vec![decode_one(&isa, "11")];
    let manager = manager_with(isa, StdRng::seed_from_u64(0x7001), OrderedMap::new(), program);
    let candidate = candidate_with_active_forms(&[("bit", variable_bits_field("x"))], &[]);

    assert_eq!(manager.instruction_conflict_count(&candidate), 1);
}

#[test]
fn instruction_conflict_count_counts_field_use_mismatch() {
    let isa = isa_with_instructions(vec![one_field_instruction()]);
    let program = vec![decode_one(&isa, "11")];
    let manager = manager_with(isa, StdRng::seed_from_u64(0x7002), OrderedMap::new(), program);
    let candidate = candidate_with_active_forms(
        &[("bit", variable_bits_field("0"))],
        &[("INST", &["base"])],
    );

    assert_eq!(manager.instruction_conflict_count(&candidate), 1);
}

#[test]
fn instruction_conflict_count_counts_each_conflicting_instruction() {
    let isa = isa_with_instructions(vec![one_field_instruction()]);
    let program = vec![decode_one(&isa, "10"), decode_one(&isa, "11")];
    let manager = manager_with(isa, StdRng::seed_from_u64(0x7003), OrderedMap::new(), program);
    let candidate = candidate_with_active_forms(
        &[("bit", variable_bits_field("0"))],
        &[("INST", &["base"])],
    );

    assert_eq!(manager.instruction_conflict_count(&candidate), 1);
}

#[test]
fn valid_encodings_returns_encodings_for_active_forms_only() {
    let manager = manager_with(
        isa_with_instructions(vec![two_form_instruction()]),
        StdRng::seed_from_u64(0x7100),
        OrderedMap::new(),
        vec![],
    );
    let candidate = candidate_with_active_forms(
        &[("bit", variable_bits_field("x"))],
        &[("INST", &["base"])],
    );

    assert_eq!(valid_encodings_ok(&manager, &candidate), patterns(&["1x"]));
}

#[test]
fn valid_encodings_applies_candidate_field_uses() {
    let manager = manager_with(
        isa_with_instructions(vec![one_field_instruction()]),
        StdRng::seed_from_u64(0x7101),
        OrderedMap::new(),
        vec![],
    );
    let candidate = candidate_with_active_forms(
        &[("bit", variable_bits_field("0"))],
        &[("INST", &["base"])],
    );

    assert_eq!(valid_encodings_ok(&manager, &candidate), patterns(&["10"]));
}

#[test]
fn valid_encodings_returns_empty_when_no_forms_are_active() {
    let manager = manager_with(
        isa_with_instructions(vec![one_field_instruction()]),
        StdRng::seed_from_u64(0x7102),
        OrderedMap::new(),
        vec![],
    );
    let candidate = candidate_with_active_forms(&[("bit", variable_bits_field("x"))], &[]);

    assert!(valid_encodings_ok(&manager, &candidate).is_empty());
}

#[test]
fn valid_encodings_accepts_candidate_matching_fixed_field_uses() {
    let manager = manager_with(
        isa_with_instructions(vec![uses_field_instruction()]),
        StdRng::seed_from_u64(0x710A),
        OrderedMap::new(),
        vec![],
    )
    .with_fixed_field_uses(uses_map(&[("opcode", uses_field(&["xx"]))]));
    let candidate = candidate_with_active_forms(
        &[("opcode", uses_field(&["00", "01", "10", "11"]))],
        &[("USES", &["base"])],
    );

    assert_eq!(
        valid_encodings_ok(&manager, &candidate),
        patterns(&["100", "101", "110", "111"])
    );
}

#[test]
fn valid_encodings_errors_when_candidate_violates_fixed_field_uses() {
    let manager = manager_with(
        isa_with_instructions(vec![uses_field_instruction()]),
        StdRng::seed_from_u64(0x710B),
        OrderedMap::new(),
        vec![],
    )
    .with_fixed_field_uses(uses_map(&[("opcode", uses_field(&["xx"]))]));
    let candidate =
        candidate_with_active_forms(&[("opcode", uses_field(&["00"]))], &[("USES", &["base"])]);

    assert!(matches!(
        manager.valid_encodings(&candidate),
        Err(ISACandidateError::FixedFieldUsesError)
    ));
}

#[test]
fn valid_encodings_errors_when_mandatory_form_is_inactive() {
    let mandatory_forms =
        forms_map(&[("INST", &["base"])]);
    let manager = manager_with(
        isa_with_instructions(vec![one_field_instruction()]),
        StdRng::seed_from_u64(0x7103),
        mandatory_forms,
        vec![],
    );
    let candidate = candidate_with_active_forms(&[("bit", variable_bits_field("x"))], &[]);

    assert!(matches!(
        manager.valid_encodings(&candidate),
        Err(ISACandidateError::MandatoryFormsError)
    ));
}

#[test]
fn valid_encodings_errors_when_mandatory_instruction_has_no_active_encodings() {
    let mandatory_forms = forms_map(&[("INST", &[])]);
    let manager = manager_with(
        isa_with_instructions(vec![one_field_instruction()]),
        StdRng::seed_from_u64(0x7104),
        mandatory_forms,
        vec![],
    );
    let candidate = candidate_with_active_forms(&[("bit", variable_bits_field("x"))], &[]);

    assert!(matches!(
        manager.valid_encodings(&candidate),
        Err(ISACandidateError::MandatoryFormsError)
    ));
}

#[test]
fn valid_encodings_accepts_unrestricted_active_unconstrained_form() {
    let unrestricted_forms =
        forms_map(&[("INST", &["base"])]);
    let manager = manager_with_forms(
        isa_with_instructions(vec![one_field_instruction()]),
        StdRng::seed_from_u64(0x7105),
        OrderedMap::new(),
        unrestricted_forms,
        vec![],
    );
    let candidate = candidate_with_active_forms(
        &[("bit", variable_bits_field("x"))],
        &[("INST", &["base"])],
    );

    assert_eq!(valid_encodings_ok(&manager, &candidate), patterns(&["1x"]));
}

#[test]
fn valid_encodings_errors_when_unrestricted_form_is_inactive() {
    let unrestricted_forms =
        forms_map(&[("INST", &["base"])]);
    let manager = manager_with_forms(
        isa_with_instructions(vec![one_field_instruction()]),
        StdRng::seed_from_u64(0x7106),
        OrderedMap::new(),
        unrestricted_forms,
        vec![],
    );
    let candidate = candidate_with_active_forms(&[("bit", variable_bits_field("x"))], &[]);

    assert!(matches!(
        manager.valid_encodings(&candidate),
        Err(ISACandidateError::UnrestrictedFormsError)
    ));
}

#[test]
fn valid_encodings_errors_when_unrestricted_variable_bits_field_is_restricted() {
    let unrestricted_forms =
        forms_map(&[("INST", &["base"])]);
    let manager = manager_with_forms(
        isa_with_instructions(vec![one_field_instruction()]),
        StdRng::seed_from_u64(0x7107),
        OrderedMap::new(),
        unrestricted_forms,
        vec![],
    );
    let candidate = candidate_with_active_forms(
        &[("bit", variable_bits_field("0"))],
        &[("INST", &["base"])],
    );

    assert!(matches!(
        manager.valid_encodings(&candidate),
        Err(ISACandidateError::UnrestrictedFormsError)
    ));
}

#[test]
fn valid_encodings_errors_when_unrestricted_uses_field_is_restricted() {
    let unrestricted_forms =
        forms_map(&[("USES", &["base"])]);
    let manager = manager_with_forms(
        isa_with_instructions(vec![uses_field_instruction()]),
        StdRng::seed_from_u64(0x7108),
        OrderedMap::new(),
        unrestricted_forms,
        vec![],
    );
    let candidate =
        candidate_with_active_forms(&[("opcode", uses_field(&["00"]))], &[("USES", &["base"])]);

    assert!(matches!(
        manager.valid_encodings(&candidate),
        Err(ISACandidateError::UnrestrictedFormsError)
    ));
}

#[test]
fn valid_encodings_errors_when_static_instruction_form_is_inactive() {
    let isa = isa_with_instructions(vec![one_field_instruction()]);
    let program = vec![static_decode_one(&isa, "10")];
    let manager = manager_with(isa, StdRng::seed_from_u64(0x7109), OrderedMap::new(), program);
    let candidate = candidate_with_active_forms(&[("bit", variable_bits_field("x"))], &[]);

    assert!(matches!(
        manager.valid_encodings(&candidate),
        Err(ISACandidateError::StaticInstructionError)
    ));
}

#[test]
fn valid_encodings_errors_when_static_instruction_field_is_restricted() {
    let isa = isa_with_instructions(vec![one_field_instruction()]);
    let program = vec![static_decode_one(&isa, "10")];
    let manager = manager_with(isa, StdRng::seed_from_u64(0x7110), OrderedMap::new(), program);
    let candidate = candidate_with_active_forms(
        &[("bit", variable_bits_field("1"))],
        &[("INST", &["base"])],
    );

    assert!(matches!(
        manager.valid_encodings(&candidate),
        Err(ISACandidateError::StaticInstructionError)
    ));
}

#[test]
fn children_return_parent_clones_when_crossover_rate_is_zero() {
    let mut manager = manager_with(
        isa_with_instructions(vec![two_form_instruction()]),
        StdRng::seed_from_u64(0x7400),
        OrderedMap::new(),
        vec![],
    );
    manager.crossover_rate = 0.0;
    let parent1 = candidate_with_active_forms(
        &[("bit", variable_bits_field("0"))],
        &[("INST", &["base"])],
    );
    let parent2 = candidate_with_active_forms(
        &[("bit", variable_bits_field("1"))],
        &[("INST", &["inactive"])],
    );

    let (child1, child2) = manager.reproduce(&parent1, &parent2);

    assert_eq!(child1, parent1);
    assert_eq!(child2, parent2);
}

#[test]
fn children_do_not_mutate_parent_candidates() {
    let mut manager = manager_with(
        isa_with_instructions(vec![two_form_instruction()]),
        StdRng::seed_from_u64(0x7401),
        OrderedMap::new(),
        vec![],
    );
    manager.crossover_rate = 1.0;
    manager.crossover_gene_rate = 1.0;
    let parent1 = candidate_with_active_forms(
        &[("bit", variable_bits_field("0"))],
        &[("INST", &["base"])],
    );
    let parent2 = candidate_with_active_forms(
        &[("bit", variable_bits_field("1"))],
        &[("INST", &["inactive"])],
    );
    let original_parent1 = parent1.clone();
    let original_parent2 = parent2.clone();

    let _ = manager.reproduce(&parent1, &parent2);

    assert_eq!(parent1, original_parent1);
    assert_eq!(parent2, original_parent2);
}

#[test]
fn children_can_swap_valid_field_uses_between_parents() {
    let parent1 = candidate_with_active_forms(
        &[
            ("bit", variable_bits_field("0")),
            ("opcode", uses_field(&["00"])),
        ],
        &[("INST", &["base"])],
    );
    let parent2 = candidate_with_active_forms(
        &[
            ("bit", variable_bits_field("1")),
            ("opcode", uses_field(&["11"])),
        ],
        &[("INST", &["base"])],
    );
    let mut saw_field_swap = false;

    for seed in 0..256 {
        let mut manager = manager_with(
            isa_with_instructions(vec![one_field_instruction()]),
            StdRng::seed_from_u64(seed),
            OrderedMap::new(),
            vec![],
        );
        manager.crossover_rate = 1.0;
        manager.crossover_gene_rate = 1.0;
        let (child1, child2) = manager.reproduce(&parent1, &parent2);

        if child1.valid_field_uses.get("bit") == parent2.valid_field_uses.get("bit") {
            assert_eq!(
                child2.valid_field_uses.get("bit"),
                parent1.valid_field_uses.get("bit")
            );
            saw_field_swap = true;
            break;
        }
    }

    assert!(
        saw_field_swap,
        "expected some seed to swap a field-use gene"
    );
}

#[test]
fn children_can_swap_active_forms_between_parents() {
    let parent1 = candidate_with_active_forms(
        &[("bit", variable_bits_field("x"))],
        &[("INST", &["base"])],
    );
    let parent2 = candidate_with_active_forms(
        &[("bit", variable_bits_field("x"))],
        &[("INST", &["inactive"])],
    );
    let mut saw_form_swap = false;

    for seed in 0..256 {
        let mut manager = manager_with(
            isa_with_instructions(vec![two_form_instruction()]),
            StdRng::seed_from_u64(seed),
            OrderedMap::new(),
            vec![],
        );
        manager.crossover_rate = 1.0;
        manager.crossover_gene_rate = 1.0;
        let (child1, child2) = manager.reproduce(&parent1, &parent2);

        if child1.active_forms.get("INST") == parent2.active_forms.get("INST") {
            assert_eq!(
                child2.active_forms.get("INST"),
                parent1.active_forms.get("INST")
            );
            saw_form_swap = true;
            break;
        }
    }

    assert!(
        saw_form_swap,
        "expected some seed to swap an active-form gene"
    );
}

#[test]
fn children_swap_empty_active_form_sets_when_keys_exist() {
    let parent1 =
        candidate_with_active_forms(&[("bit", variable_bits_field("x"))], &[("INST", &[])]);
    let parent2 = candidate_with_active_forms(
        &[("bit", variable_bits_field("x"))],
        &[("INST", &["base"])],
    );
    let mut saw_empty_set_swap = false;

    for seed in 0..256 {
        let mut manager = manager_with(
            isa_with_instructions(vec![one_field_instruction()]),
            StdRng::seed_from_u64(seed),
            OrderedMap::new(),
            vec![],
        );
        manager.crossover_rate = 1.0;
        manager.crossover_gene_rate = 1.0;
        let (child1, child2) = manager.reproduce(&parent1, &parent2);

        if child1.active_forms.get("INST") == parent2.active_forms.get("INST") {
            let child2_forms = child2
                .active_forms
                .get("INST")
                .expect("active-form key should remain present");
            assert!(child2_forms.is_empty());
            saw_empty_set_swap = true;
            break;
        }
    }

    assert!(
        saw_empty_set_swap,
        "expected some seed to swap an empty active-form set"
    );
}

#[test]
fn mutate_active_forms_resamples_valid_subset_when_none_are_active() {
    let valid_forms = forms(&["base", "inactive"]);
    let mut manager = manager_with(
        isa_with_instructions(vec![two_form_instruction()]),
        StdRng::seed_from_u64(0x7500),
        OrderedMap::new(),
        vec![],
    );

    let mutated = manager.mutate_active_forms("INST", OrderedSet::new());

    assert!(
        mutated.to_vec().iter().all(|form| valid_forms.contains(form)),
        "mutate_active_forms returned an unknown form: {mutated:?}"
    );
    assert!(mutated.len() <= valid_forms.len());
}

#[test]
fn mutate_active_forms_resamples_valid_subset_when_all_forms_are_active() {
    let valid_forms = forms(&["base", "inactive"]);
    let mut manager = manager_with(
        isa_with_instructions(vec![two_form_instruction()]),
        StdRng::seed_from_u64(0x7501),
        OrderedMap::new(),
        vec![],
    );
    let active_forms = forms(&["base", "inactive"]);

    let mutated = manager.mutate_active_forms("INST", active_forms);

    assert!(
        mutated.to_vec().iter().all(|form| valid_forms.contains(form)),
        "mutate_active_forms returned an unknown form: {mutated:?}"
    );
    assert!(mutated.len() <= valid_forms.len());
}

#[test]
fn mutate_active_forms_only_returns_valid_forms() {
    let valid_forms = forms(&["base", "inactive"]);
    let mut manager = manager_with(
        isa_with_instructions(vec![two_form_instruction()]),
        StdRng::seed_from_u64(0),
        OrderedMap::new(),
        vec![],
    );

    for seed in 0..128 {
        manager.rng = StdRng::seed_from_u64(seed);
        let mutated = manager.mutate_active_forms("INST", forms(&["base"]));

        assert!(
            mutated.to_vec().iter().all(|form| valid_forms.contains(form)),
            "mutate_active_forms returned an unknown form: {mutated:?}"
        );
    }
}

#[test]
fn mutate_active_forms_samples_empty_partial_and_full_subsets() {
    let valid_forms = forms(&["base", "inactive"]);
    let mut saw_empty = false;
    let mut saw_partial = false;
    let mut saw_full = false;

    for seed in 0..512 {
        let mut manager = manager_with(
            isa_with_instructions(vec![two_form_instruction()]),
            StdRng::seed_from_u64(seed),
            OrderedMap::new(),
            vec![],
        );
        let mutated = manager.mutate_active_forms("INST", forms(&["base"]));

        assert!(
            mutated.to_vec().iter().all(|form| valid_forms.contains(form)),
            "mutate_active_forms returned an unknown form: {mutated:?}"
        );
        match mutated.len() {
            0 => saw_empty = true,
            1 => saw_partial = true,
            2 => saw_full = true,
            len => panic!("expected at most two active forms, got len {len}"),
        }

        if saw_empty && saw_partial && saw_full {
            break;
        }
    }

    assert!(saw_empty, "expected some seed to sample no active forms");
    assert!(saw_partial, "expected some seed to sample one active form");
    assert!(saw_full, "expected some seed to sample all active forms");
}

#[test]
fn mutate_returns_candidate_unchanged_when_all_mutation_rates_are_zero() {
    let mut manager = manager_with(
        isa_with_instructions(vec![two_form_instruction()]),
        StdRng::seed_from_u64(0x7600),
        OrderedMap::new(),
        vec![],
    );
    manager.mutate_field_rate = 0.0;
    manager.mutate_form_rate = 0.0;
    let original = candidate_with_active_forms(
        &[
            ("imm", variable_bits_field("0")),
            ("opcode", uses_field(&["00"])),
        ],
        &[("INST", &["base"])],
    );

    let mutated = manager.mutate(original.clone());

    assert_eq!(mutated, original);
}

#[test]
fn mutate_can_change_field_uses_and_resample_active_forms_in_one_call() {
    let valid_forms = forms(&["base", "inactive"]);
    let mut manager = manager_with(
        isa_with_instructions(vec![two_form_instruction()]),
        StdRng::seed_from_u64(0x7601),
        OrderedMap::new(),
        vec![],
    );
    manager.mutate_field_rate = 1.0;
    manager.mutate_form_rate = 1.0;
    let original = candidate_with_active_forms(
        &[("bit", variable_bits_field("0"))],
        &[("INST", &["base"])],
    );

    let mutated = manager.mutate(original.clone());

    assert_ne!(mutated.valid_field_uses, original.valid_field_uses);
    let mutated_forms = mutated
        .active_forms
        .get("INST")
        .expect("mutated candidate should preserve the instruction active_forms key");
    assert!(
        mutated_forms.to_vec().iter().all(|form| valid_forms.contains(form)),
        "mutate active forms returned an unknown form: {mutated_forms:?}"
    );
    assert!(mutated_forms.len() <= valid_forms.len());
}

#[test]
fn mutate_updates_the_only_variable_bits_field() {
    let mut manager = manager(StdRng::seed_from_u64(0x6001));
    let original = candidate(&[("imm", variable_bits_field("0"))]);
    let mutated = manager.mutate(original);
    let field = mutated
        .valid_field_uses
        .get("imm")
        .expect("mutated candidate should keep imm field");

    let FieldUses::VariableBits { pattern, .. } = field else {
        panic!("expected VariableBits field");
    };
    let pattern = pattern
        .as_ref()
        .expect("mutating a populated VariableBits field should keep a pattern for this seed");
    assert!(
        pattern == &BitPattern::parse("1") || pattern == &BitPattern::parse("x"),
        "expected Low bit to flip to High or generalize to Var, got {pattern:?}"
    );
}

#[test]
fn mutate_updates_the_only_uses_field_and_preserves_len() {
    let mut manager = manager(StdRng::seed_from_u64(0x6002));
    let original = candidate(&[("opcode", uses_field(&["00"]))]);
    let mutated = manager.mutate(original);
    let field = mutated
        .valid_field_uses
        .get("opcode")
        .expect("mutated candidate should keep opcode field");
    let FieldUses::Uses { patterns, len, .. } = field else {
        panic!("expected Uses field");
    };

    assert_eq!(*len, 2);
    assert!(patterns.to_vec().iter().all(|pattern| pattern.len() == *len));
    assert_ne!(*patterns, self::patterns(&["00"]));
}

#[test]
fn mutate_with_field_rate_one_updates_every_field() {
    let original = candidate(&[
        ("a", variable_bits_field("0")),
        ("b", variable_bits_field("1")),
    ]);

    let mut manager = manager(StdRng::seed_from_u64(0));
    manager.mutate_field_rate = 1.0;
    let mutated = manager.mutate(original.clone());

    assert_ne!(
        mutated.valid_field_uses.get("a"),
        original.valid_field_uses.get("a")
    );
    assert_ne!(
        mutated.valid_field_uses.get("b"),
        original.valid_field_uses.get("b")
    );
}

#[test]
fn mutate_keeps_all_candidate_field_names() {
    let original = candidate(&[
        ("imm", variable_bits_field("x")),
        ("opcode", uses_field(&["00", "11"])),
    ]);
    let mut manager = manager(StdRng::seed_from_u64(0x6003));
    let mutated = manager.mutate(original);

    assert!(mutated.valid_field_uses.contains_key("imm"));
    assert!(mutated.valid_field_uses.contains_key("opcode"));
    assert_eq!(mutated.valid_field_uses.len(), 2);
}

#[test]
fn mutate_preserves_uses_length_metadata_when_that_field_is_selected() {
    let original = candidate(&[
        ("imm", variable_bits_field("1")),
        ("opcode", uses_field(&["00x"])),
    ]);
    let mut saw_opcode_mutation = false;

    let mut manager = manager(StdRng::seed_from_u64(0));
    for seed in 0..512 {
        manager.rng = StdRng::seed_from_u64(seed);
        let mutated = manager.mutate(original.clone());
        if mutated.valid_field_uses.get("opcode") != original.valid_field_uses.get("opcode") {
            let FieldUses::Uses { patterns, len, .. } = mutated
                .valid_field_uses
                .get("opcode")
                .expect("opcode field should remain present")
            else {
                panic!("expected Uses field");
            };

            assert_eq!(*len, 3);
            assert!(patterns.to_vec().iter().all(|pattern| pattern.len() == *len));
            saw_opcode_mutation = true;
            break;
        }
    }

    assert!(saw_opcode_mutation, "expected some seed to mutate opcode");
}

#[test]
fn mutate_can_remove_variable_bits_pattern() {
    let original = candidate(&[("imm", variable_bits_field("101"))]);
    let mut manager = manager(StdRng::seed_from_u64(0));
    manager.mutate_field_rate = 1.0;
    manager.mutate_form_rate = 0.0;

    for seed in 0..10_000 {
        manager.rng = StdRng::seed_from_u64(seed);
        let mutated = manager.mutate(original.clone());
        let FieldUses::VariableBits { pattern, len, .. } = mutated
            .valid_field_uses
            .get("imm")
            .expect("mutated candidate should keep imm field")
        else {
            panic!("expected VariableBits field");
        };

        assert_eq!(*len, 3);
        if pattern.is_none() {
            return;
        }
    }

    panic!("expected some deterministic seed to remove a VariableBits pattern");
}

#[test]
fn mutate_allows_empty_field_uses_when_form_mutation_is_disabled() {
    let mut manager = manager(StdRng::seed_from_u64(0x6004));
    manager.mutate_field_rate = 1.0;
    manager.mutate_form_rate = 0.0;
    let mutated = manager.mutate(ISACandidate {
        valid_field_uses: OrderedMap::new(),
        active_forms: OrderedMap::new(),
    });

    assert!(mutated.valid_field_uses.is_empty());
    assert!(mutated.active_forms.is_empty());
}

#[test]
fn mutate_field_variable_bits_flips_low_to_high() {
    let mut manager = manager(StdRng::seed_from_u64(0x10));
    let field = variable_bits_field("0");
    let mutated = unwrap_variable_bits(mutate_field(&field, false, false, &mut manager.rng));

    assert_eq!(mutated, BitPattern::parse("1"));
}

#[test]
fn mutate_field_variable_bits_flips_high_to_low() {
    let mut manager = manager(StdRng::seed_from_u64(0x11));
    let field = variable_bits_field("1");
    let mutated = unwrap_variable_bits(mutate_field(&field, false, false, &mut manager.rng));

    assert_eq!(mutated, BitPattern::parse("0"));
}

#[test]
fn mutate_field_variable_bits_materializes_var_to_concrete_bit() {
    let mut manager = manager(StdRng::seed_from_u64(0x12));
    let mutated = unwrap_variable_bits(manager.mutate_field(variable_bits_field("x"), 1));

    assert_concrete(&mutated);
}

#[test]
fn mutate_field_variable_bits_preserves_name_and_width() {
    let mut manager = manager(StdRng::seed_from_u64(0x13));
    let mutated = manager.mutate_field(variable_bits_field("101"), 3);
    let FieldUses::VariableBits { name, pattern, len } = mutated else {
        panic!("expected VariableBits field");
    };

    assert_eq!(name, "field");
    assert_eq!(len, 3);
    assert_eq!(
        pattern
            .as_ref()
            .expect("mutated VariableBits should remain populated for this seed")
            .len(),
        3
    );
}

#[test]
fn mutate_field_variable_bits_can_be_removed() {
    let field = variable_bits_field("101");
    let mut manager = manager(StdRng::seed_from_u64(0));

    for seed in 0..10_000 {
        manager.rng = StdRng::seed_from_u64(seed);
        let mutated = manager.mutate_field(field.clone(), 3);
        let FieldUses::VariableBits { pattern, len, .. } = mutated else {
            panic!("expected VariableBits field");
        };

        assert_eq!(len, 3);
        if pattern.is_none() {
            return;
        }
    }

    panic!("expected some deterministic seed to remove a VariableBits pattern");
}

#[test]
fn mutate_field_empty_variable_bits_creates_random_pattern() {
    let mut manager = manager(StdRng::seed_from_u64(0x1313));
    let mutated = manager.mutate_field(empty_variable_bits_field(4), 4);
    let FieldUses::VariableBits { pattern, len, .. } = mutated else {
        panic!("expected VariableBits field");
    };

    assert_eq!(len, 4);
    assert_eq!(
        pattern
            .as_ref()
            .expect("empty VariableBits should be repopulated by mutation")
            .len(),
        4
    );
}

#[test]
fn mutate_field_variable_bits_selects_bit_positions_roughly_uniformly() {
    let mut manager = manager(StdRng::seed_from_u64(0x14));
    let field = variable_bits_field("000");
    let sample_count = 6_000usize;
    let expected_count = sample_count / 3;
    let tolerance = expected_count / 5;
    let mut counts = [0usize; 3];

    let mut observed = 0usize;
    while observed < sample_count {
        let FieldUses::VariableBits { pattern, .. } = manager.mutate_field(field.clone(), 3)
        else {
            panic!("expected VariableBits field");
        };
        let Some(mutated) = pattern else {
            continue;
        };
        let changed_idx = mutated
            .bits
            .iter()
            .position(|bit| *bit != Bit::Low)
            .expect("one Low bit should flip or generalize");
        counts[changed_idx] += 1;
        observed += 1;
    }

    for count in counts {
        assert!(
            expected_count.abs_diff(count) <= tolerance,
            "expected count {count} to be within {tolerance} of {expected_count}"
        );
    }
}

#[test]
fn mutate_field_variable_bits_materializes_var_values_roughly_uniformly() {
    let mut manager = manager(StdRng::seed_from_u64(0x15));
    let field = variable_bits_field("x");
    let sample_count = 4_000usize;
    let expected_count = sample_count / 2;
    let tolerance = expected_count / 5;
    let mut low_count = 0usize;
    let mut high_count = 0usize;

    let mut observed = 0usize;
    while observed < sample_count {
        let FieldUses::VariableBits { pattern, .. } = manager.mutate_field(field.clone(), 1)
        else {
            panic!("expected VariableBits field");
        };
        let Some(mutated) = pattern else {
            continue;
        };
        match mutated.bits[0] {
            Bit::Low => low_count += 1,
            Bit::High => high_count += 1,
            other => panic!("expected concrete bit, got {other:?}"),
        }
        observed += 1;
    }

    assert!(expected_count.abs_diff(low_count) <= tolerance);
    assert!(expected_count.abs_diff(high_count) <= tolerance);
}

#[test]
fn mutate_field_uses_subtracts_selected_concrete_point_from_variable_pattern() {
    let mut manager = manager(StdRng::seed_from_u64(0x16));
    let mutated = unwrap_uses(manager.mutate_field(uses_field(&["xx"]), 2));

    assert_eq!(mutated.len(), 2);
    assert_eq!(
        mutated.to_vec().iter().map(BitPattern::num_variable).sum::<usize>(),
        1
    );
    assert!(!mutated.contains(&BitPattern::parse("xx")));
}

#[test]
fn mutate_field_uses_subtracts_one_point_from_four_bit_universal_cube() {
    let mut saw_subtraction = false;

    let mut manager = manager(StdRng::seed_from_u64(0));
    for seed in 0..512 {
        manager.rng = StdRng::seed_from_u64(seed);
        let mutated = unwrap_uses(manager.mutate_field(uses_field(&["xxxx"]), 4));

        if mutated.len() == 4 {
            assert_eq!(
                mutated
                    .to_vec()
                    .iter()
                    .map(|pattern| 1 << pattern.num_variable())
                    .sum::<usize>(),
                15
            );
            assert!(!mutated.contains(&BitPattern::parse("xxxx")));
            saw_subtraction = true;
            break;
        }
    }

    assert!(
        saw_subtraction,
        "expected some seeded mutation to subtract one point from xxxx"
    );
}

#[test]
fn mutate_field_uses_can_add_random_uncovered_pattern() {
    let mut added = false;

    let mut manager = manager(StdRng::seed_from_u64(0));
    for seed in 0..256 {
        manager.rng = StdRng::seed_from_u64(seed);
        let original = patterns(&["00x"]);
        let mutated = unwrap_uses(manager.mutate_field(
            FieldUses::Uses {
                name: "field".to_string(),
                patterns: original.clone(),
                len: 3,
            },
            3,
        ));

        if mutated.len() > original.len() {
            let added_patterns: Vec<BitPattern> = mutated.difference(&original).to_vec();
            assert_eq!(added_patterns.len(), 1);
            assert_concrete(&added_patterns[0]);
            assert_uncovered(&added_patterns[0], &original);
            added = true;
            break;
        }
    }

    assert!(
        added,
        "expected some seeded mutation to add an uncovered pattern"
    );
}

#[test]
fn mutate_field_uses_can_remove_selected_concrete_pattern() {
    let mut removed = false;

    let mut manager = manager(StdRng::seed_from_u64(0));
    for seed in 0..256 {
        manager.rng = StdRng::seed_from_u64(seed);
        let mutated = unwrap_uses(manager.mutate_field(uses_field(&["0", "1"]), 1));

        if mutated.len() == 1 {
            assert!(
                mutated.contains(&BitPattern::parse("0"))
                    || mutated.contains(&BitPattern::parse("1"))
            );
            removed = true;
            break;
        }
    }

    assert!(
        removed,
        "expected some seeded mutation to remove a concrete pattern"
    );
}

#[test]
fn mutate_field_uses_samples_existing_and_uncovered_buckets_by_frequency() {
    let mut manager = manager(StdRng::seed_from_u64(0x17));
    let field = uses_field(&["00x"]);
    let sample_count = 4_000usize;
    let expected_add_count = sample_count * 6 / 8;
    let expected_subtract_count = sample_count * 2 / 8;
    let tolerance = sample_count / 10;
    let mut add_count = 0usize;
    let mut subtract_count = 0usize;

    for _ in 0..sample_count {
        let mutated = unwrap_uses(manager.mutate_field(field.clone(), 3));
        if mutated.len() == 2 && mutated.contains(&BitPattern::parse("00x")) {
            add_count += 1;
        } else if mutated.len() == 1 && !mutated.contains(&BitPattern::parse("00x")) {
            subtract_count += 1;
        } else {
            panic!("unexpected Uses mutation outcome: {mutated:?}");
        }
    }

    assert!(
        expected_add_count.abs_diff(add_count) <= tolerance,
        "expected add count {add_count} to be within {tolerance} of {expected_add_count}"
    );
    assert!(
        expected_subtract_count.abs_diff(subtract_count) <= tolerance,
        "expected subtract count {subtract_count} to be within {tolerance} of {expected_subtract_count}"
    );
}

#[test]
fn mutate_field_uses_merges_added_uncovered_pattern_with_existing_pattern() {
    let mut merged = false;

    let mut manager = manager(StdRng::seed_from_u64(0));
    for seed in 0..512 {
        manager.rng = StdRng::seed_from_u64(seed);
        let mutated = unwrap_uses(manager.mutate_field(uses_field(&["00"]), 2));

        if mutated.contains(&BitPattern::parse("0x")) {
            assert_eq!(
                mutated,
                patterns(&["0x"]),
                "expected newly added adjacent pattern to merge with 00"
            );
            merged = true;
            break;
        }
    }

    assert!(
        merged,
        "expected some seeded mutation to add 01 and merge to 0x"
    );
}

#[test]
fn mutate_field_uses_merges_specialized_pattern_with_neighbor() {
    let mut merged = false;

    let mut manager = manager(StdRng::seed_from_u64(0));
    for seed in 0..512 {
        manager.rng = StdRng::seed_from_u64(seed);
        let mutated = unwrap_uses(manager.mutate_field(uses_field(&["0x", "10"]), 2));

        if mutated == patterns(&["x0"]) {
            merged = true;
            break;
        }
    }

    assert!(
        merged,
        "expected some seeded mutation to specialize 0x to 00 and merge with 10 into x0"
    );
}

#[test]
fn mutate_field_uses_applies_merge_until_fixed_point() {
    let mut merged_to_universal = false;

    let mut manager = manager(StdRng::seed_from_u64(0));
    for seed in 0..1024 {
        manager.rng = StdRng::seed_from_u64(seed);
        let mutated = unwrap_uses(manager.mutate_field(uses_field(&["0x", "10"]), 2));

        if mutated == patterns(&["xx"]) {
            merged_to_universal = true;
            break;
        }
    }

    assert!(
        merged_to_universal,
        "expected some seeded mutation to add 11 and merge 0x, 10, 11 into xx"
    );
}

#[test]
fn construct_bitpatterns_frequencies_returns_empty_for_empty_patterns() {
    let patterns = vec![];

    assert_eq!(
        construct_bitpatterns_frequencies(&patterns),
        vec![]
    );
}

#[test]
fn construct_bitpatterns_frequencies_counts_concrete_patterns_as_one() {
    let patterns = vec![
        BitPattern::parse("00"),
        BitPattern::parse("01"),
        BitPattern::parse("10"),
        BitPattern::parse("11"),
    ];

    assert_eq!(
        construct_bitpatterns_frequencies(&patterns),
        vec![1, 1, 1, 1]
    );
}

#[test]
fn construct_bitpatterns_frequencies_uses_power_of_variable_bit_count() {
    let patterns = vec![
        BitPattern::parse("x"),
        BitPattern::parse("xx"),
        BitPattern::parse("x0x"),
        BitPattern::parse("xxxx"),
    ];

    assert_eq!(
        construct_bitpatterns_frequencies(&patterns),
        vec![2, 4, 4, 16]
    );
}

#[test]
fn construct_bitpatterns_frequencies_preserves_input_order() {
    let patterns = vec![
        BitPattern::parse("xxx"),
        BitPattern::parse("0"),
        BitPattern::parse("x0"),
        BitPattern::parse("xx00x"),
    ];

    assert_eq!(
        construct_bitpatterns_frequencies(&patterns),
        vec![8, 1, 2, 8]
    );
}

#[test]
fn construct_bitpatterns_frequencies_counts_only_var_bits() {
    let patterns = vec![
        BitPattern::new(vec![Bit::Test, Bit::Low, Bit::High]),
        BitPattern::new(vec![Bit::Var, Bit::Test, Bit::Var]),
    ];

    assert_eq!(
        construct_bitpatterns_frequencies(&patterns),
        vec![1, 4]
    );
}

#[test]
fn random_uncovered_pattern_only_returns_concrete_uncovered_patterns() {
    let covered = patterns(&["00x", "101", "11x"]);
    let uncovered = uncovered_patterns(&covered, 3);
    let mut manager = manager(StdRng::seed_from_u64(0x51a0));

    for _ in 0..256 {
        let pattern = manager.random_pattern(&uncovered, 3);

        assert_concrete(&pattern);
        assert_uncovered(&pattern, &covered);
    }
}

#[test]
fn random_uncovered_pattern_samples_uncovered_patterns_uniformly() {
    let covered = patterns(&["00x"]);
    let uncovered = uncovered_patterns(&covered, 3);
    let mut manager = manager(StdRng::seed_from_u64(0x5150));
    let sample_count = 6_000usize;
    let expected_count = sample_count / 6;
    let tolerance = expected_count / 5;
    let mut counts: HashMap<String, usize> = HashMap::new();

    for _ in 0..sample_count {
        let pattern = manager.random_pattern(&uncovered, 3);

        assert_concrete(&pattern);
        assert_uncovered(&pattern, &covered);
        *counts.entry(pattern_string(&pattern)).or_insert(0usize) += 1;
    }

    assert_eq!(counts.len(), 6, "expected to sample all uncovered patterns");
    for pattern in ["010", "011", "100", "101", "110", "111"] {
        let count = *counts.get(pattern).unwrap_or(&0);
        assert!(
            expected_count.abs_diff(count) <= tolerance,
            "expected {pattern} count {count} to be within {tolerance} of {expected_count}"
        );
    }
}

#[test]
fn random_uncovered_pattern_samples_all_patterns_when_none_are_covered() {
    let covered = patterns(&[]);
    let uncovered = uncovered_patterns(&covered, 2);
    let mut manager = manager(StdRng::seed_from_u64(0x0fee));
    let sample_count = 4_000usize;
    let expected_count = sample_count / 4;
    let tolerance = expected_count / 5;
    let mut counts: HashMap<String, usize> = HashMap::new();

    for _ in 0..sample_count {
        let pattern = manager.random_pattern(&uncovered, 2);

        assert_concrete(&pattern);
        *counts.entry(pattern_string(&pattern)).or_insert(0usize) += 1;
    }

    assert_eq!(counts.len(), 4, "expected to sample all concrete patterns");
    for pattern in ["00", "01", "10", "11"] {
        let count = *counts.get(pattern).unwrap_or(&0);
        assert!(
            expected_count.abs_diff(count) <= tolerance,
            "expected {pattern} count {count} to be within {tolerance} of {expected_count}"
        );
    }
}

#[test]
fn random_uncovered_pattern_handles_overlapping_covered_patterns() {
    let covered = patterns(&["0xx", "x0x", "110"]);
    let uncovered = uncovered_patterns(&covered, 3);
    let mut manager = manager(StdRng::seed_from_u64(0x0b1a));
    let mut sampled: HashSet<String> = HashSet::new();

    for _ in 0..256 {
        let pattern = manager.random_pattern(&uncovered, 3);

        assert_concrete(&pattern);
        assert_uncovered(&pattern, &covered);
        sampled.insert(pattern_string(&pattern));
    }

    assert_eq!(
        sampled,
        ["111".to_string()].into_iter().collect(),
        "expected only the sole uncovered pattern to be sampled"
    );
}

#[test]
fn random_uncovered_pattern_repeatedly_returns_only_remaining_assignment() {
    let covered = patterns(&["0xx", "10x", "110"]);
    let uncovered = uncovered_patterns(&covered, 3);
    let mut manager = manager(StdRng::seed_from_u64(0x501e));

    for _ in 0..64 {
        let pattern = manager.random_pattern(&uncovered, 3);

        assert_concrete(&pattern);
        assert_eq!(pattern_string(&pattern), "111");
    }
}
