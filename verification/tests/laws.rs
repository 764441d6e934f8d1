//! Laws of patterns, encodings and candidates on concrete values.
use isa_minimization::bit::{Bit, BitPattern};
use isa_minimization::collections::{OrderedMap, OrderedSet};
use isa_minimization::decode::{decode_bits, instruction_addr_stride, try_decode_bits};
use isa_minimization::drawn_patterns::{
    bit_of_draw, constants_of_draws, pattern_of_draws, point_of_draws,
};
use isa_minimization::field_uses::merge_pattern_set;
use isa_minimization::form_repair::merge_repair_field_use;
use isa_minimization::input_checks::{are_conditions_defined, is_candidate_usable, widths_countable};
use isa_minimization::isa_optimization::{ISACandidate, IsaOptimizationManager};
use isa_minimization::isa_specification::{
    and, bit_eq, field_eq, field_in, ArchitecturalRegister, DecodedInstruction, FieldUses, ISA,
    Instruction, InstructionField, InstructionForm, StackDirection, StackPointer,
};
use isa_minimization::mutation::{
    change_field, change_patterns, mutate_pattern_at, mutation_weights, pattern_weights,
    FieldChange, FieldDraws,
};
use isa_minimization::pattern_cover::{construct_bitpatterns_frequencies, uncovered_patterns};
use isa_minimization::random_candidates::{drawn_forms, uses_of_row, uses_of_rows};
use rand::rngs::StdRng;
use rand::SeedableRng;

const BITS: [Bit; 4] = [Bit::Low, Bit::High, Bit::Var, Bit::Test];

fn points(len: usize) -> Vec<BitPattern> {
    (0..1usize << len)
        .map(|n| {
            BitPattern::new(
                (0..len)
                    .map(|i| if n >> i & 1 == 1 { Bit::High } else { Bit::Low })
                    .collect(),
            )
        })
        .collect()
}

fn pattern_set(texts: &[&str]) -> OrderedSet<BitPattern> {
    OrderedSet::from_vec(texts.iter().map(|text| BitPattern::parse(text)).collect())
}

fn covers_point(set: &OrderedSet<BitPattern>, point: &BitPattern) -> bool {
    set.to_vec().iter().any(|p| p.matches_bits(&point.bits))
}

fn machine(instructions: Vec<Instruction>) -> ISA {
    let register = ArchitecturalRegister {
        identifier: 0,
        identifier_width: 1,
        width: 8,
    };
    ISA {
        registers: vec![register],
        instructions,
        sp: StackPointer {
            register,
            stack_size: 4,
            direction: StackDirection::Upwards,
        },
        pc: register,
    }
}

fn two_instructions() -> ISA {
    machine(vec![
        Instruction::new("move", 6).form(
            InstructionForm::new("wide")
                .field(InstructionField::constant("00"))
                .field(InstructionField::variable("mode", 2).merge_mode_uses())
                .field(InstructionField::variable("imm", 2))
                .when(and(vec![field_in("mode", vec!["0x", "10"]), bit_eq(5, Bit::High)])),
        ),
        Instruction::new("jump", 6)
            .form(
                InstructionForm::new("near")
                    .field(InstructionField::constant("01"))
                    .field(InstructionField::variable("mode", 2).merge_mode_uses())
                    .field(InstructionField::constant("00")),
            )
            .form(
                InstructionForm::new("far")
                    .field(InstructionField::constant("10"))
                    .field(InstructionField::variable("mode", 2).merge_mode_uses())
                    .field(InstructionField::variable("imm", 2))
                    .when(field_eq("mode", "11")),
            ),
    ])
}

fn search<'a>(isa: &'a ISA, program: Vec<DecodedInstruction>) -> IsaOptimizationManager<'a> {
    IsaOptimizationManager::new(
        isa,
        StdRng::seed_from_u64(7),
        OrderedMap::new(),
        OrderedMap::new(),
        program,
        9,
        2,
    )
}

#[test]
fn operators_accept_what_they_make_of_possible_values() {
    let accepts = |pattern: Bit, bit: Bit| BitPattern::new(vec![pattern]).matches_bits(&[bit]);
    for a in BITS {
        assert_eq!(!!a, a);
        for b in BITS {
            assert_eq!(!(a & b), !a | !b);
            assert_eq!(!(a | b), !a & !b);
            assert_eq!(!(a ^ b), !a ^ b);
            for c in BITS {
                assert_eq!((a & b) & c, a & (b & c));
                assert_eq!((a | b) | c, a | (b | c));
                assert_eq!((a ^ b) ^ c, a ^ (b ^ c));
            }
            for x in [Bit::Low, Bit::High] {
                for y in [Bit::Low, Bit::High] {
                    if accepts(a, x) && accepts(b, y) {
                        assert!(accepts(!a, !x));
                        assert!(accepts(a & b, x & y));
                        assert!(accepts(a | b, x | y));
                        assert!(accepts(a ^ b, x ^ y));
                    }
                }
            }
        }
    }
}

#[test]
fn merging_keeps_points_and_settles() {
    let sets = [
        pattern_set(&["000", "001", "010", "011", "111"]),
        pattern_set(&["0x0", "1x0", "x11", "101"]),
        pattern_set(&["110", "11x", "001"]),
        pattern_set(&[]),
    ];
    for set in &sets {
        let merged = merge_pattern_set(set, 3);
        for point in points(3) {
            assert_eq!(covers_point(set, &point), covers_point(&merged, &point));
        }
        let again = merge_pattern_set(&merged, 3);
        assert!(again.is_subset(&merged) && merged.is_subset(&again));
    }
    let merged = merge_pattern_set(&pattern_set(&["000", "001", "010", "011"]), 3);
    assert_eq!(merged.to_vec(), vec![BitPattern::parse("0xx")]);
    let pair = BitPattern::parse("01x").merge_with(&BitPattern::parse("11x"));
    assert_eq!(pair, BitPattern::parse("x1x"));
}

/// Reports whether every point of the second cube is one of the first.
fn contains_cube(large: &BitPattern, small: &BitPattern) -> bool {
    large.bits.iter().zip(&small.bits).all(|(a, b)| *a == Bit::Var || a == b)
}

/// All patterns of the length over zeros, ones and variable bits.
fn cubes(len: usize) -> Vec<BitPattern> {
    (0..3usize.pow(len as u32))
        .map(|n| {
            BitPattern::new((0..len).map(|i| BITS[n / 3usize.pow(i as u32) % 3]).collect())
        })
        .collect()
}

#[test]
fn merged_points_are_their_maximal_cubes() {
    let all = points(3);
    for chosen in 0..1usize << all.len() {
        let listed: Vec<BitPattern> = all
            .iter()
            .enumerate()
            .filter(|(i, _)| chosen >> i & 1 == 1)
            .map(|(_, point)| point.clone())
            .collect();
        let inside: Vec<BitPattern> = cubes(3)
            .into_iter()
            .filter(|cube| {
                all.iter()
                    .all(|point| !contains_cube(cube, point) || listed.contains(point))
            })
            .collect();
        let maximal: Vec<BitPattern> = inside
            .iter()
            .filter(|cube| {
                inside
                    .iter()
                    .all(|other| other == *cube || !contains_cube(other, cube))
            })
            .cloned()
            .collect();
        let merged = merge_pattern_set(&OrderedSet::from_vec(listed), 3);
        assert_eq!(merged.len(), maximal.len());
        assert!(maximal.iter().all(|cube| merged.contains(cube)));
    }
}

#[test]
fn uncovered_patterns_part_the_rest() {
    let set = pattern_set(&["0x1", "11x"]);
    let rest = uncovered_patterns(&set, 3);
    for point in points(3) {
        let times = rest
            .to_vec()
            .iter()
            .filter(|p| p.matches_bits(&point.bits))
            .count();
        assert_eq!(times, usize::from(!covers_point(&set, &point)));
    }
    assert_eq!(
        construct_bitpatterns_frequencies(&vec![
            BitPattern::parse("0x1"),
            BitPattern::parse("xxx"),
            BitPattern::parse("101"),
        ]),
        vec![2, 8, 1]
    );
    let cubes = BitPattern::parse("xx0").cube_subtract(&BitPattern::parse("10x"));
    for point in points(3) {
        assert_eq!(
            covers_point(&cubes, &point),
            BitPattern::parse("xx0").matches_bits(&point.bits)
                && !BitPattern::parse("10x").matches_bits(&point.bits)
        );
    }
}

#[test]
fn the_largest_candidate_runs_what_decodes_and_fields_make_the_encoding() {
    let isa = two_instructions();
    let all = ISACandidate::max_isa(&isa);
    let mut decoded_count = 0;
    for point in points(6) {
        if let Some(decoded) = decode_bits(&isa, &point.bits) {
            decoded_count += 1;
            assert!(all.supports_instruction(&decoded));
            let bits: Vec<Bit> = decoded
                .fields
                .iter()
                .flat_map(|field| field.value.bits.clone())
                .collect();
            assert_eq!(bits, point.bits);
            assert_eq!(decoded.bits, point.bits);
        }
    }
    // Six of the first form, four of the second and four of the third.
    assert_eq!(decoded_count, 14);
}

#[test]
fn a_program_runs_on_its_own_candidate_and_on_the_smallest_one() {
    let isa = two_instructions();
    let program =
        DecodedInstruction::decode_program_str("000001\n001011\n010100\n101110", &isa).unwrap();
    let own = ISACandidate::from_program(&isa, &program);
    for instruction in &program {
        assert!(own.supports_instruction(instruction));
    }
    let other = decode_bits(&isa, &BitPattern::parse("011000").bits).unwrap();
    assert!(own.supports_instruction(&other));
    let foreign = decode_bits(&isa, &BitPattern::parse("101100").bits).unwrap();
    assert!(own.supports_instruction(&foreign));
    let smallest = search(&isa, program.clone()).minimum_isa_features_for_program();
    for instruction in &program {
        assert!(smallest.supports_instruction(instruction));
    }
    let addresses: Vec<usize> = program.iter().map(|i| i.mem_addr).collect();
    assert_eq!(addresses, vec![0, 1, 2, 3]);
    assert_eq!(instruction_addr_stride(9), 2);
    assert_eq!(instruction_addr_stride(0), 1);
}

#[test]
fn encodings_are_those_of_supported_instructions() {
    let isa = two_instructions();
    let program = DecodedInstruction::decode_program_str("000001\n101101", &isa).unwrap();
    let manager = search(&isa, program.clone());
    let candidate = ISACandidate::from_program(&isa, &program);
    let valid = manager.valid_encodings(&candidate).unwrap();
    for point in points(6) {
        let supported = match decode_bits(&isa, &point.bits) {
            Some(decoded) => candidate.supports_instruction(&decoded),
            None => false,
        };
        assert_eq!(supported, covers_point(&valid, &point));
    }
    let form = &isa.instructions[0].forms[0];
    let all = ISACandidate::max_isa(&isa);
    let encodings = OrderedSet::from_vec(form.fields_to_encodings(&all.valid_field_uses));
    for point in points(6) {
        let accepted = isa.instructions[0].find_match(&point.bits).is_some();
        assert_eq!(accepted, covers_point(&encodings, &point));
    }
}

#[test]
fn a_joined_use_allows_the_values_of_both() {
    let old = FieldUses::VariableBits {
        name: "imm".to_owned(),
        pattern: Some(BitPattern::parse("0011")),
        len: 4,
    };
    let more = FieldUses::VariableBits {
        name: "imm".to_owned(),
        pattern: Some(BitPattern::parse("0101")),
        len: 4,
    };
    let joined = merge_repair_field_use(&old, &more);
    assert_eq!(
        joined,
        FieldUses::VariableBits {
            name: "imm".to_owned(),
            pattern: Some(BitPattern::parse("0xx1")),
            len: 4,
        }
    );
}

#[test]
fn restoring_twice_is_restoring_once_and_children_keep_unrestricted_forms() {
    let isa = two_instructions();
    let mut unrestricted = OrderedMap::new();
    unrestricted.insert(
        "jump".to_owned(),
        OrderedSet::from_vec(vec!["far".to_owned()]),
    );
    let mut manager = IsaOptimizationManager::new(
        &isa,
        StdRng::seed_from_u64(3),
        OrderedMap::new(),
        unrestricted,
        vec![],
        4,
        1,
    );
    let bare = ISACandidate::from_program(&isa, &vec![]);
    let mut once = bare.clone();
    manager.restore_unrestricted_features(&mut once);
    let mut twice = once.clone();
    manager.restore_unrestricted_features(&mut twice);
    assert_eq!(once, twice);
    assert!(once.active_forms.get("jump").unwrap().contains(&"far".to_owned()));
    assert!(!manager.field_selectable_for_ga_restriction(&"imm".to_owned()));

    let (first, second) =
        manager.reproduce(&bare, &once, true, &vec![true, true], &vec![true, true]);
    let drawn = FieldDraws {
        mutates: true,
        to_none: true,
        const_to_var: true,
    };
    let mutated = manager.mutate(&bare, &vec![drawn, drawn], &vec![true, true]);
    let all = ISACandidate::max_isa(&isa);
    for child in [&first, &second, &mutated] {
        assert!(child.active_forms.get("jump").unwrap().contains(&"far".to_owned()));
        assert_eq!(
            child.valid_field_uses.get("imm"),
            all.valid_field_uses.get("imm")
        );
    }
}

#[test]
fn generations_keep_the_best_and_fill_up_with_valid_children() {
    let isa = two_instructions();
    let manager = search(&isa, vec![]);
    assert_eq!(manager.elite_indices(&vec![5, -1, 9, 7]), vec![2, 3]);
    assert_eq!(manager.elite_indices(&vec![4]), vec![0]);
    let fewest = manager.minimum_isa_features_for_program();
    let seeds = manager.initial_seeds(&fewest);
    assert_eq!(seeds.len(), 5);
    assert_eq!(seeds[0], ISACandidate::max_isa(&isa));
    assert_eq!(seeds[4], fewest);

    let narrow = IsaOptimizationManager::new(
        &isa,
        StdRng::seed_from_u64(7),
        OrderedMap::new(),
        OrderedMap::new(),
        vec![],
        3,
        2,
    );
    let all = ISACandidate::max_isa(&isa);
    let filled = narrow.fill_generation(
        vec![all.clone()],
        vec![fewest.clone(), all.clone(), fewest.clone(), all.clone()],
        &vec![false, true, true, true],
    );
    assert_eq!(filled, vec![all.clone(), all, fewest]);
}

#[test]
fn a_programs_own_candidate_lists_only_what_occurs() {
    let isa = two_instructions();
    let names: Vec<String> = isa.instructions.iter().map(|i| i.name.clone()).collect();
    let decodable: Vec<DecodedInstruction> =
        points(6).iter().filter_map(|p| decode_bits(&isa, &p.bits)).collect();
    let program: Vec<DecodedInstruction> = decodable.iter().step_by(5).cloned().collect();
    let candidate = ISACandidate::from_program(&isa, &program);
    for name in &names {
        let listed = candidate.active_forms.get(name).unwrap();
        for instruction in isa.instructions.iter().filter(|i| &i.name == name) {
            for form in &instruction.forms {
                let used = program.iter().any(|d| &d.name == name && d.form.name == form.name);
                assert_eq!(listed.contains(&form.name), used);
            }
        }
    }
    for i in 0..candidate.valid_field_uses.len() {
        let name = candidate.valid_field_uses.name_at(i).clone();
        let values: Vec<BitPattern> = program
            .iter()
            .flat_map(|d| d.fields.iter())
            .filter(|f| f.name.as_ref() == Some(&name))
            .map(|f| f.value.clone())
            .collect();
        match candidate.valid_field_uses.get(&name).unwrap() {
            FieldUses::Uses { patterns, len, .. } => {
                for point in points(*len) {
                    assert_eq!(covers_point(patterns, &point), values.contains(&point));
                }
            }
            FieldUses::VariableBits { pattern, len, .. } => match pattern {
                None => assert!(values.is_empty()),
                Some(pattern) => {
                    for place in 0..*len {
                        let first = values[0].bits[place];
                        let differ = values.iter().any(|v| v.bits[place] != first);
                        let wanted = if differ { Bit::Var } else { first };
                        assert_eq!(pattern.bits[place], wanted);
                    }
                }
            },
        }
    }
}

#[test]
fn repaired_mandatory_forms_have_encodings() {
    let isa = machine(vec![
        Instruction::new("used", 3).form(
            InstructionForm::new("base")
                .field(InstructionField::constant("1"))
                .field(InstructionField::variable("both", 2)),
        ),
        Instruction::new("wanted", 5).form(
            InstructionForm::new("base")
                .field(InstructionField::constant("0"))
                .field(InstructionField::variable("both", 2))
                .field(InstructionField::variable("value", 2).merge_mode_uses())
                .when(and(vec![field_in("value", vec!["10", "11"]), bit_eq(1, Bit::High)])),
        ),
    ]);
    let program = vec![decode_bits(&isa, &BitPattern::parse("101").bits).unwrap()];
    for names in [vec!["base".to_owned()], vec![]] {
        let mut mandatory = OrderedMap::new();
        mandatory.insert("wanted".to_owned(), OrderedSet::from_vec(names));
        let manager = IsaOptimizationManager::new(
            &isa,
            StdRng::seed_from_u64(3),
            mandatory,
            OrderedMap::new(),
            program.clone(),
            4,
            1,
        );
        let mut candidate = ISACandidate::from_program(&isa, &program);
        let wanted = &isa.instructions[1];
        assert!(!manager.instruction_has_active_encoding(&candidate, wanted));
        manager.repair_mandatory_forms(&mut candidate);
        assert!(manager.instruction_has_active_encoding(&candidate, wanted));
        assert!(candidate.supports_instruction(&program[0]));
        let smallest = manager.minimum_isa_features_for_program();
        assert!(manager.instruction_has_active_encoding(&smallest, wanted));
        assert!(manager.valid_encodings(&smallest).is_ok());
    }
}

#[test]
fn mutation_weighs_patterns_and_the_rest_by_their_points() {
    let patterns = pattern_set(&["0x1", "110"]);
    let uncovered = uncovered_patterns(&patterns, 3);
    let ordered = patterns.to_vec();
    let weights = mutation_weights(&ordered, &uncovered, 3);
    let mut wanted: Vec<u128> = ordered
        .iter()
        .map(|p| if p.bits.contains(&Bit::Var) { 2 } else { 1 })
        .collect();
    assert_eq!(pattern_weights(&ordered), wanted);
    wanted.push(5);
    assert_eq!(weights, wanted);
}

#[test]
fn changing_patterns_adds_a_point_or_takes_it_out() {
    let ordered = vec![BitPattern::parse("0x1"), BitPattern::parse("110")];
    let same = |set: OrderedSet<BitPattern>, texts: &[&str]| {
        let wanted = pattern_set(texts);
        set.is_subset(&wanted) && wanted.is_subset(&set)
    };
    let added = change_patterns(&ordered, 2, &BitPattern::parse("100"));
    assert!(same(added, &["0x1", "110", "100"]));
    let narrowed = change_patterns(&ordered, 0, &BitPattern::parse("001"));
    assert!(same(narrowed, &["011", "110"]));
    let removed = change_patterns(&ordered, 1, &BitPattern::parse("110"));
    assert!(same(removed, &["0x1"]));
}

#[test]
fn draws_decide_bits_patterns_and_points() {
    assert_eq!((bit_of_draw(0), bit_of_draw(1)), (Bit::Low, Bit::High));
    assert_eq!(constants_of_draws(&vec![1, 0, 1]), BitPattern::parse("101"));
    assert_eq!(pattern_of_draws(&vec![2, 1, 0]), BitPattern::parse("x10"));
    let point = point_of_draws(&BitPattern::parse("x0x1x"), &vec![true, true, false, false, true]);
    assert_eq!(point, BitPattern::parse("10011"));
}

#[test]
fn draws_decide_how_fields_change() {
    let pattern = BitPattern::parse("01x");
    let turned = |place, const_to_var, drawn| {
        mutate_pattern_at(&pattern, place, const_to_var, drawn)
    };
    assert_eq!(turned(0, false, false), BitPattern::parse("11x"));
    assert_eq!(turned(1, false, true), BitPattern::parse("00x"));
    assert_eq!(turned(1, true, false), BitPattern::parse("0xx"));
    assert_eq!(turned(2, true, false), BitPattern::parse("010"));
    assert_eq!(turned(2, false, true), BitPattern::parse("011"));

    let single = |pattern: Option<&str>| FieldUses::VariableBits {
        name: "imm".to_owned(),
        pattern: pattern.map(BitPattern::parse),
        len: 3,
    };
    let appeared = change_field(&single(None), false, &FieldChange::Appear(vec![0, 2, 1]));
    assert_eq!(appeared, single(Some("0x1")));
    assert_eq!(change_field(&single(Some("0x1")), false, &FieldChange::Vanish), single(None));
    let turn = FieldChange::Turn { place: 2, drawn: false };
    assert_eq!(change_field(&single(Some("0x1")), true, &turn), single(Some("0xx")));

    let ordered = vec![BitPattern::parse("0x"), BitPattern::parse("10")];
    let listed = FieldUses::Uses {
        name: "mode".to_owned(),
        patterns: OrderedSet::from_vec(ordered.clone()),
        len: 2,
    };
    let patterns_after = |picked: usize, point: &str| {
        let point = BitPattern::parse(point);
        let change = FieldChange::Point { ordered: ordered.clone(), picked, point };
        let FieldUses::Uses { patterns, .. } = change_field(&listed, false, &change) else {
            panic!("expected a list of values");
        };
        patterns.to_vec()
    };
    assert_eq!(patterns_after(2, "11"), vec![BitPattern::parse("xx")]);
    assert_eq!(patterns_after(0, "01"), vec![BitPattern::parse("x0")]);
    assert_eq!(patterns_after(1, "10"), vec![BitPattern::parse("0x")]);
}

#[test]
fn draws_decide_about_candidates() {
    let isa = two_instructions();
    let jump = &isa.instructions[1];
    let names = |set: OrderedSet<String>| {
        let mut names = set.to_vec();
        names.sort();
        names
    };
    let mut required = OrderedMap::new();
    assert_eq!(names(drawn_forms(jump, &required, &vec![false, false])), Vec::<String>::new());
    assert_eq!(names(drawn_forms(jump, &required, &vec![true, false])), ["near"]);
    required.insert("jump".to_owned(), OrderedSet::from_vec(vec!["far".to_owned()]));
    assert_eq!(names(drawn_forms(jump, &required, &vec![false, false])), ["far"]);
    assert_eq!(names(drawn_forms(jump, &required, &vec![true, false])), ["far", "near"]);

    let row = uses_of_row(&"imm".to_owned(), BitPattern::parse("x1"));
    assert_eq!(
        row,
        FieldUses::VariableBits {
            name: "imm".to_owned(),
            pattern: Some(BitPattern::parse("x1")),
            len: 2,
        }
    );
    let rows = vec![BitPattern::parse("00"), BitPattern::parse("01"), BitPattern::parse("00")];
    let rows = uses_of_rows(&"mode".to_owned(), rows, 2);
    assert_eq!(
        rows,
        FieldUses::Uses { name: "mode".to_owned(), patterns: pattern_set(&["0x"]), len: 2 }
    );

    let mut fixed = OrderedMap::new();
    let mut drawn = OrderedMap::new();
    fixed.insert("imm".to_owned(), row.clone());
    drawn.insert("mode".to_owned(), rows.clone());
    let flags = vec![vec![true], vec![true, false]];
    let candidate = ISACandidate::of_draws(&isa, &fixed, &required, &drawn, &flags);
    assert_eq!(candidate.valid_field_uses.len(), 2);
    assert_eq!(candidate.valid_field_uses.get("imm"), Some(&row));
    assert_eq!(candidate.valid_field_uses.get("mode"), Some(&rows));
    assert_eq!(names(candidate.active_forms.get("move").unwrap().clone()), ["wide"]);
    assert_eq!(names(candidate.active_forms.get("jump").unwrap().clone()), ["far", "near"]);
}

#[test]
fn drawn_fields_are_tested_before_they_mutate() {
    let isa = two_instructions();
    let manager = search(&isa, vec![]);
    let draws = |candidate: &ISACandidate, mutates: bool| -> Vec<FieldDraws> {
        (0..candidate.valid_field_uses.len())
            .map(|_| FieldDraws { mutates, to_none: false, const_to_var: false })
            .collect()
    };
    let with_mode = |text: &str| {
        let mut candidate = ISACandidate::max_isa(&isa);
        candidate.valid_field_uses.insert(
            "mode".to_owned(),
            FieldUses::Uses { name: "mode".to_owned(), patterns: pattern_set(&[text]), len: 2 },
        );
        candidate
    };
    let fitting = with_mode("0x");
    assert!(manager.are_fields_mutable(&fitting, &draws(&fitting, true)));
    for text in ["0", "111"] {
        let misfit = with_mode(text);
        assert!(!manager.are_fields_mutable(&misfit, &draws(&misfit, true)));
        assert!(manager.are_fields_mutable(&misfit, &draws(&misfit, false)));
    }
    // The search may not restrict the fields of forms that must keep all encodings.
    let mut unrestricted = OrderedMap::new();
    unrestricted.insert("move".to_owned(), OrderedSet::from_vec(vec!["wide".to_owned()]));
    let manager = IsaOptimizationManager::new(
        &isa,
        StdRng::seed_from_u64(7),
        OrderedMap::new(),
        unrestricted,
        vec![],
        9,
        2,
    );
    let misfit = with_mode("0");
    assert!(manager.are_fields_mutable(&misfit, &draws(&misfit, true)));
}

#[test]
fn inputs_are_tested_before_the_search() {
    let isa = two_instructions();
    let program: Vec<DecodedInstruction> =
        points(6).iter().filter_map(|p| decode_bits(&isa, &p.bits)).collect();
    let manager = search(&isa, program.clone());
    let largest = ISACandidate::max_isa(&isa);
    assert!(widths_countable(&isa));
    assert!(manager.is_minimum_defined());
    assert!(manager.is_random_defined());
    assert!(manager.are_encodings_defined(&largest));
    assert!(is_candidate_usable(&isa, &largest));
    assert!(are_conditions_defined(&largest, &program));

    let mut misfit = ISACandidate::max_isa(&isa);
    misfit.valid_field_uses.insert(
        "imm".to_owned(),
        FieldUses::VariableBits {
            name: "imm".to_owned(),
            pattern: Some(BitPattern::parse("x")),
            len: 1,
        },
    );
    assert!(!is_candidate_usable(&isa, &misfit));
    assert!(!manager.are_encodings_defined(&misfit));

    let mut longer = program[0].clone();
    longer.fields[1].value = BitPattern::parse("111");
    let mixed = vec![program[0].clone(), longer.clone()];
    assert!(ISACandidate::try_from_program(&isa, &mixed).is_none());
    assert!(!search(&isa, mixed).is_minimum_defined());

    let past = machine(vec![Instruction::new("short", 2).form(
        InstructionForm::new("base")
            .field(InstructionField::variable("all", 2))
            .when(bit_eq(2, Bit::High)),
    )]);
    assert!(try_decode_bits(&past, &BitPattern::parse("01").bits).is_none());
    assert!(try_decode_bits(&isa, &BitPattern::parse("01").bits).unwrap().is_none());

    let wide = machine(vec![Instruction::new("wide", 31).form(
        InstructionForm::new("base").field(InstructionField::variable("all", 31).merge_mode_uses()),
    )]);
    assert!(!search(&wide, vec![]).is_random_defined());
}
