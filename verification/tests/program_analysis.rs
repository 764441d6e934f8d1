//! Basic blocks and live registers.
use isa_minimization::collections::OrderedSet;
use isa_minimization::instruction_semantics::{
    add, bool_const, constant, fixed_register, immediate_field, read_fixed_register, Effect,
    Register,
};
use isa_minimization::isa_specification::{
    ArchitecturalRegister, BranchOffset, DecodedInstruction, ISA, Instruction, InstructionField,
    InstructionForm, StackDirection, StackPointer,
};
use isa_minimization::program_analysis::{are_branches_resolved, are_effects_known, ProgramAnalysis};
use isa_minimization::register_uses::{instruction_register_reads, instruction_register_writes};

fn test_register(identifier: u8) -> ArchitecturalRegister {
    ArchitecturalRegister {
        identifier,
        identifier_width: 4,
        width: 32,
    }
}

fn test_isa() -> ISA {
    ISA {
        registers: vec![
            test_register(0),
            test_register(1),
            test_register(2),
            test_register(3),
        ],
        instructions: vec![
            Instruction::new("nop", 3)
                .form(InstructionForm::new("base").fields(vec![InstructionField::constant("000")])),
            Instruction::new("r0_from_r1", 3)
                .effect(Effect::write_register(
                    fixed_register(Register(0), 4),
                    read_fixed_register(Register(1), 4, 32),
                ))
                .form(InstructionForm::new("base").fields(vec![InstructionField::constant("001")])),
            Instruction::new("r1_from_r0", 3)
                .effect(Effect::write_register(
                    fixed_register(Register(1), 4),
                    read_fixed_register(Register(0), 4, 32),
                ))
                .form(InstructionForm::new("base").fields(vec![InstructionField::constant("010")])),
            Instruction::new("r2_from_r1", 3)
                .effect(Effect::write_register(
                    fixed_register(Register(2), 4),
                    read_fixed_register(Register(1), 4, 32),
                ))
                .form(InstructionForm::new("base").fields(vec![InstructionField::constant("011")])),
            Instruction::new("branch_plus_two", 3)
                .branch_instruction(BranchOffset::PCRelative(constant(2, 8)))
                .form(InstructionForm::new("base").fields(vec![InstructionField::constant("100")])),
            Instruction::new("branch_minus_one", 3)
                .branch_instruction(BranchOffset::PCRelative(constant(0xff, 8)))
                .form(InstructionForm::new("base").fields(vec![InstructionField::constant("101")])),
            Instruction::new("r0_from_const", 3)
                .effect(Effect::write_register(
                    fixed_register(Register(0), 4),
                    constant(0, 32),
                ))
                .form(InstructionForm::new("base").fields(vec![InstructionField::constant("110")])),
        ],
        sp: StackPointer {
            register: test_register(0),
            stack_size: 32,
            direction: StackDirection::Downwards,
        },
        pc: test_register(3),
    }
}

fn decode_program(words: &[&str], isa: &ISA) -> Vec<DecodedInstruction> {
    DecodedInstruction::decode_program_str(&words.join("\n"), isa)
        .expect("test program should decode")
}

fn block_starts(analysis: &ProgramAnalysis<'_>) -> Vec<usize> {
    analysis
        .program
        .iter()
        .map(|block| block.start_instruction_idx)
        .collect()
}

fn block_successors(analysis: &ProgramAnalysis<'_>) -> Vec<Vec<usize>> {
    analysis
        .program
        .iter()
        .map(|block| block.next_blocks.clone())
        .collect()
}

fn register_set(registers: &[u8]) -> OrderedSet<ArchitecturalRegister> {
    OrderedSet::from_vec(
        registers.iter().map(|register| test_register(*register)).collect(),
    )
}

fn block_live_ins(analysis: &ProgramAnalysis<'_>) -> Vec<OrderedSet<ArchitecturalRegister>> {
    analysis
        .program
        .iter()
        .map(|block| block.live_in_regs.clone())
        .collect()
}

fn block_live_outs(analysis: &ProgramAnalysis<'_>) -> Vec<OrderedSet<ArchitecturalRegister>> {
    analysis
        .program
        .iter()
        .map(|block| block.live_out_regs.clone())
        .collect()
}

#[test]
fn instruction_register_reads_ignores_false_guarded_effects() {
    let effects = vec![Effect::write_register_if(
        bool_const(false),
        fixed_register(Register(0), 4),
        read_fixed_register(Register(1), 4, 32),
    )];

    assert_eq!(instruction_register_reads(&effects), OrderedSet::new());
}

#[test]
fn instruction_register_writes_only_counts_unconditional_register_writes() {
    let effects = vec![
        Effect::write_register_if(
            bool_const(false),
            fixed_register(Register(0), 4),
            constant(0, 32),
        ),
        Effect::write_register_if(
            read_fixed_register(Register(1), 4, 1),
            fixed_register(Register(2), 4),
            constant(0, 32),
        ),
        Effect::write_register(fixed_register(Register(3), 4), constant(0, 32)),
    ];

    assert_eq!(instruction_register_writes(&effects), register_set(&[3]));
}

#[test]
fn from_program_splits_fallthrough_and_pc_relative_branch_target_blocks() {
    let isa = test_isa();
    let program = decode_program(&["000", "100", "000", "000"], &isa);

    let analysis = ProgramAnalysis::from_program(program, &isa);

    assert_eq!(block_starts(&analysis), vec![0, 2, 3]);
    assert_eq!(
        block_successors(&analysis),
        vec![vec![1, 2], vec![2], vec![]]
    );
}

#[test]
fn branches_must_lead_into_the_program() {
    let isa = test_isa();
    assert!(are_branches_resolved(&decode_program(&["000", "100", "000", "000"], &isa)));
    assert!(!are_branches_resolved(&decode_program(&["000", "100"], &isa)));
    // An offset that names a field which the instruction does not have leads nowhere.
    let mut program = decode_program(&["000", "100", "000", "000"], &isa);
    program[1].branch_instruction = Some(BranchOffset::PCRelative(immediate_field("missing")));
    assert!(!are_branches_resolved(&program));
}

#[test]
fn effects_are_tested_before_the_analysis() {
    let mut isa = test_isa();
    let program = decode_program(&["001", "010", "110"], &isa);
    assert!(are_effects_known(&program, &isa));
    let writes = |value| vec![Effect::write_register(fixed_register(Register(0), 4), value)];
    for value in [
        immediate_field("missing"),
        add(constant(1, 8), constant(1, 16)),
        constant(1, 129),
        read_fixed_register(Register(1), 4, 256),
    ] {
        isa.instructions[1].effects = writes(value);
        assert!(!are_effects_known(&program, &isa));
    }
    isa.instructions[1].effects = writes(add(constant(1, 32), constant(2, 32)));
    assert!(are_effects_known(&program, &isa));
    isa.instructions.remove(1);
    assert!(!are_effects_known(&program, &isa));
}

#[test]
fn from_program_uses_absolute_instruction_index_for_later_branch_targets() {
    let isa = test_isa();
    let program = decode_program(&["100", "000", "000", "100", "000", "000"], &isa);

    let analysis = ProgramAnalysis::from_program(program, &isa);

    assert_eq!(block_starts(&analysis), vec![0, 1, 2, 4, 5]);
    assert_eq!(
        block_successors(&analysis),
        vec![vec![1, 2], vec![2], vec![3, 4], vec![4], vec![]]
    );
}

#[test]
fn compute_liveliness_tracks_straight_line_register_uses() {
    let isa = test_isa();
    let program = decode_program(&["001", "011"], &isa);

    let mut analysis = ProgramAnalysis::from_program(program, &isa);
    analysis.compute_liveliness();

    assert_eq!(block_starts(&analysis), vec![0]);
    assert_eq!(block_live_ins(&analysis), vec![register_set(&[1])]);
    assert_eq!(block_live_outs(&analysis), vec![OrderedSet::new()]);
}

#[test]
fn compute_liveliness_propagates_live_ins_across_branch_successors() {
    let isa = test_isa();
    let program = decode_program(&["001", "100", "010", "011"], &isa);

    let mut analysis = ProgramAnalysis::from_program(program, &isa);
    analysis.compute_liveliness();

    assert_eq!(block_starts(&analysis), vec![0, 2, 3]);
    assert_eq!(
        block_successors(&analysis),
        vec![vec![1, 2], vec![2], vec![]]
    );
    assert_eq!(
        block_live_ins(&analysis),
        vec![register_set(&[1]), register_set(&[0]), register_set(&[1])]
    );
    assert_eq!(
        block_live_outs(&analysis),
        vec![register_set(&[0, 1]), register_set(&[1]), OrderedSet::new()]
    );
}

#[test]
fn compute_liveliness_reaches_fixed_point_for_loop_successors() {
    let isa = test_isa();
    let program = decode_program(&["110", "010", "101", "011"], &isa);

    let mut analysis = ProgramAnalysis::from_program(program, &isa);
    analysis.compute_liveliness();

    assert_eq!(block_starts(&analysis), vec![0, 1, 3]);
    assert_eq!(
        block_successors(&analysis),
        vec![vec![1], vec![2, 1], vec![]]
    );
    assert_eq!(
        block_live_ins(&analysis),
        vec![OrderedSet::new(), register_set(&[0]), register_set(&[1])]
    );
    assert_eq!(
        block_live_outs(&analysis),
        vec![register_set(&[0]), register_set(&[0, 1]), OrderedSet::new()]
    );
}
