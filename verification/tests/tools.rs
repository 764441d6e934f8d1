//! Netlists, gate lists, lookup tables and what surrounds the superoptimizer.
use isa_minimization::bit::{Bit, LookupTable};
use isa_minimization::collections::{OrderedMap, OrderedSet};
use isa_minimization::config::{ConfigError, PathsFound};
use isa_minimization::gatelist::{bit_to_verilog_const, commented_gatelist, GateOutputAssignment};
use isa_minimization::greenthumb_restrictions::{
    validate_pattern, GreenthumbRestrictionOptions, GreenthumbRestrictionSet,
};
use isa_minimization::isa_optimization::ISACandidate;
use isa_minimization::isa_specification::{
    ArchitecturalRegister, DecodedInstruction, ISA, Instruction, InstructionField, InstructionForm,
    StackDirection, StackPointer,
};
use isa_minimization::lookup_table::prepare_formula;
use isa_minimization::parser::{parse_netlist, NetlistError};
use isa_minimization::program_analysis::ProgramAnalysis;
use isa_minimization::program_rewrite::{
    block_action, block_assembly, blocks_to_rewrite, blocks_to_scratch, greenthumb_arguments,
    greenthumb_outcome, order_replacements, rewrite_metadata_valid, scratch_step,
    scratchable_registers, BlockAction, GreenthumbOutcome, GreenthumbSettings, LabelAllocator,
    Replacement, ScratchStep,
};
use isa_minimization::text_set::TextSet;
use isa_minimization::Config;

fn register(identifier: u8) -> ArchitecturalRegister {
    ArchitecturalRegister {
        identifier,
        identifier_width: 2,
        width: 8,
    }
}

fn machine() -> ISA {
    ISA {
        registers: vec![register(0), register(1), register(2)],
        instructions: vec![
            Instruction::new("nop", 2)
                .form(InstructionForm::new("base").field(InstructionField::constant("00"))),
            Instruction::new("set", 2).form(
                InstructionForm::new("base")
                    .field(InstructionField::constant("1"))
                    .field(InstructionField::variable("value", 1)),
            ),
        ],
        sp: StackPointer {
            register: register(2),
            stack_size: 12,
            direction: StackDirection::Upwards,
        },
        pc: register(1),
    }
}

#[test]
fn netlists_list_nets_once_and_instances_by_name() {
    let netlist = parse_netlist(
        "module top(input a, output y); input a; wire [2:1] w; wire w; tri [1:2] w;
         INV u1 (.A(a), .Y(w[1])); BUF u1 (.A(a), .Y(y)); endmodule",
    )
    .unwrap();
    assert_eq!(netlist.inputs, vec!["a"]);
    assert_eq!(netlist.wires, vec!["w[1]", "w[2]", "w"]);
    assert_eq!(netlist.all_declared_nets(), vec!["a", "y", "w[1]", "w[2]", "w"]);
    assert_eq!(netlist.instances.len(), 1);
    assert_eq!(netlist.instances.get("u1").unwrap().cell_type, "BUF");
    assert_eq!(netlist.instances.get("u1").unwrap().name, "u1");
}

#[test]
fn netlist_errors_say_what_is_wrong() {
    let message = |src: &str| parse_netlist(src).unwrap_err().message();
    assert_eq!(
        message("module top("),
        "parse error: unexpected end at line 1, column 12"
    );
    assert_eq!(
        message("module top(a);\n  INV u1 (.A(a)\n  );\n  wire ; \nendmodule\n"),
        "parse error: unexpected token at line 4, column 8"
    );
    assert_eq!(
        message("module top(a);\n  wire ?\nendmodule"),
        "parse error: unexpected character at line 2, column 8"
    );
    assert_eq!(message(""), "expected exactly one module, found 0");
    assert_eq!(
        message("module a(); endmodule module b(); endmodule"),
        "expected exactly one module, found 2"
    );
    assert_eq!(
        message("module a(); assign y = {b, c}; endmodule"),
        "unsupported concatenation in expression near byte 23"
    );
    assert_eq!(
        message("module a(); assign y = b[3:0]; endmodule"),
        "unsupported slice / part-select in expression near byte 23"
    );
    assert_eq!(
        message("module a(); INV u1 (x, y); endmodule"),
        "positional instance connections are not supported near byte 20"
    );
    assert_eq!(
        NetlistError::Internal("bad range number").message(),
        "internal parser error: bad range number"
    );
}

#[test]
fn gate_lists_comment_unused_gates_and_set_their_outputs() {
    let source = "module top(a, y);\n  INV u1 (\n    .A(a),\n    .Y(n)\n  );\n  BUF u2 (.A(n), .Y(y));\nendmodule\n";
    let unused = OrderedSet::from_vec(vec!["u1".to_owned()]);
    let assignments = vec![GateOutputAssignment {
        wire_name: "n".to_owned(),
        value: Bit::High,
    }];
    let (text, count) = commented_gatelist(source, &unused, &assignments);
    assert_eq!(count, 1);
    let live: Vec<&str> = text
        .lines()
        .filter(|line| !line.trim_start().starts_with("//"))
        .collect();
    assert!(!live.iter().any(|line| line.contains("u1")));
    assert!(live.iter().any(|line| line.contains("BUF u2")));
    assert!(live.iter().any(|line| line.contains("assign n = 1'b1;")));
    assert_eq!(live.last(), Some(&"endmodule"));

    let (same, none) = commented_gatelist(source, &OrderedSet::new(), &vec![]);
    assert_eq!(none, 0);
    assert_eq!(same, source);
    assert_eq!(bit_to_verilog_const(Bit::Low), "1'b0");
}

#[test]
fn lookup_tables_are_made_of_whole_formulas_only() {
    assert_eq!(prepare_formula("!A & (B'|C)").contains('\''), true);
    let table = LookupTable::try_new_from_string("!(A&B)|C", vec!["A", "B", "C"]).unwrap();
    for (operands, wanted) in [
        ([Bit::High, Bit::High, Bit::Low], Bit::Low),
        ([Bit::High, Bit::High, Bit::High], Bit::High),
        ([Bit::Low, Bit::Var, Bit::Low], Bit::High),
        ([Bit::High, Bit::Var, Bit::Low], Bit::Var),
        ([Bit::High, Bit::Test, Bit::Low], Bit::Test),
    ] {
        assert_eq!(table.evaluate(&operands), wanted);
        let mut named = OrderedMap::new();
        named.insert("A".to_owned(), operands[0]);
        named.insert("B".to_owned(), operands[1]);
        named.insert("C".to_owned(), operands[2]);
        assert_eq!(table.evaluate_named(&named), wanted);
    }
    assert_eq!(table.get_index(&[Bit::High, Bit::Low, Bit::Var]), 0b10_00_01);
    assert!(LookupTable::try_new_from_string("A &", vec!["A"]).is_none());
    assert!(LookupTable::try_new_from_string("A & D", vec!["A"]).is_none());
}

#[test]
fn lookup_tables_call_nothing_but_bit_constants() {
    for formula in ["sleep(1)", "sleep (A)", "sleep!(1)", "timestamp()", "eval (A)", "A & exp!\t(B)"] {
        assert!(LookupTable::try_new_from_string(formula, vec!["A", "B"]).is_none());
    }
    let table = LookupTable::try_new_from_string("A & !(B | 0) | Low ()", vec!["A", "B"]).unwrap();
    assert_eq!(table.input_count, 2);
    assert_eq!(table.function, Some(prepare_formula("A & !(B | 0) | Low ()")));
    assert_eq!(table.evaluate(&[Bit::High, Bit::Low]), Bit::High);
    assert_eq!(table.evaluate(&[Bit::High, Bit::High]), Bit::Low);
    let constant = LookupTable::try_new_from_string("High()", vec![]).unwrap();
    assert_eq!(constant.evaluate(&[]), Bit::High);
}

#[test]
fn labels_of_an_allocator_differ() {
    let mut allocator = LabelAllocator::new("tail");
    let labels: Vec<String> = ["loop", "loop", "loop_1", ""]
        .iter()
        .map(|hint| allocator.fresh(hint))
        .collect();
    for (i, label) in labels.iter().enumerate() {
        assert!(labels[i + 1..].iter().all(|other| other != label));
    }
}

#[test]
fn replacements_are_applied_from_the_end() {
    let at = |line: usize| Replacement {
        line,
        rewrite: format!("line {line}"),
    };
    let lines: Vec<usize> = order_replacements(vec![at(3), at(9), at(1), at(9)])
        .iter()
        .map(|replacement| replacement.line)
        .collect();
    assert_eq!(lines, vec![9, 9, 3, 1]);
    assert_eq!(scratch_step(vec![]), ScratchStep::Finished);
    assert_eq!(
        scratch_step(vec![at(2), at(5)]),
        ScratchStep::Apply(vec![at(5), at(2)])
    );
}

#[test]
fn unsupported_blocks_are_found_and_written_out() {
    let isa = machine();
    let program = DecodedInstruction::decode_program_str("00\n10\n11\n00", &isa).unwrap();
    let supported = DecodedInstruction::decode_program_str("00\n10", &isa).unwrap();
    let candidate = ISACandidate::from_program(&isa, &supported);

    let split = ProgramAnalysis::from_program_split_every_instruction(program.clone(), &isa);
    assert_eq!(split.program.len(), 4);
    assert_eq!(blocks_to_scratch(&split.program, &candidate), vec![2]);

    let blocks = ProgramAnalysis::from_program(program, &isa);
    assert_eq!(blocks.program.len(), 1);
    assert_eq!(blocks_to_rewrite(&blocks.program, &candidate), vec![0]);
    assert_eq!(
        block_action(&blocks.program[0], &ISACandidate::max_isa(&isa)),
        BlockAction::Keep
    );
    let lines: Vec<String> = ["nop", "set 0", "set 1", "nop"]
        .iter()
        .map(|line| line.to_string())
        .collect();
    assert_eq!(
        block_assembly(&lines, &blocks.program[0]),
        "nop\nset 0\nset 1\nnop\n"
    );
    let free = scratchable_registers(&isa, &OrderedSet::from_vec(vec![register(1)]));
    assert_eq!(free.to_vec(), vec![register(0), register(2)]);
}

#[test]
fn superoptimizer_arguments_and_metadata() {
    let settings = GreenthumbSettings {
        search_mode_flag: "--stoch".to_owned(),
        rewrite_mode_flag: "-o".to_owned(),
        cores: 4,
        timeout_seconds: 3600,
        candidate_size: 10,
    };
    let arguments = greenthumb_arguments(&machine(), &settings, "in.s", "restrict.rkt", "out");
    assert_eq!(
        arguments.join(" "),
        "greenthumb/arm/optimize.rkt --stoch -o --solver z3 -c 4 -t 3600 -n 10 -d out \
         --restrict restrict.rkt --stack-pointer-reg 2 --stack-scratch-size 12 \
         --stack-direction upwards in.s"
    );
    assert!(rewrite_metadata_valid("12\n+7\nrest"));
    assert!(rewrite_metadata_valid("0\n18446744073709551615"));
    assert!(!rewrite_metadata_valid("0\n18446744073709551616"));
    assert!(!rewrite_metadata_valid("12"));
    assert!(!rewrite_metadata_valid("12\nseven"));
    assert!(!rewrite_metadata_valid("\n1"));
    for (success, exists, metadata, outcome) in [
        (false, true, Some("1\n2"), GreenthumbOutcome::Failed),
        (true, false, Some("1\n2"), GreenthumbOutcome::NoProgram),
        (true, true, None, GreenthumbOutcome::NoRewrite),
        (true, true, Some("1"), GreenthumbOutcome::MalformedMetadata),
        (true, true, Some("1\n2"), GreenthumbOutcome::Rewrite),
    ] {
        assert_eq!(greenthumb_outcome(success, exists, metadata), outcome);
    }
}

#[test]
fn restriction_texts_are_sets_in_order() {
    let isa = machine();
    let set = GreenthumbRestrictionSet::from_candidate(
        &isa,
        &ISACandidate::max_isa(&isa),
        &GreenthumbRestrictionOptions::default(),
    )
    .with_deny_patterns(vec!["X1".repeat(16), "01".repeat(16), "x1".repeat(16)]);
    assert_eq!(
        set.to_racket_default_deny(),
        format!(
            "((default deny)\n (allow \"00\")\n (allow \"1x\")\n (deny \"{}\")\n (deny \"{}\")\n)\n",
            "01".repeat(16),
            "x1".repeat(16)
        )
    );
    assert_eq!(validate_pattern(&"1X0x".repeat(8)), "1x0x".repeat(8));
    let mut texts = TextSet::new();
    texts.insert("b".to_owned());
    texts.insert("a".to_owned());
    texts.insert("b".to_owned());
    assert_eq!(texts.len(), 2);
    assert_eq!(texts.get(0), "a");
    assert!(texts.contains("b") && !texts.contains("c"));
}

#[test]
fn configurations_hold_their_paths() {
    let made = |hdl: bool, program_binary: bool, gate_library: bool| {
        Config::new(
            "core.v".to_owned(),
            "program".to_owned(),
            "cells.lib".to_owned(),
            PathsFound { hdl, program_binary, gate_library },
        )
    };
    let config = made(true, true, true).unwrap();
    assert_eq!(config.hdl_path, "core.v");
    assert_eq!(config.program_binary_path, "program");
    assert_eq!(config.gate_library_path, "cells.lib");
    let missing = |path: &str| Err(ConfigError::Missing(path.to_owned()));
    assert_eq!(made(false, false, true), missing("core.v"));
    assert_eq!(made(true, false, false), missing("program"));
    assert_eq!(made(true, true, false), missing("cells.lib"));
    assert_eq!(
        made(true, true, false).unwrap_err().message(),
        "cells.lib does not exist"
    );
}
