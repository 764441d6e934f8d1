//! Bits, bit patterns and lookup tables.
use isa_minimization::bit::{Bit, BitPattern, LookupTable};
use isa_minimization::collections::OrderedMap;
use std::collections::HashSet;

fn named(bits: Vec<(String, Bit)>) -> OrderedMap<Bit> {
    let mut map = OrderedMap::new();
    for (name, bit) in bits {
        map.insert(name, bit);
    }
    map
}

#[test]
fn bit_pattern_to_int() {
    assert_eq!(BitPattern::parse("1001").to_int(), 9);
    assert_eq!(BitPattern::parse("101000010010001111").to_int(), 165007);
    assert_eq!(
        BitPattern::parse("1000001001011111111110011010110").to_int(),
        1093663958
    );
}

#[test]
fn matches_prefix_accepts_matching_concrete_prefix() {
    let pattern = BitPattern::parse("1010");

    assert!(pattern.matches_prefix(&[Bit::High, Bit::Low]));
    assert!(pattern.matches_prefix(&[Bit::High, Bit::Low, Bit::High, Bit::Low]));
}

#[test]
fn matches_prefix_rejects_mismatched_or_too_long_prefix() {
    let pattern = BitPattern::parse("1010");

    assert!(!pattern.matches_prefix(&[Bit::High, Bit::High]));
    assert!(!pattern.matches_prefix(&[Bit::High, Bit::Low, Bit::High, Bit::Low, Bit::Low,]));
}

#[test]
fn matches_prefix_treats_pattern_var_and_test_bits_as_wildcards() {
    let pattern = BitPattern::new(vec![Bit::High, Bit::Var, Bit::Test, Bit::Low]);

    assert!(pattern.matches_prefix(&[Bit::High, Bit::Low, Bit::High, Bit::Low]));
    assert!(pattern.matches_prefix(&[Bit::High, Bit::High, Bit::Low, Bit::Low]));
    assert!(!pattern.matches_prefix(&[Bit::Low]));
}

#[test]
fn matches_bits_requires_equal_length() {
    let pattern = BitPattern::parse("10xx");

    assert!(pattern.matches_bits(&[Bit::High, Bit::Low, Bit::Low, Bit::High]));
    assert!(!pattern.matches_bits(&[Bit::High, Bit::Low]));
    assert!(!pattern.matches_bits(&[Bit::High, Bit::Low, Bit::Low, Bit::High, Bit::Low,]));
}

#[test]
fn matches_bits_rejects_concrete_mismatches() {
    let pattern = BitPattern::parse("10x1");

    assert!(!pattern.matches_bits(&[Bit::High, Bit::High, Bit::Low, Bit::High]));
    assert!(!pattern.matches_bits(&[Bit::High, Bit::Low, Bit::High, Bit::Low]));
}

fn bit_pattern_string(pattern: &BitPattern) -> String {
    pattern
        .bits
        .iter()
        .map(|bit| match bit {
            Bit::Low => '0',
            Bit::High => '1',
            Bit::Var => 'x',
            Bit::Test => 't',
        })
        .collect()
}

fn cube_subtract_patterns(lhs: &str, rhs: &str) -> HashSet<String> {
    let lhs = BitPattern::parse(lhs);
    let rhs = BitPattern::parse(rhs);

    lhs.cube_subtract(&rhs)
        .to_vec()
        .iter()
        .map(bit_pattern_string)
        .collect()
}

fn pattern_set(patterns: &[&str]) -> HashSet<String> {
    patterns.iter().map(|pattern| pattern.to_string()).collect()
}

#[test]
fn cube_subtract_returns_original_cube_when_disjoint() {
    assert_eq!(cube_subtract_patterns("0x", "1x"), pattern_set(&["0x"]));
}

#[test]
fn cube_subtract_returns_empty_when_cubes_are_identical() {
    assert!(cube_subtract_patterns("10x", "10x").is_empty());
}

#[test]
fn cube_subtract_returns_empty_when_rhs_covers_lhs() {
    assert!(cube_subtract_patterns("100", "1xx").is_empty());
}

#[test]
fn cube_subtract_splits_single_variable_against_concrete_bit() {
    assert_eq!(cube_subtract_patterns("xx", "0x"), pattern_set(&["1x"]));
}

#[test]
fn cube_subtract_splits_on_later_variable_when_prefix_matches() {
    assert_eq!(cube_subtract_patterns("1xx", "10x"), pattern_set(&["11x"]));
}

#[test]
fn cube_subtract_fragments_two_constrained_bits() {
    assert_eq!(
        cube_subtract_patterns("xxx", "010"),
        pattern_set(&["1xx", "00x", "011"])
    );
}

#[test]
fn cube_subtract_handles_rhs_with_variable_suffix() {
    assert_eq!(
        cube_subtract_patterns("xxxx", "10xx"),
        pattern_set(&["0xxx", "11xx"])
    );
}

#[test]
fn cube_subtract_preserves_unrelated_concrete_bits_in_fragments() {
    assert_eq!(
        cube_subtract_patterns("x1x0", "1100"),
        pattern_set(&["01x0", "1110"])
    );
}

#[test]
fn cube_subtract_removes_one_point_from_two_bit_cube() {
    assert_eq!(
        cube_subtract_patterns("xx", "00"),
        pattern_set(&["1x", "01"])
    );
}

// Tests for and function

#[test]
fn and_high_returns_high() {
    assert_eq!(Bit::High & Bit::High, Bit::High);
}

#[test]
fn and_low_returns_low() {
    assert_eq!(Bit::High & Bit::Low, Bit::Low);
    assert_eq!(Bit::Low & Bit::High, Bit::Low);
    assert_eq!(Bit::Low & Bit::Low, Bit::Low);
    assert_eq!(Bit::Low & Bit::Var, Bit::Low);
    assert_eq!(Bit::Test & Bit::Low, Bit::Low);
}

#[test]
fn and_variable_returns_variable() {
    assert_eq!(Bit::High & Bit::Var, Bit::Var);
    assert_eq!(Bit::Var & Bit::Var, Bit::Var);
    assert_eq!(Bit::Var & Bit::High, Bit::Var);
}

#[test]
fn and_test_returns_test() {
    assert_eq!(Bit::High & Bit::Test, Bit::Test);
    assert_eq!(Bit::Test & Bit::High, Bit::Test);
    assert_eq!(Bit::Test & Bit::Var, Bit::Test);
}

#[test]
fn and_is_commutative() {
    let bits = [Bit::Low, Bit::High, Bit::Test, Bit::Var];
    for v1 in bits {
        for v2 in bits {
            assert_eq!(v1 & v2, v2 & v1)
        }
    }
}

// Tests for invert

#[test]
fn not_high_returns_low() {
    assert_eq!(!Bit::High, Bit::Low);
}

#[test]
fn not_low_returns_high() {
    assert_eq!(!Bit::Low, Bit::High);
}

#[test]
fn not_variable_returns_variable() {
    assert_eq!(!Bit::Var, Bit::Var);
}

#[test]
fn not_test_returns_test() {
    assert_eq!(!Bit::Test, Bit::Test);
}

// Or function tests

#[test]
fn or_high_returns_high() {
    assert_eq!(Bit::High | Bit::Low, Bit::High);
    assert_eq!(Bit::High | Bit::Test, Bit::High);
    assert_eq!(Bit::High | Bit::Var, Bit::High);
}

#[test]
fn or_low_returns_low() {
    assert_eq!(Bit::Low | Bit::Low, Bit::Low);
}

#[test]
fn or_variable_returns_variable() {
    assert_eq!(Bit::Var | Bit::Low, Bit::Var);
    assert_eq!(Bit::Var | Bit::Var, Bit::Var);
}

#[test]
fn or_test_returns_test() {
    assert_eq!(Bit::Test | Bit::Low, Bit::Test);
    assert_eq!(Bit::Test | Bit::Var, Bit::Test);
    assert_eq!(Bit::Test | Bit::Test, Bit::Test);
}

#[test]
fn or_is_commutative() {
    let bits = [Bit::Low, Bit::High, Bit::Test, Bit::Var];
    for v1 in bits {
        for v2 in bits {
            assert_eq!(v1 | v2, v2 | v1)
        }
    }
}

// Tests for xor function

#[test]
fn xor_one_high_returns_high() {
    assert_eq!(Bit::High ^ Bit::Low, Bit::High);
}

#[test]
fn xor_match_returns_low() {
    assert_eq!(Bit::High ^ Bit::High, Bit::Low);
    assert_eq!(Bit::Low ^ Bit::Low, Bit::Low);
}

#[test]
fn xor_variable_returns_variable() {
    assert_eq!(Bit::Var ^ Bit::High, Bit::Var);
    assert_eq!(Bit::Var ^ Bit::Low, Bit::Var);
}

#[test]
fn xor_test_returns_test() {
    assert_eq!(Bit::Test ^ Bit::High, Bit::Test);
    assert_eq!(Bit::Test ^ Bit::Low, Bit::Test);
}

#[test]
fn xor_is_commutative() {
    let bits = [Bit::Low, Bit::High, Bit::Test, Bit::Var];
    for v1 in bits {
        for v2 in bits {
            assert_eq!(v1 ^ v2, v2 ^ v1)
        }
    }
}

#[test]
fn bit_pattern_num_high() {
    let bp = BitPattern::parse("1011xxx1000x");
    assert_eq!(bp.num_high(), 4);
}

#[test]
fn bit_pattern_num_variable_counts_only_variable_bits() {
    let bp = BitPattern::new(vec![
        Bit::Var,
        Bit::High,
        Bit::Low,
        Bit::Test,
        Bit::Var,
        Bit::Var,
    ]);

    assert_eq!(bp.num_variable(), 3);
}


#[test]
fn lookup_table_and_function() {
    // Simple test of a truth table for an and function
    let table = vec![
        // b = 0
        Bit::Low,
        Bit::Low,
        Bit::Low,
        Bit::Low,
        // b = 1
        Bit::Low,
        Bit::High,
        Bit::Var,
        Bit::Test,
        // b = variable
        Bit::Low,
        Bit::Var,
        Bit::Var,
        Bit::Test,
        // b = test
        Bit::Low,
        Bit::Test,
        Bit::Test,
        Bit::Test,
    ];
    let lookup_table =
        LookupTable::new(2, table, vec![String::from("A"), String::from("B")], None);

    let bits = [Bit::Low, Bit::High, Bit::Test, Bit::Var];
    for a in bits {
        for b in bits {
            let operands = named(vec![(String::from("A"), a), (String::from("B"), b)]);
            assert_eq!(lookup_table.evaluate_named(&operands), a & b);
        }
    }
}

#[test]
fn lookup_table_noncommutative_function() {
    // Test of a noncommutative function. In this case, the implication function (X = !A | B)
    let table = vec![
        // b = 0
        Bit::High,
        Bit::Low,
        Bit::Var,
        Bit::Test,
        // b = 1
        Bit::High,
        Bit::High,
        Bit::High,
        Bit::High,
        // b = variable
        Bit::High,
        Bit::Var,
        Bit::Var,
        Bit::Test,
        // b = test
        Bit::High,
        Bit::Test,
        Bit::Test,
        Bit::Test,
    ];
    let lookup_table =
        LookupTable::new(2, table, vec![String::from("A"), String::from("B")], None);

    let bits = [Bit::Low, Bit::High, Bit::Test, Bit::Var];
    for a in bits {
        for b in bits {
            let operands = named(vec![(String::from("A"), a), (String::from("B"), b)]);
            assert_eq!(lookup_table.evaluate_named(&operands), !a | b);
        }
    }
}

#[test]
fn lookup_table_three_input_function() {
    // Table for 3 input and
    let table = vec![
        // b = 0, c = 0
        Bit::Low,
        Bit::Low,
        Bit::Low,
        Bit::Low,
        // b = 1, c = 0
        Bit::Low,
        Bit::Low,
        Bit::Low,
        Bit::Low,
        // b = x, c = 0
        Bit::Low,
        Bit::Low,
        Bit::Low,
        Bit::Low,
        // b = t, c = 0
        Bit::Low,
        Bit::Low,
        Bit::Low,
        Bit::Low,
        // b = 0, c = 1
        Bit::Low,
        Bit::Low,
        Bit::Low,
        Bit::Low,
        // b = 1, c = 1
        Bit::Low,
        Bit::High,
        Bit::Var,
        Bit::Test,
        // b = x, c = 1
        Bit::Low,
        Bit::Var,
        Bit::Var,
        Bit::Test,
        // b = t, c = 1
        Bit::Low,
        Bit::Test,
        Bit::Test,
        Bit::Test,
        // b = 0, c = x
        Bit::Low,
        Bit::Low,
        Bit::Low,
        Bit::Low,
        // b = 1, c = x
        Bit::Low,
        Bit::Var,
        Bit::Var,
        Bit::Test,
        // b = x, c = x
        Bit::Low,
        Bit::Var,
        Bit::Var,
        Bit::Test,
        // b = t, c = x
        Bit::Low,
        Bit::Test,
        Bit::Test,
        Bit::Test,
        // b = 0, c = t
        Bit::Low,
        Bit::Low,
        Bit::Low,
        Bit::Low,
        // b = 1, c = t
        Bit::Low,
        Bit::Test,
        Bit::Test,
        Bit::Test,
        // b = x, c = t
        Bit::Low,
        Bit::Test,
        Bit::Test,
        Bit::Test,
        // b = t, c = t
        Bit::Low,
        Bit::Test,
        Bit::Test,
        Bit::Test,
    ];
    let lookup_table = LookupTable::new(
        3,
        table,
        vec![String::from("A"), String::from("B"), String::from("C")],
        None,
    );

    let bits = [Bit::Low, Bit::High, Bit::Test, Bit::Var];
    for a in bits {
        for b in bits {
            for c in bits {
                let operands = named(vec![
                    (String::from("A"), a),
                    (String::from("B"), b),
                    (String::from("C"), c),
                ]);
                assert_eq!(lookup_table.evaluate_named(&operands), a & b & c);
            }
        }
    }
}

#[test]
fn lookup_table_str_and() {
    let input_names = vec!["A", "B"];
    let lookup_table = LookupTable::new_from_string("A & B", input_names);
    let bits = [Bit::Low, Bit::High, Bit::Test, Bit::Var];
    for a in bits {
        for b in bits {
            let operands = vec![a, b];
            assert_eq!(lookup_table.evaluate(&operands), a & b);
        }
    }
}

#[test]
fn lookup_table_str_and3() {
    let input_names = vec!["A", "B", "C"];
    let lookup_table = LookupTable::new_from_string("A & B & C", input_names);
    let bits = [Bit::Low, Bit::High, Bit::Test, Bit::Var];
    for a in bits {
        for b in bits {
            for c in bits {
                let operands = vec![a, b, c];
                assert_eq!(lookup_table.evaluate(&operands), a & b & c);
            }
        }
    }
}

#[test]
fn lookup_table_str_3_inp_noncommutative() {
    let input_names = vec!["A", "B", "C"];
    let lookup_table = LookupTable::new_from_string("!A | (B & C)", input_names);
    let bits = [Bit::Low, Bit::High, Bit::Test, Bit::Var];
    for a in bits {
        for b in bits {
            for c in bits {
                let operands = vec![a, b, c];
                assert_eq!(lookup_table.evaluate(&operands), !a | (b & c));
            }
        }
    }
}

#[test]
fn lookup_table_str_hardcoded_high() {
    let input_names = vec!["A", "B"];
    let lookup_table = LookupTable::new_from_string("!A | (B & 1)", input_names);
    let bits = [Bit::Low, Bit::High, Bit::Test, Bit::Var];
    for a in bits {
        for b in bits {
            let operands = vec![a, b];
            assert_eq!(lookup_table.evaluate(&operands), !a | (b & Bit::High));
        }
    }
}

#[test]
fn lookup_table_str_hardcoded_low() {
    let input_names = vec!["A", "B"];
    let lookup_table = LookupTable::new_from_string("!A | (B & 1) & 0", input_names);
    let bits = [Bit::Low, Bit::High, Bit::Test, Bit::Var];
    for a in bits {
        for b in bits {
            let operands = vec![a, b];
            assert_eq!(
                lookup_table.evaluate(&operands),
                !a | (b & Bit::High) & Bit::Low
            );
        }
    }
}
