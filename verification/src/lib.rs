//! Instruction-set minimization: bit patterns, instruction semantics, ISA
//! descriptions and the search for reduced instruction sets.
pub mod bit;
pub mod bit_laws;
pub mod candidate_laws;
pub mod canonical_defined;
pub mod canonical_fixed;
pub mod canonical_form;
pub mod canonical_meaning;
pub mod canonical_resolved;
pub mod canonical_shape;
pub mod canonical_weight;
pub mod canonicalize;
pub mod change_laws;
pub mod collapse;
pub mod collapse_defined;
pub mod collapse_meaning;
pub mod collections;
pub mod concat_laws;
pub mod config;
pub mod const_eval;
pub mod constants;
pub mod crossover;
pub mod cube_laws;
pub mod decode;
pub mod decode_laws;
pub mod drawn_patterns;
pub mod effect_laws;
pub mod encoding_laws;
pub mod encodings;
pub mod evaluation;
pub mod expr_shape;
pub mod expr_weight;
pub mod field_uses;
pub mod flow_laws;
pub mod form_fit;
pub mod form_repair;
pub mod formula_laws;
pub mod gatelist;
pub mod gatelist_laws;
pub mod greenthumb_laws;
pub mod greenthumb_restrictions;
pub mod identity_laws;
pub mod input_checks;
pub mod instruction_semantics;
pub mod isa_candidate;
pub mod isa_optimization;
pub mod isa_specification;
pub mod key_laws;
pub mod literal_laws;
pub mod lookup_table;
pub mod maximum_laws;
pub mod merge_laws;
pub mod minimum_laws;
pub mod mutation;
pub mod need_laws;
pub mod netlist_error_laws;
pub mod netlist_expr_laws;
pub mod netlist_grammar;
pub mod netlist_laws;
pub mod netlist_module_laws;
pub mod netlist_statement_laws;
pub mod netlist_text_laws;
pub mod netlist_tokens;
pub mod number_laws;
pub mod order_laws;
pub mod outcome_laws;
pub mod parser;
pub mod pattern_count;
pub mod pattern_cover;
pub mod pattern_laws;
pub mod product_laws;
pub mod program_analysis;
pub mod program_laws;
pub mod program_rewrite;
pub mod protected_features;
pub mod random_candidates;
pub mod random_draws;
pub mod register_uses;
pub mod repair_laws;
pub mod rewrite_laws;
pub mod search_laws;
pub mod semantic_matching;
pub mod sort_laws;
pub mod substitute;
pub mod substitute_meaning;
pub mod support_laws;
pub mod terms;
pub mod text;
pub mod text_laws;
pub mod text_set;
pub mod tree_laws;
pub mod word_laws;

pub use crate::config::Config;
