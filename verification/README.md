# ISA minimization

A verified library for reducing an instruction set to what a program needs, and the ordinary Rust
around it.

- Bits, patterns and lookup tables: `bit`, `bit_laws`, `lookup_table`, `pattern_cover`,
  `pattern_count`, `field_uses`, `merge_laws`, `cube_laws`.
- Instruction sets, decoding and encodings: `isa_specification`, `decode`, `encodings`,
  `encoding_laws`, `form_fit`.
- Symbolic expressions: `instruction_semantics`, `expr_shape`, `expr_weight`, `const_eval`,
  `canonical_form`, `terms`, `canonicalize`, `collapse`, `substitute`, `semantic_matching`.
  What they mean is `evaluation`; that the passes keep it is proved in `canonical_meaning`,
  `collapse_meaning` and `substitute_meaning`, over `word_laws`, `tree_laws`, `rewrite_laws`,
  `concat_laws` and `product_laws`. The shape, the stability and the weight of canonical forms are
  in `canonical_shape`, `canonical_fixed`, `canonical_weight`, `canonical_resolved` and `sort_laws`,
  and when there is one in `canonical_defined`. That it does not depend on the order of operands is
  in `order_laws`, over `key_laws`, and what it is for literals in `literal_laws`.
- Candidates and their search: `isa_candidate`, `candidate_laws`, `isa_optimization`,
  `protected_features`, `crossover`, `mutation`, `random_draws`, `drawn_patterns`,
  `random_candidates`, `form_repair`, `minimum_laws`, `program_laws`, `repair_laws`, and
  `input_checks`, which tests what the search asks of its inputs.
- Programs: `register_uses`, `program_analysis`, `program_rewrite`, `greenthumb_restrictions`.
- Netlists: `netlist_tokens`, `netlist_grammar`, `parser`, `netlist_laws`, `gatelist`.
- Shared: `collections`, `text`, `text_set`, `config`, `constants`.

`app/` holds what touches files, processes and floating-point numbers: the genetic search with its
rates and fitness, program rewriting with external tools, and reading and writing of files.

## Program input restrictions

Two assumptions are made about programs:

1. No data-processing operation changes the program counter.
2. Every branch destination is the target of an immediate offset branch or stands right behind
   another branch.
