# vsg_rs

The verified core of a VHDL style checker with VSG-compatible rules, and the parts of a VHDL
formatter that stand apart from the syntax tree (the document printer, edits and line
endings, indentation policy, blank-line and alignment settings, comment alignment and re-wrapping,
the layout checks on token positions), written in Verus. Lowering a syntax tree to a document,
and the syntax tree itself, are not here: the lint analyses take a plain tree that the caller
builds.
Every function under `src/` is verified against its contract; the few calls into other crates
(`regex`, `similar`) and into the standard library that Verus has no specification for stand
behind small trusted wrappers whose contracts say what their documentation promises.

## Layout

- `src/doc.rs`: the width-aware document model and its printer, with the laws of the printer
  and of `display_width`.
- `src/text.rs`, `src/bytes.rs`, `src/chars.rs`: edits, line endings, positions, and operations
  on bytes and characters.
- `src/layout.rs`, `src/indent.rs`, `src/blank.rs`, `src/align.rs`, `src/reflow.rs`,
  `src/organize.rs`: formatter rules that work on text, positions and settings rather than on
  the syntax tree, with the two passes that do read the syntax tree: the sorting of context
  clauses (`library` and `use`) and the alignment of trailing comments by region;
  `src/format.rs`: two helpers of the formatter (`fmt: off` regions and joining documents).
- `src/config.rs`, `src/rules.rs`: the layered configuration, what is known of each rule, and the
  alignment, blank-line and spacing settings resolved from the layers and a table of the rules'
  defaults.
- `src/analysis/`: the lint rules. `syntax.rs` is the plain syntax tree they read; each rule
  module states exactly which findings a file gives.
- `src/combinational.rs`: combinational loops, with the depth-first search that finds them.
- `src/lsp.rs`, `src/fuzz.rs`: what the language server and the fuzzing harness compute.
- `app/`: the command line: reading files, parsing with `vhdl_syntax` and converting the tree,
  the `vhdl_lang` front end, configuration files, and output.
- `tests/`: the tests, run against the compiled library.
