# nail

The verified core of the Nail language toolchain and its editor, written in
Verus: every function in `src/` carries a contract, and Verus proves each
one except the trusted items listed below.

- `src/parser.rs`, `src/grammar.rs`, `src/ast.rs`, `src/syntax.rs`: the parser
  that turns a token stream into a syntax tree, with its depth limit and the
  rule that an imported file only declares.
- `src/std_lib/`: the parts of Nail's standard library that compute on plain
  values: arrays, bits and binary packing, the base32/58/64 codecs, colours,
  caches, command-line arguments, compression and archive member paths.
- `src/editor.rs`: a tab's lines and cursor, the edits recorded on them, undo
  and redo, selections, brackets, word steps and indentation, pasting, word
  and line deletion, and line edits (comment toggles, dedenting, duplicating,
  deleting, moving, joining and opening lines); with the laws that an undo
  takes an edit back and that undoing every entry restores the file.
- `src/symbols.rs`, `src/spans.rs`, `src/outline.rs`: what the editor reads
  out of a program: declared symbols, the spans a selection grows through,
  and what a single line declares or imports.
- `app/`: the code around the library that reads files, the clock, the
  process's arguments and the sound device, and the functions that compute in
  floating point, call a function handed in by a program, or rest on an
  element type's own `Debug`, `Hash`, `Sum` or `Add` impls.
- `tests/`: tests of the library on concrete values.

`Cargo.toml` names the outside crates the library calls behind trusted items
(base64, dashmap, flate2, zstd, brotli, rayon, rand) and those `app/` uses.

## What is trusted

The calls into outside crates and into the parts of `std` that Verus has no
specification for go through small functions marked
`#[verifier::external_body]`: about twenty-five of them, in
`src/std_lib/{args,array,base64,compress}.rs` and `src/text.rs`, together
with the outside types they declare and the uninterpreted names
(`pub uninterp spec fn`) that stand for what an outside function returns.
Verus believes the contracts of these items without proof; each one's doc
comment says which outside function it calls and what is claimed of it.
Everything built on top of them is proved.
