# pulsar

The front end and middle end of a compiler from a small array language to
a hardware intermediate representation, written in Verus with its behaviour
stated in contracts and proved: source text is lexed, parsed, type-checked
and turned into IR components, on which optimization passes run; a
backend transform synthesizes an address generator for a component.

- `src/frontend`: tokens, the lexer, the AST, the parser, and Hindley-Milner
  type inference with size constraints on arrays.
- `src/ir`: ports, operations, control trees, cells and memories, timing,
  components, IR generation from the AST, and the passes (well-formedness,
  canonicalization, copy propagation, dead code elimination, control
  collapsing, access rewriting, cell allocation) with the runner that
  schedules them, and a walk over control trees.
- `src/backend`: the address generator: one thread per memory access,
  scheduled so that addresses are ready in time.
- `src/utils`: source locations, diagnostics, scoped environments,
  identifier generation and disjoint sets.
- `app`: what talks to the outside world: reading source files, colored
  diagnostics, the driver, and the backend plumbing with a target that
  writes components as text.
- `tests`: tests that run the compiled library.
