# tiny_ml_core

A small ML: a lexer, a recursive-descent parser, type inference with
let-polymorphism (algorithm W) and a call-by-value evaluator with checked
64-bit arithmetic, written in Verus and verified against specifications.

## Layout

- `src/lexer.rs`: `lex`, specified over the bytes of the source (`lexes`);
  the law that the tokens tile the input.
- `src/parser.rs`: `parse`, specified by the grammar as spec functions
  (`parse_program`); the law that every phrase spans its tokens.
- `src/unify.rs`: unification over idempotent substitutions; the laws that a
  unifier unifies, is most general, and that the occurs check refuses
  infinite types.
- `src/infer.rs`: `infer`, specified by algorithm W (`infer_spec`), and
  `infer_checked`, which also says when the type variables would not fit in
  `u32`.
- `src/soundness.rs`: the typing rules (Hindley-Milner with let-polymorphism)
  and the laws that inference is sound and complete, in the empty environment
  and in any state it works in, so that the type it gives is the principal
  type (`law_inference_gives_principal_type`).
- `src/eval.rs`: `eval` and `eval_with_depth`, specified by a fuel-bounded
  big-step semantics (`spec_eval`); the law that more depth never changes a
  finished evaluation, and that `let x = v in b` evaluates as `(fun x -> b) v`.
- `src/display.rs`: how types, values and diagnostics are written.
- `src/report.rs`: `analyze_with`, which runs the stages on a source text and
  decides which ones run: each stage is called only on what the stage
  before it gave.
- `app/`: the WebAssembly entry point `analyze`, which serializes the report
  as JSON.
