# ravencheck

A checker for properties of Rust functions over algebraic datatypes. A
module's datatypes, functions and lemmas are registered into a program;
function bodies are type-checked against refinement signatures, which
yields verification conditions; each condition is negated and brought into
a decidable fragment (A-normal form, negation normal form, Skolemization,
relational abstraction), checked for sort cycles, and written as an SMT-LIB
query. A solver's `unsat` proves the goal; on `sat` the goal fails, and
the counterexample file is written from the program's own definitions and
declarations. The solver runs as a separate process: no model is read
back in process through the `z3` crate, so the library's model readers
(`model/`) and the counterexample printers take a model as a value but
have no caller in the driver.

## Layout

- `src/`: the library, verified with Verus. Each pass states its result
  over a mathematical model of the syntax trees (`ast.rs`), and the laws
  between passes are proof functions beside them.
  - front end: `syntax.rs`, `parser.rs` (surface syntax to the AST),
    `sigtext.rs` (the grammar of specification signatures, on text),
    `resolve.rs` (patterns against the datatypes), `env.rs`, `typing.rs`,
    `typechecking.rs`, `api.rs` (registration);
  - back end: `anf.rs`, `nnf.rs`, `skolemize.rs`, `relabs.rs`,
    `auto_inst.rs`, `epr_check.rs` (sort cycles, through `petgraph`),
    `compiler.rs`, `pipeline.rs`, `smt/` (queries, verdicts), `model.rs`,
    `cex/` (counterexamples), `show.rs` (debug text of the trees).
- `app/`: what stays outside: the attribute macro, writing files and
  running the solver. Source text is read in the library (`source.rs`,
  through `syn`). The driver loop asks the
  library (`smt::solver::next_step`) what to do after each verdict.
- `tests/`: tests of the library.
