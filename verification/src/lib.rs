//! A relational-abstraction verifier core: the AST of refinement-typed
//! programs, the pipeline that turns verification conditions into
//! effectively-propositional SMT formulas, and the counterexample renderers.

pub mod anf;
pub mod api;
pub mod ast;
pub mod auto_inst;
pub mod cex;
pub mod compiler;
pub mod epr_check;
pub mod env;
pub mod model;
pub mod nnf;
pub mod parser;
pub mod pipeline;
pub mod relabs;
pub mod resolve;
pub mod skolemize;
pub mod show;
pub mod sigtext;
pub mod source;
pub mod smt;
pub mod syntax;
pub mod text;
pub mod typechecking;
pub mod typing;
