//! The SMT back end: relation axioms, sort and identifier rendering, and
//! the signature helpers the encoder and the renderers share.

pub mod axioms;
pub mod axioms_body;
pub mod builder;
pub mod encode;
pub mod query;
pub mod sexp;
pub mod solver;
