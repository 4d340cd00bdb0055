//! The surface syntax that the front end reads: the part of a Rust
//! expression, pattern, type and specification signature that it
//! understands, as plain values. Each node keeps what the translation into
//! [`crate::ast`] looks at, and nothing else.

use vstd::prelude::*;

verus! {

/// A literal: a boolean, or any other literal by its debug text.
#[derive(Debug)]
pub enum SynLit {
    Bool(bool),
    Other(String),
}

/// The binary operators of the surface syntax; `Other` stands for the rest.
#[derive(Debug, Clone, Copy, PartialEq, Eq, Structural)]
pub enum SynBinOp {
    Add,
    Sub,
    Mul,
    Lt,
    Le,
    Gt,
    Ge,
    Eq,
    Ne,
    Or,
    And,
    Other,
}

/// The unary operators of the surface syntax; `Other` stands for the rest.
#[derive(Debug, Clone, Copy, PartialEq, Eq, Structural)]
pub enum SynUnOp {
    Deref,
    Not,
    Other,
}

/// A type: a path by its segments, a path whose last segment has type
/// arguments (`Box<T>`), a tuple, or anything else.
#[derive(Debug)]
pub enum SynType {
    Path(Vec<String>),
    Applied { segs: Vec<String>, args: Vec<SynType> },
    Tuple(Vec<SynType>),
    Other,
}

/// The fields of an enum variant.
#[derive(Debug)]
pub enum SynFields {
    Unit,
    Unnamed(Vec<SynType>),
    Named,
}

/// An enum variant: its name and fields.
#[derive(Debug)]
pub struct SynVariant {
    pub name: String,
    pub fields: SynFields,
}

/// A parameter of a Rust function: `pat: ty`, or a `self` receiver.
#[derive(Debug)]
pub enum SynFnArg {
    Typed { pat: SynPat, ty: SynType },
    Receiver,
}

/// The signature of a Rust function: its parameters and its result type
/// (none for `()` by default).
#[derive(Debug)]
pub struct SynFnSig {
    pub inputs: Vec<SynFnArg>,
    pub output: Option<SynType>,
}

/// A pattern.
#[derive(Debug)]
pub enum SynPat {
    Wild,
    Ident(String),
    /// `Path(p, ..)`: the path's segments and the element patterns.
    TupleStruct { path: Vec<String>, elems: Vec<SynPat> },
    Tuple(Vec<SynPat>),
    /// A bare path, by its segments.
    Path(Vec<String>),
    /// `pat: ty`.
    Typed { pat: Box<SynPat>, ty: SynType },
    Other,
}

/// A closure: its parameter patterns and its body.
#[derive(Debug)]
pub struct SynClosure {
    pub inputs: Vec<SynPat>,
    pub body: Box<SynExpr>,
}

/// A statement of a block.
#[derive(Debug)]
pub enum SynStmt {
    /// A `let` statement.
    Local,
    /// An expression, with or without a trailing semicolon.
    Expr { expr: SynExpr, semi: bool },
    /// A macro invocation: its path's segments and its tokens read as an
    /// expression, where they are one.
    Macro { path: Vec<String>, tokens: Option<SynExpr> },
    /// An item or anything else.
    Item,
}

/// An expression.
#[derive(Debug)]
#[allow(inconsistent_fields)]
pub enum SynExpr {
    Lit(SynLit),
    /// A path, by its segments.
    Path(Vec<String>),
    Binary { op: SynBinOp, left: Box<SynExpr>, right: Box<SynExpr> },
    Unary { op: SynUnOp, expr: Box<SynExpr> },
    Call { func: Box<SynExpr>, args: Vec<SynExpr> },
    Closure(SynClosure),
    MethodCall { receiver: Box<SynExpr>, method: String },
    Tuple(Vec<SynExpr>),
    If { cond: Box<SynExpr>, then_branch: Vec<SynStmt>, else_branch: Option<Box<SynExpr>> },
    Let { pat: SynPat, expr: Box<SynExpr> },
    Match { expr: Box<SynExpr>, arms: Vec<(SynPat, SynExpr)> },
    Paren(Box<SynExpr>),
    Block(Vec<SynStmt>),
    /// A macro invocation: its path's segments, and its tokens read as an
    /// expression and as a closure, where they are one.
    Macro { path: Vec<String>, as_expr: Option<Box<SynExpr>>, as_closure: Option<SynClosure> },
    Other,
}

} // verus!
