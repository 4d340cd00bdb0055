//! Reading Rust source text with `syn`: a function item, an enum item, a
//! type and an expression are parsed by `syn::parse_str` and their trees
//! turned, node by node, into the library's surface syntax
//! ([`crate::syntax`]). What a text gives is named, not spelled out: it is
//! Rust's grammar as `syn` implements it.

use vstd::prelude::*;
use crate::syntax::{
    SynBinOp, SynClosure, SynExpr, SynFields, SynFnArg, SynFnSig, SynLit, SynPat, SynStmt, SynType, SynUnOp,
    SynVariant,
};

use syn::{BinOp as RustBinOp, Expr as RustExpr, Type as RustType, UnOp as RustUnOp};

verus! {

#[verifier::external_type_specification]
#[verifier::external_body]
pub struct ExSynPath(syn::Path);

#[verifier::external_type_specification]
#[verifier::external_body]
pub struct ExSynType(RustType);

#[verifier::external_type_specification]
#[verifier::external_body]
pub struct ExSynPat(syn::Pat);

#[verifier::external_type_specification]
#[verifier::external_body]
pub struct ExSynBinOp(RustBinOp);

#[verifier::external_type_specification]
#[verifier::external_body]
pub struct ExSynExprClosure(syn::ExprClosure);

#[verifier::external_type_specification]
#[verifier::external_body]
pub struct ExSynBlock(syn::Block);

#[verifier::external_type_specification]
#[verifier::external_body]
pub struct ExSynStmt(syn::Stmt);

#[verifier::external_type_specification]
#[verifier::external_body]
pub struct ExSynExpr(RustExpr);

#[verifier::external_type_specification]
#[verifier::external_body]
pub struct ExSynSignature(syn::Signature);

#[verifier::external_type_specification]
#[verifier::external_body]
pub struct ExSynItemEnum(syn::ItemEnum);

#[verifier::external_type_specification]
#[verifier::external_body]
pub struct ExSynGenericArgument(syn::GenericArgument);

#[verifier::external_type_specification]
#[verifier::external_body]
pub struct ExSynUnOp(RustUnOp);

#[verifier::external_type_specification]
#[verifier::external_body]
pub struct ExTokenStream(proc_macro2::TokenStream);

#[verifier::external_type_specification]
#[verifier::external_body]
pub struct ExSynLit(syn::Lit);

#[verifier::external_type_specification]
#[verifier::external_body]
pub struct ExSynArm(syn::Arm);

#[verifier::external_type_specification]
#[verifier::external_body]
pub struct ExSynElse(syn::token::Else);

#[verifier::external_type_specification]
#[verifier::external_body]
pub struct ExSynMacro(syn::Macro);

#[verifier::external_type_specification]
#[verifier::external_body]
pub struct ExSynFnArg(syn::FnArg);

#[verifier::external_type_specification]
#[verifier::external_body]
pub struct ExSynReturnType(syn::ReturnType);

#[verifier::external_type_specification]
#[verifier::external_body]
pub struct ExSynVariant(syn::Variant);

#[verifier::external_type_specification]
#[verifier::external_body]
pub struct ExSynFields(syn::Fields);

#[verifier::external_type_specification]
#[verifier::external_body]
pub struct ExSynExprIf(syn::ExprIf);

/// The segments of a `syn` path, by their identifiers.
#[verifier::external_body]
fn path_segments(path: &syn::Path) -> Vec<String> {
    path.segments.iter().map(|s| s.ident.to_string()).collect()
}

/// A `syn` type as a surface type: a path, a tuple, or anything else.
#[verifier::external_body]
fn conv_type(ty: &RustType) -> SynType {
    match ty {
        syn::Type::Path(tp) => conv_type_path(&tp.path),
        syn::Type::Tuple(t) => SynType::Tuple(t.elems.iter().map(conv_type).collect()),
        _ => SynType::Other,
    }
}

/// A path type, with the type arguments of its last segment.
#[verifier::external_body]
fn conv_type_path(path: &syn::Path) -> SynType {
    match path.segments.last().map(|s| &s.arguments) {
        Some(syn::PathArguments::AngleBracketed(ab)) => {
            SynType::Applied { segs: path_segments(path), args: ab.args.iter().filter_map(conv_type_arg).collect() }
        },
        _ => SynType::Path(path_segments(path)),
    }
}

/// A generic argument that is a type, as a surface type.
#[verifier::external_body]
fn conv_type_arg(a: &syn::GenericArgument) -> Option<SynType> {
    match a {
        syn::GenericArgument::Type(t) => Some(conv_type(t)),
        _ => None,
    }
}

/// A `syn` pattern as a surface pattern: the simple forms here.
#[verifier::external_body]
fn conv_pat(pat: &syn::Pat) -> SynPat {
    match pat {
        syn::Pat::Wild(_) => SynPat::Wild,
        syn::Pat::Ident(pi) => SynPat::Ident(pi.ident.to_string()),
        syn::Pat::Path(p) => SynPat::Path(path_segments(&p.path)),
        _ => conv_pat_compound(pat),
    }
}

/// [`conv_pat`] on tuple-struct, tuple and typed patterns.
#[verifier::external_body]
fn conv_pat_compound(pat: &syn::Pat) -> SynPat {
    match pat {
        syn::Pat::TupleStruct(p) => SynPat::TupleStruct { path: path_segments(&p.path), elems: p.elems.iter().map(conv_pat).collect() },
        syn::Pat::Tuple(p) => SynPat::Tuple(p.elems.iter().map(conv_pat).collect()),
        syn::Pat::Type(p) => SynPat::Typed { pat: Box::new(conv_pat(&p.pat)), ty: conv_type(&p.ty) },
        _ => SynPat::Other,
    }
}

/// A `syn` binary operator as a surface operator: arithmetic and order.
#[verifier::external_body]
fn conv_bin_op(op: &RustBinOp) -> SynBinOp {
    match op {
        syn::BinOp::Add(_) => SynBinOp::Add,
        syn::BinOp::Sub(_) => SynBinOp::Sub,
        syn::BinOp::Mul(_) => SynBinOp::Mul,
        syn::BinOp::Lt(_) => SynBinOp::Lt,
        syn::BinOp::Le(_) => SynBinOp::Le,
        syn::BinOp::Gt(_) => SynBinOp::Gt,
        syn::BinOp::Ge(_) => SynBinOp::Ge,
        _ => conv_logic_op(op),
    }
}

/// [`conv_bin_op`] on equality and the connectives.
#[verifier::external_body]
fn conv_logic_op(op: &RustBinOp) -> SynBinOp {
    match op {
        syn::BinOp::Eq(_) => SynBinOp::Eq,
        syn::BinOp::Ne(_) => SynBinOp::Ne,
        syn::BinOp::Or(_) => SynBinOp::Or,
        syn::BinOp::And(_) => SynBinOp::And,
        _ => SynBinOp::Other,
    }
}

/// A `syn` unary operator as a surface operator.
#[verifier::external_body]
fn conv_un_op(op: &RustUnOp) -> SynUnOp {
    match op {
        syn::UnOp::Deref(_) => SynUnOp::Deref,
        syn::UnOp::Not(_) => SynUnOp::Not,
        _ => SynUnOp::Other,
    }
}

/// A `syn` closure as a surface closure.
#[verifier::external_body]
fn conv_closure(c: &syn::ExprClosure) -> SynClosure {
    SynClosure { inputs: c.inputs.iter().map(conv_pat).collect(), body: Box::new(conv_expr(&c.body)) }
}

/// The statements of a `syn` block.
#[verifier::external_body]
fn conv_block(block: &syn::Block) -> Vec<SynStmt> {
    block.stmts.iter().map(conv_stmt).collect()
}

/// A `syn` statement as a surface statement.
#[verifier::external_body]
fn conv_stmt(stmt: &syn::Stmt) -> SynStmt {
    match stmt {
        syn::Stmt::Local(_) => SynStmt::Local,
        syn::Stmt::Expr(e, semi) => SynStmt::Expr { expr: conv_expr(e), semi: semi.is_some() },
        syn::Stmt::Macro(m) => SynStmt::Macro { path: path_segments(&m.mac.path), tokens: tokens_expr(&m.mac.tokens) },
        syn::Stmt::Item(_) => SynStmt::Item,
    }
}

/// A macro's tokens read as an expression, where they are one.
#[verifier::external_body]
fn tokens_expr(tokens: &proc_macro2::TokenStream) -> Option<SynExpr> {
    syn::parse2::<RustExpr>(tokens.clone()).ok().map(|e| conv_expr(&e))
}

/// A macro's tokens read as a closure, where they are one.
#[verifier::external_body]
fn tokens_closure(tokens: &proc_macro2::TokenStream) -> Option<SynClosure> {
    syn::parse2::<syn::ExprClosure>(tokens.clone()).ok().map(|c| conv_closure(&c))
}

/// A `syn` expression as a surface expression: literals, paths and binary
/// operations here, the rest in [`conv_compound`].
#[verifier::external_body]
fn conv_expr(expr: &RustExpr) -> SynExpr {
    match expr {
        syn::Expr::Lit(l) => conv_lit(&l.lit),
        syn::Expr::Path(p) => SynExpr::Path(path_segments(&p.path)),
        syn::Expr::Binary(b) => SynExpr::Binary { op: conv_bin_op(&b.op), left: Box::new(conv_expr(&b.left)), right: Box::new(conv_expr(&b.right)) },
        _ => conv_compound(expr),
    }
}

/// A literal: a boolean, or any other by its debug text.
#[verifier::external_body]
fn conv_lit(lit: &syn::Lit) -> SynExpr {
    match lit {
        syn::Lit::Bool(b) => SynExpr::Lit(SynLit::Bool(b.value)),
        other => SynExpr::Lit(SynLit::Other(format!("{:?}", other))),
    }
}

/// [`conv_expr`] on unary operations, parentheses, blocks and calls.
#[verifier::external_body]
fn conv_compound(expr: &RustExpr) -> SynExpr {
    match expr {
        syn::Expr::Unary(u) => SynExpr::Unary { op: conv_un_op(&u.op), expr: Box::new(conv_expr(&u.expr)) },
        syn::Expr::Paren(p) => SynExpr::Paren(Box::new(conv_expr(&p.expr))),
        syn::Expr::Block(b) => SynExpr::Block(conv_block(&b.block)),
        syn::Expr::Call(c) => SynExpr::Call { func: Box::new(conv_expr(&c.func)), args: c.args.iter().map(conv_expr).collect() },
        _ => conv_apply(expr),
    }
}

/// [`conv_expr`] on closures, method calls and tuples.
#[verifier::external_body]
fn conv_apply(expr: &RustExpr) -> SynExpr {
    match expr {
        syn::Expr::Closure(c) => SynExpr::Closure(conv_closure(c)),
        syn::Expr::MethodCall(m) => SynExpr::MethodCall { receiver: Box::new(conv_expr(&m.receiver)), method: m.method.to_string() },
        syn::Expr::Tuple(t) => SynExpr::Tuple(t.elems.iter().map(conv_expr).collect()),
        _ => conv_control(expr),
    }
}

/// [`conv_expr`] on conditionals, `let`, `match` and macros.
#[verifier::external_body]
fn conv_control(expr: &RustExpr) -> SynExpr {
    match expr {
        syn::Expr::If(i) => conv_if(i),
        syn::Expr::Let(l) => SynExpr::Let { pat: conv_pat(&l.pat), expr: Box::new(conv_expr(&l.expr)) },
        syn::Expr::Match(m) => SynExpr::Match { expr: Box::new(conv_expr(&m.expr)), arms: m.arms.iter().map(conv_arm).collect() },
        syn::Expr::Macro(m) => conv_macro(&m.mac),
        _ => SynExpr::Other,
    }
}

/// A conditional: its condition, its branch and its `else` branch.
#[verifier::external_body]
fn conv_if(i: &syn::ExprIf) -> SynExpr {
    SynExpr::If { cond: Box::new(conv_expr(&i.cond)), then_branch: conv_block(&i.then_branch), else_branch: i.else_branch.as_ref().map(conv_else) }
}

/// The `else` branch of a conditional.
#[verifier::external_body]
fn conv_else(branch: &(syn::token::Else, Box<RustExpr>)) -> Box<SynExpr> {
    Box::new(conv_expr(&branch.1))
}

/// An arm of a `match`.
#[verifier::external_body]
fn conv_arm(arm: &syn::Arm) -> (SynPat, SynExpr) {
    (conv_pat(&arm.pat), conv_expr(&arm.body))
}

/// A macro invocation: its path, and its tokens as an expression and as a
/// closure, where they are one.
#[verifier::external_body]
fn conv_macro(mac: &syn::Macro) -> SynExpr {
    SynExpr::Macro {
        path: path_segments(&mac.path),
        as_expr: tokens_expr(&mac.tokens).map(Box::new),
        as_closure: tokens_closure(&mac.tokens),
    }
}

/// A `syn` function signature as a surface signature.
#[verifier::external_body]
fn conv_signature(sig: &syn::Signature) -> SynFnSig {
    SynFnSig { inputs: sig.inputs.iter().map(conv_fn_arg).collect(), output: conv_output(&sig.output) }
}

/// A parameter of a function.
#[verifier::external_body]
fn conv_fn_arg(arg: &syn::FnArg) -> SynFnArg {
    match arg {
        syn::FnArg::Typed(pt) => SynFnArg::Typed { pat: conv_pat(&pt.pat), ty: conv_type(&pt.ty) },
        syn::FnArg::Receiver(_) => SynFnArg::Receiver,
    }
}

/// The result type of a function; none for the default `()`.
#[verifier::external_body]
fn conv_output(output: &syn::ReturnType) -> Option<SynType> {
    match output {
        syn::ReturnType::Default => None,
        syn::ReturnType::Type(_, ty) => Some(conv_type(ty)),
    }
}

/// The variants of a `syn` enum item as surface variants.
#[verifier::external_body]
fn conv_variants(item: &syn::ItemEnum) -> Vec<SynVariant> {
    item.variants.iter().map(conv_variant).collect()
}

/// A variant: its name and fields.
#[verifier::external_body]
fn conv_variant(v: &syn::Variant) -> SynVariant {
    SynVariant { name: v.ident.to_string(), fields: conv_fields(&v.fields) }
}

/// The fields of a variant.
#[verifier::external_body]
fn conv_fields(fields: &syn::Fields) -> SynFields {
    match fields {
        syn::Fields::Unit => SynFields::Unit,
        syn::Fields::Unnamed(f) => SynFields::Unnamed(f.unnamed.iter().map(|field| conv_type(&field.ty)).collect()),
        syn::Fields::Named(_) => SynFields::Named,
    }
}

/// The signature and body a text gives when `syn` reads it as a function
/// item; none when it is not one.
pub uninterp spec fn item_fn_syntax(text: Seq<char>) -> Option<(SynFnSig, SynExpr)>;

/// The variants a text gives when `syn` reads it as an enum item; none
/// when it is not one.
pub uninterp spec fn item_enum_syntax(text: Seq<char>) -> Option<Vec<SynVariant>>;

/// The type a text gives when `syn` reads it as a Rust type.
pub uninterp spec fn type_syntax(text: Seq<char>) -> Option<SynType>;

/// The expression a text gives when `syn` reads it as a Rust expression.
pub uninterp spec fn expr_syntax(text: Seq<char>) -> Option<SynExpr>;

/// `syn::parse_str::<syn::ItemFn>`, its signature and its body (as a block
/// expression) turned into surface syntax. What the text gives is named.
#[verifier::external_body]
pub fn parse_item_fn(text: &str) -> (r: Option<(SynFnSig, SynExpr)>)
    ensures
        r == item_fn_syntax(text@),
{
    syn::parse_str::<syn::ItemFn>(text).ok().map(|f| (conv_signature(&f.sig), SynExpr::Block(conv_block(&f.block))))
}

/// `syn::parse_str::<syn::ItemEnum>`, its variants turned into surface
/// syntax. What the text gives is named.
#[verifier::external_body]
pub fn parse_item_enum(text: &str) -> (r: Option<Vec<SynVariant>>)
    ensures
        r == item_enum_syntax(text@),
{
    syn::parse_str::<syn::ItemEnum>(text).ok().map(|e| conv_variants(&e))
}

/// `syn::parse_str::<syn::Type>`, turned into a surface type. What the text
/// gives is named.
#[verifier::external_body]
pub fn parse_type_text(text: &str) -> (r: Option<SynType>)
    ensures
        r == type_syntax(text@),
{
    syn::parse_str::<syn::Type>(text).ok().map(|t| conv_type(&t))
}

/// `syn::parse_str::<syn::Expr>`, turned into a surface expression. What
/// the text gives is named.
#[verifier::external_body]
pub fn parse_expr_text(text: &str) -> (r: Option<SynExpr>)
    ensures
        r == expr_syntax(text@),
{
    syn::parse_str::<syn::Expr>(text).ok().map(|e| conv_expr(&e))
}

} // verus!
