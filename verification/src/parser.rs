//! The translation of the surface syntax into the AST: types, patterns,
//! expressions and specification signatures.
//!
//! Arithmetic and comparisons become calls of uninterpreted functions
//! (`add`, `lt`, ..); `==`, `!=`, `||`, `&&` and `implies(p, q)` stay
//! logical; `forall(|x: T| ..)` and `exists(..)`, as calls or as macros,
//! become quantifiers; `Box::new(e)`, `*e`, `e.clone()` and brackets are
//! read as `e`; a name with `::` in it or an upper-case initial is a
//! constructor. What the translation does not support becomes a variable
//! whose name says so.

use vstd::prelude::*;
use crate::ast::{BaseType, BaseTypeV, BinOp, Expr, ExprV, FunType, Ident, Pattern, PatternV, RefinedType, Type, TypeV, UnOp,
    base_views, expr_views, pattern_views, arms_view, binders_view};
use crate::cex::order::texts;
use crate::syntax::{SynBinOp, SynClosure, SynExpr, SynFields, SynFnArg, SynFnSig, SynLit, SynPat, SynStmt, SynType, SynUnOp, SynVariant};
use crate::text::{append_joined, join, sep_at};

verus! {

broadcast use vstd::std_specs::vec::group_vec_axioms, crate::ast::group_ast_views;

/// A parameter of a specification signature: `name: ty` or
/// `name: ty{refinement}`.
#[derive(Debug)]
pub struct RefinedArg {
    pub name: String,
    pub ty: SynType,
    pub refinement: Option<SynExpr>,
}

/// A return of the form `(bind: ty){refinement}`, or a plain type.
#[derive(Debug)]
pub struct SpecReturnType {
    pub bind: Option<String>,
    pub ty: SynType,
    pub refinement: Option<SynExpr>,
}

/// `Lemma(requires, ensures)` or `Lemma(ensures)`.
#[derive(Debug)]
pub struct SpecLemma {
    pub requires: Option<SynExpr>,
    pub ensures: SynExpr,
}

/// What a specification signature returns.
#[derive(Debug)]
pub enum SpecReturn {
    Type(SpecReturnType),
    Lemma(SpecLemma),
}

/// A specification signature `(args) -> ret`.
#[derive(Debug)]
pub struct SpecSignature {
    pub inputs: Vec<RefinedArg>,
    pub ret: SpecReturn,
}

/// Whether a character has the Unicode upper-case property, as
/// `char::is_uppercase` tells.
pub uninterp spec fn upper_case(c: char) -> bool;

/// `char::is_uppercase`. Its result is named, not spelled out beyond
/// ASCII: the property is a Unicode table. Among ASCII characters exactly
/// the letters `A` to `Z` have it.
#[verifier::external_body]
fn is_upper(c: char) -> (r: bool)
    ensures
        r == upper_case(c),
        (c as u32) < 128 ==> (r <==> ('A' <= c && c <= 'Z')),
{
    c.is_uppercase()
}

/// A path's segments joined by `::`.
pub open spec fn path_text(p: Seq<String>) -> Seq<char> {
    join("::"@, texts(p))
}

/// Whether a character is upper case: among ASCII characters the letters
/// `A` to `Z`, beyond ASCII as `char::is_uppercase` tells.
pub open spec fn upper_char(c: char) -> bool {
    if (c as u32) < 128 {
        'A' <= c && c <= 'Z'
    } else {
        upper_case(c)
    }
}

/// A name of a constructor: it holds `::` or starts with an upper-case
/// letter.
pub open spec fn ctor_name(s: Seq<char>) -> bool {
    (exists|i: int| sep_at(s, i)) || (s.len() > 0 && upper_char(s[0]))
}

/// The sort a path names by its last segment: `bool`/`Bool`, `unit`/`Unit`,
/// else a user sort; None for an empty path.
pub open spec fn path_sort(segs: Seq<String>) -> Option<BaseTypeV> {
    if segs.len() == 0 {
        None
    } else {
        let id = segs.last()@;
        if id == "bool"@ || id == "Bool"@ {
            Some(BaseTypeV::Bool)
        } else if id == "unit"@ || id == "Unit"@ {
            Some(BaseTypeV::Unit)
        } else {
            Some(BaseTypeV::Custom(id))
        }
    }
}

/// The sort a type stands for: `bool`/`Bool` and `unit`/`Unit` by the last
/// segment of a path, any other path a user sort, `()` the unit type, a
/// tuple of sorts. None for any other type.
pub open spec fn base_conv(t: SynType) -> Option<BaseTypeV>
    decreases t, 1int,
{
    match t {
        SynType::Path(segs) => path_sort(segs@),
        SynType::Applied { segs, .. } => path_sort(segs@),
        SynType::Tuple(ts) => if ts@.len() == 0 {
            Some(BaseTypeV::Unit)
        } else {
            match base_conv_list(ts@, 0) {
                Some(bs) => Some(BaseTypeV::Tuple(bs)),
                None => None,
            }
        },
        SynType::Other => None,
    }
}

/// The sorts of the types from the `i`-th on.
pub open spec fn base_conv_list(ts: Seq<SynType>, i: int) -> Option<Seq<BaseTypeV>>
    decreases ts, ts.len() - i,
{
    if i < 0 || i >= ts.len() {
        Some(Seq::empty())
    } else {
        match (base_conv(ts[i]), base_conv_list(ts, i + 1)) {
            (Some(b), Some(rest)) => Some(seq![b] + rest),
            _ => None,
        }
    }
}

/// The pattern a surface pattern stands for; None for a typed pattern or
/// any other kind.
pub open spec fn pat_conv(p: SynPat) -> Option<PatternV>
    decreases p, 1int,
{
    match p {
        SynPat::Wild => Some(PatternV::Wildcard),
        SynPat::Ident(n) => Some(PatternV::Ident(n@)),
        SynPat::TupleStruct { path, elems } => match pat_conv_list(elems@, 0) {
            Some(args) => Some(PatternV::Constructor { name: path_text(path@), args, arg_types: None }),
            None => None,
        },
        SynPat::Tuple(ps) => match pat_conv_list(ps@, 0) {
            Some(args) => Some(PatternV::Tuple(args)),
            None => None,
        },
        SynPat::Path(path) => Some(PatternV::Constructor { name: path_text(path@), args: Seq::empty(), arg_types: None }),
        _ => None,
    }
}

/// The patterns from the `i`-th on.
pub open spec fn pat_conv_list(ps: Seq<SynPat>, i: int) -> Option<Seq<PatternV>>
    decreases ps, ps.len() - i,
{
    if i < 0 || i >= ps.len() {
        Some(Seq::empty())
    } else {
        match (pat_conv(ps[i]), pat_conv_list(ps, i + 1)) {
            (Some(p), Some(rest)) => Some(seq![p] + rest),
            _ => None,
        }
    }
}

/// The empty tuple `()`.
pub open spec fn unit_expr() -> ExprV {
    ExprV::Tuple(Seq::empty())
}

/// A variable named by a literal text.
pub open spec fn var_named(s: Seq<char>) -> ExprV {
    ExprV::Var(s)
}

/// `let _ = bound; body`.
pub open spec fn wild_let(bound: ExprV, body: ExprV) -> ExprV {
    ExprV::Let { pat: PatternV::Wildcard, bound_expr: Box::new(bound), body: Box::new(body) }
}

/// Both sides of a logical operator.
pub open spec fn logical(op: BinOp, l: Option<ExprV>, r: Option<ExprV>) -> Option<ExprV> {
    match (l, r) {
        (Some(a), Some(b)) => Some(ExprV::BinOp { op, left: Box::new(a), right: Box::new(b) }),
        _ => None,
    }
}

/// The function an arithmetic or comparison operator is read as.
pub open spec fn op_function(op: SynBinOp) -> Option<Seq<char>> {
    match op {
        SynBinOp::Add => Some("add"@),
        SynBinOp::Sub => Some("sub"@),
        SynBinOp::Mul => Some("mul"@),
        SynBinOp::Lt => Some("lt"@),
        SynBinOp::Le => Some("le"@),
        SynBinOp::Gt => Some("gt"@),
        SynBinOp::Ge => Some("ge"@),
        _ => None,
    }
}

/// The outcome of reading the parameters of a quantifier written as a
/// call: its binders, or the variable that reports an unusable parameter.
pub enum Binders {
    Read(Seq<(Seq<char>, BaseTypeV)>),
    Refused(ExprV),
}

/// The binders of a quantifier call's closure from the `i`-th parameter on:
/// each must be `name: type`; the first that is typed but not a name gives
/// `invalid_quantifier_arg`, the first untyped one `missing_type_annotation`.
/// None where a type has no sort.
pub open spec fn call_binders(ps: Seq<SynPat>, i: int) -> Option<Binders>
    decreases ps.len() - i,
{
    if i < 0 || i >= ps.len() {
        Some(Binders::Read(Seq::empty()))
    } else {
        match ps[i] {
            SynPat::Typed { pat, ty } => match *pat {
                SynPat::Ident(n) => match base_conv(ty) {
                    Some(b) => match call_binders(ps, i + 1) {
                        Some(Binders::Read(rest)) => Some(Binders::Read(seq![(n@, b)] + rest)),
                        other => other,
                    },
                    None => None,
                },
                _ => Some(Binders::Refused(var_named("invalid_quantifier_arg"@))),
            },
            _ => Some(Binders::Refused(var_named("missing_type_annotation"@))),
        }
    }
}

/// The binders of a quantifier macro's closure from the `i`-th parameter
/// on: the parameters `name: type`, the others skipped. None where a type
/// has no sort.
pub open spec fn macro_binders(ps: Seq<SynPat>, i: int) -> Option<Seq<(Seq<char>, BaseTypeV)>>
    decreases ps.len() - i,
{
    if i < 0 || i >= ps.len() {
        Some(Seq::empty())
    } else {
        let this = match ps[i] {
            SynPat::Typed { pat, ty } => match *pat {
                SynPat::Ident(n) => match base_conv(ty) {
                    Some(b) => Some(seq![(n@, b)]),
                    None => None,
                },
                _ => Some(Seq::empty()),
            },
            _ => Some(Seq::empty()),
        };
        match (this, macro_binders(ps, i + 1)) {
            (Some(a), Some(rest)) => Some(a + rest),
            _ => None,
        }
    }
}

/// A quantifier over `binders` of `body`: `forall` or else `exists`.
pub open spec fn quantifier(is_forall: bool, binders: Seq<(Seq<char>, BaseTypeV)>, body: ExprV) -> ExprV {
    if is_forall {
        ExprV::Forall { binders, body: Box::new(body) }
    } else {
        ExprV::Exists { binders, body: Box::new(body) }
    }
}

/// The expression a surface expression stands for (see the module
/// documentation). None where the translation refuses its input: a `let`
/// statement in a block, a type with no sort, an unsupported pattern, a
/// macro with an empty path.
pub open spec fn expr_conv(e: SynExpr) -> Option<ExprV>
    decreases e, 2int,
{
    match e {
        SynExpr::Lit(SynLit::Bool(b)) => Some(ExprV::BoolConst(b)),
        SynExpr::Lit(SynLit::Other(t)) => Some(var_named("unsupported_literal_"@ + t@)),
        SynExpr::Path(p) => {
            let id = path_text(p@);
            if ctor_name(id) {
                Some(ExprV::Constructor { name: id, args: Seq::empty() })
            } else {
                Some(ExprV::Var(id))
            }
        },
        SynExpr::Binary { op, left, right } => match op {
            SynBinOp::Eq => logical(BinOp::Eq, expr_conv(*left), expr_conv(*right)),
            SynBinOp::Ne => logical(BinOp::Neq, expr_conv(*left), expr_conv(*right)),
            SynBinOp::Or => logical(BinOp::Or, expr_conv(*left), expr_conv(*right)),
            SynBinOp::And => logical(BinOp::And, expr_conv(*left), expr_conv(*right)),
            _ => match op_function(op) {
                Some(f) => match (expr_conv(*left), expr_conv(*right)) {
                    (Some(a), Some(b)) => Some(ExprV::Call { func: f, args: seq![a, b] }),
                    _ => None,
                },
                None => Some(var_named("unsupported_binary_op"@)),
            },
        },
        SynExpr::Unary { op, expr } => match op {
            SynUnOp::Deref => expr_conv(*expr),
            SynUnOp::Not => match expr_conv(*expr) {
                Some(x) => Some(ExprV::UnOp { op: UnOp::Not, expr: Box::new(x) }),
                None => None,
            },
            SynUnOp::Other => Some(var_named("unsupported_unary_op"@)),
        },
        SynExpr::Call { func, args } => match *func {
            SynExpr::Path(p) => call_conv(p@, args@),
            _ => Some(var_named("complex_call"@)),
        },
        SynExpr::Closure(c) => expr_conv(*c.body),
        SynExpr::MethodCall { receiver, method } => if method@ == "clone"@ {
            expr_conv(*receiver)
        } else {
            Some(var_named("unsupported_method_"@ + method@))
        },
        SynExpr::Tuple(es) => match expr_conv_list(es@, 0) {
            Some(xs) => Some(ExprV::Tuple(xs)),
            None => None,
        },
        SynExpr::If { cond, then_branch, else_branch } => match (
            expr_conv(*cond),
            block_conv(then_branch@),
            match else_branch {
                Some(x) => expr_conv(*x),
                None => Some(unit_expr()),
            },
        ) {
            (Some(c), Some(t), Some(f)) => Some(ExprV::If { cond: Box::new(c), then_expr: Box::new(t), else_expr: Box::new(f) }),
            _ => None,
        },
        SynExpr::Let { pat, expr } => match (pat_conv(pat), expr_conv(*expr)) {
            (Some(p), Some(x)) => Some(ExprV::Let { pat: p, bound_expr: Box::new(x), body: Box::new(unit_expr()) }),
            _ => None,
        },
        SynExpr::Match { expr, arms } => match (expr_conv(*expr), arms_conv(arms@, 0)) {
            (Some(x), Some(av)) => Some(ExprV::Match { expr: Box::new(x), arms: av }),
            _ => None,
        },
        SynExpr::Paren(x) => expr_conv(*x),
        SynExpr::Block(stmts) => block_conv(stmts@),
        SynExpr::Macro { path, as_expr, as_closure } => if path@.len() == 0 {
            None
        } else {
            let name = path@.last()@;
            if name == "instantiate"@ && as_expr is Some {
                match expr_conv(*as_expr->0) {
                    Some(x) => Some(ExprV::Instantiate(Box::new(x))),
                    None => None,
                }
            } else if (name == "forall"@ || name == "exists"@) && as_closure is Some {
                match (macro_binders(as_closure->0.inputs@, 0), expr_conv(*as_closure->0.body)) {
                    (Some(bs), Some(body)) => Some(quantifier(name == "forall"@, bs, body)),
                    _ => None,
                }
            } else {
                Some(var_named("unsupported_macro_"@ + name))
            }
        },
        SynExpr::Other => Some(var_named("unsupported_expression"@)),
    }
}

/// A call of a path: a quantifier `forall(|..| ..)` / `exists(|..| ..)`,
/// `Box::new(e)` read as `e`, `implies(p, q)`, else a constructor or a
/// function call by the path's name.
pub open spec fn call_conv(segs: Seq<String>, args: Seq<SynExpr>) -> Option<ExprV>
    decreases args, 3int,
{
    let func = path_text(segs);
    if (func == "forall"@ || func == "exists"@) && args.len() == 1 && args[0] is Closure {
        let c = args[0]->Closure_0;
        match call_binders(c.inputs@, 0) {
            Some(Binders::Read(bs)) => match expr_conv(*c.body) {
                Some(body) => Some(quantifier(func == "forall"@, bs, body)),
                None => None,
            },
            Some(Binders::Refused(v)) => Some(v),
            None => None,
        }
    } else if texts(segs) == seq!["Box"@, "new"@] && args.len() == 1 {
        expr_conv(args[0])
    } else if func == "implies"@ && args.len() == 2 {
        logical(BinOp::Implies, expr_conv(args[0]), expr_conv(args[1]))
    } else {
        match expr_conv_list(args, 0) {
            Some(xs) => if ctor_name(func) {
                Some(ExprV::Constructor { name: func, args: xs })
            } else {
                Some(ExprV::Call { func, args: xs })
            },
            None => None,
        }
    }
}

/// The expressions from the `i`-th on.
pub open spec fn expr_conv_list(es: Seq<SynExpr>, i: int) -> Option<Seq<ExprV>>
    decreases es, 1int, es.len() - i,
{
    if i < 0 || i >= es.len() {
        Some(Seq::empty())
    } else {
        match (expr_conv(es[i]), expr_conv_list(es, i + 1)) {
            (Some(x), Some(rest)) => Some(seq![x] + rest),
            _ => None,
        }
    }
}

/// The arms from the `i`-th on.
pub open spec fn arms_conv(arms: Seq<(SynPat, SynExpr)>, i: int) -> Option<Seq<(PatternV, ExprV)>>
    decreases arms, 1int, arms.len() - i,
{
    if i < 0 || i >= arms.len() {
        Some(Seq::empty())
    } else {
        match (pat_conv(arms[i].0), expr_conv(arms[i].1), arms_conv(arms, i + 1)) {
            (Some(p), Some(x), Some(rest)) => Some(seq![(p, x)] + rest),
            _ => None,
        }
    }
}

/// A block: its last statement gives its value, each `instantiate!` before
/// it wraps that value in `let _ = instantiate(..); ..`, the empty block is
/// `()`. None where a statement is a `let`.
pub open spec fn block_conv(stmts: Seq<SynStmt>) -> Option<ExprV>
    decreases stmts, 2int,
{
    if stmts.len() == 0 {
        Some(unit_expr())
    } else {
        wrap_from(stmts, 0)
    }
}

/// The value of the block from the `i`-th statement on.
pub open spec fn wrap_from(stmts: Seq<SynStmt>, i: int) -> Option<ExprV>
    decreases stmts, 1int, stmts.len() - i,
{
    if i < 0 || i >= stmts.len() {
        Some(unit_expr())
    } else if i == stmts.len() - 1 {
        last_stmt(stmts[i])
    } else {
        match (mid_stmt(stmts[i]), wrap_from(stmts, i + 1)) {
            (Some(Some(inst)), Some(rest)) => Some(wild_let(inst, rest)),
            (Some(None), Some(rest)) => Some(rest),
            _ => None,
        }
    }
}

/// What a statement before the last adds: the `instantiate` it holds, if
/// any. None where it is a `let` or fails to translate.
pub open spec fn mid_stmt(s: SynStmt) -> Option<Option<ExprV>>
    decreases s, 0int,
{
    match s {
        SynStmt::Local => None,
        SynStmt::Expr { expr, .. } => match expr_conv(expr) {
            Some(x) => Some(if x is Instantiate { Some(x) } else { None }),
            None => None,
        },
        SynStmt::Macro { path, tokens } => if path@.len() == 0 {
            None
        } else if path@.last()@ == "instantiate"@ && tokens is Some {
            match expr_conv(tokens->0) {
                Some(x) => Some(Some(ExprV::Instantiate(Box::new(x)))),
                None => None,
            }
        } else {
            Some(None)
        },
        SynStmt::Item => Some(None),
    }
}

/// The value the last statement gives: an expression's value, an
/// `instantiate` as `let _ = instantiate(..); ()`, anything else `()`.
/// None where it is a `let` or fails to translate.
pub open spec fn last_stmt(s: SynStmt) -> Option<ExprV>
    decreases s, 0int,
{
    match s {
        SynStmt::Local => None,
        SynStmt::Expr { expr, semi } => match expr_conv(expr) {
            Some(x) => if semi && x is Instantiate {
                Some(wild_let(x, unit_expr()))
            } else {
                Some(x)
            },
            None => None,
        },
        SynStmt::Macro { path, tokens } => if path@.len() == 0 {
            None
        } else if path@.last()@ == "instantiate"@ && tokens is Some {
            match expr_conv(tokens->0) {
                Some(x) => Some(wild_let(ExprV::Instantiate(Box::new(x)), unit_expr())),
                None => None,
            }
        } else {
            Some(unit_expr())
        },
        SynStmt::Item => Some(unit_expr()),
    }
}

/// The view of a translated sort, where there is one.
pub open spec fn opt_base(r: Option<BaseType>) -> Option<BaseTypeV> {
    match r {
        Some(b) => Some(b@),
        None => None,
    }
}

/// The view of a translated pattern, where there is one.
pub open spec fn opt_pattern(r: Option<Pattern>) -> Option<PatternV> {
    match r {
        Some(p) => Some(p@),
        None => None,
    }
}

/// The view of a translated expression, where there is one.
pub open spec fn opt_expr(r: Option<Expr>) -> Option<ExprV> {
    match r {
        Some(e) => Some(e@),
        None => None,
    }
}

/// A path's segments joined by `::`.
fn join_path(segs: &Vec<String>) -> (r: String)
    ensures
        r@ == path_text(segs@),
{
    let ghost ts = texts(segs@);
    let mut out = String::new();
    let mut i: usize = 0;
    proof {
        assert(ts.take(0) =~= Seq::<Seq<char>>::empty());
    }
    while i < segs.len()
        invariant
            0 <= i <= segs@.len(),
            ts == texts(segs@),
            out@ == join("::"@, ts.take(i as int)),
        decreases segs@.len() - i,
    {
        append_joined(&mut out, "::", segs[i].as_str(), i == 0, Ghost(ts.take(i as int)));
        proof {
            assert(ts.take(i as int).push(segs@[i as int]@) =~= ts.take(i + 1));
        }
        i = i + 1;
    }
    proof {
        assert(ts.take(i as int) =~= ts);
    }
    out
}

/// Whether a name is a constructor's (see [`ctor_name`]).
fn is_ctor_name(s: &String) -> (r: bool)
    ensures
        r == ctor_name(s@),
{
    if crate::relabs::has_sep(s.as_str()) {
        return true;
    }
    if s.as_str().unicode_len() == 0 {
        return false;
    }
    is_upper(s.as_str().get_char(0))
}

/// The sort a path names (see [`path_sort`]).
fn sort_of_path(segs: &Vec<String>) -> (r: Option<BaseType>)
    ensures
        opt_base(r) == path_sort(segs@),
{
    if segs.len() == 0 {
        return None;
    }
    let id = &segs[segs.len() - 1];
    proof {
        assert(id@ == segs@.last()@);
    }
    if id.eq(&String::from_str("bool")) || id.eq(&String::from_str("Bool")) {
        Some(BaseType::Bool)
    } else if id.eq(&String::from_str("unit")) || id.eq(&String::from_str("Unit")) {
        Some(BaseType::Unit)
    } else {
        Some(BaseType::Custom(id.clone()))
    }
}

/// The sort a type stands for (see [`base_conv`]).
#[verifier::loop_isolation(false)]
pub fn convert_base_type(ty: &SynType) -> (r: Option<BaseType>)
    ensures
        opt_base(r) == base_conv(*ty),
    decreases ty,
{
    match ty {
        SynType::Path(segs) => sort_of_path(segs),
        SynType::Applied { segs, .. } => sort_of_path(segs),
        SynType::Tuple(ts) => {
            if ts.len() == 0 {
                return Some(BaseType::Unit);
            }
            let mut out: Vec<BaseType> = Vec::new();
            let mut i: usize = 0;
            proof {
                match base_conv_list(ts@, 0) {
                    Some(rest) => {
                        assert(base_views(out@) + rest =~= rest);
                    },
                    None => {},
                }
            }
            while i < ts.len()
                invariant
                    0 <= i <= ts@.len(),
                    base_conv_list(ts@, 0) == crate::cex::defs::prepend(base_views(out@), base_conv_list(ts@, i as int)),
                decreases ts@.len() - i,
            {
                proof {
                    assert(decreases_to!(*ty => (*ty)->Tuple_0));
                    assert(decreases_to!(ts@ => ts@[i as int]));
                }
                match convert_base_type(&ts[i]) {
                    Some(b) => {
                        proof {
                            let before = base_views(out@);
                            match base_conv_list(ts@, i + 1) {
                                Some(rest) => {
                                    assert(before + (seq![b@] + rest) =~= before.push(b@) + rest);
                                },
                                None => {},
                            }
                        }
                        let ghost old_out = out@;
                        out.push(b);
                        proof {
                            assert(base_views(out@) =~= base_views(old_out).push(out@.last()@));
                        }
                    },
                    None => {
                        return None;
                    },
                }
                i = i + 1;
            }
            proof {
                assert(base_views(out@) + Seq::<BaseTypeV>::empty() =~= base_views(out@));
            }
            Some(BaseType::Tuple(out))
        },
        SynType::Other => None,
    }
}

/// The pattern a surface pattern stands for (see [`pat_conv`]).
pub fn convert_pattern(pat: &SynPat) -> (r: Option<Pattern>)
    ensures
        opt_pattern(r) == pat_conv(*pat),
    decreases pat,
{
    match pat {
        SynPat::Wild => Some(Pattern::Wildcard),
        SynPat::Ident(n) => Some(Pattern::Ident(n.clone())),
        SynPat::TupleStruct { path, elems } => {
            let name = join_path(path);
            proof {
                assert(decreases_to!(*pat => (*pat)->elems));
            }
            match convert_pattern_list(elems) {
                Some(args) => Some(Pattern::Constructor { name, args, arg_types: None }),
                None => None,
            }
        },
        SynPat::Tuple(ps) => {
            proof {
                assert(decreases_to!(*pat => (*pat)->Tuple_0));
            }
            match convert_pattern_list(ps) {
                Some(args) => Some(Pattern::Tuple(args)),
                None => None,
            }
        },
        SynPat::Path(path) => {
            let name = join_path(path);
            let args: Vec<Pattern> = Vec::new();
            proof {
                assert(pattern_views(args@) =~= Seq::<PatternV>::empty());
            }
            Some(Pattern::Constructor { name, args, arg_types: None })
        },
        _ => None,
    }
}

/// The patterns of a list (see [`pat_conv_list`]).
fn convert_pattern_list(ps: &Vec<SynPat>) -> (r: Option<Vec<Pattern>>)
    ensures
        pat_conv_list(ps@, 0) == match r {
            Some(v) => Some(pattern_views(v@)),
            None => None,
        },
    decreases ps,
{
    let mut out: Vec<Pattern> = Vec::new();
    let mut i: usize = 0;
    proof {
        match pat_conv_list(ps@, 0) {
            Some(rest) => {
                assert(pattern_views(out@) + rest =~= rest);
            },
            None => {},
        }
    }
    while i < ps.len()
        invariant
            0 <= i <= ps@.len(),
            pat_conv_list(ps@, 0) == crate::cex::defs::prepend(pattern_views(out@), pat_conv_list(ps@, i as int)),
        decreases ps@.len() - i,
    {
        proof {
            assert(decreases_to!(*ps => ps@));
            assert(decreases_to!(ps@ => ps@[i as int]));
        }
        match convert_pattern(&ps[i]) {
            Some(p) => {
                proof {
                    let before = pattern_views(out@);
                    match pat_conv_list(ps@, i + 1) {
                        Some(rest) => {
                            assert(before + (seq![p@] + rest) =~= before.push(p@) + rest);
                        },
                        None => {},
                    }
                }
                let ghost old_out = out@;
                out.push(p);
                proof {
                    assert(pattern_views(out@) =~= pattern_views(old_out).push(out@.last()@));
                }
            },
            None => {
                return None;
            },
        }
        i = i + 1;
    }
    proof {
        assert(pattern_views(out@) + Seq::<PatternV>::empty() =~= pattern_views(out@));
    }
    Some(out)
}

/// `prefix` followed by `rest`.
fn prefixed_name(prefix: &str, rest: &str) -> (r: String)
    ensures
        r@ == prefix@ + rest@,
{
    let mut out = String::from_str(prefix);
    out.append(rest);
    out
}

/// `()`.
fn unit_tuple() -> (r: Expr)
    ensures
        r@ == unit_expr(),
{
    let v: Vec<Expr> = Vec::new();
    proof {
        assert(expr_views(v@) =~= Seq::<ExprV>::empty());
    }
    Expr::Tuple(v)
}

/// `let _ = bound; body`.
fn make_wild_let(bound: Expr, body: Expr) -> (r: Expr)
    ensures
        r@ == wild_let(bound@, body@),
{
    Expr::Let { pat: Pattern::Wildcard, bound_expr: Box::new(bound), body: Box::new(body) }
}

/// Whether a name's last segment is `name`.
fn last_is(path: &Vec<String>, name: &str) -> (r: bool)
    requires
        path@.len() > 0,
    ensures
        r == (path@.last()@ == name@),
{
    path[path.len() - 1].eq(&String::from_str(name))
}

/// The expression a surface expression stands for (see [`expr_conv`]).
#[verifier::rlimit(50)]
pub fn convert_expr(e: &SynExpr) -> (r: Option<Expr>)
    ensures
        opt_expr(r) == expr_conv(*e),
    decreases e, 2int,
{
    match e {
        SynExpr::Lit(SynLit::Bool(b)) => Some(Expr::BoolConst(*b)),
        SynExpr::Lit(SynLit::Other(t)) => Some(Expr::Var(prefixed_name("unsupported_literal_", t.as_str()))),
        SynExpr::Path(p) => {
            let id = join_path(p);
            if is_ctor_name(&id) {
                let args: Vec<Expr> = Vec::new();
                proof {
                    assert(expr_views(args@) =~= Seq::<ExprV>::empty());
                }
                Some(Expr::Constructor { name: id, args })
            } else {
                Some(Expr::Var(id))
            }
        },
        SynExpr::Binary { op, left, right } => {
            let bop = match op {
                SynBinOp::Eq => Some(BinOp::Eq),
                SynBinOp::Ne => Some(BinOp::Neq),
                SynBinOp::Or => Some(BinOp::Or),
                SynBinOp::And => Some(BinOp::And),
                _ => None,
            };
            let fname: Option<&str> = match op {
                SynBinOp::Add => Some("add"),
                SynBinOp::Sub => Some("sub"),
                SynBinOp::Mul => Some("mul"),
                SynBinOp::Lt => Some("lt"),
                SynBinOp::Le => Some("le"),
                SynBinOp::Gt => Some("gt"),
                SynBinOp::Ge => Some("ge"),
                _ => None,
            };
            if bop.is_none() && fname.is_none() {
                return Some(Expr::Var(String::from_str("unsupported_binary_op")));
            }
            let l = match convert_expr(left) {
                Some(x) => x,
                None => {
                    return None;
                },
            };
            let r = match convert_expr(right) {
                Some(x) => x,
                None => {
                    return None;
                },
            };
            match bop {
                Some(o) => Some(Expr::BinOp { op: o, left: Box::new(l), right: Box::new(r) }),
                None => {
                    let f = fname.unwrap();
                    let mut args: Vec<Expr> = Vec::new();
                    let ghost lv = l@;
                    let ghost rv = r@;
                    args.push(l);
                    args.push(r);
                    proof {
                        assert(expr_views(args@) =~= seq![lv, rv]);
                    }
                    Some(Expr::Call { func: String::from_str(f), args })
                },
            }
        },
        SynExpr::Unary { op, expr } => match op {
            SynUnOp::Deref => convert_expr(expr),
            SynUnOp::Not => match convert_expr(expr) {
                Some(x) => Some(Expr::UnOp { op: UnOp::Not, expr: Box::new(x) }),
                None => None,
            },
            SynUnOp::Other => Some(Expr::Var(String::from_str("unsupported_unary_op"))),
        },
        SynExpr::Call { func, args } => match &**func {
            SynExpr::Path(p) => {
                proof {
                    assert(decreases_to!(*e => (*e)->Call_args));
                }
                convert_call(p, args)
            },
            _ => Some(Expr::Var(String::from_str("complex_call"))),
        },
        SynExpr::Closure(c) => {
            proof {
                assert(decreases_to!(*e => (*e)->Closure_0));
                assert(decreases_to!((*e)->Closure_0 => (*e)->Closure_0.body));
            }
            convert_expr(&c.body)
        },
        SynExpr::MethodCall { receiver, method } => {
            if method.eq(&String::from_str("clone")) {
                convert_expr(receiver)
            } else {
                Some(Expr::Var(prefixed_name("unsupported_method_", method.as_str())))
            }
        },
        SynExpr::Tuple(es) => {
            proof {
                assert(decreases_to!(*e => (*e)->Tuple_0));
            }
            match convert_list(es) {
                Some(xs) => Some(Expr::Tuple(xs)),
                None => None,
            }
        },
        SynExpr::If { cond, then_branch, else_branch } => {
            let c = match convert_expr(cond) {
                Some(x) => x,
                None => {
                    return None;
                },
            };
            proof {
                assert(decreases_to!(*e => (*e)->then_branch));
            }
            let t = match convert_block(then_branch) {
                Some(x) => x,
                None => {
                    return None;
                },
            };
            let f = match else_branch {
                Some(x) => {
                    proof {
                        assert(decreases_to!(*e => (*e)->else_branch));
                        assert(decreases_to!((*e)->else_branch => (*e)->else_branch->0));
                    }
                    match convert_expr(x) {
                        Some(y) => y,
                        None => {
                            return None;
                        },
                    }
                },
                None => unit_tuple(),
            };
            Some(Expr::If { cond: Box::new(c), then_expr: Box::new(t), else_expr: Box::new(f) })
        },
        SynExpr::Let { pat, expr } => {
            let p = match convert_pattern(pat) {
                Some(x) => x,
                None => {
                    return None;
                },
            };
            match convert_expr(expr) {
                Some(x) => Some(Expr::Let { pat: p, bound_expr: Box::new(x), body: Box::new(unit_tuple()) }),
                None => None,
            }
        },
        SynExpr::Match { expr, arms } => {
            let x = match convert_expr(expr) {
                Some(y) => y,
                None => {
                    return None;
                },
            };
            proof {
                assert(decreases_to!(*e => (*e)->arms));
            }
            match convert_arms(arms) {
                Some(av) => Some(Expr::Match { expr: Box::new(x), arms: av }),
                None => None,
            }
        },
        SynExpr::Paren(x) => convert_expr(x),
        SynExpr::Block(stmts) => {
            proof {
                assert(decreases_to!(*e => (*e)->Block_0));
            }
            convert_block(stmts)
        },
        SynExpr::Macro { path, as_expr, as_closure } => {
            if path.len() == 0 {
                return None;
            }
            let name = &path[path.len() - 1];
            proof {
                assert(name@ == path@.last()@);
            }
            if name.eq(&String::from_str("instantiate")) && as_expr.is_some() {
                let inner = as_expr.as_ref().unwrap();
                proof {
                    assert(decreases_to!(*e => (*e)->as_expr));
                    assert(decreases_to!((*e)->as_expr => (*e)->as_expr->0));
                }
                return match convert_expr(inner) {
                    Some(x) => Some(Expr::Instantiate(Box::new(x))),
                    None => None,
                };
            }
            let is_forall = name.eq(&String::from_str("forall"));
            let is_exists = name.eq(&String::from_str("exists"));
            if (is_forall || is_exists) && as_closure.is_some() {
                let c = as_closure.as_ref().unwrap();
                let bs = match convert_macro_binders(&c.inputs) {
                    Some(b) => b,
                    None => {
                        return None;
                    },
                };
                proof {
                    assert(decreases_to!(*e => (*e)->as_closure));
                    assert(decreases_to!((*e)->as_closure => (*e)->as_closure->0));
                    assert(decreases_to!((*e)->as_closure->0 => (*e)->as_closure->0.body));
                }
                return match convert_expr(&c.body) {
                    Some(body) => Some(make_quantifier(is_forall, bs, body)),
                    None => None,
                };
            }
            Some(Expr::Var(prefixed_name("unsupported_macro_", name.as_str())))
        },
        SynExpr::Other => Some(Expr::Var(String::from_str("unsupported_expression"))),
    }
}

/// A quantifier over `binders` of `body`: `forall` or else `exists`.
fn make_quantifier(is_forall: bool, binders: Vec<(Ident, BaseType)>, body: Expr) -> (r: Expr)
    ensures
        r@ == quantifier(is_forall, binders_view(binders@), body@),
{
    if is_forall {
        Expr::Forall { binders, body: Box::new(body) }
    } else {
        Expr::Exists { binders, body: Box::new(body) }
    }
}

/// The binders of a quantifier macro's closure (see [`macro_binders`]).
fn convert_macro_binders(ps: &Vec<SynPat>) -> (r: Option<Vec<(Ident, BaseType)>>)
    ensures
        macro_binders(ps@, 0) == match r {
            Some(v) => Some(binders_view(v@)),
            None => None,
        },
{
    let mut out: Vec<(Ident, BaseType)> = Vec::new();
    let mut i: usize = 0;
    proof {
        match macro_binders(ps@, 0) {
            Some(rest) => {
                assert(binders_view(out@) + rest =~= rest);
            },
            None => {},
        }
    }
    while i < ps.len()
        invariant
            0 <= i <= ps@.len(),
            macro_binders(ps@, 0) == crate::cex::defs::prepend(binders_view(out@), macro_binders(ps@, i as int)),
        decreases ps@.len() - i,
    {
        let ghost before = binders_view(out@);
        match &ps[i] {
            SynPat::Typed { pat, ty } => match &**pat {
                SynPat::Ident(n) => match convert_base_type(ty) {
                    Some(b) => {
                        let ghost item = (n@, b@);
                        out.push((n.clone(), b));
                        proof {
                            assert(binders_view(out@) =~= before + seq![item]);
                            match macro_binders(ps@, i + 1) {
                                Some(rest) => {
                                    assert(before + (seq![item] + rest) =~= (before + seq![item]) + rest);
                                },
                                None => {},
                            }
                        }
                    },
                    None => {
                        return None;
                    },
                },
                _ => {
                    proof {
                        match macro_binders(ps@, i + 1) {
                            Some(rest) => {
                                assert(Seq::<(Seq<char>, BaseTypeV)>::empty() + rest =~= rest);
                            },
                            None => {},
                        }
                    }
                },
            },
            _ => {
                proof {
                    match macro_binders(ps@, i + 1) {
                        Some(rest) => {
                            assert(Seq::<(Seq<char>, BaseTypeV)>::empty() + rest =~= rest);
                        },
                        None => {},
                    }
                }
            },
        }
        i = i + 1;
    }
    proof {
        assert(binders_view(out@) + Seq::<(Seq<char>, BaseTypeV)>::empty() =~= binders_view(out@));
    }
    Some(out)
}

/// The outcome of reading a quantifier call's parameters.
enum CallBinders {
    Read(Vec<(Ident, BaseType)>),
    Refused(Expr),
}

/// The view of the outcome of reading a quantifier call's parameters.
spec fn call_binders_view(r: Option<CallBinders>) -> Option<Binders> {
    match r {
        Some(CallBinders::Read(v)) => Some(Binders::Read(binders_view(v@))),
        Some(CallBinders::Refused(e)) => Some(Binders::Refused(e@)),
        None => None,
    }
}

/// Reads a quantifier call's parameters (see [`call_binders`]).
fn convert_call_binders(ps: &Vec<SynPat>) -> (r: Option<CallBinders>)
    ensures
        call_binders_view(r) == call_binders(ps@, 0),
{
    let mut out: Vec<(Ident, BaseType)> = Vec::new();
    let mut i: usize = 0;
    proof {
        assert(binders_view(out@) =~= Seq::<(Seq<char>, BaseTypeV)>::empty());
    }
    while i < ps.len()
        invariant
            0 <= i <= ps@.len(),
            call_binders(ps@, 0) == match call_binders(ps@, i as int) {
                Some(Binders::Read(rest)) => Some(Binders::Read(binders_view(out@) + rest)),
                other => other,
            },
        decreases ps@.len() - i,
    {
        let ghost before = binders_view(out@);
        match &ps[i] {
            SynPat::Typed { pat, ty } => match &**pat {
                SynPat::Ident(n) => match convert_base_type(ty) {
                    Some(b) => {
                        let ghost item = (n@, b@);
                        out.push((n.clone(), b));
                        proof {
                            assert(binders_view(out@) =~= before + seq![item]);
                            match call_binders(ps@, i + 1) {
                                Some(Binders::Read(rest)) => {
                                    assert(before + (seq![item] + rest) =~= (before + seq![item]) + rest);
                                },
                                _ => {},
                            }
                        }
                    },
                    None => {
                        return None;
                    },
                },
                _ => {
                    return Some(CallBinders::Refused(Expr::Var(String::from_str("invalid_quantifier_arg"))));
                },
            },
            _ => {
                return Some(CallBinders::Refused(Expr::Var(String::from_str("missing_type_annotation"))));
            },
        }
        i = i + 1;
    }
    proof {
        assert(binders_view(out@) + Seq::<(Seq<char>, BaseTypeV)>::empty() =~= binders_view(out@));
    }
    Some(CallBinders::Read(out))
}

/// A call of a path (see [`call_conv`]).
#[verifier::rlimit(50)]
fn convert_call(segs: &Vec<String>, args: &Vec<SynExpr>) -> (r: Option<Expr>)
    ensures
        opt_expr(r) == call_conv(segs@, args@),
    decreases args, 3int,
{
    let func = join_path(segs);
    let is_forall = func.eq(&String::from_str("forall"));
    let is_exists = func.eq(&String::from_str("exists"));
    if (is_forall || is_exists) && args.len() == 1 {
        if let SynExpr::Closure(c) = &args[0] {
            proof {
                assert(args@[0] is Closure);
                assert(decreases_to!(*args => args@));
                assert(decreases_to!(args@ => args@[0]));
                assert(decreases_to!(args@[0] => args@[0]->Closure_0));
                assert(decreases_to!(args@[0]->Closure_0 => args@[0]->Closure_0.body));
            }
            return match convert_call_binders(&c.inputs) {
                Some(CallBinders::Read(bs)) => match convert_expr(&c.body) {
                    Some(body) => Some(make_quantifier(is_forall, bs, body)),
                    None => None,
                },
                Some(CallBinders::Refused(v)) => Some(v),
                None => None,
            };
        }
    }
    let is_box_new = segs.len() == 2 && segs[0].eq(&String::from_str("Box")) && segs[1].eq(&String::from_str("new"));
    proof {
        if is_box_new {
            assert(texts(segs@) =~= seq!["Box"@, "new"@]);
        } else if segs@.len() == 2 {
            assert(texts(segs@)[0] == segs@[0]@);
            assert(texts(segs@)[1] == segs@[1]@);
        }
    }
    if is_box_new && args.len() == 1 {
        proof {
            assert(decreases_to!(*args => args@));
            assert(decreases_to!(args@ => args@[0]));
        }
        return convert_expr(&args[0]);
    }
    if func.eq(&String::from_str("implies")) && args.len() == 2 {
        proof {
            assert(decreases_to!(*args => args@));
            assert(decreases_to!(args@ => args@[0]));
            assert(decreases_to!(args@ => args@[1]));
        }
        let a = match convert_expr(&args[0]) {
            Some(x) => x,
            None => {
                return None;
            },
        };
        return match convert_expr(&args[1]) {
            Some(b) => Some(Expr::BinOp { op: BinOp::Implies, left: Box::new(a), right: Box::new(b) }),
            None => None,
        };
    }
    match convert_list(args) {
        Some(xs) => if is_ctor_name(&func) {
            Some(Expr::Constructor { name: func, args: xs })
        } else {
            Some(Expr::Call { func, args: xs })
        },
        None => None,
    }
}

/// The expressions of a list (see [`expr_conv_list`]).
fn convert_list(es: &Vec<SynExpr>) -> (r: Option<Vec<Expr>>)
    ensures
        expr_conv_list(es@, 0) == match r {
            Some(v) => Some(expr_views(v@)),
            None => None,
        },
    decreases es, 1int,
{
    let mut out: Vec<Expr> = Vec::new();
    let mut i: usize = 0;
    proof {
        match expr_conv_list(es@, 0) {
            Some(rest) => {
                assert(expr_views(out@) + rest =~= rest);
            },
            None => {},
        }
    }
    while i < es.len()
        invariant
            0 <= i <= es@.len(),
            expr_conv_list(es@, 0) == crate::cex::defs::prepend(expr_views(out@), expr_conv_list(es@, i as int)),
        decreases es@.len() - i,
    {
        proof {
            assert(decreases_to!(*es => es@));
            assert(decreases_to!(es@ => es@[i as int]));
        }
        match convert_expr(&es[i]) {
            Some(x) => {
                proof {
                    let before = expr_views(out@);
                    match expr_conv_list(es@, i + 1) {
                        Some(rest) => {
                            assert(before + (seq![x@] + rest) =~= before.push(x@) + rest);
                        },
                        None => {},
                    }
                }
                let ghost old_out = out@;
                out.push(x);
                proof {
                    assert(expr_views(out@) =~= expr_views(old_out).push(out@.last()@));
                }
            },
            None => {
                return None;
            },
        }
        i = i + 1;
    }
    proof {
        assert(expr_views(out@) + Seq::<ExprV>::empty() =~= expr_views(out@));
    }
    Some(out)
}

/// The arms of a `match` (see [`arms_conv`]).
fn convert_arms(arms: &Vec<(SynPat, SynExpr)>) -> (r: Option<Vec<(Pattern, Expr)>>)
    ensures
        arms_conv(arms@, 0) == match r {
            Some(v) => Some(arms_view(v@)),
            None => None,
        },
    decreases arms, 1int,
{
    let mut out: Vec<(Pattern, Expr)> = Vec::new();
    let mut i: usize = 0;
    proof {
        match arms_conv(arms@, 0) {
            Some(rest) => {
                assert(arms_view(out@) + rest =~= rest);
            },
            None => {},
        }
    }
    while i < arms.len()
        invariant
            0 <= i <= arms@.len(),
            arms_conv(arms@, 0) == crate::cex::defs::prepend(arms_view(out@), arms_conv(arms@, i as int)),
        decreases arms@.len() - i,
    {
        proof {
            assert(decreases_to!(*arms => arms@));
            assert(decreases_to!(arms@ => arms@[i as int]));
            assert(decreases_to!(arms@[i as int] => arms@[i as int].1));
        }
        let p = match convert_pattern(&arms[i].0) {
            Some(p) => p,
            None => {
                return None;
            },
        };
        match convert_expr(&arms[i].1) {
            Some(x) => {
                proof {
                    let before = arms_view(out@);
                    match arms_conv(arms@, i + 1) {
                        Some(rest) => {
                            assert(before + (seq![(p@, x@)] + rest) =~= before.push((p@, x@)) + rest);
                        },
                        None => {},
                    }
                }
                let ghost old_out = out@;
                out.push((p, x));
                proof {
                    assert(arms_view(out@) =~= arms_view(old_out).push((out@.last().0@, out@.last().1@)));
                }
            },
            None => {
                return None;
            },
        }
        i = i + 1;
    }
    proof {
        assert(arms_view(out@) + Seq::<(PatternV, ExprV)>::empty() =~= arms_view(out@));
    }
    Some(out)
}

/// The value the last statement of a block gives (see [`last_stmt`]).
fn convert_last(s: &SynStmt) -> (r: Option<Expr>)
    ensures
        opt_expr(r) == last_stmt(*s),
    decreases s, 0int,
{
    match s {
        SynStmt::Local => None,
        SynStmt::Expr { expr, semi } => match convert_expr(expr) {
            Some(x) => {
                if *semi && is_instantiate_expr(&x) {
                    Some(make_wild_let(x, unit_tuple()))
                } else {
                    Some(x)
                }
            },
            None => None,
        },
        SynStmt::Macro { path, tokens } => {
            if path.len() == 0 {
                return None;
            }
            if last_is(path, "instantiate") && tokens.is_some() {
                proof {
                    assert(decreases_to!(*s => (*s)->tokens));
                    assert(decreases_to!((*s)->tokens => (*s)->tokens->0));
                }
                match convert_expr(tokens.as_ref().unwrap()) {
                    Some(x) => Some(make_wild_let(Expr::Instantiate(Box::new(x)), unit_tuple())),
                    None => None,
                }
            } else {
                Some(unit_tuple())
            }
        },
        SynStmt::Item => Some(unit_tuple()),
    }
}

/// What a statement before the last adds (see [`mid_stmt`]).
fn convert_mid(s: &SynStmt) -> (r: Option<Option<Expr>>)
    ensures
        mid_stmt(*s) == match r {
            Some(Some(x)) => Some(Some(x@)),
            Some(None) => Some(None),
            None => None,
        },
    decreases s, 0int,
{
    match s {
        SynStmt::Local => None,
        SynStmt::Expr { expr, .. } => match convert_expr(expr) {
            Some(x) => if is_instantiate_expr(&x) {
                Some(Some(x))
            } else {
                Some(None)
            },
            None => None,
        },
        SynStmt::Macro { path, tokens } => {
            if path.len() == 0 {
                return None;
            }
            if last_is(path, "instantiate") && tokens.is_some() {
                proof {
                    assert(decreases_to!(*s => (*s)->tokens));
                    assert(decreases_to!((*s)->tokens => (*s)->tokens->0));
                }
                match convert_expr(tokens.as_ref().unwrap()) {
                    Some(x) => Some(Some(Expr::Instantiate(Box::new(x)))),
                    None => None,
                }
            } else {
                Some(None)
            }
        },
        SynStmt::Item => Some(None),
    }
}

/// Whether an expression is an `instantiate`.
fn is_instantiate_expr(x: &Expr) -> (r: bool)
    ensures
        r == (x@ is Instantiate),
{
    match x {
        Expr::Instantiate(_) => true,
        _ => false,
    }
}

/// A statement that fails makes the whole block fail.
proof fn lemma_wrap_none(stmts: Seq<SynStmt>, i: int)
    requires
        0 <= i < stmts.len(),
        wrap_from(stmts, i) is None,
    ensures
        wrap_from(stmts, 0) is None,
    decreases i,
{
    if i > 0 {
        lemma_wrap_none(stmts, i - 1);
    }
}

/// A block (see [`block_conv`]).
fn convert_block(stmts: &Vec<SynStmt>) -> (r: Option<Expr>)
    ensures
        opt_expr(r) == block_conv(stmts@),
    decreases stmts, 1int,
{
    let n = stmts.len();
    if n == 0 {
        return Some(unit_tuple());
    }
    proof {
        assert(decreases_to!(*stmts => stmts@));
        assert(decreases_to!(stmts@ => stmts@[n - 1]));
    }
    let mut current = match convert_last(&stmts[n - 1]) {
        Some(x) => x,
        None => {
            proof {
                lemma_wrap_none(stmts@, n - 1);
            }
            return None;
        },
    };
    let mut i: usize = n - 1;
    while i > 0
        invariant
            0 <= i < n,
            n == stmts@.len(),
            wrap_from(stmts@, i as int) == Some(current@),
        decreases i,
    {
        i = i - 1;
        proof {
            assert(decreases_to!(*stmts => stmts@));
            assert(decreases_to!(stmts@ => stmts@[i as int]));
        }
        match convert_mid(&stmts[i]) {
            Some(Some(inst)) => {
                current = make_wild_let(inst, current);
            },
            Some(None) => {},
            None => {
                proof {
                    lemma_wrap_none(stmts@, i as int);
                }
                return None;
            },
        }
    }
    Some(current)
}

/// The result type a signature returns, with the precondition of a lemma:
/// a refined or plain type; for a lemma the unit type refined by its
/// `ensures`, named `_ret`. None where a type has no sort, a refined return
/// has no name, or an expression fails to translate.
pub open spec fn ret_conv(r: SpecReturn) -> Option<(TypeV, Option<ExprV>)> {
    match r {
        SpecReturn::Type(ri) => match base_conv(ri.ty) {
            None => None,
            Some(b) => match ri.refinement {
                Some(rf) => match (ri.bind, expr_conv(rf)) {
                    (Some(n), Some(p)) => Some((TypeV::Refined { bound_var: n@, base: b, predicate: p }, None)),
                    _ => None,
                },
                None => Some((TypeV::Base(b), None)),
            },
        },
        SpecReturn::Lemma(li) => {
            let req = match li.requires {
                Some(q) => match expr_conv(q) {
                    Some(x) => Some(Some(x)),
                    None => None,
                },
                None => Some(None),
            };
            match (req, expr_conv(li.ensures)) {
                (Some(q), Some(ens)) => Some((TypeV::Refined { bound_var: "_ret"@, base: BaseTypeV::Unit, predicate: ens }, q)),
                _ => None,
            }
        },
    }
}

/// The type of a parameter, with the precondition `req` of a lemma added
/// to its refinement (as a refinement of its own where it has none).
pub open spec fn param_conv(a: RefinedArg, req: Option<ExprV>) -> Option<TypeV> {
    match base_conv(a.ty) {
        None => None,
        Some(b) => {
            let t = match a.refinement {
                Some(rf) => match expr_conv(rf) {
                    Some(p) => Some(TypeV::Refined { bound_var: a.name@, base: b, predicate: p }),
                    None => None,
                },
                None => Some(TypeV::Base(b)),
            };
            match (t, req) {
                (Some(TypeV::Base(bb)), Some(q)) => Some(TypeV::Refined { bound_var: a.name@, base: bb, predicate: q }),
                (Some(TypeV::Refined { bound_var, base, predicate }), Some(q)) => Some(TypeV::Refined {
                    bound_var,
                    base,
                    predicate: ExprV::BinOp { op: BinOp::And, left: Box::new(predicate), right: Box::new(q) },
                }),
                (t, _) => t,
            }
        },
    }
}

/// The arrows of the parameters from the `i`-th on down to `ret`, the
/// precondition `req` added to the last parameter.
pub open spec fn arrows_conv(inputs: Seq<RefinedArg>, i: int, req: Option<ExprV>, ret: TypeV) -> Option<TypeV>
    decreases inputs.len() - i,
{
    if i < 0 || i >= inputs.len() {
        Some(ret)
    } else {
        match (param_conv(inputs[i], if i == inputs.len() - 1 { req } else { None }), arrows_conv(inputs, i + 1, req, ret)) {
            (Some(p), Some(rest)) => Some(TypeV::Arrow { param_name: inputs[i].name@, param_type: Box::new(p), ret_type: Box::new(rest) }),
            _ => None,
        }
    }
}

/// The type a specification signature stands for: the arrows of its
/// parameters down to its result. None where a part fails, or where a lemma
/// with a precondition has no parameter to carry it.
pub open spec fn sig_conv(spec: SpecSignature) -> Option<TypeV> {
    match ret_conv(spec.ret) {
        None => None,
        Some((ret, req)) => if spec.inputs@.len() == 0 && req is Some {
            None
        } else {
            arrows_conv(spec.inputs@, 0, req, ret)
        },
    }
}

/// A failed parameter makes the whole signature fail.
proof fn lemma_arrows_none(inputs: Seq<RefinedArg>, i: int, req: Option<ExprV>, ret: TypeV)
    requires
        0 <= i <= inputs.len(),
        arrows_conv(inputs, i, req, ret) is None,
    ensures
        arrows_conv(inputs, 0, req, ret) is None,
    decreases i,
{
    if i > 0 {
        lemma_arrows_none(inputs, i - 1, req, ret);
    }
}

/// The view of a translated type, where there is one.
pub open spec fn opt_type(r: Option<Type>) -> Option<TypeV> {
    match r {
        Some(t) => Some(t@),
        None => None,
    }
}

/// The result type of a signature and a lemma's precondition (see
/// [`ret_conv`]).
fn convert_ret(r: &SpecReturn) -> (out: Option<(Type, Option<Expr>)>)
    ensures
        ret_conv(*r) == match out {
            Some((t, q)) => Some((t@, opt_expr(q))),
            None => None,
        },
{
    match r {
        SpecReturn::Type(ri) => {
            let b = match convert_base_type(&ri.ty) {
                Some(b) => b,
                None => {
                    return None;
                },
            };
            match &ri.refinement {
                Some(rf) => {
                    let n = match &ri.bind {
                        Some(n) => n.clone(),
                        None => {
                            return None;
                        },
                    };
                    match convert_expr(rf) {
                        Some(p) => Some((Type::Refined(RefinedType { bound_var: n, base: b, predicate: p }), None)),
                        None => None,
                    }
                },
                None => Some((Type::Base(b), None)),
            }
        },
        SpecReturn::Lemma(li) => {
            let req = match &li.requires {
                Some(q) => match convert_expr(q) {
                    Some(x) => Some(x),
                    None => {
                        return None;
                    },
                },
                None => None,
            };
            match convert_expr(&li.ensures) {
                Some(ens) => {
                    proof {
                        reveal_strlit("_ret");
                    }
                    Some((
                        Type::Refined(RefinedType { bound_var: String::from_str("_ret"), base: BaseType::Unit, predicate: ens }),
                        req,
                    ))
                },
                None => None,
            }
        },
    }
}

/// The type of one parameter (see [`param_conv`]).
fn convert_param(a: &RefinedArg, req: Option<Expr>) -> (r: Option<Type>)
    ensures
        opt_type(r) == param_conv(*a, opt_expr(req)),
{
    let b = match convert_base_type(&a.ty) {
        Some(b) => b,
        None => {
            return None;
        },
    };
    let t = match &a.refinement {
        Some(rf) => match convert_expr(rf) {
            Some(p) => Type::Refined(RefinedType { bound_var: a.name.clone(), base: b, predicate: p }),
            None => {
                return None;
            },
        },
        None => Type::Base(b),
    };
    match req {
        Some(q) => match t {
            Type::Base(bb) => Some(Type::Refined(RefinedType { bound_var: a.name.clone(), base: bb, predicate: q })),
            Type::Refined(rt) => Some(Type::Refined(RefinedType {
                bound_var: rt.bound_var,
                base: rt.base,
                predicate: Expr::BinOp { op: BinOp::And, left: Box::new(rt.predicate), right: Box::new(q) },
            })),
            Type::Arrow(f) => {
                proof {
                    assert(false);
                }
                None
            },
        },
        None => Some(t),
    }
}

/// The type a specification signature stands for (see [`sig_conv`]).
pub fn convert_signature(spec: SpecSignature) -> (r: Option<Type>)
    ensures
        opt_type(r) == sig_conv(spec),
{
    let (ret, req) = match convert_ret(&spec.ret) {
        Some(p) => p,
        None => {
            return None;
        },
    };
    let ghost reqv = opt_expr(req);
    let ghost retv = ret@;
    let n = spec.inputs.len();
    if n == 0 {
        return match req {
            Some(_) => None,
            None => Some(ret),
        };
    }
    let mut current = ret;
    let mut pending = req;
    let mut i: usize = n;
    proof {
        assert(sig_conv(spec) == arrows_conv(spec.inputs@, 0, reqv, retv));
    }
    while i > 0
        invariant
            sig_conv(spec) == arrows_conv(spec.inputs@, 0, reqv, retv),
            0 <= i <= n,
            n == spec.inputs@.len(),
            n > 0,
            arrows_conv(spec.inputs@, i as int, reqv, retv) == Some(current@),
            i == n ==> opt_expr(pending) == reqv,
            i < n ==> pending is None,
        decreases i,
    {
        i = i - 1;
        let arg = &spec.inputs[i];
        let q = pending;
        pending = None;
        proof {
            assert(opt_expr(q) == if i == spec.inputs@.len() - 1 { reqv } else { None });
        }
        let p = match convert_param(arg, q) {
            Some(p) => p,
            None => {
                proof {
                    lemma_arrows_none(spec.inputs@, i as int, reqv, retv);
                }
                return None;
            },
        };
        current = Type::Arrow(FunType { param_name: arg.name.clone(), param_type: Box::new(p), ret_type: Box::new(current) });
    }
    Some(current)
}

/// The sort named by the type of an enum field: `Box<T>` by the last segment
/// of `T`'s path, any other path by its last segment. None for a `Box`
/// whose argument is not a path, and for a type that is not a path.
pub open spec fn field_sort(t: SynType) -> Option<Seq<char>> {
    match t {
        SynType::Path(segs) => if segs@.len() == 0 { None } else { Some(segs@.last()@) },
        SynType::Applied { segs, args } => if segs@.len() == 0 {
            None
        } else if segs@.last()@ == "Box"@ {
            if args@.len() == 0 {
                None
            } else {
                match args@[0] {
                    SynType::Path(inner) => if inner@.len() == 0 { None } else { Some(inner@.last()@) },
                    SynType::Applied { segs: inner, .. } => if inner@.len() == 0 { None } else { Some(inner@.last()@) },
                    _ => None,
                }
            }
        } else {
            Some(segs@.last()@)
        },
        _ => None,
    }
}

/// The argument sorts of the constructors of an enum, each a user sort named
/// as [`field_sort`] reads it; a unit variant has none. None where a variant
/// has named fields or a field has no name.
pub open spec fn enum_conv(vs: Seq<SynVariant>, i: int) -> Option<Seq<(Seq<char>, Seq<BaseTypeV>)>>
    decreases vs.len() - i,
{
    if i < 0 || i >= vs.len() {
        Some(Seq::empty())
    } else {
        let this = match vs[i].fields {
            SynFields::Unit => Some(Seq::empty()),
            SynFields::Unnamed(ts) => fields_conv(ts@, 0),
            SynFields::Named => None,
        };
        match (this, enum_conv(vs, i + 1)) {
            (Some(args), Some(rest)) => Some(seq![(vs[i].name@, args)] + rest),
            _ => None,
        }
    }
}

/// The sorts of the fields from the `i`-th on.
pub open spec fn fields_conv(ts: Seq<SynType>, i: int) -> Option<Seq<BaseTypeV>>
    decreases ts.len() - i,
{
    if i < 0 || i >= ts.len() {
        Some(Seq::empty())
    } else {
        match (field_sort(ts[i]), fields_conv(ts, i + 1)) {
            (Some(n), Some(rest)) => Some(seq![BaseTypeV::Custom(n)] + rest),
            _ => None,
        }
    }
}

/// The last segment of a path.
fn last_segment(segs: &Vec<String>) -> (r: Option<String>)
    ensures
        match r {
            Some(t) => segs@.len() > 0 && t@ == segs@.last()@,
            None => segs@.len() == 0,
        },
{
    if segs.len() == 0 {
        None
    } else {
        Some(segs[segs.len() - 1].clone())
    }
}

/// The sort named by an enum field's type (see [`field_sort`]).
fn convert_field(t: &SynType) -> (r: Option<String>)
    ensures
        field_sort(*t) == match r {
            Some(s) => Some(s@),
            None => None,
        },
{
    match t {
        SynType::Path(segs) => last_segment(segs),
        SynType::Applied { segs, args } => {
            if segs.len() == 0 {
                return None;
            }
            if segs[segs.len() - 1].eq(&String::from_str("Box")) {
                if args.len() == 0 {
                    return None;
                }
                match &args[0] {
                    SynType::Path(inner) => last_segment(inner),
                    SynType::Applied { segs: inner, .. } => last_segment(inner),
                    _ => None,
                }
            } else {
                last_segment(segs)
            }
        },
        _ => None,
    }
}

/// The constructors of an enum (see [`enum_conv`]).
#[verifier::loop_isolation(false)]
pub fn convert_enum(variants: &Vec<SynVariant>) -> (r: Option<Vec<(Ident, Vec<BaseType>)>>)
    ensures
        enum_conv(variants@, 0) == match r {
            Some(v) => Some(crate::api::ctors_view(v@)),
            None => None,
        },
{
    let mut out: Vec<(Ident, Vec<BaseType>)> = Vec::new();
    let mut i: usize = 0;
    proof {
        match enum_conv(variants@, 0) {
            Some(rest) => {
                assert(crate::api::ctors_view(out@) + rest =~= rest);
            },
            None => {},
        }
    }
    while i < variants.len()
        invariant
            0 <= i <= variants@.len(),
            enum_conv(variants@, 0) == crate::cex::defs::prepend(crate::api::ctors_view(out@), enum_conv(variants@, i as int)),
        decreases variants@.len() - i,
    {
        let v = &variants[i];
        let args: Vec<BaseType> = match &v.fields {
            SynFields::Unit => {
                let a: Vec<BaseType> = Vec::new();
                proof {
                    assert(base_views(a@) =~= Seq::<BaseTypeV>::empty());
                }
                a
            },
            SynFields::Unnamed(ts) => {
                let mut a: Vec<BaseType> = Vec::new();
                let mut k: usize = 0;
                proof {
                    match fields_conv(ts@, 0) {
                        Some(rest) => {
                            assert(base_views(a@) + rest =~= rest);
                        },
                        None => {},
                    }
                }
                while k < ts.len()
                    invariant
                        0 <= k <= ts@.len(),
                        fields_conv(ts@, 0) == crate::cex::defs::prepend(base_views(a@), fields_conv(ts@, k as int)),
                    decreases ts@.len() - k,
                {
                    match convert_field(&ts[k]) {
                        Some(n) => {
                            let ghost item = BaseTypeV::Custom(n@);
                            proof {
                                let before = base_views(a@);
                                match fields_conv(ts@, k + 1) {
                                    Some(rest) => {
                                        assert(before + (seq![item] + rest) =~= before.push(item) + rest);
                                    },
                                    None => {},
                                }
                            }
                            let ghost old_a = a@;
                            a.push(BaseType::Custom(n));
                            proof {
                                assert(base_views(a@) =~= base_views(old_a).push(item));
                            }
                        },
                        None => {
                            return None;
                        },
                    }
                    k = k + 1;
                }
                proof {
                    assert(base_views(a@) + Seq::<BaseTypeV>::empty() =~= base_views(a@));
                }
                a
            },
            SynFields::Named => {
                return None;
            },
        };
        proof {
            let before = crate::api::ctors_view(out@);
            let item = (v.name@, base_views(args@));
            match enum_conv(variants@, i + 1) {
                Some(rest) => {
                    assert(before + (seq![item] + rest) =~= before.push(item) + rest);
                },
                None => {},
            }
        }
        let ghost old_out = out@;
        out.push((v.name.clone(), args));
        proof {
            assert(crate::api::ctors_view(out@) =~= crate::api::ctors_view(old_out).push((out@.last().0@, base_views(out@.last().1@))));
        }
        i = i + 1;
    }
    proof {
        assert(crate::api::ctors_view(out@) + Seq::<(Seq<char>, Seq<BaseTypeV>)>::empty() =~= crate::api::ctors_view(out@));
    }
    Some(out)
}

/// The type a Rust function's own signature gives when no specification is
/// written: the arrows of its parameters, each a plain sort, down to its
/// result sort (the unit type when it has none). None where a parameter is
/// `self` or not a name, or a type has no sort.
pub open spec fn fn_sig_conv(inputs: Seq<SynFnArg>, i: int, out: TypeV) -> Option<TypeV>
    decreases inputs.len() - i,
{
    if i < 0 || i >= inputs.len() {
        Some(out)
    } else {
        match inputs[i] {
            SynFnArg::Typed { pat: SynPat::Ident(n), ty } => match (base_conv(ty), fn_sig_conv(inputs, i + 1, out)) {
                (Some(b), Some(rest)) => Some(TypeV::Arrow { param_name: n@, param_type: Box::new(TypeV::Base(b)), ret_type: Box::new(rest) }),
                _ => None,
            },
            _ => None,
        }
    }
}

/// The type a signature without specification gives (see [`fn_sig_conv`]).
pub open spec fn plain_sig_conv(sig: SynFnSig) -> Option<TypeV> {
    let out = match sig.output {
        None => Some(BaseTypeV::Unit),
        Some(t) => base_conv(t),
    };
    match out {
        Some(b) => fn_sig_conv(sig.inputs@, 0, TypeV::Base(b)),
        None => None,
    }
}

/// A failing parameter makes the whole signature fail.
proof fn lemma_fn_sig_none(inputs: Seq<SynFnArg>, i: int, out: TypeV)
    requires
        0 <= i <= inputs.len(),
        fn_sig_conv(inputs, i, out) is None,
    ensures
        fn_sig_conv(inputs, 0, out) is None,
    decreases i,
{
    if i > 0 {
        lemma_fn_sig_none(inputs, i - 1, out);
    }
}

/// The type of a function from its own signature (see [`plain_sig_conv`]).
pub fn signature_of_fn(sig: &SynFnSig) -> (r: Option<Type>)
    ensures
        opt_type(r) == plain_sig_conv(*sig),
{
    let out = match &sig.output {
        None => BaseType::Unit,
        Some(t) => match convert_base_type(t) {
            Some(b) => b,
            None => {
                return None;
            },
        },
    };
    let ghost outv = TypeV::Base(out@);
    let mut current = Type::Base(out);
    let mut i: usize = sig.inputs.len();
    while i > 0
        invariant
            0 <= i <= sig.inputs@.len(),
            plain_sig_conv(*sig) == fn_sig_conv(sig.inputs@, 0, outv),
            fn_sig_conv(sig.inputs@, i as int, outv) == Some(current@),
        decreases i,
    {
        i = i - 1;
        match &sig.inputs[i] {
            SynFnArg::Typed { pat: SynPat::Ident(n), ty } => match convert_base_type(ty) {
                Some(b) => {
                    let ghost prev = current@;
                    let ghost bv = b@;
                    let pt = Type::Base(b);
                    proof {
                        assert(pt@ == TypeV::Base(bv));
                    }
                    let name = n.clone();
                    let f = FunType { param_name: name, param_type: Box::new(pt), ret_type: Box::new(current) };
                    current = Type::Arrow(f);
                    proof {
                        assert(current@ == TypeV::Arrow { param_name: n@, param_type: Box::new(TypeV::Base(bv)), ret_type: Box::new(prev) });
                    }
                },
                None => {
                    proof {
                        lemma_fn_sig_none(sig.inputs@, i as int, outv);
                    }
                    return None;
                },
            },
            _ => {
                proof {
                    lemma_fn_sig_none(sig.inputs@, i as int, outv);
                }
                return None;
            },
        }
    }
    Some(current)
}

/// Which clause of a lemma an expression is: `requires(p)` (1),
/// `ensures(q)` (2), or a bare condition (0), which counts as an `ensures`.
pub open spec fn clause_kind(e: SynExpr) -> int {
    match e {
        SynExpr::Call { func, args } => match *func {
            SynExpr::Path(segs) => if segs@.len() > 0 && args@.len() == 1 {
                if segs@.last()@ == "requires"@ {
                    1
                } else if segs@.last()@ == "ensures"@ {
                    2
                } else {
                    0
                }
            } else {
                0
            },
            _ => 0,
        },
        _ => 0,
    }
}

/// The condition a clause carries: the argument of `requires(..)` or
/// `ensures(..)`, else the expression itself.
pub open spec fn clause_body(e: SynExpr) -> SynExpr {
    if clause_kind(e) != 0 {
        e->Call_args@[0]
    } else {
        e
    }
}

/// The `requires` and `ensures` of a lemma from its comma-separated parts,
/// read in order, a later part of the same kind replacing an earlier one.
pub open spec fn lemma_scan(es: Seq<SynExpr>, req: Option<SynExpr>, ens: Option<SynExpr>) -> (Option<SynExpr>, Option<SynExpr>)
    decreases es.len(),
{
    if es.len() == 0 {
        (req, ens)
    } else if clause_kind(es[0]) == 1 {
        lemma_scan(es.skip(1), Some(clause_body(es[0])), ens)
    } else {
        lemma_scan(es.skip(1), req, Some(clause_body(es[0])))
    }
}

/// The lemma that the parts of `Lemma(..)` make (see [`lemma_scan`]); None
/// where no part is an `ensures`.
pub fn lemma_parts(exprs: Vec<SynExpr>) -> (r: Option<SpecLemma>)
    ensures
        match lemma_scan(exprs@, None, None) {
            (req, Some(ens)) => r matches Some(l) && l.requires == req && l.ensures == ens,
            (_, None) => r is None,
        },
{
    let ghost all = exprs@;
    let mut es = exprs;
    let mut req: Option<SynExpr> = None;
    let mut ens: Option<SynExpr> = None;
    while es.len() > 0
        invariant
            lemma_scan(all, None, None) == lemma_scan(es@, req, ens),
        decreases es@.len(),
    {
        let ghost before = es@;
        let e = es.remove(0);
        proof {
            assert(es@ =~= before.skip(1));
            assert(e == before[0]);
        }
        match e {
            SynExpr::Call { func, mut args } => {
                let kind: u8 = match &*func {
                    SynExpr::Path(segs) => {
                        if segs.len() > 0 && args.len() == 1 {
                            if segs[segs.len() - 1].eq(&String::from_str("requires")) {
                                1
                            } else if segs[segs.len() - 1].eq(&String::from_str("ensures")) {
                                2
                            } else {
                                0
                            }
                        } else {
                            0
                        }
                    },
                    _ => 0,
                };
                proof {
                    assert(kind as int == clause_kind(before[0]));
                }
                if kind == 0 {
                    ens = Some(SynExpr::Call { func, args });
                } else {
                    let ghost a0 = args@[0];
                    let inner = args.remove(0);
                    proof {
                        assert(inner == a0);
                        assert(clause_body(before[0]) == inner);
                    }
                    if kind == 1 {
                        req = Some(inner);
                    } else {
                        ens = Some(inner);
                    }
                }
            },
            other => {
                proof {
                    assert(clause_kind(before[0]) == 0);
                }
                ens = Some(other);
            },
        }
    }
    match ens {
        Some(en) => Some(SpecLemma { requires: req, ensures: en }),
        None => None,
    }
}

} // verus!
