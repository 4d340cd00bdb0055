//! Relational abstraction: after ANF and NNF, every call bound by a `let`
//! becomes a relation over its arguments and its result, quantified by the
//! polarity of its position: `let x = f(a) in B` is `forall x. f_rel(a, x) => B`
//! in positive position and `exists x. f_rel(a, x) && B` in negative position.
//! The formula then stays in the decidable EPR fragment.

use vstd::prelude::*;
use crate::ast::{BaseType, BaseTypeV, BinOp, Expr, ExprV, FunctionDef, Ident, Pattern, PatternV, Type, TypeV, UnOp,
    binders_view, bindings_view, clone_binders, clone_exprs, expr_views};
use crate::text::{before_first_sep, enum_name, sanitized, sanitize_id};
use crate::nnf::{Head, all_assignments, bind, eval, eval_list, lemma_eval_frame, some_assignment, uses_name};

verus! {

broadcast use vstd::std_specs::vec::group_vec_axioms, crate::ast::group_ast_views;

/// The signatures of the program's functions, by name.
pub open spec fn sigs_view(fs: Seq<(Ident, FunctionDef)>) -> Seq<(Seq<char>, TypeV)> {
    Seq::new(fs.len(), |i: int| (fs[i].0@, fs[i].1.signature@))
}

/// The result sort at the end of a chain of arrows.
pub open spec fn final_base(t: TypeV) -> BaseTypeV
    decreases t,
{
    match t {
        TypeV::Arrow { ret_type, .. } => final_base(*ret_type),
        TypeV::Base(b) => b,
        TypeV::Refined { base, .. } => base,
    }
}

/// The index of the first signature named `f`, or the number of signatures.
pub open spec fn sig_index(sigs: Seq<(Seq<char>, TypeV)>, f: Seq<char>) -> int
    decreases sigs.len(),
{
    if sigs.len() == 0 {
        0
    } else if sigs[0].0 == f {
        0
    } else {
        1 + sig_index(sigs.skip(1), f)
    }
}

/// The result sort of `f`: from its signature if it has one, else the enum
/// of a constructor name `Enum::Variant`, else a user sort named `f`.
pub open spec fn return_base(sigs: Seq<(Seq<char>, TypeV)>, f: Seq<char>) -> BaseTypeV {
    let k = sig_index(sigs, f);
    if k < sigs.len() {
        final_base(sigs[k].1)
    } else if exists|i: int| crate::text::sep_at(f, i) {
        BaseTypeV::Custom(before_first_sep(f))
    } else {
        BaseTypeV::Custom(f)
    }
}

/// `f_rel(args.., x)` under its quantifier: `forall x. rel => body` in
/// positive position, `exists x. rel && body` in negative position.
pub open spec fn rel_binding(
    x: Seq<char>,
    f: Seq<char>,
    args: Seq<ExprV>,
    body: ExprV,
    pos: bool,
    sigs: Seq<(Seq<char>, TypeV)>,
) -> ExprV {
    let rel = ExprV::ApplyRel { relation: f + "_rel"@, args: args.push(ExprV::Var(x)) };
    let binders = seq![(x, return_base(sigs, f))];
    if pos {
        ExprV::Forall { binders, body: Box::new(ExprV::BinOp { op: BinOp::Implies, left: Box::new(rel), right: Box::new(body) }) }
    } else {
        ExprV::Exists { binders, body: Box::new(ExprV::BinOp { op: BinOp::And, left: Box::new(rel), right: Box::new(body) }) }
    }
}

/// The abstraction of `let x = bound in ..`, given the abstractions of the
/// bound value and of the body.
pub open spec fn let_rel(
    x: Seq<char>,
    bound: ExprV,
    bound_rel: ExprV,
    body_rel: ExprV,
    pos: bool,
    sigs: Seq<(Seq<char>, TypeV)>,
) -> ExprV {
    match bound {
        ExprV::Call { func, args } => rel_binding(x, func, args, body_rel, pos, sigs),
        ExprV::Constructor { name, args } => if args.len() == 0 {
            ExprV::Let { pat: PatternV::Ident(x), bound_expr: Box::new(ExprV::Var(sanitized(name))), body: Box::new(body_rel) }
        } else {
            rel_binding(x, name, args, body_rel, pos, sigs)
        },
        ExprV::ApplyRel { relation, args } => rel_binding(x, relation, args, body_rel, pos, sigs),
        _ => ExprV::Let { pat: PatternV::Ident(x), bound_expr: Box::new(bound_rel), body: Box::new(body_rel) },
    }
}

/// The relational abstraction of `e` in polarity `pos`.
pub open spec fn relabs_of(e: ExprV, pos: bool, sigs: Seq<(Seq<char>, TypeV)>) -> ExprV
    decreases e,
{
    match e {
        ExprV::Let { pat, bound_expr, body } => let_rel(
            pat->Ident_0,
            *bound_expr,
            relabs_of(*bound_expr, pos, sigs),
            relabs_of(*body, pos, sigs),
            pos,
            sigs,
        ),
        ExprV::UnOp { op, expr } => ExprV::UnOp { op, expr: Box::new(relabs_of(*expr, !pos, sigs)) },
        ExprV::BinOp { op, left, right } => if op == BinOp::Implies {
            ExprV::BinOp { op, left: Box::new(relabs_of(*left, !pos, sigs)), right: Box::new(relabs_of(*right, pos, sigs)) }
        } else {
            ExprV::BinOp { op, left: Box::new(relabs_of(*left, pos, sigs)), right: Box::new(relabs_of(*right, pos, sigs)) }
        },
        ExprV::Forall { binders, body } => ExprV::Forall { binders, body: Box::new(relabs_of(*body, pos, sigs)) },
        ExprV::Exists { binders, body } => ExprV::Exists { binders, body: Box::new(relabs_of(*body, pos, sigs)) },
        ExprV::If { cond, then_expr, else_expr } => ExprV::If {
            cond: Box::new(relabs_of(*cond, pos, sigs)),
            then_expr: Box::new(relabs_of(*then_expr, pos, sigs)),
            else_expr: Box::new(relabs_of(*else_expr, pos, sigs)),
        },
        ExprV::Constructor { name, args } => ExprV::Var(sanitized(name)),
        ExprV::ExistentialBindings(bs) => chain_rel(bs, sigs),
        _ => e,
    }
}

/// The abstraction of flattened hint bindings: each must exist, so each
/// binding is abstracted in negative polarity, around `true`.
pub open spec fn chain_rel(bs: Seq<(Seq<char>, ExprV)>, sigs: Seq<(Seq<char>, TypeV)>) -> ExprV
    decreases bs,
{
    if bs.len() == 0 {
        ExprV::BoolConst(true)
    } else {
        let_rel(bs[0].0, bs[0].1, relabs_of(bs[0].1, false, sigs), chain_rel(bs.skip(1), sigs), false, sigs)
    }
}

/// Whether a bound value is a call-like application.
pub open spec fn is_application(e: ExprV) -> bool {
    e is Call || e is Constructor || e is ApplyRel
}

/// Whether the abstraction is defined on `e`: calls and constructor
/// applications with arguments only as the bound values of simple `let`s
/// (or of flattened hints), and no `match` or unexpanded hint.
pub open spec fn relabs_defined(e: ExprV) -> bool
    decreases e,
{
    match e {
        ExprV::Let { pat, bound_expr, body } => (pat is Ident) && (is_application(*bound_expr) || relabs_defined(*bound_expr))
            && relabs_defined(*body),
        ExprV::UnOp { expr, .. } => relabs_defined(*expr),
        ExprV::BinOp { left, right, .. } => relabs_defined(*left) && relabs_defined(*right),
        ExprV::Forall { body, .. } => relabs_defined(*body),
        ExprV::Exists { body, .. } => relabs_defined(*body),
        ExprV::If { cond, then_expr, else_expr } => relabs_defined(*cond) && relabs_defined(*then_expr) && relabs_defined(*else_expr),
        ExprV::Constructor { args, .. } => args.len() == 0,
        ExprV::ExistentialBindings(bs) => forall|i: int| 0 <= i < bs.len() ==> (is_application(#[trigger] bs[i].1) || relabs_defined(bs[i].1)),
        ExprV::Call { .. } => false,
        ExprV::Match { .. } => false,
        ExprV::Instantiate(_) => false,
        _ => true,
    }
}

/// The result sort at the end of a chain of arrows.
fn final_base_type(t: &Type) -> (r: BaseType)
    ensures
        r@ == final_base(t@),
    decreases t,
{
    match t {
        Type::Arrow(f) => final_base_type(&f.ret_type),
        Type::Base(b) => b.deep_clone(),
        Type::Refined(r) => r.base.deep_clone(),
    }
}

/// Whether the name has a `::`.
pub(crate) fn has_sep(f: &str) -> (r: bool)
    ensures
        r == exists|i: int| crate::text::sep_at(f@, i),
{
    let n = f.unicode_len();
    let mut i: usize = 0;
    while n > 0 && i < n - 1
        invariant
            n == f@.len(),
            i <= n,
            forall|k: int| 0 <= k < i ==> !crate::text::sep_at(f@, k),
        decreases n - i,
    {
        if f.get_char(i) == ':' && f.get_char(i + 1) == ':' {
            proof {
                assert(crate::text::sep_at(f@, i as int));
            }
            return true;
        }
        i = i + 1;
    }
    proof {
        assert forall|k: int| !crate::text::sep_at(f@, k) by {
            if 0 <= k < i {
            }
        }
    }
    false
}

/// The result sort of the function or constructor `func_name`.
fn get_return_base_type(func_name: &str, global_specs: &Vec<(Ident, FunctionDef)>) -> (r: BaseType)
    ensures
        r@ == return_base(sigs_view(global_specs@), func_name@),
{
    let ghost sigs = sigs_view(global_specs@);
    let fname = String::from_str(func_name);
    let mut k: usize = 0;
    proof {
        assert(sigs.skip(0) =~= sigs);
    }
    while k < global_specs.len()
        invariant
            0 <= k <= global_specs@.len(),
            sigs == sigs_view(global_specs@),
            fname@ == func_name@,
            sig_index(sigs, func_name@) == k + sig_index(sigs.skip(k as int), func_name@),
        decreases global_specs@.len() - k,
    {
        proof {
            assert(sigs.skip(k as int)[0] == sigs[k as int]);
            assert(sigs.skip(k as int).skip(1) =~= sigs.skip(k + 1));
        }
        if global_specs[k].0.eq(&fname) {
            return final_base_type(&global_specs[k].1.signature);
        }
        k = k + 1;
    }
    proof {
        assert(sigs.skip(k as int).len() == 0);
    }
    if has_sep(func_name) {
        BaseType::Custom(enum_name(func_name))
    } else {
        BaseType::Custom(String::from_str(func_name))
    }
}

/// `func_rel(args.., x)` under the quantifier of its polarity.
fn transform_call_to_rel(
    var_name: &Ident,
    func_name: &str,
    args: &Vec<Expr>,
    body: Expr,
    is_pos: bool,
    global_specs: &Vec<(Ident, FunctionDef)>,
) -> (r: Expr)
    ensures
        r@ == rel_binding(var_name@, func_name@, expr_views(args@), body@, is_pos, sigs_view(global_specs@)),
{
    proof {
        reveal_strlit("_rel");
    }
    let mut rel_args = clone_exprs(args);
    let ghost ra = rel_args@;
    rel_args.push(Expr::Var(var_name.clone()));
    let mut relation = String::from_str(func_name);
    relation.append("_rel");
    let ghost rel_view = ExprV::ApplyRel { relation: func_name@ + "_rel"@, args: expr_views(args@).push(ExprV::Var(var_name@)) };
    proof {
        assert(expr_views(rel_args@) =~= expr_views(args@).push(ExprV::Var(var_name@)));
    }
    let apply_rel = Expr::ApplyRel { relation, args: rel_args };
    proof {
        assert(apply_rel@ == rel_view);
    }
    let ret = get_return_base_type(func_name, global_specs);
    let mut binders: Vec<(Ident, BaseType)> = Vec::new();
    binders.push((var_name.clone(), ret));
    proof {
        assert(expr_views(rel_args@) =~= expr_views(args@).push(ExprV::Var(var_name@)));
        assert(binders_view(binders@) =~= seq![(var_name@, return_base(sigs_view(global_specs@), func_name@))]);
    }
    let ghost bview = body@;
    let ghost bs_view = binders_view(binders@);
    if is_pos {
        let inner = Expr::BinOp { op: BinOp::Implies, left: Box::new(apply_rel), right: Box::new(body) };
        proof {
            assert(inner@ == ExprV::BinOp { op: BinOp::Implies, left: Box::new(rel_view), right: Box::new(bview) });
        }
        let r = Expr::Forall { binders, body: Box::new(inner) };
        proof {
            assert(r@ == ExprV::Forall { binders: bs_view, body: Box::new(inner@) });
        }
        r
    } else {
        let inner = Expr::BinOp { op: BinOp::And, left: Box::new(apply_rel), right: Box::new(body) };
        proof {
            assert(inner@ == ExprV::BinOp { op: BinOp::And, left: Box::new(rel_view), right: Box::new(bview) });
        }
        let r = Expr::Exists { binders, body: Box::new(inner) };
        proof {
            assert(r@ == ExprV::Exists { binders: bs_view, body: Box::new(inner@) });
        }
        r
    }
}

/// The abstraction of `let var_name = bound in ..`, the body being
/// abstracted already.
fn let_to_rel(
    var_name: &Ident,
    bound: &Expr,
    body_rel: Expr,
    is_pos: bool,
    global_specs: &Vec<(Ident, FunctionDef)>,
) -> (r: Expr)
    requires
        is_application(bound@) || relabs_defined(bound@),
    ensures
        r@ == let_rel(var_name@, bound@, relabs_of(bound@, is_pos, sigs_view(global_specs@)), body_rel@, is_pos, sigs_view(global_specs@)),
    decreases bound, 3nat,
{
    match bound {
        Expr::Call { func, args } => {
            proof {
                assert(bound@ == ExprV::Call { func: func@, args: expr_views(args@) });
            }
            let ghost bv = body_rel@;
            let r = transform_call_to_rel(var_name, func.as_str(), args, body_rel, is_pos, global_specs);
            proof {
                let sigs = sigs_view(global_specs@);
                assert(r@ == rel_binding(var_name@, func@, expr_views(args@), bv, is_pos, sigs));
                assert(let_rel(var_name@, bound@, relabs_of(bound@, is_pos, sigs), bv, is_pos, sigs) == rel_binding(var_name@, func@, expr_views(args@), bv, is_pos, sigs));
            }
            r
        },
        Expr::Constructor { name, args } => {
            proof {
                assert(bound@ == ExprV::Constructor { name: name@, args: expr_views(args@) });
            }
            if args.len() == 0 {
                let ghost bv = body_rel@;
                let p = Pattern::Ident(var_name.clone());
                let v = Expr::Var(sanitize_id(name.as_str()));
                proof {
                    assert(p@ == PatternV::Ident(var_name@));
                    assert(v@ == ExprV::Var(sanitized(name@)));
                }
                let r = Expr::Let { pat: p, bound_expr: Box::new(v), body: Box::new(body_rel) };
                proof {
                    assert(r@ == ExprV::Let { pat: PatternV::Ident(var_name@), bound_expr: Box::new(ExprV::Var(sanitized(name@))), body: Box::new(bv) });
                }
                r
            } else {
                transform_call_to_rel(var_name, name.as_str(), args, body_rel, is_pos, global_specs)
            }
        },
        Expr::ApplyRel { relation, args } => {
            proof {
                assert(bound@ == ExprV::ApplyRel { relation: relation@, args: expr_views(args@) });
            }
            transform_call_to_rel(var_name, relation.as_str(), args, body_rel, is_pos, global_specs)
        },
        _ => {
            proof {
                assert(!(bound@ is Call) && !(bound@ is Constructor) && !(bound@ is ApplyRel)) by {
                    match bound {
                        Expr::Call { func, args } => {
                            assert(bound@ == ExprV::Call { func: func@, args: expr_views(args@) });
                        },
                        Expr::Constructor { name, args } => {
                            assert(bound@ == ExprV::Constructor { name: name@, args: expr_views(args@) });
                        },
                        Expr::ApplyRel { relation, args } => {
                            assert(bound@ == ExprV::ApplyRel { relation: relation@, args: expr_views(args@) });
                        },
                        _ => {},
                    }
                }
            }
            let b = relabs(bound, is_pos, global_specs);
            let ghost bv = body_rel@;
            let p = Pattern::Ident(var_name.clone());
            proof {
                assert(p@ == PatternV::Ident(var_name@));
            }
            let r = Expr::Let { pat: p, bound_expr: Box::new(b), body: Box::new(body_rel) };
            proof {
                assert(r@ == ExprV::Let { pat: PatternV::Ident(var_name@), bound_expr: Box::new(b@), body: Box::new(bv) });
            }
            r
        },
    }
}

/// The abstraction of the flattened hint bindings from `k` on.
fn chain_to_rel(bs: &Vec<(Ident, Expr)>, k: usize, global_specs: &Vec<(Ident, FunctionDef)>) -> (r: Expr)
    requires
        k <= bs@.len(),
        forall|i: int| 0 <= i < bs@.len() ==> (is_application(#[trigger] bs@[i].1@) || relabs_defined(bs@[i].1@)),
    ensures
        r@ == chain_rel(bindings_view(bs@).skip(k as int), sigs_view(global_specs@)),
    decreases bs, bs@.len() - k,
{
    let ghost bv = bindings_view(bs@);
    if k == bs.len() {
        proof {
            assert(bv.skip(k as int).len() == 0);
        }
        return Expr::BoolConst(true);
    }
    proof {
        assert(decreases_to!(*bs => bs@));
        assert(decreases_to!(bs@ => bs@[k as int]));
        assert(decreases_to!(bs@[k as int] => bs@[k as int].1));
        assert(bv.skip(k as int)[0] == bv[k as int]);
        assert(bv.skip(k as int).skip(1) =~= bv.skip(k + 1));
    }
    let rest = chain_to_rel(bs, k + 1, global_specs);
    let_to_rel(&bs[k].0, &bs[k].1, rest, false, global_specs)
}

/// The relational abstraction of `e` in polarity `is_pos`.
fn relabs(e: &Expr, is_pos: bool, global_specs: &Vec<(Ident, FunctionDef)>) -> (r: Expr)
    requires
        relabs_defined(e@),
    ensures
        r@ == relabs_of(e@, is_pos, sigs_view(global_specs@)),
    decreases e, 2nat,
{
    match e {
        Expr::Let { pat, bound_expr, body } => {
            proof {
                assert(e@ == ExprV::Let { pat: pat@, bound_expr: Box::new(bound_expr@), body: Box::new(body@) });
            }
            let var_name = match pat {
                Pattern::Ident(x) => x.clone(),
                _ => {
                    proof {
                        assert(false);
                    }
                    String::new()
                },
            };
            let body_rel = relabs(body, is_pos, global_specs);
            let_to_rel(&var_name, bound_expr, body_rel, is_pos, global_specs)
        },
        Expr::UnOp { op, expr } => {
            proof {
                assert(e@ == ExprV::UnOp { op: *op, expr: Box::new(expr@) });
            }
            Expr::UnOp { op: *op, expr: Box::new(relabs(expr, !is_pos, global_specs)) }
        },
        Expr::BinOp { op, left, right } => {
            proof {
                assert(e@ == ExprV::BinOp { op: *op, left: Box::new(left@), right: Box::new(right@) });
            }
            if *op == BinOp::Implies {
                Expr::BinOp {
                    op: *op,
                    left: Box::new(relabs(left, !is_pos, global_specs)),
                    right: Box::new(relabs(right, is_pos, global_specs)),
                }
            } else {
                Expr::BinOp {
                    op: *op,
                    left: Box::new(relabs(left, is_pos, global_specs)),
                    right: Box::new(relabs(right, is_pos, global_specs)),
                }
            }
        },
        Expr::Forall { .. } => relabs_rest(e, is_pos, global_specs),
        Expr::Exists { .. } => relabs_rest(e, is_pos, global_specs),
        Expr::If { .. } => relabs_rest(e, is_pos, global_specs),
        Expr::Constructor { .. } => relabs_rest(e, is_pos, global_specs),
        Expr::ExistentialBindings(_) => relabs_hints(e, global_specs),
        Expr::Call { .. } => {
            proof {
                assert(false);
            }
            Expr::BoolConst(true)
        },
        Expr::Match { .. } => {
            proof {
                assert(false);
            }
            Expr::BoolConst(true)
        },
        Expr::Instantiate(_) => {
            proof {
                assert(false);
            }
            Expr::BoolConst(true)
        },
        _ => e.deep_clone(),
    }
}

/// [`relabs`] on quantifiers, conditionals, constants and flattened hints.
fn relabs_rest(e: &Expr, is_pos: bool, global_specs: &Vec<(Ident, FunctionDef)>) -> (r: Expr)
    requires
        relabs_defined(e@),
        e is Forall || e is Exists || e is If || e is Constructor,
    ensures
        r@ == relabs_of(e@, is_pos, sigs_view(global_specs@)),
    decreases e, 1nat,
{
    match e {
        Expr::Forall { binders, body } => {
            proof {
                assert(e@ == ExprV::Forall { binders: binders_view(binders@), body: Box::new(body@) });
            }
            Expr::Forall { binders: clone_binders(binders), body: Box::new(relabs(body, is_pos, global_specs)) }
        },
        Expr::Exists { binders, body } => {
            proof {
                assert(e@ == ExprV::Exists { binders: binders_view(binders@), body: Box::new(body@) });
            }
            Expr::Exists { binders: clone_binders(binders), body: Box::new(relabs(body, is_pos, global_specs)) }
        },
        Expr::If { cond, then_expr, else_expr } => {
            proof {
                assert(e@ == ExprV::If { cond: Box::new(cond@), then_expr: Box::new(then_expr@), else_expr: Box::new(else_expr@) });
            }
            Expr::If {
                cond: Box::new(relabs(cond, is_pos, global_specs)),
                then_expr: Box::new(relabs(then_expr, is_pos, global_specs)),
                else_expr: Box::new(relabs(else_expr, is_pos, global_specs)),
            }
        },
        Expr::Constructor { name, args } => {
            proof {
                assert(e@ == ExprV::Constructor { name: name@, args: expr_views(args@) });
            }
            Expr::Var(sanitize_id(name.as_str()))
        },
        _ => {
            proof {
                assert(false);
            }
            Expr::BoolConst(true)
        },
    }
}

/// [`relabs`] on flattened hints: every binding is abstracted in negative
/// polarity, since the hinted terms must exist.
fn relabs_hints(e: &Expr, global_specs: &Vec<(Ident, FunctionDef)>) -> (r: Expr)
    requires
        relabs_defined(e@),
        e is ExistentialBindings,
    ensures
        forall|pos: bool| #[trigger] relabs_of(e@, pos, sigs_view(global_specs@)) == r@,
    decreases e, 1nat,
{
    match e {
        Expr::ExistentialBindings(bs) => {
            proof {
                assert(e@ == ExprV::ExistentialBindings(bindings_view(bs@)));
                assert(decreases_to!(*e => (*e)->ExistentialBindings_0));
                assert forall|i: int| 0 <= i < bs@.len() implies (is_application(#[trigger] bs@[i].1@) || relabs_defined(bs@[i].1@)) by {
                    assert(e@->ExistentialBindings_0[i] == (bs@[i].0@, bs@[i].1@));
                    assert(e@->ExistentialBindings_0[i].1 == bs@[i].1@);
                }
                assert(bindings_view(bs@).skip(0) =~= bindings_view(bs@));
            }
            chain_to_rel(bs, 0, global_specs)
        },
        _ => {
            proof {
                assert(false);
            }
            Expr::BoolConst(true)
        },
    }
}

/// The relational abstraction of `expr`, starting in positive polarity.
pub fn transform_expr(expr: &Expr, global_specs: &Vec<(Ident, FunctionDef)>) -> (r: Expr)
    requires
        relabs_defined(expr@),
    ensures
        r@ == relabs_of(expr@, true, sigs_view(global_specs@)),
{
    relabs(expr, true, global_specs)
}

/// The arguments of a call-like application.
pub open spec fn app_args(e: ExprV) -> Seq<ExprV> {
    match e {
        ExprV::Call { args, .. } => args,
        ExprV::Constructor { args, .. } => args,
        ExprV::ApplyRel { args, .. } => args,
        _ => Seq::empty(),
    }
}

/// Whether no name bound by a `let` over an application is read in that
/// application's arguments, so that quantifying the name leaves them alone.
pub open spec fn rel_hygienic(e: ExprV) -> bool
    decreases e,
{
    match e {
        ExprV::Let { pat, bound_expr, body } => (if is_application(*bound_expr) {
            forall|i: int| 0 <= i < app_args(*bound_expr).len() ==> !uses_name(#[trigger] app_args(*bound_expr)[i], pat->Ident_0)
        } else {
            rel_hygienic(*bound_expr)
        }) && rel_hygienic(*body),
        ExprV::UnOp { expr, .. } => rel_hygienic(*expr),
        ExprV::BinOp { left, right, .. } => rel_hygienic(*left) && rel_hygienic(*right),
        ExprV::Forall { body, .. } => rel_hygienic(*body),
        ExprV::Exists { body, .. } => rel_hygienic(*body),
        ExprV::If { cond, then_expr, else_expr } => rel_hygienic(*cond) && rel_hygienic(*then_expr) && rel_hygienic(*else_expr),
        ExprV::ExistentialBindings(bs) => forall|i: int| 0 <= i < bs.len() && is_application(#[trigger] bs[i].1) ==>
            forall|j: int| 0 <= j < app_args(bs[i].1).len() ==> !uses_name(#[trigger] app_args(bs[i].1)[j], bs[i].0),
        _ => true,
    }
}

/// Whether, in the model `app`, each relation `f_rel` is the graph of `f`:
/// it holds of arguments and a value exactly where `f` (a function, a
/// constructor or a relation) maps the arguments to that value. Such a
/// relation is functional and total.
pub open spec fn rels_are_graphs(app: spec_fn(Head, Seq<bool>) -> bool) -> bool {
    &&& forall|f: Seq<char>, vs: Seq<bool>, v: bool|
        #[trigger] app(Head::Rel(f + "_rel"@), vs.push(v)) == (app(Head::Func(f), vs) == v)
    &&& forall|f: Seq<char>, vs: Seq<bool>, v: bool|
        #[trigger] app(Head::Rel(f + "_rel"@), vs.push(v)) == (app(Head::Ctor(f), vs) == v)
    &&& forall|f: Seq<char>, vs: Seq<bool>, v: bool|
        #[trigger] app(Head::Rel(f + "_rel"@), vs.push(v)) == (app(Head::Rel(f), vs) == v)
}

/// Whether, in the model `app`, every block of hint bindings holds: it only
/// names terms, and every term has a value.
pub open spec fn hints_hold(app: spec_fn(Head, Seq<bool>) -> bool) -> bool {
    forall|ns: Seq<Seq<char>>, vs: Seq<bool>| #[trigger] app(Head::Bindings(ns), vs)
}

/// Law: the relational abstraction means what its input means, in either
/// polarity, wherever each `f_rel` is the graph of `f`. In positive position
/// `let x = f(a) in B` becomes `forall x. f_rel(a, x) ==> B`, in negative
/// position `exists x. f_rel(a, x) && B`; both hold exactly where `B` holds
/// of `x = f(a)`.
pub proof fn lemma_relabs_preserves_meaning(
    e: ExprV,
    pos: bool,
    sigs: Seq<(Seq<char>, TypeV)>,
    env: spec_fn(Seq<char>) -> bool,
    app: spec_fn(Head, Seq<bool>) -> bool,
)
    requires
        relabs_defined(e),
        rel_hygienic(e),
        rels_are_graphs(app),
        hints_hold(app),
    ensures
        eval(relabs_of(e, pos, sigs), env, app) == eval(e, env, app),
    decreases e, 0nat,
{
    match e {
        ExprV::Let { pat, bound_expr, body } => {
            let x = pat->Ident_0;
            let b = *bound_expr;
            let v = eval(b, env, app);
            let br = relabs_of(*body, pos, sigs);
            assert(eval(e, env, app) == eval(*body, bind(env, x, v), app));
            lemma_relabs_preserves_meaning(*body, pos, sigs, bind(env, x, true), app);
            lemma_relabs_preserves_meaning(*body, pos, sigs, bind(env, x, false), app);
            assert(eval(br, bind(env, x, v), app) == eval(*body, bind(env, x, v), app)) by {
                if v {
                    assert(bind(env, x, v) == bind(env, x, true));
                } else {
                    assert(bind(env, x, v) == bind(env, x, false));
                }
            }
            if is_application(b) {
                let args = app_args(b);
                assert forall|w: bool| #[trigger] eval_list(args, bind(env, x, w), app) == eval_list(args, env, app) by {
                    assert forall|i: int| 0 <= i < args.len() implies
                        #[trigger] eval_list(args, bind(env, x, w), app)[i] == eval_list(args, env, app)[i] by {
                        assert forall|y: Seq<char>| y != x implies #[trigger] bind(env, x, w)(y) == env(y) by {}
                        lemma_eval_frame(args[i], x, bind(env, x, w), env, app);
                    }
                    assert(eval_list(args, bind(env, x, w), app) =~= eval_list(args, env, app));
                }
                match b {
                    ExprV::Call { func, args } => {
                        assert(v == app(Head::Func(func), eval_list(args, env, app)));
                        lemma_rel_binding_meaning(x, func, args, *body, br, pos, sigs, env, app, v);
                    },
                    ExprV::Constructor { name, args } => {
                        if args.len() != 0 {
                            assert(v == app(Head::Ctor(name), eval_list(args, env, app)));
                            lemma_rel_binding_meaning(x, name, args, *body, br, pos, sigs, env, app, v);
                        } else {
                            let c = ExprV::Var(sanitized(name));
                            assert(eval(c, env, app) == v);
                            assert(relabs_of(e, pos, sigs) == ExprV::Let { pat: PatternV::Ident(x), bound_expr: Box::new(c), body: Box::new(br) });
                        }
                    },
                    ExprV::ApplyRel { relation, args } => {
                        assert(v == app(Head::Rel(relation), eval_list(args, env, app)));
                        lemma_rel_binding_meaning(x, relation, args, *body, br, pos, sigs, env, app, v);
                    },
                    _ => {},
                }
            } else {
                lemma_relabs_preserves_meaning(b, pos, sigs, env, app);
                let bl = relabs_of(b, pos, sigs);
                assert(relabs_of(e, pos, sigs) == ExprV::Let { pat: PatternV::Ident(x), bound_expr: Box::new(bl), body: Box::new(br) });
            }
        },
        ExprV::UnOp { expr, .. } => lemma_relabs_preserves_meaning(*expr, !pos, sigs, env, app),
        ExprV::BinOp { op, left, right } => {
            lemma_relabs_preserves_meaning(*left, !pos, sigs, env, app);
            lemma_relabs_preserves_meaning(*left, pos, sigs, env, app);
            lemma_relabs_preserves_meaning(*right, pos, sigs, env, app);
        },
        ExprV::Forall { binders, body } => lemma_relabs_assignments(*body, binders, binders.len(), pos, sigs, env, app),
        ExprV::Exists { binders, body } => lemma_relabs_assignments(*body, binders, binders.len(), pos, sigs, env, app),
        ExprV::If { cond, then_expr, else_expr } => {
            lemma_relabs_preserves_meaning(*cond, pos, sigs, env, app);
            lemma_relabs_preserves_meaning(*then_expr, pos, sigs, env, app);
            lemma_relabs_preserves_meaning(*else_expr, pos, sigs, env, app);
        },
        ExprV::ExistentialBindings(bs) => {
            lemma_chain_holds(bs, sigs, env, app);
        },
        _ => {},
    }
}

/// The abstraction of hint bindings holds wherever each `f_rel` is the graph
/// of `f`: the value of each named term exists.
proof fn lemma_chain_holds(
    bs: Seq<(Seq<char>, ExprV)>,
    sigs: Seq<(Seq<char>, TypeV)>,
    env: spec_fn(Seq<char>) -> bool,
    app: spec_fn(Head, Seq<bool>) -> bool,
)
    requires
        rels_are_graphs(app),
        forall|i: int| 0 <= i < bs.len() && is_application(#[trigger] bs[i].1) ==>
            forall|j: int| 0 <= j < app_args(bs[i].1).len() ==> !uses_name(#[trigger] app_args(bs[i].1)[j], bs[i].0),
    ensures
        eval(chain_rel(bs, sigs), env, app),
    decreases bs.len(),
{
    if bs.len() > 0 {
        let x = bs[0].0;
        let b = bs[0].1;
        let rest = bs.skip(1);
        assert forall|i: int| 0 <= i < rest.len() && is_application(#[trigger] rest[i].1) implies
            forall|j: int| 0 <= j < app_args(rest[i].1).len() ==> !uses_name(#[trigger] app_args(rest[i].1)[j], rest[i].0) by {
            assert(rest[i] == bs[i + 1]);
        }
        let cr = chain_rel(rest, sigs);
        lemma_chain_holds(rest, sigs, bind(env, x, true), app);
        lemma_chain_holds(rest, sigs, bind(env, x, false), app);
        let t = ExprV::BoolConst(true);
        if is_application(b) {
            let args = app_args(b);
            assert forall|w: bool| #[trigger] eval_list(args, bind(env, x, w), app) == eval_list(args, env, app) by {
                assert forall|i: int| 0 <= i < args.len() implies
                    #[trigger] eval_list(args, bind(env, x, w), app)[i] == eval_list(args, env, app)[i] by {
                    assert forall|y: Seq<char>| y != x implies #[trigger] bind(env, x, w)(y) == env(y) by {}
                    lemma_eval_frame(args[i], x, bind(env, x, w), env, app);
                }
                assert(eval_list(args, bind(env, x, w), app) =~= eval_list(args, env, app));
            }
            match b {
                ExprV::Call { func, args } => {
                    let fv = app(Head::Func(func), eval_list(args, env, app));
                    lemma_rel_binding_meaning(x, func, args, t, cr, false, sigs, env, app, fv);
                },
                ExprV::Constructor { name, args } => {
                    if args.len() != 0 {
                        let fv = app(Head::Ctor(name), eval_list(args, env, app));
                        lemma_rel_binding_meaning(x, name, args, t, cr, false, sigs, env, app, fv);
                    } else {
                        let v = env(sanitized(name));
                        assert(eval(cr, bind(env, x, v), app)) by {
                            if v {
                                assert(bind(env, x, v) == bind(env, x, true));
                            } else {
                                assert(bind(env, x, v) == bind(env, x, false));
                            }
                        }
                    }
                },
                ExprV::ApplyRel { relation, args } => {
                    let fv = app(Head::Rel(relation), eval_list(args, env, app));
                    lemma_rel_binding_meaning(x, relation, args, t, cr, false, sigs, env, app, fv);
                },
                _ => {},
            }
        } else {
            let v = eval(relabs_of(b, false, sigs), env, app);
            assert(eval(cr, bind(env, x, v), app)) by {
                if v {
                    assert(bind(env, x, v) == bind(env, x, true));
                } else {
                    assert(bind(env, x, v) == bind(env, x, false));
                }
            }
        }
    }
}

proof fn lemma_relabs_assignments(
    body: ExprV,
    bs: Seq<(Seq<char>, BaseTypeV)>,
    n: nat,
    pos: bool,
    sigs: Seq<(Seq<char>, TypeV)>,
    env: spec_fn(Seq<char>) -> bool,
    app: spec_fn(Head, Seq<bool>) -> bool,
)
    requires
        relabs_defined(body),
        rel_hygienic(body),
        rels_are_graphs(app),
        hints_hold(app),
    ensures
        all_assignments(relabs_of(body, pos, sigs), bs, n, env, app) == all_assignments(body, bs, n, env, app),
        some_assignment(relabs_of(body, pos, sigs), bs, n, env, app) == some_assignment(body, bs, n, env, app),
    decreases body, n + 1,
{
    if n == 0 || n > bs.len() {
        lemma_relabs_preserves_meaning(body, pos, sigs, env, app);
    } else {
        lemma_relabs_assignments(body, bs, (n - 1) as nat, pos, sigs, bind(env, bs[n - 1].0, true), app);
        lemma_relabs_assignments(body, bs, (n - 1) as nat, pos, sigs, bind(env, bs[n - 1].0, false), app);
    }
}

/// `f_rel(args, x)` under its quantifier means the body at `x = fv`, where
/// `f_rel` relates the arguments to `fv` alone.
proof fn lemma_rel_binding_meaning(
    x: Seq<char>,
    f: Seq<char>,
    args: Seq<ExprV>,
    body: ExprV,
    body_rel: ExprV,
    pos: bool,
    sigs: Seq<(Seq<char>, TypeV)>,
    env: spec_fn(Seq<char>) -> bool,
    app: spec_fn(Head, Seq<bool>) -> bool,
    fv: bool,
)
    requires
        forall|w: bool| #[trigger] eval_list(args, bind(env, x, w), app) == eval_list(args, env, app),
        forall|w: bool| #[trigger] app(Head::Rel(f + "_rel"@), eval_list(args, env, app).push(w)) == (fv == w),
        eval(body_rel, bind(env, x, true), app) == eval(body, bind(env, x, true), app),
        eval(body_rel, bind(env, x, false), app) == eval(body, bind(env, x, false), app),
    ensures
        eval(rel_binding(x, f, args, body_rel, pos, sigs), env, app) == eval(body, bind(env, x, fv), app),
{
    let rel = ExprV::ApplyRel { relation: f + "_rel"@, args: args.push(ExprV::Var(x)) };
    let binders = seq![(x, return_base(sigs, f))];
    assert forall|w: bool| #[trigger] eval(rel, bind(env, x, w), app) == (fv == w) by {
        assert(eval_list(args.push(ExprV::Var(x)), bind(env, x, w), app) =~= eval_list(args, bind(env, x, w), app).push(w));
        assert(app(Head::Rel(f + "_rel"@), eval_list(args, env, app).push(w)) == (fv == w));
    }
    let inner_imp = ExprV::BinOp { op: BinOp::Implies, left: Box::new(rel), right: Box::new(body_rel) };
    let inner_and = ExprV::BinOp { op: BinOp::And, left: Box::new(rel), right: Box::new(body_rel) };
    assert(eval(inner_imp, bind(env, x, true), app) == (eval(rel, bind(env, x, true), app) ==> eval(body_rel, bind(env, x, true), app)));
    assert(eval(inner_imp, bind(env, x, false), app) == (eval(rel, bind(env, x, false), app) ==> eval(body_rel, bind(env, x, false), app)));
    assert(eval(inner_and, bind(env, x, true), app) == (eval(rel, bind(env, x, true), app) && eval(body_rel, bind(env, x, true), app)));
    assert(eval(inner_and, bind(env, x, false), app) == (eval(rel, bind(env, x, false), app) && eval(body_rel, bind(env, x, false), app)));
    assert(all_assignments(inner_imp, binders, 0, bind(env, x, true), app) == eval(inner_imp, bind(env, x, true), app));
    assert(all_assignments(inner_imp, binders, 0, bind(env, x, false), app) == eval(inner_imp, bind(env, x, false), app));
    assert(some_assignment(inner_and, binders, 0, bind(env, x, true), app) == eval(inner_and, bind(env, x, true), app));
    assert(some_assignment(inner_and, binders, 0, bind(env, x, false), app) == eval(inner_and, bind(env, x, false), app));
    assert(binders[0].0 == x);
    assert(binders.len() == 1);
    let fa = ExprV::Forall { binders, body: Box::new(inner_imp) };
    let ex = ExprV::Exists { binders, body: Box::new(inner_and) };
    assert(eval(fa, env, app) == all_assignments(inner_imp, binders, 1, env, app));
    assert(all_assignments(inner_imp, binders, 1, env, app) == (all_assignments(inner_imp, binders, 0, bind(env, x, true), app)
        && all_assignments(inner_imp, binders, 0, bind(env, x, false), app)));
    assert(eval(ex, env, app) == some_assignment(inner_and, binders, 1, env, app));
    assert(some_assignment(inner_and, binders, 1, env, app) == (some_assignment(inner_and, binders, 0, bind(env, x, true), app)
        || some_assignment(inner_and, binders, 0, bind(env, x, false), app)));
    assert(rel_binding(x, f, args, body_rel, pos, sigs) == if pos { fa } else { ex });
    if fv {
        assert(bind(env, x, fv) == bind(env, x, true));
    } else {
        assert(bind(env, x, fv) == bind(env, x, false));
    }
}

} // verus!
