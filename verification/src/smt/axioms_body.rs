//! The definitional axioms of a function with a body: the body is split at
//! each `match` on a parameter and at each `if`, and each leaf gives one
//! equation `f(args) == leaf`, under the branch's guards and over the
//! variables in scope there.

use vstd::prelude::*;
use crate::api::{assoc_insert, key_index};
use crate::ast::{BaseType, BaseTypeV, BinOp, Expr, ExprV, Ident, Pattern, PatternV, Type, TypeV, UnOp, arms_view, base_views,
    binders_view, bindings_view, clone_binders, clone_exprs, expr_views, pattern_views};
use crate::env::{and_tree, build_and_tree, subst, subst_all, subst_arms, substitute_expr};
use crate::auto_inst::pattern_binds;
use crate::typechecking::{is_expressible, pattern_to_expr};
use crate::typing::{base_of_type, expressible, pattern_expr, pattern_exprs};

verus! {

broadcast use vstd::std_specs::vec::group_vec_axioms, crate::ast::group_ast_views;

/// The parameter sorts and the result sort of a signature; none where a
/// parameter or the result is itself a function.
pub open spec fn fun_types(t: TypeV) -> Option<(Seq<BaseTypeV>, BaseTypeV)>
    decreases t,
{
    match t {
        TypeV::Arrow { param_type, ret_type, .. } => match (base_of_type(*param_type), fun_types(*ret_type)) {
            (Some(b), Some((ins, out))) => Some((seq![b] + ins, out)),
            _ => None,
        },
        _ => match base_of_type(t) {
            Some(b) => Some((Seq::empty(), b)),
            None => None,
        },
    }
}

/// The parameters of a signature with their sorts; none where a parameter
/// or the result is a function.
pub open spec fn fun_params(t: TypeV) -> Option<Seq<(Seq<char>, BaseTypeV)>>
    decreases t,
{
    match t {
        TypeV::Arrow { param_name, param_type, ret_type } => match (base_of_type(*param_type), fun_params(*ret_type)) {
            (Some(b), Some(rest)) => Some(seq![(param_name, b)] + rest),
            _ => None,
        },
        _ => match base_of_type(t) {
            Some(_) => Some(Seq::empty()),
            None => None,
        },
    }
}

/// The parameter sorts and result sort of a signature (see [`fun_types`]).
pub fn get_fun_types(ty: &Type) -> (r: Option<(Vec<BaseType>, BaseType)>)
    ensures
        fun_types(ty@) == match r {
            Some((ins, out)) => Some((base_views(ins@), out@)),
            None => None,
        },
    decreases ty,
{
    match ty {
        Type::Arrow(f) => {
            proof {
                assert(ty@ == TypeV::Arrow {
                    param_name: f.param_name@,
                    param_type: Box::new((*f.param_type)@),
                    ret_type: Box::new((*f.ret_type)@),
                });
            }
            let b = match &*f.param_type {
                Type::Base(b) => {
                    proof {
                        assert((*f.param_type)@ == TypeV::Base(b@));
                    }
                    b.deep_clone()
                },
                Type::Refined(rt) => {
                    proof {
                        assert((*f.param_type)@ == TypeV::Refined { bound_var: rt.bound_var@, base: rt.base@, predicate: rt.predicate@ });
                    }
                    rt.base.deep_clone()
                },
                Type::Arrow(g) => {
                    proof {
                        assert((*f.param_type)@ is Arrow);
                    }
                    return None;
                },
            };
            match get_fun_types(&f.ret_type) {
                Some((ins, out)) => {
                    let mut v: Vec<BaseType> = Vec::new();
                    let ghost bv = b@;
                    v.push(b);
                    let mut rest = ins;
                    let ghost iv = base_views(rest@);
                    v.append(&mut rest);
                    proof {
                        assert(base_views(v@) =~= seq![bv] + iv);
                    }
                    Some((v, out))
                },
                None => None,
            }
        },
        Type::Base(b) => {
            let v: Vec<BaseType> = Vec::new();
            proof {
                assert(ty@ == TypeV::Base(b@));
                assert(base_views(v@) =~= Seq::<BaseTypeV>::empty());
            }
            Some((v, b.deep_clone()))
        },
        Type::Refined(rt) => {
            let v: Vec<BaseType> = Vec::new();
            proof {
                assert(ty@ == TypeV::Refined { bound_var: rt.bound_var@, base: rt.base@, predicate: rt.predicate@ });
                assert(base_views(v@) =~= Seq::<BaseTypeV>::empty());
            }
            Some((v, rt.base.deep_clone()))
        },
    }
}

/// The parameters of a signature with their sorts (see [`fun_params`]).
pub fn get_fun_params(ty: &Type) -> (r: Option<Vec<(Ident, BaseType)>>)
    ensures
        fun_params(ty@) == match r {
            Some(ps) => Some(binders_view(ps@)),
            None => None,
        },
    decreases ty,
{
    match ty {
        Type::Arrow(f) => {
            proof {
                assert(ty@ == TypeV::Arrow {
                    param_name: f.param_name@,
                    param_type: Box::new((*f.param_type)@),
                    ret_type: Box::new((*f.ret_type)@),
                });
            }
            let b = match &*f.param_type {
                Type::Base(b) => {
                    proof {
                        assert((*f.param_type)@ == TypeV::Base(b@));
                    }
                    b.deep_clone()
                },
                Type::Refined(rt) => {
                    proof {
                        assert((*f.param_type)@ == TypeV::Refined { bound_var: rt.bound_var@, base: rt.base@, predicate: rt.predicate@ });
                    }
                    rt.base.deep_clone()
                },
                Type::Arrow(g) => {
                    proof {
                        assert((*f.param_type)@ is Arrow);
                    }
                    return None;
                },
            };
            match get_fun_params(&f.ret_type) {
                Some(ps) => {
                    let mut v: Vec<(Ident, BaseType)> = Vec::new();
                    let ghost first = (f.param_name@, b@);
                    v.push((f.param_name.clone(), b));
                    let mut rest = ps;
                    let ghost rv = binders_view(rest@);
                    v.append(&mut rest);
                    proof {
                        assert(binders_view(v@) =~= seq![first] + rv);
                    }
                    Some(v)
                },
                None => None,
            }
        },
        Type::Base(b) => {
            let v: Vec<(Ident, BaseType)> = Vec::new();
            proof {
                assert(ty@ == TypeV::Base(b@));
                assert(binders_view(v@) =~= Seq::<(Seq<char>, BaseTypeV)>::empty());
            }
            Some(v)
        },
        Type::Refined(rt) => {
            let v: Vec<(Ident, BaseType)> = Vec::new();
            proof {
                assert(ty@ == TypeV::Refined { bound_var: rt.bound_var@, base: rt.base@, predicate: rt.predicate@ });
                assert(binders_view(v@) =~= Seq::<(Seq<char>, BaseTypeV)>::empty());
            }
            Some(v)
        },
    }
}

/// The variables a pattern binds, with their sorts, for a value of sort
/// `t`: a name at `t`, the fields of a constructor at their sorts. None for
/// a tuple pattern and for a constructor whose field sorts are not known.
pub open spec fn pat_binders(p: PatternV, t: BaseTypeV) -> Option<Seq<(Seq<char>, BaseTypeV)>>
    decreases p, 0int,
{
    match p {
        PatternV::Ident(x) => Some(seq![(x, t)]),
        PatternV::Wildcard => Some(Seq::empty()),
        PatternV::Tuple(_) => None,
        PatternV::Constructor { args, arg_types, .. } => match arg_types {
            Some(fts) => field_binders(args, fts, 0),
            None => None,
        },
    }
}

/// [`pat_binders`] of the patterns `ps` from `i` on, at the sorts of the
/// same positions of `ts`, as far as both go.
pub open spec fn field_binders(ps: Seq<PatternV>, ts: Seq<BaseTypeV>, i: int) -> Option<Seq<(Seq<char>, BaseTypeV)>>
    decreases ps, ps.len() - i,
{
    if i < 0 || i >= ps.len() || i >= ts.len() {
        Some(Seq::empty())
    } else {
        match (pat_binders(ps[i], ts[i]), field_binders(ps, ts, i + 1)) {
            (Some(a), Some(b)) => Some(a + b),
            _ => None,
        }
    }
}

/// Appends the variables a pattern binds (see [`pat_binders`]); false
/// where there is none.
pub fn extract_pat_binders(pat: &Pattern, ty: &BaseType, binders: &mut Vec<(Ident, BaseType)>) -> (r: bool)
    ensures
        r == pat_binders(pat@, ty@) is Some,
        r ==> binders_view(final(binders)@) == binders_view(old(binders)@) + pat_binders(pat@, ty@).unwrap(),
    decreases pat,
{
    let ghost before = binders_view(binders@);
    match pat {
        Pattern::Ident(name) => {
            binders.push((name.clone(), ty.deep_clone()));
            proof {
                assert(pat@ == PatternV::Ident(name@));
                assert(binders_view(binders@) =~= before + seq![(name@, ty@)]);
            }
            true
        },
        Pattern::Wildcard => {
            proof {
                assert(pat@ == PatternV::Wildcard);
                assert(before + Seq::<(Seq<char>, BaseTypeV)>::empty() =~= before);
            }
            true
        },
        Pattern::Tuple(ps) => {
            proof {
                assert(pat@ == PatternV::Tuple(pattern_views(ps@)));
            }
            false
        },
        Pattern::Constructor { name, args, arg_types } => {
            proof {
                assert(decreases_to!(*pat => (*pat)->args));
            }
            match arg_types {
                Some(fts) => {
                    proof {
                        assert(pat@ == PatternV::Constructor {
                            name: name@,
                            args: pattern_views(args@),
                            arg_types: Some(base_views(fts@)),
                        });
                    }
                    extract_field_binders(args, fts, binders)
                },
                None => {
                    proof {
                        assert(pat@ is Constructor && pat@->arg_types is None);
                    }
                    false
                },
            }
        },
    }
}

/// [`extract_pat_binders`] over the fields (see [`field_binders`]).
fn extract_field_binders(ps: &Vec<Pattern>, ts: &Vec<BaseType>, binders: &mut Vec<(Ident, BaseType)>) -> (r: bool)
    ensures
        r == field_binders(pattern_views(ps@), base_views(ts@), 0) is Some,
        r ==> binders_view(final(binders)@) == binders_view(old(binders)@) + field_binders(pattern_views(ps@), base_views(ts@), 0).unwrap(),
    decreases ps,
{
    let ghost pv = pattern_views(ps@);
    let ghost tv = base_views(ts@);
    let ghost start = binders_view(binders@);
    let mut i: usize = 0;
    proof {
        assert(start + Seq::<(Seq<char>, BaseTypeV)>::empty() =~= start);
    }
    while i < ps.len() && i < ts.len()
        invariant
            0 <= i <= ps@.len(),
            pv == pattern_views(ps@),
            tv == base_views(ts@),
            start == binders_view(old(binders)@),
            field_binders(pv, tv, 0) is Some <==> field_binders(pv, tv, i as int) is Some && acc_ok(pv, tv, i as int),
            field_binders(pv, tv, 0) is Some ==> field_binders(pv, tv, 0).unwrap() == binders_view(binders@).skip(start.len() as int)
                + field_binders(pv, tv, i as int).unwrap(),
            acc_ok(pv, tv, i as int),
            binders_view(binders@).take(start.len() as int) == start,
            binders_view(binders@).len() >= start.len(),
        decreases ps@.len() - i,
    {
        proof {
            assert(decreases_to!(*ps => ps@));
            assert(decreases_to!(ps@ => ps@[i as int]));
        }
        let ghost before = binders_view(binders@);
        if !extract_pat_binders(&ps[i], &ts[i], binders) {
            proof {
                assert(field_binders(pv, tv, i as int) is None);
            }
            return false;
        }
        proof {
            let a = pat_binders(pv[i as int], tv[i as int]).unwrap();
            assert(binders_view(binders@) == before + a);
            assert(binders_view(binders@).take(start.len() as int) =~= before.take(start.len() as int));
            if field_binders(pv, tv, i + 1) is Some {
                assert(field_binders(pv, tv, i as int).unwrap() == a + field_binders(pv, tv, i + 1).unwrap());
                assert(binders_view(binders@).skip(start.len() as int) =~= before.skip(start.len() as int) + a);
            }
            lemma_acc_ok_step(pv, tv, i as int);
        }
        i = i + 1;
    }
    proof {
        assert(field_binders(pv, tv, i as int) == Some(Seq::<(Seq<char>, BaseTypeV)>::empty()));
        assert(binders_view(binders@) =~= start + binders_view(binders@).skip(start.len() as int));
    }
    true
}

/// Each of the first `i` fields has its binders.
pub open spec fn acc_ok(ps: Seq<PatternV>, ts: Seq<BaseTypeV>, i: int) -> bool {
    forall|k: int| 0 <= k < i ==> pat_binders(#[trigger] ps[k], ts[k]) is Some
}

proof fn lemma_acc_ok_step(ps: Seq<PatternV>, ts: Seq<BaseTypeV>, i: int)
    requires
        0 <= i < ps.len(),
        i < ts.len(),
        acc_ok(ps, ts, i),
        pat_binders(ps[i], ts[i]) is Some,
    ensures
        acc_ok(ps, ts, i + 1),
{
}

/// The nesting of the branches of a body: each `match` and each `if`
/// counts, with all that its branches nest.
pub open spec fn bdepth(e: ExprV) -> int
    decreases e, 1int,
{
    match e {
        ExprV::Match { arms, .. } => 1 + arms_depth(arms, 0),
        ExprV::If { then_expr, else_expr, .. } => 1 + bdepth(*then_expr) + bdepth(*else_expr),
        _ => 0,
    }
}

/// [`bdepth`] summed over the arms from the `i`-th on, each arm counting one more.
pub open spec fn arms_depth(arms: Seq<(PatternV, ExprV)>, i: int) -> int
    decreases arms, arms.len() - i,
{
    if i < 0 || i >= arms.len() {
        0
    } else {
        1 + bdepth(arms[i].1) + arms_depth(arms, i + 1)
    }
}

/// The nesting is never negative.
pub proof fn lemma_bdepth_nonneg(e: ExprV)
    ensures
        bdepth(e) >= 0,
    decreases e, 1int,
{
    match e {
        ExprV::Match { arms, .. } => lemma_arms_depth_nonneg(arms, 0),
        ExprV::If { then_expr, else_expr, .. } => {
            lemma_bdepth_nonneg(*then_expr);
            lemma_bdepth_nonneg(*else_expr);
        },
        _ => {},
    }
}

pub proof fn lemma_arms_depth_nonneg(arms: Seq<(PatternV, ExprV)>, i: int)
    ensures
        arms_depth(arms, i) >= 0,
    decreases arms, arms.len() - i,
{
    if 0 <= i < arms.len() {
        lemma_bdepth_nonneg(arms[i].1);
        lemma_arms_depth_nonneg(arms, i + 1);
    }
}

/// Each arm nests less than the arms from any earlier one on.
pub proof fn lemma_arm_below(arms: Seq<(PatternV, ExprV)>, i: int, k: int)
    requires
        0 <= i <= k < arms.len(),
    ensures
        bdepth(arms[k].1) < arms_depth(arms, i),
    decreases k - i,
{
    lemma_arms_depth_nonneg(arms, i + 1);
    lemma_bdepth_nonneg(arms[i].1);
    if i < k {
        lemma_arm_below(arms, i + 1, k);
    }
}

/// Putting a branch-free expression for a variable keeps the nesting.
pub proof fn lemma_bdepth_subst(e: ExprV, x: Seq<char>, r: ExprV)
    requires
        bdepth(r) == 0,
    ensures
        bdepth(subst(e, x, r)) == bdepth(e),
    decreases e, 1int,
{
    match e {
        ExprV::Match { expr, arms } => {
            lemma_arms_depth_subst(arms, 0, x, r);
        },
        ExprV::If { cond, then_expr, else_expr } => {
            lemma_bdepth_subst(*then_expr, x, r);
            lemma_bdepth_subst(*else_expr, x, r);
        },
        _ => {},
    }
}

pub proof fn lemma_arms_depth_subst(arms: Seq<(PatternV, ExprV)>, i: int, x: Seq<char>, r: ExprV)
    requires
        bdepth(r) == 0,
    ensures
        arms_depth(subst_arms(arms, x, r), i) == arms_depth(arms, i),
    decreases arms, arms.len() - i,
{
    if 0 <= i < arms.len() {
        lemma_arms_depth_subst(arms, i + 1, x, r);
        if !pattern_binds(arms[i].0, x) {
            lemma_bdepth_subst(arms[i].1, x, r);
        }
    }
}

/// A pattern read as an expression has no branch.
pub proof fn lemma_pattern_expr_flat(p: PatternV)
    ensures
        bdepth(pattern_expr(p)) == 0,
{
}

/// The sort of the first binder named `x`.
pub open spec fn find_sort(bs: Seq<(Seq<char>, BaseTypeV)>, x: Seq<char>) -> Option<BaseTypeV> {
    let k = key_index(bs, x);
    if k < bs.len() {
        Some(bs[k].1)
    } else {
        None
    }
}

/// The binders not named `x`, in order.
pub open spec fn without(bs: Seq<(Seq<char>, BaseTypeV)>, x: Seq<char>) -> Seq<(Seq<char>, BaseTypeV)>
    decreases bs.len(),
{
    if bs.len() == 0 {
        bs
    } else if bs.last().0 == x {
        without(bs.drop_last(), x)
    } else {
        without(bs.drop_last(), x).push(bs.last())
    }
}

/// Each value of the argument map with `x` replaced by `r`.
pub open spec fn subst_values(m: Seq<(Seq<char>, ExprV)>, x: Seq<char>, r: ExprV) -> Seq<(Seq<char>, ExprV)> {
    Seq::new(m.len(), |i: int| (m[i].0, subst(m[i].1, x, r)))
}

/// The expression bound to `k` in the argument map.
pub open spec fn map_get(m: Seq<(Seq<char>, ExprV)>, k: Seq<char>) -> Option<ExprV> {
    let i = key_index(m, k);
    if i < m.len() {
        Some(m[i].1)
    } else {
        None
    }
}

/// The arguments of the left-hand side: each parameter's expression in the
/// map, from the `i`-th parameter on.
pub open spec fn lhs_args(m: Seq<(Seq<char>, ExprV)>, params: Seq<(Seq<char>, BaseTypeV)>, i: int) -> Option<Seq<ExprV>>
    decreases params.len() - i,
{
    if i < 0 || i >= params.len() {
        Some(Seq::empty())
    } else {
        match (map_get(m, params[i].0), lhs_args(m, params, i + 1)) {
            (Some(a), Some(rest)) => Some(seq![a] + rest),
            _ => None,
        }
    }
}

/// The axiom of a leaf: `f(args) == leaf`, under the conjunction of the
/// guards if there is any, closed over the binders if there is any.
pub open spec fn leaf_axiom(
    leaf: ExprV,
    m: Seq<(Seq<char>, ExprV)>,
    bs: Seq<(Seq<char>, BaseTypeV)>,
    f: Seq<char>,
    params: Seq<(Seq<char>, BaseTypeV)>,
    guards: Seq<ExprV>,
) -> Option<ExprV> {
    match lhs_args(m, params, 0) {
        Some(args) => {
            let eq = ExprV::BinOp { op: BinOp::Eq, left: Box::new(ExprV::Call { func: f, args }), right: Box::new(leaf) };
            let body = if guards.len() == 0 {
                eq
            } else {
                ExprV::BinOp { op: BinOp::Implies, left: Box::new(and_tree(guards)), right: Box::new(eq) }
            };
            Some(if bs.len() == 0 { body } else { ExprV::Forall { binders: bs, body: Box::new(body) } })
        },
        None => None,
    }
}

/// The axioms of a body, branch by branch: a `match` on a variable splits
/// by its arms, the variable replaced by each pattern everywhere; an `if`
/// splits by its condition, which guards each side; a leaf gives its
/// equation. None where the body matches on something else than a variable,
/// on a variable that is not bound, with a pattern that is not a plain
/// constructor pattern, or where a parameter is missing from the map.
pub open spec fn body_axioms(
    e: ExprV,
    m: Seq<(Seq<char>, ExprV)>,
    bs: Seq<(Seq<char>, BaseTypeV)>,
    f: Seq<char>,
    params: Seq<(Seq<char>, BaseTypeV)>,
    guards: Seq<ExprV>,
) -> Option<Seq<ExprV>>
    decreases bdepth(e), 1int,
{
    match e {
        ExprV::Match { expr, arms } => match *expr {
            ExprV::Var(v) => {
                proof {
                    lemma_arms_depth_nonneg(arms, 0);
                }
                arm_axioms(v, arms, 0, m, bs, f, params, guards)
            },
            _ => None,
        },
        ExprV::If { cond, then_expr, else_expr } => {
            proof {
                lemma_bdepth_nonneg(*then_expr);
                lemma_bdepth_nonneg(*else_expr);
            }
            match (
                body_axioms(*then_expr, m, bs, f, params, guards.push(*cond)),
                body_axioms(*else_expr, m, bs, f, params, guards.push(ExprV::UnOp { op: UnOp::Not, expr: cond })),
            ) {
                (Some(a), Some(b)) => Some(a + b),
                _ => None,
            }
        },
        _ => match leaf_axiom(e, m, bs, f, params, guards) {
            Some(ax) => Some(seq![ax]),
            None => None,
        },
    }
}

/// The axioms of the arms of a `match` on `v`, from the `i`-th arm on.
pub open spec fn arm_axioms(
    v: Seq<char>,
    arms: Seq<(PatternV, ExprV)>,
    i: int,
    m: Seq<(Seq<char>, ExprV)>,
    bs: Seq<(Seq<char>, BaseTypeV)>,
    f: Seq<char>,
    params: Seq<(Seq<char>, BaseTypeV)>,
    guards: Seq<ExprV>,
) -> Option<Seq<ExprV>>
    decreases arms_depth(arms, i), 0int,
{
    if i < 0 || i >= arms.len() {
        Some(Seq::empty())
    } else if !expressible(arms[i].0) {
        None
    } else {
        let pe = pattern_expr(arms[i].0);
        match find_sort(bs, v) {
            Some(t) => match pat_binders(arms[i].0, t) {
                Some(nb) => {
                    proof {
                        lemma_pattern_expr_flat(arms[i].0);
                        lemma_bdepth_subst(arms[i].1, v, pe);
                        lemma_arm_below(arms, i, i);
                        lemma_arms_depth_nonneg(arms, i + 1);
                        lemma_bdepth_nonneg(arms[i].1);
                    }
                    match (
                        body_axioms(
                            subst(arms[i].1, v, pe),
                            assoc_insert(subst_values(m, v, pe), v, pe),
                            without(bs + nb, v),
                            f,
                            params,
                            subst_all(guards, v, pe),
                        ),
                        arm_axioms(v, arms, i + 1, m, bs, f, params, guards),
                    ) {
                        (Some(a), Some(b)) => Some(a + b),
                        _ => None,
                    }
                },
                None => None,
            },
            None => None,
        }
    }
}

/// The sort of the first binder named `x` (see [`find_sort`]).
fn find_binder_sort(bs: &Vec<(Ident, BaseType)>, x: &Ident) -> (r: Option<BaseType>)
    ensures
        find_sort(binders_view(bs@), x@) == match r {
            Some(t) => Some(t@),
            None => None,
        },
{
    let ghost bv = binders_view(bs@);
    let mut k: usize = 0;
    proof {
        assert(bv.skip(0) =~= bv);
    }
    while k < bs.len()
        invariant
            0 <= k <= bs@.len(),
            bv == binders_view(bs@),
            key_index(bv, x@) == k + key_index(bv.skip(k as int), x@),
        decreases bs@.len() - k,
    {
        proof {
            assert(bv.skip(k as int)[0] == bv[k as int]);
            assert(bv.skip(k as int).skip(1) =~= bv.skip(k + 1));
        }
        if bs[k].0.eq(x) {
            proof {
                assert(key_index(bv.skip(k as int), x@) == 0);
            }
            return Some(bs[k].1.deep_clone());
        }
        k = k + 1;
    }
    proof {
        assert(bv.skip(k as int).len() == 0);
    }
    None
}

/// The binders not named `x` (see [`without`]).
fn remove_named(bs: &Vec<(Ident, BaseType)>, x: &Ident) -> (r: Vec<(Ident, BaseType)>)
    ensures
        binders_view(r@) == without(binders_view(bs@), x@),
{
    let ghost bv = binders_view(bs@);
    let mut out: Vec<(Ident, BaseType)> = Vec::new();
    let mut i: usize = 0;
    proof {
        assert(bv.take(0) =~= Seq::<(Seq<char>, BaseTypeV)>::empty());
        assert(binders_view(out@) =~= Seq::<(Seq<char>, BaseTypeV)>::empty());
    }
    while i < bs.len()
        invariant
            0 <= i <= bs@.len(),
            bv == binders_view(bs@),
            binders_view(out@) == without(bv.take(i as int), x@),
        decreases bs@.len() - i,
    {
        proof {
            assert(bv.take(i + 1).drop_last() =~= bv.take(i as int));
            assert(bv.take(i + 1).last() == bv[i as int]);
        }
        if !bs[i].0.eq(x) {
            let ghost before = binders_view(out@);
            out.push((bs[i].0.clone(), bs[i].1.deep_clone()));
            proof {
                assert(binders_view(out@) =~= before.push(bv[i as int]));
            }
        }
        i = i + 1;
    }
    proof {
        assert(bv.take(i as int) =~= bv);
    }
    out
}

/// Each value of the argument map with `x` replaced (see [`subst_values`]).
fn subst_map(m: &Vec<(Ident, Expr)>, x: &Ident, rep: &Expr) -> (r: Vec<(Ident, Expr)>)
    ensures
        bindings_view(r@) == subst_values(bindings_view(m@), x@, rep@),
{
    let ghost mv = bindings_view(m@);
    let mut out: Vec<(Ident, Expr)> = Vec::new();
    let mut i: usize = 0;
    while i < m.len()
        invariant
            0 <= i <= m@.len(),
            mv == bindings_view(m@),
            bindings_view(out@) =~= subst_values(mv, x@, rep@).take(i as int),
        decreases m@.len() - i,
    {
        let ghost before = bindings_view(out@);
        let v = substitute_expr(&m[i].1, x, rep);
        out.push((m[i].0.clone(), v));
        proof {
            assert(bindings_view(out@) =~= before.push((mv[i as int].0, subst(mv[i as int].1, x@, rep@))));
        }
        i = i + 1;
    }
    out
}

/// Binds `k` to `v` in the argument map (see `assoc_insert`).
pub fn map_insert(m: &mut Vec<(Ident, Expr)>, k: Ident, v: Expr)
    ensures
        bindings_view(final(m)@) == assoc_insert(bindings_view(old(m)@), k@, v@),
{
    let ghost mv = bindings_view(m@);
    let ghost vv = v@;
    let mut i: usize = 0;
    proof {
        assert(mv.skip(0) =~= mv);
    }
    while i < m.len()
        invariant
            0 <= i <= m@.len(),
            mv == bindings_view(old(m)@),
            m@ == old(m)@,
            vv == v@,
            key_index(mv, k@) == i + key_index(mv.skip(i as int), k@),
        decreases m@.len() - i,
    {
        proof {
            assert(mv.skip(i as int)[0] == mv[i as int]);
            assert(mv.skip(i as int).skip(1) =~= mv.skip(i + 1));
        }
        if m[i].0.eq(&k) {
            proof {
                assert(key_index(mv.skip(i as int), k@) == 0);
            }
            m.set(i, (k, v));
            proof {
                assert(bindings_view(m@) =~= mv.update(i as int, (k@, vv)));
            }
            return;
        }
        i = i + 1;
    }
    proof {
        assert(mv.skip(i as int).len() == 0);
    }
    m.push((k, v));
    proof {
        assert(bindings_view(m@) =~= mv.push((k@, vv)));
    }
}

/// The expression bound to `k` in the argument map (see [`map_get`]).
fn map_lookup(m: &Vec<(Ident, Expr)>, k: &Ident) -> (r: Option<Expr>)
    ensures
        map_get(bindings_view(m@), k@) == match r {
            Some(e) => Some(e@),
            None => None,
        },
{
    let ghost mv = bindings_view(m@);
    let mut i: usize = 0;
    proof {
        assert(mv.skip(0) =~= mv);
    }
    while i < m.len()
        invariant
            0 <= i <= m@.len(),
            mv == bindings_view(m@),
            key_index(mv, k@) == i + key_index(mv.skip(i as int), k@),
        decreases m@.len() - i,
    {
        proof {
            assert(mv.skip(i as int)[0] == mv[i as int]);
            assert(mv.skip(i as int).skip(1) =~= mv.skip(i + 1));
        }
        if m[i].0.eq(k) {
            proof {
                assert(key_index(mv.skip(i as int), k@) == 0);
            }
            return Some(m[i].1.deep_clone());
        }
        i = i + 1;
    }
    proof {
        assert(mv.skip(i as int).len() == 0);
    }
    None
}

/// The axiom of a leaf (see [`leaf_axiom`]).
fn build_leaf_axiom(
    leaf: &Expr,
    m: &Vec<(Ident, Expr)>,
    bs: &Vec<(Ident, BaseType)>,
    f: &str,
    params: &Vec<(Ident, BaseType)>,
    guards: &Vec<Expr>,
) -> (r: Option<Expr>)
    ensures
        leaf_axiom(leaf@, bindings_view(m@), binders_view(bs@), f@, binders_view(params@), expr_views(guards@)) == match r {
            Some(a) => Some(a@),
            None => None,
        },
{
    let ghost mv = bindings_view(m@);
    let ghost pv = binders_view(params@);
    let mut args: Vec<Expr> = Vec::new();
    let mut i: usize = 0;
    proof {
        assert(expr_views(args@) + lhs_args(mv, pv, 0).unwrap_or(Seq::empty()) =~= lhs_args(mv, pv, 0).unwrap_or(Seq::empty()));
    }
    while i < params.len()
        invariant
            0 <= i <= params@.len(),
            mv == bindings_view(m@),
            pv == binders_view(params@),
            lhs_args(mv, pv, 0) is Some <==> lhs_args(mv, pv, i as int) is Some,
            lhs_args(mv, pv, 0) is Some ==> lhs_args(mv, pv, 0).unwrap() == expr_views(args@) + lhs_args(mv, pv, i as int).unwrap(),
        decreases params@.len() - i,
    {
        let ghost before = expr_views(args@);
        match map_lookup(m, &params[i].0) {
            Some(a) => {
                let ghost av = a@;
                args.push(a);
                proof {
                    assert(expr_views(args@) =~= before.push(av));
                    if lhs_args(mv, pv, i + 1) is Some {
                        assert(lhs_args(mv, pv, i as int).unwrap() == seq![av] + lhs_args(mv, pv, i + 1).unwrap());
                        assert(before + (seq![av] + lhs_args(mv, pv, i + 1).unwrap()) =~= expr_views(args@) + lhs_args(mv, pv, i + 1).unwrap());
                    }
                }
            },
            None => {
                proof {
                    assert(lhs_args(mv, pv, i as int) is None);
                }
                return None;
            },
        }
        i = i + 1;
    }
    proof {
        assert(lhs_args(mv, pv, i as int) == Some(Seq::<ExprV>::empty()));
        assert(expr_views(args@) + Seq::<ExprV>::empty() =~= expr_views(args@));
    }
    let ghost argv = expr_views(args@);
    let ghost lv = leaf@;
    let call = Expr::Call { func: String::from_str(f), args };
    proof {
        assert(call@ == ExprV::Call { func: f@, args: argv });
    }
    let lc = leaf.deep_clone();
    let eq = Expr::BinOp { op: BinOp::Eq, left: Box::new(call), right: Box::new(lc) };
    let ghost eqv = ExprV::BinOp { op: BinOp::Eq, left: Box::new(ExprV::Call { func: f@, args: argv }), right: Box::new(lv) };
    proof {
        assert(eq@ == eqv);
    }
    let body = if guards.len() == 0 {
        eq
    } else {
        let g = build_and_tree(clone_exprs(guards));
        let b = Expr::BinOp { op: BinOp::Implies, left: Box::new(g), right: Box::new(eq) };
        proof {
            assert(b@ == ExprV::BinOp { op: BinOp::Implies, left: Box::new(and_tree(expr_views(guards@))), right: Box::new(eqv) });
        }
        b
    };
    if bs.len() == 0 {
        Some(body)
    } else {
        let ghost bodyv = body@;
        let r = Expr::Forall { binders: clone_binders(bs), body: Box::new(body) };
        proof {
            assert(r@ == ExprV::Forall { binders: binders_view(bs@), body: Box::new(bodyv) });
        }
        Some(r)
    }
}

/// Appends the axioms of a body, branch by branch (see [`body_axioms`]);
/// false where they are not defined.
pub fn generate_axioms_from_body(
    expr: &Expr,
    args_map: &Vec<(Ident, Expr)>,
    binders: &Vec<(Ident, BaseType)>,
    func_name: &str,
    params: &Vec<(Ident, BaseType)>,
    guards: &Vec<Expr>,
    out: &mut Vec<Expr>,
) -> (r: bool)
    ensures
        r == body_axioms(expr@, bindings_view(args_map@), binders_view(binders@), func_name@, binders_view(params@), expr_views(guards@)) is Some,
        r ==> expr_views(final(out)@) == expr_views(old(out)@) + body_axioms(
            expr@,
            bindings_view(args_map@),
            binders_view(binders@),
            func_name@,
            binders_view(params@),
            expr_views(guards@),
        ).unwrap(),
    decreases bdepth(expr@), 1int,
{
    let ghost before = expr_views(out@);
    match expr {
        Expr::Match { expr: target, arms } => {
            proof {
                assert(expr@ == ExprV::Match { expr: Box::new((**target)@), arms: arms_view(arms@) });
                lemma_arms_depth_nonneg(arms_view(arms@), 0);
            }
            match &**target {
                Expr::Var(v) => {
                    proof {
                        assert((**target)@ == ExprV::Var(v@));
                    }
                    generate_arm_axioms(v, arms, args_map, binders, func_name, params, guards, out)
                },
                _ => {
                    proof {
                        assert(!((**target)@ is Var));
                    }
                    false
                },
            }
        },
        Expr::If { cond, then_expr, else_expr } => {
            proof {
                assert(expr@ == ExprV::If {
                    cond: Box::new((**cond)@),
                    then_expr: Box::new((**then_expr)@),
                    else_expr: Box::new((**else_expr)@),
                });
                lemma_bdepth_nonneg((**then_expr)@);
                lemma_bdepth_nonneg((**else_expr)@);
            }
            let mut then_guards = clone_exprs(guards);
            let ghost gv = expr_views(then_guards@);
            then_guards.push(cond.deep_clone());
            proof {
                assert(expr_views(then_guards@) =~= gv.push((**cond)@));
            }
            if !generate_axioms_from_body(then_expr, args_map, binders, func_name, params, &then_guards, out) {
                return false;
            }
            let ghost mid = expr_views(out@);
            let mut else_guards = clone_exprs(guards);
            let negated = Expr::UnOp { op: UnOp::Not, expr: Box::new(cond.deep_clone()) };
            else_guards.push(negated);
            proof {
                assert(expr_views(else_guards@) =~= gv.push(ExprV::UnOp { op: UnOp::Not, expr: Box::new((**cond)@) }));
            }
            if !generate_axioms_from_body(else_expr, args_map, binders, func_name, params, &else_guards, out) {
                return false;
            }
            proof {
                let a = body_axioms((**then_expr)@, bindings_view(args_map@), binders_view(binders@), func_name@, binders_view(params@),
                    gv.push((**cond)@)).unwrap();
                let b = body_axioms((**else_expr)@, bindings_view(args_map@), binders_view(binders@), func_name@, binders_view(params@),
                    gv.push(ExprV::UnOp { op: UnOp::Not, expr: Box::new((**cond)@) })).unwrap();
                assert(expr_views(out@) =~= before + (a + b));
            }
            true
        },
        _ => {
            proof {
                assert(!(expr@ is Match) && !(expr@ is If));
            }
            match build_leaf_axiom(expr, args_map, binders, func_name, params, guards) {
                Some(ax) => {
                    let ghost av = ax@;
                    out.push(ax);
                    proof {
                        assert(expr_views(out@) =~= before + seq![av]);
                    }
                    true
                },
                None => false,
            }
        },
    }
}

/// The axioms of the arms of a `match` on `v` (see [`arm_axioms`]).
fn generate_arm_axioms(
    v: &Ident,
    arms: &Vec<(Pattern, Expr)>,
    args_map: &Vec<(Ident, Expr)>,
    binders: &Vec<(Ident, BaseType)>,
    func_name: &str,
    params: &Vec<(Ident, BaseType)>,
    guards: &Vec<Expr>,
    out: &mut Vec<Expr>,
) -> (r: bool)
    ensures
        r == arm_axioms(v@, arms_view(arms@), 0, bindings_view(args_map@), binders_view(binders@), func_name@, binders_view(params@),
            expr_views(guards@)) is Some,
        r ==> expr_views(final(out)@) == expr_views(old(out)@) + arm_axioms(
            v@,
            arms_view(arms@),
            0,
            bindings_view(args_map@),
            binders_view(binders@),
            func_name@,
            binders_view(params@),
            expr_views(guards@),
        ).unwrap(),
    decreases arms_depth(arms_view(arms@), 0), 0int,
{
    let ghost av = arms_view(arms@);
    let ghost mv = bindings_view(args_map@);
    let ghost bv = binders_view(binders@);
    let ghost pv = binders_view(params@);
    let ghost gv = expr_views(guards@);
    let ghost start = expr_views(out@);
    let ghost goal = arm_axioms(v@, av, 0, mv, bv, func_name@, pv, gv);
    let mut i: usize = 0;
    proof {
        assert(expr_views(out@).skip(start.len() as int) =~= Seq::<ExprV>::empty());
        if goal is Some {
            assert(goal.unwrap() =~= Seq::<ExprV>::empty() + goal.unwrap());
        }
    }
    while i < arms.len()
        invariant
            0 <= i <= arms@.len(),
            av == arms_view(arms@),
            mv == bindings_view(args_map@),
            bv == binders_view(binders@),
            pv == binders_view(params@),
            gv == expr_views(guards@),
            start == expr_views(old(out)@),
            goal == arm_axioms(v@, av, 0, mv, bv, func_name@, pv, gv),
            goal is Some <==> arm_axioms(v@, av, i as int, mv, bv, func_name@, pv, gv) is Some,
            goal is Some ==> goal.unwrap() == expr_views(out@).skip(start.len() as int) + arm_axioms(v@, av, i as int, mv, bv, func_name@,
                pv, gv).unwrap(),
            expr_views(out@).len() >= start.len(),
            expr_views(out@).take(start.len() as int) == start,
        decreases arms@.len() - i,
    {
        let ghost before = expr_views(out@);
        proof {
            assert(av[i as int] == (arms@[i as int].0@, arms@[i as int].1@));
        }
        let pat = &arms[i].0;
        if !is_expressible(pat) {
            return false;
        }
        let pe = pattern_to_expr(pat);
        let t = match find_binder_sort(binders, v) {
            Some(t) => t,
            None => return false,
        };
        let mut nb = clone_binders(binders);
        if !extract_pat_binders(pat, &t, &mut nb) {
            return false;
        }
        let new_binders = remove_named(&nb, v);
        let mut new_map = subst_map(args_map, v, &pe);
        map_insert(&mut new_map, v.clone(), pe.deep_clone());
        let body = substitute_expr(&arms[i].1, v, &pe);
        let mut new_guards: Vec<Expr> = Vec::new();
        let mut k: usize = 0;
        while k < guards.len()
            invariant
                0 <= k <= guards@.len(),
                gv == expr_views(guards@),
                expr_views(new_guards@) =~= subst_all(gv, v@, pe@).take(k as int),
            decreases guards@.len() - k,
        {
            let ghost gb = expr_views(new_guards@);
            new_guards.push(substitute_expr(&guards[k], v, &pe));
            proof {
                assert(expr_views(new_guards@) =~= gb.push(subst(gv[k as int], v@, pe@)));
            }
            k = k + 1;
        }
        proof {
            lemma_pattern_expr_flat(av[i as int].0);
            lemma_bdepth_subst(av[i as int].1, v@, pe@);
            lemma_arm_below(av, 0, i as int);
            lemma_bdepth_nonneg(body@);
            assert(expr_views(new_guards@) =~= subst_all(gv, v@, pe@));
        }
        if !generate_axioms_from_body(&body, &new_map, &new_binders, func_name, params, &new_guards, out) {
            return false;
        }
        proof {
            let a = body_axioms(subst(av[i as int].1, v@, pe@), assoc_insert(subst_values(mv, v@, pe@), v@, pe@), without(bv
                + pat_binders(av[i as int].0, t@).unwrap(), v@), func_name@, pv, subst_all(gv, v@, pe@)).unwrap();
            assert(expr_views(out@) == before + a);
            assert(expr_views(out@).take(start.len() as int) =~= before.take(start.len() as int));
            if arm_axioms(v@, av, i + 1, mv, bv, func_name@, pv, gv) is Some {
                let b = arm_axioms(v@, av, i + 1, mv, bv, func_name@, pv, gv).unwrap();
                assert(arm_axioms(v@, av, i as int, mv, bv, func_name@, pv, gv).unwrap() == a + b);
                assert(expr_views(out@).skip(start.len() as int) =~= before.skip(start.len() as int) + a);
            }
        }
        i = i + 1;
    }
    proof {
        assert(arm_axioms(v@, av, i as int, mv, bv, func_name@, pv, gv) == Some(Seq::<ExprV>::empty()));
        assert(expr_views(out@) =~= start + expr_views(out@).skip(start.len() as int));
    }
    true
}

} // verus!
