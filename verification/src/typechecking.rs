//! Helpers of the bidirectional refinement type checker: patterns as
//! expressions, the predicate of a type said of a variable, substitution in
//! types, and the binding of pattern variables in the environment.

use vstd::prelude::*;
use crate::ast::{BaseType, BaseTypeV, BinOp, Expr, ExprV, FunType, FunctionDef, Ident, Pattern, PatternV, RefinedType, SubGoal, Type, TypeV, UnOp,
    arms_view, base_views, expr_views, pattern_views};
use crate::auto_inst::{collect_ground_terms, contains_expr};
use crate::env::{TypeEnv, lookup_in, substitute_expr};
use crate::relabs::{has_sep, sig_index, sigs_view};
use crate::text::{before_first_sep, enum_name};
use crate::typing::{Checking, TypeShape, lemma_subtype_shape, shape, base_and_pred, base_of_type, callee_type, check, check_arms, let_bind, synth, synth_args, synth_bases, synth_each, var_occurrence,
    var_type, base_subtype, bind_var, merge_new, open_scope, subgoal_of, subtype, with_condition, bind_fields, bind_pattern, expressible, freshened, lemma_subst_type_size, pattern_expr,
    pattern_exprs, selfified, subst_type, type_size};

verus! {

broadcast use vstd::std_specs::vec::group_vec_axioms, crate::ast::group_ast_views;

/// Whether a pattern can be read as an expression (see [`expressible`]).
pub fn is_expressible(pat: &Pattern) -> (r: bool)
    ensures
        r == expressible(pat@),
    decreases pat,
{
    match pat {
        Pattern::Wildcard => {
            proof {
                assert(pat@ == PatternV::Wildcard);
            }
            false
        },
        Pattern::Ident(name) => {
            proof {
                assert(pat@ == PatternV::Ident(name@));
            }
            true
        },
        Pattern::Constructor { name, args, arg_types } => {
            proof {
                assert(decreases_to!(*pat => (*pat)->args));
                assert(pat@->args == pattern_views(args@));
            }
            let r = all_expressible(args);
            proof {
                let pv = pattern_views(args@);
                if r {
                    assert forall|i: int| 0 <= i < pv.len() implies expressible(#[trigger] pat@->args[i]) by {
                        assert(expressible(pv[i]));
                    }
                } else {
                    let k = choose|k: int| 0 <= k < pv.len() && !expressible(#[trigger] pv[k]);
                    assert(!expressible(pat@->args[k]));
                }
            }
            r
        },
        Pattern::Tuple(elems) => {
            proof {
                assert(decreases_to!(*pat => (*pat)->Tuple_0));
                assert(pat@ == PatternV::Tuple(pattern_views(elems@)));
            }
            let r = all_expressible(elems);
            proof {
                let pv = pattern_views(elems@);
                if r {
                    assert forall|i: int| 0 <= i < pv.len() implies expressible(#[trigger] pat@->Tuple_0[i]) by {
                        assert(expressible(pv[i]));
                    }
                } else {
                    let k = choose|k: int| 0 <= k < pv.len() && !expressible(#[trigger] pv[k]);
                    assert(!expressible(pat@->Tuple_0[k]));
                }
            }
            r
        },
    }
}

/// Whether each pattern of a list can be read as an expression.
fn all_expressible(ps: &Vec<Pattern>) -> (r: bool)
    ensures
        r == forall|k: int| 0 <= k < ps@.len() ==> expressible(#[trigger] pattern_views(ps@)[k]),
    decreases ps,
{
    let mut i: usize = 0;
    while i < ps.len()
        invariant
            0 <= i <= ps@.len(),
            forall|k: int| 0 <= k < i ==> expressible(#[trigger] pattern_views(ps@)[k]),
        decreases ps@.len() - i,
    {
        proof {
            assert(decreases_to!(*ps => ps@));
            assert(decreases_to!(ps@ => ps@[i as int]));
        }
        if !is_expressible(&ps[i]) {
            proof {
                assert(!expressible(pattern_views(ps@)[i as int]));
            }
            return false;
        }
        i = i + 1;
    }
    true
}

/// [`pattern_to_expr`] on each pattern of a list.
fn patterns_to_exprs(ps: &Vec<Pattern>) -> (r: Vec<Expr>)
    requires
        forall|i: int| 0 <= i < ps@.len() ==> expressible(#[trigger] ps@[i]@),
    ensures
        expr_views(r@) == pattern_exprs(crate::ast::pattern_views(ps@)),
    decreases ps,
{
    let ghost pv = crate::ast::pattern_views(ps@);
    let mut out: Vec<Expr> = Vec::new();
    let mut i: usize = 0;
    while i < ps.len()
        invariant
            0 <= i <= ps@.len(),
            pv == crate::ast::pattern_views(ps@),
            forall|k: int| 0 <= k < ps@.len() ==> expressible(#[trigger] ps@[k]@),
            out@.len() == i,
            forall|k: int| 0 <= k < i ==> #[trigger] out@[k]@ == pattern_expr(pv[k]),
        decreases ps@.len() - i,
    {
        proof {
            assert(decreases_to!(*ps => ps@));
            assert(decreases_to!(ps@ => ps@[i as int]));
        }
        out.push(pattern_to_expr(&ps[i]));
        i = i + 1;
    }
    proof {
        assert(expr_views(out@) =~= pattern_exprs(pv));
    }
    out
}

/// The expression a pattern matches.
pub fn pattern_to_expr(pat: &Pattern) -> (r: Expr)
    requires
        expressible(pat@),
    ensures
        r@ == pattern_expr(pat@),
    decreases pat,
{
    match pat {
        Pattern::Ident(name) => Expr::Var(name.clone()),
        Pattern::Constructor { name, args, arg_types } => {
            proof {
                assert(pat@ == PatternV::Constructor {
                    name: name@,
                    args: crate::ast::pattern_views(args@),
                    arg_types: match *arg_types {
                        Some(ts) => Some(crate::ast::base_views(ts@)),
                        None => None,
                    },
                });
                assert(decreases_to!(*pat => (*pat)->args));
                assert forall|k: int| 0 <= k < args@.len() implies expressible(#[trigger] args@[k]@) by {
                    assert(pat@->args[k] == args@[k]@);
                }
            }
            let xs = patterns_to_exprs(args);
            Expr::Constructor { name: name.clone(), args: xs }
        },
        Pattern::Tuple(elems) => {
            proof {
                assert(pat@ == PatternV::Tuple(crate::ast::pattern_views(elems@)));
                assert(decreases_to!(*pat => (*pat)->Tuple_0));
                assert forall|k: int| 0 <= k < elems@.len() implies expressible(#[trigger] elems@[k]@) by {
                    assert(pat@->Tuple_0[k] == elems@[k]@);
                }
            }
            Expr::Tuple(patterns_to_exprs(elems))
        },
        Pattern::Wildcard => {
            proof {
                assert(false);
            }
            Expr::BoolConst(true)
        },
    }
}

/// The equation `target == pattern`, the pattern read as an expression.
pub fn build_pattern_eq_expr(target: &Expr, pat: &Pattern) -> (r: Expr)
    requires
        expressible(pat@),
    ensures
        r@ == (ExprV::BinOp { op: BinOp::Eq, left: Box::new(target@), right: Box::new(pattern_expr(pat@)) }),
{
    Expr::BinOp { op: BinOp::Eq, left: Box::new(target.deep_clone()), right: Box::new(pattern_to_expr(pat)) }
}

/// The base of a type and its predicate said of the variable `target_var_name`.
pub fn extract_base_and_pred(ty: &Type, target_var_name: &str) -> (r: (BaseType, Expr))
    requires
        !(ty@ is Arrow),
    ensures
        (r.0@, r.1@) == base_and_pred(ty@, target_var_name@),
{
    match ty {
        Type::Base(b) => (b.deep_clone(), Expr::BoolConst(true)),
        Type::Refined(r) => {
            let v = Expr::Var(String::from_str(target_var_name));
            (r.base.deep_clone(), substitute_expr(&r.predicate, &r.bound_var, &v))
        },
        Type::Arrow(_) => {
            proof {
                assert(false);
            }
            (BaseType::Unit, Expr::BoolConst(true))
        },
    }
}

/// Substitutes `replacement` for the variable `target_var` in a type.
pub fn substitute_expr_in_type(ty: &Type, target_var: &str, replacement: &Expr) -> (r: Type)
    ensures
        r@ == subst_type(ty@, target_var@, replacement@),
    decreases ty,
{
    let x = String::from_str(target_var);
    match ty {
        Type::Base(b) => Type::Base(b.deep_clone()),
        Type::Refined(r) => {
            if r.bound_var.eq(&x) {
                ty.deep_clone()
            } else {
                Type::Refined(RefinedType {
                    bound_var: r.bound_var.clone(),
                    base: r.base.deep_clone(),
                    predicate: substitute_expr(&r.predicate, &x, replacement),
                })
            }
        },
        Type::Arrow(f) => {
            if f.param_name.eq(&x) {
                ty.deep_clone()
            } else {
                Type::Arrow(FunType {
                    param_name: f.param_name.clone(),
                    param_type: Box::new(substitute_expr_in_type(&f.param_type, target_var, replacement)),
                    ret_type: Box::new(substitute_expr_in_type(&f.ret_type, target_var, replacement)),
                })
            }
        },
    }
}

/// The type `{ v: Bool | v == e }`.
fn selfified_bool(e: Expr) -> (r: Type)
    ensures
        r@ == selfified(e@),
{
    let ghost ev = e@;
    let v1 = String::from_str("v");
    let v2 = String::from_str("v");
    let left = Expr::Var(v2);
    proof {
        assert(v2@ == "v"@);
        assert(left@ == ExprV::Var("v"@));
    }
    let pred = Expr::BinOp { op: BinOp::Eq, left: Box::new(left), right: Box::new(e) };
    proof {
        assert(pred@ == ExprV::BinOp { op: BinOp::Eq, left: Box::new(ExprV::Var("v"@)), right: Box::new(ev) });
    }
    let r = Type::Refined(RefinedType { bound_var: v1, base: BaseType::Bool, predicate: pred });
    proof {
        assert(r@ == TypeV::Refined { bound_var: "v"@, base: BaseTypeV::Bool, predicate: pred@ });
    }
    r
}

/// The base of a base or refined type; none for an arrow.
fn base_of(ty: &Type) -> (r: Option<BaseType>)
    ensures
        base_of_type(ty@) == match r {
            Some(b) => Some(b@),
            None => None,
        },
{
    match ty {
        Type::Base(b) => Some(b.deep_clone()),
        Type::Refined(r) => Some(r.base.deep_clone()),
        Type::Arrow(_) => None,
    }
}

/// The views of verification conditions with their hints.
pub open spec fn subgoals_view(s: Seq<SubGoal>) -> Seq<(ExprV, Seq<ExprV>)> {
    Seq::new(s.len(), |i: int| (s[i].property@, expr_views(s[i].instantiations@)))
}

/// The state of a run of the checker: the environment and the conditions so far.
pub open spec fn checking_of(env: TypeEnv, vcs: Seq<SubGoal>) -> Checking {
    Checking { scopes: env.scopes(), counter: env.counter(), vcs: subgoals_view(vcs) }
}

/// Binds the variables of a pattern matched against a value of type `ty`
/// (see [`bind_pattern`]).
pub fn bind_pattern_vars(env: &mut TypeEnv, pat: &Pattern, ty: &Type) -> (r: bool)
    requires
        old(env).wf(),
    ensures
        final(env).wf(),
        final(env).counter() == old(env).counter(),
        r == bind_pattern(old(env).scopes(), pat@, ty@) is Some,
        r ==> Some(final(env).scopes()) == bind_pattern(old(env).scopes(), pat@, ty@),
    decreases pat,
{
    match pat {
        Pattern::Wildcard => true,
        Pattern::Ident(name) => {
            env.insert_var(name.clone(), ty.deep_clone());
            true
        },
        Pattern::Tuple(ps) => {
            proof {
                assert(pat@ == PatternV::Tuple(pattern_views(ps@)));
                assert(decreases_to!(*pat => (*pat)->Tuple_0));
            }
            match ty {
                Type::Base(BaseType::Tuple(ts)) => {
                    proof {
                        assert(ty@ == TypeV::Base(BaseTypeV::Tuple(base_views(ts@))));
                    }
                    bind_field_vars(env, ps, ts)
                },
                Type::Refined(r) => match &r.base {
                    BaseType::Tuple(ts) => {
                        proof {
                            assert(r.base@ == BaseTypeV::Tuple(base_views(ts@)));
                        }
                        bind_field_vars(env, ps, ts)
                    },
                    _ => false,
                },
                _ => false,
            }
        },
        Pattern::Constructor { name, args, arg_types } => {
            proof {
                assert(decreases_to!(*pat => (*pat)->args));
            }
            match arg_types {
                Some(fts) => {
                    proof {
                        assert(pat@ == PatternV::Constructor {
                            name: name@,
                            args: pattern_views(args@),
                            arg_types: Some(base_views(fts@)),
                        });
                    }
                    bind_field_vars(env, args, fts)
                },
                None => false,
            }
        },
    }
}

/// [`bind_pattern_vars`] on each pattern of `ps` at the sort of the same
/// position of `ts`, as far as both go (see [`bind_fields`]).
fn bind_field_vars(env: &mut TypeEnv, ps: &Vec<Pattern>, ts: &Vec<BaseType>) -> (r: bool)
    requires
        old(env).wf(),
    ensures
        final(env).wf(),
        final(env).counter() == old(env).counter(),
        r == bind_fields(old(env).scopes(), pattern_views(ps@), base_views(ts@), 0) is Some,
        r ==> Some(final(env).scopes()) == bind_fields(old(env).scopes(), pattern_views(ps@), base_views(ts@), 0),
    decreases ps,
{
    let ghost pv = pattern_views(ps@);
    let ghost tv = base_views(ts@);
    let ghost goal = bind_fields(env.scopes(), pv, tv, 0);
    let mut i: usize = 0;
    while i < ps.len() && i < ts.len()
        invariant
            env.wf(),
            env.counter() == old(env).counter(),
            pv == pattern_views(ps@),
            tv == base_views(ts@),
            0 <= i <= ps@.len(),
            goal == bind_fields(env.scopes(), pv, tv, i as int),
            goal == bind_fields(old(env).scopes(), pv, tv, 0),
        decreases ps@.len() - i,
    {
        proof {
            assert(decreases_to!(*ps => ps@));
            assert(decreases_to!(ps@ => ps@[i as int]));
        }
        let t = Type::Base(ts[i].deep_clone());
        let ghost sc = env.scopes();
        proof {
            assert(t@ == TypeV::Base(tv[i as int]));
        }
        if !bind_pattern_vars(env, &ps[i], &t) {
            proof {
                assert(bind_fields(sc, pv, tv, i as int) is None);
            }
            return false;
        }
        i = i + 1;
    }
    true
}

/// Renames every parameter of a signature to a fresh name (see [`freshened`]),
/// so that putting actual arguments for the parameters can never capture a
/// name the caller uses.
fn freshen_params(env: &mut TypeEnv, ty: Type) -> (r: Option<Type>)
    requires
        old(env).wf(),
    ensures
        final(env).wf(),
        final(env).scopes() == old(env).scopes(),
        match r {
            Some(t) => freshened(old(env).counter(), ty@) == Some((final(env).counter(), t@)),
            None => freshened(old(env).counter(), ty@) is None,
        },
    decreases type_size(ty@),
{
    match ty {
        Type::Arrow(f) => {
            let ghost pv = f.param_name@;
            if env.at_capacity() {
                return None;
            }
            let fresh = env.fresh("_arg");
            let renamed = substitute_expr_in_type(&f.ret_type, f.param_name.as_str(), &Expr::Var(fresh.clone()));
            proof {
                lemma_subst_type_size((*f.ret_type)@, pv, ExprV::Var(fresh@));
            }
            let rest = match freshen_params(env, renamed) {
                Some(t) => t,
                None => return None,
            };
            Some(Type::Arrow(FunType { param_name: fresh, param_type: f.param_type, ret_type: Box::new(rest) }))
        },
        other => Some(other),
    }
}

/// `acc` followed by each term of `terms` that is not in it yet, in order
/// (see [`merge_new`]).
fn merge_hints(acc: &mut Vec<Expr>, terms: &Vec<Expr>)
    ensures
        expr_views(final(acc)@) == merge_new(expr_views(old(acc)@), expr_views(terms@)),
{
    let ghost tv = expr_views(terms@);
    let ghost goal = merge_new(expr_views(acc@), tv);
    let mut i: usize = 0;
    proof {
        assert(tv.skip(0) =~= tv);
    }
    while i < terms.len()
        invariant
            0 <= i <= terms@.len(),
            tv == expr_views(terms@),
            goal == merge_new(expr_views(acc@), tv.skip(i as int)),
        decreases terms@.len() - i,
    {
        let ghost before = expr_views(acc@);
        proof {
            assert(tv.skip(i as int)[0] == terms@[i as int]@);
            assert(tv.skip(i as int).skip(1) =~= tv.skip(i + 1));
        }
        if !contains_expr(acc, &terms[i]) {
            acc.push(terms[i].deep_clone());
            proof {
                assert(expr_views(acc@) =~= before.push(terms@[i as int]@));
            }
        }
        i = i + 1;
    }
    proof {
        assert(tv.skip(i as int).len() == 0);
    }
}

/// The verification condition of `inferred <: expected` on base or refined
/// types (see [`base_subtype`]).
fn base_subtyping_vc(env: &mut TypeEnv, inferred: &Type, expected: &Type, vcs: &mut Vec<SubGoal>) -> (r: bool)
    requires
        old(env).wf(),
        !(inferred@ is Arrow),
        !(expected@ is Arrow),
    ensures
        final(env).wf(),
        r == base_subtype(checking_of(*old(env), old(vcs)@), inferred@, expected@) is Some,
        r ==> base_subtype(checking_of(*old(env), old(vcs)@), inferred@, expected@) == Some(checking_of(*final(env), final(vcs)@)),
{
    let (bi, pi) = extract_base_and_pred(inferred, "v_sub");
    let (be, pe) = extract_base_and_pred(expected, "v_sub");
    if !bi.same(&be) {
        return false;
    }
    let is_true = match &pe {
        Expr::BoolConst(b) => *b,
        _ => false,
    };
    if is_true {
        proof {
            assert(pe@ == ExprV::BoolConst(true));
        }
        return true;
    }
    proof {
        assert(pe@ != ExprV::BoolConst(true));
    }
    let ghost c0 = checking_of(*env, vcs@);
    env.push_scope();
    let bound = Type::Base(bi);
    env.insert_var(String::from_str("v_sub"), bound);
    env.add_path_condition(pi);
    let ghost c1 = checking_of(*env, vcs@);
    proof {
        assert(c1 == with_condition(bind_var(open_scope(c0), "v_sub"@, TypeV::Base(bi@)), pi@));
    }
    let vc = env.build_implication(pe.deep_clone());
    let mut all_insts = env.get_active_instantiations();
    let context_expr = env.to_logical_context();
    let mut auto = collect_ground_terms(&context_expr);
    let mut more = collect_ground_terms(&pe);
    let ghost av = expr_views(auto@);
    let ghost mv = expr_views(more@);
    auto.append(&mut more);
    proof {
        assert(expr_views(auto@) =~= av + mv);
    }
    merge_hints(&mut all_insts, &auto);
    let ghost old_vcs = vcs@;
    let sg = SubGoal { property: vc, instantiations: all_insts };
    vcs.push(sg);
    proof {
        assert((sg.property@, expr_views(sg.instantiations@)) == subgoal_of(c1.scopes, pe@));
        assert(subgoals_view(vcs@) =~= subgoals_view(old_vcs).push(subgoal_of(c1.scopes, pe@)));
    }
    env.pop_scope();
    true
}

/// Checks that `inferred` is a subtype of `expected`, emitting the
/// verification conditions that this takes (see [`subtype`]). The result
/// is `false` exactly where [`subtype`] has no answer: where the two types
/// differ in [`shape`], an arrow against a base type or the other way
/// round, or two leaves whose base sorts differ.
fn subtyping_vc(env: &mut TypeEnv, inferred: &Type, expected: &Type, vcs: &mut Vec<SubGoal>) -> (r: bool)
    requires
        old(env).wf(),
    ensures
        final(env).wf(),
        r == subtype(checking_of(*old(env), old(vcs)@), inferred@, expected@) is Some,
        r == (shape(inferred@) == shape(expected@)),
        r ==> subtype(checking_of(*old(env), old(vcs)@), inferred@, expected@) == Some(checking_of(*final(env), final(vcs)@)),
    decreases type_size(inferred@) + type_size(expected@),
{
    proof {
        lemma_subtype_shape(checking_of(*env, vcs@), inferred@, expected@);
    }
    match inferred {
        Type::Arrow(fi) => match expected {
            Type::Arrow(fe) => {
                let ghost c0 = checking_of(*env, vcs@);
                if !subtyping_vc(env, &fe.param_type, &fi.param_type, vcs) {
                    return false;
                }
                let ghost c1 = checking_of(*env, vcs@);
                env.push_scope();
                env.insert_var(fe.param_name.clone(), fe.param_type.deep_clone());
                let ghost c2 = checking_of(*env, vcs@);
                proof {
                    assert(c2 == bind_var(open_scope(c1), fe.param_name@, (*fe.param_type)@));
                }
                let unified = substitute_expr_in_type(&fi.ret_type, fi.param_name.as_str(), &Expr::Var(fe.param_name.clone()));
                proof {
                    lemma_subst_type_size((*fi.ret_type)@, fi.param_name@, ExprV::Var(fe.param_name@));
                }
                if !subtyping_vc(env, &unified, &fe.ret_type, vcs) {
                    return false;
                }
                env.pop_scope();
                true
            },
            _ => false,
        },
        _ => match expected {
            Type::Arrow(_) => false,
            _ => base_subtyping_vc(env, inferred, expected, vcs),
        },
    }
}

/// The type of a name called as a function: from the environment, else from
/// the signatures of the program (see [`callee_type`]).
fn lookup_callee(env: &TypeEnv, name: &Ident, global_specs: &Vec<(Ident, FunctionDef)>) -> (r: Option<Type>)
    requires
        env.wf(),
    ensures
        callee_type(env.scopes(), sigs_view(global_specs@), name@) == match r {
            Some(t) => Some(t@),
            None => None,
        },
{
    match env.lookup_var(name) {
        Some(t) => Some(t.deep_clone()),
        None => {
            let ghost sigs = sigs_view(global_specs@);
            let mut k: usize = 0;
            proof {
                assert(sigs.skip(0) =~= sigs);
            }
            while k < global_specs.len()
                invariant
                    0 <= k <= global_specs@.len(),
                    sigs == sigs_view(global_specs@),
                    sig_index(sigs, name@) == k + sig_index(sigs.skip(k as int), name@),
                    lookup_in(env.scopes(), name@, env.scopes().len() as int) is None,
                decreases global_specs@.len() - k,
            {
                proof {
                    assert(sigs.skip(k as int)[0] == sigs[k as int]);
                    assert(sigs.skip(k as int).skip(1) =~= sigs.skip(k + 1));
                }
                if global_specs[k].0.eq(name) {
                    proof {
                        assert(sigs[k as int].0 == name@);
                        assert(sig_index(sigs.skip(k as int), name@) == 0);
                        assert(sigs[k as int].1 == global_specs@[k as int].1.signature@);
                    }
                    return Some(global_specs[k].1.signature.deep_clone());
                }
                k = k + 1;
            }
            proof {
                assert(sigs.skip(k as int).len() == 0);
            }
            None
        },
    }
}

/// The type of a variable occurrence (see [`var_type`] and [`var_occurrence`]).
fn synth_var(env: &TypeEnv, name: &Ident, global_specs: &Vec<(Ident, FunctionDef)>) -> (r: Option<Type>)
    requires
        env.wf(),
    ensures
        match r {
            Some(t) => var_type(env.scopes(), sigs_view(global_specs@), name@) is Some && t@ == var_occurrence(
                name@,
                var_type(env.scopes(), sigs_view(global_specs@), name@).unwrap(),
            ),
            None => var_type(env.scopes(), sigs_view(global_specs@), name@) is None,
        },
{
    let t = match lookup_callee(env, name, global_specs) {
        Some(t) => t,
        None => {
            if has_sep(name.as_str()) {
                Type::Base(BaseType::Custom(enum_name(name.as_str())))
            } else {
                return None;
            }
        },
    };
    match base_of(&t) {
        Some(b) => {
            let ghost bv = b@;
            let left = Expr::Var(String::from_str("v"));
            let right = Expr::Var(name.clone());
            let pred = Expr::BinOp { op: BinOp::Eq, left: Box::new(left), right: Box::new(right) };
            proof {
                assert(left@ == ExprV::Var("v"@));
                assert(right@ == ExprV::Var(name@));
                assert(pred@ == ExprV::BinOp { op: BinOp::Eq, left: Box::new(ExprV::Var("v"@)), right: Box::new(ExprV::Var(name@)) });
            }
            let r = Type::Refined(RefinedType { bound_var: String::from_str("v"), base: b, predicate: pred });
            proof {
                assert(r@ == TypeV::Refined { bound_var: "v"@, base: bv, predicate: pred@ });
            }
            Some(r)
        },
        None => Some(t),
    }
}

/// Synthesis: the type of an expression in program position, bottom-up,
/// with the verification conditions its calls need (see [`synth`]).
pub fn synthesize_expr(
    env: &mut TypeEnv,
    expr: &Expr,
    global_specs: &Vec<(Ident, FunctionDef)>,
    vcs: &mut Vec<SubGoal>,
) -> (r: Option<Type>)
    requires
        old(env).wf(),
    ensures
        final(env).wf(),
        match r {
            Some(t) => synth(checking_of(*old(env), old(vcs)@), expr@, sigs_view(global_specs@)) == Some(
                (checking_of(*final(env), final(vcs)@), t@),
            ),
            None => synth(checking_of(*old(env), old(vcs)@), expr@, sigs_view(global_specs@)) is None,
        },
    decreases expr, 2int, 0int,
{
    match expr {
        Expr::BoolConst(b) => Some(selfified_bool(Expr::BoolConst(*b))),
        Expr::Var(name) => synth_var(env, name, global_specs),
        Expr::Let { .. } => synth_let(env, expr, global_specs, vcs),
        Expr::If { .. } => synth_if(env, expr, global_specs, vcs),
        Expr::Call { .. } => synth_call(env, expr, global_specs, vcs),
        Expr::Constructor { .. } => synth_constructor(env, expr, global_specs, vcs),
        Expr::Tuple(_) => synth_tuple(env, expr, global_specs, vcs),
        Expr::Instantiate(inner) => {
            proof {
                assert(decreases_to!(*expr => *(*expr)->Instantiate_0));
            }
            if synthesize_expr(env, inner, global_specs, vcs).is_none() {
                return None;
            }
            env.add_instantiation(inner.deep_clone());
            Some(Type::Base(BaseType::Unit))
        },
        Expr::UnOp { .. } | Expr::BinOp { .. } => synth_logic(env, expr, global_specs, vcs),
        _ => None,
    }
}

/// T-LET in synthesis (see [`synth`] and [`let_result`]).
fn synth_let(env: &mut TypeEnv, expr: &Expr, global_specs: &Vec<(Ident, FunctionDef)>, vcs: &mut Vec<SubGoal>) -> (r: Option<Type>)
    requires
        old(env).wf(),
        expr is Let,
    ensures
        final(env).wf(),
        match r {
            Some(t) => synth(checking_of(*old(env), old(vcs)@), expr@, sigs_view(global_specs@)) == Some(
                (checking_of(*final(env), final(vcs)@), t@),
            ),
            None => synth(checking_of(*old(env), old(vcs)@), expr@, sigs_view(global_specs@)) is None,
        },
    decreases expr, 1int, 0int,
{
    match expr {
        Expr::Let { pat, bound_expr, body } => {
            proof {
                assert(expr@ == ExprV::Let { pat: pat@, bound_expr: Box::new((**bound_expr)@), body: Box::new((**body)@) });
                assert(decreases_to!(*expr => *(*expr)->Let_bound_expr));
                assert(decreases_to!(*expr => *(*expr)->Let_body));
            }
            let bt = match synthesize_expr(env, bound_expr, global_specs, vcs) {
                Some(t) => t,
                None => return None,
            };
            env.push_scope();
            if !bind_pattern_vars(env, pat, &bt) {
                return None;
            }
            let body_t = match synthesize_expr(env, body, global_specs, vcs) {
                Some(t) => t,
                None => return None,
            };
            env.pop_scope();
            Some(match pat {
                Pattern::Ident(x) => substitute_expr_in_type(&body_t, x.as_str(), bound_expr),
                _ => match body_t {
                    Type::Refined(rt) => Type::Base(rt.base),
                    other => other,
                },
            })
        },
        _ => None,
    }
}

/// T-IF in synthesis: each branch in its own scope under its side of the
/// condition, the results joined (see [`if_result`]).
fn synth_if(env: &mut TypeEnv, expr: &Expr, global_specs: &Vec<(Ident, FunctionDef)>, vcs: &mut Vec<SubGoal>) -> (r: Option<Type>)
    requires
        old(env).wf(),
        expr is If,
    ensures
        final(env).wf(),
        match r {
            Some(t) => synth(checking_of(*old(env), old(vcs)@), expr@, sigs_view(global_specs@)) == Some(
                (checking_of(*final(env), final(vcs)@), t@),
            ),
            None => synth(checking_of(*old(env), old(vcs)@), expr@, sigs_view(global_specs@)) is None,
        },
    decreases expr, 1int, 0int,
{
    match expr {
        Expr::If { cond, then_expr, else_expr } => {
            proof {
                assert(expr@ == ExprV::If {
                    cond: Box::new((**cond)@),
                    then_expr: Box::new((**then_expr)@),
                    else_expr: Box::new((**else_expr)@),
                });
                assert(decreases_to!(*expr => *(*expr)->If_cond));
                assert(decreases_to!(*expr => *(*expr)->If_then_expr));
                assert(decreases_to!(*expr => *(*expr)->If_else_expr));
            }
            let ct = match synthesize_expr(env, cond, global_specs, vcs) {
                Some(t) => t,
                None => return None,
            };
            match base_of(&ct) {
                Some(BaseType::Bool) => {},
                _ => return None,
            }
            env.push_scope();
            env.add_path_condition(cond.deep_clone());
            let tt = match synthesize_expr(env, then_expr, global_specs, vcs) {
                Some(t) => t,
                None => return None,
            };
            env.pop_scope();
            env.push_scope();
            let negated = Expr::UnOp { op: UnOp::Not, expr: Box::new(cond.deep_clone()) };
            env.add_path_condition(negated);
            let et = match synthesize_expr(env, else_expr, global_specs, vcs) {
                Some(t) => t,
                None => return None,
            };
            env.pop_scope();
            let arrow = match (&tt, &et) {
                (Type::Arrow(_), _) | (_, Type::Arrow(_)) => true,
                _ => false,
            };
            if arrow {
                return None;
            }
            let (bt, pt) = extract_base_and_pred(&tt, "v_if");
            let (be, pe) = extract_base_and_pred(&et, "v_if");
            if !bt.same(&be) {
                return None;
            }
            let ghost cv = (**cond)@;
            let ghost ptv = pt@;
            let ghost pev = pe@;
            let c1 = cond.deep_clone();
            let c2 = cond.deep_clone();
            let then_side = Expr::BinOp { op: BinOp::And, left: Box::new(c1), right: Box::new(pt) };
            proof {
                assert(then_side@ == ExprV::BinOp { op: BinOp::And, left: Box::new(cv), right: Box::new(ptv) });
            }
            let not_cond = Expr::UnOp { op: UnOp::Not, expr: Box::new(c2) };
            proof {
                assert(not_cond@ == ExprV::UnOp { op: UnOp::Not, expr: Box::new(cv) });
            }
            let else_side = Expr::BinOp { op: BinOp::And, left: Box::new(not_cond), right: Box::new(pe) };
            proof {
                assert(else_side@ == ExprV::BinOp {
                    op: BinOp::And,
                    left: Box::new(ExprV::UnOp { op: UnOp::Not, expr: Box::new(cv) }),
                    right: Box::new(pev),
                });
            }
            let joined = Expr::BinOp { op: BinOp::Or, left: Box::new(then_side), right: Box::new(else_side) };
            proof {
                assert(joined@ == ExprV::BinOp {
                    op: BinOp::Or,
                    left: Box::new(ExprV::BinOp { op: BinOp::And, left: Box::new(cv), right: Box::new(ptv) }),
                    right: Box::new(ExprV::BinOp {
                        op: BinOp::And,
                        left: Box::new(ExprV::UnOp { op: UnOp::Not, expr: Box::new(cv) }),
                        right: Box::new(pev),
                    }),
                });
            }
            Some(Type::Refined(RefinedType { bound_var: String::from_str("v_if"), base: bt, predicate: joined }))
        },
        _ => None,
    }
}

/// T-APP: the callee's signature with fresh parameters, against the
/// arguments (see [`synth_args`]).
fn synth_call(env: &mut TypeEnv, expr: &Expr, global_specs: &Vec<(Ident, FunctionDef)>, vcs: &mut Vec<SubGoal>) -> (r: Option<Type>)
    requires
        old(env).wf(),
        expr is Call,
    ensures
        final(env).wf(),
        match r {
            Some(t) => synth(checking_of(*old(env), old(vcs)@), expr@, sigs_view(global_specs@)) == Some(
                (checking_of(*final(env), final(vcs)@), t@),
            ),
            None => synth(checking_of(*old(env), old(vcs)@), expr@, sigs_view(global_specs@)) is None,
        },
    decreases expr, 1int, 0int,
{
    match expr {
        Expr::Call { func, args } => {
            proof {
                assert(expr@ == ExprV::Call { func: func@, args: expr_views(args@) });
                assert(decreases_to!(*expr => (*expr)->Call_args));
            }
            let sig = match lookup_callee(env, func, global_specs) {
                Some(t) => t,
                None => return None,
            };
            let fs = match freshen_params(env, sig) {
                Some(t) => t,
                None => return None,
            };
            synth_arguments(env, args, fs, global_specs, vcs)
        },
        _ => None,
    }
}

/// The arguments of a call against the signature left (see [`synth_args`]).
#[verifier::rlimit(40)]
fn synth_arguments(
    env: &mut TypeEnv,
    args: &Vec<Expr>,
    sig: Type,
    global_specs: &Vec<(Ident, FunctionDef)>,
    vcs: &mut Vec<SubGoal>,
) -> (r: Option<Type>)
    requires
        old(env).wf(),
    ensures
        final(env).wf(),
        match r {
            Some(t) => synth_args(checking_of(*old(env), old(vcs)@), expr_views(args@), 0, sig@, sigs_view(global_specs@)) == Some(
                (checking_of(*final(env), final(vcs)@), t@),
            ),
            None => synth_args(checking_of(*old(env), old(vcs)@), expr_views(args@), 0, sig@, sigs_view(global_specs@)) is None,
        },
    decreases args, 1int, 0int,
{
    let ghost av = expr_views(args@);
    let ghost sigs = sigs_view(global_specs@);
    let ghost goal = synth_args(checking_of(*env, vcs@), av, 0, sig@, sigs);
    let mut cur = sig;
    let mut i: usize = 0;
    while i < args.len()
        invariant
            env.wf(),
            0 <= i <= args@.len(),
            av == expr_views(args@),
            sigs == sigs_view(global_specs@),
            goal == synth_args(checking_of(*env, vcs@), av, i as int, cur@, sigs),
            goal == synth_args(checking_of(*old(env), old(vcs)@), av, 0, sig@, sigs),
        decreases args@.len() - i,
    {
        proof {
            assert(decreases_to!(*args => args@));
            assert(decreases_to!(args@ => args@[i as int]));
            assert(av[i as int] == args@[i as int]@);
        }
        let ghost c0 = checking_of(*env, vcs@);
        let next = match &cur {
            Type::Arrow(f) => {
                let at = match synthesize_expr(env, &args[i], global_specs, vcs) {
                    Some(t) => t,
                    None => {
                        proof {
                            assert(synth_args(c0, av, i as int, cur@, sigs) is None);
                        }
                        return None;
                    },
                };
                let ghost c1 = checking_of(*env, vcs@);
                if !subtyping_vc(env, &at, &f.param_type, vcs) {
                    proof {
                        assert(synth_args(c0, av, i as int, cur@, sigs) is None);
                    }
                    return None;
                }
                substitute_expr_in_type(&f.ret_type, f.param_name.as_str(), &args[i])
            },
            _ => {
                proof {
                    assert(synth_args(c0, av, i as int, cur@, sigs) is None);
                }
                return None;
            },
        };
        cur = next;
        i = i + 1;
    }
    Some(cur)
}

/// Synthesis of each expression of a list, for its verification
/// conditions alone (see [`synth_each`]).
fn synth_all(env: &mut TypeEnv, es: &Vec<Expr>, global_specs: &Vec<(Ident, FunctionDef)>, vcs: &mut Vec<SubGoal>) -> (r: bool)
    requires
        old(env).wf(),
    ensures
        final(env).wf(),
        r == synth_each(checking_of(*old(env), old(vcs)@), expr_views(es@), 0, sigs_view(global_specs@)) is Some,
        r ==> synth_each(checking_of(*old(env), old(vcs)@), expr_views(es@), 0, sigs_view(global_specs@)) == Some(
            checking_of(*final(env), final(vcs)@),
        ),
    decreases es, 1int, 0int,
{
    let ghost ev = expr_views(es@);
    let ghost sigs = sigs_view(global_specs@);
    let ghost goal = synth_each(checking_of(*env, vcs@), ev, 0, sigs);
    let mut i: usize = 0;
    while i < es.len()
        invariant
            env.wf(),
            0 <= i <= es@.len(),
            ev == expr_views(es@),
            sigs == sigs_view(global_specs@),
            goal == synth_each(checking_of(*env, vcs@), ev, i as int, sigs),
            goal == synth_each(checking_of(*old(env), old(vcs)@), ev, 0, sigs),
        decreases es@.len() - i,
    {
        proof {
            assert(decreases_to!(*es => es@));
            assert(decreases_to!(es@ => es@[i as int]));
            assert(ev[i as int] == es@[i as int]@);
        }
        let ghost c0 = checking_of(*env, vcs@);
        if synthesize_expr(env, &es[i], global_specs, vcs).is_none() {
            proof {
                assert(synth_each(c0, ev, i as int, sigs) is None);
            }
            return false;
        }
        i = i + 1;
    }
    true
}

/// T-CONSTRUCT: the arguments synthesized, and the singleton type
/// `{ v: E | v == C(args) }` of the enum `E` of the constructor.
fn synth_constructor(env: &mut TypeEnv, expr: &Expr, global_specs: &Vec<(Ident, FunctionDef)>, vcs: &mut Vec<SubGoal>) -> (r: Option<Type>)
    requires
        old(env).wf(),
        expr is Constructor,
    ensures
        final(env).wf(),
        match r {
            Some(t) => synth(checking_of(*old(env), old(vcs)@), expr@, sigs_view(global_specs@)) == Some(
                (checking_of(*final(env), final(vcs)@), t@),
            ),
            None => synth(checking_of(*old(env), old(vcs)@), expr@, sigs_view(global_specs@)) is None,
        },
    decreases expr, 1int, 0int,
{
    match expr {
        Expr::Constructor { name, args } => {
            proof {
                assert(expr@ == ExprV::Constructor { name: name@, args: expr_views(args@) });
                assert(decreases_to!(*expr => (*expr)->Constructor_args));
            }
            if !synth_all(env, args, global_specs, vcs) {
                return None;
            }
            let ghost ev = expr@;
            let left = Expr::Var(String::from_str("v"));
            let pred = Expr::BinOp { op: BinOp::Eq, left: Box::new(left), right: Box::new(expr.deep_clone()) };
            proof {
                assert(left@ == ExprV::Var("v"@));
                assert(pred@ == ExprV::BinOp { op: BinOp::Eq, left: Box::new(ExprV::Var("v"@)), right: Box::new(ev) });
            }
            let base = BaseType::Custom(enum_name(name.as_str()));
            let r = Type::Refined(RefinedType { bound_var: String::from_str("v"), base, predicate: pred });
            proof {
                assert(r@ == TypeV::Refined { bound_var: "v"@, base: BaseTypeV::Custom(before_first_sep(name@)), predicate: pred@ });
            }
            Some(r)
        },
        _ => None,
    }
}

/// The bases of the types of a list of expressions (see [`synth_bases`]).
fn synth_base_list(env: &mut TypeEnv, es: &Vec<Expr>, global_specs: &Vec<(Ident, FunctionDef)>, vcs: &mut Vec<SubGoal>) -> (r: Option<Vec<BaseType>>)
    requires
        old(env).wf(),
    ensures
        final(env).wf(),
        match r {
            Some(bs) => synth_bases(checking_of(*old(env), old(vcs)@), expr_views(es@), 0, sigs_view(global_specs@)) == Some(
                (checking_of(*final(env), final(vcs)@), base_views(bs@)),
            ),
            None => synth_bases(checking_of(*old(env), old(vcs)@), expr_views(es@), 0, sigs_view(global_specs@)) is None,
        },
    decreases es, 1int, 0int,
{
    let ghost ev = expr_views(es@);
    let ghost sigs = sigs_view(global_specs@);
    let ghost goal = synth_bases(checking_of(*env, vcs@), ev, 0, sigs);
    let mut out: Vec<BaseType> = Vec::new();
    let mut i: usize = 0;
    proof {
        if goal is Some {
            assert(base_views(out@) + synth_bases(checking_of(*env, vcs@), ev, 0, sigs).unwrap().1 =~= goal.unwrap().1);
        }
    }
    while i < es.len()
        invariant
            env.wf(),
            0 <= i <= es@.len(),
            ev == expr_views(es@),
            sigs == sigs_view(global_specs@),
            goal is Some <==> synth_bases(checking_of(*env, vcs@), ev, i as int, sigs) is Some,
            goal == synth_bases(checking_of(*old(env), old(vcs)@), ev, 0, sigs),
            goal is Some ==> goal.unwrap().0 == synth_bases(checking_of(*env, vcs@), ev, i as int, sigs).unwrap().0,
            goal is Some ==> goal.unwrap().1 == base_views(out@) + synth_bases(checking_of(*env, vcs@), ev, i as int, sigs).unwrap().1,
        decreases es@.len() - i,
    {
        proof {
            assert(decreases_to!(*es => es@));
            assert(decreases_to!(es@ => es@[i as int]));
            assert(ev[i as int] == es@[i as int]@);
        }
        let ghost c0 = checking_of(*env, vcs@);
        let ghost rest0 = if synth_bases(c0, ev, i as int, sigs) is Some { synth_bases(c0, ev, i as int, sigs).unwrap().1 } else { Seq::empty() };
        let ghost before = base_views(out@);
        let t = match synthesize_expr(env, &es[i], global_specs, vcs) {
            Some(t) => t,
            None => {
                proof {
                    assert(synth_bases(c0, ev, i as int, sigs) is None);
                }
                return None;
            },
        };
        let b = match base_of(&t) {
            Some(b) => b,
            None => {
                proof {
                    assert(synth_bases(c0, ev, i as int, sigs) is None);
                }
                return None;
            },
        };
        let ghost bv = b@;
        out.push(b);
        proof {
            if synth_bases(checking_of(*env, vcs@), ev, i + 1, sigs) is Some {
                let rest1 = synth_bases(checking_of(*env, vcs@), ev, i + 1, sigs).unwrap().1;
                assert(rest0 == seq![bv] + rest1);
                assert(base_views(out@) =~= before.push(bv));
                assert(before + rest0 =~= base_views(out@) + rest1);
            }
        }
        i = i + 1;
    }
    proof {
        assert(synth_bases(checking_of(*env, vcs@), ev, i as int, sigs).unwrap().1 =~= Seq::<BaseTypeV>::empty());
        assert(base_views(out@) + Seq::<BaseTypeV>::empty() =~= base_views(out@));
    }
    Some(out)
}

/// A tuple: the tuple of the bases of its elements; the empty tuple is `Unit`.
fn synth_tuple(env: &mut TypeEnv, expr: &Expr, global_specs: &Vec<(Ident, FunctionDef)>, vcs: &mut Vec<SubGoal>) -> (r: Option<Type>)
    requires
        old(env).wf(),
        expr is Tuple,
    ensures
        final(env).wf(),
        match r {
            Some(t) => synth(checking_of(*old(env), old(vcs)@), expr@, sigs_view(global_specs@)) == Some(
                (checking_of(*final(env), final(vcs)@), t@),
            ),
            None => synth(checking_of(*old(env), old(vcs)@), expr@, sigs_view(global_specs@)) is None,
        },
    decreases expr, 1int, 0int,
{
    match expr {
        Expr::Tuple(elems) => {
            proof {
                assert(expr@ == ExprV::Tuple(expr_views(elems@)));
                assert(decreases_to!(*expr => (*expr)->Tuple_0));
            }
            let bs = match synth_base_list(env, elems, global_specs, vcs) {
                Some(bs) => bs,
                None => return None,
            };
            if bs.len() == 0 {
                Some(Type::Base(BaseType::Unit))
            } else {
                Some(Type::Base(BaseType::Tuple(bs)))
            }
        },
        _ => None,
    }
}

/// T-LOGIC: `!`, the connectives and (dis)equality in program position, of
/// the selfified type `{ v: Bool | v == e }` (see [`operands_fit`]).
fn synth_logic(env: &mut TypeEnv, expr: &Expr, global_specs: &Vec<(Ident, FunctionDef)>, vcs: &mut Vec<SubGoal>) -> (r: Option<Type>)
    requires
        old(env).wf(),
        expr is UnOp || expr is BinOp,
    ensures
        final(env).wf(),
        match r {
            Some(t) => synth(checking_of(*old(env), old(vcs)@), expr@, sigs_view(global_specs@)) == Some(
                (checking_of(*final(env), final(vcs)@), t@),
            ),
            None => synth(checking_of(*old(env), old(vcs)@), expr@, sigs_view(global_specs@)) is None,
        },
    decreases expr, 1int, 0int,
{
    match expr {
        Expr::UnOp { op, expr: inner } => {
            proof {
                assert(expr@ == ExprV::UnOp { op: *op, expr: Box::new((**inner)@) });
                assert(decreases_to!(*expr => *(*expr)->UnOp_expr));
            }
            let t = match synthesize_expr(env, inner, global_specs, vcs) {
                Some(t) => t,
                None => return None,
            };
            match base_of(&t) {
                Some(BaseType::Bool) => {},
                _ => return None,
            }
            Some(selfified_bool(expr.deep_clone()))
        },
        Expr::BinOp { op, left, right } => {
            proof {
                assert(expr@ == ExprV::BinOp { op: *op, left: Box::new((**left)@), right: Box::new((**right)@) });
                assert(decreases_to!(*expr => *(*expr)->BinOp_left));
                assert(decreases_to!(*expr => *(*expr)->BinOp_right));
            }
            let lt = match synthesize_expr(env, left, global_specs, vcs) {
                Some(t) => t,
                None => return None,
            };
            let rt = match synthesize_expr(env, right, global_specs, vcs) {
                Some(t) => t,
                None => return None,
            };
            let lb = base_of(&lt);
            let rb = base_of(&rt);
            let fits = match op {
                BinOp::And | BinOp::Or | BinOp::Implies => {
                    let l_ok = match &lb {
                        Some(BaseType::Bool) => true,
                        _ => false,
                    };
                    let r_ok = match &rb {
                        Some(BaseType::Bool) => true,
                        _ => false,
                    };
                    l_ok && r_ok
                },
                BinOp::Eq | BinOp::Neq => match (&lb, &rb) {
                    (Some(a), Some(b)) => a.same(b),
                    _ => false,
                },
            };
            if !fits {
                return None;
            }
            Some(selfified_bool(expr.deep_clone()))
        },
        _ => None,
    }
}

/// Checking: an expression against an expected type, top-down, emitting
/// the verification conditions (see [`check`]).
pub fn check_expr(
    env: &mut TypeEnv,
    expr: &Expr,
    expected: &Type,
    global_specs: &Vec<(Ident, FunctionDef)>,
    vcs: &mut Vec<SubGoal>,
) -> (r: bool)
    requires
        old(env).wf(),
    ensures
        final(env).wf(),
        r == check(checking_of(*old(env), old(vcs)@), expr@, expected@, sigs_view(global_specs@)) is Some,
        r ==> check(checking_of(*old(env), old(vcs)@), expr@, expected@, sigs_view(global_specs@)) == Some(
            checking_of(*final(env), final(vcs)@),
        ),
    decreases expr, 4int, 0int,
{
    match expr {
        Expr::Let { .. } => check_let(env, expr, expected, global_specs, vcs),
        Expr::Match { .. } => check_match(env, expr, expected, global_specs, vcs),
        Expr::If { .. } => check_if(env, expr, expected, global_specs, vcs),
        _ => {
            let inferred = match synthesize_expr(env, expr, global_specs, vcs) {
                Some(t) => t,
                None => return false,
            };
            subtyping_vc(env, &inferred, expected, vcs)
        },
    }
}

/// T-LET in checking: the binding, upgraded to a fresh name for a wildcard
/// over a value that carries knowledge, and the defining equation, go into a
/// new scope in which the body is checked (see [`let_bind`] and
/// [`let_equation`]).
fn check_let(
    env: &mut TypeEnv,
    expr: &Expr,
    expected: &Type,
    global_specs: &Vec<(Ident, FunctionDef)>,
    vcs: &mut Vec<SubGoal>,
) -> (r: bool)
    requires
        old(env).wf(),
        expr is Let,
    ensures
        final(env).wf(),
        r == check(checking_of(*old(env), old(vcs)@), expr@, expected@, sigs_view(global_specs@)) is Some,
        r ==> check(checking_of(*old(env), old(vcs)@), expr@, expected@, sigs_view(global_specs@)) == Some(
            checking_of(*final(env), final(vcs)@),
        ),
    decreases expr, 3int, 0int,
{
    match expr {
        Expr::Let { pat, bound_expr, body } => {
            proof {
                assert(expr@ == ExprV::Let { pat: pat@, bound_expr: Box::new((**bound_expr)@), body: Box::new((**body)@) });
                assert(decreases_to!(*expr => *(*expr)->Let_bound_expr));
                assert(decreases_to!(*expr => *(*expr)->Let_body));
            }
            let bt = match synthesize_expr(env, bound_expr, global_specs, vcs) {
                Some(t) => t,
                None => return false,
            };
            env.push_scope();
            let ghost c2 = checking_of(*env, vcs@);
            let bound_name: Option<Ident> = match pat {
                Pattern::Ident(name) => {
                    let _ = bind_pattern_vars(env, pat, &bt);
                    Some(name.clone())
                },
                Pattern::Wildcard => {
                    let is_refined = match &bt {
                        Type::Refined(_) => true,
                        _ => false,
                    };
                    let skip = match base_of(&bt) {
                        None => true,
                        Some(BaseType::Unit) => !is_refined,
                        Some(_) => false,
                    };
                    if skip {
                        None
                    } else {
                        if env.at_capacity() {
                            return false;
                        }
                        let fresh = env.fresh("_bind");
                        env.insert_var(fresh.clone(), bt.deep_clone());
                        Some(fresh)
                    }
                },
                _ => {
                    if !bind_pattern_vars(env, pat, &bt) {
                        return false;
                    }
                    None
                },
            };
            proof {
                assert(let_bind(c2, pat@, bt@) == Some((checking_of(*env, vcs@), match bound_name {
                    Some(x) => Some(x@),
                    None => None,
                })));
            }
            let selfify = match base_of(&bt) {
                Some(BaseType::Unit) | None => false,
                Some(_) => true,
            };
            if selfify {
                match &bound_name {
                    Some(name) => {
                        let ghost bv = (**bound_expr)@;
                        let left = Expr::Var(name.clone());
                        let eq = Expr::BinOp { op: BinOp::Eq, left: Box::new(left), right: Box::new(bound_expr.deep_clone()) };
                        proof {
                            assert(left@ == ExprV::Var(name@));
                            assert(eq@ == ExprV::BinOp { op: BinOp::Eq, left: Box::new(ExprV::Var(name@)), right: Box::new(bv) });
                        }
                        env.add_path_condition(eq);
                    },
                    None => match pat {
                        Pattern::Wildcard => {},
                        _ => {
                            if !is_expressible(pat) {
                                return false;
                            }
                            let eq = build_pattern_eq_expr(bound_expr, pat);
                            env.add_path_condition(eq);
                        },
                    },
                }
            }
            if !check_expr(env, body, expected, global_specs, vcs) {
                return false;
            }
            env.pop_scope();
            true
        },
        _ => false,
    }
}

/// T-MATCH in checking: the target synthesized, then each arm checked in
/// its own scope (see [`check_arms`]).
fn check_match(
    env: &mut TypeEnv,
    expr: &Expr,
    expected: &Type,
    global_specs: &Vec<(Ident, FunctionDef)>,
    vcs: &mut Vec<SubGoal>,
) -> (r: bool)
    requires
        old(env).wf(),
        expr is Match,
    ensures
        final(env).wf(),
        r == check(checking_of(*old(env), old(vcs)@), expr@, expected@, sigs_view(global_specs@)) is Some,
        r ==> check(checking_of(*old(env), old(vcs)@), expr@, expected@, sigs_view(global_specs@)) == Some(
            checking_of(*final(env), final(vcs)@),
        ),
    decreases expr, 3int, 0int,
{
    match expr {
        Expr::Match { expr: target, arms } => {
            proof {
                assert(expr@ == ExprV::Match { expr: Box::new((**target)@), arms: arms_view(arms@) });
                assert(decreases_to!(*expr => *(*expr)->Match_expr));
                assert(decreases_to!(*expr => (*expr)->arms));
            }
            let tt = match synthesize_expr(env, target, global_specs, vcs) {
                Some(t) => t,
                None => return false,
            };
            check_match_arms(env, target, &tt, arms, expected, global_specs, vcs)
        },
        _ => false,
    }
}

/// The arms of a `match`, each in its own scope with its pattern bound and
/// `target == pattern` assumed (see [`check_arms`]).
#[verifier::rlimit(40)]
fn check_match_arms(
    env: &mut TypeEnv,
    target: &Expr,
    target_type: &Type,
    arms: &Vec<(Pattern, Expr)>,
    expected: &Type,
    global_specs: &Vec<(Ident, FunctionDef)>,
    vcs: &mut Vec<SubGoal>,
) -> (r: bool)
    requires
        old(env).wf(),
    ensures
        final(env).wf(),
        r == check_arms(checking_of(*old(env), old(vcs)@), target@, target_type@, arms_view(arms@), 0, expected@, sigs_view(global_specs@)) is Some,
        r ==> check_arms(checking_of(*old(env), old(vcs)@), target@, target_type@, arms_view(arms@), 0, expected@, sigs_view(global_specs@))
            == Some(checking_of(*final(env), final(vcs)@)),
    decreases arms, 1int, 0int,
{
    let ghost av = arms_view(arms@);
    let ghost sigs = sigs_view(global_specs@);
    let ghost goal = check_arms(checking_of(*env, vcs@), target@, target_type@, av, 0, expected@, sigs);
    let mut i: usize = 0;
    while i < arms.len()
        invariant
            env.wf(),
            0 <= i <= arms@.len(),
            av == arms_view(arms@),
            sigs == sigs_view(global_specs@),
            goal == check_arms(checking_of(*env, vcs@), target@, target_type@, av, i as int, expected@, sigs),
            goal == check_arms(checking_of(*old(env), old(vcs)@), target@, target_type@, av, 0, expected@, sigs),
        decreases arms@.len() - i,
    {
        proof {
            assert(decreases_to!(*arms => arms@));
            assert(decreases_to!(arms@ => arms@[i as int]));
            assert(decreases_to!(arms@[i as int] => arms@[i as int].1));
            assert(av[i as int] == (arms@[i as int].0@, arms@[i as int].1@));
        }
        let ghost c0 = checking_of(*env, vcs@);
        env.push_scope();
        if !bind_pattern_vars(env, &arms[i].0, target_type) {
            proof {
                assert(check_arms(c0, target@, target_type@, av, i as int, expected@, sigs) is None);
            }
            return false;
        }
        if !is_expressible(&arms[i].0) {
            proof {
                assert(check_arms(c0, target@, target_type@, av, i as int, expected@, sigs) is None);
            }
            return false;
        }
        let eq = build_pattern_eq_expr(target, &arms[i].0);
        env.add_path_condition(eq);
        if !check_expr(env, &arms[i].1, expected, global_specs, vcs) {
            proof {
                assert(check_arms(c0, target@, target_type@, av, i as int, expected@, sigs) is None);
            }
            return false;
        }
        env.pop_scope();
        i = i + 1;
    }
    true
}

/// T-IF in checking: each branch against the expected type, in its own
/// scope under its side of the condition.
fn check_if(
    env: &mut TypeEnv,
    expr: &Expr,
    expected: &Type,
    global_specs: &Vec<(Ident, FunctionDef)>,
    vcs: &mut Vec<SubGoal>,
) -> (r: bool)
    requires
        old(env).wf(),
        expr is If,
    ensures
        final(env).wf(),
        r == check(checking_of(*old(env), old(vcs)@), expr@, expected@, sigs_view(global_specs@)) is Some,
        r ==> check(checking_of(*old(env), old(vcs)@), expr@, expected@, sigs_view(global_specs@)) == Some(
            checking_of(*final(env), final(vcs)@),
        ),
    decreases expr, 3int, 0int,
{
    match expr {
        Expr::If { cond, then_expr, else_expr } => {
            proof {
                assert(expr@ == ExprV::If {
                    cond: Box::new((**cond)@),
                    then_expr: Box::new((**then_expr)@),
                    else_expr: Box::new((**else_expr)@),
                });
                assert(decreases_to!(*expr => *(*expr)->If_cond));
                assert(decreases_to!(*expr => *(*expr)->If_then_expr));
                assert(decreases_to!(*expr => *(*expr)->If_else_expr));
            }
            let ct = match synthesize_expr(env, cond, global_specs, vcs) {
                Some(t) => t,
                None => return false,
            };
            match base_of(&ct) {
                Some(BaseType::Bool) => {},
                _ => return false,
            }
            env.push_scope();
            env.add_path_condition(cond.deep_clone());
            if !check_expr(env, then_expr, expected, global_specs, vcs) {
                return false;
            }
            env.pop_scope();
            env.push_scope();
            let negated = Expr::UnOp { op: UnOp::Not, expr: Box::new(cond.deep_clone()) };
            env.add_path_condition(negated);
            if !check_expr(env, else_expr, expected, global_specs, vcs) {
                return false;
            }
            env.pop_scope();
            true
        },
        _ => false,
    }
}

/// Checks that `inferred` is a subtype of `expected`, emitting the
/// verification conditions that this takes (see [`subtype`]). Defined where
/// the two types have the same [`shape`]; elsewhere (an arrow against a
/// base type, or two base sorts that differ, such as `Bool` against a user
/// sort) the comparison is refused (see [`same_shape`]).
pub fn generate_subtyping_vc(env: &mut TypeEnv, inferred: &Type, expected: &Type, vcs: &mut Vec<SubGoal>)
    requires
        old(env).wf(),
        shape(inferred@) == shape(expected@),
    ensures
        final(env).wf(),
        subtype(checking_of(*old(env), old(vcs)@), inferred@, expected@) == Some(checking_of(*final(env), final(vcs)@)),
{
    let ok = subtyping_vc(env, inferred, expected, vcs);
    assert(ok);
}

/// Whether two types have the same [`shape`]: the same arrows, and the
/// same base sort at each leaf.
pub fn same_shape(a: &Type, b: &Type) -> (r: bool)
    ensures
        r == (shape(a@) == shape(b@)),
    decreases a,
{
    match (a, b) {
        (Type::Arrow(fa), Type::Arrow(fb)) => {
            let p = same_shape(&fa.param_type, &fb.param_type);
            let q = same_shape(&fa.ret_type, &fb.ret_type);
            proof {
                assert(a@ is Arrow && b@ is Arrow);
            }
            p && q
        },
        (Type::Arrow(_), _) => {
            proof {
                assert(a@ is Arrow && !(b@ is Arrow));
            }
            false
        },
        (_, Type::Arrow(_)) => {
            proof {
                assert(b@ is Arrow && !(a@ is Arrow));
            }
            false
        },
        _ => {
            let ba = leaf_base(a);
            let bb = leaf_base(b);
            ba.same(&bb)
        },
    }
}

/// The base sort of a base or refined type.
fn leaf_base(t: &Type) -> (r: BaseType)
    requires
        !(t@ is Arrow),
    ensures
        shape(t@) == TypeShape::Leaf(r@),
{
    match t {
        Type::Base(b) => b.deep_clone(),
        Type::Refined(rt) => rt.base.deep_clone(),
        Type::Arrow(_) => {
            proof {
                assert(false);
            }
            BaseType::unit()
        },
    }
}

} // verus!
