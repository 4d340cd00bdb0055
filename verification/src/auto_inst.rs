//! The ground-term collector: every call and every constructor application
//! with arguments that mentions no locally bound variable, bottom-up, each
//! once. These terms become the instantiation hints of a goal.

use vstd::prelude::*;
use crate::ast::{BaseType, Expr, ExprV, Ident, Pattern, PatternV, arms_view, binders_view, bindings_view, expr_views};

verus! {

broadcast use vstd::std_specs::vec::group_vec_axioms, crate::ast::group_ast_views;

/// Whether the pattern binds the name `x`.
pub open spec fn pattern_binds(p: PatternV, x: Seq<char>) -> bool
    decreases p,
{
    match p {
        PatternV::Wildcard => false,
        PatternV::Ident(n) => n == x,
        PatternV::Constructor { args, .. } => exists|i: int| 0 <= i < args.len() && pattern_binds(#[trigger] args[i], x),
        PatternV::Tuple(args) => exists|i: int| 0 <= i < args.len() && pattern_binds(#[trigger] args[i], x),
    }
}

/// The names a list of strings holds.
pub open spec fn names_of(v: Seq<String>) -> Set<Seq<char>> {
    Set::new(|x: Seq<char>| exists|i: int| 0 <= i < v.len() && (#[trigger] v[i])@ == x)
}

/// `bl` with the names a pattern binds.
pub open spec fn with_pattern(bl: Set<Seq<char>>, p: PatternV) -> Set<Seq<char>> {
    bl.union(Set::new(|x: Seq<char>| pattern_binds(p, x)))
}

/// `bl` with the names of some binders.
pub open spec fn with_binders<T>(bl: Set<Seq<char>>, bs: Seq<(Seq<char>, T)>) -> Set<Seq<char>> {
    bl.union(Set::new(|x: Seq<char>| exists|i: int| 0 <= i < bs.len() && (#[trigger] bs[i]).0 == x))
}

/// Whether `e` mentions, anywhere and regardless of shadowing, a variable
/// named in `bl`.
pub open spec fn mentions(e: ExprV, bl: Set<Seq<char>>) -> bool
    decreases e,
{
    match e {
        ExprV::Var(n) => bl.contains(n),
        ExprV::BoolConst(_) => false,
        ExprV::Tuple(es) => exists|i: int| 0 <= i < es.len() && mentions(#[trigger] es[i], bl),
        ExprV::BinOp { left, right, .. } => mentions(*left, bl) || mentions(*right, bl),
        ExprV::UnOp { expr, .. } => mentions(*expr, bl),
        ExprV::If { cond, then_expr, else_expr } => mentions(*cond, bl) || mentions(*then_expr, bl) || mentions(*else_expr, bl),
        ExprV::Let { bound_expr, body, .. } => mentions(*bound_expr, bl) || mentions(*body, bl),
        ExprV::Match { expr, arms } => mentions(*expr, bl) || exists|i: int| 0 <= i < arms.len() && mentions(#[trigger] arms[i].1, bl),
        ExprV::Call { args, .. } => exists|i: int| 0 <= i < args.len() && mentions(#[trigger] args[i], bl),
        ExprV::Constructor { args, .. } => exists|i: int| 0 <= i < args.len() && mentions(#[trigger] args[i], bl),
        ExprV::ApplyRel { args, .. } => exists|i: int| 0 <= i < args.len() && mentions(#[trigger] args[i], bl),
        ExprV::Forall { body, .. } => mentions(*body, bl),
        ExprV::Exists { body, .. } => mentions(*body, bl),
        ExprV::Instantiate(inner) => mentions(*inner, bl),
        ExprV::ExistentialBindings(bs) => exists|i: int| 0 <= i < bs.len() && mentions(#[trigger] bs[i].1, bl),
    }
}

/// `acc` with the term `t` added, unless it mentions a bound variable or is
/// already there.
pub open spec fn add_term(t: ExprV, bl: Set<Seq<char>>, acc: Seq<ExprV>) -> Seq<ExprV> {
    if !mentions(t, bl) && !acc.contains(t) {
        acc.push(t)
    } else {
        acc
    }
}

/// The ground terms of `e`, in collection order, appended to `acc`;
/// `bl` holds the variables bound around `e`.
pub open spec fn collect(e: ExprV, bl: Set<Seq<char>>, acc: Seq<ExprV>) -> Seq<ExprV>
    decreases e,
{
    match e {
        ExprV::Call { args, .. } => add_term(e, bl, collect_all(args, bl, acc)),
        ExprV::Constructor { args, .. } => if args.len() == 0 {
            collect_all(args, bl, acc)
        } else {
            add_term(e, bl, collect_all(args, bl, acc))
        },
        ExprV::Forall { binders, body } => collect(*body, with_binders(bl, binders), acc),
        ExprV::Exists { binders, body } => collect(*body, with_binders(bl, binders), acc),
        ExprV::Let { pat, bound_expr, body } => collect(*body, with_pattern(bl, pat), collect(*bound_expr, bl, acc)),
        ExprV::Match { expr, arms } => collect_arms(arms, bl, collect(*expr, bl, acc)),
        ExprV::Tuple(es) => collect_all(es, bl, acc),
        ExprV::BinOp { left, right, .. } => collect(*right, bl, collect(*left, bl, acc)),
        ExprV::UnOp { expr, .. } => collect(*expr, bl, acc),
        ExprV::If { cond, then_expr, else_expr } => collect(
            *else_expr,
            bl,
            collect(*then_expr, bl, collect(*cond, bl, acc)),
        ),
        ExprV::ApplyRel { args, .. } => collect_all(args, bl, acc),
        ExprV::Instantiate(inner) => collect(*inner, bl, acc),
        ExprV::ExistentialBindings(bs) => collect_bindings(bs, bl, acc),
        ExprV::BoolConst(_) => acc,
        ExprV::Var(_) => acc,
    }
}

/// [`collect`] over a list of expressions, left to right.
pub open spec fn collect_all(es: Seq<ExprV>, bl: Set<Seq<char>>, acc: Seq<ExprV>) -> Seq<ExprV>
    decreases es,
{
    if es.len() == 0 {
        acc
    } else {
        collect(es.last(), bl, collect_all(es.drop_last(), bl, acc))
    }
}

/// [`collect`] over the arms of a `match`, each under its pattern's names.
pub open spec fn collect_arms(arms: Seq<(PatternV, ExprV)>, bl: Set<Seq<char>>, acc: Seq<ExprV>) -> Seq<ExprV>
    decreases arms,
{
    if arms.len() == 0 {
        acc
    } else {
        collect(arms.last().1, with_pattern(bl, arms.last().0), collect_arms(arms.drop_last(), bl, acc))
    }
}

/// [`collect`] over the expressions of named bindings.
pub open spec fn collect_bindings(bs: Seq<(Seq<char>, ExprV)>, bl: Set<Seq<char>>, acc: Seq<ExprV>) -> Seq<ExprV>
    decreases bs,
{
    if bs.len() == 0 {
        acc
    } else {
        collect(bs.last().1, bl, collect_bindings(bs.drop_last(), bl, acc))
    }
}

/// The ground terms of `e`.
pub open spec fn ground_terms(e: ExprV) -> Seq<ExprV> {
    collect(e, Set::empty(), Seq::empty())
}

/// Whether `name` is among `names`.
fn has_name(names: &Vec<Ident>, name: &Ident) -> (r: bool)
    ensures
        r == names_of(names@).contains(name@),
{
    let mut i: usize = 0;
    while i < names.len()
        invariant
            0 <= i <= names@.len(),
            forall|k: int| 0 <= k < i ==> (#[trigger] names@[k])@ != name@,
        decreases names@.len() - i,
    {
        if names[i].eq(name) {
            proof {
                assert(names_of(names@).contains(name@));
            }
            return true;
        }
        i = i + 1;
    }
    false
}

/// A copy of a list of names.
fn copy_names(names: &Vec<Ident>) -> (r: Vec<Ident>)
    ensures
        names_of(r@) == names_of(names@),
{
    let mut out: Vec<Ident> = Vec::new();
    let mut i: usize = 0;
    while i < names.len()
        invariant
            0 <= i <= names@.len(),
            out@.len() == i,
            forall|k: int| 0 <= k < i ==> (#[trigger] out@[k])@ == names@[k]@,
        decreases names@.len() - i,
    {
        out.push(names[i].clone());
        i = i + 1;
    }
    proof {
        assert forall|x: Seq<char>| names_of(out@).contains(x) == names_of(names@).contains(x) by {
            if names_of(out@).contains(x) {
                let k = choose|k: int| 0 <= k < out@.len() && (#[trigger] out@[k])@ == x;
                assert(names@[k]@ == x);
            }
            if names_of(names@).contains(x) {
                let k = choose|k: int| 0 <= k < names@.len() && (#[trigger] names@[k])@ == x;
                assert(out@[k]@ == x);
            }
        }
        assert(names_of(out@) =~= names_of(names@));
    }
    out
}

/// Adds the names a pattern binds.
fn add_pattern_names(pat: &Pattern, names: &mut Vec<Ident>)
    ensures
        names_of(final(names)@) == with_pattern(names_of(old(names)@), pat@),
    decreases pat,
{
    let ghost start = names@;
    match pat {
        Pattern::Ident(n) => {
            names.push(n.clone());
            proof {
                assert forall|x: Seq<char>| names_of(names@).contains(x) == with_pattern(names_of(start), pat@).contains(x) by {
                    if names_of(names@).contains(x) {
                        let k = choose|k: int| 0 <= k < names@.len() && (#[trigger] names@[k])@ == x;
                        if k < start.len() {
                            assert(start[k]@ == x);
                        }
                    }
                    if names_of(start).contains(x) {
                        let k = choose|k: int| 0 <= k < start.len() && (#[trigger] start[k])@ == x;
                        assert(names@[k]@ == x);
                    }
                    if x == n@ {
                        assert(names@[start.len() as int]@ == x);
                    }
                }
                assert(names_of(names@) =~= with_pattern(names_of(start), pat@));
            }
        },
        Pattern::Wildcard => {
            proof {
                assert(names_of(names@) =~= with_pattern(names_of(start), pat@));
            }
        },
        Pattern::Constructor { name, args, arg_types } => {
            proof {
                assert(decreases_to!(*pat => (*pat)->args));
            }
            add_patterns_names(args, names);
            proof {
                assert(pat@ == PatternV::Constructor {
                    name: name@,
                    args: crate::ast::pattern_views(args@),
                    arg_types: match *arg_types {
                        Some(ts) => Some(crate::ast::base_views(ts@)),
                        None => None,
                    },
                });
                let pargs = crate::ast::pattern_views(args@);
                assert forall|x: Seq<char>| #![auto] pattern_binds(pat@, x) == (exists|i: int| 0 <= i < args@.len() && pattern_binds(args@[i]@, x)) by {
                    if pattern_binds(pat@, x) {
                        let i = choose|i: int| 0 <= i < pargs.len() && pattern_binds(#[trigger] pargs[i], x);
                        assert(pargs[i] == args@[i]@);
                        assert(pattern_binds(args@[i]@, x));
                        assert(exists|i: int| 0 <= i < args@.len() && pattern_binds(args@[i]@, x));
                    }
                    if exists|i: int| 0 <= i < args@.len() && pattern_binds(args@[i]@, x) {
                        let i = choose|i: int| 0 <= i < args@.len() && pattern_binds(args@[i]@, x);
                        assert(pargs[i] == args@[i]@);
                        assert(pattern_binds(pargs[i], x));
                        assert(pattern_binds(pat@->args[i], x));
                        assert(pattern_binds(pat@, x));
                    }
                }
                assert(names_of(names@) =~= with_pattern(names_of(start), pat@));
            }
        },
        Pattern::Tuple(args) => {
            proof {
                assert(decreases_to!(*pat => (*pat)->Tuple_0));
            }
            add_patterns_names(args, names);
            proof {
                assert(pat@ == PatternV::Tuple(crate::ast::pattern_views(args@)));
                let pargs = crate::ast::pattern_views(args@);
                assert forall|x: Seq<char>| #![auto] pattern_binds(pat@, x) == (exists|i: int| 0 <= i < args@.len() && pattern_binds(args@[i]@, x)) by {
                    if pattern_binds(pat@, x) {
                        let i = choose|i: int| 0 <= i < pargs.len() && pattern_binds(#[trigger] pargs[i], x);
                        assert(pargs[i] == args@[i]@);
                        assert(pattern_binds(args@[i]@, x));
                        assert(exists|i: int| 0 <= i < args@.len() && pattern_binds(args@[i]@, x));
                    }
                    if exists|i: int| 0 <= i < args@.len() && pattern_binds(args@[i]@, x) {
                        let i = choose|i: int| 0 <= i < args@.len() && pattern_binds(args@[i]@, x);
                        assert(pargs[i] == args@[i]@);
                        assert(pattern_binds(pargs[i], x));
                        assert(pattern_binds(pat@->Tuple_0[i], x));
                        assert(pattern_binds(pat@, x));
                    }
                }
                assert(names_of(names@) =~= with_pattern(names_of(start), pat@));
            }
        },
    }
}

/// Adds the names a list of patterns binds.
fn add_patterns_names(pats: &Vec<Pattern>, names: &mut Vec<Ident>)
    ensures
        forall|x: Seq<char>| #[trigger] names_of(final(names)@).contains(x) == (names_of(old(names)@).contains(x) || exists|i: int| 0 <= i < pats@.len() && pattern_binds(pats@[i]@, x)),
    decreases pats,
{
    let ghost start = names@;
    let mut i: usize = 0;
    while i < pats.len()
        invariant
            0 <= i <= pats@.len(),
            forall|x: Seq<char>| #[trigger] names_of(names@).contains(x) == (names_of(start).contains(x) || exists|k: int| 0 <= k < i && pattern_binds(pats@[k]@, x)),
        decreases pats@.len() - i,
    {
        proof {
            assert(decreases_to!(*pats => pats@));
            assert(decreases_to!(pats@ => pats@[i as int]));
        }
        let ghost before = names@;
        add_pattern_names(&pats[i], names);
        proof {
            assert forall|x: Seq<char>| #[trigger] names_of(names@).contains(x) == (names_of(start).contains(x) || exists|k: int| 0 <= k < i + 1 && pattern_binds(pats@[k]@, x)) by {
                assert(names_of(names@).contains(x) == (names_of(before).contains(x) || pattern_binds(pats@[i as int]@, x)));
                if exists|k: int| 0 <= k < i + 1 && pattern_binds(pats@[k]@, x) {
                    let k = choose|k: int| 0 <= k < i + 1 && pattern_binds(pats@[k]@, x);
                    if k < i {
                        assert(exists|k2: int| 0 <= k2 < i && pattern_binds(pats@[k2]@, x));
                    }
                }
            }
        }
        i = i + 1;
    }
}

/// Adds the names of some binders.
fn add_binder_names(bs: &Vec<(Ident, BaseType)>, names: &mut Vec<Ident>)
    ensures
        names_of(final(names)@) == with_binders(names_of(old(names)@), binders_view(bs@)),
{
    let ghost start = names@;
    let ghost bv = binders_view(bs@);
    let mut i: usize = 0;
    while i < bs.len()
        invariant
            0 <= i <= bs@.len(),
            bv == binders_view(bs@),
            names@.len() == start.len() + i,
            forall|k: int| 0 <= k < start.len() ==> #[trigger] names@[k] == start[k],
            forall|k: int| 0 <= k < i ==> (#[trigger] names@[start.len() + k])@ == bs@[k].0@,
        decreases bs@.len() - i,
    {
        names.push(bs[i].0.clone());
        i = i + 1;
    }
    proof {
        assert forall|x: Seq<char>| names_of(names@).contains(x) == with_binders(names_of(start), bv).contains(x) by {
            if names_of(names@).contains(x) {
                let k = choose|k: int| 0 <= k < names@.len() && (#[trigger] names@[k])@ == x;
                if k < start.len() {
                    assert(start[k]@ == x);
                } else {
                    assert(names@[start.len() + (k - start.len())]@ == bs@[k - start.len()].0@);
                    assert(bv[k - start.len()].0 == x);
                }
            }
            if names_of(start).contains(x) {
                let k = choose|k: int| 0 <= k < start.len() && (#[trigger] start[k])@ == x;
                assert(names@[k]@ == x);
            }
            if exists|k: int| 0 <= k < bv.len() && (#[trigger] bv[k]).0 == x {
                let k = choose|k: int| 0 <= k < bv.len() && (#[trigger] bv[k]).0 == x;
                assert(names@[start.len() + k]@ == x);
            }
        }
        assert(names_of(names@) =~= with_binders(names_of(start), bv));
    }
}

/// Whether some expression of the list mentions a name of `names`.
fn mentions_list(es: &Vec<Expr>, names: &Vec<Ident>) -> (r: bool)
    ensures
        r == (exists|i: int| 0 <= i < es@.len() && mentions(#[trigger] expr_views(es@)[i], names_of(names@))),
    decreases es,
{
    let ghost bl = names_of(names@);
    let mut i: usize = 0;
    while i < es.len()
        invariant
            0 <= i <= es@.len(),
            bl == names_of(names@),
            forall|k: int| 0 <= k < i ==> !mentions(#[trigger] expr_views(es@)[k], bl),
        decreases es@.len() - i,
    {
        proof {
            assert(decreases_to!(*es => es@));
            assert(decreases_to!(es@ => es@[i as int]));
        }
        if mentions_any(&es[i], names) {
            proof {
                assert(mentions(expr_views(es@)[i as int], bl));
            }
            return true;
        }
        i = i + 1;
    }
    false
}

/// Whether `e` mentions a name of `names` anywhere.
#[verifier::loop_isolation(false)]
pub fn mentions_any(e: &Expr, names: &Vec<Ident>) -> (r: bool)
    ensures
        r == mentions(e@, names_of(names@)),
    decreases e,
{
    let ghost bl = names_of(names@);
    match e {
        Expr::Var(n) => has_name(names, n),
        Expr::BoolConst(_) => false,
        Expr::Tuple(es) => {
            proof {
                assert(decreases_to!(*e => (*e)->Tuple_0));
                assert(e@ == ExprV::Tuple(expr_views(es@)));
            }
            let r = mentions_list(es, names);
            proof {
                if r {
                    let i = choose|i: int| 0 <= i < es@.len() && mentions(#[trigger] expr_views(es@)[i], bl);
                    assert(mentions(e@->Tuple_0[i], bl));
                }
            }
            r
        },
        Expr::BinOp { op, left, right } => {
            proof {
                assert(e@ == ExprV::BinOp { op: *op, left: Box::new(left@), right: Box::new(right@) });
            }
            mentions_any(left, names) || mentions_any(right, names)
        },
        Expr::UnOp { op, expr } => {
            proof {
                assert(e@ == ExprV::UnOp { op: *op, expr: Box::new(expr@) });
            }
            mentions_any(expr, names)
        },
        Expr::If { cond, then_expr, else_expr } => {
            proof {
                assert(e@ == ExprV::If { cond: Box::new(cond@), then_expr: Box::new(then_expr@), else_expr: Box::new(else_expr@) });
            }
            mentions_any(cond, names) || mentions_any(then_expr, names) || mentions_any(else_expr, names)
        },
        Expr::Let { pat, bound_expr, body } => {
            proof {
                assert(e@ == ExprV::Let { pat: pat@, bound_expr: Box::new(bound_expr@), body: Box::new(body@) });
            }
            mentions_any(bound_expr, names) || mentions_any(body, names)
        },
        Expr::Match { expr, arms } => {
            proof {
                assert(e@ == ExprV::Match { expr: Box::new(expr@), arms: arms_view(arms@) });
            }
            if mentions_any(expr, names) {
                return true;
            }
            let mut i: usize = 0;
            while i < arms.len()
                invariant
                    0 <= i <= arms@.len(),
                    bl == names_of(names@),
                    e@ == (ExprV::Match { expr: Box::new(expr@), arms: arms_view(arms@) }),
                    forall|k: int| 0 <= k < i ==> !mentions(#[trigger] e@->arms[k].1, bl),
                decreases arms@.len() - i,
            {
                proof {
                    assert(decreases_to!(*e => (*e)->arms));
                    assert(decreases_to!(arms@ => arms@[i as int]));
                    assert(decreases_to!(arms@[i as int] => arms@[i as int].1));
                }
                if mentions_any(&arms[i].1, names) {
                    proof {
                        assert(mentions(e@->arms[i as int].1, bl));
                    }
                    return true;
                }
                i = i + 1;
            }
            false
        },
        Expr::Call { func, args } => {
            proof {
                assert(decreases_to!(*e => (*e)->Call_args));
                assert(e@ == ExprV::Call { func: func@, args: expr_views(args@) });
            }
            let r = mentions_list(args, names);
            proof {
                if r {
                    let i = choose|i: int| 0 <= i < args@.len() && mentions(#[trigger] expr_views(args@)[i], bl);
                    assert(mentions(e@->Call_args[i], bl));
                }
            }
            r
        },
        Expr::Constructor { name, args } => {
            proof {
                assert(decreases_to!(*e => (*e)->Constructor_args));
                assert(e@ == ExprV::Constructor { name: name@, args: expr_views(args@) });
            }
            let r = mentions_list(args, names);
            proof {
                if r {
                    let i = choose|i: int| 0 <= i < args@.len() && mentions(#[trigger] expr_views(args@)[i], bl);
                    assert(mentions(e@->Constructor_args[i], bl));
                }
            }
            r
        },
        Expr::ApplyRel { relation, args } => {
            proof {
                assert(decreases_to!(*e => (*e)->ApplyRel_args));
                assert(e@ == ExprV::ApplyRel { relation: relation@, args: expr_views(args@) });
            }
            let r = mentions_list(args, names);
            proof {
                if r {
                    let i = choose|i: int| 0 <= i < args@.len() && mentions(#[trigger] expr_views(args@)[i], bl);
                    assert(mentions(e@->ApplyRel_args[i], bl));
                }
            }
            r
        },
        Expr::Forall { binders, body } => {
            proof {
                assert(e@ == ExprV::Forall { binders: binders_view(binders@), body: Box::new(body@) });
            }
            mentions_any(body, names)
        },
        Expr::Exists { binders, body } => {
            proof {
                assert(e@ == ExprV::Exists { binders: binders_view(binders@), body: Box::new(body@) });
            }
            mentions_any(body, names)
        },
        Expr::Instantiate(inner) => {
            proof {
                assert(e@ == ExprV::Instantiate(Box::new(inner@)));
            }
            mentions_any(inner, names)
        },
        Expr::ExistentialBindings(bs) => {
            proof {
                assert(e@ == ExprV::ExistentialBindings(bindings_view(bs@)));
            }
            let mut i: usize = 0;
            while i < bs.len()
                invariant
                    0 <= i <= bs@.len(),
                    bl == names_of(names@),
                    e@ == ExprV::ExistentialBindings(bindings_view(bs@)),
                    forall|k: int| 0 <= k < i ==> !mentions(#[trigger] e@->ExistentialBindings_0[k].1, bl),
                decreases bs@.len() - i,
            {
                proof {
                    assert(decreases_to!(*e => (*e)->ExistentialBindings_0));
                    assert(decreases_to!(bs@ => bs@[i as int]));
                    assert(decreases_to!(bs@[i as int] => bs@[i as int].1));
                }
                if mentions_any(&bs[i].1, names) {
                    proof {
                        assert(mentions(e@->ExistentialBindings_0[i as int].1, bl));
                    }
                    return true;
                }
                i = i + 1;
            }
            false
        },
    }
}

/// Whether the list holds an expression equal to `e`.
pub fn contains_expr(v: &Vec<Expr>, e: &Expr) -> (r: bool)
    ensures
        r == expr_views(v@).contains(e@),
{
    let mut i: usize = 0;
    while i < v.len()
        invariant
            0 <= i <= v@.len(),
            forall|k: int| 0 <= k < i ==> #[trigger] expr_views(v@)[k] != e@,
        decreases v@.len() - i,
    {
        if v[i].same(e) {
            proof {
                assert(expr_views(v@)[i as int] == e@);
            }
            return true;
        }
        i = i + 1;
    }
    false
}

/// Adds the term `t` unless it mentions a bound name or is already there.
fn add_ground_term(t: &Expr, names: &Vec<Ident>, collected: &mut Vec<Expr>)
    ensures
        expr_views(final(collected)@) == add_term(t@, names_of(names@), expr_views(old(collected)@)),
{
    if !mentions_any(t, names) && !contains_expr(collected, t) {
        let ghost before = collected@;
        collected.push(t.deep_clone());
        proof {
            assert(expr_views(collected@) =~= expr_views(before).push(t@));
        }
    }
}

/// [`collect_rec`] over a list of expressions.
fn collect_list(es: &Vec<Expr>, names: &Vec<Ident>, collected: &mut Vec<Expr>)
    ensures
        expr_views(final(collected)@) == collect_all(expr_views(es@), names_of(names@), expr_views(old(collected)@)),
    decreases es,
{
    let ghost acc0 = expr_views(collected@);
    let ghost ev = expr_views(es@);
    let ghost bl = names_of(names@);
    let mut i: usize = 0;
    proof {
        assert(ev.take(0) =~= Seq::<ExprV>::empty());
    }
    while i < es.len()
        invariant
            0 <= i <= es@.len(),
            ev == expr_views(es@),
            bl == names_of(names@),
            expr_views(collected@) == collect_all(ev.take(i as int), bl, acc0),
        decreases es@.len() - i,
    {
        proof {
            assert(decreases_to!(*es => es@));
            assert(decreases_to!(es@ => es@[i as int]));
            assert(ev.take(i + 1).drop_last() =~= ev.take(i as int));
            assert(ev.take(i + 1).last() == es@[i as int]@);
        }
        collect_rec(&es[i], names, collected);
        i = i + 1;
    }
    proof {
        assert(ev.take(i as int) =~= ev);
    }
}

/// Collects the ground terms of `e` into `collected`; `names` holds the
/// variables bound around `e`.
#[verifier::loop_isolation(false)]
fn collect_rec(e: &Expr, names: &Vec<Ident>, collected: &mut Vec<Expr>)
    ensures
        expr_views(final(collected)@) == collect(e@, names_of(names@), expr_views(old(collected)@)),
    decreases e,
{
    let ghost bl = names_of(names@);
    let ghost acc0 = expr_views(collected@);
    match e {
        Expr::Call { func, args } => {
            proof {
                assert(decreases_to!(*e => (*e)->Call_args));
                assert(e@ == ExprV::Call { func: func@, args: expr_views(args@) });
            }
            collect_list(args, names, collected);
            add_ground_term(e, names, collected);
        },
        Expr::Constructor { name, args } => {
            proof {
                assert(decreases_to!(*e => (*e)->Constructor_args));
                assert(e@ == ExprV::Constructor { name: name@, args: expr_views(args@) });
            }
            collect_list(args, names, collected);
            if args.len() > 0 {
                add_ground_term(e, names, collected);
            }
        },
        Expr::Forall { binders, body } => {
            proof {
                assert(e@ == ExprV::Forall { binders: binders_view(binders@), body: Box::new(body@) });
            }
            let mut inner = copy_names(names);
            add_binder_names(binders, &mut inner);
            collect_rec(body, &inner, collected);
        },
        Expr::Exists { binders, body } => {
            proof {
                assert(e@ == ExprV::Exists { binders: binders_view(binders@), body: Box::new(body@) });
            }
            let mut inner = copy_names(names);
            add_binder_names(binders, &mut inner);
            collect_rec(body, &inner, collected);
        },
        Expr::Let { pat, bound_expr, body } => {
            proof {
                assert(e@ == ExprV::Let { pat: pat@, bound_expr: Box::new(bound_expr@), body: Box::new(body@) });
            }
            collect_rec(bound_expr, names, collected);
            let mut inner = copy_names(names);
            add_pattern_names(pat, &mut inner);
            collect_rec(body, &inner, collected);
        },
        Expr::Match { expr, arms } => {
            proof {
                assert(e@ == ExprV::Match { expr: Box::new(expr@), arms: arms_view(arms@) });
            }
            collect_rec(expr, names, collected);
            let ghost acc1 = expr_views(collected@);
            let ghost av = arms_view(arms@);
            let mut i: usize = 0;
            proof {
                assert(av.take(0) =~= Seq::<(PatternV, ExprV)>::empty());
            }
            while i < arms.len()
                invariant
                    0 <= i <= arms@.len(),
                    av == arms_view(arms@),
                    bl == names_of(names@),
                    expr_views(collected@) == collect_arms(av.take(i as int), bl, acc1),
                decreases arms@.len() - i,
            {
                proof {
                    assert(decreases_to!(*e => (*e)->arms));
                    assert(decreases_to!(arms@ => arms@[i as int]));
                    assert(decreases_to!(arms@[i as int] => arms@[i as int].1));
                    assert(av.take(i + 1).drop_last() =~= av.take(i as int));
                    assert(av.take(i + 1).last() == (arms@[i as int].0@, arms@[i as int].1@));
                }
                let mut inner = copy_names(names);
                add_pattern_names(&arms[i].0, &mut inner);
                collect_rec(&arms[i].1, &inner, collected);
                i = i + 1;
            }
            proof {
                assert(av.take(i as int) =~= av);
            }
        },
        Expr::Tuple(es) => {
            proof {
                assert(decreases_to!(*e => (*e)->Tuple_0));
                assert(e@ == ExprV::Tuple(expr_views(es@)));
            }
            collect_list(es, names, collected);
        },
        Expr::BinOp { op, left, right } => {
            proof {
                assert(e@ == ExprV::BinOp { op: *op, left: Box::new(left@), right: Box::new(right@) });
            }
            collect_rec(left, names, collected);
            collect_rec(right, names, collected);
        },
        Expr::UnOp { op, expr } => {
            proof {
                assert(e@ == ExprV::UnOp { op: *op, expr: Box::new(expr@) });
            }
            collect_rec(expr, names, collected);
        },
        Expr::If { cond, then_expr, else_expr } => {
            proof {
                assert(e@ == ExprV::If { cond: Box::new(cond@), then_expr: Box::new(then_expr@), else_expr: Box::new(else_expr@) });
            }
            collect_rec(cond, names, collected);
            collect_rec(then_expr, names, collected);
            collect_rec(else_expr, names, collected);
        },
        Expr::ApplyRel { relation, args } => {
            proof {
                assert(decreases_to!(*e => (*e)->ApplyRel_args));
                assert(e@ == ExprV::ApplyRel { relation: relation@, args: expr_views(args@) });
            }
            collect_list(args, names, collected);
        },
        Expr::Instantiate(inner) => {
            proof {
                assert(e@ == ExprV::Instantiate(Box::new(inner@)));
            }
            collect_rec(inner, names, collected);
        },
        Expr::ExistentialBindings(bs) => {
            proof {
                assert(e@ == ExprV::ExistentialBindings(bindings_view(bs@)));
            }
            let ghost bv = bindings_view(bs@);
            let mut i: usize = 0;
            proof {
                assert(bv.take(0) =~= Seq::<(Seq<char>, ExprV)>::empty());
            }
            while i < bs.len()
                invariant
                    0 <= i <= bs@.len(),
                    bv == bindings_view(bs@),
                    bl == names_of(names@),
                    expr_views(collected@) == collect_bindings(bv.take(i as int), bl, acc0),
                decreases bs@.len() - i,
            {
                proof {
                    assert(decreases_to!(*e => (*e)->ExistentialBindings_0));
                    assert(decreases_to!(bs@ => bs@[i as int]));
                    assert(decreases_to!(bs@[i as int] => bs@[i as int].1));
                    assert(bv.take(i + 1).drop_last() =~= bv.take(i as int));
                    assert(bv.take(i + 1).last() == (bs@[i as int].0@, bs@[i as int].1@));
                }
                collect_rec(&bs[i].1, names, collected);
                i = i + 1;
            }
            proof {
                assert(bv.take(i as int) =~= bv);
            }
        },
        Expr::BoolConst(_) => {},
        Expr::Var(_) => {},
    }
}

/// The ground terms of `e`: every call, and every constructor application
/// with arguments, that mentions no variable bound inside `e`, collected
/// bottom-up and left to right, each once.
pub fn collect_ground_terms(e: &Expr) -> (r: Vec<Expr>)
    ensures
        expr_views(r@) == ground_terms(e@),
{
    let mut collected: Vec<Expr> = Vec::new();
    let names: Vec<Ident> = Vec::new();
    proof {
        assert(names_of(names@) =~= Set::<Seq<char>>::empty());
        assert(expr_views(collected@) =~= Seq::<ExprV>::empty());
    }
    collect_rec(e, &names, &mut collected);
    collected
}

} // verus!
