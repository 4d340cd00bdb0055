//! Skolemization of a negated verification condition: every existential
//! binder is pulled out to the global scope, to be declared as a constant,
//! and the quantifier itself disappears. A name bound twice is declared once.

use vstd::prelude::*;
use crate::ast::{BaseType, BaseTypeV, Expr, ExprV, Ident, Pattern, PatternV, arms_view, binders_view, bindings_view,
    clone_binders, expr_views};

verus! {

broadcast use vstd::std_specs::vec::group_vec_axioms, crate::ast::group_ast_views;

/// Skolem variables: names with their sorts.
pub type SkolemsV = Seq<(Seq<char>, BaseTypeV)>;

/// Whether a name is already among the skolem variables.
pub open spec fn has_skolem(acc: SkolemsV, x: Seq<char>) -> bool {
    exists|i: int| 0 <= i < acc.len() && (#[trigger] acc[i]).0 == x
}

/// `acc` with the binders whose names it does not have yet, in order.
pub open spec fn add_skolems(acc: SkolemsV, bs: SkolemsV) -> SkolemsV
    decreases bs.len(),
{
    if bs.len() == 0 {
        acc
    } else {
        let a = add_skolems(acc, bs.drop_last());
        if has_skolem(a, bs.last().0) {
            a
        } else {
            a.push(bs.last())
        }
    }
}

/// The skolem variables gathered from `e` after `acc`, and `e` without its
/// existential quantifiers.
pub open spec fn skolemized(e: ExprV, acc: SkolemsV) -> (SkolemsV, ExprV)
    decreases e,
{
    match e {
        ExprV::Exists { binders, body } => skolemized(*body, add_skolems(acc, binders)),
        ExprV::BinOp { op, left, right } => {
            let (a1, l) = skolemized(*left, acc);
            let (a2, r) = skolemized(*right, a1);
            (a2, ExprV::BinOp { op, left: Box::new(l), right: Box::new(r) })
        },
        ExprV::UnOp { op, expr } => {
            let (a1, x) = skolemized(*expr, acc);
            (a1, ExprV::UnOp { op, expr: Box::new(x) })
        },
        ExprV::If { cond, then_expr, else_expr } => {
            let (a1, c) = skolemized(*cond, acc);
            let (a2, t) = skolemized(*then_expr, a1);
            let (a3, f) = skolemized(*else_expr, a2);
            (a3, ExprV::If { cond: Box::new(c), then_expr: Box::new(t), else_expr: Box::new(f) })
        },
        ExprV::Let { pat, bound_expr, body } => {
            let (a1, b) = skolemized(*bound_expr, acc);
            let (a2, y) = skolemized(*body, a1);
            (a2, ExprV::Let { pat, bound_expr: Box::new(b), body: Box::new(y) })
        },
        ExprV::Match { expr, arms } => {
            let (a1, new_arms) = skolemized_arms(arms, acc);
            let (a2, t) = skolemized(*expr, a1);
            (a2, ExprV::Match { expr: Box::new(t), arms: new_arms })
        },
        ExprV::Forall { binders, body } => {
            let (a1, y) = skolemized(*body, acc);
            (a1, ExprV::Forall { binders, body: Box::new(y) })
        },
        ExprV::Tuple(es) => {
            let (a1, xs) = skolemized_list(es, acc);
            (a1, ExprV::Tuple(xs))
        },
        ExprV::Call { func, args } => {
            let (a1, xs) = skolemized_list(args, acc);
            (a1, ExprV::Call { func, args: xs })
        },
        ExprV::Constructor { name, args } => {
            let (a1, xs) = skolemized_list(args, acc);
            (a1, ExprV::Constructor { name, args: xs })
        },
        ExprV::ApplyRel { relation, args } => {
            let (a1, xs) = skolemized_list(args, acc);
            (a1, ExprV::ApplyRel { relation, args: xs })
        },
        ExprV::Instantiate(inner) => {
            let (a1, x) = skolemized(*inner, acc);
            (a1, ExprV::Instantiate(Box::new(x)))
        },
        ExprV::ExistentialBindings(bs) => {
            let (a1, xs) = skolemized_bindings(bs, acc);
            (a1, ExprV::ExistentialBindings(xs))
        },
        ExprV::BoolConst(_) => (acc, e),
        ExprV::Var(_) => (acc, e),
    }
}

/// [`skolemized`] over a list, left to right.
pub open spec fn skolemized_list(es: Seq<ExprV>, acc: SkolemsV) -> (SkolemsV, Seq<ExprV>)
    decreases es,
{
    if es.len() == 0 {
        (acc, Seq::empty())
    } else {
        let (a1, xs) = skolemized_list(es.drop_last(), acc);
        let (a2, x) = skolemized(es.last(), a1);
        (a2, xs.push(x))
    }
}

/// [`skolemized`] over the arms of a `match`.
pub open spec fn skolemized_arms(arms: Seq<(PatternV, ExprV)>, acc: SkolemsV) -> (SkolemsV, Seq<(PatternV, ExprV)>)
    decreases arms,
{
    if arms.len() == 0 {
        (acc, Seq::empty())
    } else {
        let (a1, xs) = skolemized_arms(arms.drop_last(), acc);
        let (a2, x) = skolemized(arms.last().1, a1);
        (a2, xs.push((arms.last().0, x)))
    }
}

/// [`skolemized`] over named bindings.
pub open spec fn skolemized_bindings(bs: Seq<(Seq<char>, ExprV)>, acc: SkolemsV) -> (SkolemsV, Seq<(Seq<char>, ExprV)>)
    decreases bs,
{
    if bs.len() == 0 {
        (acc, Seq::empty())
    } else {
        let (a1, xs) = skolemized_bindings(bs.drop_last(), acc);
        let (a2, x) = skolemized(bs.last().1, a1);
        (a2, xs.push((bs.last().0, x)))
    }
}

/// Whether no existential quantifier is left anywhere in `e`.
pub open spec fn exists_free(e: ExprV) -> bool
    decreases e,
{
    match e {
        ExprV::Exists { .. } => false,
        ExprV::BinOp { left, right, .. } => exists_free(*left) && exists_free(*right),
        ExprV::UnOp { expr, .. } => exists_free(*expr),
        ExprV::If { cond, then_expr, else_expr } => exists_free(*cond) && exists_free(*then_expr) && exists_free(*else_expr),
        ExprV::Let { bound_expr, body, .. } => exists_free(*bound_expr) && exists_free(*body),
        ExprV::Match { expr, arms } => exists_free(*expr) && forall|i: int| 0 <= i < arms.len() ==> exists_free(#[trigger] arms[i].1),
        ExprV::Forall { body, .. } => exists_free(*body),
        ExprV::Tuple(es) => forall|i: int| 0 <= i < es.len() ==> exists_free(#[trigger] es[i]),
        ExprV::Call { args, .. } => forall|i: int| 0 <= i < args.len() ==> exists_free(#[trigger] args[i]),
        ExprV::Constructor { args, .. } => forall|i: int| 0 <= i < args.len() ==> exists_free(#[trigger] args[i]),
        ExprV::ApplyRel { args, .. } => forall|i: int| 0 <= i < args.len() ==> exists_free(#[trigger] args[i]),
        ExprV::Instantiate(inner) => exists_free(*inner),
        ExprV::ExistentialBindings(bs) => forall|i: int| 0 <= i < bs.len() ==> exists_free(#[trigger] bs[i].1),
        _ => true,
    }
}

/// No name occurs twice among the skolem variables.
pub open spec fn skolems_distinct(acc: SkolemsV) -> bool {
    forall|i: int, j: int| 0 <= i < acc.len() && 0 <= j < acc.len() && i != j ==> (#[trigger] acc[i]).0 != (#[trigger] acc[j]).0
}

proof fn lemma_add_skolems(acc: SkolemsV, bs: SkolemsV)
    requires
        skolems_distinct(acc),
    ensures
        skolems_distinct(add_skolems(acc, bs)),
        add_skolems(acc, bs).len() >= acc.len(),
        forall|i: int| 0 <= i < acc.len() ==> #[trigger] add_skolems(acc, bs)[i] == acc[i],
    decreases bs.len(),
{
    if bs.len() > 0 {
        lemma_add_skolems(acc, bs.drop_last());
        let a = add_skolems(acc, bs.drop_last());
        if !has_skolem(a, bs.last().0) {
            let b = a.push(bs.last());
            assert forall|i: int, j: int| 0 <= i < b.len() && 0 <= j < b.len() && i != j implies (#[trigger] b[i]).0 != (#[trigger] b[j]).0 by {
                if i == a.len() {
                    assert(!((a[j]).0 == bs.last().0));
                } else if j == a.len() {
                    assert(!((a[i]).0 == bs.last().0));
                }
            }
        }
    }
}

/// Law: skolemization leaves no existential quantifier, and keeps the
/// skolem variables free of repeated names.
pub proof fn lemma_skolemized(e: ExprV, acc: SkolemsV)
    ensures
        exists_free(skolemized(e, acc).1),
        skolems_distinct(acc) ==> skolems_distinct(skolemized(e, acc).0),
    decreases e,
{
    match e {
        ExprV::Exists { binders, body } => {
            if skolems_distinct(acc) {
                lemma_add_skolems(acc, binders);
            }
            lemma_skolemized(*body, add_skolems(acc, binders));
        },
        ExprV::BinOp { op, left, right } => {
            lemma_skolemized(*left, acc);
            lemma_skolemized(*right, skolemized(*left, acc).0);
        },
        ExprV::UnOp { expr, .. } => lemma_skolemized(*expr, acc),
        ExprV::If { cond, then_expr, else_expr } => {
            let a1 = skolemized(*cond, acc).0;
            let a2 = skolemized(*then_expr, a1).0;
            lemma_skolemized(*cond, acc);
            lemma_skolemized(*then_expr, a1);
            lemma_skolemized(*else_expr, a2);
        },
        ExprV::Let { bound_expr, body, .. } => {
            lemma_skolemized(*bound_expr, acc);
            lemma_skolemized(*body, skolemized(*bound_expr, acc).0);
        },
        ExprV::Match { expr, arms } => {
            lemma_skolemized_arms(arms, acc);
            lemma_skolemized(*expr, skolemized_arms(arms, acc).0);
            let r = skolemized(e, acc).1;
            assert forall|i: int| 0 <= i < arms.len() implies exists_free(#[trigger] r->arms[i].1) by {
                assert(r->arms == skolemized_arms(arms, acc).1);
            }
        },
        ExprV::Forall { body, .. } => lemma_skolemized(*body, acc),
        ExprV::Tuple(es) => {
            lemma_skolemized_list(es, acc);
            let r = skolemized(e, acc).1;
            assert forall|i: int| 0 <= i < es.len() implies exists_free(#[trigger] r->Tuple_0[i]) by {
                assert(r->Tuple_0 == skolemized_list(es, acc).1);
            }
        },
        ExprV::Call { args, .. } => {
            lemma_skolemized_list(args, acc);
            let r = skolemized(e, acc).1;
            assert forall|i: int| 0 <= i < args.len() implies exists_free(#[trigger] r->Call_args[i]) by {
                assert(r->Call_args == skolemized_list(args, acc).1);
            }
        },
        ExprV::Constructor { args, .. } => {
            lemma_skolemized_list(args, acc);
            let r = skolemized(e, acc).1;
            assert forall|i: int| 0 <= i < args.len() implies exists_free(#[trigger] r->Constructor_args[i]) by {
                assert(r->Constructor_args == skolemized_list(args, acc).1);
            }
        },
        ExprV::ApplyRel { args, .. } => {
            lemma_skolemized_list(args, acc);
            let r = skolemized(e, acc).1;
            assert forall|i: int| 0 <= i < args.len() implies exists_free(#[trigger] r->ApplyRel_args[i]) by {
                assert(r->ApplyRel_args == skolemized_list(args, acc).1);
            }
        },
        ExprV::Instantiate(inner) => lemma_skolemized(*inner, acc),
        ExprV::ExistentialBindings(bs) => {
            lemma_skolemized_bindings(bs, acc);
            let r = skolemized(e, acc).1;
            assert forall|i: int| 0 <= i < bs.len() implies exists_free(#[trigger] r->ExistentialBindings_0[i].1) by {
                assert(r->ExistentialBindings_0 == skolemized_bindings(bs, acc).1);
            }
        },
        _ => {},
    }
}

proof fn lemma_skolemized_list(es: Seq<ExprV>, acc: SkolemsV)
    ensures
        skolemized_list(es, acc).1.len() == es.len(),
        forall|i: int| 0 <= i < es.len() ==> exists_free(#[trigger] skolemized_list(es, acc).1[i]),
        skolems_distinct(acc) ==> skolems_distinct(skolemized_list(es, acc).0),
    decreases es,
{
    if es.len() > 0 {
        lemma_skolemized_list(es.drop_last(), acc);
        lemma_skolemized(es.last(), skolemized_list(es.drop_last(), acc).0);
    }
}

proof fn lemma_skolemized_arms(arms: Seq<(PatternV, ExprV)>, acc: SkolemsV)
    ensures
        skolemized_arms(arms, acc).1.len() == arms.len(),
        forall|i: int| 0 <= i < arms.len() ==> exists_free(#[trigger] skolemized_arms(arms, acc).1[i].1),
        skolems_distinct(acc) ==> skolems_distinct(skolemized_arms(arms, acc).0),
    decreases arms,
{
    if arms.len() > 0 {
        lemma_skolemized_arms(arms.drop_last(), acc);
        lemma_skolemized(arms.last().1, skolemized_arms(arms.drop_last(), acc).0);
    }
}

proof fn lemma_skolemized_bindings(bs: Seq<(Seq<char>, ExprV)>, acc: SkolemsV)
    ensures
        skolemized_bindings(bs, acc).1.len() == bs.len(),
        forall|i: int| 0 <= i < bs.len() ==> exists_free(#[trigger] skolemized_bindings(bs, acc).1[i].1),
        skolems_distinct(acc) ==> skolems_distinct(skolemized_bindings(bs, acc).0),
    decreases bs,
{
    if bs.len() > 0 {
        lemma_skolemized_bindings(bs.drop_last(), acc);
        lemma_skolemized(bs.last().1, skolemized_bindings(bs.drop_last(), acc).0);
    }
}

/// `e` with every existential quantifier removed, its body left in its
/// place; every other node as it is.
pub open spec fn erase_exists(e: ExprV) -> ExprV
    decreases e,
{
    match e {
        ExprV::Exists { body, .. } => erase_exists(*body),
        ExprV::Forall { binders, body } => ExprV::Forall { binders, body: Box::new(erase_exists(*body)) },
        ExprV::BinOp { op, left, right } => ExprV::BinOp { op, left: Box::new(erase_exists(*left)), right: Box::new(erase_exists(*right)) },
        ExprV::UnOp { op, expr } => ExprV::UnOp { op, expr: Box::new(erase_exists(*expr)) },
        ExprV::If { cond, then_expr, else_expr } => ExprV::If {
            cond: Box::new(erase_exists(*cond)),
            then_expr: Box::new(erase_exists(*then_expr)),
            else_expr: Box::new(erase_exists(*else_expr)),
        },
        ExprV::Let { pat, bound_expr, body } => ExprV::Let { pat, bound_expr: Box::new(erase_exists(*bound_expr)), body: Box::new(erase_exists(*body)) },
        ExprV::Match { expr, arms } => ExprV::Match { expr: Box::new(erase_exists(*expr)), arms: erase_arms(arms) },
        ExprV::Tuple(es) => ExprV::Tuple(erase_list(es)),
        ExprV::Call { func, args } => ExprV::Call { func, args: erase_list(args) },
        ExprV::Constructor { name, args } => ExprV::Constructor { name, args: erase_list(args) },
        ExprV::ApplyRel { relation, args } => ExprV::ApplyRel { relation, args: erase_list(args) },
        ExprV::Instantiate(inner) => ExprV::Instantiate(Box::new(erase_exists(*inner))),
        ExprV::ExistentialBindings(bs) => ExprV::ExistentialBindings(erase_bindings(bs)),
        _ => e,
    }
}

/// [`erase_exists`] on each expression of a list.
pub open spec fn erase_list(es: Seq<ExprV>) -> Seq<ExprV>
    decreases es,
{
    Seq::new(es.len(), |i: int| if 0 <= i < es.len() { erase_exists(es[i]) } else { ExprV::BoolConst(true) })
}

/// [`erase_exists`] on each arm of a `match`.
pub open spec fn erase_arms(arms: Seq<(PatternV, ExprV)>) -> Seq<(PatternV, ExprV)>
    decreases arms,
{
    Seq::new(arms.len(), |i: int| if 0 <= i < arms.len() { (arms[i].0, erase_exists(arms[i].1)) } else { (PatternV::Wildcard, ExprV::BoolConst(true)) })
}

/// [`erase_exists`] on the expressions of named bindings.
pub open spec fn erase_bindings(bs: Seq<(Seq<char>, ExprV)>) -> Seq<(Seq<char>, ExprV)>
    decreases bs,
{
    Seq::new(bs.len(), |i: int| if 0 <= i < bs.len() { (bs[i].0, erase_exists(bs[i].1)) } else { (Seq::empty(), ExprV::BoolConst(true)) })
}

/// Law: skolemization changes only the existential quantifiers. The
/// quantifier-free rest is the input with its existential quantifiers
/// removed, every other node kept with its operator and in its place.
pub proof fn lemma_skolemized_erases(e: ExprV, acc: SkolemsV)
    ensures
        skolemized(e, acc).1 == erase_exists(e),
    decreases e,
{
    match e {
        ExprV::Exists { binders, body } => lemma_skolemized_erases(*body, add_skolems(acc, binders)),
        ExprV::BinOp { left, right, .. } => {
            lemma_skolemized_erases(*left, acc);
            lemma_skolemized_erases(*right, skolemized(*left, acc).0);
        },
        ExprV::UnOp { expr, .. } => lemma_skolemized_erases(*expr, acc),
        ExprV::If { cond, then_expr, else_expr } => {
            let a1 = skolemized(*cond, acc).0;
            let a2 = skolemized(*then_expr, a1).0;
            lemma_skolemized_erases(*cond, acc);
            lemma_skolemized_erases(*then_expr, a1);
            lemma_skolemized_erases(*else_expr, a2);
        },
        ExprV::Let { bound_expr, body, .. } => {
            lemma_skolemized_erases(*bound_expr, acc);
            lemma_skolemized_erases(*body, skolemized(*bound_expr, acc).0);
        },
        ExprV::Match { expr, arms } => {
            lemma_erases_arms(arms, acc);
            lemma_skolemized_erases(*expr, skolemized_arms(arms, acc).0);
        },
        ExprV::Forall { body, .. } => lemma_skolemized_erases(*body, acc),
        ExprV::Tuple(es) => lemma_erases_list(es, acc),
        ExprV::Call { args, .. } => lemma_erases_list(args, acc),
        ExprV::Constructor { args, .. } => lemma_erases_list(args, acc),
        ExprV::ApplyRel { args, .. } => lemma_erases_list(args, acc),
        ExprV::Instantiate(inner) => lemma_skolemized_erases(*inner, acc),
        ExprV::ExistentialBindings(bs) => lemma_erases_bindings(bs, acc),
        _ => {},
    }
}

proof fn lemma_erases_list(es: Seq<ExprV>, acc: SkolemsV)
    ensures
        skolemized_list(es, acc).1 == erase_list(es),
    decreases es,
{
    if es.len() > 0 {
        lemma_erases_list(es.drop_last(), acc);
        lemma_skolemized_erases(es.last(), skolemized_list(es.drop_last(), acc).0);
        assert(erase_list(es.drop_last()).push(erase_exists(es.last())) =~= erase_list(es));
    } else {
        assert(erase_list(es) =~= Seq::<ExprV>::empty());
    }
}

proof fn lemma_erases_arms(arms: Seq<(PatternV, ExprV)>, acc: SkolemsV)
    ensures
        skolemized_arms(arms, acc).1 == erase_arms(arms),
    decreases arms,
{
    if arms.len() > 0 {
        lemma_erases_arms(arms.drop_last(), acc);
        lemma_skolemized_erases(arms.last().1, skolemized_arms(arms.drop_last(), acc).0);
        assert(erase_arms(arms.drop_last()).push((arms.last().0, erase_exists(arms.last().1))) =~= erase_arms(arms));
    } else {
        assert(erase_arms(arms) =~= Seq::<(PatternV, ExprV)>::empty());
    }
}

proof fn lemma_erases_bindings(bs: Seq<(Seq<char>, ExprV)>, acc: SkolemsV)
    ensures
        skolemized_bindings(bs, acc).1 == erase_bindings(bs),
    decreases bs,
{
    if bs.len() > 0 {
        lemma_erases_bindings(bs.drop_last(), acc);
        lemma_skolemized_erases(bs.last().1, skolemized_bindings(bs.drop_last(), acc).0);
        assert(erase_bindings(bs.drop_last()).push((bs.last().0, erase_exists(bs.last().1))) =~= erase_bindings(bs));
    } else {
        assert(erase_bindings(bs) =~= Seq::<(Seq<char>, ExprV)>::empty());
    }
}

/// The names among some skolem variables.
pub open spec fn skolem_names(vs: SkolemsV) -> Set<Seq<char>> {
    Set::new(|x: Seq<char>| has_skolem(vs, x))
}

/// The names of all existential binders anywhere in `e`.
pub open spec fn exists_names(e: ExprV) -> Set<Seq<char>>
    decreases e,
{
    match e {
        ExprV::Exists { binders, body } => skolem_names(binders).union(exists_names(*body)),
        ExprV::BinOp { left, right, .. } => exists_names(*left).union(exists_names(*right)),
        ExprV::UnOp { expr, .. } => exists_names(*expr),
        ExprV::If { cond, then_expr, else_expr } => exists_names(*cond).union(exists_names(*then_expr)).union(exists_names(*else_expr)),
        ExprV::Let { bound_expr, body, .. } => exists_names(*bound_expr).union(exists_names(*body)),
        ExprV::Match { expr, arms } => exists_names(*expr).union(arms_exists_names(arms)),
        ExprV::Forall { body, .. } => exists_names(*body),
        ExprV::Tuple(es) => list_exists_names(es),
        ExprV::Call { args, .. } => list_exists_names(args),
        ExprV::Constructor { args, .. } => list_exists_names(args),
        ExprV::ApplyRel { args, .. } => list_exists_names(args),
        ExprV::Instantiate(inner) => exists_names(*inner),
        ExprV::ExistentialBindings(bs) => bindings_exists_names(bs),
        _ => Set::empty(),
    }
}

/// [`exists_names`] of a list of expressions.
pub open spec fn list_exists_names(es: Seq<ExprV>) -> Set<Seq<char>>
    decreases es,
{
    if es.len() == 0 {
        Set::empty()
    } else {
        list_exists_names(es.drop_last()).union(exists_names(es.last()))
    }
}

/// [`exists_names`] of the arms of a `match`.
pub open spec fn arms_exists_names(arms: Seq<(PatternV, ExprV)>) -> Set<Seq<char>>
    decreases arms,
{
    if arms.len() == 0 {
        Set::empty()
    } else {
        arms_exists_names(arms.drop_last()).union(exists_names(arms.last().1))
    }
}

/// [`exists_names`] of the expressions of named bindings.
pub open spec fn bindings_exists_names(bs: Seq<(Seq<char>, ExprV)>) -> Set<Seq<char>>
    decreases bs,
{
    if bs.len() == 0 {
        Set::empty()
    } else {
        bindings_exists_names(bs.drop_last()).union(exists_names(bs.last().1))
    }
}

/// Adding binders adds exactly their names.
proof fn lemma_add_skolems_names(acc: SkolemsV, bs: SkolemsV)
    ensures
        skolem_names(add_skolems(acc, bs)) == skolem_names(acc).union(skolem_names(bs)),
    decreases bs.len(),
{
    if bs.len() == 0 {
        assert(skolem_names(bs) =~= Set::empty());
        assert(skolem_names(acc).union(skolem_names(bs)) =~= skolem_names(acc));
    } else {
        let init = bs.drop_last();
        let l = bs.last();
        lemma_add_skolems_names(acc, init);
        let a = add_skolems(acc, init);
        assert(skolem_names(bs) =~= skolem_names(init).insert(l.0)) by {
            assert forall|x: Seq<char>| #[trigger] skolem_names(bs).contains(x) implies skolem_names(init).insert(l.0).contains(x) by {
                let i = choose|i: int| 0 <= i < bs.len() && (#[trigger] bs[i]).0 == x;
                if i < init.len() {
                    assert(init[i] == bs[i]);
                }
            }
            assert forall|x: Seq<char>| #[trigger] skolem_names(init).insert(l.0).contains(x) implies skolem_names(bs).contains(x) by {
                if x == l.0 {
                    assert(bs[bs.len() - 1].0 == x);
                } else {
                    let i = choose|i: int| 0 <= i < init.len() && (#[trigger] init[i]).0 == x;
                    assert(bs[i] == init[i]);
                }
            }
        }
        if has_skolem(a, l.0) {
            assert(skolem_names(a).contains(l.0));
        } else {
            assert(skolem_names(a.push(l)) =~= skolem_names(a).insert(l.0)) by {
                assert forall|x: Seq<char>| #[trigger] skolem_names(a.push(l)).contains(x) implies skolem_names(a).insert(l.0).contains(x) by {
                    let i = choose|i: int| 0 <= i < a.push(l).len() && (#[trigger] a.push(l)[i]).0 == x;
                    if i < a.len() {
                        assert(a.push(l)[i] == a[i]);
                    }
                }
                assert forall|x: Seq<char>| #[trigger] skolem_names(a).insert(l.0).contains(x) implies skolem_names(a.push(l)).contains(x) by {
                    if x == l.0 {
                        assert(a.push(l)[a.len() as int].0 == x);
                    } else {
                        let i = choose|i: int| 0 <= i < a.len() && (#[trigger] a[i]).0 == x;
                        assert(a.push(l)[i] == a[i]);
                    }
                }
            }
        }
        assert(skolem_names(add_skolems(acc, bs)) =~= skolem_names(acc).union(skolem_names(bs)));
    }
}

/// Law: the skolem variables gathered from `e` are those already gathered
/// and the binders of every existential quantifier of `e`, wherever it
/// stands, by name: none is lost and none is made up.
pub proof fn lemma_skolem_names(e: ExprV, acc: SkolemsV)
    ensures
        skolem_names(skolemized(e, acc).0) == skolem_names(acc).union(exists_names(e)),
    decreases e,
{
    match e {
        ExprV::Exists { binders, body } => {
            lemma_add_skolems_names(acc, binders);
            lemma_skolem_names(*body, add_skolems(acc, binders));
        },
        ExprV::BinOp { left, right, .. } => {
            lemma_skolem_names(*left, acc);
            lemma_skolem_names(*right, skolemized(*left, acc).0);
        },
        ExprV::UnOp { expr, .. } => lemma_skolem_names(*expr, acc),
        ExprV::If { cond, then_expr, else_expr } => {
            let a1 = skolemized(*cond, acc).0;
            let a2 = skolemized(*then_expr, a1).0;
            lemma_skolem_names(*cond, acc);
            lemma_skolem_names(*then_expr, a1);
            lemma_skolem_names(*else_expr, a2);
        },
        ExprV::Let { bound_expr, body, .. } => {
            lemma_skolem_names(*bound_expr, acc);
            lemma_skolem_names(*body, skolemized(*bound_expr, acc).0);
        },
        ExprV::Match { expr, arms } => {
            lemma_skolem_names_arms(arms, acc);
            lemma_skolem_names(*expr, skolemized_arms(arms, acc).0);
        },
        ExprV::Forall { body, .. } => lemma_skolem_names(*body, acc),
        ExprV::Tuple(es) => lemma_skolem_names_list(es, acc),
        ExprV::Call { args, .. } => lemma_skolem_names_list(args, acc),
        ExprV::Constructor { args, .. } => lemma_skolem_names_list(args, acc),
        ExprV::ApplyRel { args, .. } => lemma_skolem_names_list(args, acc),
        ExprV::Instantiate(inner) => lemma_skolem_names(*inner, acc),
        ExprV::ExistentialBindings(bs) => lemma_skolem_names_bindings(bs, acc),
        _ => {},
    }
    assert(skolem_names(skolemized(e, acc).0) =~= skolem_names(acc).union(exists_names(e)));
}

proof fn lemma_skolem_names_list(es: Seq<ExprV>, acc: SkolemsV)
    ensures
        skolem_names(skolemized_list(es, acc).0) == skolem_names(acc).union(list_exists_names(es)),
    decreases es,
{
    if es.len() > 0 {
        lemma_skolem_names_list(es.drop_last(), acc);
        lemma_skolem_names(es.last(), skolemized_list(es.drop_last(), acc).0);
    }
    assert(skolem_names(skolemized_list(es, acc).0) =~= skolem_names(acc).union(list_exists_names(es)));
}

proof fn lemma_skolem_names_arms(arms: Seq<(PatternV, ExprV)>, acc: SkolemsV)
    ensures
        skolem_names(skolemized_arms(arms, acc).0) == skolem_names(acc).union(arms_exists_names(arms)),
    decreases arms,
{
    if arms.len() > 0 {
        lemma_skolem_names_arms(arms.drop_last(), acc);
        lemma_skolem_names(arms.last().1, skolemized_arms(arms.drop_last(), acc).0);
    }
    assert(skolem_names(skolemized_arms(arms, acc).0) =~= skolem_names(acc).union(arms_exists_names(arms)));
}

proof fn lemma_skolem_names_bindings(bs: Seq<(Seq<char>, ExprV)>, acc: SkolemsV)
    ensures
        skolem_names(skolemized_bindings(bs, acc).0) == skolem_names(acc).union(bindings_exists_names(bs)),
    decreases bs,
{
    if bs.len() > 0 {
        lemma_skolem_names_bindings(bs.drop_last(), acc);
        lemma_skolem_names(bs.last().1, skolemized_bindings(bs.drop_last(), acc).0);
    }
    assert(skolem_names(skolemized_bindings(bs, acc).0) =~= skolem_names(acc).union(bindings_exists_names(bs)));
}

/// Adds the binders whose names are not among the skolem variables yet.
fn push_new_binders(bs: &Vec<(Ident, BaseType)>, vars: &mut Vec<(Ident, BaseType)>)
    ensures
        binders_view(final(vars)@) == add_skolems(binders_view(old(vars)@), binders_view(bs@)),
{
    let ghost bv = binders_view(bs@);
    let ghost a0 = binders_view(vars@);
    let mut i: usize = 0;
    proof {
        assert(bv.take(0) =~= Seq::<(Seq<char>, BaseTypeV)>::empty());
    }
    while i < bs.len()
        invariant
            0 <= i <= bs@.len(),
            bv == binders_view(bs@),
            binders_view(vars@) == add_skolems(a0, bv.take(i as int)),
        decreases bs@.len() - i,
    {
        proof {
            assert(bv.take(i + 1).drop_last() =~= bv.take(i as int));
            assert(bv.take(i + 1).last() == bv[i as int]);
        }
        let mut found = false;
        let mut k: usize = 0;
        while k < vars.len()
            invariant
                0 <= k <= vars@.len(),
                0 <= i < bs@.len(),
                !found ==> forall|q: int| 0 <= q < k ==> (#[trigger] vars@[q]).0@ != bs@[i as int].0@,
                found ==> has_skolem(binders_view(vars@), bs@[i as int].0@),
            decreases vars@.len() - k,
        {
            if vars[k].0.eq(&bs[i].0) {
                proof {
                    assert(binders_view(vars@)[k as int].0 == bs@[i as int].0@);
                }
                found = true;
            }
            k = k + 1;
        }
        if !found {
            let ghost before = vars@;
            vars.push((bs[i].0.clone(), bs[i].1.deep_clone()));
            proof {
                assert forall|q: int| 0 <= q < binders_view(before).len() implies (#[trigger] binders_view(before)[q]).0 != bv[i as int].0 by {
                    assert(before[q].0@ != bs@[i as int].0@);
                }
                assert(binders_view(vars@) =~= binders_view(before).push(bv[i as int]));
            }
        }
        i = i + 1;
    }
    proof {
        assert(bv.take(i as int) =~= bv);
    }
}

/// [`extract_exists`] over a list of expressions.
fn extract_list(es: &Vec<Expr>, vars: &mut Vec<(Ident, BaseType)>) -> (r: Vec<Expr>)
    ensures
        (binders_view(final(vars)@), expr_views(r@)) == skolemized_list(expr_views(es@), binders_view(old(vars)@)),
    decreases es,
{
    let ghost ev = expr_views(es@);
    let ghost a0 = binders_view(vars@);
    let mut out: Vec<Expr> = Vec::new();
    let mut i: usize = 0;
    proof {
        assert(ev.take(0) =~= Seq::<ExprV>::empty());
        assert(expr_views(out@) =~= Seq::<ExprV>::empty());
    }
    while i < es.len()
        invariant
            0 <= i <= es@.len(),
            ev == expr_views(es@),
            (binders_view(vars@), expr_views(out@)) == skolemized_list(ev.take(i as int), a0),
        decreases es@.len() - i,
    {
        proof {
            assert(decreases_to!(*es => es@));
            assert(decreases_to!(es@ => es@[i as int]));
            assert(ev.take(i + 1).drop_last() =~= ev.take(i as int));
            assert(ev.take(i + 1).last() == es@[i as int]@);
        }
        let ghost before = out@;
        let x = extract_exists(&es[i], vars);
        out.push(x);
        proof {
            assert(expr_views(out@) =~= expr_views(before).push(x@));
        }
        i = i + 1;
    }
    proof {
        assert(ev.take(i as int) =~= ev);
    }
    out
}

/// Gathers the existential binders of `e` into `vars` and returns `e`
/// without them.
#[verifier::loop_isolation(false)]
fn extract_exists(e: &Expr, vars: &mut Vec<(Ident, BaseType)>) -> (r: Expr)
    ensures
        (binders_view(final(vars)@), r@) == skolemized(e@, binders_view(old(vars)@)),
    decreases e,
{
    match e {
        Expr::Exists { binders, body } => {
            proof {
                assert(e@ == ExprV::Exists { binders: binders_view(binders@), body: Box::new(body@) });
            }
            push_new_binders(binders, vars);
            extract_exists(body, vars)
        },
        Expr::BinOp { op, left, right } => {
            proof {
                assert(e@ == ExprV::BinOp { op: *op, left: Box::new(left@), right: Box::new(right@) });
            }
            let l = extract_exists(left, vars);
            let r = extract_exists(right, vars);
            Expr::BinOp { op: *op, left: Box::new(l), right: Box::new(r) }
        },
        Expr::UnOp { op, expr } => {
            proof {
                assert(e@ == ExprV::UnOp { op: *op, expr: Box::new(expr@) });
            }
            let x = extract_exists(expr, vars);
            Expr::UnOp { op: *op, expr: Box::new(x) }
        },
        Expr::If { cond, then_expr, else_expr } => {
            proof {
                assert(e@ == ExprV::If { cond: Box::new(cond@), then_expr: Box::new(then_expr@), else_expr: Box::new(else_expr@) });
            }
            let c = extract_exists(cond, vars);
            let t = extract_exists(then_expr, vars);
            let f = extract_exists(else_expr, vars);
            Expr::If { cond: Box::new(c), then_expr: Box::new(t), else_expr: Box::new(f) }
        },
        Expr::Let { pat, bound_expr, body } => {
            proof {
                assert(e@ == ExprV::Let { pat: pat@, bound_expr: Box::new(bound_expr@), body: Box::new(body@) });
            }
            let b = extract_exists(bound_expr, vars);
            let y = extract_exists(body, vars);
            Expr::Let { pat: pat.deep_clone(), bound_expr: Box::new(b), body: Box::new(y) }
        },
        Expr::Match { expr, arms } => {
            proof {
                assert(e@ == ExprV::Match { expr: Box::new(expr@), arms: arms_view(arms@) });
            }
            let ghost av = arms_view(arms@);
            let ghost a0 = binders_view(vars@);
            let mut out: Vec<(Pattern, Expr)> = Vec::new();
            let mut i: usize = 0;
            proof {
                assert(av.take(0) =~= Seq::<(PatternV, ExprV)>::empty());
                assert(arms_view(out@) =~= Seq::<(PatternV, ExprV)>::empty());
            }
            while i < arms.len()
                invariant
                    0 <= i <= arms@.len(),
                    av == arms_view(arms@),
                    (binders_view(vars@), arms_view(out@)) == skolemized_arms(av.take(i as int), a0),
                decreases arms@.len() - i,
            {
                proof {
                    assert(decreases_to!(*e => (*e)->arms));
                    assert(decreases_to!(arms@ => arms@[i as int]));
                    assert(decreases_to!(arms@[i as int] => arms@[i as int].1));
                    assert(av.take(i + 1).drop_last() =~= av.take(i as int));
                    assert(av.take(i + 1).last() == (arms@[i as int].0@, arms@[i as int].1@));
                }
                let ghost before = out@;
                let x = extract_exists(&arms[i].1, vars);
                out.push((arms[i].0.deep_clone(), x));
                proof {
                    assert(arms_view(out@) =~= arms_view(before).push((arms@[i as int].0@, x@)));
                }
                i = i + 1;
            }
            proof {
                assert(av.take(i as int) =~= av);
            }
            let t = extract_exists(expr, vars);
            Expr::Match { expr: Box::new(t), arms: out }
        },
        Expr::Forall { binders, body } => {
            proof {
                assert(e@ == ExprV::Forall { binders: binders_view(binders@), body: Box::new(body@) });
            }
            let y = extract_exists(body, vars);
            Expr::Forall { binders: clone_binders(binders), body: Box::new(y) }
        },
        Expr::Tuple(es) => {
            proof {
                assert(decreases_to!(*e => (*e)->Tuple_0));
                assert(e@ == ExprV::Tuple(expr_views(es@)));
            }
            Expr::Tuple(extract_list(es, vars))
        },
        Expr::Call { func, args } => {
            proof {
                assert(decreases_to!(*e => (*e)->Call_args));
                assert(e@ == ExprV::Call { func: func@, args: expr_views(args@) });
            }
            Expr::Call { func: func.clone(), args: extract_list(args, vars) }
        },
        Expr::Constructor { name, args } => {
            proof {
                assert(decreases_to!(*e => (*e)->Constructor_args));
                assert(e@ == ExprV::Constructor { name: name@, args: expr_views(args@) });
            }
            Expr::Constructor { name: name.clone(), args: extract_list(args, vars) }
        },
        Expr::ApplyRel { relation, args } => {
            proof {
                assert(decreases_to!(*e => (*e)->ApplyRel_args));
                assert(e@ == ExprV::ApplyRel { relation: relation@, args: expr_views(args@) });
            }
            Expr::ApplyRel { relation: relation.clone(), args: extract_list(args, vars) }
        },
        Expr::Instantiate(inner) => {
            proof {
                assert(e@ == ExprV::Instantiate(Box::new(inner@)));
            }
            Expr::Instantiate(Box::new(extract_exists(inner, vars)))
        },
        Expr::ExistentialBindings(bs) => {
            proof {
                assert(e@ == ExprV::ExistentialBindings(bindings_view(bs@)));
            }
            let ghost bv = bindings_view(bs@);
            let ghost a0 = binders_view(vars@);
            let mut out: Vec<(Ident, Expr)> = Vec::new();
            let mut i: usize = 0;
            proof {
                assert(bv.take(0) =~= Seq::<(Seq<char>, ExprV)>::empty());
                assert(bindings_view(out@) =~= Seq::<(Seq<char>, ExprV)>::empty());
            }
            while i < bs.len()
                invariant
                    0 <= i <= bs@.len(),
                    bv == bindings_view(bs@),
                    (binders_view(vars@), bindings_view(out@)) == skolemized_bindings(bv.take(i as int), a0),
                decreases bs@.len() - i,
            {
                proof {
                    assert(decreases_to!(*e => (*e)->ExistentialBindings_0));
                    assert(decreases_to!(bs@ => bs@[i as int]));
                    assert(decreases_to!(bs@[i as int] => bs@[i as int].1));
                    assert(bv.take(i + 1).drop_last() =~= bv.take(i as int));
                    assert(bv.take(i + 1).last() == (bs@[i as int].0@, bs@[i as int].1@));
                }
                let ghost before = out@;
                let x = extract_exists(&bs[i].1, vars);
                out.push((bs[i].0.clone(), x));
                proof {
                    assert(bindings_view(out@) =~= bindings_view(before).push((bs@[i as int].0@, x@)));
                }
                i = i + 1;
            }
            proof {
                assert(bv.take(i as int) =~= bv);
            }
            Expr::ExistentialBindings(out)
        },
        Expr::BoolConst(b) => Expr::BoolConst(*b),
        Expr::Var(x) => Expr::Var(x.clone()),
    }
}

/// Pulls every existential binder of `expr` out as a skolem variable, each
/// name once, and returns them with the quantifier-free rest.
pub fn skolemize_expr(expr: &Expr) -> (r: (Vec<(Ident, BaseType)>, Expr))
    ensures
        (binders_view(r.0@), r.1@) == skolemized(expr@, Seq::empty()),
        exists_free(r.1@),
        skolems_distinct(binders_view(r.0@)),
{
    let mut vars: Vec<(Ident, BaseType)> = Vec::new();
    proof {
        assert(binders_view(vars@) =~= Seq::<(Seq<char>, BaseTypeV)>::empty());
        lemma_skolemized(expr@, Seq::empty());
    }
    let body = extract_exists(expr, &mut vars);
    (vars, body)
}

} // verus!
