//! The path of a formula to the solver: A-normal form, negation normal
//! form, relational abstraction; with the checks that tell, before a
//! formula is sent along it, whether each stage is defined on it.

use vstd::prelude::*;
use crate::anf::{NameGenerator, anf_defined, anf_of, flat, flat_list};
use crate::ast::{BaseType, Expr, ExprV, FunctionDef, Ident, PatternV, UnOp, expr_views, bindings_view};
use crate::nnf::{nnf_defined, nnf_of};
use crate::relabs::{is_application, relabs_defined, relabs_of, sigs_view};

verus! {

broadcast use vstd::std_specs::vec::group_vec_axioms, crate::ast::group_ast_views;

/// How many fresh names the A-normal form of `e` takes: one per call and
/// per constructor application with arguments.
pub open spec fn fresh_count(e: ExprV) -> nat
    decreases e, 1nat,
{
    match e {
        ExprV::Tuple(es) => count_list(es),
        ExprV::UnOp { expr, .. } => fresh_count(*expr),
        ExprV::BinOp { left, right, .. } => fresh_count(*left) + fresh_count(*right),
        ExprV::Call { args, .. } => count_list(args) + 1,
        ExprV::Constructor { args, .. } => if args.len() == 0 { 0 } else { count_list(args) + 1 },
        ExprV::If { cond, then_expr, else_expr } => fresh_count(*cond) + fresh_count(*then_expr) + fresh_count(*else_expr),
        ExprV::Let { bound_expr, body, .. } => fresh_count(*bound_expr) + fresh_count(*body),
        ExprV::Forall { body, .. } => fresh_count(*body),
        ExprV::Exists { body, .. } => fresh_count(*body),
        ExprV::Instantiate(inner) => fresh_count(*inner),
        _ => 0,
    }
}

/// [`fresh_count`] summed over a list.
pub open spec fn count_list(es: Seq<ExprV>) -> nat
    decreases es, 0nat,
{
    if es.len() == 0 {
        0
    } else {
        count_list(es.drop_last()) + fresh_count(es.last())
    }
}

/// The A-normal form takes exactly [`fresh_count`] fresh names, wherever the
/// counter starts.
pub proof fn lemma_fresh_count(e: ExprV, n: nat)
    ensures
        flat(e, n).2 == n + fresh_count(e),
        anf_of(e, n).1 == n + fresh_count(e),
    decreases e,
{
    match e {
        ExprV::Tuple(es) => lemma_count_list(es, n),
        ExprV::UnOp { expr, .. } => lemma_fresh_count(*expr, n),
        ExprV::BinOp { op, left, right } => {
            lemma_fresh_count(*left, n);
            lemma_fresh_count(*right, n + fresh_count(*left));
        },
        ExprV::Call { args, .. } => lemma_count_list(args, n),
        ExprV::Constructor { args, .. } => lemma_count_list(args, n),
        ExprV::If { cond, then_expr, else_expr } => {
            lemma_fresh_count(*cond, n);
            lemma_fresh_count(*then_expr, n + fresh_count(*cond));
            lemma_fresh_count(*else_expr, n + fresh_count(*cond) + fresh_count(*then_expr));
        },
        ExprV::Let { bound_expr, body, .. } => {
            lemma_fresh_count(*bound_expr, n);
            lemma_fresh_count(*body, n + fresh_count(*bound_expr));
        },
        ExprV::Forall { body, .. } => lemma_fresh_count(*body, n),
        ExprV::Exists { body, .. } => lemma_fresh_count(*body, n),
        ExprV::Instantiate(inner) => lemma_fresh_count(*inner, n),
        _ => {},
    }
}

/// [`lemma_fresh_count`] over a list.
pub proof fn lemma_count_list(es: Seq<ExprV>, n: nat)
    ensures
        flat_list(es, n).2 == n + count_list(es),
    decreases es,
{
    if es.len() > 0 {
        lemma_count_list(es.drop_last(), n);
        lemma_fresh_count(es.last(), n + count_list(es.drop_last()));
    }
}

/// What is left of `budget` after the fresh names of `e`; none when they
/// do not fit in it.
#[verifier::spinoff_prover]
pub fn fresh_budget(e: &Expr, budget: usize) -> (r: Option<usize>)
    ensures
        match r {
            Some(left) => fresh_count(e@) <= budget && left == budget - fresh_count(e@),
            None => fresh_count(e@) > budget,
        },
    decreases e, 1nat,
{
    match e {
        Expr::Tuple(es) => {
            proof {
                assert(decreases_to!(*e => (*e)->Tuple_0));
                assert(e@ == ExprV::Tuple(expr_views(es@)));
                assert(fresh_count(e@) == count_list(expr_views(es@)));
            }
            let r = list_budget(es, budget);
            r
        },
        Expr::UnOp { expr, .. } => fresh_budget(expr, budget),
        Expr::BinOp { left, right, .. } => match fresh_budget(left, budget) {
            Some(b) => fresh_budget(right, b),
            None => None,
        },
        Expr::Call { args, .. } => {
            proof {
                assert(decreases_to!(*e => (*e)->Call_args));
            }
            match list_budget(args, budget) {
                Some(b) => if b == 0 {
                    None
                } else {
                    Some(b - 1)
                },
                None => None,
            }
        },
        Expr::Constructor { args, .. } => {
            proof {
                assert(decreases_to!(*e => (*e)->Constructor_args));
            }
            if args.len() == 0 {
                Some(budget)
            } else {
                match list_budget(args, budget) {
                    Some(b) => if b == 0 {
                        None
                    } else {
                        Some(b - 1)
                    },
                    None => None,
                }
            }
        },
        Expr::If { cond, then_expr, else_expr } => match fresh_budget(cond, budget) {
            Some(b1) => match fresh_budget(then_expr, b1) {
                Some(b2) => fresh_budget(else_expr, b2),
                None => None,
            },
            None => None,
        },
        Expr::Let { bound_expr, body, .. } => match fresh_budget(bound_expr, budget) {
            Some(b) => fresh_budget(body, b),
            None => None,
        },
        Expr::Forall { body, .. } => fresh_budget(body, budget),
        Expr::Exists { body, .. } => fresh_budget(body, budget),
        Expr::Instantiate(inner) => fresh_budget(inner, budget),
        _ => Some(budget),
    }
}

/// [`fresh_budget`] over a list.
fn list_budget(es: &Vec<Expr>, budget: usize) -> (r: Option<usize>)
    ensures
        match r {
            Some(left) => count_list(expr_views(es@)) <= budget && left == budget - count_list(expr_views(es@)),
            None => count_list(expr_views(es@)) > budget,
        },
    decreases es, 0nat,
{
    let ghost ev = expr_views(es@);
    let mut b = budget;
    let mut i: usize = 0;
    proof {
        assert(ev.take(0) =~= Seq::<ExprV>::empty());
    }
    while i < es.len()
        invariant
            0 <= i <= es@.len(),
            ev == expr_views(es@),
            count_list(ev.take(i as int)) <= budget,
            b == budget - count_list(ev.take(i as int)),
        decreases es@.len() - i,
    {
        proof {
            assert(decreases_to!(*es => es@));
            assert(decreases_to!(es@ => es@[i as int]));
            assert(ev.take(i + 1).drop_last() =~= ev.take(i as int));
            assert(ev.take(i + 1).last() == es@[i as int]@);
        }
        match fresh_budget(&es[i], b) {
            Some(nb) => {
                b = nb;
            },
            None => {
                proof {
                    lemma_count_prefix(ev, i + 1);
                }
                return None;
            },
        }
        i = i + 1;
    }
    proof {
        assert(ev.take(i as int) =~= ev);
    }
    Some(b)
}

/// The count of a list is at least that of each prefix.
proof fn lemma_count_prefix(es: Seq<ExprV>, k: int)
    requires
        0 <= k <= es.len(),
    ensures
        count_list(es.take(k)) <= count_list(es),
    decreases es.len() - k,
{
    if k < es.len() {
        lemma_count_prefix(es, k + 1);
        assert(es.take(k + 1).drop_last() =~= es.take(k));
    } else {
        assert(es.take(k) =~= es);
    }
}

/// Whether the A-normal form is defined on `e` (see [`anf_defined`]).
pub fn is_anf_defined(e: &Expr) -> (r: bool)
    ensures
        r == anf_defined(e@),
    decreases e, 1nat,
{
    match e {
        Expr::BoolConst(b) => {
            proof {
                assert(e@ == ExprV::BoolConst(*b));
                assert(anf_defined(e@));
            }
            true
        },
        Expr::Var(x) => {
            proof {
                assert(e@ == ExprV::Var(x@));
            }
            true
        },
        Expr::Tuple(es) => {
            proof {
                assert(decreases_to!(*e => (*e)->Tuple_0));
                assert(e@ == ExprV::Tuple(expr_views(es@)));
            }
            let r = all_anf_defined(es);
            proof {
                lemma_all_defined(e@->Tuple_0, expr_views(es@), r);
            }
            r
        },
        Expr::UnOp { op, expr } => {
            proof {
                assert(e@ == ExprV::UnOp { op: *op, expr: Box::new((**expr)@) });
            }
            is_anf_defined(expr)
        },
        Expr::BinOp { op, left, right } => {
            proof {
                assert(e@ == ExprV::BinOp { op: *op, left: Box::new((**left)@), right: Box::new((**right)@) });
            }
            is_anf_defined(left) && is_anf_defined(right)
        },
        Expr::Call { func, args } => {
            proof {
                assert(decreases_to!(*e => (*e)->Call_args));
                assert(e@ == ExprV::Call { func: func@, args: expr_views(args@) });
            }
            let r = all_anf_defined(args);
            proof {
                lemma_all_defined(e@->Call_args, expr_views(args@), r);
            }
            r
        },
        Expr::Constructor { name, args } => {
            proof {
                assert(decreases_to!(*e => (*e)->Constructor_args));
                assert(e@ == ExprV::Constructor { name: name@, args: expr_views(args@) });
            }
            let r = all_anf_defined(args);
            proof {
                lemma_all_defined(e@->Constructor_args, expr_views(args@), r);
            }
            r
        },
        Expr::If { cond, then_expr, else_expr } => {
            proof {
                assert(e@ == ExprV::If {
                    cond: Box::new((**cond)@),
                    then_expr: Box::new((**then_expr)@),
                    else_expr: Box::new((**else_expr)@),
                });
            }
            is_anf_defined(cond) && is_anf_defined(then_expr) && is_anf_defined(else_expr)
        },
        Expr::Let { pat, bound_expr, body } => {
            proof {
                assert(e@ == ExprV::Let { pat: pat@, bound_expr: Box::new((**bound_expr)@), body: Box::new((**body)@) });
            }
            let is_ident = pattern_is_ident(pat);
            is_ident && is_anf_defined(bound_expr) && is_anf_defined(body)
        },
        Expr::Forall { binders, body } => {
            proof {
                assert(e@ == ExprV::Forall { binders: crate::ast::binders_view(binders@), body: Box::new((**body)@) });
            }
            is_anf_defined(body)
        },
        Expr::Exists { binders, body } => {
            proof {
                assert(e@ == ExprV::Exists { binders: crate::ast::binders_view(binders@), body: Box::new((**body)@) });
            }
            is_anf_defined(body)
        },
        Expr::Instantiate(inner) => {
            proof {
                assert(e@ == ExprV::Instantiate(Box::new((**inner)@)));
            }
            is_anf_defined(inner)
        },
        Expr::Match { expr, arms } => {
            proof {
                assert(e@ == ExprV::Match { expr: Box::new((**expr)@), arms: crate::ast::arms_view(arms@) });
            }
            false
        },
        Expr::ApplyRel { relation, args } => {
            proof {
                assert(e@ == ExprV::ApplyRel { relation: relation@, args: expr_views(args@) });
            }
            false
        },
        Expr::ExistentialBindings(bs) => {
            proof {
                assert(e@ == ExprV::ExistentialBindings(bindings_view(bs@)));
            }
            false
        },
    }
}

/// Carries "each is defined" from one name of a list to another.
proof fn lemma_all_defined(a: Seq<ExprV>, b: Seq<ExprV>, r: bool)
    requires
        a == b,
        r == forall|i: int| 0 <= i < b.len() ==> anf_defined(#[trigger] b[i]),
    ensures
        r == forall|i: int| 0 <= i < a.len() ==> anf_defined(#[trigger] a[i]),
{
    if !r {
        let k = choose|k: int| 0 <= k < b.len() && !anf_defined(#[trigger] b[k]);
        assert(!anf_defined(a[k]));
    }
}

/// Whether the A-normal form is defined on each expression of a list.
fn all_anf_defined(es: &Vec<Expr>) -> (r: bool)
    ensures
        r == forall|i: int| 0 <= i < es@.len() ==> anf_defined(#[trigger] expr_views(es@)[i]),
    decreases es, 0nat,
{
    let mut i: usize = 0;
    while i < es.len()
        invariant
            0 <= i <= es@.len(),
            forall|k: int| 0 <= k < i ==> anf_defined(#[trigger] expr_views(es@)[k]),
        decreases es@.len() - i,
    {
        proof {
            assert(decreases_to!(*es => es@));
            assert(decreases_to!(es@ => es@[i as int]));
        }
        if !is_anf_defined(&es[i]) {
            proof {
                assert(!anf_defined(expr_views(es@)[i as int]));
            }
            return false;
        }
        i = i + 1;
    }
    true
}

/// Whether the negation normal form is defined on every expression of a list.
fn all_nnf_defined(es: &Vec<Expr>, Ghost(owner): Ghost<Expr>) -> (r: bool)
    requires
        decreases_to!(owner => es@),
    ensures
        r == forall|i: int| 0 <= i < es@.len() ==> nnf_defined(#[trigger] expr_views(es@)[i]),
    decreases owner, 0int,
{
    let ghost ev = expr_views(es@);
    let mut i: usize = 0;
    while i < es.len()
        invariant
            0 <= i <= es@.len(),
            ev == expr_views(es@),
            decreases_to!(owner => es@),
            forall|k: int| 0 <= k < i ==> nnf_defined(#[trigger] ev[k]),
        decreases es@.len() - i,
    {
        proof {
            assert(decreases_to!(es@ => es@[i as int]));
            assert(ev[i as int] == es@[i as int]@);
        }
        if !is_nnf_defined(&es[i]) {
            return false;
        }
        i = i + 1;
    }
    true
}

/// Whether the negation normal form is defined on every bound value of a list of bindings.
fn all_bindings_nnf_defined(bs: &Vec<(Ident, Expr)>, Ghost(owner): Ghost<Expr>) -> (r: bool)
    requires
        decreases_to!(owner => bs@),
    ensures
        r == forall|i: int|
            0 <= i < bindings_view(bs@).len() ==> nnf_defined(#[trigger] bindings_view(bs@)[i].1),
    decreases owner, 0int,
{
    let ghost bv = bindings_view(bs@);
    let mut i: usize = 0;
    while i < bs.len()
        invariant
            0 <= i <= bs@.len(),
            bv == bindings_view(bs@),
            decreases_to!(owner => bs@),
            forall|k: int| 0 <= k < i ==> nnf_defined(#[trigger] bv[k].1),
        decreases bs@.len() - i,
    {
        proof {
            assert(decreases_to!(bs@ => bs@[i as int]));
            assert(decreases_to!(bs@[i as int] => bs@[i as int].1));
            assert(bv[i as int].1 == bs@[i as int].1@);
        }
        if !is_nnf_defined(&bs[i].1) {
            return false;
        }
        i = i + 1;
    }
    true
}

/// Whether the negation normal form is defined on `e` (see [`nnf_defined`]).
pub fn is_nnf_defined(e: &Expr) -> (r: bool)
    ensures
        r == nnf_defined(e@),
    decreases e, 2int,
{
    match e {
        Expr::Tuple(_) | Expr::Call { .. } | Expr::Constructor { .. } | Expr::ApplyRel { .. }
        | Expr::ExistentialBindings(_) => lists_nnf_defined(e),
        _ => nodes_nnf_defined(e),
    }
}

/// Carries "the normal form is defined on each" from one name of a list to another.
proof fn lemma_all_nnf_defined(a: Seq<ExprV>, b: Seq<ExprV>, r: bool)
    requires
        a == b,
        r == forall|i: int| 0 <= i < b.len() ==> nnf_defined(#[trigger] b[i]),
    ensures
        r == forall|i: int| 0 <= i < a.len() ==> nnf_defined(#[trigger] a[i]),
{
}

/// The same for the bound values of a list of bindings.
proof fn lemma_all_bindings_nnf_defined(a: Seq<(Seq<char>, ExprV)>, b: Seq<(Seq<char>, ExprV)>, r: bool)
    requires
        a == b,
        r == forall|i: int| 0 <= i < b.len() ==> nnf_defined(#[trigger] b[i].1),
    ensures
        r == forall|i: int| 0 <= i < a.len() ==> nnf_defined(#[trigger] a[i].1),
{
}

/// [`is_nnf_defined`] on the forms whose operands are a list.
#[verifier::spinoff_prover]
fn lists_nnf_defined(e: &Expr) -> (r: bool)
    requires
        e is Tuple || e is Call || e is Constructor || e is ApplyRel || e is ExistentialBindings,
    ensures
        r == nnf_defined(e@),
    decreases e, 1int,
{
    match e {
        Expr::Tuple(es) => {
            proof {
                assert(decreases_to!(*e => (*e)->Tuple_0));
                assert(e@ == ExprV::Tuple(expr_views(es@)));
            }
            let r = all_nnf_defined(es, Ghost(*e));
            proof {
                lemma_all_nnf_defined(e@->Tuple_0, expr_views(es@), r);
            }
            r
        },
        Expr::Call { func, args } => {
            proof {
                assert(decreases_to!(*e => (*e)->Call_args));
                assert(e@ == ExprV::Call { func: func@, args: expr_views(args@) });
            }
            let r = all_nnf_defined(args, Ghost(*e));
            proof {
                lemma_all_nnf_defined(e@->Call_args, expr_views(args@), r);
            }
            r
        },
        Expr::Constructor { name, args } => {
            proof {
                assert(decreases_to!(*e => (*e)->Constructor_args));
                assert(e@ == ExprV::Constructor { name: name@, args: expr_views(args@) });
            }
            let r = all_nnf_defined(args, Ghost(*e));
            proof {
                lemma_all_nnf_defined(e@->Constructor_args, expr_views(args@), r);
            }
            r
        },
        Expr::ApplyRel { relation, args } => {
            proof {
                assert(decreases_to!(*e => (*e)->ApplyRel_args));
                assert(e@ == ExprV::ApplyRel { relation: relation@, args: expr_views(args@) });
            }
            let r = all_nnf_defined(args, Ghost(*e));
            proof {
                lemma_all_nnf_defined(e@->ApplyRel_args, expr_views(args@), r);
            }
            r
        },
        Expr::ExistentialBindings(bs) => {
            proof {
                assert(decreases_to!(*e => (*e)->ExistentialBindings_0));
                assert(e@ == ExprV::ExistentialBindings(bindings_view(bs@)));
            }
            let r = all_bindings_nnf_defined(bs, Ghost(*e));
            proof {
                lemma_all_bindings_nnf_defined(e@->ExistentialBindings_0, bindings_view(bs@), r);
            }
            r
        },
        _ => false,
    }
}

/// [`is_nnf_defined`] on the other forms.
#[verifier::spinoff_prover]
fn nodes_nnf_defined(e: &Expr) -> (r: bool)
    requires
        !(e is Tuple || e is Call || e is Constructor || e is ApplyRel || e is ExistentialBindings),
    ensures
        r == nnf_defined(e@),
    decreases e, 1int,
{
    match e {
        Expr::UnOp { op, expr } => {
            proof {
                assert(e@ == ExprV::UnOp { op: *op, expr: Box::new(expr@) });
            }
            let r = is_nnf_defined(expr);
            proof {
                assert(r == nnf_defined(e@));
            }
            r
        },
        Expr::BinOp { op, left, right } => {
            proof {
                assert(e@ == ExprV::BinOp { op: *op, left: Box::new(left@), right: Box::new(right@) });
            }
            is_nnf_defined(left) && is_nnf_defined(right)
        },
        Expr::Forall { binders, body } => {
            proof {
                assert(e@ == ExprV::Forall { binders: crate::ast::binders_view(binders@), body: Box::new(body@) });
            }
            is_nnf_defined(body)
        },
        Expr::Exists { binders, body } => {
            proof {
                assert(e@ == ExprV::Exists { binders: crate::ast::binders_view(binders@), body: Box::new(body@) });
            }
            is_nnf_defined(body)
        },
        Expr::Let { pat, bound_expr, body } => {
            proof {
                assert(e@ == ExprV::Let { pat: pat@, bound_expr: Box::new(bound_expr@), body: Box::new(body@) });
            }
            is_nnf_defined(bound_expr) && is_nnf_defined(body)
        },
        Expr::If { cond, then_expr, else_expr } => {
            proof {
                assert(e@ == ExprV::If { cond: Box::new(cond@), then_expr: Box::new(then_expr@), else_expr: Box::new(else_expr@) });
            }
            is_nnf_defined(cond) && is_nnf_defined(then_expr) && is_nnf_defined(else_expr)
        },
        Expr::Instantiate(_) => false,
        Expr::Match { .. } => false,
        _ => true,
    }
}

/// Whether a pattern is a plain name.
fn pattern_is_ident(p: &crate::ast::Pattern) -> (r: bool)
    ensures
        r == (p@ is Ident),
{
    match p {
        crate::ast::Pattern::Ident(x) => {
            proof {
                assert(p@ == PatternV::Ident(x@));
            }
            true
        },
        crate::ast::Pattern::Wildcard => {
            proof {
                assert(p@ == PatternV::Wildcard);
            }
            false
        },
        crate::ast::Pattern::Tuple(ps) => {
            proof {
                assert(p@ == PatternV::Tuple(crate::ast::pattern_views(ps@)));
            }
            false
        },
        crate::ast::Pattern::Constructor { name, args, arg_types } => {
            proof {
                assert(p@ is Constructor);
            }
            false
        },
    }
}

/// Whether a bound value is a call-like application.
fn is_app(e: &Expr) -> (r: bool)
    ensures
        r == is_application(e@),
{
    match e {
        Expr::Call { .. } | Expr::Constructor { .. } | Expr::ApplyRel { .. } => true,
        _ => false,
    }
}

/// Whether the relational abstraction is defined on `e` (see [`relabs_defined`]).
pub fn is_relabs_defined(e: &Expr) -> (r: bool)
    ensures
        r == relabs_defined(e@),
    decreases e,
{
    match e {
        Expr::Let { pat, bound_expr, body } => {
            proof {
                assert(e@ == ExprV::Let { pat: pat@, bound_expr: Box::new((**bound_expr)@), body: Box::new((**body)@) });
            }
            let is_ident = pattern_is_ident(pat);
            proof {
                assert(relabs_defined(e@) == ((pat@ is Ident) && (is_application((**bound_expr)@) || relabs_defined((**bound_expr)@))
                    && relabs_defined((**body)@)));
            }
            if !is_ident {
                return false;
            }
            let a = is_app(bound_expr);
            let b1 = if a {
                true
            } else {
                is_relabs_defined(bound_expr)
            };
            if !b1 {
                return false;
            }
            is_relabs_defined(body)
        },
        Expr::UnOp { op, expr } => {
            proof {
                assert(e@ == ExprV::UnOp { op: *op, expr: Box::new((**expr)@) });
            }
            is_relabs_defined(expr)
        },
        Expr::BinOp { op, left, right } => {
            proof {
                assert(e@ == ExprV::BinOp { op: *op, left: Box::new((**left)@), right: Box::new((**right)@) });
            }
            is_relabs_defined(left) && is_relabs_defined(right)
        },
        Expr::Forall { binders, body } => {
            proof {
                assert(e@ == ExprV::Forall { binders: crate::ast::binders_view(binders@), body: Box::new((**body)@) });
            }
            is_relabs_defined(body)
        },
        Expr::Exists { binders, body } => {
            proof {
                assert(e@ == ExprV::Exists { binders: crate::ast::binders_view(binders@), body: Box::new((**body)@) });
            }
            is_relabs_defined(body)
        },
        Expr::If { cond, then_expr, else_expr } => {
            proof {
                assert(e@ == ExprV::If {
                    cond: Box::new((**cond)@),
                    then_expr: Box::new((**then_expr)@),
                    else_expr: Box::new((**else_expr)@),
                });
            }
            is_relabs_defined(cond) && is_relabs_defined(then_expr) && is_relabs_defined(else_expr)
        },
        Expr::Constructor { name, args } => {
            proof {
                assert(e@ == ExprV::Constructor { name: name@, args: expr_views(args@) });
            }
            args.len() == 0
        },
        Expr::ExistentialBindings(bs) => {
            let ghost bv = bindings_view(bs@);
            proof {
                assert(e@ == ExprV::ExistentialBindings(bv));
            }
            let mut i: usize = 0;
            while i < bs.len()
                invariant
                    0 <= i <= bs@.len(),
                    bv == bindings_view(bs@),
                    *e == Expr::ExistentialBindings(*bs),
                    e@ == ExprV::ExistentialBindings(bv),
                    forall|k: int| 0 <= k < i ==> (is_application(#[trigger] bv[k].1) || relabs_defined(bv[k].1)),
                decreases bs@.len() - i,
            {
                proof {
                    assert(decreases_to!(*e => (*e)->ExistentialBindings_0));
                    assert(decreases_to!(bs@ => bs@[i as int]));
                    assert(decreases_to!(bs@[i as int] => bs@[i as int].1));
                }
                if !(is_app(&bs[i].1) || is_relabs_defined(&bs[i].1)) {
                    proof {
                        assert(bv[i as int].1 == bs@[i as int].1@);
                        assert(!(is_application(bv[i as int].1) || relabs_defined(bv[i as int].1)));
                        assert(e@->ExistentialBindings_0[i as int].1 == bv[i as int].1);
                        assert(!relabs_defined(e@));
                    }
                    return false;
                }
                i = i + 1;
            }
            proof {
                assert forall|k: int| 0 <= k < bv.len() implies (is_application(#[trigger] e@->ExistentialBindings_0[k].1) || relabs_defined(
                    e@->ExistentialBindings_0[k].1,
                )) by {
                    assert(e@->ExistentialBindings_0[k] == bv[k]);
                }
            }
            true
        },
        Expr::Call { func, args } => {
            proof {
                assert(e@ == ExprV::Call { func: func@, args: expr_views(args@) });
            }
            false
        },
        Expr::Match { expr, arms } => {
            proof {
                assert(e@ == ExprV::Match { expr: Box::new((**expr)@), arms: crate::ast::arms_view(arms@) });
            }
            false
        },
        Expr::Instantiate(inner) => {
            proof {
                assert(e@ == ExprV::Instantiate(Box::new((**inner)@)));
            }
            false
        },
        Expr::BoolConst(b) => {
            proof {
                assert(e@ == ExprV::BoolConst(*b));
            }
            true
        },
        Expr::Var(x) => {
            proof {
                assert(e@ == ExprV::Var(x@));
            }
            true
        },
        Expr::Tuple(es) => {
            proof {
                assert(e@ == ExprV::Tuple(expr_views(es@)));
            }
            true
        },
        Expr::ApplyRel { relation, args } => {
            proof {
                assert(e@ == ExprV::ApplyRel { relation: relation@, args: expr_views(args@) });
            }
            true
        },
    }
}

} // verus!
