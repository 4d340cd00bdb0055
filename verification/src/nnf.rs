//! Negation normal form: every `!` is pushed down to the leaves (variables,
//! calls, constructor applications and relation applications), so that the
//! relational abstraction can read off the polarity of every call.

use vstd::prelude::*;
use crate::ast::{BinOp, Expr, ExprV, Ident, UnOp, bindings_view, binders_view, clone_binders, clone_exprs, expr_views};

verus! {

broadcast use vstd::std_specs::vec::group_vec_axioms, crate::ast::group_ast_views;

/// Whether the NNF transformation is defined on `e`: no `match` and no
/// unexpanded instantiation hint where it looks.
pub open spec fn nnf_defined(e: ExprV) -> bool
    decreases e,
{
    match e {
        ExprV::UnOp { expr, .. } => nnf_defined(*expr),
        ExprV::BinOp { left, right, .. } => nnf_defined(*left) && nnf_defined(*right),
        ExprV::Forall { body, .. } => nnf_defined(*body),
        ExprV::Exists { body, .. } => nnf_defined(*body),
        ExprV::Let { bound_expr, body, .. } => nnf_defined(*bound_expr) && nnf_defined(*body),
        ExprV::If { cond, then_expr, else_expr } => nnf_defined(*cond) && nnf_defined(*then_expr) && nnf_defined(*else_expr),
        ExprV::Tuple(es) => forall|i: int| 0 <= i < es.len() ==> nnf_defined(#[trigger] es[i]),
        ExprV::Call { args, .. } => forall|i: int| 0 <= i < args.len() ==> nnf_defined(#[trigger] args[i]),
        ExprV::Constructor { args, .. } => forall|i: int| 0 <= i < args.len() ==> nnf_defined(#[trigger] args[i]),
        ExprV::ApplyRel { args, .. } => forall|i: int| 0 <= i < args.len() ==> nnf_defined(#[trigger] args[i]),
        ExprV::ExistentialBindings(bs) => forall|i: int| 0 <= i < bs.len() ==> nnf_defined(#[trigger] bs[i].1),
        ExprV::Instantiate(_) => false,
        ExprV::Match { .. } => false,
        _ => true,
    }
}

/// `!e` on a leaf, or `e` itself.
pub open spec fn negate_leaf(e: ExprV, neg: bool) -> ExprV {
    if neg {
        ExprV::UnOp { op: UnOp::Not, expr: Box::new(e) }
    } else {
        e
    }
}

/// The NNF of `e`, or of `!e` when `neg` holds.
pub open spec fn nnf_of(e: ExprV, neg: bool) -> ExprV
    decreases e,
{
    match e {
        ExprV::BoolConst(b) => ExprV::BoolConst(b != neg),
        ExprV::Var(_) => negate_leaf(e, neg),
        ExprV::UnOp { expr, .. } => nnf_of(*expr, !neg),
        ExprV::BinOp { op, left, right } => match op {
            BinOp::And => ExprV::BinOp {
                op: if neg { BinOp::Or } else { BinOp::And },
                left: Box::new(nnf_of(*left, neg)),
                right: Box::new(nnf_of(*right, neg)),
            },
            BinOp::Or => ExprV::BinOp {
                op: if neg { BinOp::And } else { BinOp::Or },
                left: Box::new(nnf_of(*left, neg)),
                right: Box::new(nnf_of(*right, neg)),
            },
            BinOp::Implies => ExprV::BinOp {
                op: if neg { BinOp::And } else { BinOp::Or },
                left: Box::new(nnf_of(*left, !neg)),
                right: Box::new(nnf_of(*right, neg)),
            },
            BinOp::Eq => ExprV::BinOp {
                op: if neg { BinOp::Neq } else { BinOp::Eq },
                left: Box::new(nnf_of(*left, false)),
                right: Box::new(nnf_of(*right, false)),
            },
            BinOp::Neq => ExprV::BinOp {
                op: if neg { BinOp::Eq } else { BinOp::Neq },
                left: Box::new(nnf_of(*left, false)),
                right: Box::new(nnf_of(*right, false)),
            },
        },
        ExprV::Forall { binders, body } => if neg {
            ExprV::Exists { binders, body: Box::new(nnf_of(*body, true)) }
        } else {
            ExprV::Forall { binders, body: Box::new(nnf_of(*body, false)) }
        },
        ExprV::Exists { binders, body } => if neg {
            ExprV::Forall { binders, body: Box::new(nnf_of(*body, true)) }
        } else {
            ExprV::Exists { binders, body: Box::new(nnf_of(*body, false)) }
        },
        ExprV::Let { pat, bound_expr, body } => ExprV::Let {
            pat,
            bound_expr: Box::new(nnf_of(*bound_expr, false)),
            body: Box::new(nnf_of(*body, neg)),
        },
        ExprV::If { cond, then_expr, else_expr } => ExprV::If {
            cond: Box::new(nnf_of(*cond, false)),
            then_expr: Box::new(nnf_of(*then_expr, neg)),
            else_expr: Box::new(nnf_of(*else_expr, neg)),
        },
        ExprV::Call { func, args } => negate_leaf(ExprV::Call { func, args: nnf_list(args) }, neg),
        ExprV::Constructor { name, args } => negate_leaf(ExprV::Constructor { name, args: nnf_list(args) }, neg),
        ExprV::ApplyRel { relation, args } => negate_leaf(ExprV::ApplyRel { relation, args: nnf_list(args) }, neg),
        ExprV::Tuple(es) => ExprV::Tuple(nnf_list(es)),
        ExprV::ExistentialBindings(bs) => ExprV::ExistentialBindings(nnf_bindings(bs)),
        _ => e,
    }
}

/// The NNF, in positive polarity, of each expression of a list.
pub open spec fn nnf_list(es: Seq<ExprV>) -> Seq<ExprV>
    decreases es,
{
    Seq::new(es.len(), |i: int| if 0 <= i < es.len() { nnf_of(es[i], false) } else { ExprV::BoolConst(true) })
}

/// The NNF, in positive polarity, of the expressions of named bindings.
pub open spec fn nnf_bindings(bs: Seq<(Seq<char>, ExprV)>) -> Seq<(Seq<char>, ExprV)>
    decreases bs,
{
    Seq::new(bs.len(), |i: int| if 0 <= i < bs.len() { (bs[i].0, nnf_of(bs[i].1, false)) } else { (Seq::empty(), ExprV::BoolConst(true)) })
}

/// A leaf a negation may stand on.
pub open spec fn is_atom(e: ExprV) -> bool {
    e is Var || e is Call || e is Constructor || e is ApplyRel
}

/// Whether `e` is in negation normal form: in every sub-expression,
/// negations stand on atoms only and no implication is left.
pub open spec fn is_nnf(e: ExprV) -> bool
    decreases e,
{
    match e {
        ExprV::UnOp { expr, .. } => is_atom(*expr) && is_nnf(*expr),
        ExprV::BinOp { op, left, right } => op != BinOp::Implies && is_nnf(*left) && is_nnf(*right),
        ExprV::Forall { body, .. } => is_nnf(*body),
        ExprV::Exists { body, .. } => is_nnf(*body),
        ExprV::Let { bound_expr, body, .. } => is_nnf(*bound_expr) && is_nnf(*body),
        ExprV::If { cond, then_expr, else_expr } => is_nnf(*cond) && is_nnf(*then_expr) && is_nnf(*else_expr),
        ExprV::Tuple(es) => forall|i: int| 0 <= i < es.len() ==> is_nnf(#[trigger] es[i]),
        ExprV::Call { args, .. } => forall|i: int| 0 <= i < args.len() ==> is_nnf(#[trigger] args[i]),
        ExprV::Constructor { args, .. } => forall|i: int| 0 <= i < args.len() ==> is_nnf(#[trigger] args[i]),
        ExprV::ApplyRel { args, .. } => forall|i: int| 0 <= i < args.len() ==> is_nnf(#[trigger] args[i]),
        ExprV::ExistentialBindings(bs) => forall|i: int| 0 <= i < bs.len() ==> is_nnf(#[trigger] bs[i].1),
        ExprV::Instantiate(_) => false,
        ExprV::Match { .. } => false,
        _ => true,
    }
}

/// Law: the transformation yields negation normal form, in either polarity.
pub proof fn lemma_nnf_is_nnf(e: ExprV, neg: bool)
    requires
        nnf_defined(e),
    ensures
        is_nnf(nnf_of(e, neg)),
    decreases e,
{
    match e {
        ExprV::UnOp { expr, .. } => lemma_nnf_is_nnf(*expr, !neg),
        ExprV::BinOp { op, left, right } => match op {
            BinOp::And => {
                lemma_nnf_is_nnf(*left, neg);
                lemma_nnf_is_nnf(*right, neg);
            },
            BinOp::Or => {
                lemma_nnf_is_nnf(*left, neg);
                lemma_nnf_is_nnf(*right, neg);
            },
            BinOp::Implies => {
                lemma_nnf_is_nnf(*left, !neg);
                lemma_nnf_is_nnf(*right, neg);
            },
            BinOp::Eq => {
                lemma_nnf_is_nnf(*left, false);
                lemma_nnf_is_nnf(*right, false);
            },
            BinOp::Neq => {
                lemma_nnf_is_nnf(*left, false);
                lemma_nnf_is_nnf(*right, false);
            },
        },
        ExprV::Forall { body, .. } => lemma_nnf_is_nnf(*body, neg),
        ExprV::Exists { body, .. } => lemma_nnf_is_nnf(*body, neg),
        ExprV::Let { bound_expr, body, .. } => {
            lemma_nnf_is_nnf(*bound_expr, false);
            lemma_nnf_is_nnf(*body, neg);
        },
        ExprV::If { cond, then_expr, else_expr } => {
            lemma_nnf_is_nnf(*cond, false);
            lemma_nnf_is_nnf(*then_expr, neg);
            lemma_nnf_is_nnf(*else_expr, neg);
        },
        ExprV::Var(_) => {
            assert(is_nnf(e));
            assert(is_nnf(negate_leaf(e, neg)));
        },
        ExprV::Tuple(es) => {
            assert forall|i: int| 0 <= i < es.len() implies is_nnf(#[trigger] nnf_list(es)[i]) by {
                assert(nnf_defined(e->Tuple_0[i]));
                lemma_nnf_is_nnf(es[i], false);
            }
            assert(nnf_of(e, neg) == ExprV::Tuple(nnf_list(es)));
            assert(is_nnf(ExprV::Tuple(nnf_list(es))));
        },
        ExprV::Call { func, args } => {
            assert forall|i: int| 0 <= i < args.len() implies is_nnf(#[trigger] nnf_list(args)[i]) by {
                assert(nnf_defined(e->Call_args[i]));
                lemma_nnf_is_nnf(args[i], false);
            }
            assert(is_nnf(ExprV::Call { func, args: nnf_list(args) }));
        },
        ExprV::Constructor { name, args } => {
            assert forall|i: int| 0 <= i < args.len() implies is_nnf(#[trigger] nnf_list(args)[i]) by {
                assert(nnf_defined(e->Constructor_args[i]));
                lemma_nnf_is_nnf(args[i], false);
            }
            assert(is_nnf(ExprV::Constructor { name, args: nnf_list(args) }));
        },
        ExprV::ApplyRel { relation, args } => {
            assert forall|i: int| 0 <= i < args.len() implies is_nnf(#[trigger] nnf_list(args)[i]) by {
                assert(nnf_defined(e->ApplyRel_args[i]));
                lemma_nnf_is_nnf(args[i], false);
            }
            assert(is_nnf(ExprV::ApplyRel { relation, args: nnf_list(args) }));
        },
        ExprV::ExistentialBindings(bs) => {
            let r = nnf_of(e, neg);
            assert(r->ExistentialBindings_0 == nnf_bindings(bs));
            assert forall|i: int| 0 <= i < bs.len() implies is_nnf(#[trigger] r->ExistentialBindings_0[i].1) by {
                assert(nnf_defined(e->ExistentialBindings_0[i].1));
                lemma_nnf_is_nnf(bs[i].1, false);
                assert(nnf_bindings(bs)[i] == (bs[i].0, nnf_of(bs[i].1, false)));
            }
        },
        _ => {},
    }
}

/// Law: an expression already in negation normal form is left unchanged.
pub proof fn lemma_nnf_fixes_nnf(e: ExprV)
    requires
        is_nnf(e),
    ensures
        nnf_of(e, false) == e,
    decreases e,
{
    match e {
        ExprV::BinOp { op, left, right } => {
            lemma_nnf_fixes_nnf(*left);
            lemma_nnf_fixes_nnf(*right);
            lemma_nnf_fixes_binop(op, *left, *right);
            assert(e == (ExprV::BinOp { op, left: Box::new(*left), right: Box::new(*right) }));
            assert(nnf_of(e, false) == e);
        },
        ExprV::UnOp { op, expr } => {
            assert(is_atom(*expr));
            assert(op == UnOp::Not);
            lemma_nnf_fixes_nnf(*expr);
            assert(e == ExprV::UnOp { op: UnOp::Not, expr: Box::new(*expr) });
            assert(nnf_of(e, false) == nnf_of(*expr, true));
            match *expr {
                ExprV::Call { func, args } => {
                    assert(nnf_list(args) == args);
                    assert(nnf_of(*expr, true) == negate_leaf(ExprV::Call { func, args: nnf_list(args) }, true));
                },
                ExprV::Constructor { name, args } => {
                    assert(nnf_list(args) == args);
                    assert(nnf_of(*expr, true) == negate_leaf(ExprV::Constructor { name, args: nnf_list(args) }, true));
                },
                ExprV::ApplyRel { relation, args } => {
                    assert(nnf_list(args) == args);
                    assert(nnf_of(*expr, true) == negate_leaf(ExprV::ApplyRel { relation, args: nnf_list(args) }, true));
                },
                _ => {
                    assert(nnf_of(*expr, true) == negate_leaf(*expr, true));
                },
            }
            assert(nnf_of(e, false) == e);
        },
        ExprV::Forall { body, .. } => lemma_nnf_fixes_nnf(*body),
        ExprV::Exists { body, .. } => lemma_nnf_fixes_nnf(*body),
        ExprV::Let { bound_expr, body, .. } => {
            lemma_nnf_fixes_nnf(*bound_expr);
            lemma_nnf_fixes_nnf(*body);
        },
        ExprV::If { cond, then_expr, else_expr } => {
            lemma_nnf_fixes_nnf(*cond);
            lemma_nnf_fixes_nnf(*then_expr);
            lemma_nnf_fixes_nnf(*else_expr);
        },
        ExprV::Tuple(es) => {
            assert forall|i: int| 0 <= i < es.len() implies #[trigger] nnf_list(es)[i] == es[i] by {
                assert(is_nnf(e->Tuple_0[i]));
                lemma_nnf_fixes_nnf(es[i]);
            }
            assert(nnf_list(es) =~= es);
        },
        ExprV::Call { args, .. } => {
            assert forall|i: int| 0 <= i < args.len() implies #[trigger] nnf_list(args)[i] == args[i] by {
                assert(is_nnf(e->Call_args[i]));
                lemma_nnf_fixes_nnf(args[i]);
            }
            assert(nnf_list(args) =~= args);
        },
        ExprV::Constructor { args, .. } => {
            assert forall|i: int| 0 <= i < args.len() implies #[trigger] nnf_list(args)[i] == args[i] by {
                assert(is_nnf(e->Constructor_args[i]));
                lemma_nnf_fixes_nnf(args[i]);
            }
            assert(nnf_list(args) =~= args);
        },
        ExprV::ApplyRel { args, .. } => {
            assert forall|i: int| 0 <= i < args.len() implies #[trigger] nnf_list(args)[i] == args[i] by {
                assert(is_nnf(e->ApplyRel_args[i]));
                lemma_nnf_fixes_nnf(args[i]);
            }
            assert(nnf_list(args) =~= args);
        },
        ExprV::ExistentialBindings(bs) => {
            assert forall|i: int| 0 <= i < bs.len() implies #[trigger] nnf_bindings(bs)[i] == bs[i] by {
                assert(is_nnf(e->ExistentialBindings_0[i].1));
                assert(nnf_bindings(bs)[i] == (bs[i].0, nnf_of(bs[i].1, false)));
                lemma_nnf_fixes_nnf(bs[i].1);
            }
            assert(nnf_bindings(bs) =~= bs);
        },
        _ => {},
    }
}

proof fn lemma_nnf_fixes_binop(op: BinOp, l: ExprV, r: ExprV)
    requires
        op != BinOp::Implies,
        nnf_of(l, false) == l,
        nnf_of(r, false) == r,
    ensures
        nnf_of(ExprV::BinOp { op, left: Box::new(l), right: Box::new(r) }, false) == (ExprV::BinOp { op, left: Box::new(l), right: Box::new(r) }),
{
}

/// Law: the transformation is idempotent.
pub proof fn lemma_nnf_idempotent(e: ExprV)
    requires
        nnf_defined(e),
    ensures
        nnf_of(nnf_of(e, false), false) == nnf_of(e, false),
{
    lemma_nnf_is_nnf(e, false);
    lemma_nnf_fixes_nnf(nnf_of(e, false));
}

/// Negates a leaf when `neg` holds.
fn wrap_negation(core: Expr, neg: bool) -> (r: Expr)
    ensures
        r@ == negate_leaf(core@, neg),
{
    if neg {
        Expr::UnOp { op: UnOp::Not, expr: Box::new(core) }
    } else {
        core
    }
}

/// The NNF, in positive polarity, of each expression of a list.
fn nnf_all(es: &Vec<Expr>, Ghost(owner): Ghost<Expr>) -> (r: Vec<Expr>)
    requires
        decreases_to!(owner => es@),
        forall|i: int| 0 <= i < es@.len() ==> nnf_defined(#[trigger] expr_views(es@)[i]),
    ensures
        expr_views(r@) == nnf_list(expr_views(es@)),
    decreases owner, 0int,
{
    let ghost ev = expr_views(es@);
    let mut out: Vec<Expr> = Vec::new();
    let mut i: usize = 0;
    while i < es.len()
        invariant
            0 <= i <= es@.len(),
            ev == expr_views(es@),
            decreases_to!(owner => es@),
            forall|k: int| 0 <= k < es@.len() ==> nnf_defined(#[trigger] ev[k]),
            out@.len() == i,
            forall|k: int| 0 <= k < i ==> (#[trigger] out@[k])@ == nnf_of(ev[k], false),
        decreases es@.len() - i,
    {
        proof {
            assert(decreases_to!(es@ => es@[i as int]));
            assert(ev[i as int] == es@[i as int]@);
            assert(nnf_defined(ev[i as int]));
        }
        let x = nnf(&es[i], false);
        out.push(x);
        i = i + 1;
    }
    proof {
        assert(expr_views(out@) =~= nnf_list(ev));
    }
    out
}

/// The NNF of `e`, or of `!e` when `neg` holds.
#[verifier::loop_isolation(false)]
fn nnf(e: &Expr, neg: bool) -> (r: Expr)
    requires
        nnf_defined(e@),
    ensures
        r@ == nnf_of(e@, neg),
    decreases e, 1int,
{
    match e {
        Expr::BoolConst(b) => Expr::BoolConst(*b != neg),
        Expr::Var(x) => wrap_negation(Expr::Var(x.clone()), neg),
        Expr::UnOp { op, expr } => {
            proof {
                assert(e@ == ExprV::UnOp { op: *op, expr: Box::new(expr@) });
            }
            nnf(expr, !neg)
        },
        Expr::BinOp { op, left, right } => {
            proof {
                assert(e@ == ExprV::BinOp { op: *op, left: Box::new(left@), right: Box::new(right@) });
            }
            match op {
                BinOp::And => Expr::BinOp {
                    op: if neg { BinOp::Or } else { BinOp::And },
                    left: Box::new(nnf(left, neg)),
                    right: Box::new(nnf(right, neg)),
                },
                BinOp::Or => Expr::BinOp {
                    op: if neg { BinOp::And } else { BinOp::Or },
                    left: Box::new(nnf(left, neg)),
                    right: Box::new(nnf(right, neg)),
                },
                BinOp::Implies => Expr::BinOp {
                    op: if neg { BinOp::And } else { BinOp::Or },
                    left: Box::new(nnf(left, !neg)),
                    right: Box::new(nnf(right, neg)),
                },
                BinOp::Eq => Expr::BinOp {
                    op: if neg { BinOp::Neq } else { BinOp::Eq },
                    left: Box::new(nnf(left, false)),
                    right: Box::new(nnf(right, false)),
                },
                BinOp::Neq => Expr::BinOp {
                    op: if neg { BinOp::Eq } else { BinOp::Neq },
                    left: Box::new(nnf(left, false)),
                    right: Box::new(nnf(right, false)),
                },
            }
        },
        Expr::Forall { binders, body } => {
            proof {
                assert(e@ == ExprV::Forall { binders: binders_view(binders@), body: Box::new(body@) });
            }
            let bs = clone_binders(binders);
            if neg {
                Expr::Exists { binders: bs, body: Box::new(nnf(body, true)) }
            } else {
                Expr::Forall { binders: bs, body: Box::new(nnf(body, false)) }
            }
        },
        Expr::Exists { binders, body } => {
            proof {
                assert(e@ == ExprV::Exists { binders: binders_view(binders@), body: Box::new(body@) });
            }
            let bs = clone_binders(binders);
            if neg {
                Expr::Forall { binders: bs, body: Box::new(nnf(body, true)) }
            } else {
                Expr::Exists { binders: bs, body: Box::new(nnf(body, false)) }
            }
        },
        Expr::Let { pat, bound_expr, body } => {
            proof {
                assert(e@ == ExprV::Let { pat: pat@, bound_expr: Box::new(bound_expr@), body: Box::new(body@) });
            }
            Expr::Let { pat: pat.deep_clone(), bound_expr: Box::new(nnf(bound_expr, false)), body: Box::new(nnf(body, neg)) }
        },
        Expr::If { cond, then_expr, else_expr } => {
            proof {
                assert(e@ == ExprV::If { cond: Box::new(cond@), then_expr: Box::new(then_expr@), else_expr: Box::new(else_expr@) });
            }
            Expr::If {
                cond: Box::new(nnf(cond, false)),
                then_expr: Box::new(nnf(then_expr, neg)),
                else_expr: Box::new(nnf(else_expr, neg)),
            }
        },
        Expr::Call { func, args } => {
            proof {
                assert(e@ == ExprV::Call { func: func@, args: expr_views(args@) });
                assert(decreases_to!(*e => (*e)->Call_args));
            }
            let xs = nnf_all(args, Ghost(*e));
            let c = Expr::Call { func: func.clone(), args: xs };
            proof {
                assert(c@ == ExprV::Call { func: func@, args: expr_views(xs@) });
            }
            wrap_negation(c, neg)
        },
        Expr::Constructor { name, args } => {
            proof {
                assert(e@ == ExprV::Constructor { name: name@, args: expr_views(args@) });
                assert(decreases_to!(*e => (*e)->Constructor_args));
            }
            let xs = nnf_all(args, Ghost(*e));
            let c = Expr::Constructor { name: name.clone(), args: xs };
            proof {
                assert(c@ == ExprV::Constructor { name: name@, args: expr_views(xs@) });
            }
            wrap_negation(c, neg)
        },
        Expr::ApplyRel { relation, args } => {
            proof {
                assert(e@ == ExprV::ApplyRel { relation: relation@, args: expr_views(args@) });
                assert(decreases_to!(*e => (*e)->ApplyRel_args));
            }
            let xs = nnf_all(args, Ghost(*e));
            let c = Expr::ApplyRel { relation: relation.clone(), args: xs };
            proof {
                assert(c@ == ExprV::ApplyRel { relation: relation@, args: expr_views(xs@) });
            }
            wrap_negation(c, neg)
        },
        Expr::Tuple(es) => {
            proof {
                assert(e@ == ExprV::Tuple(expr_views(es@)));
                assert(decreases_to!(*e => (*e)->Tuple_0));
            }
            let xs = nnf_all(es, Ghost(*e));
            Expr::Tuple(xs)
        },
        Expr::ExistentialBindings(bs) => {
            proof {
                assert(e@ == ExprV::ExistentialBindings(bindings_view(bs@)));
            }
            let ghost bv = bindings_view(bs@);
            let mut out: Vec<(Ident, Expr)> = Vec::new();
            let mut i: usize = 0;
            while i < bs.len()
                invariant
                    0 <= i <= bs@.len(),
                    bv == bindings_view(bs@),
                    out@.len() == i,
                    forall|k: int| 0 <= k < i ==> (#[trigger] out@[k]).0@ == bv[k].0 && out@[k].1@ == nnf_of(bv[k].1, false),
                decreases bs@.len() - i,
            {
                proof {
                    assert(decreases_to!(*e => (*e)->ExistentialBindings_0));
                    assert(decreases_to!(bs@ => bs@[i as int]));
                    assert(decreases_to!(bs@[i as int] => bs@[i as int].1));
                    assert(nnf_defined(e@->ExistentialBindings_0[i as int].1));
                }
                let c = (bs[i].0.clone(), nnf(&bs[i].1, false));
                out.push(c);
                i = i + 1;
            }
            proof {
                assert(bindings_view(out@) =~= nnf_bindings(bv));
            }
            Expr::ExistentialBindings(out)
        },
        _ => {
            proof {
                assert(false);
            }
            Expr::BoolConst(true)
        },
    }
}

/// Puts an expression into negation normal form.
pub fn transform_expr(expr: Expr) -> (r: Expr)
    requires
        nnf_defined(expr@),
    ensures
        r@ == nnf_of(expr@, false),
        is_nnf(r@),
{
    proof {
        lemma_nnf_is_nnf(expr@, false);
    }
    nnf(&expr, false)
}

/// The head of an application, for the two-valued semantics below:
/// a function, a constructor, a relation, a tuple, or a block of named
/// bindings (by its names).
pub enum Head {
    Func(Seq<char>),
    Ctor(Seq<char>),
    Rel(Seq<char>),
    Tuple,
    Bindings(Seq<Seq<char>>),
}

/// `env` with the name `x` bound to `v`.
pub open spec fn bind(env: spec_fn(Seq<char>) -> bool, x: Seq<char>, v: bool) -> spec_fn(Seq<char>) -> bool {
    |y: Seq<char>| if y == x { v } else { env(y) }
}

/// `env` after a `let` binds the value `v` to the pattern `p`: a name is
/// bound; the parts of a compound pattern are not modelled.
pub open spec fn bind_pattern(p: crate::ast::PatternV, v: bool, env: spec_fn(Seq<char>) -> bool) -> spec_fn(Seq<char>) -> bool {
    match p {
        crate::ast::PatternV::Ident(x) => bind(env, x, v),
        _ => env,
    }
}

/// The value of `e` in a two-valued model: variables, and constructors
/// without arguments under their sanitized names, take their values from
/// `env`; every other application is interpreted by `app` on the values of
/// its arguments; quantifiers range over all assignments of their binders.
pub open spec fn eval(e: ExprV, env: spec_fn(Seq<char>) -> bool, app: spec_fn(Head, Seq<bool>) -> bool) -> bool
    decreases e, 0nat,
{
    match e {
        ExprV::BoolConst(b) => b,
        ExprV::Var(x) => env(x),
        ExprV::Tuple(es) => app(Head::Tuple, eval_list(es, env, app)),
        ExprV::BinOp { op, left, right } => match op {
            BinOp::And => eval(*left, env, app) && eval(*right, env, app),
            BinOp::Or => eval(*left, env, app) || eval(*right, env, app),
            BinOp::Implies => eval(*left, env, app) ==> eval(*right, env, app),
            BinOp::Eq => eval(*left, env, app) == eval(*right, env, app),
            BinOp::Neq => eval(*left, env, app) != eval(*right, env, app),
        },
        ExprV::UnOp { expr, .. } => !eval(*expr, env, app),
        ExprV::If { cond, then_expr, else_expr } => if eval(*cond, env, app) {
            eval(*then_expr, env, app)
        } else {
            eval(*else_expr, env, app)
        },
        ExprV::Let { pat, bound_expr, body } => eval(*body, bind_pattern(pat, eval(*bound_expr, env, app), env), app),
        ExprV::Call { func, args } => app(Head::Func(func), eval_list(args, env, app)),
        ExprV::Constructor { name, args } => if args.len() == 0 {
            env(crate::text::sanitized(name))
        } else {
            app(Head::Ctor(name), eval_list(args, env, app))
        },
        ExprV::ApplyRel { relation, args } => app(Head::Rel(relation), eval_list(args, env, app)),
        ExprV::Forall { binders, body } => all_assignments(*body, binders, binders.len(), env, app),
        ExprV::Exists { binders, body } => some_assignment(*body, binders, binders.len(), env, app),
        ExprV::Instantiate(inner) => eval(*inner, env, app),
        ExprV::ExistentialBindings(bs) => app(
            Head::Bindings(Seq::new(bs.len(), |i: int| bs[i].0)),
            eval_bindings(bs, env, app),
        ),
        ExprV::Match { .. } => false,
    }
}

/// Whether `body` holds under every assignment of truth values to the
/// first `n` binders of `bs`.
pub open spec fn all_assignments(body: ExprV, bs: Seq<(Seq<char>, crate::ast::BaseTypeV)>, n: nat, env: spec_fn(Seq<char>) -> bool, app: spec_fn(Head, Seq<bool>) -> bool) -> bool
    decreases body, n + 1,
{
    if n == 0 || n > bs.len() {
        eval(body, env, app)
    } else {
        all_assignments(body, bs, (n - 1) as nat, bind(env, bs[n - 1].0, true), app)
            && all_assignments(body, bs, (n - 1) as nat, bind(env, bs[n - 1].0, false), app)
    }
}

/// Whether `body` holds under some assignment of truth values to the first
/// `n` binders of `bs`.
pub open spec fn some_assignment(body: ExprV, bs: Seq<(Seq<char>, crate::ast::BaseTypeV)>, n: nat, env: spec_fn(Seq<char>) -> bool, app: spec_fn(Head, Seq<bool>) -> bool) -> bool
    decreases body, n + 1,
{
    if n == 0 || n > bs.len() {
        eval(body, env, app)
    } else {
        some_assignment(body, bs, (n - 1) as nat, bind(env, bs[n - 1].0, true), app)
            || some_assignment(body, bs, (n - 1) as nat, bind(env, bs[n - 1].0, false), app)
    }
}

/// The values of a list of expressions.
pub open spec fn eval_list(es: Seq<ExprV>, env: spec_fn(Seq<char>) -> bool, app: spec_fn(Head, Seq<bool>) -> bool) -> Seq<bool>
    decreases es, 0nat,
{
    Seq::new(es.len(), |i: int| if 0 <= i < es.len() { eval(es[i], env, app) } else { false })
}

/// The values of the expressions of named bindings.
pub open spec fn eval_bindings(bs: Seq<(Seq<char>, ExprV)>, env: spec_fn(Seq<char>) -> bool, app: spec_fn(Head, Seq<bool>) -> bool) -> Seq<bool>
    decreases bs, 0nat,
{
    Seq::new(bs.len(), |i: int| if 0 <= i < bs.len() { eval(bs[i].1, env, app) } else { false })
}

/// Whether `e` can be put in NNF with polarity `neg` without negating a
/// tuple or a block of bindings, which have no negation.
pub open spec fn negatable(e: ExprV, neg: bool) -> bool
    decreases e,
{
    match e {
        ExprV::UnOp { expr, .. } => negatable(*expr, !neg),
        ExprV::BinOp { op, left, right } => match op {
            BinOp::And => negatable(*left, neg) && negatable(*right, neg),
            BinOp::Or => negatable(*left, neg) && negatable(*right, neg),
            BinOp::Implies => negatable(*left, !neg) && negatable(*right, neg),
            BinOp::Eq => negatable(*left, false) && negatable(*right, false),
            BinOp::Neq => negatable(*left, false) && negatable(*right, false),
        },
        ExprV::Forall { body, .. } => negatable(*body, neg),
        ExprV::Exists { body, .. } => negatable(*body, neg),
        ExprV::Let { bound_expr, body, .. } => negatable(*bound_expr, false) && negatable(*body, neg),
        ExprV::If { cond, then_expr, else_expr } => negatable(*cond, false) && negatable(*then_expr, neg) && negatable(*else_expr, neg),
        ExprV::Tuple(es) => !neg && forall|i: int| 0 <= i < es.len() ==> negatable(#[trigger] es[i], false),
        ExprV::Call { args, .. } => forall|i: int| 0 <= i < args.len() ==> negatable(#[trigger] args[i], false),
        ExprV::Constructor { args, .. } => forall|i: int| 0 <= i < args.len() ==> negatable(#[trigger] args[i], false),
        ExprV::ApplyRel { args, .. } => forall|i: int| 0 <= i < args.len() ==> negatable(#[trigger] args[i], false),
        ExprV::ExistentialBindings(bs) => !neg && forall|i: int| 0 <= i < bs.len() ==> negatable(#[trigger] bs[i].1, false),
        ExprV::Instantiate(_) => false,
        ExprV::Match { .. } => false,
        _ => true,
    }
}

/// Law: the NNF means what the input means. In every two-valued model, the
/// NNF of `e` has the value of `e`, and the NNF of `!e` its negation; so a
/// negated `forall` becomes an `exists` of the negated body, and the other
/// way round.
#[verifier::spinoff_prover]
pub proof fn lemma_nnf_preserves_meaning(e: ExprV, neg: bool, env: spec_fn(Seq<char>) -> bool, app: spec_fn(Head, Seq<bool>) -> bool)
    requires
        negatable(e, neg),
    ensures
        eval(nnf_of(e, neg), env, app) == (eval(e, env, app) != neg),
    decreases e, 0nat,
{
    match e {
        ExprV::UnOp { expr, .. } => {
            lemma_nnf_preserves_meaning(*expr, !neg, env, app);
            assert(eval(e, env, app) == !eval(*expr, env, app));
        },
        ExprV::BinOp { op, left, right } => match op {
            BinOp::And => {
                lemma_nnf_preserves_meaning(*left, neg, env, app);
                lemma_nnf_preserves_meaning(*right, neg, env, app);
            },
            BinOp::Or => {
                lemma_nnf_preserves_meaning(*left, neg, env, app);
                lemma_nnf_preserves_meaning(*right, neg, env, app);
            },
            BinOp::Implies => {
                lemma_nnf_preserves_meaning(*left, !neg, env, app);
                lemma_nnf_preserves_meaning(*right, neg, env, app);
            },
            BinOp::Eq => {
                lemma_nnf_preserves_meaning(*left, false, env, app);
                lemma_nnf_preserves_meaning(*right, false, env, app);
            },
            BinOp::Neq => {
                lemma_nnf_preserves_meaning(*left, false, env, app);
                lemma_nnf_preserves_meaning(*right, false, env, app);
            },
        },
        ExprV::Forall { binders, body } => lemma_nnf_assignments(*body, binders, binders.len(), neg, env, app),
        ExprV::Exists { binders, body } => lemma_nnf_assignments(*body, binders, binders.len(), neg, env, app),
        ExprV::Let { pat, bound_expr, body } => {
            lemma_nnf_preserves_meaning(*bound_expr, false, env, app);
            lemma_nnf_preserves_meaning(*body, neg, bind_pattern(pat, eval(*bound_expr, env, app), env), app);
        },
        ExprV::If { cond, then_expr, else_expr } => {
            lemma_nnf_preserves_meaning(*cond, false, env, app);
            lemma_nnf_preserves_meaning(*then_expr, neg, env, app);
            lemma_nnf_preserves_meaning(*else_expr, neg, env, app);
        },
        ExprV::Tuple(es) => {
            lemma_nnf_list_values(es, env, app);
            assert(eval(nnf_of(e, neg), env, app) == (eval(e, env, app) != neg));
        },
        ExprV::Call { func, args } => {
            lemma_nnf_list_values(args, env, app);
            let c = ExprV::Call { func, args: nnf_list(args) };
            assert(eval(c, env, app) == eval(e, env, app));
            lemma_negate_leaf_value(c, neg, env, app);
        },
        ExprV::Constructor { name, args } => {
            lemma_nnf_list_values(args, env, app);
            let c = ExprV::Constructor { name, args: nnf_list(args) };
            assert(eval(c, env, app) == eval(e, env, app));
            lemma_negate_leaf_value(c, neg, env, app);
        },
        ExprV::ApplyRel { relation, args } => {
            lemma_nnf_list_values(args, env, app);
            let c = ExprV::ApplyRel { relation, args: nnf_list(args) };
            assert(eval(c, env, app) == eval(e, env, app));
            lemma_negate_leaf_value(c, neg, env, app);
        },
        ExprV::ExistentialBindings(bs) => {
            assert forall|i: int| 0 <= i < bs.len() implies
                #[trigger] eval_bindings(nnf_bindings(bs), env, app)[i] == eval_bindings(bs, env, app)[i] by {
                lemma_nnf_preserves_meaning(bs[i].1, false, env, app);
            }
            assert(eval_bindings(nnf_bindings(bs), env, app) =~= eval_bindings(bs, env, app));
            assert(Seq::new(nnf_bindings(bs).len(), |i: int| nnf_bindings(bs)[i].0) =~= Seq::new(bs.len(), |i: int| bs[i].0));
            assert(eval(nnf_of(e, neg), env, app) == (eval(e, env, app) != neg));
        },
        ExprV::Var(x) => lemma_negate_leaf_value(e, neg, env, app),
        ExprV::BoolConst(b) => {
            assert(eval(nnf_of(e, neg), env, app) == (eval(e, env, app) != neg));
        },
        _ => {},
    }
}

/// Under every assignment of the first `n` binders, the NNF of `body` has
/// the value of `body` (of `!body` when `neg` holds); so over all of them, a
/// quantifier keeps its value, or turns into its dual when negated.
proof fn lemma_nnf_assignments(
    body: ExprV,
    bs: Seq<(Seq<char>, crate::ast::BaseTypeV)>,
    n: nat,
    neg: bool,
    env: spec_fn(Seq<char>) -> bool,
    app: spec_fn(Head, Seq<bool>) -> bool,
)
    requires
        negatable(body, neg),
    ensures
        all_assignments(nnf_of(body, neg), bs, n, env, app)
            == if neg { !some_assignment(body, bs, n, env, app) } else { all_assignments(body, bs, n, env, app) },
        some_assignment(nnf_of(body, neg), bs, n, env, app)
            == if neg { !all_assignments(body, bs, n, env, app) } else { some_assignment(body, bs, n, env, app) },
    decreases body, n + 1,
{
    if n == 0 || n > bs.len() {
        lemma_nnf_preserves_meaning(body, neg, env, app);
    } else {
        lemma_nnf_assignments(body, bs, (n - 1) as nat, neg, bind(env, bs[n - 1].0, true), app);
        lemma_nnf_assignments(body, bs, (n - 1) as nat, neg, bind(env, bs[n - 1].0, false), app);
    }
}

proof fn lemma_negate_leaf_value(e: ExprV, neg: bool, env: spec_fn(Seq<char>) -> bool, app: spec_fn(Head, Seq<bool>) -> bool)
    ensures
        eval(negate_leaf(e, neg), env, app) == (eval(e, env, app) != neg),
{
    if neg {
        assert(eval(ExprV::UnOp { op: UnOp::Not, expr: Box::new(e) }, env, app) == !eval(e, env, app));
    }
}

proof fn lemma_nnf_list_values(es: Seq<ExprV>, env: spec_fn(Seq<char>) -> bool, app: spec_fn(Head, Seq<bool>) -> bool)
    requires
        forall|i: int| 0 <= i < es.len() ==> negatable(#[trigger] es[i], false),
    ensures
        eval_list(nnf_list(es), env, app) == eval_list(es, env, app),
    decreases es, 0nat,
{
    assert forall|i: int| 0 <= i < es.len() implies
        #[trigger] eval_list(nnf_list(es), env, app)[i] == eval_list(es, env, app)[i] by {
        lemma_nnf_preserves_meaning(es[i], false, env, app);
    }
    assert(eval_list(nnf_list(es), env, app) =~= eval_list(es, env, app));
}

/// Whether the name `x` is read anywhere in `e`, as a variable or as the
/// sanitized name of a constructor without arguments, regardless of binders.
pub open spec fn uses_name(e: ExprV, x: Seq<char>) -> bool
    decreases e,
{
    match e {
        ExprV::Var(n) => n == x,
        ExprV::BoolConst(_) => false,
        ExprV::Tuple(es) => exists|i: int| 0 <= i < es.len() && uses_name(#[trigger] es[i], x),
        ExprV::BinOp { left, right, .. } => uses_name(*left, x) || uses_name(*right, x),
        ExprV::UnOp { expr, .. } => uses_name(*expr, x),
        ExprV::If { cond, then_expr, else_expr } => uses_name(*cond, x) || uses_name(*then_expr, x) || uses_name(*else_expr, x),
        ExprV::Let { bound_expr, body, .. } => uses_name(*bound_expr, x) || uses_name(*body, x),
        ExprV::Match { expr, arms } => uses_name(*expr, x) || exists|i: int| 0 <= i < arms.len() && uses_name(#[trigger] arms[i].1, x),
        ExprV::Call { args, .. } => exists|i: int| 0 <= i < args.len() && uses_name(#[trigger] args[i], x),
        ExprV::Constructor { name, args } => (args.len() == 0 && crate::text::sanitized(name) == x)
            || exists|i: int| 0 <= i < args.len() && uses_name(#[trigger] args[i], x),
        ExprV::ApplyRel { args, .. } => exists|i: int| 0 <= i < args.len() && uses_name(#[trigger] args[i], x),
        ExprV::Forall { body, .. } => uses_name(*body, x),
        ExprV::Exists { body, .. } => uses_name(*body, x),
        ExprV::Instantiate(inner) => uses_name(*inner, x),
        ExprV::ExistentialBindings(bs) => exists|i: int| 0 <= i < bs.len() && uses_name(#[trigger] bs[i].1, x),
    }
}

/// Law: the value of `e` depends only on the names it reads: two
/// environments that agree on them give it one value.
pub proof fn lemma_eval_agree(e: ExprV, env1: spec_fn(Seq<char>) -> bool, env2: spec_fn(Seq<char>) -> bool, app: spec_fn(Head, Seq<bool>) -> bool)
    requires
        forall|y: Seq<char>| uses_name(e, y) ==> #[trigger] env1(y) == env2(y),
    ensures
        eval(e, env1, app) == eval(e, env2, app),
    decreases e, 0nat,
{
    match e {
        ExprV::Var(n) => {
            assert(uses_name(e, n));
        },
        ExprV::Tuple(es) => lemma_eval_list_agree(es, env1, env2, app),
        ExprV::BinOp { left, right, .. } => {
            lemma_eval_agree(*left, env1, env2, app);
            lemma_eval_agree(*right, env1, env2, app);
        },
        ExprV::UnOp { expr, .. } => lemma_eval_agree(*expr, env1, env2, app),
        ExprV::If { cond, then_expr, else_expr } => {
            lemma_eval_agree(*cond, env1, env2, app);
            lemma_eval_agree(*then_expr, env1, env2, app);
            lemma_eval_agree(*else_expr, env1, env2, app);
        },
        ExprV::Let { pat, bound_expr, body } => {
            lemma_eval_agree(*bound_expr, env1, env2, app);
            let v = eval(*bound_expr, env1, app);
            let e1 = bind_pattern(pat, v, env1);
            let e2 = bind_pattern(pat, v, env2);
            assert forall|y: Seq<char>| uses_name(*body, y) implies #[trigger] e1(y) == e2(y) by {
                assert(uses_name(e, y));
                assert(env1(y) == env2(y));
            }
            lemma_eval_agree(*body, e1, e2, app);
        },
        ExprV::Call { args, .. } => lemma_eval_list_agree(args, env1, env2, app),
        ExprV::Constructor { name, args } => {
            if args.len() == 0 {
                assert(uses_name(e, crate::text::sanitized(name)));
            } else {
                lemma_eval_list_agree(args, env1, env2, app);
            }
        },
        ExprV::ApplyRel { args, .. } => lemma_eval_list_agree(args, env1, env2, app),
        ExprV::Forall { binders, body } => lemma_assignments_agree(*body, binders, binders.len(), env1, env2, app),
        ExprV::Exists { binders, body } => lemma_assignments_agree(*body, binders, binders.len(), env1, env2, app),
        ExprV::Instantiate(inner) => lemma_eval_agree(*inner, env1, env2, app),
        ExprV::ExistentialBindings(bs) => {
            assert forall|i: int| 0 <= i < bs.len() implies
                #[trigger] eval_bindings(bs, env1, app)[i] == eval_bindings(bs, env2, app)[i] by {
                assert forall|y: Seq<char>| uses_name(bs[i].1, y) implies #[trigger] env1(y) == env2(y) by {
                    assert(uses_name(e, y));
                }
                lemma_eval_agree(bs[i].1, env1, env2, app);
            }
            assert(eval_bindings(bs, env1, app) =~= eval_bindings(bs, env2, app));
        },
        _ => {},
    }
}

proof fn lemma_eval_list_agree(es: Seq<ExprV>, env1: spec_fn(Seq<char>) -> bool, env2: spec_fn(Seq<char>) -> bool, app: spec_fn(Head, Seq<bool>) -> bool)
    requires
        forall|i: int, y: Seq<char>| 0 <= i < es.len() && #[trigger] uses_name(es[i], y) ==> env1(y) == env2(y),
    ensures
        eval_list(es, env1, app) == eval_list(es, env2, app),
    decreases es, 0nat,
{
    assert forall|i: int| 0 <= i < es.len() implies #[trigger] eval_list(es, env1, app)[i] == eval_list(es, env2, app)[i] by {
        assert forall|y: Seq<char>| uses_name(es[i], y) implies #[trigger] env1(y) == env2(y) by {}
        lemma_eval_agree(es[i], env1, env2, app);
    }
    assert(eval_list(es, env1, app) =~= eval_list(es, env2, app));
}

proof fn lemma_assignments_agree(
    body: ExprV,
    bs: Seq<(Seq<char>, crate::ast::BaseTypeV)>,
    n: nat,
    env1: spec_fn(Seq<char>) -> bool,
    env2: spec_fn(Seq<char>) -> bool,
    app: spec_fn(Head, Seq<bool>) -> bool,
)
    requires
        forall|y: Seq<char>| uses_name(body, y) ==> #[trigger] env1(y) == env2(y),
    ensures
        all_assignments(body, bs, n, env1, app) == all_assignments(body, bs, n, env2, app),
        some_assignment(body, bs, n, env1, app) == some_assignment(body, bs, n, env2, app),
    decreases body, n + 1,
{
    if n == 0 || n > bs.len() {
        lemma_eval_agree(body, env1, env2, app);
    } else {
        let z = bs[n - 1].0;
        assert forall|y: Seq<char>| uses_name(body, y) implies #[trigger] bind(env1, z, true)(y) == bind(env2, z, true)(y) by {
            assert(env1(y) == env2(y));
        }
        assert forall|y: Seq<char>| uses_name(body, y) implies #[trigger] bind(env1, z, false)(y) == bind(env2, z, false)(y) by {
            assert(env1(y) == env2(y));
        }
        lemma_assignments_agree(body, bs, (n - 1) as nat, bind(env1, z, true), bind(env2, z, true), app);
        lemma_assignments_agree(body, bs, (n - 1) as nat, bind(env1, z, false), bind(env2, z, false), app);
    }
}

/// The value of `e` does not depend on a name it does not read.
pub proof fn lemma_eval_frame(e: ExprV, x: Seq<char>, env1: spec_fn(Seq<char>) -> bool, env2: spec_fn(Seq<char>) -> bool, app: spec_fn(Head, Seq<bool>) -> bool)
    requires
        !uses_name(e, x),
        forall|y: Seq<char>| y != x ==> #[trigger] env1(y) == env2(y),
    ensures
        eval(e, env1, app) == eval(e, env2, app),
{
    assert forall|y: Seq<char>| uses_name(e, y) implies #[trigger] env1(y) == env2(y) by {}
    lemma_eval_agree(e, env1, env2, app);
}

} // verus!
