//! The type environment Γ of the dependent type checker, a stack of scopes
//! of variable types, path conditions and instantiation hints, and the
//! substitution of expressions for variables.

use vstd::prelude::*;
use crate::ast::{BaseType, BinOp, Expr, ExprV, Ident, Pattern, PatternV, Type, TypeV, arms_view, binders_view,
    bindings_view, clone_binders, expr_views};
use crate::auto_inst::pattern_binds;

verus! {

broadcast use vstd::std_specs::vec::group_vec_axioms, crate::ast::group_ast_views;

/// Whether one of the binders is named `x`.
pub open spec fn binds_name<T>(bs: Seq<(Seq<char>, T)>, x: Seq<char>) -> bool {
    exists|i: int| 0 <= i < bs.len() && (#[trigger] bs[i]).0 == x
}

/// `e` with every free occurrence of the variable `x` replaced by `rep`;
/// a binder named `x` (of a quantifier, a `let` or a `match` arm) stops the
/// replacement in its scope.
pub open spec fn subst(e: ExprV, x: Seq<char>, rep: ExprV) -> ExprV
    decreases e,
{
    match e {
        ExprV::BoolConst(_) => e,
        ExprV::Var(n) => if n == x { rep } else { e },
        ExprV::Tuple(es) => ExprV::Tuple(subst_all(es, x, rep)),
        ExprV::BinOp { op, left, right } => ExprV::BinOp {
            op,
            left: Box::new(subst(*left, x, rep)),
            right: Box::new(subst(*right, x, rep)),
        },
        ExprV::UnOp { op, expr } => ExprV::UnOp { op, expr: Box::new(subst(*expr, x, rep)) },
        ExprV::If { cond, then_expr, else_expr } => ExprV::If {
            cond: Box::new(subst(*cond, x, rep)),
            then_expr: Box::new(subst(*then_expr, x, rep)),
            else_expr: Box::new(subst(*else_expr, x, rep)),
        },
        ExprV::Call { func, args } => ExprV::Call { func, args: subst_all(args, x, rep) },
        ExprV::Constructor { name, args } => ExprV::Constructor { name, args: subst_all(args, x, rep) },
        ExprV::ApplyRel { relation, args } => ExprV::ApplyRel { relation, args: subst_all(args, x, rep) },
        ExprV::Let { pat, bound_expr, body } => ExprV::Let {
            pat,
            bound_expr: Box::new(subst(*bound_expr, x, rep)),
            body: if pattern_binds(pat, x) { body } else { Box::new(subst(*body, x, rep)) },
        },
        ExprV::Match { expr, arms } => ExprV::Match { expr: Box::new(subst(*expr, x, rep)), arms: subst_arms(arms, x, rep) },
        ExprV::Forall { binders, body } => ExprV::Forall {
            binders,
            body: if binds_name(binders, x) { body } else { Box::new(subst(*body, x, rep)) },
        },
        ExprV::Exists { binders, body } => ExprV::Exists {
            binders,
            body: if binds_name(binders, x) { body } else { Box::new(subst(*body, x, rep)) },
        },
        ExprV::Instantiate(inner) => ExprV::Instantiate(Box::new(subst(*inner, x, rep))),
        ExprV::ExistentialBindings(bs) => ExprV::ExistentialBindings(subst_bindings(bs, x, rep)),
    }
}

/// [`subst`] on each expression of a list.
pub open spec fn subst_all(es: Seq<ExprV>, x: Seq<char>, rep: ExprV) -> Seq<ExprV>
    decreases es,
{
    Seq::new(es.len(), |i: int| if 0 <= i < es.len() { subst(es[i], x, rep) } else { ExprV::BoolConst(true) })
}

/// [`subst`] on each arm of a `match`, except under a pattern binding `x`.
pub open spec fn subst_arms(arms: Seq<(PatternV, ExprV)>, x: Seq<char>, rep: ExprV) -> Seq<(PatternV, ExprV)>
    decreases arms,
{
    Seq::new(
        arms.len(),
        |i: int|
            if 0 <= i < arms.len() {
                (arms[i].0, if pattern_binds(arms[i].0, x) { arms[i].1 } else { subst(arms[i].1, x, rep) })
            } else {
                (PatternV::Wildcard, ExprV::BoolConst(true))
            },
    )
}

/// [`subst`] on the expressions of named bindings.
pub open spec fn subst_bindings(bs: Seq<(Seq<char>, ExprV)>, x: Seq<char>, rep: ExprV) -> Seq<(Seq<char>, ExprV)>
    decreases bs,
{
    Seq::new(bs.len(), |i: int| if 0 <= i < bs.len() { (bs[i].0, subst(bs[i].1, x, rep)) } else { (Seq::empty(), ExprV::BoolConst(true)) })
}

/// Law: replacing a variable by itself changes nothing.
pub proof fn lemma_subst_identity(e: ExprV, x: Seq<char>)
    ensures
        subst(e, x, ExprV::Var(x)) == e,
    decreases e,
{
    let rep = ExprV::Var(x);
    match e {
        ExprV::Tuple(es) => {
            assert forall|i: int| 0 <= i < es.len() implies #[trigger] subst_all(es, x, rep)[i] == es[i] by {
                lemma_subst_identity(es[i], x);
            }
            assert(subst_all(es, x, rep) =~= es);
        },
        ExprV::BinOp { left, right, .. } => {
            lemma_subst_identity(*left, x);
            lemma_subst_identity(*right, x);
        },
        ExprV::UnOp { expr, .. } => lemma_subst_identity(*expr, x),
        ExprV::If { cond, then_expr, else_expr } => {
            lemma_subst_identity(*cond, x);
            lemma_subst_identity(*then_expr, x);
            lemma_subst_identity(*else_expr, x);
        },
        ExprV::Call { args, .. } => {
            assert forall|i: int| 0 <= i < args.len() implies #[trigger] subst_all(args, x, rep)[i] == args[i] by {
                lemma_subst_identity(args[i], x);
            }
            assert(subst_all(args, x, rep) =~= args);
        },
        ExprV::Constructor { args, .. } => {
            assert forall|i: int| 0 <= i < args.len() implies #[trigger] subst_all(args, x, rep)[i] == args[i] by {
                lemma_subst_identity(args[i], x);
            }
            assert(subst_all(args, x, rep) =~= args);
        },
        ExprV::ApplyRel { args, .. } => {
            assert forall|i: int| 0 <= i < args.len() implies #[trigger] subst_all(args, x, rep)[i] == args[i] by {
                lemma_subst_identity(args[i], x);
            }
            assert(subst_all(args, x, rep) =~= args);
        },
        ExprV::Let { bound_expr, body, .. } => {
            lemma_subst_identity(*bound_expr, x);
            lemma_subst_identity(*body, x);
        },
        ExprV::Match { expr, arms } => {
            lemma_subst_identity(*expr, x);
            assert forall|i: int| 0 <= i < arms.len() implies #[trigger] subst_arms(arms, x, rep)[i] == arms[i] by {
                lemma_subst_identity(arms[i].1, x);
            }
            assert(subst_arms(arms, x, rep) =~= arms);
        },
        ExprV::Forall { body, .. } => lemma_subst_identity(*body, x),
        ExprV::Exists { body, .. } => lemma_subst_identity(*body, x),
        ExprV::Instantiate(inner) => lemma_subst_identity(*inner, x),
        ExprV::ExistentialBindings(bs) => {
            assert forall|i: int| 0 <= i < bs.len() implies #[trigger] subst_bindings(bs, x, rep)[i] == bs[i] by {
                lemma_subst_identity(bs[i].1, x);
            }
            assert(subst_bindings(bs, x, rep) =~= bs);
        },
        _ => {},
    }
}

/// Whether the variable `x` occurs free in `e`: outside the scope of every
/// binder named `x` (of a quantifier, a `let` or a `match` arm).
pub open spec fn occurs_free(e: ExprV, x: Seq<char>) -> bool
    decreases e,
{
    match e {
        ExprV::BoolConst(_) => false,
        ExprV::Var(n) => n == x,
        ExprV::Tuple(es) => exists|i: int| 0 <= i < es.len() && occurs_free(#[trigger] es[i], x),
        ExprV::BinOp { left, right, .. } => occurs_free(*left, x) || occurs_free(*right, x),
        ExprV::UnOp { expr, .. } => occurs_free(*expr, x),
        ExprV::If { cond, then_expr, else_expr } =>
            occurs_free(*cond, x) || occurs_free(*then_expr, x) || occurs_free(*else_expr, x),
        ExprV::Call { args, .. } => exists|i: int| 0 <= i < args.len() && occurs_free(#[trigger] args[i], x),
        ExprV::Constructor { args, .. } => exists|i: int| 0 <= i < args.len() && occurs_free(#[trigger] args[i], x),
        ExprV::ApplyRel { args, .. } => exists|i: int| 0 <= i < args.len() && occurs_free(#[trigger] args[i], x),
        ExprV::Let { pat, bound_expr, body } =>
            occurs_free(*bound_expr, x) || (!pattern_binds(pat, x) && occurs_free(*body, x)),
        ExprV::Match { expr, arms } => occurs_free(*expr, x) || exists|i: int|
            0 <= i < arms.len() && !pattern_binds(arms[i].0, x) && occurs_free(#[trigger] arms[i].1, x),
        ExprV::Forall { binders, body } => !binds_name(binders, x) && occurs_free(*body, x),
        ExprV::Exists { binders, body } => !binds_name(binders, x) && occurs_free(*body, x),
        ExprV::Instantiate(inner) => occurs_free(*inner, x),
        ExprV::ExistentialBindings(bs) => exists|i: int| 0 <= i < bs.len() && occurs_free(#[trigger] bs[i].1, x),
    }
}

/// Law: replacing a variable that has no free occurrence changes nothing.
pub proof fn lemma_subst_absent(e: ExprV, x: Seq<char>, rep: ExprV)
    requires
        !occurs_free(e, x),
    ensures
        subst(e, x, rep) == e,
    decreases e,
{
    match e {
        ExprV::Tuple(es) => {
            assert forall|i: int| 0 <= i < es.len() implies #[trigger] subst_all(es, x, rep)[i] == es[i] by {
                assert(!occurs_free(es[i], x));
                lemma_subst_absent(es[i], x, rep);
            }
            assert(subst_all(es, x, rep) =~= es);
        },
        ExprV::BinOp { left, right, .. } => {
            lemma_subst_absent(*left, x, rep);
            lemma_subst_absent(*right, x, rep);
        },
        ExprV::UnOp { expr, .. } => lemma_subst_absent(*expr, x, rep),
        ExprV::If { cond, then_expr, else_expr } => {
            lemma_subst_absent(*cond, x, rep);
            lemma_subst_absent(*then_expr, x, rep);
            lemma_subst_absent(*else_expr, x, rep);
        },
        ExprV::Call { args, .. } => {
            assert forall|i: int| 0 <= i < args.len() implies #[trigger] subst_all(args, x, rep)[i] == args[i] by {
                assert(!occurs_free(args[i], x));
                lemma_subst_absent(args[i], x, rep);
            }
            assert(subst_all(args, x, rep) =~= args);
        },
        ExprV::Constructor { args, .. } => {
            assert forall|i: int| 0 <= i < args.len() implies #[trigger] subst_all(args, x, rep)[i] == args[i] by {
                assert(!occurs_free(args[i], x));
                lemma_subst_absent(args[i], x, rep);
            }
            assert(subst_all(args, x, rep) =~= args);
        },
        ExprV::ApplyRel { args, .. } => {
            assert forall|i: int| 0 <= i < args.len() implies #[trigger] subst_all(args, x, rep)[i] == args[i] by {
                assert(!occurs_free(args[i], x));
                lemma_subst_absent(args[i], x, rep);
            }
            assert(subst_all(args, x, rep) =~= args);
        },
        ExprV::Let { pat, bound_expr, body } => {
            lemma_subst_absent(*bound_expr, x, rep);
            if !pattern_binds(pat, x) {
                lemma_subst_absent(*body, x, rep);
            }
        },
        ExprV::Match { expr, arms } => {
            lemma_subst_absent(*expr, x, rep);
            assert forall|i: int| 0 <= i < arms.len() implies #[trigger] subst_arms(arms, x, rep)[i] == arms[i] by {
                if !pattern_binds(arms[i].0, x) {
                    assert(!occurs_free(arms[i].1, x));
                    lemma_subst_absent(arms[i].1, x, rep);
                }
            }
            assert(subst_arms(arms, x, rep) =~= arms);
        },
        ExprV::Forall { binders, body } => {
            if !binds_name(binders, x) {
                lemma_subst_absent(*body, x, rep);
            }
        },
        ExprV::Exists { binders, body } => {
            if !binds_name(binders, x) {
                lemma_subst_absent(*body, x, rep);
            }
        },
        ExprV::Instantiate(inner) => lemma_subst_absent(*inner, x, rep),
        ExprV::ExistentialBindings(bs) => {
            assert forall|i: int| 0 <= i < bs.len() implies #[trigger] subst_bindings(bs, x, rep)[i] == bs[i] by {
                assert(!occurs_free(bs[i].1, x));
                lemma_subst_absent(bs[i].1, x, rep);
            }
            assert(subst_bindings(bs, x, rep) =~= bs);
        },
        _ => {},
    }
}

/// Whether the pattern binds the variable `var`.
#[verifier::loop_isolation(false)]
pub fn pattern_contains_var(pat: &Pattern, var: &Ident) -> (r: bool)
    ensures
        r == pattern_binds(pat@, var@),
    decreases pat,
{
    match pat {
        Pattern::Wildcard => false,
        Pattern::Ident(name) => name.eq(var),
        Pattern::Constructor { name, args, arg_types } => {
            proof {
                assert(pat@ == PatternV::Constructor {
                    name: name@,
                    args: crate::ast::pattern_views(args@),
                    arg_types: match *arg_types {
                        Some(ts) => Some(crate::ast::base_views(ts@)),
                        None => None,
                    },
                });
            }
            let mut i: usize = 0;
            while i < args.len()
                invariant
                    0 <= i <= args@.len(),
                    pat@->args == crate::ast::pattern_views(args@),
                    forall|k: int| 0 <= k < i ==> !pattern_binds(#[trigger] pat@->args[k], var@),
                decreases args@.len() - i,
            {
                proof {
                    assert(decreases_to!(*pat => (*pat)->args));
                    assert(decreases_to!(args@ => args@[i as int]));
                }
                if pattern_contains_var(&args[i], var) {
                    proof {
                        assert(pattern_binds(pat@->args[i as int], var@));
                    }
                    return true;
                }
                i = i + 1;
            }
            false
        },
        Pattern::Tuple(args) => {
            proof {
                assert(pat@ == PatternV::Tuple(crate::ast::pattern_views(args@)));
            }
            let mut i: usize = 0;
            while i < args.len()
                invariant
                    0 <= i <= args@.len(),
                    pat@->Tuple_0 == crate::ast::pattern_views(args@),
                    forall|k: int| 0 <= k < i ==> !pattern_binds(#[trigger] pat@->Tuple_0[k], var@),
                decreases args@.len() - i,
            {
                proof {
                    assert(decreases_to!(*pat => (*pat)->Tuple_0));
                    assert(decreases_to!(args@ => args@[i as int]));
                }
                if pattern_contains_var(&args[i], var) {
                    proof {
                        assert(pattern_binds(pat@->Tuple_0[i as int], var@));
                    }
                    return true;
                }
                i = i + 1;
            }
            false
        },
    }
}

/// Whether one of the binders is named `var`.
fn binders_contain(bs: &Vec<(Ident, BaseType)>, var: &Ident) -> (r: bool)
    ensures
        r == binds_name(binders_view(bs@), var@),
{
    let ghost bv = binders_view(bs@);
    let mut i: usize = 0;
    while i < bs.len()
        invariant
            0 <= i <= bs@.len(),
            bv == binders_view(bs@),
            forall|k: int| 0 <= k < i ==> (#[trigger] bv[k]).0 != var@,
        decreases bs@.len() - i,
    {
        if bs[i].0.eq(var) {
            proof {
                assert(bv[i as int].0 == var@);
            }
            return true;
        }
        i = i + 1;
    }
    false
}

/// [`substitute_expr`] on each expression of a list.
fn substitute_all(es: &Vec<Expr>, target_var: &Ident, replacement: &Expr) -> (r: Vec<Expr>)
    ensures
        expr_views(r@) == subst_all(expr_views(es@), target_var@, replacement@),
    decreases es,
{
    let ghost ev = expr_views(es@);
    let mut out: Vec<Expr> = Vec::new();
    let mut i: usize = 0;
    while i < es.len()
        invariant
            0 <= i <= es@.len(),
            ev == expr_views(es@),
            out@.len() == i,
            forall|k: int| 0 <= k < i ==> #[trigger] out@[k]@ == subst(ev[k], target_var@, replacement@),
        decreases es@.len() - i,
    {
        proof {
            assert(decreases_to!(*es => es@));
            assert(decreases_to!(es@ => es@[i as int]));
        }
        let x = substitute_expr(&es[i], target_var, replacement);
        out.push(x);
        i = i + 1;
    }
    proof {
        assert(expr_views(out@) =~= subst_all(ev, target_var@, replacement@));
    }
    out
}

/// The expression with every free occurrence of `target_var` replaced by
/// `replacement`; binders of the same name shadow it.
#[verifier::loop_isolation(false)]
pub fn substitute_expr(expr: &Expr, target_var: &Ident, replacement: &Expr) -> (r: Expr)
    ensures
        r@ == subst(expr@, target_var@, replacement@),
    decreases expr,
{
    let ghost x = target_var@;
    let ghost rep = replacement@;
    match expr {
        Expr::BoolConst(b) => Expr::BoolConst(*b),
        Expr::Var(name) => {
            if name.eq(target_var) {
                replacement.deep_clone()
            } else {
                Expr::Var(name.clone())
            }
        },
        Expr::Tuple(es) => {
            proof {
                assert(decreases_to!(*expr => (*expr)->Tuple_0));
            }
            Expr::Tuple(substitute_all(es, target_var, replacement))
        },
        Expr::BinOp { op, left, right } => Expr::BinOp {
            op: *op,
            left: Box::new(substitute_expr(left, target_var, replacement)),
            right: Box::new(substitute_expr(right, target_var, replacement)),
        },
        Expr::UnOp { op, expr: inner } => Expr::UnOp {
            op: *op,
            expr: Box::new(substitute_expr(inner, target_var, replacement)),
        },
        Expr::If { cond, then_expr, else_expr } => Expr::If {
            cond: Box::new(substitute_expr(cond, target_var, replacement)),
            then_expr: Box::new(substitute_expr(then_expr, target_var, replacement)),
            else_expr: Box::new(substitute_expr(else_expr, target_var, replacement)),
        },
        Expr::Call { func, args } => {
            proof {
                assert(decreases_to!(*expr => (*expr)->Call_args));
            }
            Expr::Call { func: func.clone(), args: substitute_all(args, target_var, replacement) }
        },
        Expr::Constructor { name, args } => {
            proof {
                assert(decreases_to!(*expr => (*expr)->Constructor_args));
            }
            Expr::Constructor { name: name.clone(), args: substitute_all(args, target_var, replacement) }
        },
        Expr::ApplyRel { relation, args } => {
            proof {
                assert(decreases_to!(*expr => (*expr)->ApplyRel_args));
            }
            Expr::ApplyRel { relation: relation.clone(), args: substitute_all(args, target_var, replacement) }
        },
        Expr::Let { pat, bound_expr, body } => {
            let new_bound = substitute_expr(bound_expr, target_var, replacement);
            let new_body = if pattern_contains_var(pat, target_var) {
                body.deep_clone()
            } else {
                substitute_expr(body, target_var, replacement)
            };
            Expr::Let { pat: pat.deep_clone(), bound_expr: Box::new(new_bound), body: Box::new(new_body) }
        },
        Expr::Match { expr: target, arms } => {
            let t = substitute_expr(target, target_var, replacement);
            let ghost av = arms_view(arms@);
            let mut out: Vec<(Pattern, Expr)> = Vec::new();
            let mut i: usize = 0;
            while i < arms.len()
                invariant
                    0 <= i <= arms@.len(),
                    av == arms_view(arms@),
                    out@.len() == i,
                    forall|k: int| 0 <= k < i ==> (#[trigger] out@[k]).0@ == av[k].0 && out@[k].1@ == (if pattern_binds(av[k].0, x) {
                        av[k].1
                    } else {
                        subst(av[k].1, x, rep)
                    }),
                decreases arms@.len() - i,
            {
                proof {
                    assert(decreases_to!(*expr => (*expr)->arms));
                    assert(decreases_to!(arms@ => arms@[i as int]));
                    assert(decreases_to!(arms@[i as int] => arms@[i as int].1));
                }
                let e = if pattern_contains_var(&arms[i].0, target_var) {
                    arms[i].1.deep_clone()
                } else {
                    substitute_expr(&arms[i].1, target_var, replacement)
                };
                out.push((arms[i].0.deep_clone(), e));
                i = i + 1;
            }
            proof {
                assert(arms_view(out@) =~= subst_arms(av, x, rep));
            }
            Expr::Match { expr: Box::new(t), arms: out }
        },
        Expr::Forall { binders, body } => {
            let new_body = if binders_contain(binders, target_var) {
                body.deep_clone()
            } else {
                substitute_expr(body, target_var, replacement)
            };
            Expr::Forall { binders: clone_binders(binders), body: Box::new(new_body) }
        },
        Expr::Exists { binders, body } => {
            let new_body = if binders_contain(binders, target_var) {
                body.deep_clone()
            } else {
                substitute_expr(body, target_var, replacement)
            };
            Expr::Exists { binders: clone_binders(binders), body: Box::new(new_body) }
        },
        Expr::Instantiate(inner) => Expr::Instantiate(Box::new(substitute_expr(inner, target_var, replacement))),
        Expr::ExistentialBindings(bs) => {
            let ghost bv = bindings_view(bs@);
            let mut out: Vec<(Ident, Expr)> = Vec::new();
            let mut i: usize = 0;
            while i < bs.len()
                invariant
                    0 <= i <= bs@.len(),
                    bv == bindings_view(bs@),
                    out@.len() == i,
                    forall|k: int| 0 <= k < i ==> (#[trigger] out@[k]).0@ == bv[k].0 && out@[k].1@ == subst(bv[k].1, x, rep),
                decreases bs@.len() - i,
            {
                proof {
                    assert(decreases_to!(*expr => (*expr)->ExistentialBindings_0));
                    assert(decreases_to!(bs@ => bs@[i as int]));
                    assert(decreases_to!(bs@[i as int] => bs@[i as int].1));
                }
                let e = substitute_expr(&bs[i].1, target_var, replacement);
                out.push((bs[i].0.clone(), e));
                i = i + 1;
            }
            proof {
                assert(bindings_view(out@) =~= subst_bindings(bv, x, rep));
            }
            Expr::ExistentialBindings(out)
        },
    }
}

/// `c_1 && .. && c_n`, nested to the left, or `true` when there is none.
pub open spec fn and_tree(cs: Seq<ExprV>) -> ExprV
    decreases cs.len(),
{
    if cs.len() == 0 {
        ExprV::BoolConst(true)
    } else if cs.len() == 1 {
        cs[0]
    } else {
        ExprV::BinOp { op: BinOp::And, left: Box::new(and_tree(cs.drop_last())), right: Box::new(cs.last()) }
    }
}

/// Joins conditions with `&&`, the first one innermost on the left.
pub fn build_and_tree(conditions: Vec<Expr>) -> (r: Expr)
    ensures
        r@ == and_tree(expr_views(conditions@)),
{
    let ghost cv = expr_views(conditions@);
    let n = conditions.len();
    if n == 0 {
        return Expr::BoolConst(true);
    }
    let mut rest = conditions;
    let mut items: Vec<Expr> = Vec::new();
    while rest.len() > 0
        invariant
            expr_views(rest@) + expr_views(items@).reverse() == cv,
        decreases rest@.len(),
    {
        let ghost before = rest@;
        let ghost ib = items@;
        let c = rest.pop().unwrap();
        items.push(c);
        proof {
            assert(expr_views(rest@) =~= expr_views(before).drop_last());
            assert(expr_views(items@).reverse() =~= seq![c@] + expr_views(ib).reverse());
            assert(expr_views(before) =~= expr_views(rest@).push(c@));
            assert(expr_views(rest@) + expr_views(items@).reverse() =~= cv);
        }
    }
    proof {
        assert(expr_views(items@).reverse() =~= cv);
    }
    let mut root = items.pop().unwrap();
    let mut k: usize = 1;
    proof {
        assert(cv.take(1) =~= seq![cv[0]]);
    }
    while items.len() > 0
        invariant
            1 <= k <= cv.len(),
            cv.len() == n,
            items@.len() + k == cv.len(),
            forall|q: int| 0 <= q < items@.len() ==> #[trigger] items@[q]@ == cv[cv.len() - 1 - q],
            root@ == and_tree(cv.take(k as int)),
        decreases items@.len(),
    {
        let ghost ib = items@;
        let c = items.pop().unwrap();
        proof {
            assert(c@ == cv[k as int]);
            assert(cv.take(k + 1).drop_last() =~= cv.take(k as int));
        }
        root = Expr::BinOp { op: BinOp::And, left: Box::new(root), right: Box::new(c) };
        k = k + 1;
    }
    proof {
        assert(cv.take(k as int) =~= cv);
    }
    root
}

/// One scope: its variables with their types, the path conditions that hold
/// in it, and the instantiation hints given in it.
#[derive(Debug)]
pub struct Scope {
    pub bindings: Vec<(Ident, Type)>,
    pub path_conditions: Vec<Expr>,
    pub instantiations: Vec<Expr>,
}

/// The view of a scope.
pub struct ScopeV {
    pub bindings: Seq<(Seq<char>, TypeV)>,
    pub path_conditions: Seq<ExprV>,
    pub instantiations: Seq<ExprV>,
}

/// The views of typed variables.
pub open spec fn typed_view(bs: Seq<(Ident, Type)>) -> Seq<(Seq<char>, TypeV)> {
    Seq::new(bs.len(), |i: int| (bs[i].0@, bs[i].1@))
}

impl View for Scope {
    type V = ScopeV;

    open spec fn view(&self) -> ScopeV {
        ScopeV {
            bindings: typed_view(self.bindings@),
            path_conditions: expr_views(self.path_conditions@),
            instantiations: expr_views(self.instantiations@),
        }
    }
}

/// The empty scope.
pub open spec fn empty_scope() -> ScopeV {
    ScopeV { bindings: Seq::empty(), path_conditions: Seq::empty(), instantiations: Seq::empty() }
}

impl Default for Scope {
    fn default() -> (r: Self)
        ensures
            r@ == empty_scope(),
    {
        let r = Scope { bindings: Vec::new(), path_conditions: Vec::new(), instantiations: Vec::new() };
        proof {
            assert(r@.bindings =~= Seq::<(Seq<char>, TypeV)>::empty());
            assert(r@.path_conditions =~= Seq::<ExprV>::empty());
            assert(r@.instantiations =~= Seq::<ExprV>::empty());
        }
        r
    }
}

/// The type environment: a stack of scopes, innermost last.
#[derive(Debug)]
pub struct TypeEnv {
    scopes: Vec<Scope>,
    next_fresh: usize,
}

/// `bs` with `x` bound to `t`: the binding of `x` replaced in place where
/// there is one, else added last.
pub open spec fn bind_in(bs: Seq<(Seq<char>, TypeV)>, x: Seq<char>, t: TypeV) -> Seq<(Seq<char>, TypeV)> {
    if exists|i: int| 0 <= i < bs.len() && (#[trigger] bs[i]).0 == x {
        bs.update(choose|i: int| 0 <= i < bs.len() && (#[trigger] bs[i]).0 == x, (x, t))
    } else {
        bs.push((x, t))
    }
}

/// The scopes after binding `x` to `t` in the innermost one.
pub open spec fn scopes_bind(scopes: Seq<ScopeV>, x: Seq<char>, t: TypeV) -> Seq<ScopeV> {
    scopes.drop_last().push(ScopeV { bindings: bind_in(scopes.last().bindings, x, t), ..scopes.last() })
}

/// The name that the `n`-th call of [`TypeEnv::fresh`] makes from `prefix`.
pub open spec fn fresh_name(prefix: Seq<char>, n: nat) -> Seq<char> {
    prefix + "_"@ + crate::text::dec_text(n)
}

/// The hints of all scopes, outermost first.
pub open spec fn all_instantiations(scopes: Seq<ScopeV>) -> Seq<ExprV>
    decreases scopes.len(),
{
    if scopes.len() == 0 {
        Seq::empty()
    } else {
        all_instantiations(scopes.drop_last()) + scopes.last().instantiations
    }
}

/// The variables of a scope that can be quantified: those of a base or a
/// refined type, with that base.
pub open spec fn quantifiable(bs: Seq<(Seq<char>, TypeV)>) -> Seq<(Seq<char>, crate::ast::BaseTypeV)>
    decreases bs.len(),
{
    if bs.len() == 0 {
        Seq::empty()
    } else {
        let rest = quantifiable(bs.drop_last());
        match bs.last().1 {
            TypeV::Base(b) => rest.push((bs.last().0, b)),
            TypeV::Refined { base, .. } => rest.push((bs.last().0, base)),
            TypeV::Arrow { .. } => rest,
        }
    }
}

/// The quantifiable variables of all scopes, outermost first.
pub open spec fn all_quantifiable(scopes: Seq<ScopeV>) -> Seq<(Seq<char>, crate::ast::BaseTypeV)>
    decreases scopes.len(),
{
    if scopes.len() == 0 {
        Seq::empty()
    } else {
        all_quantifiable(scopes.drop_last()) + quantifiable(scopes.last().bindings)
    }
}

/// The facts a scope contributes: the refinement of each refined variable,
/// said of the variable, then the path conditions.
pub open spec fn scope_facts(s: ScopeV) -> Seq<ExprV> {
    refinement_facts(s.bindings) + s.path_conditions
}

/// The refinements of the refined variables, said of each variable.
pub open spec fn refinement_facts(bs: Seq<(Seq<char>, TypeV)>) -> Seq<ExprV>
    decreases bs.len(),
{
    if bs.len() == 0 {
        Seq::empty()
    } else {
        let rest = refinement_facts(bs.drop_last());
        match bs.last().1 {
            TypeV::Refined { bound_var, predicate, .. } => rest.push(subst(predicate, bound_var, ExprV::Var(bs.last().0))),
            _ => rest,
        }
    }
}

/// The facts of all scopes, outermost first.
pub open spec fn all_facts(scopes: Seq<ScopeV>) -> Seq<ExprV>
    decreases scopes.len(),
{
    if scopes.len() == 0 {
        Seq::empty()
    } else {
        all_facts(scopes.drop_last()) + scope_facts(scopes.last())
    }
}

/// `target` under a `forall` of the given variables, if there are any.
pub open spec fn closed(vars: Seq<(Seq<char>, crate::ast::BaseTypeV)>, target: ExprV) -> ExprV {
    if vars.len() == 0 {
        target
    } else {
        ExprV::Forall { binders: vars, body: Box::new(target) }
    }
}

/// The type of the variable named `x` in the scopes up to `k`, innermost first.
pub open spec fn lookup_in(scopes: Seq<ScopeV>, x: Seq<char>, k: int) -> Option<TypeV>
    decreases k,
{
    if k <= 0 {
        None
    } else {
        match find_binding(scopes[k - 1].bindings, x) {
            Some(t) => Some(t),
            None => lookup_in(scopes, x, k - 1),
        }
    }
}

/// The type bound to `x` in one scope.
pub open spec fn find_binding(bs: Seq<(Seq<char>, TypeV)>, x: Seq<char>) -> Option<TypeV> {
    if exists|i: int| 0 <= i < bs.len() && (#[trigger] bs[i]).0 == x {
        Some(bs[choose|i: int| 0 <= i < bs.len() && (#[trigger] bs[i]).0 == x].1)
    } else {
        None
    }
}

/// Law: what is done inside a scope is undone when it closes. From scopes
/// `s`, opening a scope ([`TypeEnv::push_scope`]), binding `x` to `t`
/// ([`TypeEnv::insert_var`]) and adding the path condition `c`
/// ([`TypeEnv::add_path_condition`]) and the instantiation `i`
/// ([`TypeEnv::add_instantiation`]) gives scopes in which `x` is `t`; closing
/// the scope ([`TypeEnv::pop_scope`]) gives back `s` itself, so every lookup,
/// the logical context and the active instantiations are those of before.
pub proof fn lemma_scope_round_trip(s: Seq<ScopeV>, x: Seq<char>, t: TypeV, c: ExprV, i: ExprV)
    requires
        s.len() > 0,
    ensures
        ({
            let bound = scopes_bind(s.push(empty_scope()), x, t);
            let cond = bound.drop_last().push(ScopeV { path_conditions: bound.last().path_conditions.push(c), ..bound.last() });
            let inner = cond.drop_last().push(ScopeV { instantiations: cond.last().instantiations.push(i), ..cond.last() });
            &&& lookup_in(inner, x, inner.len() as int) == Some(t)
            &&& inner.len() > 1
            &&& inner.drop_last() == s
        }),
{
    let opened = s.push(empty_scope());
    let bound = scopes_bind(opened, x, t);
    let cond = bound.drop_last().push(ScopeV { path_conditions: bound.last().path_conditions.push(c), ..bound.last() });
    let inner = cond.drop_last().push(ScopeV { instantiations: cond.last().instantiations.push(i), ..cond.last() });
    let bs = bind_in(empty_scope().bindings, x, t);
    assert(bs =~= seq![(x, t)]);
    assert(bs[0].0 == x);
    assert(find_binding(bs, x) == Some(t));
    assert(inner[inner.len() - 1].bindings == bs);
    assert(opened.drop_last() =~= s);
    assert(inner.drop_last() =~= s);
}

impl TypeEnv {
    /// The scopes, outermost first.
    pub closed spec fn scopes(&self) -> Seq<ScopeV> {
        Seq::new(self.scopes@.len(), |i: int| self.scopes@[i]@)
    }

    /// How many fresh names have been made.
    pub closed spec fn counter(&self) -> nat {
        self.next_fresh as nat
    }

    /// There is always a scope, and no variable is declared twice in one.
    pub closed spec fn wf(&self) -> bool {
        &&& self.scopes@.len() > 0
        &&& forall|i: int| 0 <= i < self.scopes@.len() ==> crate::ast::distinct_names(crate::ast::keys_of(#[trigger] self.scopes@[i].bindings@))
    }

    /// An environment with one empty scope.
    pub fn new() -> (r: Self)
        ensures
            r.wf(),
            r.scopes() == seq![empty_scope()],
            r.counter() == 0,
    {
        let mut scopes: Vec<Scope> = Vec::new();
        scopes.push(Scope::default());
        let r = TypeEnv { scopes, next_fresh: 0 };
        proof {
            assert(r.scopes() =~= seq![empty_scope()]);
            assert(r.scopes@[0]@ == empty_scope());
            assert(typed_view(r.scopes@[0].bindings@).len() == 0);
            assert(crate::ast::keys_of(r.scopes@[0].bindings@) =~= Seq::<Seq<char>>::empty());
        }
        r
    }

    /// Adds an instantiation hint to the innermost scope.
    pub fn add_instantiation(&mut self, expr: Expr)
        requires
            old(self).wf(),
        ensures
            final(self).counter() == old(self).counter(),
            final(self).wf(),
            final(self).scopes() == old(self).scopes().drop_last().push(ScopeV {
                instantiations: old(self).scopes().last().instantiations.push(expr@),
                ..old(self).scopes().last()
            }),
    {
        let ghost old_scopes = self.scopes@;
        let mut s = self.scopes.pop().unwrap();
        let ghost ins = s.instantiations@;
        s.instantiations.push(expr);
        self.scopes.push(s);
        proof {
            assert(expr_views(s.instantiations@) =~= expr_views(ins).push(expr@));
            assert(self.scopes() =~= Seq::new(old_scopes.len(), |i: int| old_scopes[i]@).drop_last().push(ScopeV {
                instantiations: old_scopes.last()@.instantiations.push(expr@),
                ..old_scopes.last()@
            }));
            assert forall|i: int| 0 <= i < self.scopes@.len() implies crate::ast::distinct_names(crate::ast::keys_of(#[trigger] self.scopes@[i].bindings@)) by {
                if i < self.scopes@.len() - 1 {
                    assert(self.scopes@[i] == old_scopes[i]);
                } else {
                    assert(self.scopes@[i].bindings == old_scopes.last().bindings);
                }
            }
        }
    }

    /// Adds a path condition to the innermost scope.
    pub fn add_path_condition(&mut self, cond: Expr)
        requires
            old(self).wf(),
        ensures
            final(self).counter() == old(self).counter(),
            final(self).wf(),
            final(self).scopes() == old(self).scopes().drop_last().push(ScopeV {
                path_conditions: old(self).scopes().last().path_conditions.push(cond@),
                ..old(self).scopes().last()
            }),
    {
        let ghost old_scopes = self.scopes@;
        let mut s = self.scopes.pop().unwrap();
        let ghost pcs = s.path_conditions@;
        s.path_conditions.push(cond);
        self.scopes.push(s);
        proof {
            assert(expr_views(s.path_conditions@) =~= expr_views(pcs).push(cond@));
            assert(self.scopes() =~= Seq::new(old_scopes.len(), |i: int| old_scopes[i]@).drop_last().push(ScopeV {
                path_conditions: old_scopes.last()@.path_conditions.push(cond@),
                ..old_scopes.last()@
            }));
            assert forall|i: int| 0 <= i < self.scopes@.len() implies crate::ast::distinct_names(crate::ast::keys_of(#[trigger] self.scopes@[i].bindings@)) by {
                if i < self.scopes@.len() - 1 {
                    assert(self.scopes@[i] == old_scopes[i]);
                } else {
                    assert(self.scopes@[i].bindings == old_scopes.last().bindings);
                }
            }
        }
    }

    /// Opens a new, empty, innermost scope.
    /// Runs `f` in a new innermost scope, which is closed afterwards.
    pub fn with_scope<R, F: FnOnce(&mut TypeEnv) -> R>(&mut self, f: F) -> (r: R)
        requires
            old(self).wf(),
            forall|e: &mut TypeEnv| e.wf() ==> f.requires((e,)),
            forall|e: &mut TypeEnv, v: R| #[trigger] f.ensures((e,), v) ==> {
                &&& final(e).wf()
                &&& final(e).scopes().len() == e.scopes().len()
                &&& final(e).scopes().drop_last() == e.scopes().drop_last()
            },
        ensures
            final(self).wf(),
            final(self).scopes() == old(self).scopes(),
            exists|e: &mut TypeEnv| #[trigger] f.ensures((e,), r),
    {
        self.push_scope();
        let r = f(self);
        self.pop_scope();
        r
    }

    /// In a scope of its own, binds `x` to `t` and records the path
    /// condition `c` and the instantiation `i`, and looks `x` up there: it is
    /// `t`. Once the scope is closed the environment is as before.
    pub fn scoped_lookup(&mut self, x: Ident, t: Type, c: Expr, i: Expr) -> (r: Option<Type>)
        requires
            old(self).wf(),
        ensures
            final(self).wf(),
            final(self).scopes() == old(self).scopes(),
            r matches Some(u) && u@ == t@,
    {
        let ghost tv = t@;
        self.with_scope(move |e: &mut TypeEnv| -> (r: Option<Type>)
            requires
                old(e).wf(),
            ensures
                final(e).wf(),
                final(e).scopes().len() == old(e).scopes().len(),
                final(e).scopes().drop_last() == old(e).scopes().drop_last(),
                r matches Some(u) && u@ == tv,
            {
                let name = x.clone();
                let ghost s0 = e.scopes();
                e.insert_var(x, t);
                let ghost s1 = e.scopes();
                e.add_path_condition(c);
                let ghost s2 = e.scopes();
                proof {
                    assert(s2.drop_last() =~= s1.drop_last());
                }
                e.add_instantiation(i);
                proof {
                    assert(e.scopes().drop_last() =~= s2.drop_last());
                    assert(e.scopes().last().bindings == s1.last().bindings);
                }
                match e.lookup_var(&name) {
                    Some(u) => Some(u.deep_clone()),
                    None => None,
                }
            })
    }

    pub fn push_scope(&mut self)
        requires
            old(self).wf(),
        ensures
            final(self).counter() == old(self).counter(),
            final(self).wf(),
            final(self).scopes() == old(self).scopes().push(empty_scope()),
    {
        let ghost old_scopes = self.scopes@;
        let s = Scope::default();
        self.scopes.push(s);
        proof {
            assert(self.scopes() =~= Seq::new(old_scopes.len(), |i: int| old_scopes[i]@).push(empty_scope()));
            assert forall|i: int| 0 <= i < self.scopes@.len() implies crate::ast::distinct_names(crate::ast::keys_of(#[trigger] self.scopes@[i].bindings@)) by {
                if i < self.scopes@.len() - 1 {
                    assert(self.scopes@[i] == old_scopes[i]);
                } else {
                    assert(self.scopes@[i]@ == empty_scope());
                    assert(typed_view(self.scopes@[i].bindings@).len() == 0);
                    assert(crate::ast::keys_of(self.scopes@[i].bindings@) =~= Seq::<Seq<char>>::empty());
                }
            }
        }
    }

    /// Closes the innermost scope; the outermost one is never closed.
    pub fn pop_scope(&mut self)
        requires
            old(self).wf(),
        ensures
            final(self).counter() == old(self).counter(),
            final(self).wf(),
            final(self).scopes() == if old(self).scopes().len() > 1 {
                old(self).scopes().drop_last()
            } else {
                old(self).scopes()
            },
    {
        let ghost old_scopes = self.scopes@;
        if self.scopes.len() > 1 {
            let _ = self.scopes.pop();
            proof {
                assert(self.scopes() =~= Seq::new(old_scopes.len(), |i: int| old_scopes[i]@).drop_last());
                assert forall|i: int| 0 <= i < self.scopes@.len() implies crate::ast::distinct_names(crate::ast::keys_of(#[trigger] self.scopes@[i].bindings@)) by {
                    assert(self.scopes@[i] == old_scopes[i]);
                }
            }
        }
    }

    /// Binds `name` to `ty` in the innermost scope, replacing an earlier
    /// binding of the same name there.
    pub fn insert_var(&mut self, name: Ident, ty: Type)
        requires
            old(self).wf(),
        ensures
            final(self).counter() == old(self).counter(),
            final(self).wf(),
            final(self).scopes().drop_last() == old(self).scopes().drop_last(),
            final(self).scopes().last().path_conditions == old(self).scopes().last().path_conditions,
            final(self).scopes().last().instantiations == old(self).scopes().last().instantiations,
            find_binding(final(self).scopes().last().bindings, name@) == Some(ty@),
            forall|x: Seq<char>| x != name@ ==> #[trigger] find_binding(final(self).scopes().last().bindings, x)
                == find_binding(old(self).scopes().last().bindings, x),
            final(self).scopes().len() == old(self).scopes().len(),
            final(self).scopes() == scopes_bind(old(self).scopes(), name@, ty@),
    {
        let ghost old_scopes = self.scopes@;
        let mut s = self.scopes.pop().unwrap();
        let ghost ob = s.bindings@;
        let mut i: usize = 0;
        let mut found = false;
        while i < s.bindings.len() && !found
            invariant
                0 <= i <= s.bindings@.len(),
                s.bindings@ == ob,
                found ==> i < ob.len() && ob[i as int].0@ == name@,
                forall|k: int| 0 <= k < i ==> (#[trigger] ob[k]).0@ != name@,
            decreases s.bindings@.len() - i, if found { 0int } else { 1int },
        {
            if s.bindings[i].0.eq(&name) {
                found = true;
            } else {
                i = i + 1;
            }
        }
        proof {
            assert(crate::ast::distinct_names(crate::ast::keys_of(ob)));
        }
        if found {
            s.bindings.set(i, (name, ty));
        } else {
            s.bindings.push((name, ty));
        }
        let ghost nb = s.bindings@;
        self.scopes.push(s);
        proof {
            let k = crate::ast::keys_of(ob);
            let k2 = crate::ast::keys_of(nb);
            assert forall|a: int, b: int| 0 <= a < k2.len() && 0 <= b < k2.len() && a != b implies k2[a] != k2[b] by {
                if found {
                    if a != i && b != i {
                        assert(k[a] != k[b]);
                    } else if a == i {
                        assert(k[b] != k[a]);
                    } else {
                        assert(k[a] != k[b]);
                    }
                } else {
                    if a < ob.len() && b < ob.len() {
                        assert(k[a] != k[b]);
                    } else if a == ob.len() {
                        assert(ob[b].0@ != name@);
                    } else {
                        assert(ob[a].0@ != name@);
                    }
                }
            }
            assert forall|q: int| 0 <= q < self.scopes@.len() implies crate::ast::distinct_names(crate::ast::keys_of(#[trigger] self.scopes@[q].bindings@)) by {
                if q < self.scopes@.len() - 1 {
                    assert(self.scopes@[q] == old_scopes[q]);
                }
            }
            assert(self.scopes().drop_last() =~= Seq::new(old_scopes.len(), |q: int| old_scopes[q]@).drop_last());
            let tb = typed_view(nb);
            let to = typed_view(ob);
            assert(self.scopes().last().bindings == tb);
            assert(Seq::new(old_scopes.len(), |q: int| old_scopes[q]@).last().bindings == to);
            assert(tb[i as int].0 == name@);
            assert(find_binding(tb, name@) == Some(ty@)) by {
                let c = choose|j: int| 0 <= j < tb.len() && (#[trigger] tb[j]).0 == name@;
                assert(k2[c] == name@);
                assert(k2[i as int] == name@);
            }
            assert forall|x: Seq<char>| x != name@ implies #[trigger] find_binding(tb, x) == find_binding(to, x) by {
                if exists|j: int| 0 <= j < tb.len() && (#[trigger] tb[j]).0 == x {
                    let c = choose|j: int| 0 <= j < tb.len() && (#[trigger] tb[j]).0 == x;
                    assert(c != i || !found);
                    assert(c < to.len());
                    assert(to[c] == tb[c]);
                    let d = choose|j: int| 0 <= j < to.len() && (#[trigger] to[j]).0 == x;
                    assert(k[c] == x && k[d] == x);
                }
                if exists|j: int| 0 <= j < to.len() && (#[trigger] to[j]).0 == x {
                    let d = choose|j: int| 0 <= j < to.len() && (#[trigger] to[j]).0 == x;
                    assert(d != i || !found);
                    assert(tb[d] == to[d]);
                    let c = choose|j: int| 0 <= j < tb.len() && (#[trigger] tb[j]).0 == x;
                    assert(k2[c] == x && k2[d] == x);
                }
            }
        }
        proof {
            let os = Seq::new(old_scopes.len(), |q: int| old_scopes[q]@);
            let tb = typed_view(nb);
            let to = typed_view(ob);
            let k = crate::ast::keys_of(ob);
            assert(bind_in(to, name@, ty@) =~= tb) by {
                if found {
                    assert(to[i as int].0 == name@);
                    let c = choose|j: int| 0 <= j < to.len() && (#[trigger] to[j]).0 == name@;
                    assert(k[c] == name@ && k[i as int] == name@);
                } else {
                    assert forall|j: int| 0 <= j < to.len() implies (#[trigger] to[j]).0 != name@ by {
                        assert(ob[j].0@ != name@);
                    }
                }
            }
            assert(self.scopes().last() == ScopeV { bindings: tb, ..os.last() });
            assert(self.scopes() =~= scopes_bind(os, name@, ty@));
        }
    }

    /// Whether no fresh name can be made any more.
    pub fn at_capacity(&self) -> (r: bool)
        ensures
            r == (self.counter() >= usize::MAX),
    {
        self.next_fresh == usize::MAX
    }

    /// A name made from `prefix` and a number that no earlier call used.
    pub fn fresh(&mut self, prefix: &str) -> (r: Ident)
        requires
            old(self).counter() < usize::MAX,
        ensures
            r@ == fresh_name(prefix@, old(self).counter()),
            final(self).counter() == old(self).counter() + 1,
            final(self).scopes() == old(self).scopes(),
            final(self).wf() == old(self).wf(),
    {
        proof {
            reveal_strlit("_");
        }
        let mut name = String::from_str(prefix);
        name.append("_");
        let n = crate::text::decimal(self.next_fresh);
        name.append(n.as_str());
        self.next_fresh = self.next_fresh + 1;
        name
    }

    /// The type of `name`, from the innermost scope that binds it.
    #[verifier::loop_isolation(false)]
    pub fn lookup_var(&self, name: &Ident) -> (r: Option<&Type>)
        requires
            self.wf(),
        ensures
            match r {
                Some(t) => lookup_in(self.scopes(), name@, self.scopes().len() as int) == Some(t@),
                None => lookup_in(self.scopes(), name@, self.scopes().len() as int) is None,
            },
    {
        let ghost sv = self.scopes();
        let mut k: usize = self.scopes.len();
        while k > 0
            invariant
                0 <= k <= self.scopes@.len(),
                self.wf(),
                sv == self.scopes(),
                lookup_in(sv, name@, sv.len() as int) == lookup_in(sv, name@, k as int),
            decreases k,
        {
            let scope = &self.scopes[k - 1];
            let ghost tb = typed_view(scope.bindings@);
            proof {
                assert(sv[k - 1] == scope@);
            }
            let mut i: usize = 0;
            while i < scope.bindings.len()
                invariant
                    0 <= i <= scope.bindings@.len(),
                    tb == typed_view(scope.bindings@),
                    forall|q: int| 0 <= q < i ==> (#[trigger] tb[q]).0 != name@,
                decreases scope.bindings@.len() - i,
            {
                if scope.bindings[i].0.eq(name) {
                    proof {
                        assert(crate::ast::distinct_names(crate::ast::keys_of(self.scopes@[k - 1].bindings@)));
                        let c = choose|j: int| 0 <= j < tb.len() && (#[trigger] tb[j]).0 == name@;
                        assert(tb[i as int].0 == name@);
                        assert(crate::ast::keys_of(scope.bindings@)[c] == crate::ast::keys_of(scope.bindings@)[i as int]);
                        assert(find_binding(tb, name@) == Some(tb[i as int].1));
                    }
                    return Some(&scope.bindings[i].1);
                }
                i = i + 1;
            }
            proof {
                assert(find_binding(tb, name@) is None);
            }
            k = k - 1;
        }
        None
    }

    /// The instantiation hints of all scopes, outermost first.
    pub fn get_active_instantiations(&self) -> (r: Vec<Expr>)
        ensures
            expr_views(r@) == all_instantiations(self.scopes()),
    {
        let ghost sv = self.scopes();
        let mut out: Vec<Expr> = Vec::new();
        let mut k: usize = 0;
        proof {
            assert(sv.take(0) =~= Seq::<ScopeV>::empty());
            assert(expr_views(out@) =~= Seq::<ExprV>::empty());
        }
        while k < self.scopes.len()
            invariant
                0 <= k <= self.scopes@.len(),
                sv == self.scopes(),
                expr_views(out@) == all_instantiations(sv.take(k as int)),
            decreases self.scopes@.len() - k,
        {
            let scope = &self.scopes[k];
            let ghost before = expr_views(out@);
            let mut i: usize = 0;
            while i < scope.instantiations.len()
                invariant
                    0 <= i <= scope.instantiations@.len(),
                    expr_views(out@) == before + expr_views(scope.instantiations@).take(i as int),
                decreases scope.instantiations@.len() - i,
            {
                let ghost ob = out@;
                out.push(scope.instantiations[i].deep_clone());
                proof {
                    assert(expr_views(out@) =~= expr_views(ob).push(scope.instantiations@[i as int]@));
                    assert(expr_views(scope.instantiations@).take(i + 1) =~= expr_views(scope.instantiations@).take(i as int).push(scope.instantiations@[i as int]@));
                }
                i = i + 1;
            }
            proof {
                assert(expr_views(scope.instantiations@).take(i as int) =~= expr_views(scope.instantiations@));
                assert(sv.take(k + 1).drop_last() =~= sv.take(k as int));
                assert(sv.take(k + 1).last() == scope@);
            }
            k = k + 1;
        }
        proof {
            assert(sv.take(k as int) =~= sv);
        }
        out
    }

    /// The quantifiable variables of all scopes, outermost first.
    fn collect_binders(&self) -> (r: Vec<(Ident, BaseType)>)
        ensures
            binders_view(r@) == all_quantifiable(self.scopes()),
    {
        let ghost sv = self.scopes();
        let mut out: Vec<(Ident, BaseType)> = Vec::new();
        let mut k: usize = 0;
        proof {
            assert(sv.take(0) =~= Seq::<ScopeV>::empty());
            assert(binders_view(out@) =~= Seq::<(Seq<char>, crate::ast::BaseTypeV)>::empty());
        }
        while k < self.scopes.len()
            invariant
                0 <= k <= self.scopes@.len(),
                sv == self.scopes(),
                binders_view(out@) == all_quantifiable(sv.take(k as int)),
            decreases self.scopes@.len() - k,
        {
            let scope = &self.scopes[k];
            let ghost before = binders_view(out@);
            let ghost tb = typed_view(scope.bindings@);
            let mut i: usize = 0;
            proof {
                assert(tb.take(0) =~= Seq::<(Seq<char>, TypeV)>::empty());
                assert(before + Seq::<(Seq<char>, crate::ast::BaseTypeV)>::empty() =~= before);
            }
            while i < scope.bindings.len()
                invariant
                    0 <= i <= scope.bindings@.len(),
                    tb == typed_view(scope.bindings@),
                    binders_view(out@) == before + quantifiable(tb.take(i as int)),
                decreases scope.bindings@.len() - i,
            {
                let ghost ob = out@;
                proof {
                    assert(tb.take(i + 1).drop_last() =~= tb.take(i as int));
                    assert(tb.take(i + 1).last() == tb[i as int]);
                }
                match &scope.bindings[i].1 {
                    Type::Base(b) => {
                        out.push((scope.bindings[i].0.clone(), b.deep_clone()));
                        proof {
                            assert(binders_view(out@) =~= binders_view(ob).push((tb[i as int].0, b@)));
                        }
                    },
                    Type::Refined(r) => {
                        out.push((scope.bindings[i].0.clone(), r.base.deep_clone()));
                        proof {
                            assert(binders_view(out@) =~= binders_view(ob).push((tb[i as int].0, r.base@)));
                        }
                    },
                    Type::Arrow(_) => {},
                }
                i = i + 1;
            }
            proof {
                assert(tb.take(i as int) =~= tb);
                assert(sv.take(k + 1).drop_last() =~= sv.take(k as int));
                assert(sv.take(k + 1).last() == scope@);
            }
            k = k + 1;
        }
        proof {
            assert(sv.take(k as int) =~= sv);
        }
        out
    }

    /// `target` under a `forall` of every variable of a base or refined
    /// type in scope, if there is any.
    pub fn close_formula(&self, target: Expr) -> (r: Expr)
        ensures
            r@ == closed(all_quantifiable(self.scopes()), target@),
    {
        let binders = self.collect_binders();
        if binders.len() == 0 {
            target
        } else {
            Expr::Forall { binders, body: Box::new(target) }
        }
    }

    /// Everything the environment knows, as one conjunction: the refinement
    /// of each refined variable said of the variable, and the path
    /// conditions, scope by scope.
    pub fn to_logical_context(&self) -> (r: Expr)
        ensures
            r@ == and_tree(all_facts(self.scopes())),
    {
        let ghost sv = self.scopes();
        let mut all: Vec<Expr> = Vec::new();
        let mut k: usize = 0;
        proof {
            assert(sv.take(0) =~= Seq::<ScopeV>::empty());
            assert(expr_views(all@) =~= Seq::<ExprV>::empty());
        }
        while k < self.scopes.len()
            invariant
                0 <= k <= self.scopes@.len(),
                sv == self.scopes(),
                expr_views(all@) == all_facts(sv.take(k as int)),
            decreases self.scopes@.len() - k,
        {
            let scope = &self.scopes[k];
            let ghost before = expr_views(all@);
            let ghost tb = typed_view(scope.bindings@);
            let mut i: usize = 0;
            proof {
                assert(tb.take(0) =~= Seq::<(Seq<char>, TypeV)>::empty());
                assert(before + Seq::<ExprV>::empty() =~= before);
            }
            while i < scope.bindings.len()
                invariant
                    0 <= i <= scope.bindings@.len(),
                    tb == typed_view(scope.bindings@),
                    expr_views(all@) == before + refinement_facts(tb.take(i as int)),
                decreases scope.bindings@.len() - i,
            {
                let ghost ob = all@;
                proof {
                    assert(tb.take(i + 1).drop_last() =~= tb.take(i as int));
                    assert(tb.take(i + 1).last() == tb[i as int]);
                }
                match &scope.bindings[i].1 {
                    Type::Refined(r) => {
                        let v = Expr::Var(scope.bindings[i].0.clone());
                        let fact = substitute_expr(&r.predicate, &r.bound_var, &v);
                        all.push(fact);
                        proof {
                            assert(expr_views(all@) =~= expr_views(ob).push(fact@));
                        }
                    },
                    _ => {},
                }
                i = i + 1;
            }
            let ghost mid = expr_views(all@);
            let mut j: usize = 0;
            while j < scope.path_conditions.len()
                invariant
                    0 <= j <= scope.path_conditions@.len(),
                    expr_views(all@) == mid + expr_views(scope.path_conditions@).take(j as int),
                decreases scope.path_conditions@.len() - j,
            {
                let ghost ob = all@;
                all.push(scope.path_conditions[j].deep_clone());
                proof {
                    assert(expr_views(all@) =~= expr_views(ob).push(scope.path_conditions@[j as int]@));
                    assert(expr_views(scope.path_conditions@).take(j + 1) =~= expr_views(scope.path_conditions@).take(j as int).push(scope.path_conditions@[j as int]@));
                }
                j = j + 1;
            }
            proof {
                assert(tb.take(i as int) =~= tb);
                assert(expr_views(scope.path_conditions@).take(j as int) =~= expr_views(scope.path_conditions@));
                assert(sv.take(k + 1).drop_last() =~= sv.take(k as int));
                assert(sv.take(k + 1).last() == scope@);
                assert(expr_views(all@) =~= all_facts(sv.take(k + 1)));
            }
            k = k + 1;
        }
        proof {
            assert(sv.take(k as int) =~= sv);
        }
        build_and_tree(all)
    }

    /// The verification condition of `target`: `context => target`, closed
    /// over the variables in scope.
    pub fn build_implication(&self, target: Expr) -> (r: Expr)
        ensures
            r@ == closed(
                all_quantifiable(self.scopes()),
                ExprV::BinOp { op: BinOp::Implies, left: Box::new(and_tree(all_facts(self.scopes()))), right: Box::new(target@) },
            ),
    {
        let context_expr = self.to_logical_context();
        let implication = Expr::BinOp { op: BinOp::Implies, left: Box::new(context_expr), right: Box::new(target) };
        self.close_formula(implication)
    }
}

} // verus!
