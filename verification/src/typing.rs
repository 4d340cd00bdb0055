//! The typing rules of the checker, as spec functions over views.
//!
//! A run of the checker threads a [`Checking`] state: the scopes of the
//! environment, the number of fresh names made so far, and the verification
//! conditions emitted so far. Each rule maps a state to the next one, or to
//! `None` where the checker rejects its input.

use vstd::prelude::*;
use crate::ast::{BaseTypeV, BinOp, ExprV, PatternV, TypeV, UnOp};
use crate::auto_inst::ground_terms;
use crate::env::{ScopeV, all_facts, all_instantiations, all_quantifiable, and_tree, closed, empty_scope, fresh_name,
    lookup_in, scopes_bind, subst};
use crate::relabs::sig_index;
use crate::text::{before_first_sep, sep_at};

verus! {

/// What the checker carries from rule to rule.
pub struct Checking {
    pub scopes: Seq<ScopeV>,
    pub counter: nat,
    pub vcs: Seq<(ExprV, Seq<ExprV>)>,
}

/// Whether a pattern can be read as an expression: it has no wildcard.
pub open spec fn expressible(p: PatternV) -> bool
    decreases p,
{
    match p {
        PatternV::Wildcard => false,
        PatternV::Ident(_) => true,
        PatternV::Constructor { args, .. } => forall|i: int| 0 <= i < args.len() ==> expressible(#[trigger] args[i]),
        PatternV::Tuple(args) => forall|i: int| 0 <= i < args.len() ==> expressible(#[trigger] args[i]),
    }
}

/// A pattern read as the expression it matches: variables, constructor
/// applications and tuples.
pub open spec fn pattern_expr(p: PatternV) -> ExprV
    decreases p,
{
    match p {
        PatternV::Ident(name) => ExprV::Var(name),
        PatternV::Constructor { name, args, .. } => ExprV::Constructor { name, args: pattern_exprs(args) },
        PatternV::Tuple(args) => ExprV::Tuple(pattern_exprs(args)),
        PatternV::Wildcard => ExprV::BoolConst(true),
    }
}

/// [`pattern_expr`] of each pattern.
pub open spec fn pattern_exprs(ps: Seq<PatternV>) -> Seq<ExprV>
    decreases ps,
{
    Seq::new(ps.len(), |i: int| if 0 <= i < ps.len() { pattern_expr(ps[i]) } else { ExprV::BoolConst(true) })
}

/// The base of a base or refined type, and its predicate said of `x`
/// (`true` for a plain base type).
pub open spec fn base_and_pred(t: TypeV, x: Seq<char>) -> (BaseTypeV, ExprV) {
    match t {
        TypeV::Base(b) => (b, ExprV::BoolConst(true)),
        TypeV::Refined { bound_var, base, predicate } => (base, subst(predicate, bound_var, ExprV::Var(x))),
        TypeV::Arrow { .. } => (BaseTypeV::Unit, ExprV::BoolConst(true)),
    }
}

/// The base of a base or refined type; none for an arrow.
pub open spec fn base_of_type(t: TypeV) -> Option<BaseTypeV> {
    match t {
        TypeV::Base(b) => Some(b),
        TypeV::Refined { base, .. } => Some(base),
        TypeV::Arrow { .. } => None,
    }
}

/// `t` with the variable `x` replaced by `rep` in its predicates, except
/// where a bound variable or a parameter of the same name shadows it.
pub open spec fn subst_type(t: TypeV, x: Seq<char>, rep: ExprV) -> TypeV
    decreases t,
{
    match t {
        TypeV::Base(b) => t,
        TypeV::Refined { bound_var, base, predicate } => if bound_var == x {
            t
        } else {
            TypeV::Refined { bound_var, base, predicate: subst(predicate, x, rep) }
        },
        TypeV::Arrow { param_name, param_type, ret_type } => if param_name == x {
            t
        } else {
            TypeV::Arrow {
                param_name,
                param_type: Box::new(subst_type(*param_type, x, rep)),
                ret_type: Box::new(subst_type(*ret_type, x, rep)),
            }
        },
    }
}

/// The number of arrows and leaves of a type.
pub open spec fn type_size(t: TypeV) -> nat
    decreases t,
{
    match t {
        TypeV::Arrow { param_type, ret_type, .. } => 1 + type_size(*param_type) + type_size(*ret_type),
        _ => 1,
    }
}

/// Substitution keeps the shape of a type.
pub proof fn lemma_subst_type_size(t: TypeV, x: Seq<char>, rep: ExprV)
    ensures
        type_size(subst_type(t, x, rep)) == type_size(t),
    decreases t,
{
    match t {
        TypeV::Arrow { param_name, param_type, ret_type } => {
            lemma_subst_type_size(*param_type, x, rep);
            lemma_subst_type_size(*ret_type, x, rep);
        },
        _ => {},
    }
}

/// `{ v: Bool | v == e }`, the type of a boolean expression `e`.
pub open spec fn selfified(e: ExprV) -> TypeV {
    TypeV::Refined {
        bound_var: "v"@,
        base: BaseTypeV::Bool,
        predicate: ExprV::BinOp { op: BinOp::Eq, left: Box::new(ExprV::Var("v"@)), right: Box::new(e) },
    }
}

/// A new, empty, innermost scope.
pub open spec fn open_scope(c: Checking) -> Checking {
    Checking { scopes: c.scopes.push(empty_scope()), ..c }
}

/// The innermost scope closed; the outermost one is never closed.
pub open spec fn close_scope(c: Checking) -> Checking {
    Checking { scopes: if c.scopes.len() > 1 { c.scopes.drop_last() } else { c.scopes }, ..c }
}

/// `x` bound to `t` in the innermost scope.
pub open spec fn bind_var(c: Checking, x: Seq<char>, t: TypeV) -> Checking {
    Checking { scopes: scopes_bind(c.scopes, x, t), ..c }
}

/// `cond` added to the path conditions of the innermost scope.
pub open spec fn with_condition(c: Checking, cond: ExprV) -> Checking {
    Checking {
        scopes: c.scopes.drop_last().push(
            ScopeV { path_conditions: c.scopes.last().path_conditions.push(cond), ..c.scopes.last() },
        ),
        ..c
    }
}

/// `hint` added to the instantiation hints of the innermost scope.
pub open spec fn with_hint(c: Checking, hint: ExprV) -> Checking {
    Checking {
        scopes: c.scopes.drop_last().push(
            ScopeV { instantiations: c.scopes.last().instantiations.push(hint), ..c.scopes.last() },
        ),
        ..c
    }
}

/// `acc` followed by each term of `ts` that is not in it yet, in order.
pub open spec fn merge_new(acc: Seq<ExprV>, ts: Seq<ExprV>) -> Seq<ExprV>
    decreases ts.len(),
{
    if ts.len() == 0 {
        acc
    } else {
        merge_new(if acc.contains(ts[0]) { acc } else { acc.push(ts[0]) }, ts.skip(1))
    }
}

/// The verification condition that the facts in scope imply `target`, with
/// its hints: those given in scope, then the ground terms of the facts and
/// of the target that are not among them.
pub open spec fn subgoal_of(scopes: Seq<ScopeV>, target: ExprV) -> (ExprV, Seq<ExprV>) {
    let context = and_tree(all_facts(scopes));
    (
        closed(
            all_quantifiable(scopes),
            ExprV::BinOp { op: BinOp::Implies, left: Box::new(context), right: Box::new(target) },
        ),
        merge_new(all_instantiations(scopes), ground_terms(context) + ground_terms(target)),
    )
}

/// Binds the variables of a pattern matched against a value of type `t`:
/// a name gets `t`, the fields of a tuple or of a constructor get their
/// sorts. Fails on a pattern that does not fit `t`, and on a constructor
/// pattern whose field sorts are not known.
pub open spec fn bind_pattern(scopes: Seq<ScopeV>, p: PatternV, t: TypeV) -> Option<Seq<ScopeV>>
    decreases p, 0int,
{
    match p {
        PatternV::Wildcard => Some(scopes),
        PatternV::Ident(name) => Some(scopes_bind(scopes, name, t)),
        PatternV::Tuple(ps) => match base_of_type(t) {
            Some(BaseTypeV::Tuple(ts)) => bind_fields(scopes, ps, ts, 0),
            _ => None,
        },
        PatternV::Constructor { args, arg_types, .. } => match arg_types {
            Some(fts) => bind_fields(scopes, args, fts, 0),
            None => None,
        },
    }
}

/// [`bind_pattern`] on the patterns `ps` from `i` on, each at the sort of the
/// same position of `ts`, as far as both go.
pub open spec fn bind_fields(scopes: Seq<ScopeV>, ps: Seq<PatternV>, ts: Seq<BaseTypeV>, i: int) -> Option<Seq<ScopeV>>
    decreases ps, ps.len() - i,
{
    if i < 0 || i >= ps.len() || i >= ts.len() {
        Some(scopes)
    } else {
        match bind_pattern(scopes, ps[i], TypeV::Base(ts[i])) {
            Some(s1) => bind_fields(s1, ps, ts, i + 1),
            None => None,
        }
    }
}

/// `c` with its scopes after [`bind_pattern`].
pub open spec fn bind_in_state(c: Checking, p: PatternV, t: TypeV) -> Option<Checking> {
    match bind_pattern(c.scopes, p, t) {
        Some(s) => Some(Checking { scopes: s, ..c }),
        None => None,
    }
}

/// Subtyping of base or refined types: the bases agree, and unless the
/// expected predicate is literally `true`, a verification condition says
/// that the facts in scope and the inferred predicate imply the expected one.
pub open spec fn base_subtype(c: Checking, inferred: TypeV, expected: TypeV) -> Option<Checking> {
    let (bi, pi) = base_and_pred(inferred, "v_sub"@);
    let (be, pe) = base_and_pred(expected, "v_sub"@);
    if bi != be {
        None
    } else if pe == ExprV::BoolConst(true) {
        Some(c)
    } else {
        let c1 = with_condition(bind_var(open_scope(c), "v_sub"@, TypeV::Base(bi)), pi);
        Some(close_scope(Checking { vcs: c1.vcs.push(subgoal_of(c1.scopes, pe)), ..c1 }))
    }
}

/// `inferred <: expected`: on base and refined types by [`base_subtype`];
/// on arrows contravariant in the parameter and covariant in the result,
/// with the expected parameter in scope. Fails on an arrow against a base.
pub open spec fn subtype(c: Checking, inferred: TypeV, expected: TypeV) -> Option<Checking>
    decreases type_size(inferred) + type_size(expected),
{
    match inferred {
        TypeV::Arrow { param_name: xi, param_type: pi, ret_type: ri } => match expected {
            TypeV::Arrow { param_name: xe, param_type: pe, ret_type: re } => match subtype(c, *pe, *pi) {
                Some(c1) => {
                    let c2 = bind_var(open_scope(c1), xe, *pe);
                    proof {
                        lemma_subst_type_size(*ri, xi, ExprV::Var(xe));
                    }
                    match subtype(c2, subst_type(*ri, xi, ExprV::Var(xe)), *re) {
                        Some(c3) => Some(close_scope(c3)),
                        None => None,
                    }
                },
                None => None,
            },
            _ => None,
        },
        _ => match expected {
            TypeV::Arrow { .. } => None,
            _ => base_subtype(c, inferred, expected),
        },
    }
}

/// The shape of a type: its arrows, and at each leaf its base sort.
pub enum TypeShape {
    Leaf(BaseTypeV),
    Arrow(Box<TypeShape>, Box<TypeShape>),
}

/// The shape of a type (see [`TypeShape`]): refinements and names dropped.
pub open spec fn shape(t: TypeV) -> TypeShape
    decreases t,
{
    match t {
        TypeV::Base(b) => TypeShape::Leaf(b),
        TypeV::Refined { base, .. } => TypeShape::Leaf(base),
        TypeV::Arrow { param_type, ret_type, .. } => TypeShape::Arrow(Box::new(shape(*param_type)), Box::new(shape(*ret_type))),
    }
}

/// Substitution keeps the shape of a type.
pub proof fn lemma_subst_type_shape(t: TypeV, x: Seq<char>, rep: ExprV)
    ensures
        shape(subst_type(t, x, rep)) == shape(t),
    decreases t,
{
    match t {
        TypeV::Arrow { param_name, param_type, ret_type } => {
            if param_name != x {
                lemma_subst_type_shape(*param_type, x, rep);
                lemma_subst_type_shape(*ret_type, x, rep);
            }
        },
        _ => {},
    }
}

/// Subtyping fails exactly where the shapes differ: an arrow against a
/// base type, or two leaves whose base sorts differ.
pub proof fn lemma_subtype_shape(c: Checking, inferred: TypeV, expected: TypeV)
    ensures
        subtype(c, inferred, expected) is Some <==> shape(inferred) == shape(expected),
    decreases type_size(inferred) + type_size(expected),
{
    match inferred {
        TypeV::Arrow { param_name: xi, param_type: pi, ret_type: ri } => match expected {
            TypeV::Arrow { param_name: xe, param_type: pe, ret_type: re } => {
                lemma_subtype_shape(c, *pe, *pi);
                lemma_subst_type_size(*ri, xi, ExprV::Var(xe));
                lemma_subst_type_shape(*ri, xi, ExprV::Var(xe));
                match subtype(c, *pe, *pi) {
                    Some(c1) => {
                        let c2 = bind_var(open_scope(c1), xe, *pe);
                        lemma_subtype_shape(c2, subst_type(*ri, xi, ExprV::Var(xe)), *re);
                    },
                    None => {},
                }
            },
            _ => {},
        },
        _ => {},
    }
}

/// Each parameter of a signature renamed to a fresh `_arg` name, numbered
/// from `n` on, the rest of the signature following the renaming; with the
/// next number. Fails only when the numbers are exhausted.
pub open spec fn freshened(n: nat, t: TypeV) -> Option<(nat, TypeV)>
    decreases type_size(t),
{
    match t {
        TypeV::Arrow { param_name, param_type, ret_type } => if n >= usize::MAX {
            None
        } else {
            let x = fresh_name("_arg"@, n);
            proof {
                lemma_subst_type_size(*ret_type, param_name, ExprV::Var(x));
            }
            match freshened(n + 1, subst_type(*ret_type, param_name, ExprV::Var(x))) {
                Some((n1, r)) => Some((n1, TypeV::Arrow { param_name: x, param_type, ret_type: Box::new(r) })),
                None => None,
            }
        },
        _ => Some((n, t)),
    }
}

/// The type of a name called as a function: from the scopes, else from the
/// signatures of the program.
pub open spec fn callee_type(scopes: Seq<ScopeV>, sigs: Seq<(Seq<char>, TypeV)>, f: Seq<char>) -> Option<TypeV> {
    match lookup_in(scopes, f, scopes.len() as int) {
        Some(t) => Some(t),
        None => {
            let k = sig_index(sigs, f);
            if k < sigs.len() {
                Some(sigs[k].1)
            } else {
                None
            }
        },
    }
}

/// The type of a variable: as [`callee_type`], else, for a name
/// `Enum::Variant`, the enum as a plain sort.
pub open spec fn var_type(scopes: Seq<ScopeV>, sigs: Seq<(Seq<char>, TypeV)>, x: Seq<char>) -> Option<TypeV> {
    match callee_type(scopes, sigs, x) {
        Some(t) => Some(t),
        None => if exists|i: int| sep_at(x, i) {
            Some(TypeV::Base(BaseTypeV::Custom(before_first_sep(x))))
        } else {
            None
        },
    }
}

/// The type of a variable occurrence: a base or refined variable gets the
/// singleton `{ v: B | v == x }`, a function keeps its signature.
pub open spec fn var_occurrence(x: Seq<char>, t: TypeV) -> TypeV {
    match base_of_type(t) {
        Some(b) => TypeV::Refined {
            bound_var: "v"@,
            base: b,
            predicate: ExprV::BinOp { op: BinOp::Eq, left: Box::new(ExprV::Var("v"@)), right: Box::new(ExprV::Var(x)) },
        },
        None => t,
    }
}

/// The type of a `let` whose body has type `t`: the bound expression put
/// for a bound name, else the body's predicate dropped.
pub open spec fn let_result(p: PatternV, bound: ExprV, t: TypeV) -> TypeV {
    match p {
        PatternV::Ident(x) => subst_type(t, x, bound),
        _ => match t {
            TypeV::Refined { base, .. } => TypeV::Base(base),
            _ => t,
        },
    }
}

/// The type of an `if` from the types of its branches: the disjunction of
/// each branch's predicate under its side of the condition. Fails on an
/// arrow branch and on branches of different bases.
pub open spec fn if_result(cond: ExprV, then_t: TypeV, else_t: TypeV) -> Option<TypeV> {
    if then_t is Arrow || else_t is Arrow {
        None
    } else {
        let (bt, pt) = base_and_pred(then_t, "v_if"@);
        let (be, pe) = base_and_pred(else_t, "v_if"@);
        if bt != be {
            None
        } else {
            Some(TypeV::Refined {
                bound_var: "v_if"@,
                base: bt,
                predicate: ExprV::BinOp {
                    op: BinOp::Or,
                    left: Box::new(ExprV::BinOp { op: BinOp::And, left: Box::new(cond), right: Box::new(pt) }),
                    right: Box::new(ExprV::BinOp {
                        op: BinOp::And,
                        left: Box::new(ExprV::UnOp { op: UnOp::Not, expr: Box::new(cond) }),
                        right: Box::new(pe),
                    }),
                },
            })
        }
    }
}

/// Whether the operands of a connective have the sorts it needs: `Bool`
/// for `&&`, `||` and `=>`, one and the same sort for `==` and `!=`.
pub open spec fn operands_fit(op: BinOp, lt: TypeV, rt: TypeV) -> bool {
    match op {
        BinOp::And | BinOp::Or | BinOp::Implies => base_of_type(lt) == Some(BaseTypeV::Bool) && base_of_type(rt)
            == Some(BaseTypeV::Bool),
        BinOp::Eq | BinOp::Neq => base_of_type(lt) is Some && base_of_type(lt) == base_of_type(rt),
    }
}

/// Synthesis: the type of an expression in program position, bottom-up,
/// with the verification conditions its calls need. Fails on `match`, on
/// quantifiers and relations, on unbound names, and on ill-sorted operands.
pub open spec fn synth(c: Checking, e: ExprV, sigs: Seq<(Seq<char>, TypeV)>) -> Option<(Checking, TypeV)>
    decreases e, 1int, 0int,
{
    match e {
        ExprV::BoolConst(_) => Some((c, selfified(e))),
        ExprV::Var(x) => match var_type(c.scopes, sigs, x) {
            Some(t) => Some((c, var_occurrence(x, t))),
            None => None,
        },
        ExprV::Let { pat, bound_expr, body } => match synth(c, *bound_expr, sigs) {
            Some((c1, bt)) => match bind_in_state(open_scope(c1), pat, bt) {
                Some(c2) => match synth(c2, *body, sigs) {
                    Some((c3, t)) => Some((close_scope(c3), let_result(pat, *bound_expr, t))),
                    None => None,
                },
                None => None,
            },
            None => None,
        },
        ExprV::If { cond, then_expr, else_expr } => match synth(c, *cond, sigs) {
            Some((c1, ct)) => if base_of_type(ct) != Some(BaseTypeV::Bool) {
                None
            } else {
                match synth(with_condition(open_scope(c1), *cond), *then_expr, sigs) {
                    Some((c2, tt)) => {
                        let c3 = with_condition(
                            open_scope(close_scope(c2)),
                            ExprV::UnOp { op: UnOp::Not, expr: cond },
                        );
                        match synth(c3, *else_expr, sigs) {
                            Some((c4, et)) => match if_result(*cond, tt, et) {
                                Some(t) => Some((close_scope(c4), t)),
                                None => None,
                            },
                            None => None,
                        }
                    },
                    None => None,
                }
            },
            None => None,
        },
        ExprV::Call { func, args } => match callee_type(c.scopes, sigs, func) {
            Some(sig) => match freshened(c.counter, sig) {
                Some((n, fs)) => synth_args(Checking { counter: n, ..c }, args, 0, fs, sigs),
                None => None,
            },
            None => None,
        },
        ExprV::Constructor { name, args } => match synth_each(c, args, 0, sigs) {
            Some(c1) => Some((c1, TypeV::Refined {
                bound_var: "v"@,
                base: BaseTypeV::Custom(before_first_sep(name)),
                predicate: ExprV::BinOp { op: BinOp::Eq, left: Box::new(ExprV::Var("v"@)), right: Box::new(e) },
            })),
            None => None,
        },
        ExprV::Tuple(elems) => match synth_bases(c, elems, 0, sigs) {
            Some((c1, bs)) => Some((c1, if bs.len() == 0 { TypeV::Base(BaseTypeV::Unit) } else { TypeV::Base(BaseTypeV::Tuple(bs)) })),
            None => None,
        },
        ExprV::Instantiate(inner) => match synth(c, *inner, sigs) {
            Some((c1, _)) => Some((with_hint(c1, *inner), TypeV::Base(BaseTypeV::Unit))),
            None => None,
        },
        ExprV::UnOp { op: _, expr: inner } => match synth(c, *inner, sigs) {
            Some((c1, t)) => if base_of_type(t) == Some(BaseTypeV::Bool) {
                Some((c1, selfified(e)))
            } else {
                None
            },
            None => None,
        },
        ExprV::BinOp { op, left, right } => match synth(c, *left, sigs) {
            Some((c1, lt)) => match synth(c1, *right, sigs) {
                Some((c2, rt)) => if operands_fit(op, lt, rt) {
                    Some((c2, selfified(e)))
                } else {
                    None
                },
                None => None,
            },
            None => None,
        },
        _ => None,
    }
}

/// The arguments of a call from the `i`-th on, against the signature left:
/// each argument is synthesized, checked against the parameter, and put for
/// the parameter in the rest of the signature. Fails on too many arguments.
pub open spec fn synth_args(c: Checking, args: Seq<ExprV>, i: int, sig: TypeV, sigs: Seq<(Seq<char>, TypeV)>) -> Option<(Checking, TypeV)>
    decreases args, 0int, args.len() - i,
{
    if i < 0 || i >= args.len() {
        Some((c, sig))
    } else {
        match sig {
            TypeV::Arrow { param_name, param_type, ret_type } => match synth(c, args[i], sigs) {
                Some((c1, at)) => match subtype(c1, at, *param_type) {
                    Some(c2) => synth_args(c2, args, i + 1, subst_type(*ret_type, param_name, args[i]), sigs),
                    None => None,
                },
                None => None,
            },
            _ => None,
        }
    }
}

/// Synthesis of the expressions `es` from the `i`-th on, for their
/// verification conditions alone.
pub open spec fn synth_each(c: Checking, es: Seq<ExprV>, i: int, sigs: Seq<(Seq<char>, TypeV)>) -> Option<Checking>
    decreases es, 0int, es.len() - i,
{
    if i < 0 || i >= es.len() {
        Some(c)
    } else {
        match synth(c, es[i], sigs) {
            Some((c1, _)) => synth_each(c1, es, i + 1, sigs),
            None => None,
        }
    }
}

/// The bases of the expressions `es` from the `i`-th on. Fails on a
/// function-typed element.
pub open spec fn synth_bases(c: Checking, es: Seq<ExprV>, i: int, sigs: Seq<(Seq<char>, TypeV)>) -> Option<(Checking, Seq<BaseTypeV>)>
    decreases es, 0int, es.len() - i,
{
    if i < 0 || i >= es.len() {
        Some((c, Seq::empty()))
    } else {
        match synth(c, es[i], sigs) {
            Some((c1, t)) => match base_of_type(t) {
                Some(b) => match synth_bases(c1, es, i + 1, sigs) {
                    Some((c2, bs)) => Some((c2, seq![b] + bs)),
                    None => None,
                },
                None => None,
            },
            None => None,
        }
    }
}

/// The binding of a checked `let`: a name binds the value; a wildcard over a
/// value that carries knowledge (any but an unrefined `Unit`, and no arrow)
/// binds a fresh `_bind` name; other patterns bind their fields. The name
/// bound to the whole value, if any, comes back.
pub open spec fn let_bind(c: Checking, p: PatternV, t: TypeV) -> Option<(Checking, Option<Seq<char>>)> {
    match p {
        PatternV::Ident(x) => Some((bind_var(c, x, t), Some(x))),
        PatternV::Wildcard => if base_of_type(t) is None || (base_of_type(t) == Some(BaseTypeV::Unit) && !(t is Refined)) {
            Some((c, None))
        } else if c.counter >= usize::MAX {
            None
        } else {
            let x = fresh_name("_bind"@, c.counter);
            Some((bind_var(Checking { counter: c.counter + 1, ..c }, x, t), Some(x)))
        },
        _ => match bind_in_state(c, p, t) {
            Some(c1) => Some((c1, None)),
            None => None,
        },
    }
}

/// The defining equation of a checked `let` over a value of a sort other
/// than `Unit`: `name == bound` for a bound name, `bound == pattern` for a
/// destructuring pattern. Fails on a destructuring pattern with a wildcard.
pub open spec fn let_equation(c: Checking, p: PatternV, name: Option<Seq<char>>, bound: ExprV, t: TypeV) -> Option<Checking> {
    if base_of_type(t) is None || base_of_type(t) == Some(BaseTypeV::Unit) {
        Some(c)
    } else {
        match name {
            Some(x) => Some(with_condition(c, ExprV::BinOp { op: BinOp::Eq, left: Box::new(ExprV::Var(x)), right: Box::new(bound) })),
            None => if p is Wildcard {
                Some(c)
            } else if expressible(p) {
                Some(with_condition(c, ExprV::BinOp { op: BinOp::Eq, left: Box::new(bound), right: Box::new(pattern_expr(p)) }))
            } else {
                None
            },
        }
    }
}

/// Checking: an expression against an expected type, top-down. `let`,
/// `match` and `if` pass the expected type to their parts, each in its own
/// scope with what the branch knows; anything else is synthesized and its
/// type checked against the expected one.
pub open spec fn check(c: Checking, e: ExprV, expected: TypeV, sigs: Seq<(Seq<char>, TypeV)>) -> Option<Checking>
    decreases e, 2int, 0int,
{
    match e {
        ExprV::Let { pat, bound_expr, body } => match synth(c, *bound_expr, sigs) {
            Some((c1, bt)) => match let_bind(open_scope(c1), pat, bt) {
                Some((c2, name)) => match let_equation(c2, pat, name, *bound_expr, bt) {
                    Some(c3) => match check(c3, *body, expected, sigs) {
                        Some(c4) => Some(close_scope(c4)),
                        None => None,
                    },
                    None => None,
                },
                None => None,
            },
            None => None,
        },
        ExprV::Match { expr: target, arms } => match synth(c, *target, sigs) {
            Some((c1, tt)) => check_arms(c1, *target, tt, arms, 0, expected, sigs),
            None => None,
        },
        ExprV::If { cond, then_expr, else_expr } => match synth(c, *cond, sigs) {
            Some((c1, ct)) => if base_of_type(ct) != Some(BaseTypeV::Bool) {
                None
            } else {
                match check(with_condition(open_scope(c1), *cond), *then_expr, expected, sigs) {
                    Some(c2) => {
                        let c3 = with_condition(
                            open_scope(close_scope(c2)),
                            ExprV::UnOp { op: UnOp::Not, expr: cond },
                        );
                        match check(c3, *else_expr, expected, sigs) {
                            Some(c4) => Some(close_scope(c4)),
                            None => None,
                        }
                    },
                    None => None,
                }
            },
            None => None,
        },
        _ => match synth(c, e, sigs) {
            Some((c1, t)) => subtype(c1, t, expected),
            None => None,
        },
    }
}

/// The arms of a `match` from the `i`-th on: each in its own scope, with
/// its pattern's variables bound and `target == pattern` assumed, checked
/// against the expected type. Fails on a pattern with a wildcard.
pub open spec fn check_arms(
    c: Checking,
    target: ExprV,
    target_type: TypeV,
    arms: Seq<(PatternV, ExprV)>,
    i: int,
    expected: TypeV,
    sigs: Seq<(Seq<char>, TypeV)>,
) -> Option<Checking>
    decreases arms, 0int, arms.len() - i,
{
    if i < 0 || i >= arms.len() {
        Some(c)
    } else {
        match bind_in_state(open_scope(c), arms[i].0, target_type) {
            Some(c1) => if !expressible(arms[i].0) {
                None
            } else {
                let c2 = with_condition(
                    c1,
                    ExprV::BinOp { op: BinOp::Eq, left: Box::new(target), right: Box::new(pattern_expr(arms[i].0)) },
                );
                match check(c2, arms[i].1, expected, sigs) {
                    Some(c3) => check_arms(close_scope(c3), target, target_type, arms, i + 1, expected, sigs),
                    None => None,
                }
            },
            None => None,
        }
    }
}

} // verus!
