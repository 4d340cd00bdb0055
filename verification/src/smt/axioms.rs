//! The axioms every relation needs once functions and constructors are
//! abstracted to relations: functionality (one result per input),
//! injectivity (a constructor's arguments are determined by its result) and
//! disjointness (two constructors never build the same value).

use vstd::prelude::*;
use crate::ast::{BaseType, BaseTypeV, BinOp, Expr, ExprV, Ident, base_views, binders_view, expr_views};
use crate::text::{dec_text, decimal};

verus! {

broadcast use vstd::std_specs::vec::group_vec_axioms, crate::ast::group_ast_views;

/// `prefix_idx`, the name of a bound variable.
pub open spec fn var_text(prefix: Seq<char>, idx: nat) -> Seq<char> {
    prefix + seq!['_'] + dec_text(idx)
}

/// The variable `prefix_idx`.
pub open spec fn var_of(prefix: Seq<char>, idx: nat) -> ExprV {
    ExprV::Var(var_text(prefix, idx))
}

/// The binders `prefix_0: ts[0], prefix_1: ts[1], ...`.
pub open spec fn indexed_binders(prefix: Seq<char>, ts: Seq<BaseTypeV>) -> Seq<(Seq<char>, BaseTypeV)> {
    Seq::new(ts.len(), |i: int| (var_text(prefix, i as nat), ts[i]))
}

/// The variables `prefix_0, .., prefix_{n-1}`.
pub open spec fn indexed_vars(prefix: Seq<char>, n: nat) -> Seq<ExprV> {
    Seq::new(n, |i: int| var_of(prefix, i as nat))
}

/// `a && b`
pub open spec fn and_of(a: ExprV, b: ExprV) -> ExprV {
    ExprV::BinOp { op: BinOp::And, left: Box::new(a), right: Box::new(b) }
}

/// `a => b`
pub open spec fn implies_of(a: ExprV, b: ExprV) -> ExprV {
    ExprV::BinOp { op: BinOp::Implies, left: Box::new(a), right: Box::new(b) }
}

/// `a == b`
pub open spec fn eq_of(a: ExprV, b: ExprV) -> ExprV {
    ExprV::BinOp { op: BinOp::Eq, left: Box::new(a), right: Box::new(b) }
}

/// The functionality axiom of `rel`:
/// `forall in_0.. res_1 res_2. rel(in.., res_1) && rel(in.., res_2) => res_1 == res_2`.
pub open spec fn functionality_of(rel: Seq<char>, ins: Seq<BaseTypeV>, out: BaseTypeV) -> ExprV {
    let r1 = "res_1"@;
    let r2 = "res_2"@;
    let xs = indexed_vars("in"@, ins.len());
    ExprV::Forall {
        binders: indexed_binders("in"@, ins).push((r1, out)).push((r2, out)),
        body: Box::new(implies_of(
            and_of(
                ExprV::ApplyRel { relation: rel, args: xs.push(ExprV::Var(r1)) },
                ExprV::ApplyRel { relation: rel, args: xs.push(ExprV::Var(r2)) },
            ),
            eq_of(ExprV::Var(r1), ExprV::Var(r2)),
        )),
    }
}

/// The binders `x_0, y_0, x_1, y_1, ..` of the injectivity axiom.
pub open spec fn pair_binders(ins: Seq<BaseTypeV>) -> Seq<(Seq<char>, BaseTypeV)> {
    Seq::new(
        2 * ins.len(),
        |k: int| if k % 2 == 0 { (var_text("x"@, (k / 2) as nat), ins[k / 2]) } else { (var_text("y"@, (k / 2) as nat), ins[k / 2]) },
    )
}

/// `x_k == y_k && .. && x_{n-1} == y_{n-1}`, nested to the right.
pub open spec fn pairwise_eq(n: nat, k: nat) -> ExprV
    decreases n - k,
{
    let e = eq_of(var_of("x"@, k), var_of("y"@, k));
    if k + 1 >= n {
        e
    } else {
        and_of(e, pairwise_eq(n, k + 1))
    }
}

/// The injectivity axiom of a constructor relation: `true` for a nullary
/// one, else `forall x.. y.. res. c(x.., res) && c(y.., res) => x_0 == y_0 && ..`.
pub open spec fn injectivity_of(cons: Seq<char>, ins: Seq<BaseTypeV>, out: BaseTypeV) -> ExprV {
    if ins.len() == 0 {
        ExprV::BoolConst(true)
    } else {
        let r = "res"@;
        ExprV::Forall {
            binders: pair_binders(ins).push((r, out)),
            body: Box::new(implies_of(
                and_of(
                    ExprV::ApplyRel { relation: cons, args: indexed_vars("x"@, ins.len()).push(ExprV::Var(r)) },
                    ExprV::ApplyRel { relation: cons, args: indexed_vars("y"@, ins.len()).push(ExprV::Var(r)) },
                ),
                pairwise_eq(ins.len(), 0),
            )),
        }
    }
}

/// The disjointness axiom of two constructor relations:
/// `forall c1_in.. c2_in.. res. c1(c1_in.., res) && c2(c2_in.., res) => false`.
pub open spec fn disjointness_of(c1: Seq<char>, ins1: Seq<BaseTypeV>, c2: Seq<char>, ins2: Seq<BaseTypeV>, out: BaseTypeV) -> ExprV {
    let r = "res"@;
    ExprV::Forall {
        binders: (indexed_binders("c1_in"@, ins1) + indexed_binders("c2_in"@, ins2)).push((r, out)),
        body: Box::new(implies_of(
            and_of(
                ExprV::ApplyRel { relation: c1, args: indexed_vars("c1_in"@, ins1.len()).push(ExprV::Var(r)) },
                ExprV::ApplyRel { relation: c2, args: indexed_vars("c2_in"@, ins2.len()).push(ExprV::Var(r)) },
            ),
            ExprV::BoolConst(false),
        )),
    }
}

/// The name `prefix_idx`.
fn var_name(prefix: &str, idx: usize) -> (r: Ident)
    ensures
        r@ == var_text(prefix@, idx as nat),
{
    proof {
        reveal_strlit("_");
    }
    let mut s = String::from_str(prefix);
    s.append("_");
    let d = decimal(idx);
    s.append(d.as_str());
    s
}

/// The binders `prefix_i: ts[i]`, pushed onto `binders`, and their variables
/// pushed onto each of `args`.
fn push_indexed(prefix: &str, ts: &[BaseType], binders: &mut Vec<(Ident, BaseType)>, args: &mut Vec<Expr>)
    ensures
        binders_view(final(binders)@) == binders_view(old(binders)@) + indexed_binders(prefix@, base_views(ts@)),
        expr_views(final(args)@) == expr_views(old(args)@) + indexed_vars(prefix@, ts@.len()),
{
    let ghost b0 = binders_view(binders@);
    let ghost a0 = expr_views(args@);
    let ghost tv = base_views(ts@);
    let mut i: usize = 0;
    while i < ts.len()
        invariant
            0 <= i <= ts@.len(),
            tv == base_views(ts@),
            binders_view(binders@) == b0 + indexed_binders(prefix@, tv).take(i as int),
            expr_views(args@) == a0 + indexed_vars(prefix@, ts@.len()).take(i as int),
        decreases ts@.len() - i,
    {
        let v = var_name(prefix, i);
        let ghost bb = binders@;
        let ghost ab = args@;
        binders.push((v.clone(), ts[i].deep_clone()));
        args.push(Expr::Var(v));
        proof {
            assert(binders_view(binders@) =~= binders_view(bb).push((v@, tv[i as int])));
            assert(indexed_binders(prefix@, tv).take(i + 1) =~= indexed_binders(prefix@, tv).take(i as int).push((v@, tv[i as int])));
            assert(expr_views(args@) =~= expr_views(ab).push(ExprV::Var(v@)));
            assert(indexed_vars(prefix@, ts@.len()).take(i + 1) =~= indexed_vars(prefix@, ts@.len()).take(i as int).push(ExprV::Var(v@)));
        }
        i = i + 1;
    }
    proof {
        assert(indexed_binders(prefix@, tv).take(i as int) =~= indexed_binders(prefix@, tv));
        assert(indexed_vars(prefix@, ts@.len()).take(i as int) =~= indexed_vars(prefix@, ts@.len()));
    }
}

/// `a && b`
fn mk_and(a: Expr, b: Expr) -> (r: Expr)
    ensures
        r@ == and_of(a@, b@),
{
    Expr::BinOp { op: BinOp::And, left: Box::new(a), right: Box::new(b) }
}

/// `a => b`
fn mk_implies(a: Expr, b: Expr) -> (r: Expr)
    ensures
        r@ == implies_of(a@, b@),
{
    Expr::BinOp { op: BinOp::Implies, left: Box::new(a), right: Box::new(b) }
}

/// `a == b`
fn mk_eq(a: Expr, b: Expr) -> (r: Expr)
    ensures
        r@ == eq_of(a@, b@),
{
    Expr::BinOp { op: BinOp::Eq, left: Box::new(a), right: Box::new(b) }
}

/// The functionality axiom of the relation `rel_name`.
pub fn functionality_axiom(rel_name: &str, input_types: &[BaseType], output_type: &BaseType) -> (r: Expr)
    ensures
        r@ == functionality_of(rel_name@, base_views(input_types@), output_type@),
{
    proof {
        reveal_strlit("in");
        reveal_strlit("res_1");
        reveal_strlit("res_2");
    }
    let mut binders: Vec<(Ident, BaseType)> = Vec::new();
    let mut args: Vec<Expr> = Vec::new();
    push_indexed("in", input_types, &mut binders, &mut args);
    let ghost xs = expr_views(args@);
    let r1 = String::from_str("res_1");
    let r2 = String::from_str("res_2");
    let ghost bb = binders@;
    binders.push((r1.clone(), output_type.deep_clone()));
    binders.push((r2.clone(), output_type.deep_clone()));
    let mut args1 = crate::ast::clone_exprs(&args);
    let mut args2 = args;
    args1.push(Expr::Var(r1.clone()));
    args2.push(Expr::Var(r2.clone()));
    proof {
        assert(binders_view(binders@) =~= binders_view(bb).push((r1@, output_type@)).push((r2@, output_type@)));
        assert(expr_views(args1@) =~= xs.push(ExprV::Var(r1@)));
        assert(expr_views(args2@) =~= xs.push(ExprV::Var(r2@)));
        assert(binders_view(Seq::<(Ident, BaseType)>::empty()) + indexed_binders("in"@, base_views(input_types@)) =~= indexed_binders("in"@, base_views(input_types@)));
        assert(expr_views(Seq::<Expr>::empty()) + indexed_vars("in"@, input_types@.len()) =~= indexed_vars("in"@, input_types@.len()));
    }
    let rel1 = Expr::ApplyRel { relation: String::from_str(rel_name), args: args1 };
    let rel2 = Expr::ApplyRel { relation: String::from_str(rel_name), args: args2 };
    let condition = mk_and(rel1, rel2);
    let conclusion = mk_eq(Expr::Var(r1), Expr::Var(r2));
    Expr::Forall { binders, body: Box::new(mk_implies(condition, conclusion)) }
}

/// The injectivity axiom of the constructor relation `cons_name`.
pub fn injectivity_axiom(cons_name: &str, input_types: &[BaseType], output_type: &BaseType) -> (r: Expr)
    requires
        2 * input_types@.len() < usize::MAX,
    ensures
        r@ == injectivity_of(cons_name@, base_views(input_types@), output_type@),
{
    let n = input_types.len();
    if n == 0 {
        return Expr::BoolConst(true);
    }
    proof {
        reveal_strlit("x");
        reveal_strlit("y");
        reveal_strlit("res");
    }
    let ghost tv = base_views(input_types@);
    let mut binders: Vec<(Ident, BaseType)> = Vec::new();
    let mut args_x: Vec<Expr> = Vec::new();
    let mut args_y: Vec<Expr> = Vec::new();
    let mut i: usize = 0;
    while i < n
        invariant
            0 <= i <= n,
            n == input_types@.len(),
            2 * n < usize::MAX,
            tv == base_views(input_types@),
            binders_view(binders@) == pair_binders(tv).take(2 * i),
            expr_views(args_x@) == indexed_vars("x"@, n as nat).take(i as int),
            expr_views(args_y@) == indexed_vars("y"@, n as nat).take(i as int),
        decreases n - i,
    {
        let vx = var_name("x", i);
        let vy = var_name("y", i);
        let ghost bb = binders@;
        let ghost xb = args_x@;
        let ghost yb = args_y@;
        binders.push((vx.clone(), input_types[i].deep_clone()));
        binders.push((vy.clone(), input_types[i].deep_clone()));
        args_x.push(Expr::Var(vx.clone()));
        args_y.push(Expr::Var(vy.clone()));
        proof {
            let pb = pair_binders(tv);
            assert(pb[2 * i] == (vx@, tv[i as int]));
            assert(pb[2 * i + 1] == (vy@, tv[i as int]));
            assert(binders_view(binders@) =~= binders_view(bb).push((vx@, tv[i as int])).push((vy@, tv[i as int])));
            assert(pb.take(2 * (i + 1)) =~= pb.take(2 * i).push(pb[2 * i]).push(pb[2 * i + 1]));
            assert(expr_views(args_x@) =~= expr_views(xb).push(ExprV::Var(vx@)));
            assert(indexed_vars("x"@, n as nat).take(i + 1) =~= indexed_vars("x"@, n as nat).take(i as int).push(ExprV::Var(vx@)));
            assert(expr_views(args_y@) =~= expr_views(yb).push(ExprV::Var(vy@)));
            assert(indexed_vars("y"@, n as nat).take(i + 1) =~= indexed_vars("y"@, n as nat).take(i as int).push(ExprV::Var(vy@)));
        }
        i = i + 1;
    }
    proof {
        assert(pair_binders(tv).take(2 * n) =~= pair_binders(tv));
        assert(indexed_vars("x"@, n as nat).take(n as int) =~= indexed_vars("x"@, n as nat));
        assert(indexed_vars("y"@, n as nat).take(n as int) =~= indexed_vars("y"@, n as nat));
    }
    let mut k: usize = n - 1;
    let mut conclusion = mk_eq(Expr::Var(var_name("x", k)), Expr::Var(var_name("y", k)));
    while k > 0
        invariant
            0 <= k < n,
            conclusion@ == pairwise_eq(n as nat, k as nat),
        decreases k,
    {
        k = k - 1;
        let e = mk_eq(Expr::Var(var_name("x", k)), Expr::Var(var_name("y", k)));
        conclusion = mk_and(e, conclusion);
    }
    let r = String::from_str("res");
    let ghost bb = binders@;
    binders.push((r.clone(), output_type.deep_clone()));
    let ghost xb = args_x@;
    let ghost yb = args_y@;
    args_x.push(Expr::Var(r.clone()));
    args_y.push(Expr::Var(r.clone()));
    proof {
        assert(binders_view(binders@) =~= binders_view(bb).push((r@, output_type@)));
        assert(expr_views(args_x@) =~= expr_views(xb).push(ExprV::Var(r@)));
        assert(expr_views(args_y@) =~= expr_views(yb).push(ExprV::Var(r@)));
    }
    let rel_x = Expr::ApplyRel { relation: String::from_str(cons_name), args: args_x };
    let rel_y = Expr::ApplyRel { relation: String::from_str(cons_name), args: args_y };
    Expr::Forall { binders, body: Box::new(mk_implies(mk_and(rel_x, rel_y), conclusion)) }
}

/// The disjointness axiom of the constructor relations `cons1_name` and
/// `cons2_name`.
pub fn disjointness_axiom(
    cons1_name: &str,
    inputs1: &[BaseType],
    cons2_name: &str,
    inputs2: &[BaseType],
    output_type: &BaseType,
) -> (r: Expr)
    ensures
        r@ == disjointness_of(cons1_name@, base_views(inputs1@), cons2_name@, base_views(inputs2@), output_type@),
{
    proof {
        reveal_strlit("c1_in");
        reveal_strlit("c2_in");
        reveal_strlit("res");
    }
    let mut binders: Vec<(Ident, BaseType)> = Vec::new();
    let mut args1: Vec<Expr> = Vec::new();
    let mut args2: Vec<Expr> = Vec::new();
    push_indexed("c1_in", inputs1, &mut binders, &mut args1);
    let ghost mid = binders_view(binders@);
    push_indexed("c2_in", inputs2, &mut binders, &mut args2);
    let r = String::from_str("res");
    let ghost bb = binders@;
    binders.push((r.clone(), output_type.deep_clone()));
    let ghost a1 = args1@;
    let ghost a2 = args2@;
    args1.push(Expr::Var(r.clone()));
    args2.push(Expr::Var(r.clone()));
    proof {
        let e = Seq::<(Ident, BaseType)>::empty();
        assert(binders_view(e) + indexed_binders("c1_in"@, base_views(inputs1@)) =~= indexed_binders("c1_in"@, base_views(inputs1@)));
        assert(binders_view(binders@) =~= binders_view(bb).push((r@, output_type@)));
        assert(expr_views(Seq::<Expr>::empty()) + indexed_vars("c1_in"@, inputs1@.len()) =~= indexed_vars("c1_in"@, inputs1@.len()));
        assert(expr_views(Seq::<Expr>::empty()) + indexed_vars("c2_in"@, inputs2@.len()) =~= indexed_vars("c2_in"@, inputs2@.len()));
        assert(expr_views(args1@) =~= expr_views(a1).push(ExprV::Var(r@)));
        assert(expr_views(args2@) =~= expr_views(a2).push(ExprV::Var(r@)));
    }
    let rel1 = Expr::ApplyRel { relation: String::from_str(cons1_name), args: args1 };
    let rel2 = Expr::ApplyRel { relation: String::from_str(cons2_name), args: args2 };
    Expr::Forall { binders, body: Box::new(mk_implies(mk_and(rel1, rel2), Expr::BoolConst(false))) }
}

} // verus!
