//! A-normal form: nested calls are flattened into `let` bindings of fresh
//! variables, `P(add(a, sub(b, c)))` becoming
//! `let anf_0 = sub(b, c) in let anf_1 = add(a, anf_0) in P(anf_1)`
//! ([`transform_expr`]). The relational abstraction takes a call only as the
//! bound value of a `let`, so the checking pipeline binds the outermost call
//! too ([`bind_calls`]), and every call can be replaced by a relation.

use vstd::prelude::*;
use crate::ast::{BinOp, Expr, ExprV, Ident, Pattern, PatternV, UnOp, binders_view, bindings_view, clone_binders, expr_views};
use crate::text::{dec_text, decimal};
use crate::nnf::{Head, all_assignments, bind, eval, eval_list, lemma_eval_agree, some_assignment, uses_name};

verus! {

broadcast use vstd::std_specs::vec::group_vec_axioms, crate::ast::group_ast_views;

/// The source of fresh names `anf_0`, `anf_1`, ...
pub struct NameGenerator {
    counter: usize,
}

/// The `k`-th fresh name.
pub open spec fn anf_name(k: nat) -> Seq<char> {
    "anf_"@ + dec_text(k)
}

/// Law: a generator never hands out the same name twice. Its `k`-th call of
/// [`NameGenerator::fresh`] returns `anf_name(k)`, and the names for two
/// different counts differ.
pub proof fn lemma_fresh_names_differ(j: nat, k: nat)
    requires
        j != k,
    ensures
        anf_name(j) != anf_name(k),
{
    reveal_strlit("anf_");
    if anf_name(j) == anf_name(k) {
        assert(anf_name(j).skip(4) =~= dec_text(j));
        assert(anf_name(k).skip(4) =~= dec_text(k));
        crate::text::lemma_dec_text_injective(j, k);
    }
}

impl NameGenerator {
    /// The number of names handed out so far.
    pub closed spec fn count(&self) -> nat {
        self.counter as nat
    }

    /// How many names have been made.
    pub fn counter_value(&self) -> (r: usize)
        ensures
            r == self.count(),
    {
        self.counter
    }

    /// A generator that starts at `anf_0`.
    pub fn new() -> (g: Self)
        ensures
            g.count() == 0,
    {
        NameGenerator { counter: 0 }
    }

    /// The next fresh name.
    pub fn fresh(&mut self) -> (name: Ident)
        requires
            old(self).count() < usize::MAX,
        ensures
            name@ == anf_name(old(self).count()),
            final(self).count() == old(self).count() + 1,
    {
        proof {
            reveal_strlit("anf_");
        }
        let mut name = String::from_str("anf_");
        let d = decimal(self.counter);
        name.append(d.as_str());
        self.counter = self.counter + 1;
        name
    }
}

/// Whether the transformation is defined on `e`: no `match`, no relation
/// application and no already flattened hint, and only simple variable
/// patterns in `let`.
pub open spec fn anf_defined(e: ExprV) -> bool
    decreases e,
{
    match e {
        ExprV::BoolConst(_) => true,
        ExprV::Var(_) => true,
        ExprV::Tuple(es) => forall|i: int| 0 <= i < es.len() ==> anf_defined(#[trigger] es[i]),
        ExprV::UnOp { expr, .. } => anf_defined(*expr),
        ExprV::BinOp { left, right, .. } => anf_defined(*left) && anf_defined(*right),
        ExprV::Call { args, .. } => forall|i: int| 0 <= i < args.len() ==> anf_defined(#[trigger] args[i]),
        ExprV::Constructor { args, .. } => forall|i: int| 0 <= i < args.len() ==> anf_defined(#[trigger] args[i]),
        ExprV::If { cond, then_expr, else_expr } => anf_defined(*cond) && anf_defined(*then_expr) && anf_defined(*else_expr),
        ExprV::Let { pat, bound_expr, body } => (pat is Ident) && anf_defined(*bound_expr) && anf_defined(*body),
        ExprV::Forall { body, .. } => anf_defined(*body),
        ExprV::Exists { body, .. } => anf_defined(*body),
        ExprV::Instantiate(inner) => anf_defined(*inner),
        _ => false,
    }
}

/// Bindings, a core expression and the next counter.
pub type Flat = (Seq<(Seq<char>, ExprV)>, ExprV, nat);

/// The flattening of `e` with fresh names from `n` on: the bindings pulled
/// out, the core left in place, and the next counter.
pub open spec fn flat(e: ExprV, n: nat) -> Flat
    decreases e, 0nat,
{
    match e {
        ExprV::Tuple(es) => {
            let (bs, cores, n1) = flat_list(es, n);
            (bs, ExprV::Tuple(cores), n1)
        },
        ExprV::UnOp { op, expr } => {
            let (a, n1) = anf_of(*expr, n);
            (Seq::empty(), ExprV::UnOp { op, expr: Box::new(a) }, n1)
        },
        ExprV::BinOp { op, left, right } => if op == BinOp::Eq || op == BinOp::Neq {
            let (bl, cl, n1) = flat(*left, n);
            let (br, cr, n2) = flat(*right, n1);
            (bl + br, ExprV::BinOp { op, left: Box::new(cl), right: Box::new(cr) }, n2)
        } else {
            let (al, n1) = anf_of(*left, n);
            let (ar, n2) = anf_of(*right, n1);
            (Seq::empty(), ExprV::BinOp { op, left: Box::new(al), right: Box::new(ar) }, n2)
        },
        ExprV::Call { func, args } => {
            let (bs, cores, n1) = flat_list(args, n);
            (bs.push((anf_name(n1), ExprV::Call { func, args: cores })), ExprV::Var(anf_name(n1)), n1 + 1)
        },
        ExprV::Constructor { name, args } => if args.len() == 0 {
            (Seq::empty(), e, n)
        } else {
            let (bs, cores, n1) = flat_list(args, n);
            (bs.push((anf_name(n1), ExprV::Constructor { name, args: cores })), ExprV::Var(anf_name(n1)), n1 + 1)
        },
        ExprV::If { cond, then_expr, else_expr } => {
            let (bs, cc, n1) = flat(*cond, n);
            let (at, n2) = anf_of(*then_expr, n1);
            let (ae, n3) = anf_of(*else_expr, n2);
            (bs, ExprV::If { cond: Box::new(cc), then_expr: Box::new(at), else_expr: Box::new(ae) }, n3)
        },
        ExprV::Let { pat, bound_expr, body } => {
            let (bs, bc, n1) = flat(*bound_expr, n);
            let (bs2, core, n2) = flat(*body, n1);
            (bs.push((pat->Ident_0, bc)) + bs2, core, n2)
        },
        ExprV::Forall { binders, body } => {
            let (a, n1) = anf_of(*body, n);
            (Seq::empty(), ExprV::Forall { binders, body: Box::new(a) }, n1)
        },
        ExprV::Exists { binders, body } => {
            let (a, n1) = anf_of(*body, n);
            (Seq::empty(), ExprV::Exists { binders, body: Box::new(a) }, n1)
        },
        ExprV::Instantiate(inner) => {
            let (bs, _core, n1) = flat(*inner, n);
            (Seq::empty(), ExprV::ExistentialBindings(bs), n1)
        },
        _ => (Seq::empty(), e, n),
    }
}

/// [`flat`] over a list, left to right: the bindings of all, the cores of
/// each, and the next counter.
pub open spec fn flat_list(es: Seq<ExprV>, n: nat) -> (Seq<(Seq<char>, ExprV)>, Seq<ExprV>, nat)
    decreases es, 0nat,
{
    if es.len() == 0 {
        (Seq::empty(), Seq::empty(), n)
    } else {
        let (bs, cores, n1) = flat_list(es.drop_last(), n);
        let (b, c, n2) = flat(es.last(), n1);
        (bs + b, cores.push(c), n2)
    }
}

/// `let x1 = e1 in .. let xk = ek in core`.
pub open spec fn let_chain(bs: Seq<(Seq<char>, ExprV)>, core: ExprV) -> ExprV
    decreases bs.len(),
{
    if bs.len() == 0 {
        core
    } else {
        let_chain(
            bs.drop_last(),
            ExprV::Let { pat: PatternV::Ident(bs.last().0), bound_expr: Box::new(bs.last().1), body: Box::new(core) },
        )
    }
}

/// The A-normal form of `e` with fresh names from `n` on, and the next
/// counter.
pub open spec fn anf_of(e: ExprV, n: nat) -> (ExprV, nat)
    decreases e, 1nat,
{
    let (bs, core, n1) = flat(e, n);
    (let_chain(bs, core), n1)
}

/// The connective skeleton of an expression: `let` bindings dropped to
/// their bodies, every variable, call, constructor application and other
/// leaf collapsed to one leaf; boolean constants, operators, conditionals,
/// quantifiers and tuples kept in place.
pub open spec fn skeleton(e: ExprV) -> ExprV
    decreases e,
{
    match e {
        ExprV::BoolConst(_) => e,
        ExprV::Tuple(es) => ExprV::Tuple(skeleton_list(es)),
        ExprV::UnOp { op, expr } => ExprV::UnOp { op, expr: Box::new(skeleton(*expr)) },
        ExprV::BinOp { op, left, right } => ExprV::BinOp { op, left: Box::new(skeleton(*left)), right: Box::new(skeleton(*right)) },
        ExprV::If { cond, then_expr, else_expr } => ExprV::If {
            cond: Box::new(skeleton(*cond)),
            then_expr: Box::new(skeleton(*then_expr)),
            else_expr: Box::new(skeleton(*else_expr)),
        },
        ExprV::Let { body, .. } => skeleton(*body),
        ExprV::Forall { binders, body } => ExprV::Forall { binders, body: Box::new(skeleton(*body)) },
        ExprV::Exists { binders, body } => ExprV::Exists { binders, body: Box::new(skeleton(*body)) },
        _ => ExprV::Var(Seq::empty()),
    }
}

/// [`skeleton`] of each expression of a list.
pub open spec fn skeleton_list(es: Seq<ExprV>) -> Seq<ExprV>
    decreases es,
{
    Seq::new(es.len(), |i: int| if 0 <= i < es.len() { skeleton(es[i]) } else { ExprV::BoolConst(true) })
}

/// A chain of `let` bindings has the skeleton of its core.
proof fn lemma_let_chain_skeleton(bs: Seq<(Seq<char>, ExprV)>, core: ExprV)
    ensures
        skeleton(let_chain(bs, core)) == skeleton(core),
    decreases bs.len(),
{
    if bs.len() > 0 {
        let c2 = ExprV::Let { pat: PatternV::Ident(bs.last().0), bound_expr: Box::new(bs.last().1), body: Box::new(core) };
        lemma_let_chain_skeleton(bs.drop_last(), c2);
    }
}

/// Law: the A-normal form keeps the meaning-bearing structure of the
/// expression. Leaving out the `let` bindings it introduces (and collapsing
/// the leaves that they name), its core and its whole result have the
/// input's skeleton: every operator, conditional (with its branches in
/// place), quantifier and tuple stays where it was.
pub proof fn lemma_anf_keeps_skeleton(e: ExprV, n: nat)
    requires
        anf_defined(e),
    ensures
        skeleton(flat(e, n).1) == skeleton(e),
        skeleton(anf_of(e, n).0) == skeleton(e),
        skeleton(anf_stmt(e, n).0) == skeleton(e),
    decreases e,
{
    match e {
        ExprV::Tuple(es) => {
            assert forall|i: int| 0 <= i < es.len() implies anf_defined(#[trigger] es[i]) by {}
            lemma_flat_list_skeleton(es, n);
        },
        ExprV::UnOp { expr, .. } => lemma_anf_keeps_skeleton(*expr, n),
        ExprV::BinOp { op, left, right } => {
            lemma_anf_keeps_skeleton(*left, n);
            lemma_anf_keeps_skeleton(*right, flat(*left, n).2);
            lemma_anf_keeps_skeleton(*right, anf_of(*left, n).1);
        },
        ExprV::If { cond, then_expr, else_expr } => {
            lemma_anf_keeps_skeleton(*cond, n);
            let n1 = flat(*cond, n).2;
            lemma_anf_keeps_skeleton(*then_expr, n1);
            lemma_anf_keeps_skeleton(*else_expr, anf_of(*then_expr, n1).1);
        },
        ExprV::Let { bound_expr, body, .. } => {
            lemma_anf_keeps_skeleton(*body, flat(*bound_expr, n).2);
        },
        ExprV::Forall { body, .. } => lemma_anf_keeps_skeleton(*body, n),
        ExprV::Exists { body, .. } => lemma_anf_keeps_skeleton(*body, n),
        _ => {},
    }
    let (bs, core, n1) = flat(e, n);
    lemma_let_chain_skeleton(bs, core);
    match e {
        ExprV::Call { func, args } => {
            let (bs2, cores, n2) = flat_list(args, n);
            lemma_let_chain_skeleton(bs2, ExprV::Call { func, args: cores });
        },
        _ => {},
    }
}

/// The cores of a list have the skeletons of its expressions.
proof fn lemma_flat_list_skeleton(es: Seq<ExprV>, n: nat)
    requires
        forall|i: int| 0 <= i < es.len() ==> anf_defined(#[trigger] es[i]),
    ensures
        flat_list(es, n).1.len() == es.len(),
        skeleton_list(flat_list(es, n).1) == skeleton_list(es),
    decreases es,
{
    if es.len() > 0 {
        let init = es.drop_last();
        assert forall|i: int| 0 <= i < init.len() implies anf_defined(#[trigger] init[i]) by {
            assert(init[i] == es[i]);
        }
        lemma_flat_list_skeleton(init, n);
        let m = flat_list(init, n).2;
        lemma_anf_keeps_skeleton(es.last(), m);
        let cores = flat_list(es, n).1;
        assert(cores == flat_list(init, n).1.push(flat(es.last(), m).1));
        let ic = flat_list(init, n).1;
        assert(cores.len() == es.len());
        assert(skeleton_list(cores) =~= skeleton_list(es)) by {
            assert forall|i: int| 0 <= i < es.len() implies skeleton_list(cores)[i] == skeleton_list(es)[i] by {
                if i < init.len() {
                    assert(cores[i] == ic[i]);
                    assert(skeleton_list(ic)[i] == skeleton(ic[i]));
                    assert(skeleton_list(init)[i] == skeleton(init[i]));
                    assert(init[i] == es[i]);
                } else {
                    assert(cores[i] == flat(es.last(), m).1);
                }
            }
        }
    } else {
        assert(skeleton_list(flat_list(es, n).1) =~= skeleton_list(es));
    }
}

/// The counter only grows.
proof fn lemma_flat_grows(e: ExprV, n: nat)
    ensures
        flat(e, n).2 >= n,
        anf_of(e, n).1 >= n,
    decreases e,
{
    match e {
        ExprV::Tuple(es) => lemma_flat_list_grows(es, n),
        ExprV::UnOp { expr, .. } => lemma_flat_grows(*expr, n),
        ExprV::BinOp { op, left, right } => {
            lemma_flat_grows(*left, n);
            lemma_flat_grows(*right, flat(*left, n).2);
            lemma_flat_grows(*right, anf_of(*left, n).1);
        },
        ExprV::Call { args, .. } => lemma_flat_list_grows(args, n),
        ExprV::Constructor { args, .. } => lemma_flat_list_grows(args, n),
        ExprV::If { cond, then_expr, else_expr } => {
            lemma_flat_grows(*cond, n);
            let n1 = flat(*cond, n).2;
            lemma_flat_grows(*then_expr, n1);
            lemma_flat_grows(*else_expr, anf_of(*then_expr, n1).1);
        },
        ExprV::Let { bound_expr, body, .. } => {
            lemma_flat_grows(*bound_expr, n);
            lemma_flat_grows(*body, flat(*bound_expr, n).2);
        },
        ExprV::Forall { body, .. } => lemma_flat_grows(*body, n),
        ExprV::Exists { body, .. } => lemma_flat_grows(*body, n),
        ExprV::Instantiate(inner) => lemma_flat_grows(*inner, n),
        _ => {},
    }
}

proof fn lemma_flat_list_grows(es: Seq<ExprV>, n: nat)
    ensures
        flat_list(es, n).2 >= n,
    decreases es,
{
    if es.len() > 0 {
        lemma_flat_list_grows(es.drop_last(), n);
        lemma_flat_grows(es.last(), flat_list(es.drop_last(), n).2);
    }
}

/// Wraps `core` in the `let` bindings, the first binding outermost.
fn build_let_chain(bindings: Vec<(Ident, Expr)>, core: Expr) -> (r: Expr)
    ensures
        r@ == let_chain(bindings_view(bindings@), core@),
{
    let ghost bv = bindings_view(bindings@);
    let mut rest = bindings;
    let mut current = core;
    while rest.len() > 0
        invariant
            bindings_view(rest@) == bv.take(rest@.len() as int),
            rest@.len() <= bv.len(),
            let_chain(bv, core@) == let_chain(bindings_view(rest@), current@),
        decreases rest@.len(),
    {
        let ghost before = bindings_view(rest@);
        let (name, bound) = rest.pop().unwrap();
        proof {
            assert(before.drop_last() =~= bindings_view(rest@));
            assert(before.last() == (name@, bound@));
            assert(bindings_view(rest@) =~= bv.take(rest@.len() as int));
        }
        current = Expr::Let { pat: Pattern::Ident(name), bound_expr: Box::new(bound), body: Box::new(current) };
    }
    proof {
        assert(bv.take(0) =~= Seq::<(Seq<char>, ExprV)>::empty());
        assert(bindings_view(rest@) =~= Seq::<(Seq<char>, ExprV)>::empty());
    }
    current
}

/// [`flatten`] over a list of expressions.
fn flatten_list(es: &Vec<Expr>, gen: &mut NameGenerator) -> (r: (Vec<(Ident, Expr)>, Vec<Expr>))
    requires
        forall|i: int| 0 <= i < es@.len() ==> anf_defined(#[trigger] es@[i]@),
        flat_list(expr_views(es@), old(gen).count()).2 <= usize::MAX,
    ensures
        (bindings_view(r.0@), expr_views(r.1@), final(gen).count()) == flat_list(expr_views(es@), old(gen).count()),
    decreases es, 1nat,
{
    let ghost ev = expr_views(es@);
    let ghost n0 = gen.count();
    let mut bs: Vec<(Ident, Expr)> = Vec::new();
    let mut cores: Vec<Expr> = Vec::new();
    let mut i: usize = 0;
    proof {
        assert(ev.take(0) =~= Seq::<ExprV>::empty());
        assert(bindings_view(bs@) =~= Seq::<(Seq<char>, ExprV)>::empty());
        assert(expr_views(cores@) =~= Seq::<ExprV>::empty());
    }
    while i < es.len()
        invariant
            0 <= i <= es@.len(),
            ev == expr_views(es@),
            forall|k: int| 0 <= k < es@.len() ==> anf_defined(#[trigger] es@[k]@),
            flat_list(ev, n0).2 <= usize::MAX,
            (bindings_view(bs@), expr_views(cores@), gen.count()) == flat_list(ev.take(i as int), n0),
        decreases es@.len() - i,
    {
        proof {
            assert(decreases_to!(*es => es@));
            assert(decreases_to!(es@ => es@[i as int]));
            assert(ev.take(i + 1).drop_last() =~= ev.take(i as int));
            assert(ev.take(i + 1).last() == es@[i as int]@);
            lemma_flat_list_take(ev, n0, i + 1);
        }
        let (mut b, c) = flatten(&es[i], gen);
        let ghost bb = bs@;
        let ghost cb = cores@;
        let ghost bnew = b@;
        bs.append(&mut b);
        cores.push(c);
        proof {
            assert(bindings_view(bs@) =~= bindings_view(bb) + bindings_view(bnew));
            assert(expr_views(cores@) =~= expr_views(cb).push(c@));
        }
        i = i + 1;
    }
    proof {
        assert(ev.take(i as int) =~= ev);
    }
    (bs, cores)
}

/// The counter after a prefix of a list is at most the counter after all of it.
proof fn lemma_flat_list_take(es: Seq<ExprV>, n: nat, k: int)
    requires
        0 <= k <= es.len(),
    ensures
        flat_list(es.take(k), n).2 <= flat_list(es, n).2,
    decreases es.len() - k,
{
    if k < es.len() {
        lemma_flat_list_take(es, n, k + 1);
        assert(es.take(k + 1).drop_last() =~= es.take(k));
        lemma_flat_grows(es.take(k + 1).last(), flat_list(es.take(k), n).2);
    } else {
        assert(es.take(k) =~= es);
    }
}

/// Flattens `e`: the bindings pulled out of it, in order, and its core.
fn flatten(e: &Expr, gen: &mut NameGenerator) -> (r: (Vec<(Ident, Expr)>, Expr))
    requires
        anf_defined(e@),
        flat(e@, old(gen).count()).2 <= usize::MAX,
    ensures
        (bindings_view(r.0@), r.1@, final(gen).count()) == flat(e@, old(gen).count()),
    decreases e, 1nat,
{
    let empty: Vec<(Ident, Expr)> = Vec::new();
    proof {
        assert(bindings_view(empty@) =~= Seq::<(Seq<char>, ExprV)>::empty());
    }
    match e {
        Expr::BoolConst(b) => (empty, Expr::BoolConst(*b)),
        Expr::Var(x) => (empty, Expr::Var(x.clone())),
        Expr::Tuple(es) => {
            proof {
                assert(decreases_to!(*e => (*e)->Tuple_0));
                assert(e@ == ExprV::Tuple(expr_views(es@)));
                assert forall|k: int| 0 <= k < es@.len() implies anf_defined(#[trigger] es@[k]@) by {
                    assert(e@->Tuple_0[k] == es@[k]@);
                }
            }
            let (bs, cores) = flatten_list(es, gen);
            (bs, Expr::Tuple(cores))
        },
        Expr::UnOp { op, expr } => {
            proof {
                assert(e@ == ExprV::UnOp { op: *op, expr: Box::new(expr@) });
            }
            let a = anf_transform(expr, gen);
            (empty, Expr::UnOp { op: *op, expr: Box::new(a) })
        },
        Expr::BinOp { .. } => flatten_binop(e, gen),
        Expr::Call { .. } => flatten_application(e, gen),
        Expr::Constructor { .. } => flatten_application(e, gen),
        Expr::If { .. } => flatten_if(e, gen),
        Expr::Let { .. } => flatten_let(e, gen),
        Expr::Forall { binders, body } => {
            proof {
                assert(e@ == ExprV::Forall { binders: binders_view(binders@), body: Box::new(body@) });
            }
            let a = anf_transform(body, gen);
            (empty, Expr::Forall { binders: clone_binders(binders), body: Box::new(a) })
        },
        Expr::Exists { binders, body } => {
            proof {
                assert(e@ == ExprV::Exists { binders: binders_view(binders@), body: Box::new(body@) });
            }
            let a = anf_transform(body, gen);
            (empty, Expr::Exists { binders: clone_binders(binders), body: Box::new(a) })
        },
        Expr::Instantiate(inner) => {
            proof {
                assert(e@ == ExprV::Instantiate(Box::new(inner@)));
            }
            let (bs, _core) = flatten(inner, gen);
            (empty, Expr::ExistentialBindings(bs))
        },
        _ => {
            proof {
                assert(false);
            }
            (empty, Expr::BoolConst(true))
        },
    }
}

/// [`flatten`] on a binary operation: equalities pull the bindings of both
/// sides out, the connectives keep them local to each side.
fn flatten_binop(e: &Expr, gen: &mut NameGenerator) -> (r: (Vec<(Ident, Expr)>, Expr))
    requires
        e is BinOp,
        anf_defined(e@),
        flat(e@, old(gen).count()).2 <= usize::MAX,
    ensures
        (bindings_view(r.0@), r.1@, final(gen).count()) == flat(e@, old(gen).count()),
    decreases e, 0nat,
{
    let ghost n = gen.count();
    let empty: Vec<(Ident, Expr)> = Vec::new();
    proof {
        assert(bindings_view(empty@) =~= Seq::<(Seq<char>, ExprV)>::empty());
    }
    match e {
        Expr::BinOp { op, left, right } => {
            proof {
                assert(e@ == ExprV::BinOp { op: *op, left: Box::new(left@), right: Box::new(right@) });
            }
            if *op == BinOp::Eq || *op == BinOp::Neq {
                proof {
                    lemma_flat_grows(right@, flat(left@, n).2);
                }
                let (mut bl, cl) = flatten(left, gen);
                let (mut br, cr) = flatten(right, gen);
                let ghost lv = bl@;
                let ghost rv = br@;
                bl.append(&mut br);
                proof {
                    assert(bindings_view(bl@) =~= bindings_view(lv) + bindings_view(rv));
                }
                (bl, Expr::BinOp { op: *op, left: Box::new(cl), right: Box::new(cr) })
            } else {
                proof {
                    lemma_flat_grows(right@, anf_of(left@, n).1);
                }
                let al = anf_transform(left, gen);
                let ar = anf_transform(right, gen);
                (empty, Expr::BinOp { op: *op, left: Box::new(al), right: Box::new(ar) })
            }
        },
        _ => {
            proof {
                assert(false);
            }
            (empty, Expr::BoolConst(true))
        },
    }
}

/// [`flatten`] on a call or a constructor application: its arguments are
/// flattened and the application itself is bound to a fresh name; a
/// constructor without arguments is a constant and stays.
fn flatten_application(e: &Expr, gen: &mut NameGenerator) -> (r: (Vec<(Ident, Expr)>, Expr))
    requires
        e is Call || e is Constructor,
        anf_defined(e@),
        flat(e@, old(gen).count()).2 <= usize::MAX,
    ensures
        (bindings_view(r.0@), r.1@, final(gen).count()) == flat(e@, old(gen).count()),
    decreases e, 0nat,
{
    let empty: Vec<(Ident, Expr)> = Vec::new();
    proof {
        assert(bindings_view(empty@) =~= Seq::<(Seq<char>, ExprV)>::empty());
    }
    match e {
        Expr::Call { func, args } => {
            proof {
                assert(decreases_to!(*e => (*e)->Call_args));
                assert(e@ == ExprV::Call { func: func@, args: expr_views(args@) });
                assert forall|k: int| 0 <= k < args@.len() implies anf_defined(#[trigger] args@[k]@) by {
                    assert(e@->Call_args[k] == args@[k]@);
                }
            }
            let (mut bs, cores) = flatten_list(args, gen);
            let v = gen.fresh();
            let ghost bb = bs@;
            bs.push((v.clone(), Expr::Call { func: func.clone(), args: cores }));
            proof {
                assert(bindings_view(bs@) =~= bindings_view(bb).push((v@, ExprV::Call { func: func@, args: expr_views(cores@) })));
            }
            (bs, Expr::Var(v))
        },
        Expr::Constructor { name, args } => {
            proof {
                assert(decreases_to!(*e => (*e)->Constructor_args));
                assert(e@ == ExprV::Constructor { name: name@, args: expr_views(args@) });
                assert forall|k: int| 0 <= k < args@.len() implies anf_defined(#[trigger] args@[k]@) by {
                    assert(e@->Constructor_args[k] == args@[k]@);
                }
            }
            if args.len() == 0 {
                (empty, e.deep_clone())
            } else {
                let (mut bs, cores) = flatten_list(args, gen);
                let v = gen.fresh();
                let ghost bb = bs@;
                bs.push((v.clone(), Expr::Constructor { name: name.clone(), args: cores }));
                proof {
                    assert(bindings_view(bs@) =~= bindings_view(bb).push((v@, ExprV::Constructor { name: name@, args: expr_views(cores@) })));
                }
                (bs, Expr::Var(v))
            }
        },
        _ => {
            proof {
                assert(false);
            }
            (empty, Expr::BoolConst(true))
        },
    }
}

/// [`flatten`] on a conditional: the condition's bindings are pulled out,
/// each branch is put into A-normal form on its own.
fn flatten_if(e: &Expr, gen: &mut NameGenerator) -> (r: (Vec<(Ident, Expr)>, Expr))
    requires
        e is If,
        anf_defined(e@),
        flat(e@, old(gen).count()).2 <= usize::MAX,
    ensures
        (bindings_view(r.0@), r.1@, final(gen).count()) == flat(e@, old(gen).count()),
    decreases e, 0nat,
{
    let ghost n = gen.count();
    match e {
        Expr::If { cond, then_expr, else_expr } => {
            proof {
                assert(e@ == ExprV::If { cond: Box::new(cond@), then_expr: Box::new(then_expr@), else_expr: Box::new(else_expr@) });
                let n1 = flat(cond@, n).2;
                lemma_flat_grows(then_expr@, n1);
                lemma_flat_grows(else_expr@, anf_of(then_expr@, n1).1);
            }
            let (bs, cc) = flatten(cond, gen);
            let at = anf_transform(then_expr, gen);
            let ae = anf_transform(else_expr, gen);
            (bs, Expr::If { cond: Box::new(cc), then_expr: Box::new(at), else_expr: Box::new(ae) })
        },
        _ => {
            proof {
                assert(false);
            }
            (Vec::new(), Expr::BoolConst(true))
        },
    }
}

/// [`flatten`] on a `let`: the bound value's bindings, the binding itself,
/// then the body's bindings.
fn flatten_let(e: &Expr, gen: &mut NameGenerator) -> (r: (Vec<(Ident, Expr)>, Expr))
    requires
        e is Let,
        anf_defined(e@),
        flat(e@, old(gen).count()).2 <= usize::MAX,
    ensures
        (bindings_view(r.0@), r.1@, final(gen).count()) == flat(e@, old(gen).count()),
    decreases e, 0nat,
{
    let ghost n = gen.count();
    match e {
        Expr::Let { pat, bound_expr, body } => {
            proof {
                assert(e@ == ExprV::Let { pat: pat@, bound_expr: Box::new(bound_expr@), body: Box::new(body@) });
                lemma_flat_grows(body@, flat(bound_expr@, n).2);
            }
            let (mut bs, bc) = flatten(bound_expr, gen);
            let name = match pat {
                Pattern::Ident(x) => x.clone(),
                _ => {
                    proof {
                        assert(false);
                    }
                    String::new()
                },
            };
            let ghost bb = bs@;
            bs.push((name, bc));
            let (mut bs2, core) = flatten(body, gen);
            let ghost b1 = bs@;
            let ghost b2 = bs2@;
            bs.append(&mut bs2);
            proof {
                assert(bindings_view(b1) =~= bindings_view(bb).push((pat@->Ident_0, bc@)));
                assert(bindings_view(bs@) =~= bindings_view(b1) + bindings_view(b2));
            }
            (bs, core)
        },
        _ => {
            proof {
                assert(false);
            }
            (Vec::new(), Expr::BoolConst(true))
        },
    }
}

/// The A-normal form of `e`, with fresh names from `gen`.
fn anf_transform(e: &Expr, gen: &mut NameGenerator) -> (r: Expr)
    requires
        anf_defined(e@),
        anf_of(e@, old(gen).count()).1 <= usize::MAX,
    ensures
        (r@, final(gen).count()) == anf_of(e@, old(gen).count()),
    decreases e, 2nat,
{
    let (bindings, core) = flatten(e, gen);
    build_let_chain(bindings, core)
}

/// The A-normal form of a statement: nested calls are bound to fresh
/// names, and an outermost call stays in place as the core, over its
/// flattened arguments; any other statement as [`anf_of`] gives it.
pub open spec fn anf_stmt(e: ExprV, n: nat) -> (ExprV, nat) {
    match e {
        ExprV::Call { func, args } => {
            let (bs, cores, n1) = flat_list(args, n);
            (let_chain(bs, ExprV::Call { func, args: cores }), n1)
        },
        _ => anf_of(e, n),
    }
}

/// Puts a statement into A-normal form (see [`anf_stmt`]), drawing fresh
/// names from `gen`: `P(add(a, sub(b, c)))` becomes
/// `let anf_0 = sub(b, c) in let anf_1 = add(a, anf_0) in P(anf_1)`.
pub fn transform_expr(expr: &Expr, gen: &mut NameGenerator) -> (r: Expr)
    requires
        anf_defined(expr@),
        anf_stmt(expr@, old(gen).count()).1 <= usize::MAX,
    ensures
        (r@, final(gen).count()) == anf_stmt(expr@, old(gen).count()),
{
    match expr {
        Expr::Call { func, args } => {
            proof {
                assert(expr@ == ExprV::Call { func: func@, args: expr_views(args@) });
                assert forall|k: int| 0 <= k < args@.len() implies anf_defined(#[trigger] args@[k]@) by {
                    assert(expr@->Call_args[k] == args@[k]@);
                }
            }
            let (bs, cores) = flatten_list(args, gen);
            let core = Expr::Call { func: func.clone(), args: cores };
            proof {
                assert(core@ == ExprV::Call { func: func@, args: expr_views(cores@) });
            }
            build_let_chain(bs, core)
        },
        _ => anf_transform(expr, gen),
    }
}

/// Puts an expression into the A-normal form that the relational
/// abstraction reads (see [`anf_of`]): every call is bound to a fresh name,
/// the outermost one included, since that abstraction takes a call only as
/// the bound value of a `let`.
pub fn bind_calls(expr: &Expr, gen: &mut NameGenerator) -> (r: Expr)
    requires
        anf_defined(expr@),
        anf_of(expr@, old(gen).count()).1 <= usize::MAX,
    ensures
        (r@, final(gen).count()) == anf_of(expr@, old(gen).count()),
{
    anf_transform(expr, gen)
}

/// Whether `e` has no `let` and no instantiation hint, at any depth.
pub open spec fn let_free(e: ExprV) -> bool
    decreases e,
{
    match e {
        ExprV::Tuple(es) => forall|i: int| 0 <= i < es.len() ==> let_free(#[trigger] es[i]),
        ExprV::UnOp { expr, .. } => let_free(*expr),
        ExprV::BinOp { left, right, .. } => let_free(*left) && let_free(*right),
        ExprV::Call { args, .. } => forall|i: int| 0 <= i < args.len() ==> let_free(#[trigger] args[i]),
        ExprV::Constructor { args, .. } => forall|i: int| 0 <= i < args.len() ==> let_free(#[trigger] args[i]),
        ExprV::If { cond, then_expr, else_expr } => let_free(*cond) && let_free(*then_expr) && let_free(*else_expr),
        ExprV::Forall { body, .. } => let_free(*body),
        ExprV::Exists { body, .. } => let_free(*body),
        ExprV::Let { .. } => false,
        ExprV::Instantiate(_) => false,
        _ => true,
    }
}

/// Whether `y` is a fresh name drawn at count `m` or later.
pub open spec fn fresh_from(y: Seq<char>, m: nat) -> bool {
    exists|k: nat| k >= m && y == anf_name(k)
}

/// Whether `e` reads no fresh name drawn at count `m` or later.
pub open spec fn unused_from(e: ExprV, m: nat) -> bool {
    forall|y: Seq<char>| #[trigger] uses_name(e, y) ==> !fresh_from(y, m)
}

/// Whether two environments agree on every name but the fresh ones drawn
/// at count `m` or later.
pub open spec fn agree_below(env1: spec_fn(Seq<char>) -> bool, env2: spec_fn(Seq<char>) -> bool, m: nat) -> bool {
    forall|y: Seq<char>| !fresh_from(y, m) ==> #[trigger] env1(y) == env2(y)
}

/// The environment after the bindings `bs`, made in order from `env`.
pub open spec fn after(bs: Seq<(Seq<char>, ExprV)>, env: spec_fn(Seq<char>) -> bool, app: spec_fn(Head, Seq<bool>) -> bool) -> spec_fn(Seq<char>) -> bool
    decreases bs.len(),
{
    if bs.len() == 0 {
        env
    } else {
        let p = after(bs.drop_last(), env, app);
        bind(p, bs.last().0, eval(bs.last().1, p, app))
    }
}

/// A chain of `let`s evaluates its core in the environment after its bindings.
proof fn lemma_let_chain_value(bs: Seq<(Seq<char>, ExprV)>, core: ExprV, env: spec_fn(Seq<char>) -> bool, app: spec_fn(Head, Seq<bool>) -> bool)
    ensures
        eval(let_chain(bs, core), env, app) == eval(core, after(bs, env, app), app),
    decreases bs.len(),
{
    if bs.len() > 0 {
        let c2 = ExprV::Let { pat: PatternV::Ident(bs.last().0), bound_expr: Box::new(bs.last().1), body: Box::new(core) };
        lemma_let_chain_value(bs.drop_last(), c2, env, app);
    }
}

/// Bindings made one list after another.
proof fn lemma_after_append(bs1: Seq<(Seq<char>, ExprV)>, bs2: Seq<(Seq<char>, ExprV)>, env: spec_fn(Seq<char>) -> bool, app: spec_fn(Head, Seq<bool>) -> bool)
    ensures
        after(bs1 + bs2, env, app) == after(bs2, after(bs1, env, app), app),
    decreases bs2.len(),
{
    if bs2.len() == 0 {
        assert(bs1 + bs2 =~= bs1);
    } else {
        assert((bs1 + bs2).drop_last() =~= bs1 + bs2.drop_last());
        assert((bs1 + bs2).last() == bs2.last());
        lemma_after_append(bs1, bs2.drop_last(), env, app);
    }
}

/// Agreement below a count is transitive, and weaker at a higher count.
proof fn lemma_agree_below_trans(e1: spec_fn(Seq<char>) -> bool, e2: spec_fn(Seq<char>) -> bool, e3: spec_fn(Seq<char>) -> bool, m1: nat, m2: nat)
    requires
        agree_below(e1, e2, m1),
        agree_below(e2, e3, m2),
    ensures
        agree_below(e1, e3, if m1 <= m2 { m1 } else { m2 }),
{
    let m = if m1 <= m2 { m1 } else { m2 };
    assert forall|y: Seq<char>| !fresh_from(y, m) implies #[trigger] e1(y) == e3(y) by {
        if fresh_from(y, m1) {
            let k = choose|k: nat| k >= m1 && y == anf_name(k);
            assert(fresh_from(y, m));
        }
        if fresh_from(y, m2) {
            let k = choose|k: nat| k >= m2 && y == anf_name(k);
            assert(fresh_from(y, m));
        }
        assert(e1(y) == e2(y));
        assert(e2(y) == e3(y));
    }
}

/// An expression that reads no fresh name from `m` on has one value in two
/// environments that agree below `m`.
proof fn lemma_eval_below(e: ExprV, m: nat, env1: spec_fn(Seq<char>) -> bool, env2: spec_fn(Seq<char>) -> bool, app: spec_fn(Head, Seq<bool>) -> bool)
    requires
        unused_from(e, m),
        agree_below(env1, env2, m),
    ensures
        eval(e, env1, app) == eval(e, env2, app),
{
    assert forall|y: Seq<char>| uses_name(e, y) implies #[trigger] env1(y) == env2(y) by {}
    lemma_eval_agree(e, env1, env2, app);
}

proof fn lemma_agree_weaken(e1: spec_fn(Seq<char>) -> bool, e2: spec_fn(Seq<char>) -> bool, m1: nat, m2: nat)
    requires
        agree_below(e1, e2, m2),
        m1 <= m2,
    ensures
        agree_below(e1, e2, m1),
{
    assert forall|y: Seq<char>| !fresh_from(y, m1) implies #[trigger] e1(y) == e2(y) by {
        if fresh_from(y, m2) {
            let k = choose|k: nat| k >= m2 && y == anf_name(k);
            assert(fresh_from(y, m1));
        }
    }
}

proof fn lemma_unused_weaken(e: ExprV, m1: nat, m2: nat)
    requires
        unused_from(e, m1),
        m1 <= m2,
    ensures
        unused_from(e, m2),
{
    assert forall|y: Seq<char>| #[trigger] uses_name(e, y) implies !fresh_from(y, m2) by {
        if fresh_from(y, m2) {
            let k = choose|k: nat| k >= m2 && y == anf_name(k);
            assert(fresh_from(y, m1));
        }
    }
}

/// The name `anf_name(k)` is fresh from `m` exactly where `k >= m`.
proof fn lemma_fresh_from_name(k: nat, m: nat)
    ensures
        fresh_from(anf_name(k), m) == (k >= m),
{
    if fresh_from(anf_name(k), m) && k < m {
        let j = choose|j: nat| j >= m && anf_name(k) == anf_name(j);
        lemma_fresh_names_differ(j, k);
    }
}

/// Flattening keeps the meaning: the core, read after the bindings (and
/// whatever later fresh names hold), has the value of `e`; and the bindings
/// change only fresh names from `n` on.
proof fn lemma_flat_meaning(e: ExprV, n: nat, env: spec_fn(Seq<char>) -> bool, big: spec_fn(Seq<char>) -> bool, app: spec_fn(Head, Seq<bool>) -> bool)
    requires
        anf_defined(e),
        let_free(e),
        unused_from(e, n),
        agree_below(big, after(flat(e, n).0, env, app), flat(e, n).2),
    ensures
        agree_below(after(flat(e, n).0, env, app), env, n),
        eval(flat(e, n).1, big, app) == eval(e, env, app),
    decreases e, 0nat,
{
    lemma_flat_grows(e, n);
    match e {
        ExprV::Tuple(es) => {
            assert forall|i: int| 0 <= i < es.len() implies anf_defined(#[trigger] es[i]) && let_free(es[i]) && unused_from(es[i], n) by {
                assert forall|y: Seq<char>| #[trigger] uses_name(es[i], y) implies !fresh_from(y, n) by {
                    assert(uses_name(e, y));
                }
            }
            lemma_flat_list_meaning(es, n, env, big, app);
        },
        ExprV::UnOp { expr, .. } => {
            assert forall|y: Seq<char>| #[trigger] uses_name(*expr, y) implies !fresh_from(y, n) by {
                assert(uses_name(e, y));
            }
            lemma_agree_weaken(big, env, n, flat(e, n).2);
            lemma_anf_meaning(*expr, n, big, env, app);
        },
        ExprV::BinOp { op, left, right } => {
            lemma_flat_grows(*left, n);
            let n1 = flat(*left, n).2;
            lemma_flat_grows(*right, n1);
            assert forall|y: Seq<char>| #[trigger] uses_name(*left, y) implies !fresh_from(y, n) by {
                assert(uses_name(e, y));
            }
            assert forall|y: Seq<char>| #[trigger] uses_name(*right, y) implies !fresh_from(y, n) by {
                assert(uses_name(e, y));
            }
            lemma_unused_weaken(*right, n, n1);
            if op == BinOp::Eq || op == BinOp::Neq {
                let (bl, cl, n1) = flat(*left, n);
                let (br, cr, n2) = flat(*right, n1);
                let env1 = after(bl, env, app);
                lemma_after_append(bl, br, env, app);
                lemma_flat_meaning(*right, n1, env1, big, app);
                lemma_agree_below_trans(big, after(br, env1, app), env1, n2, n1);
                lemma_flat_meaning(*left, n, env, big, app);
                lemma_eval_below(*right, n, env1, env, app);
                lemma_agree_below_trans(after(br, env1, app), env1, env, n1, n);
            } else {
                let n2 = flat(e, n).2;
                lemma_agree_weaken(big, env, n, n2);
                lemma_agree_weaken(big, env, n1, n2);
                lemma_anf_meaning(*left, n, big, env, app);
                lemma_anf_meaning(*right, n1, big, env, app);
            }
        },
        ExprV::Call { func, args } => {
            assert forall|i: int| 0 <= i < args.len() implies anf_defined(#[trigger] args[i]) && let_free(args[i]) && unused_from(args[i], n) by {
                assert forall|y: Seq<char>| #[trigger] uses_name(args[i], y) implies !fresh_from(y, n) by {
                    assert(uses_name(e, y));
                }
            }
            let (bs, cores, n1) = flat_list(args, n);
            let a = after(bs, env, app);
            lemma_flat_list_meaning(args, n, env, a, app);
            lemma_flat_list_grows(args, n);
            let x = anf_name(n1);
            let c = ExprV::Call { func, args: cores };
            assert(bs.push((x, c)).drop_last() =~= bs);
            assert(after(flat(e, n).0, env, app) == bind(a, x, eval(c, a, app)));
            lemma_fresh_from_name(n1, n1 + 1);
            lemma_fresh_from_name(n1, n);
            assert(big(x) == bind(a, x, eval(c, a, app))(x));
            assert forall|y: Seq<char>| !fresh_from(y, n) implies #[trigger] bind(a, x, eval(c, a, app))(y) == env(y) by {
                assert(a(y) == env(y));
            }
        },
        ExprV::Constructor { name, args } => {
            if args.len() == 0 {
                lemma_eval_below(e, n, big, env, app);
            } else {
                assert forall|i: int| 0 <= i < args.len() implies anf_defined(#[trigger] args[i]) && let_free(args[i]) && unused_from(args[i], n) by {
                    assert forall|y: Seq<char>| #[trigger] uses_name(args[i], y) implies !fresh_from(y, n) by {
                        assert(uses_name(e, y));
                    }
                }
                let (bs, cores, n1) = flat_list(args, n);
                let a = after(bs, env, app);
                lemma_flat_list_meaning(args, n, env, a, app);
                lemma_flat_list_grows(args, n);
                let x = anf_name(n1);
                let c = ExprV::Constructor { name, args: cores };
                assert(bs.push((x, c)).drop_last() =~= bs);
                assert(after(flat(e, n).0, env, app) == bind(a, x, eval(c, a, app)));
                lemma_fresh_from_name(n1, n1 + 1);
                lemma_fresh_from_name(n1, n);
                assert(big(x) == bind(a, x, eval(c, a, app))(x));
                assert forall|y: Seq<char>| !fresh_from(y, n) implies #[trigger] bind(a, x, eval(c, a, app))(y) == env(y) by {
                    assert(a(y) == env(y));
                }
            }
        },
        ExprV::If { cond, then_expr, else_expr } => {
            assert forall|y: Seq<char>| #[trigger] uses_name(*cond, y) implies !fresh_from(y, n) by {
                assert(uses_name(e, y));
            }
            assert forall|y: Seq<char>| #[trigger] uses_name(*then_expr, y) implies !fresh_from(y, n) by {
                assert(uses_name(e, y));
            }
            assert forall|y: Seq<char>| #[trigger] uses_name(*else_expr, y) implies !fresh_from(y, n) by {
                assert(uses_name(e, y));
            }
            let (bs, cc, n1) = flat(*cond, n);
            lemma_flat_grows(*cond, n);
            lemma_flat_grows(*then_expr, n1);
            let n2 = flat(*then_expr, n1).2;
            lemma_flat_grows(*else_expr, n2);
            let n3 = flat(*else_expr, n2).2;
            let a = after(bs, env, app);
            lemma_agree_weaken(big, a, n1, n3);
            lemma_agree_weaken(big, a, n2, n3);
            lemma_flat_meaning(*cond, n, env, big, app);
            lemma_unused_weaken(*then_expr, n, n1);
            lemma_unused_weaken(*else_expr, n, n2);
            lemma_anf_meaning(*then_expr, n1, big, a, app);
            lemma_anf_meaning(*else_expr, n2, big, a, app);
            lemma_eval_below(*then_expr, n, a, env, app);
            lemma_eval_below(*else_expr, n, a, env, app);
        },
        ExprV::Forall { binders, body } => {
            assert forall|y: Seq<char>| #[trigger] uses_name(*body, y) implies !fresh_from(y, n) by {
                assert(uses_name(e, y));
            }
            lemma_agree_weaken(big, env, n, flat(e, n).2);
            lemma_anf_assignments(*body, n, binders, binders.len(), big, env, app);
        },
        ExprV::Exists { binders, body } => {
            assert forall|y: Seq<char>| #[trigger] uses_name(*body, y) implies !fresh_from(y, n) by {
                assert(uses_name(e, y));
            }
            lemma_agree_weaken(big, env, n, flat(e, n).2);
            lemma_anf_assignments(*body, n, binders, binders.len(), big, env, app);
        },
        _ => {
            lemma_eval_below(e, n, big, env, app);
        },
    }
}

proof fn lemma_flat_list_meaning(es: Seq<ExprV>, n: nat, env: spec_fn(Seq<char>) -> bool, big: spec_fn(Seq<char>) -> bool, app: spec_fn(Head, Seq<bool>) -> bool)
    requires
        forall|i: int| 0 <= i < es.len() ==> anf_defined(#[trigger] es[i]) && let_free(es[i]) && unused_from(es[i], n),
        agree_below(big, after(flat_list(es, n).0, env, app), flat_list(es, n).2),
    ensures
        agree_below(after(flat_list(es, n).0, env, app), env, n),
        flat_list(es, n).1.len() == es.len(),
        eval_list(flat_list(es, n).1, big, app) == eval_list(es, env, app),
    decreases es, 0nat,
{
    if es.len() > 0 {
        let init = es.drop_last();
        let (bs0, cores0, m) = flat_list(init, n);
        let (b1, c, n1) = flat(es.last(), m);
        lemma_flat_list_grows(init, n);
        lemma_flat_grows(es.last(), m);
        let env0 = after(bs0, env, app);
        lemma_after_append(bs0, b1, env, app);
        assert(unused_from(es[es.len() - 1], n));
        lemma_unused_weaken(es.last(), n, m);
        lemma_flat_meaning(es.last(), m, env0, big, app);
        lemma_agree_below_trans(big, after(b1, env0, app), env0, n1, m);
        assert forall|i: int| 0 <= i < init.len() implies anf_defined(#[trigger] init[i]) && let_free(init[i]) && unused_from(init[i], n) by {
            assert(init[i] == es[i]);
        }
        lemma_flat_list_meaning(init, n, env, big, app);
        lemma_eval_below(es.last(), n, env0, env, app);
        lemma_agree_below_trans(after(b1, env0, app), env0, env, m, n);
        let cores = flat_list(es, n).1;
        assert(cores == cores0.push(c));
        assert forall|i: int| 0 <= i < es.len() implies #[trigger] eval_list(cores, big, app)[i] == eval_list(es, env, app)[i] by {
            if i < init.len() {
                assert(eval_list(cores0, big, app)[i] == eval_list(init, env, app)[i]);
                assert(cores[i] == cores0[i]);
                assert(init[i] == es[i]);
            }
        }
        assert(eval_list(cores, big, app) =~= eval_list(es, env, app));
    } else {
        assert(eval_list(flat_list(es, n).1, big, app) =~= eval_list(es, env, app));
    }
}

/// The A-normal form has the value of its input, wherever the environment
/// agrees on every name but the fresh ones it draws.
proof fn lemma_anf_meaning(e: ExprV, n: nat, big: spec_fn(Seq<char>) -> bool, env: spec_fn(Seq<char>) -> bool, app: spec_fn(Head, Seq<bool>) -> bool)
    requires
        anf_defined(e),
        let_free(e),
        unused_from(e, n),
        agree_below(big, env, n),
    ensures
        eval(anf_of(e, n).0, big, app) == eval(e, env, app),
    decreases e, 1nat,
{
    let (bs, core, n1) = flat(e, n);
    lemma_let_chain_value(bs, core, big, app);
    lemma_flat_meaning(e, n, big, after(bs, big, app), app);
    lemma_eval_below(e, n, big, env, app);
}

proof fn lemma_anf_assignments(
    body: ExprV,
    n: nat,
    bs: Seq<(Seq<char>, crate::ast::BaseTypeV)>,
    k: nat,
    big: spec_fn(Seq<char>) -> bool,
    env: spec_fn(Seq<char>) -> bool,
    app: spec_fn(Head, Seq<bool>) -> bool,
)
    requires
        anf_defined(body),
        let_free(body),
        unused_from(body, n),
        agree_below(big, env, n),
    ensures
        all_assignments(anf_of(body, n).0, bs, k, big, app) == all_assignments(body, bs, k, env, app),
        some_assignment(anf_of(body, n).0, bs, k, big, app) == some_assignment(body, bs, k, env, app),
    decreases body, k + 2,
{
    if k == 0 || k > bs.len() {
        lemma_anf_meaning(body, n, big, env, app);
    } else {
        let z = bs[k - 1].0;
        assert forall|y: Seq<char>| !fresh_from(y, n) implies #[trigger] bind(big, z, true)(y) == bind(env, z, true)(y) by {
            assert(big(y) == env(y));
        }
        assert forall|y: Seq<char>| !fresh_from(y, n) implies #[trigger] bind(big, z, false)(y) == bind(env, z, false)(y) by {
            assert(big(y) == env(y));
        }
        lemma_anf_assignments(body, n, bs, (k - 1) as nat, bind(big, z, true), bind(env, z, true), app);
        lemma_anf_assignments(body, n, bs, (k - 1) as nat, bind(big, z, false), bind(env, z, false), app);
    }
}

/// Law: the A-normal form means what its input means. Wherever the input
/// reads none of the fresh names from `n` on, binding each nested call to a
/// fresh name and reading the name in its place gives, in every model, the
/// value of the input, for an expression and for a statement alike; in
/// particular a conditional keeps its branches in place.
pub proof fn lemma_anf_preserves_meaning(e: ExprV, n: nat, env: spec_fn(Seq<char>) -> bool, app: spec_fn(Head, Seq<bool>) -> bool)
    requires
        anf_defined(e),
        let_free(e),
        unused_from(e, n),
    ensures
        eval(anf_of(e, n).0, env, app) == eval(e, env, app),
        eval(anf_stmt(e, n).0, env, app) == eval(e, env, app),
{
    lemma_anf_meaning(e, n, env, env, app);
    match e {
        ExprV::Call { func, args } => {
            assert forall|i: int| 0 <= i < args.len() implies anf_defined(#[trigger] args[i]) && let_free(args[i]) && unused_from(args[i], n) by {
                assert forall|y: Seq<char>| #[trigger] uses_name(args[i], y) implies !fresh_from(y, n) by {
                    assert(uses_name(e, y));
                }
            }
            let (bs, cores, n1) = flat_list(args, n);
            let a = after(bs, env, app);
            lemma_flat_list_meaning(args, n, env, a, app);
            lemma_let_chain_value(bs, ExprV::Call { func, args: cores }, env, app);
        },
        _ => {},
    }
}

} // verus!
