//! From a program and one of its goals to the SMT-LIB query that decides
//! it: the goal is negated and sent through the pipeline, and the query
//! declares the sorts, the constructor and function relations with their
//! axioms, the skolem constants, the hints, and asserts the goal.

use vstd::prelude::*;
use crate::anf::{NameGenerator, anf_defined, anf_of};
use crate::api::{assoc_insert, ctors_view, datatypes_view, fdefs_view};
use crate::ast::{BaseType, BaseTypeV, Expr, ExprV, FunctionDef, Goal, Ident, Program, UnOp, base_views, binders_view,
    bindings_view, clone_binders, expr_views};
use crate::nnf::{nnf_defined, nnf_of};
use crate::pipeline::{fresh_budget, fresh_count, is_anf_defined, is_nnf_defined, is_relabs_defined, lemma_fresh_count};
use crate::relabs::{relabs_defined, relabs_of, sigs_view};
use crate::skolemize::skolemized;
use crate::smt::axioms::{disjointness_axiom, disjointness_of, functionality_axiom, functionality_of, injectivity_axiom,
    injectivity_of};
use crate::smt::axioms_body::{body_axioms, fun_params, fun_types, generate_axioms_from_body, get_fun_params, get_fun_types};
use crate::smt::builder::{render_sort, sort_text};
use crate::smt::query::{Query, assert_cmd, commands_text, declare_const_cmd, declare_fun_cmd, declare_sort_cmd, logic_line};
use crate::smt::sexp::{Sexp, SexpV, atom, expr_to_smt, mk_atom, sexp_views, smt_of};
use crate::text::{sanitized, sanitize_id};

verus! {

broadcast use vstd::std_specs::vec::group_vec_axioms, crate::ast::group_ast_views, crate::smt::sexp::lemma_sexp_views;

/// Whether each stage of the pipeline is defined on `e`, with fresh names
/// numbered from `n` on.
#[verifier::opaque]
pub open spec fn abstractable(e: ExprV, n: nat) -> bool {
    &&& anf_defined(e)
    &&& n + fresh_count(e) <= usize::MAX
    &&& nnf_defined(anf_of(e, n).0)
    &&& relabs_defined(nnf_of(anf_of(e, n).0, false))
}

/// A formula as the solver gets it: A-normal form with fresh names from
/// `n` on, negation normal form, relational abstraction.
#[verifier::opaque]
pub open spec fn abstracted(e: ExprV, n: nat, sigs: Seq<(Seq<char>, crate::ast::TypeV)>) -> ExprV {
    relabs_of(nnf_of(anf_of(e, n).0, false), true, sigs)
}

/// Sends a formula through the pipeline, its fresh names numbered from 0
/// (see [`abstracted`]); none where a stage is not defined on it.
pub fn abstract_formula(e: &Expr, functions: &Vec<(Ident, FunctionDef)>) -> (r: Option<Expr>)
    ensures
        match r {
            Some(a) => abstractable(e@, 0) && a@ == abstracted(e@, 0, sigs_view(functions@)),
            None => !abstractable(e@, 0),
        },
{
    let mut gen = NameGenerator::new();
    abstract_with(e, functions, &mut gen)
}

/// [`abstract_formula`] with fresh names from the generator's counter on.
fn abstract_with(e: &Expr, functions: &Vec<(Ident, FunctionDef)>, gen: &mut NameGenerator) -> (r: Option<Expr>)
    ensures
        match r {
            Some(a) => abstractable(e@, old(gen).count()) && a@ == abstracted(e@, old(gen).count(), sigs_view(functions@))
                && final(gen).count() == anf_of(e@, old(gen).count()).1,
            None => !abstractable(e@, old(gen).count()),
        },
{
    let ghost n = gen.count();
    proof {
        reveal(abstractable);
        reveal(abstracted);
    }
    if !is_anf_defined(e) {
        return None;
    }
    let room = usize::MAX - gen.counter_value();
    if fresh_budget(e, room).is_none() {
        return None;
    }
    proof {
        lemma_fresh_count(e@, n);
    }
    let a = crate::anf::bind_calls(e, gen);
    if !is_nnf_defined(&a) {
        return None;
    }
    let b = crate::nnf::transform_expr(a);
    if !is_relabs_defined(&b) {
        return None;
    }
    Some(crate::relabs::transform_expr(&b, functions))
}

/// The stages of a goal's hints from the `i`-th on, with fresh names from
/// `n` on: each hint, as an instantiation, through the pipeline.
pub open spec fn hint_chain(hints: Seq<ExprV>, i: int, n: nat, sigs: Seq<(Seq<char>, crate::ast::TypeV)>) -> Option<Seq<ExprV>>
    decreases hints.len() - i,
{
    if i < 0 || i >= hints.len() {
        Some(Seq::empty())
    } else {
        let h = ExprV::Instantiate(Box::new(hints[i]));
        if !abstractable(h, n) {
            None
        } else {
            match hint_chain(hints, i + 1, anf_of(h, n).1, sigs) {
                Some(rest) => Some(seq![abstracted(h, n, sigs)] + rest),
                None => None,
            }
        }
    }
}

/// A goal after the pipeline: the negated property in A-normal and negation
/// normal form, its existential variables pulled out as skolem constants,
/// the rest abstracted; and the hints, abstracted.
pub open spec fn processed(prop: ExprV, hints: Seq<ExprV>, sigs: Seq<(Seq<char>, crate::ast::TypeV)>) -> Option<
    (Seq<(Seq<char>, BaseTypeV)>, ExprV, Seq<ExprV>),
> {
    let neg = ExprV::UnOp { op: UnOp::Not, expr: Box::new(prop) };
    if !(anf_defined(neg) && fresh_count(neg) <= usize::MAX && nnf_defined(anf_of(neg, 0).0)) {
        None
    } else {
        let (vars, body) = skolemized(nnf_of(anf_of(neg, 0).0, false), Seq::empty());
        if !relabs_defined(body) {
            None
        } else {
            match hint_chain(hints, 0, anf_of(neg, 0).1, sigs) {
                Some(hs) => Some((vars, relabs_of(body, true, sigs), hs)),
                None => None,
            }
        }
    }
}

/// A goal ready for the solver.
#[derive(Debug)]
pub struct ProcessedGoal {
    pub name: Ident,
    pub skolem_vars: Vec<(Ident, BaseType)>,
    pub relabs_expr: Expr,
    pub instantiations: Vec<Expr>,
}

/// The hints of a goal through the pipeline, in order, with fresh names from
/// the generator's counter on (see [`hint_chain`]).
#[verifier::rlimit(30)]
fn abstract_hints(hints: &Vec<Expr>, functions: &Vec<(Ident, FunctionDef)>, gen: &mut NameGenerator) -> (r: Option<Vec<Expr>>)
    ensures
        hint_chain(expr_views(hints@), 0, old(gen).count(), sigs_view(functions@)) == match r {
            Some(v) => Some(expr_views(v@)),
            None => None,
        },
{
    let ghost sigs = sigs_view(functions@);
    let ghost hv = expr_views(hints@);
    let mut insts: Vec<Expr> = Vec::new();
    let ghost n0 = gen.count();
    let ghost goal_chain = hint_chain(hv, 0, n0, sigs);
    let mut i: usize = 0;
    proof {
        if goal_chain is Some {
            assert(goal_chain.unwrap() =~= expr_views(insts@) + goal_chain.unwrap());
        }
    }
    while i < hints.len()
        invariant
            0 <= i <= hints@.len(),
            hv == expr_views(hints@),
            sigs == sigs_view(functions@),
            goal_chain == hint_chain(hv, 0, n0, sigs),
            n0 == old(gen).count(),
            goal_chain is Some <==> hint_chain(hv, i as int, gen.count(), sigs) is Some,
            goal_chain is Some ==> goal_chain.unwrap() == expr_views(insts@) + hint_chain(hv, i as int, gen.count(), sigs).unwrap(),
        decreases hints@.len() - i,
    {
        let ghost n = gen.count();
        let ghost before = expr_views(insts@);
        let h = Expr::Instantiate(Box::new(hints[i].deep_clone()));
        proof {
            assert(h@ == ExprV::Instantiate(Box::new(hv[i as int])));
        }
        match abstract_with(&h, functions, gen) {
            Some(a) => {
                let ghost av = a@;
                insts.push(a);
                proof {
                    assert(expr_views(insts@) =~= before.push(av));
                    if hint_chain(hv, i + 1, gen.count(), sigs) is Some {
                        let rest = hint_chain(hv, i + 1, gen.count(), sigs).unwrap();
                        assert(hint_chain(hv, i as int, n, sigs).unwrap() == seq![av] + rest);
                        assert(before + (seq![av] + rest) =~= expr_views(insts@) + rest);
                    }
                }
            },
            None => {
                proof {
                    assert(hint_chain(hv, i as int, n, sigs) is None);
                }
                return None;
            },
        }
        i = i + 1;
    }
    proof {
        assert(hint_chain(hv, i as int, gen.count(), sigs) == Some(Seq::<ExprV>::empty()));
        assert(expr_views(insts@) + Seq::<ExprV>::empty() =~= expr_views(insts@));
    }
    Some(insts)
}

/// Sends a goal through the pipeline (see [`processed`]); none where a
/// stage is not defined on it.
pub fn process_goal(goal: &Goal, functions: &Vec<(Ident, FunctionDef)>) -> (r: Option<ProcessedGoal>)
    ensures
        match r {
            Some(pg) => pg.name@ == goal.name@ && processed(goal.property@, expr_views(goal.instantiations@), sigs_view(functions@))
                == Some((binders_view(pg.skolem_vars@), pg.relabs_expr@, expr_views(pg.instantiations@))),
            None => processed(goal.property@, expr_views(goal.instantiations@), sigs_view(functions@)) is None,
        },
{
    let ghost sigs = sigs_view(functions@);
    let ghost hv = expr_views(goal.instantiations@);
    let negated = Expr::UnOp { op: UnOp::Not, expr: Box::new(goal.property.deep_clone()) };
    let ghost negv = ExprV::UnOp { op: UnOp::Not, expr: Box::new(goal.property@) };
    proof {
        assert(negated@ == negv);
    }
    if !is_anf_defined(&negated) {
        return None;
    }
    if fresh_budget(&negated, usize::MAX).is_none() {
        return None;
    }
    proof {
        lemma_fresh_count(negv, 0);
    }
    let mut gen = NameGenerator::new();
    let anf_expr = crate::anf::bind_calls(&negated, &mut gen);
    if !is_nnf_defined(&anf_expr) {
        return None;
    }
    let nnf_expr = crate::nnf::transform_expr(anf_expr);
    let (skolem_vars, skolem_body) = crate::skolemize::skolemize_expr(&nnf_expr);
    if !is_relabs_defined(&skolem_body) {
        return None;
    }
    let relabs_expr = crate::relabs::transform_expr(&skolem_body, functions);
    let insts = match abstract_hints(&goal.instantiations, functions, &mut gen) {
        Some(v) => v,
        None => return None,
    };
    Some(ProcessedGoal { name: goal.name.clone(), skolem_vars, relabs_expr, instantiations: insts })
}

/// A sort as an atom.
pub open spec fn sort_atom(b: BaseTypeV) -> SexpV {
    atom(sort_text(b))
}

/// Sorts as atoms.
pub open spec fn sort_atoms(ts: Seq<BaseTypeV>) -> Seq<SexpV> {
    Seq::new(ts.len(), |i: int| sort_atom(ts[i]))
}

/// The constant of a constructor without arguments: `Enum__Variant`.
pub open spec fn ctor_name(e: Seq<char>, c: Seq<char>) -> Seq<char> {
    sanitized(e + "::"@ + c)
}

/// The relation of a constructor with arguments: `Enum__Variant_rel`.
pub open spec fn ctor_rel(e: Seq<char>, c: Seq<char>) -> Seq<char> {
    sanitized(e + "::"@ + c + "_rel"@)
}

/// The commands of one constructor of the enum `e`: a constant for one
/// without arguments; for one with arguments, its relation with the
/// functionality and injectivity axioms.
pub open spec fn ctor_cmds(e: Seq<char>, c: Seq<char>, args: Seq<BaseTypeV>) -> Option<Seq<SexpV>> {
    let out = BaseTypeV::Custom(e);
    if args.len() == 0 {
        Some(seq![declare_const_cmd(ctor_name(e, c), sort_atom(out))])
    } else if 2 * args.len() >= usize::MAX {
        None
    } else {
        let rel = ctor_rel(e, c);
        match (smt_of(functionality_of(rel, args, out)), smt_of(injectivity_of(rel, args, out))) {
            (Some(a), Some(b)) => Some(
                seq![declare_fun_cmd(rel, sort_atoms(args).push(sort_atom(out)), atom("Bool"@)), assert_cmd(a), assert_cmd(b)],
            ),
            _ => None,
        }
    }
}

/// [`ctor_cmds`] of the constructors from the `i`-th on.
pub open spec fn ctors_cmds(e: Seq<char>, ctors: Seq<(Seq<char>, Seq<BaseTypeV>)>, i: int) -> Option<Seq<SexpV>>
    decreases ctors.len() - i,
{
    if i < 0 || i >= ctors.len() {
        Some(Seq::empty())
    } else {
        match (ctor_cmds(e, ctors[i].0, ctors[i].1), ctors_cmds(e, ctors, i + 1)) {
            (Some(a), Some(b)) => Some(a + b),
            _ => None,
        }
    }
}

/// The disjointness axiom of the constructors `i` and `j` when both take
/// arguments; nothing otherwise.
#[verifier::opaque]
pub open spec fn pair_head(e: Seq<char>, ctors: Seq<(Seq<char>, Seq<BaseTypeV>)>, i: int, j: int) -> Option<Seq<SexpV>> {
    if ctors[i].1.len() > 0 && ctors[j].1.len() > 0 {
        match smt_of(
            disjointness_of(ctor_rel(e, ctors[i].0), ctors[i].1, ctor_rel(e, ctors[j].0), ctors[j].1, BaseTypeV::Custom(e)),
        ) {
            Some(d) => Some(seq![assert_cmd(d)]),
            None => None,
        }
    } else {
        Some(Seq::empty())
    }
}

/// The commands of [`pair_head`].
fn pair_commands(e: &str, ctors: &Vec<(Ident, Vec<BaseType>)>, i: usize, j: usize) -> (r: Option<Vec<Sexp>>)
    requires
        i < ctors@.len(),
        j < ctors@.len(),
    ensures
        pair_head(e@, ctors_view(ctors@), i as int, j as int) == match r {
            Some(v) => Some(sexp_views(v@)),
            None => None,
        },
{
    proof {
        reveal(pair_head);
        assert(ctors_view(ctors@)[i as int] == (ctors@[i as int].0@, base_views(ctors@[i as int].1@)));
        assert(ctors_view(ctors@)[j as int] == (ctors@[j as int].0@, base_views(ctors@[j as int].1@)));
    }
    let mut cmds: Vec<Sexp> = Vec::new();
    if ctors[i].1.len() > 0 && ctors[j].1.len() > 0 {
        let out = BaseType::Custom(String::from_str(e));
        let r1 = joined_name(e, ctors[i].0.as_str(), "_rel");
        let r2 = joined_name(e, ctors[j].0.as_str(), "_rel");
        let d = disjointness_axiom(r1.as_str(), ctors[i].1.as_slice(), r2.as_str(), ctors[j].1.as_slice(), &out);
        match expr_to_smt(&d) {
            Some(ds) => {
                let a = assertion(ds);
                let ghost av = a@;
                cmds.push(a);
                proof {
                    assert(sexp_views(cmds@) =~= seq![av]);
                }
                Some(cmds)
            },
            None => None,
        }
    } else {
        proof {
            assert(sexp_views(cmds@) =~= Seq::<SexpV>::empty());
        }
        Some(cmds)
    }
}

/// The disjointness axioms of the pairs of constructors with arguments,
/// from the pair `(i, j)` on, in the order of the pairs.
pub open spec fn disjoint_cmds(e: Seq<char>, ctors: Seq<(Seq<char>, Seq<BaseTypeV>)>, i: int, j: int) -> Option<Seq<SexpV>>
    decreases ctors.len() - i, ctors.len() - j,
{
    if i < 0 || i >= ctors.len() {
        Some(Seq::empty())
    } else if j >= ctors.len() || j <= i {
        disjoint_cmds(e, ctors, i + 1, i + 2)
    } else {
        match (pair_head(e, ctors, i, j), disjoint_cmds(e, ctors, i, j + 1)) {
            (Some(a), Some(b)) => Some(a + b),
            _ => None,
        }
    }
}

/// The commands of the enums from the `k`-th on: the constructors, then
/// the disjointness axioms, enum by enum.
pub open spec fn datatypes_cmds(dts: Seq<(Seq<char>, Seq<(Seq<char>, Seq<BaseTypeV>)>)>, k: int) -> Option<Seq<SexpV>>
    decreases dts.len() - k,
{
    if k < 0 || k >= dts.len() {
        Some(Seq::empty())
    } else {
        match (ctors_cmds(dts[k].0, dts[k].1, 0), disjoint_cmds(dts[k].0, dts[k].1, 0, 1), datatypes_cmds(dts, k + 1)) {
            (Some(a), Some(b), Some(c)) => Some(a + b + c),
            _ => None,
        }
    }
}

/// Appends `more` to `cmds`, where there is something.
fn append_cmds(cmds: &mut Vec<Sexp>, more: Option<Vec<Sexp>>) -> (r: bool)
    ensures
        r == more is Some,
        r ==> sexp_views(final(cmds)@) == sexp_views(old(cmds)@) + sexp_views(more.unwrap()@),
{
    match more {
        Some(mut v) => {
            let ghost a = sexp_views(cmds@);
            let ghost b = sexp_views(v@);
            cmds.append(&mut v);
            proof {
                assert(sexp_views(cmds@) =~= a + b);
            }
            true
        },
        None => false,
    }
}

/// The sorts as atoms.
fn sort_atom_list(ts: &Vec<BaseType>) -> (r: Vec<Sexp>)
    ensures
        sexp_views(r@) == sort_atoms(base_views(ts@)),
{
    let mut out: Vec<Sexp> = Vec::new();
    let mut i: usize = 0;
    while i < ts.len()
        invariant
            0 <= i <= ts@.len(),
            sexp_views(out@) =~= sort_atoms(base_views(ts@)).take(i as int),
        decreases ts@.len() - i,
    {
        let ghost before = sexp_views(out@);
        out.push(Sexp::Atom(render_sort(&ts[i])));
        proof {
            assert(sexp_views(out@) =~= before.push(sort_atom(ts@[i as int]@)));
        }
        i = i + 1;
    }
    proof {
        assert(sort_atoms(base_views(ts@)).take(i as int) =~= sort_atoms(base_views(ts@)));
    }
    out
}

/// `(declare-fun rel (ins.. out) Bool)`.
fn declare_relation(rel: &str, ins: &Vec<BaseType>, out: &BaseType) -> (r: Sexp)
    ensures
        r@ == declare_fun_cmd(rel@, sort_atoms(base_views(ins@)).push(sort_atom(out@)), atom("Bool"@)),
{
    let mut args = sort_atom_list(ins);
    let ghost av = sexp_views(args@);
    args.push(Sexp::Atom(render_sort(out)));
    let mut parts: Vec<Sexp> = Vec::new();
    parts.push(mk_atom("declare-fun"));
    parts.push(mk_atom(rel));
    let ghost argv = sexp_views(args@);
    parts.push(Sexp::List(args));
    parts.push(mk_atom("Bool"));
    proof {
        assert(argv =~= av.push(sort_atom(out@)));
        assert(sexp_views(parts@) =~= declare_fun_cmd(rel@, argv, atom("Bool"@))->List_0);
    }
    Sexp::List(parts)
}

/// `(assert e)`.
fn assertion(e: Sexp) -> (r: Sexp)
    ensures
        r@ == assert_cmd(e@),
{
    let ghost ev = e@;
    let mut parts: Vec<Sexp> = Vec::new();
    parts.push(mk_atom("assert"));
    parts.push(e);
    proof {
        assert(sexp_views(parts@) =~= assert_cmd(ev)->List_0);
    }
    Sexp::List(parts)
}

/// `(declare-const name sort)`.
fn declare_constant(name: String, sort: &BaseType) -> (r: Sexp)
    ensures
        r@ == declare_const_cmd(name@, sort_atom(sort@)),
{
    let mut parts: Vec<Sexp> = Vec::new();
    parts.push(mk_atom("declare-const"));
    let ghost nv = name@;
    parts.push(Sexp::Atom(name));
    parts.push(Sexp::Atom(render_sort(sort)));
    proof {
        assert(sexp_views(parts@) =~= declare_const_cmd(nv, sort_atom(sort@))->List_0);
    }
    Sexp::List(parts)
}

/// The name `enum::ctor` followed by `suffix`, sanitised.
fn joined_name(e: &str, c: &str, suffix: &str) -> (r: String)
    ensures
        r@ == sanitized(e@ + "::"@ + c@ + suffix@),
{
    let mut s = String::from_str(e);
    s.append("::");
    s.append(c);
    s.append(suffix);
    sanitize_id(s.as_str())
}

/// The commands of one constructor (see [`ctor_cmds`]).
fn constructor_commands(e: &str, c: &str, args: &Vec<BaseType>) -> (r: Option<Vec<Sexp>>)
    ensures
        ctor_cmds(e@, c@, base_views(args@)) == match r {
            Some(v) => Some(sexp_views(v@)),
            None => None,
        },
{
    let out = BaseType::Custom(String::from_str(e));
    let mut cmds: Vec<Sexp> = Vec::new();
    if args.len() == 0 {
        proof {
            reveal_strlit("");
            assert(e@ + "::"@ + c@ + ""@ =~= e@ + "::"@ + c@);
        }
        cmds.push(declare_constant(joined_name(e, c, ""), &out));
        proof {
            assert(sexp_views(cmds@) =~= seq![declare_const_cmd(ctor_name(e@, c@), sort_atom(out@))]);
        }
        return Some(cmds);
    }
    if args.len() > usize::MAX / 2 {
        return None;
    }
    let rel = joined_name(e, c, "_rel");
    let f = functionality_axiom(rel.as_str(), args.as_slice(), &out);
    let g = injectivity_axiom(rel.as_str(), args.as_slice(), &out);
    let fs = match expr_to_smt(&f) {
        Some(x) => x,
        None => return None,
    };
    let gs = match expr_to_smt(&g) {
        Some(x) => x,
        None => return None,
    };
    cmds.push(declare_relation(rel.as_str(), args, &out));
    cmds.push(assertion(fs));
    cmds.push(assertion(gs));
    proof {
        assert(sexp_views(cmds@) =~= ctor_cmds(e@, c@, base_views(args@)).unwrap());
    }
    Some(cmds)
}

/// The commands of the constructors of one enum (see [`ctors_cmds`]).
fn constructors_commands(e: &str, ctors: &Vec<(Ident, Vec<BaseType>)>) -> (r: Option<Vec<Sexp>>)
    ensures
        ctors_cmds(e@, ctors_view(ctors@), 0) == match r {
            Some(v) => Some(sexp_views(v@)),
            None => None,
        },
{
    let ghost cv = ctors_view(ctors@);
    let ghost goal = ctors_cmds(e@, cv, 0);
    let mut cmds: Vec<Sexp> = Vec::new();
    let mut i: usize = 0;
    proof {
        if goal is Some {
            assert(goal.unwrap() =~= sexp_views(cmds@) + goal.unwrap());
        }
    }
    while i < ctors.len()
        invariant
            0 <= i <= ctors@.len(),
            cv == ctors_view(ctors@),
            goal == ctors_cmds(e@, cv, 0),
            goal is Some <==> ctors_cmds(e@, cv, i as int) is Some,
            goal is Some ==> goal.unwrap() == sexp_views(cmds@) + ctors_cmds(e@, cv, i as int).unwrap(),
        decreases ctors@.len() - i,
    {
        let ghost before = sexp_views(cmds@);
        proof {
            assert(cv[i as int] == (ctors@[i as int].0@, base_views(ctors@[i as int].1@)));
        }
        let more = constructor_commands(e, ctors[i].0.as_str(), &ctors[i].1);
        let ghost mv = more;
        if !append_cmds(&mut cmds, more) {
            return None;
        }
        proof {
            let a = sexp_views(mv.unwrap()@);
            if ctors_cmds(e@, cv, i + 1) is Some {
                assert(before + (a + ctors_cmds(e@, cv, i + 1).unwrap()) =~= sexp_views(cmds@) + ctors_cmds(e@, cv, i + 1).unwrap());
            }
        }
        i = i + 1;
    }
    proof {
        assert(sexp_views(cmds@) + Seq::<SexpV>::empty() =~= sexp_views(cmds@));
    }
    Some(cmds)
}

/// The disjointness axioms of one enum's constructors (see [`disjoint_cmds`]).
fn disjointness_commands(e: &str, ctors: &Vec<(Ident, Vec<BaseType>)>) -> (r: Option<Vec<Sexp>>)
    ensures
        disjoint_cmds(e@, ctors_view(ctors@), 0, 1) == match r {
            Some(v) => Some(sexp_views(v@)),
            None => None,
        },
{
    let ghost cv = ctors_view(ctors@);
    let ghost goal = disjoint_cmds(e@, cv, 0, 1);
    let mut cmds: Vec<Sexp> = Vec::new();
    if ctors.len() == 0 {
        proof {
            assert(sexp_views(cmds@) =~= Seq::<SexpV>::empty());
        }
        return Some(cmds);
    }
    let mut i: usize = 0;
    let mut j: usize = 1;
    proof {
        if goal is Some {
            assert(goal.unwrap() =~= sexp_views(cmds@) + goal.unwrap());
        }
    }
    while i < ctors.len()
        invariant
            0 <= i <= ctors@.len(),
            i < ctors@.len() ==> i < j <= ctors@.len(),
            cv == ctors_view(ctors@),
            goal == disjoint_cmds(e@, cv, 0, 1),
            goal is Some <==> disjoint_cmds(e@, cv, i as int, j as int) is Some,
            goal is Some ==> goal.unwrap() == sexp_views(cmds@) + disjoint_cmds(e@, cv, i as int, j as int).unwrap(),
        decreases ctors@.len() - i, ctors@.len() - j,
    {
        if j >= ctors.len() {
            let ghost oi = i as int;
            let ghost oj = j as int;
            proof {
                assert(disjoint_cmds(e@, cv, oi, oj) == disjoint_cmds(e@, cv, oi + 1, oi + 2));
            }
            i = i + 1;
            if i < ctors.len() {
                j = i + 1;
            } else {
                proof {
                    assert(disjoint_cmds(e@, cv, oi + 1, oi + 2) == Some(Seq::<SexpV>::empty()));
                    assert(disjoint_cmds(e@, cv, i as int, j as int) == Some(Seq::<SexpV>::empty()));
                }
            }
        } else {
            let ghost before = sexp_views(cmds@);
            let more = pair_commands(e, ctors, i, j);
            let ghost mv = more;
            if !append_cmds(&mut cmds, more) {
                return None;
            }
            proof {
                let a = sexp_views(mv.unwrap()@);
                if disjoint_cmds(e@, cv, i as int, j + 1) is Some {
                    let rest = disjoint_cmds(e@, cv, i as int, j + 1).unwrap();
                    assert(disjoint_cmds(e@, cv, i as int, j as int).unwrap() == a + rest);
                    assert(before + (a + rest) =~= sexp_views(cmds@) + rest);
                }
            }
            j = j + 1;
        }
    }
    proof {
        assert(sexp_views(cmds@) + Seq::<SexpV>::empty() =~= sexp_views(cmds@));
    }
    Some(cmds)
}

/// The commands of all enums (see [`datatypes_cmds`]).
fn datatype_commands(dts: &Vec<(Ident, Vec<(Ident, Vec<BaseType>)>)>) -> (r: Option<Vec<Sexp>>)
    ensures
        datatypes_cmds(datatypes_view(dts@), 0) == match r {
            Some(v) => Some(sexp_views(v@)),
            None => None,
        },
{
    let ghost dv = datatypes_view(dts@);
    let ghost goal = datatypes_cmds(dv, 0);
    let mut cmds: Vec<Sexp> = Vec::new();
    let mut k: usize = 0;
    proof {
        if goal is Some {
            assert(goal.unwrap() =~= sexp_views(cmds@) + goal.unwrap());
        }
    }
    while k < dts.len()
        invariant
            0 <= k <= dts@.len(),
            dv == datatypes_view(dts@),
            goal == datatypes_cmds(dv, 0),
            goal is Some <==> datatypes_cmds(dv, k as int) is Some,
            goal is Some ==> goal.unwrap() == sexp_views(cmds@) + datatypes_cmds(dv, k as int).unwrap(),
        decreases dts@.len() - k,
    {
        let ghost before = sexp_views(cmds@);
        proof {
            assert(dv[k as int] == (dts@[k as int].0@, ctors_view(dts@[k as int].1@)));
        }
        let a = constructors_commands(dts[k].0.as_str(), &dts[k].1);
        let ghost av = a;
        if !append_cmds(&mut cmds, a) {
            return None;
        }
        let ghost mid = sexp_views(cmds@);
        let b = disjointness_commands(dts[k].0.as_str(), &dts[k].1);
        let ghost bv = b;
        if !append_cmds(&mut cmds, b) {
            return None;
        }
        proof {
            let x = sexp_views(av.unwrap()@);
            let y = sexp_views(bv.unwrap()@);
            if datatypes_cmds(dv, k + 1) is Some {
                let z = datatypes_cmds(dv, k + 1).unwrap();
                assert(datatypes_cmds(dv, k as int).unwrap() == x + y + z);
                assert(before + (x + y + z) =~= sexp_views(cmds@) + z);
            }
        }
        k = k + 1;
    }
    proof {
        assert(sexp_views(cmds@) + Seq::<SexpV>::empty() =~= sexp_views(cmds@));
    }
    Some(cmds)
}

/// The relation of each function with its functionality axiom, from the
/// `k`-th function on; none where a signature has a function parameter or result.
pub open spec fn fun_decl_cmds(fs: Seq<(Seq<char>, (crate::ast::TypeV, Option<ExprV>, bool))>, k: int) -> Option<Seq<SexpV>>
    decreases fs.len() - k,
{
    if k < 0 || k >= fs.len() {
        Some(Seq::empty())
    } else {
        match fun_types(fs[k].1.0) {
            Some((ins, out)) => {
                let rel = fs[k].0 + "_rel"@;
                match (smt_of(functionality_of(rel, ins, out)), fun_decl_cmds(fs, k + 1)) {
                    (Some(a), Some(rest)) => Some(
                        seq![declare_fun_cmd(rel, sort_atoms(ins).push(sort_atom(out)), atom("Bool"@)), assert_cmd(a)] + rest,
                    ),
                    _ => None,
                }
            },
            None => None,
        }
    }
}

/// The map of the first `k` parameters to themselves.
pub open spec fn identity_map(ps: Seq<(Seq<char>, BaseTypeV)>, k: int) -> Seq<(Seq<char>, ExprV)>
    decreases k,
{
    if k <= 0 || k > ps.len() {
        Seq::empty()
    } else {
        assoc_insert(identity_map(ps, k - 1), ps[k - 1].0, ExprV::Var(ps[k - 1].0))
    }
}

/// The definitional axioms of a function, before the pipeline: none for a
/// function without a body or of result `Unit` (a lemma's body is a proof,
/// not a definition).
pub open spec fn raw_axioms(f: Seq<char>, sig: crate::ast::TypeV, body: Option<ExprV>) -> Option<Seq<ExprV>> {
    match fun_types(sig) {
        Some((_, out)) => if out == BaseTypeV::Unit || body is None {
            Some(Seq::empty())
        } else {
            match fun_params(sig) {
                Some(ps) => body_axioms(body.unwrap(), identity_map(ps, ps.len() as int), ps, f, ps, Seq::empty()),
                None => None,
            }
        },
        None => None,
    }
}

/// The assertions of axioms from the `i`-th on, each through the pipeline.
pub open spec fn axiom_cmds(axs: Seq<ExprV>, i: int, sigs: Seq<(Seq<char>, crate::ast::TypeV)>) -> Option<Seq<SexpV>>
    decreases axs.len() - i,
{
    if i < 0 || i >= axs.len() {
        Some(Seq::empty())
    } else if !abstractable(axs[i], 0) {
        None
    } else {
        match (smt_of(abstracted(axs[i], 0, sigs)), axiom_cmds(axs, i + 1, sigs)) {
            (Some(a), Some(rest)) => Some(seq![assert_cmd(a)] + rest),
            _ => None,
        }
    }
}

/// The definitional axioms of the functions from the `k`-th on.
pub open spec fn fun_axiom_cmds(fs: Seq<(Seq<char>, (crate::ast::TypeV, Option<ExprV>, bool))>, k: int, sigs: Seq<(Seq<char>, crate::ast::TypeV)>) -> Option<Seq<SexpV>>
    decreases fs.len() - k,
{
    if k < 0 || k >= fs.len() {
        Some(Seq::empty())
    } else {
        match raw_axioms(fs[k].0, fs[k].1.0, fs[k].1.1) {
            Some(axs) => match (axiom_cmds(axs, 0, sigs), fun_axiom_cmds(fs, k + 1, sigs)) {
                (Some(a), Some(rest)) => Some(a + rest),
                _ => None,
            },
            None => None,
        }
    }
}

/// The relation and functionality axiom of each function (see [`fun_decl_cmds`]).
fn function_decl_commands(fs: &Vec<(Ident, FunctionDef)>) -> (r: Option<Vec<Sexp>>)
    ensures
        fun_decl_cmds(fdefs_view(fs@), 0) == match r {
            Some(v) => Some(sexp_views(v@)),
            None => None,
        },
{
    let ghost fv = fdefs_view(fs@);
    let ghost goal = fun_decl_cmds(fv, 0);
    let mut cmds: Vec<Sexp> = Vec::new();
    let mut k: usize = 0;
    proof {
        if goal is Some {
            assert(goal.unwrap() =~= sexp_views(cmds@) + goal.unwrap());
        }
    }
    while k < fs.len()
        invariant
            0 <= k <= fs@.len(),
            fv == fdefs_view(fs@),
            goal == fun_decl_cmds(fv, 0),
            goal is Some <==> fun_decl_cmds(fv, k as int) is Some,
            goal is Some ==> goal.unwrap() == sexp_views(cmds@) + fun_decl_cmds(fv, k as int).unwrap(),
        decreases fs@.len() - k,
    {
        let ghost before = sexp_views(cmds@);
        proof {
            assert(fv[k as int].0 == fs@[k as int].0@);
            assert(fv[k as int].1.0 == fs@[k as int].1.signature@);
        }
        let (ins, out) = match get_fun_types(&fs[k].1.signature) {
            Some(p) => p,
            None => return None,
        };
        let mut rel = fs[k].0.clone();
        rel.append("_rel");
        let f = functionality_axiom(rel.as_str(), ins.as_slice(), &out);
        let a = match expr_to_smt(&f) {
            Some(a) => a,
            None => {
                proof {
                    assert(fun_decl_cmds(fv, k as int) is None);
                }
                return None;
            },
        };
        let d = declare_relation(rel.as_str(), &ins, &out);
        let ghost dv = d@;
        cmds.push(d);
        let asr = assertion(a);
        let ghost asv = asr@;
        cmds.push(asr);
        proof {
            assert(sexp_views(cmds@) =~= before + seq![dv, asv]);
            if fun_decl_cmds(fv, k + 1) is Some {
                let rest = fun_decl_cmds(fv, k + 1).unwrap();
                assert(fun_decl_cmds(fv, k as int).unwrap() == seq![dv, asv] + rest);
                assert(before + (seq![dv, asv] + rest) =~= sexp_views(cmds@) + rest);
            }
        }
        k = k + 1;
    }
    proof {
        assert(sexp_views(cmds@) + Seq::<SexpV>::empty() =~= sexp_views(cmds@));
    }
    Some(cmds)
}

/// The map of the parameters to themselves (see [`identity_map`]).
fn identity_args(ps: &Vec<(Ident, BaseType)>) -> (r: Vec<(Ident, Expr)>)
    ensures
        bindings_view(r@) == identity_map(binders_view(ps@), ps@.len() as int),
{
    let ghost pv = binders_view(ps@);
    let mut m: Vec<(Ident, Expr)> = Vec::new();
    let mut i: usize = 0;
    proof {
        assert(bindings_view(m@) =~= Seq::<(Seq<char>, ExprV)>::empty());
    }
    while i < ps.len()
        invariant
            0 <= i <= ps@.len(),
            pv == binders_view(ps@),
            bindings_view(m@) == identity_map(pv, i as int),
        decreases ps@.len() - i,
    {
        crate::smt::axioms_body::map_insert(&mut m, ps[i].0.clone(), Expr::Var(ps[i].0.clone()));
        i = i + 1;
    }
    m
}

/// The definitional axioms of one function, before the pipeline (see [`raw_axioms`]).
pub fn function_raw_axioms(f: &str, def: &FunctionDef) -> (r: Option<Vec<Expr>>)
    ensures
        raw_axioms(f@, def.signature@, match def.body {
            Some(b) => Some(b@),
            None => None,
        }) == match r {
            Some(v) => Some(expr_views(v@)),
            None => None,
        },
{
    let mut out: Vec<Expr> = Vec::new();
    proof {
        assert(expr_views(out@) =~= Seq::<ExprV>::empty());
    }
    let (_, res) = match get_fun_types(&def.signature) {
        Some(p) => p,
        None => return None,
    };
    let is_unit = match res {
        BaseType::Unit => true,
        _ => false,
    };
    if is_unit {
        return Some(out);
    }
    match &def.body {
        None => Some(out),
        Some(body) => {
            let params = match get_fun_params(&def.signature) {
                Some(ps) => ps,
                None => return None,
            };
            let m = identity_args(&params);
            let guards: Vec<Expr> = Vec::new();
            proof {
                assert(expr_views(guards@) =~= Seq::<ExprV>::empty());
            }
            if generate_axioms_from_body(body, &m, &params, f, &params, &guards, &mut out) {
                proof {
                    assert(Seq::<ExprV>::empty() + expr_views(out@) =~= expr_views(out@));
                }
                Some(out)
            } else {
                None
            }
        },
    }
}

/// The assertions of axioms through the pipeline (see [`axiom_cmds`]).
fn axiom_commands(axs: &Vec<Expr>, functions: &Vec<(Ident, FunctionDef)>) -> (r: Option<Vec<Sexp>>)
    ensures
        axiom_cmds(expr_views(axs@), 0, sigs_view(functions@)) == match r {
            Some(v) => Some(sexp_views(v@)),
            None => None,
        },
{
    let ghost av = expr_views(axs@);
    let ghost sigs = sigs_view(functions@);
    let ghost goal = axiom_cmds(av, 0, sigs);
    let mut cmds: Vec<Sexp> = Vec::new();
    let mut i: usize = 0;
    proof {
        if goal is Some {
            assert(goal.unwrap() =~= sexp_views(cmds@) + goal.unwrap());
        }
    }
    while i < axs.len()
        invariant
            0 <= i <= axs@.len(),
            av == expr_views(axs@),
            sigs == sigs_view(functions@),
            goal == axiom_cmds(av, 0, sigs),
            goal is Some <==> axiom_cmds(av, i as int, sigs) is Some,
            goal is Some ==> goal.unwrap() == sexp_views(cmds@) + axiom_cmds(av, i as int, sigs).unwrap(),
        decreases axs@.len() - i,
    {
        let ghost before = sexp_views(cmds@);
        let a = match abstract_formula(&axs[i], functions) {
            Some(a) => a,
            None => return None,
        };
        let s = match expr_to_smt(&a) {
            Some(s) => s,
            None => return None,
        };
        let c = assertion(s);
        let ghost cv = c@;
        cmds.push(c);
        proof {
            assert(sexp_views(cmds@) =~= before.push(cv));
            if axiom_cmds(av, i + 1, sigs) is Some {
                let rest = axiom_cmds(av, i + 1, sigs).unwrap();
                assert(axiom_cmds(av, i as int, sigs).unwrap() == seq![cv] + rest);
                assert(before + (seq![cv] + rest) =~= sexp_views(cmds@) + rest);
            }
        }
        i = i + 1;
    }
    proof {
        assert(sexp_views(cmds@) + Seq::<SexpV>::empty() =~= sexp_views(cmds@));
    }
    Some(cmds)
}

/// The definitional axioms of all functions (see [`fun_axiom_cmds`]).
fn function_axiom_commands(fs: &Vec<(Ident, FunctionDef)>) -> (r: Option<Vec<Sexp>>)
    ensures
        fun_axiom_cmds(fdefs_view(fs@), 0, sigs_view(fs@)) == match r {
            Some(v) => Some(sexp_views(v@)),
            None => None,
        },
{
    let ghost fv = fdefs_view(fs@);
    let ghost sigs = sigs_view(fs@);
    let ghost goal = fun_axiom_cmds(fv, 0, sigs);
    let mut cmds: Vec<Sexp> = Vec::new();
    let mut k: usize = 0;
    proof {
        if goal is Some {
            assert(goal.unwrap() =~= sexp_views(cmds@) + goal.unwrap());
        }
    }
    while k < fs.len()
        invariant
            0 <= k <= fs@.len(),
            fv == fdefs_view(fs@),
            sigs == sigs_view(fs@),
            goal == fun_axiom_cmds(fv, 0, sigs),
            goal is Some <==> fun_axiom_cmds(fv, k as int, sigs) is Some,
            goal is Some ==> goal.unwrap() == sexp_views(cmds@) + fun_axiom_cmds(fv, k as int, sigs).unwrap(),
        decreases fs@.len() - k,
    {
        let ghost before = sexp_views(cmds@);
        proof {
            assert(fv[k as int] == (fs@[k as int].0@, crate::api::fdef_view(fs@[k as int].1)));
        }
        let axs = match function_raw_axioms(fs[k].0.as_str(), &fs[k].1) {
            Some(v) => v,
            None => return None,
        };
        let more = axiom_commands(&axs, fs);
        let ghost mv = more;
        if !append_cmds(&mut cmds, more) {
            return None;
        }
        proof {
            let a = sexp_views(mv.unwrap()@);
            if fun_axiom_cmds(fv, k + 1, sigs) is Some {
                let rest = fun_axiom_cmds(fv, k + 1, sigs).unwrap();
                assert(fun_axiom_cmds(fv, k as int, sigs).unwrap() == a + rest);
                assert(before + (a + rest) =~= sexp_views(cmds@) + rest);
            }
        }
        k = k + 1;
    }
    proof {
        assert(sexp_views(cmds@) + Seq::<SexpV>::empty() =~= sexp_views(cmds@));
    }
    Some(cmds)
}

/// The commands every query opens with: the sort `Unit` and its value.
pub open spec fn prelude_cmds() -> Seq<SexpV> {
    seq![declare_sort_cmd("Unit"@), declare_const_cmd("unit_val"@, atom("Unit"@))]
}

/// A sort declaration for each enum.
pub open spec fn sort_cmds(dts: Seq<(Seq<char>, Seq<(Seq<char>, Seq<BaseTypeV>)>)>) -> Seq<SexpV> {
    Seq::new(dts.len(), |i: int| declare_sort_cmd(sort_text(BaseTypeV::Custom(dts[i].0))))
}

/// A constant for each skolem variable.
pub open spec fn skolem_cmds(vars: Seq<(Seq<char>, BaseTypeV)>) -> Seq<SexpV> {
    Seq::new(vars.len(), |i: int| declare_const_cmd(sanitized(vars[i].0), sort_atom(vars[i].1)))
}

/// An assertion for each formula from the `i`-th on; none where one cannot
/// be translated.
pub open spec fn assert_cmds(es: Seq<ExprV>, i: int) -> Option<Seq<SexpV>>
    decreases es.len() - i,
{
    if i < 0 || i >= es.len() {
        Some(Seq::empty())
    } else {
        match (smt_of(es[i]), assert_cmds(es, i + 1)) {
            (Some(a), Some(rest)) => Some(seq![assert_cmd(a)] + rest),
            _ => None,
        }
    }
}

/// The commands of a goal's query, in order: the prelude, the sorts, the
/// constructors with their axioms, the function relations with their
/// functionality axioms, the functions' definitional axioms, the skolem
/// constants, the hints, and the negated goal.
pub open spec fn query_cmds(
    dts: Seq<(Seq<char>, Seq<(Seq<char>, Seq<BaseTypeV>)>)>,
    fs: Seq<(Seq<char>, (crate::ast::TypeV, Option<ExprV>, bool))>,
    sigs: Seq<(Seq<char>, crate::ast::TypeV)>,
    vars: Seq<(Seq<char>, BaseTypeV)>,
    goal: ExprV,
    hints: Seq<ExprV>,
) -> Option<Seq<SexpV>> {
    match (datatypes_cmds(dts, 0), fun_decl_cmds(fs, 0), fun_axiom_cmds(fs, 0, sigs), assert_cmds(hints, 0), smt_of(goal)) {
        (Some(a), Some(b), Some(c), Some(d), Some(g)) => Some(
            prelude_cmds() + sort_cmds(dts) + a + b + c + skolem_cmds(vars) + d + seq![assert_cmd(g)],
        ),
        _ => None,
    }
}

/// The assertions of formulas (see [`assert_cmds`]).
fn assertion_commands(es: &Vec<Expr>) -> (r: Option<Vec<Sexp>>)
    ensures
        assert_cmds(expr_views(es@), 0) == match r {
            Some(v) => Some(sexp_views(v@)),
            None => None,
        },
{
    let ghost ev = expr_views(es@);
    let ghost goal = assert_cmds(ev, 0);
    let mut cmds: Vec<Sexp> = Vec::new();
    let mut i: usize = 0;
    proof {
        if goal is Some {
            assert(goal.unwrap() =~= sexp_views(cmds@) + goal.unwrap());
        }
    }
    while i < es.len()
        invariant
            0 <= i <= es@.len(),
            ev == expr_views(es@),
            goal == assert_cmds(ev, 0),
            goal is Some <==> assert_cmds(ev, i as int) is Some,
            goal is Some ==> goal.unwrap() == sexp_views(cmds@) + assert_cmds(ev, i as int).unwrap(),
        decreases es@.len() - i,
    {
        let ghost before = sexp_views(cmds@);
        let s = match expr_to_smt(&es[i]) {
            Some(s) => s,
            None => return None,
        };
        let c = assertion(s);
        let ghost cv = c@;
        cmds.push(c);
        proof {
            assert(sexp_views(cmds@) =~= before.push(cv));
            if assert_cmds(ev, i + 1) is Some {
                let rest = assert_cmds(ev, i + 1).unwrap();
                assert(assert_cmds(ev, i as int).unwrap() == seq![cv] + rest);
                assert(before + (seq![cv] + rest) =~= sexp_views(cmds@) + rest);
            }
        }
        i = i + 1;
    }
    proof {
        assert(sexp_views(cmds@) + Seq::<SexpV>::empty() =~= sexp_views(cmds@));
    }
    Some(cmds)
}

/// The query of a processed goal (see [`query_cmds`]); none where a part of
/// the program or of the goal cannot be encoded.
pub fn goal_query(program: &Program, goal: &ProcessedGoal) -> (r: Option<Query>)
    ensures
        ({
            let cmds = query_cmds(
                datatypes_view(program.datatypes@),
                fdefs_view(program.functions@),
                sigs_view(program.functions@),
                binders_view(goal.skolem_vars@),
                goal.relabs_expr@,
                expr_views(goal.instantiations@),
            );
            match r {
                Some(q) => cmds is Some && q.text() == logic_line() + commands_text(cmds.unwrap()),
                None => cmds is None,
            }
        }),
{
    let mut cmds: Vec<Sexp> = Vec::new();
    let unit = mk_atom("Unit");
    let mut p1: Vec<Sexp> = Vec::new();
    p1.push(mk_atom("declare-sort"));
    p1.push(mk_atom("Unit"));
    p1.push(mk_atom("0"));
    let c1 = Sexp::List(p1);
    let mut p2: Vec<Sexp> = Vec::new();
    p2.push(mk_atom("declare-const"));
    p2.push(mk_atom("unit_val"));
    p2.push(unit);
    let c2 = Sexp::List(p2);
    proof {
        assert(sexp_views(p1@) =~= declare_sort_cmd("Unit"@)->List_0);
        assert(sexp_views(p2@) =~= declare_const_cmd("unit_val"@, atom("Unit"@))->List_0);
    }
    cmds.push(c1);
    cmds.push(c2);
    proof {
        assert(sexp_views(cmds@) =~= prelude_cmds());
    }
    let ghost dv = datatypes_view(program.datatypes@);
    let mut k: usize = 0;
    while k < program.datatypes.len()
        invariant
            0 <= k <= program.datatypes@.len(),
            dv == datatypes_view(program.datatypes@),
            sexp_views(cmds@) =~= prelude_cmds() + sort_cmds(dv).take(k as int),
        decreases program.datatypes@.len() - k,
    {
        let ghost before = sexp_views(cmds@);
        let mut p: Vec<Sexp> = Vec::new();
        p.push(mk_atom("declare-sort"));
        p.push(Sexp::Atom(render_sort(&BaseType::Custom(program.datatypes[k].0.clone()))));
        p.push(mk_atom("0"));
        proof {
            assert(sexp_views(p@) =~= declare_sort_cmd(sort_text(BaseTypeV::Custom(dv[k as int].0)))->List_0);
        }
        cmds.push(Sexp::List(p));
        proof {
            assert(sexp_views(cmds@) =~= before.push(declare_sort_cmd(sort_text(BaseTypeV::Custom(dv[k as int].0)))));
        }
        k = k + 1;
    }
    proof {
        assert(sort_cmds(dv).take(k as int) =~= sort_cmds(dv));
    }
    let ghost s0 = sexp_views(cmds@);
    let a = datatype_commands(&program.datatypes);
    let ghost av = a;
    if !append_cmds(&mut cmds, a) {
        return None;
    }
    let b = function_decl_commands(&program.functions);
    let ghost bv = b;
    if !append_cmds(&mut cmds, b) {
        return None;
    }
    let c = function_axiom_commands(&program.functions);
    let ghost cv = c;
    if !append_cmds(&mut cmds, c) {
        return None;
    }
    let ghost s3 = sexp_views(cmds@);
    let ghost vv = binders_view(goal.skolem_vars@);
    let mut k: usize = 0;
    while k < goal.skolem_vars.len()
        invariant
            0 <= k <= goal.skolem_vars@.len(),
            vv == binders_view(goal.skolem_vars@),
            sexp_views(cmds@) =~= s3 + skolem_cmds(vv).take(k as int),
        decreases goal.skolem_vars@.len() - k,
    {
        let ghost before = sexp_views(cmds@);
        let c = declare_constant(sanitize_id(goal.skolem_vars[k].0.as_str()), &goal.skolem_vars[k].1);
        proof {
            assert(c@ == skolem_cmds(vv)[k as int]);
        }
        cmds.push(c);
        proof {
            assert(sexp_views(cmds@) =~= before.push(skolem_cmds(vv)[k as int]));
        }
        k = k + 1;
    }
    proof {
        assert(skolem_cmds(vv).take(k as int) =~= skolem_cmds(vv));
    }
    let d = assertion_commands(&goal.instantiations);
    let ghost dvv = d;
    if !append_cmds(&mut cmds, d) {
        return None;
    }
    let g = match expr_to_smt(&goal.relabs_expr) {
        Some(g) => g,
        None => return None,
    };
    let ga = assertion(g);
    let ghost gv = ga@;
    let ghost s5 = sexp_views(cmds@);
    cmds.push(ga);
    proof {
        assert(sexp_views(cmds@) =~= s5.push(gv));
        assert(sexp_views(cmds@) =~= prelude_cmds() + sort_cmds(dv) + sexp_views(av.unwrap()@) + sexp_views(bv.unwrap()@) + sexp_views(
            cv.unwrap()@,
        ) + skolem_cmds(vv) + sexp_views(dvv.unwrap()@) + seq![gv]);
    }
    let mut q = Query::new();
    let ghost all = sexp_views(cmds@);
    let mut i: usize = 0;
    proof {
        assert(all.take(0) =~= Seq::<SexpV>::empty());
        assert(logic_line() + commands_text(all.take(0)) =~= logic_line());
    }
    while i < cmds.len()
        invariant
            0 <= i <= cmds@.len(),
            all == sexp_views(cmds@),
            q.text() == logic_line() + commands_text(all.take(i as int)),
        decreases cmds@.len() - i,
    {
        q.push_command(&cmds[i]);
        proof {
            assert(all.take(i + 1).drop_last() =~= all.take(i as int));
            assert(all.take(i + 1).last() == cmds@[i as int]@);
        }
        i = i + 1;
    }
    proof {
        assert(all.take(i as int) =~= all);
    }
    Some(q)
}

} // verus!
