//! Counterexample rendering: everything a failed goal is explained with,
//! written in the vocabulary of the user's source program.
//!
//! [`emit_text`] assembles the counterexample file of a failed goal: a
//! header (lemma, goal, branch), the definitions of the functions involved,
//! the declarations, the branch's pattern bindings, the ledger of
//! instantiated terms, and the facts that hold in the countermodel with the
//! negated goal. The file explains; it is not fed back to a solver.

pub mod defs;
pub mod dissect;
pub mod ledger;
pub mod order;
pub mod print;

use vstd::prelude::*;
use crate::api::{datatypes_view, fdefs_view};
use crate::ast::{BinOp, Expr, ExprV, Goal, Program, UnOp, binders_view, expr_views};
use crate::cex::defs::{definitions_text, expr_math, try_print_definitions, render_expr, subst_view};
use crate::cex::dissect::{
    Core, CoreV, VcParts, classify, conjuncts, dissect, goal_assumptions, goal_core, hyps_of, hyps_view, is_vc_shape,
    path_conds_of, vc_context, vc_goal,
};
use crate::cex::ledger::{fact_renderable, ledger_text, print_ledger};
use crate::cex::order::listing;
use crate::cex::order::texts;
use crate::cex::print::{check_term, collect_args, declarations_text, is_term, try_print_declarations, print_term, term_text, terms_funcs};
use crate::text::{append_joined, join};

verus! {

broadcast use vstd::std_specs::vec::group_vec_axioms, crate::ast::group_ast_views;

/// Whether `_vc_` starts at position `k` of `s`.
pub open spec fn vc_at(s: Seq<char>, k: int) -> bool {
    0 <= k && k + 4 <= s.len() && s.subrange(k, k + 4) == "_vc_"@
}

/// The last position at or before `k` where `_vc_` starts; -1 if none.
pub open spec fn last_vc(s: Seq<char>, k: int) -> int
    decreases k + 1,
{
    if k < 0 {
        -1
    } else if vc_at(s, k) {
        k
    } else {
        last_vc(s, k - 1)
    }
}

/// The lemma line: `name_vc_6` as `name   [vc 6]`, split at the last
/// `_vc_`; any other name as it is.
pub open spec fn lemma_text(name: Seq<char>) -> Seq<char> {
    let k = last_vc(name, name.len() - 4);
    if k >= 0 {
        name.take(k) + "   [vc "@ + name.skip(k + 4) + "]"@
    } else {
        name
    }
}

/// Two math texts around an infix.
pub open spec fn infix(l: Option<Seq<char>>, op: Seq<char>, r: Option<Seq<char>>) -> Option<Seq<char>> {
    match (l, r) {
        (Some(a), Some(b)) => Some(a + op + b),
        _ => None,
    }
}

/// A fact in math style: an equality as `a == b`, a disequality or a
/// negated equality as `a != b`, another negation as `!` before the fact,
/// anything else as a term.
pub open spec fn math_fact(f: ExprV) -> Option<Seq<char>>
    decreases f,
{
    match f {
        ExprV::BinOp { op: BinOp::Eq, left, right } => infix(expr_math(*left, Seq::empty()), " == "@, expr_math(*right, Seq::empty())),
        ExprV::BinOp { op: BinOp::Neq, left, right } => infix(expr_math(*left, Seq::empty()), " != "@, expr_math(*right, Seq::empty())),
        ExprV::UnOp { op: UnOp::Not, expr } => match *expr {
            ExprV::BinOp { op: BinOp::Eq, left, right } => infix(expr_math(*left, Seq::empty()), " != "@, expr_math(*right, Seq::empty())),
            inner => match math_fact(inner) {
                Some(t) => Some("!"@ + t),
                None => None,
            },
        },
        _ => expr_math(f, Seq::empty()),
    }
}

/// The core of the goal in math style; an unrecognized shape by its debug
/// text.
pub open spec fn core_text(c: CoreV) -> Option<Seq<char>> {
    match c {
        CoreV::Eq(l, r) => infix(expr_math(l, Seq::empty()), " == "@, expr_math(r, Seq::empty())),
        CoreV::Bool(a) => expr_math(a, Seq::empty()),
        CoreV::Opaque(e) => Some(crate::show::expr_debug(e)),
    }
}

/// The goal line: the assumptions from the `i`-th on, each followed by
/// ` ==> `, then the core.
pub open spec fn goal_text(assumed: Seq<ExprV>, i: int, core: CoreV) -> Option<Seq<char>>
    decreases assumed.len() - i,
{
    if i < 0 || i >= assumed.len() {
        core_text(core)
    } else {
        match (math_fact(assumed[i]), goal_text(assumed, i + 1, core)) {
            (Some(a), Some(rest)) => Some(a + " ==> "@ + rest),
            _ => None,
        }
    }
}

/// The sides of the path conditions from the `i`-th on in math style,
/// `x = C(..)`; None where one is not an equality or cannot be shown.
pub open spec fn branch_parts(pcs: Seq<ExprV>, i: int) -> Option<Seq<Seq<char>>>
    decreases pcs.len() - i,
{
    if i < 0 || i >= pcs.len() {
        Some(Seq::empty())
    } else {
        let this = match pcs[i] {
            ExprV::BinOp { op: BinOp::Eq, left, right } => infix(expr_math(*left, Seq::empty()), " = "@, expr_math(*right, Seq::empty())),
            _ => None,
        };
        match (this, branch_parts(pcs, i + 1)) {
            (Some(a), Some(rest)) => Some(seq![a] + rest),
            _ => None,
        }
    }
}

/// A fact holding in the countermodel, as an s-expression: `(= a b)`,
/// `(distinct a b)`, `(not ..)`, or a boolean atom as `(= atom true)`.
/// None where a side is not a term.
pub open spec fn holding_fact(f: ExprV) -> Option<Seq<char>>
    decreases f,
{
    match f {
        ExprV::BinOp { op: BinOp::Eq, left, right } => if is_term(*left) && is_term(*right) {
            Some("(= "@ + term_text(*left) + " "@ + term_text(*right) + ")"@)
        } else {
            None
        },
        ExprV::BinOp { op: BinOp::Neq, left, right } => if is_term(*left) && is_term(*right) {
            Some("(distinct "@ + term_text(*left) + " "@ + term_text(*right) + ")"@)
        } else {
            None
        },
        ExprV::UnOp { op: UnOp::Not, expr } => match holding_fact(*expr) {
            Some(t) => Some("(not "@ + t + ")"@),
            None => None,
        },
        _ => if is_term(f) {
            Some("(= "@ + term_text(f) + " true)"@)
        } else {
            None
        },
    }
}

/// The assertions of the path conditions from the `i`-th on:
/// `(assert (= x C))`.
pub open spec fn pc_asserts(pcs: Seq<ExprV>, i: int) -> Option<Seq<char>>
    decreases pcs.len() - i,
{
    if i < 0 || i >= pcs.len() {
        Some(Seq::empty())
    } else {
        let this = match pcs[i] {
            ExprV::BinOp { op: BinOp::Eq, left, right } => if is_term(*left) && is_term(*right) {
                Some("(assert (= "@ + term_text(*left) + " "@ + term_text(*right) + "))\n"@)
            } else {
                None
            },
            _ => None,
        };
        match (this, pc_asserts(pcs, i + 1)) {
            (Some(a), Some(rest)) => Some(a + rest),
            _ => None,
        }
    }
}

/// The assertions of the goal's assumptions from the `i`-th on.
pub open spec fn assumption_asserts(assumed: Seq<ExprV>, i: int) -> Option<Seq<char>>
    decreases assumed.len() - i,
{
    if i < 0 || i >= assumed.len() {
        Some(Seq::empty())
    } else {
        match (holding_fact(assumed[i]), assumption_asserts(assumed, i + 1)) {
            (Some(a), Some(rest)) => Some("(assert "@ + a + ")\n"@ + rest),
            _ => None,
        }
    }
}

/// The negated goal: an equality asserted distinct, an atom asserted
/// false; an unrecognized shape gets a comment instead.
pub open spec fn core_assert(c: CoreV) -> Option<Seq<char>> {
    match c {
        CoreV::Eq(l, r) => if is_term(l) && is_term(r) {
            Some("(assert (distinct "@ + term_text(l) + " "@ + term_text(r) + "))\n"@)
        } else {
            None
        },
        CoreV::Bool(a) => if is_term(a) {
            Some("(assert (= "@ + term_text(a) + " false))\n"@)
        } else {
            None
        },
        CoreV::Opaque(_) => Some("; goal shape not recognized; negated-goal assert omitted\n"@),
    }
}

/// Whether the ledger can be printed: every hypothesis and its gate can be
/// shown, and their number leaves room for the group codes.
pub open spec fn ledger_ok(hyps: Seq<(Option<ExprV>, ExprV)>) -> bool {
    &&& forall|i: int| 0 <= i < hyps.len() ==> fact_renderable(#[trigger] hyps[i].1)
    &&& forall|i: int| 0 <= i < hyps.len() ==> (#[trigger] hyps[i].0 matches Some(g) ==> fact_renderable(g))
    &&& hyps.len() + 2 < usize::MAX
}

/// The file from its parts: header, branch line where there is a branch,
/// definitions where there are any, declarations, path assertions where
/// there is a branch, ledger, and the facts and negated goal.
pub open spec fn assembled(
    name: Seq<char>,
    g: Seq<char>,
    branch: Option<Seq<char>>,
    defs: Seq<char>,
    decls: Seq<char>,
    pca: Seq<char>,
    ledger: Seq<char>,
    asa: Seq<char>,
    ca: Seq<char>,
) -> Seq<char> {
    "; ravencheck counterexample\n"@
    + "; lemma  : "@ + lemma_text(name) + "\n"@
    + "; goal   : "@ + g + "\n"@
    + (match branch { Some(b) => "; branch : "@ + b + "\n"@, None => Seq::empty() })
    + (if defs.len() > 0 { ";\n"@ + defs } else { Seq::empty() })
    + "\n"@ + decls
    + (if branch is Some { "\n"@ + pca } else { Seq::empty() })
    + "\n"@ + ledger
    + "\n"@ + asa + ca + "(check-sat)\n"@
}

/// The counterexample file of a failed goal. None where the goal's
/// property is not `forall .. (context ==> goal)`, an instantiated term is
/// not a term, or a part cannot be shown (see the functions above), and
/// where the hypotheses are too many to number.
pub open spec fn emit_spec(
    dts: crate::cex::print::DatatypesV,
    fs: crate::cex::print::FunctionsV,
    name: Seq<char>,
    prop: ExprV,
    ts: Seq<ExprV>,
) -> Option<Seq<char>> {
    if !is_vc_shape(prop) {
        None
    } else if !(forall|k: int| 0 <= k < ts.len() ==> is_term(#[trigger] ts[k])) {
        None
    } else {
        let cs = conjuncts(vc_context(prop));
        let pcs = path_conds_of(cs);
        let hyps = hyps_of(cs);
        let assumed = goal_assumptions(vc_goal(prop));
        let core = classify(goal_core(vc_goal(prop)));
        let skolems = prop->Forall_binders;
        if !ledger_ok(hyps) {
            None
        } else {
            match (
                goal_text(assumed, 0, core),
                branch_parts(pcs, 0),
                definitions_text(fs, listing(terms_funcs(ts, ts.len() as int))),
                declarations_text(dts, fs, ts, skolems),
                pc_asserts(pcs, 0),
                assumption_asserts(assumed, 0),
                core_assert(core),
            ) {
                (Some(g), Some(br), Some(defs), Some(decls), Some(pca), Some(asa), Some(ca)) => Some(assembled(
                    name,
                    g,
                    if pcs.len() > 0 { Some(join(", "@, br)) } else { None },
                    defs,
                    decls,
                    pca,
                    ledger_text(core, assumed, hyps, pcs, ts),
                    asa,
                    ca,
                )),
                _ => None,
            }
        }
    }
}

/// The lemma line of a goal's name (see [`lemma_text`]).
fn lemma_line(name: &String) -> (r: String)
    ensures
        r@ == lemma_text(name@),
{
    let n = name.as_str().unicode_len();
    proof {
        reveal_strlit("_vc_");
        reveal_strlit("   [vc ");
        reveal_strlit("]");
    }
    if n < 4 {
        proof {
            assert(last_vc(name@, name@.len() - 4) == -1);
        }
        return name.clone();
    }
    let mut k: usize = n - 3;
    while k > 0
        invariant
            n == name@.len(),
            n >= 4,
            0 <= k <= n - 3,
            last_vc(name@, n - 4) == last_vc(name@, k - 1),
        decreases k,
    {
        proof {
            reveal_strlit("_vc_");
        }
        let at = k - 1;
        let s = name.as_str();
        if s.get_char(at) == '_' && s.get_char(at + 1) == 'v' && s.get_char(at + 2) == 'c' && s.get_char(at + 3) == '_' {
            proof {
                assert(name@.subrange(at as int, at + 4) =~= "_vc_"@);
            }
            let base = s.substring_char(0, at);
            let num = s.substring_char(at + 4, n);
            let mut out = String::from_str(base);
            out.append("   [vc ");
            out.append(num);
            out.append("]");
            proof {
                assert(base@ =~= name@.take(at as int));
                assert(num@ =~= name@.skip(at + 4));
            }
            return out;
        }
        proof {
            if vc_at(name@, at as int) {
                assert(name@.subrange(at as int, at + 4)[0] == name@[at as int]);
                assert(name@.subrange(at as int, at + 4)[1] == name@[at + 1]);
                assert(name@.subrange(at as int, at + 4)[2] == name@[at + 2]);
                assert(name@.subrange(at as int, at + 4)[3] == name@[at + 3]);
            }
        }
        k = k - 1;
    }
    name.clone()
}

/// The math text of an expression without substitution.
fn math_of(e: &Expr) -> (r: Option<String>)
    ensures
        expr_math(e@, Seq::empty()) == match r {
            Some(t) => Some(t@),
            None => None,
        },
{
    let none: Vec<(String, String)> = Vec::new();
    proof {
        assert(subst_view(none@) =~= Seq::<(Seq<char>, Seq<char>)>::empty());
    }
    render_expr(e, &none)
}

/// Two math texts around an infix (see [`infix`]).
fn math_infix(l: &Expr, op: &str, r: &Expr) -> (out: Option<String>)
    ensures
        infix(expr_math(l@, Seq::empty()), op@, expr_math(r@, Seq::empty())) == match out {
            Some(t) => Some(t@),
            None => None,
        },
{
    let a = match math_of(l) {
        Some(a) => a,
        None => {
            return None;
        },
    };
    let b = match math_of(r) {
        Some(b) => b,
        None => {
            return None;
        },
    };
    let mut out = a;
    out.append(op);
    out.append(b.as_str());
    Some(out)
}

/// A fact in math style (see [`math_fact`]).
fn math_fact_text(f: &Expr) -> (r: Option<String>)
    ensures
        math_fact(f@) == match r {
            Some(t) => Some(t@),
            None => None,
        },
    decreases f,
{
    match f {
        Expr::BinOp { op, left, right } => {
            proof {
                assert(f@ == ExprV::BinOp { op: *op, left: Box::new((**left)@), right: Box::new((**right)@) });
            }
            match op {
                BinOp::Eq => math_infix(left, " == ", right),
                BinOp::Neq => math_infix(left, " != ", right),
                _ => math_of(f),
            }
        },
        Expr::UnOp { op, expr } => {
            proof {
                assert(f@ == ExprV::UnOp { op: *op, expr: Box::new((**expr)@) });
            }
            match op {
                UnOp::Not => match &**expr {
                    Expr::BinOp { op: inner_op, left, right } => {
                        proof {
                            assert((**expr)@ == ExprV::BinOp { op: *inner_op, left: Box::new((**left)@), right: Box::new((**right)@) });
                        }
                        if let BinOp::Eq = inner_op {
                            math_infix(left, " != ", right)
                        } else {
                            match math_fact_text(expr) {
                                Some(t) => {
                                    let mut out = String::from_str("!");
                                    out.append(t.as_str());
                                    Some(out)
                                },
                                None => None,
                            }
                        }
                    },
                    _ => match math_fact_text(expr) {
                        Some(t) => {
                            let mut out = String::from_str("!");
                            out.append(t.as_str());
                            Some(out)
                        },
                        None => None,
                    },
                },
            }
        },
        _ => {
            proof {
                assert(!(f@ is BinOp) && !(f@ is UnOp));
            }
            math_of(f)
        },
    }
}

/// The core in math style (see [`core_text`]).
fn core_math(c: &Core) -> (r: Option<String>)
    ensures
        core_text(c@) == match r {
            Some(t) => Some(t@),
            None => None,
        },
{
    match c {
        Core::Eq(l, r) => math_infix(l, " == ", r),
        Core::Bool(a) => math_of(a),
        Core::Opaque(e) => Some(crate::show::expr_text(e)),
    }
}

/// The goal line (see [`goal_text`]).
fn goal_line(assumed: &Vec<Expr>, core: &Core) -> (r: Option<String>)
    ensures
        goal_text(expr_views(assumed@), 0, core@) == match r {
            Some(t) => Some(t@),
            None => None,
        },
{
    let ghost av = expr_views(assumed@);
    let mut acc = match core_math(core) {
        Some(t) => t,
        None => {
            proof {
                lemma_goal_text_none(av, av.len() as int, core@);
            }
            return None;
        },
    };
    let mut i: usize = assumed.len();
    while i > 0
        invariant
            0 <= i <= assumed@.len(),
            av == expr_views(assumed@),
            goal_text(av, i as int, core@) == Some(acc@),
        decreases i,
    {
        i = i - 1;
        match math_fact_text(&assumed[i]) {
            Some(t) => {
                let mut next = t;
                next.append(" ==> ");
                next.append(acc.as_str());
                acc = next;
            },
            None => {
                proof {
                    lemma_goal_text_none(av, i as int, core@);
                }
                return None;
            },
        }
    }
    Some(acc)
}

/// A failing assumption makes the goal line fail.
proof fn lemma_goal_text_none(assumed: Seq<ExprV>, i: int, core: CoreV)
    requires
        0 <= i <= assumed.len(),
        goal_text(assumed, i, core) is None,
    ensures
        goal_text(assumed, 0, core) is None,
    decreases i,
{
    if i > 0 {
        lemma_goal_text_none(assumed, i - 1, core);
    }
}

/// The branch line's parts (see [`branch_parts`]), joined by `, `.
fn branch_line(pcs: &Vec<Expr>) -> (r: Option<String>)
    ensures
        match branch_parts(expr_views(pcs@), 0) {
            Some(parts) => r matches Some(t) && t@ == join(", "@, parts),
            None => r is None,
        },
{
    let ghost pv = expr_views(pcs@);
    let ghost mut acc: Seq<Seq<char>> = Seq::empty();
    let mut out = String::new();
    let mut i: usize = 0;
    proof {
        match branch_parts(pv, 0) {
            Some(rest) => {
                assert(acc + rest =~= rest);
            },
            None => {},
        }
    }
    while i < pcs.len()
        invariant
            0 <= i <= pcs@.len(),
            pv == expr_views(pcs@),
            acc.len() == i,
            out@ == join(", "@, acc),
            branch_parts(pv, 0) == crate::cex::defs::prepend(acc, branch_parts(pv, i as int)),
        decreases pcs@.len() - i,
    {
        let part = match &pcs[i] {
            Expr::BinOp { op: BinOp::Eq, left, right } => math_infix(left, " = ", right),
            _ => None,
        };
        match part {
            Some(t) => {
                append_joined(&mut out, ", ", t.as_str(), i == 0, Ghost(acc));
                proof {
                    match branch_parts(pv, i + 1) {
                        Some(rest) => {
                            assert(acc + (seq![t@] + rest) =~= acc.push(t@) + rest);
                        },
                        None => {},
                    }
                    acc = acc.push(t@);
                }
            },
            None => {
                return None;
            },
        }
        i = i + 1;
    }
    proof {
        assert(acc + Seq::<Seq<char>>::empty() =~= acc);
    }
    Some(out)
}

/// `open + a + " " + b + close` for two terms; None where one is not a
/// term.
fn term_pair(open: &str, a: &Expr, b: &Expr, close: &str) -> (r: Option<String>)
    ensures
        (if is_term(a@) && is_term(b@) {
            Some(open@ + term_text(a@) + " "@ + term_text(b@) + close@)
        } else {
            None
        }) == match r {
            Some(t) => Some(t@),
            None => None,
        },
{
    if !check_term(a) || !check_term(b) {
        return None;
    }
    proof {
        reveal_strlit(" ");
    }
    let mut out = String::from_str(open);
    out.append(print_term(a).as_str());
    out.append(" ");
    out.append(print_term(b).as_str());
    out.append(close);
    Some(out)
}

/// A fact holding in the countermodel (see [`holding_fact`]).
fn holding_fact_sexpr(f: &Expr) -> (r: Option<String>)
    ensures
        holding_fact(f@) == match r {
            Some(t) => Some(t@),
            None => None,
        },
    decreases f,
{
    match f {
        Expr::BinOp { op, left, right } => {
            proof {
                assert(f@ == ExprV::BinOp { op: *op, left: Box::new((**left)@), right: Box::new((**right)@) });
            }
            match op {
                BinOp::Eq => term_pair("(= ", left, right, ")"),
                BinOp::Neq => term_pair("(distinct ", left, right, ")"),
                _ => atom_holds(f),
            }
        },
        Expr::UnOp { op, expr } => {
            proof {
                assert(f@ == ExprV::UnOp { op: *op, expr: Box::new((**expr)@) });
            }
            match holding_fact_sexpr(expr) {
                Some(t) => {
                    let mut out = String::from_str("(not ");
                    out.append(t.as_str());
                    out.append(")");
                    Some(out)
                },
                None => None,
            }
        },
        _ => {
            proof {
                assert(!(f@ is BinOp) && !(f@ is UnOp));
            }
            atom_holds(f)
        },
    }
}

/// `(= atom true)`; None where `f` is not a term.
fn atom_holds(f: &Expr) -> (r: Option<String>)
    ensures
        (if is_term(f@) {
            Some("(= "@ + term_text(f@) + " true)"@)
        } else {
            None
        }) == match r {
            Some(t) => Some(t@),
            None => None,
        },
{
    if !check_term(f) {
        return None;
    }
    let mut out = String::from_str("(= ");
    out.append(print_term(f).as_str());
    out.append(" true)");
    Some(out)
}

/// The assertions of the path conditions (see [`pc_asserts`]).
fn path_asserts(pcs: &Vec<Expr>) -> (r: Option<String>)
    ensures
        pc_asserts(expr_views(pcs@), 0) == match r {
            Some(t) => Some(t@),
            None => None,
        },
{
    let ghost pv = expr_views(pcs@);
    let mut out = String::new();
    let mut i: usize = 0;
    proof {
        match pc_asserts(pv, 0) {
            Some(rest) => {
                assert(out@ + rest =~= rest);
            },
            None => {},
        }
    }
    while i < pcs.len()
        invariant
            0 <= i <= pcs@.len(),
            pv == expr_views(pcs@),
            pc_asserts(pv, 0) == crate::cex::defs::prepend(out@, pc_asserts(pv, i as int)),
        decreases pcs@.len() - i,
    {
        let part = match &pcs[i] {
            Expr::BinOp { op: BinOp::Eq, left, right } => term_pair("(assert (= ", left, right, "))\n"),
            _ => None,
        };
        match part {
            Some(t) => {
                proof {
                    match pc_asserts(pv, i + 1) {
                        Some(rest) => {
                            assert(out@ + (t@ + rest) =~= (out@ + t@) + rest);
                        },
                        None => {},
                    }
                }
                out.append(t.as_str());
            },
            None => {
                return None;
            },
        }
        i = i + 1;
    }
    proof {
        assert(out@ + Seq::<char>::empty() =~= out@);
    }
    Some(out)
}

/// The assertions of the goal's assumptions (see [`assumption_asserts`]).
fn assumed_asserts(assumed: &Vec<Expr>) -> (r: Option<String>)
    ensures
        assumption_asserts(expr_views(assumed@), 0) == match r {
            Some(t) => Some(t@),
            None => None,
        },
{
    let ghost av = expr_views(assumed@);
    let mut out = String::new();
    let mut i: usize = 0;
    proof {
        match assumption_asserts(av, 0) {
            Some(rest) => {
                assert(out@ + rest =~= rest);
            },
            None => {},
        }
    }
    while i < assumed.len()
        invariant
            0 <= i <= assumed@.len(),
            av == expr_views(assumed@),
            assumption_asserts(av, 0) == crate::cex::defs::prepend(out@, assumption_asserts(av, i as int)),
        decreases assumed@.len() - i,
    {
        match holding_fact_sexpr(&assumed[i]) {
            Some(t) => {
                proof {
                    reveal_strlit("(assert ");
                    reveal_strlit(")\n");
                }
                let ghost piece = "(assert "@ + t@ + ")\n"@;
                proof {
                    match assumption_asserts(av, i + 1) {
                        Some(rest) => {
                            assert(out@ + (piece + rest) =~= (out@ + piece) + rest);
                        },
                        None => {},
                    }
                }
                let ghost before = out@;
                out.append("(assert ");
                out.append(t.as_str());
                out.append(")\n");
                proof {
                    assert(out@ =~= before + piece);
                }
            },
            None => {
                return None;
            },
        }
        i = i + 1;
    }
    proof {
        assert(out@ + Seq::<char>::empty() =~= out@);
    }
    Some(out)
}

/// The negated goal (see [`core_assert`]).
fn core_assert_text(c: &Core) -> (r: Option<String>)
    ensures
        core_assert(c@) == match r {
            Some(t) => Some(t@),
            None => None,
        },
{
    match c {
        Core::Eq(l, r) => term_pair("(assert (distinct ", l, r, "))\n"),
        Core::Bool(a) => {
            if !check_term(a) {
                return None;
            }
            let mut out = String::from_str("(assert (= ");
            out.append(print_term(a).as_str());
            out.append(" false))\n");
            Some(out)
        },
        Core::Opaque(_) => Some(String::from_str("; goal shape not recognized; negated-goal assert omitted\n")),
    }
}

/// Whether a fact can be shown (see [`fact_renderable`]).
fn renderable(f: &Expr) -> (r: bool)
    ensures
        r == fact_renderable(f@),
{
    match f {
        Expr::BinOp { op: BinOp::Eq, left, right } => {
            proof {
                assert(f@ == ExprV::BinOp { op: BinOp::Eq, left: Box::new((**left)@), right: Box::new((**right)@) });
            }
            check_term(left) && check_term(right)
        },
        _ => {
            proof {
                assert(!(f@ matches ExprV::BinOp { op: BinOp::Eq, .. }));
            }
            check_term(f)
        },
    }
}

/// Whether a property has the shape `forall .. (context ==> goal)`.
fn vc_shaped(p: &Expr) -> (r: bool)
    ensures
        r == is_vc_shape(p@),
{
    match p {
        Expr::Forall { binders, body } => {
            proof {
                assert(p@ == ExprV::Forall { binders: binders_view(binders@), body: Box::new((**body)@) });
            }
            match &**body {
                Expr::BinOp { op: BinOp::Implies, left, right } => {
                    proof {
                        assert((**body)@ == ExprV::BinOp { op: BinOp::Implies, left: Box::new((**left)@), right: Box::new((**right)@) });
                    }
                    true
                },
                Expr::BinOp { op, left, right } => {
                    proof {
                        assert((**body)@ == ExprV::BinOp { op: *op, left: Box::new((**left)@), right: Box::new((**right)@) });
                    }
                    false
                },
                _ => {
                    proof {
                        assert(!((**body)@ is BinOp));
                    }
                    false
                },
            }
        },
        _ => {
            proof {
                assert(!(p@ is Forall));
            }
            false
        },
    }
}

/// Whether every instantiated term is a term.
fn all_terms(ts: &Vec<Expr>) -> (r: bool)
    ensures
        r == (forall|k: int| 0 <= k < ts@.len() ==> is_term(#[trigger] expr_views(ts@)[k])),
{
    let mut i: usize = 0;
    while i < ts.len()
        invariant
            0 <= i <= ts@.len(),
            forall|k: int| 0 <= k < i ==> is_term(#[trigger] expr_views(ts@)[k]),
        decreases ts@.len() - i,
    {
        if !check_term(&ts[i]) {
            proof {
                assert(expr_views(ts@)[i as int] == ts@[i as int]@);
            }
            return false;
        }
        i = i + 1;
    }
    true
}

/// Whether the ledger can be printed for these hypotheses (see
/// [`ledger_ok`]).
fn ledger_printable(parts: &VcParts) -> (r: bool)
    ensures
        r == ledger_ok(hyps_view(parts.hypotheses@)),
{
    let ghost hv = hyps_view(parts.hypotheses@);
    if parts.hypotheses.len() >= usize::MAX - 2 {
        return false;
    }
    let mut i: usize = 0;
    while i < parts.hypotheses.len()
        invariant
            0 <= i <= parts.hypotheses@.len(),
            hv == hyps_view(parts.hypotheses@),
            forall|k: int| 0 <= k < i ==> fact_renderable(#[trigger] hv[k].1),
            forall|k: int| 0 <= k < i ==> (#[trigger] hv[k].0 matches Some(g) ==> fact_renderable(g)),
        decreases parts.hypotheses@.len() - i,
    {
        proof {
            assert(hv[i as int] == parts.hypotheses@[i as int]@);
        }
        if !renderable(&parts.hypotheses[i].fact) {
            proof {
                assert(hv[i as int].1 == parts.hypotheses@[i as int].fact@);
                assert(!fact_renderable(hv[i as int].1));
            }
            return false;
        }
        match &parts.hypotheses[i].gate {
            Some(g) => {
                if !renderable(g) {
                    proof {
                        assert(hv[i as int].0 == Some(g@));
                    }
                    return false;
                }
            },
            None => {},
        }
        i = i + 1;
    }
    true
}

/// The counterexample file of a failed goal (see [`emit_spec`]).
#[verifier::rlimit(100)]
#[verifier::spinoff_prover]
pub fn emit_text(program: &Program, goal: &Goal) -> (r: Option<String>)
    ensures
        emit_spec(
            datatypes_view(program.datatypes@),
            fdefs_view(program.functions@),
            goal.name@,
            goal.property@,
            expr_views(goal.instantiations@),
        ) == match r {
            Some(t) => Some(t@),
            None => None,
        },
{
    let ghost ts = expr_views(goal.instantiations@);
    if !vc_shaped(&goal.property) {
        return None;
    }
    if !all_terms(&goal.instantiations) {
        return None;
    }
    let parts = dissect(&goal.property);
    if !ledger_printable(&parts) {
        return None;
    }
    let g = match goal_line(&parts.goal.assumptions, &parts.goal.core) {
        Some(t) => t,
        None => {
            return None;
        },
    };
    let br = match branch_line(&parts.path_conds) {
        Some(t) => t,
        None => {
            return None;
        },
    };
    let mut funcs: Vec<String> = Vec::new();
    let mut enums: Vec<String> = Vec::new();
    proof {
        assert(texts(funcs@) =~= Seq::<Seq<char>>::empty());
        assert(texts(enums@) =~= Seq::<Seq<char>>::empty());
    }
    collect_args(&goal.instantiations, &mut funcs, &mut enums);
    proof {
        assert(texts(funcs@) =~= terms_funcs(ts, ts.len() as int));
    }
    let defs = match try_print_definitions(program, &funcs) {
        Some(t) => t,
        None => {
            return None;
        },
    };
    let decls = match try_print_declarations(program, &goal.instantiations, &parts.skolems) {
        Some(t) => t,
        None => {
            return None;
        },
    };
    let pca = match path_asserts(&parts.path_conds) {
        Some(t) => t,
        None => {
            return None;
        },
    };
    let asa = match assumed_asserts(&parts.goal.assumptions) {
        Some(t) => t,
        None => {
            return None;
        },
    };
    let ca = match core_assert_text(&parts.goal.core) {
        Some(t) => t,
        None => {
            return None;
        },
    };
    proof {
        assert forall|i: int| 0 <= i < goal.instantiations@.len() implies is_term(#[trigger] goal.instantiations@[i]@) by {
            assert(ts[i] == goal.instantiations@[i]@);
        }
        let hv = hyps_view(parts.hypotheses@);
        assert forall|i: int| 0 <= i < parts.hypotheses@.len() implies fact_renderable(#[trigger] parts.hypotheses@[i].fact@) by {
            assert(hv[i].1 == parts.hypotheses@[i].fact@);
        }
        assert forall|i: int| 0 <= i < parts.hypotheses@.len() implies (#[trigger] parts.hypotheses@[i].gate matches Some(g) ==> fact_renderable(g@)) by {
            assert(hv[i] == parts.hypotheses@[i]@);
            match parts.hypotheses@[i].gate {
                Some(g) => {
                    assert(hv[i].0 == Some(g@));
                },
                None => {},
            }
        }
    }
    let ledger = print_ledger(&parts, &goal.instantiations);
    let branch = if parts.path_conds.len() > 0 { Some(br) } else { None };
    Some(assemble(&goal.name, &g, &branch, &defs, &decls, &pca, &ledger, &asa, &ca))
}

/// Puts the file together from its parts (see [`assembled`]).
fn assemble(
    name: &String,
    g: &String,
    branch: &Option<String>,
    defs: &String,
    decls: &String,
    pca: &String,
    ledger: &String,
    asa: &String,
    ca: &String,
) -> (r: String)
    ensures
        r@ == assembled(
            name@,
            g@,
            match branch {
                Some(b) => Some(b@),
                None => None,
            },
            defs@,
            decls@,
            pca@,
            ledger@,
            asa@,
            ca@,
        ),
{
    let mut out = String::from_str("; ravencheck counterexample\n");
    out.append("; lemma  : ");
    out.append(lemma_line(name).as_str());
    out.append("\n");
    out.append("; goal   : ");
    out.append(g.as_str());
    out.append("\n");
    let ghost head = out@;
    match branch {
        Some(b) => {
            out.append("; branch : ");
            out.append(b.as_str());
            out.append("\n");
        },
        None => {},
    }
    let ghost with_branch = out@;
    if defs.as_str().unicode_len() > 0 {
        out.append(";\n");
        out.append(defs.as_str());
    }
    let ghost with_defs = out@;
    out.append("\n");
    out.append(decls.as_str());
    let ghost with_decls = out@;
    if branch.is_some() {
        out.append("\n");
        out.append(pca.as_str());
    }
    let ghost with_pca = out@;
    out.append("\n");
    out.append(ledger.as_str());
    out.append("\n");
    out.append(asa.as_str());
    out.append(ca.as_str());
    out.append("(check-sat)\n");
    proof {
        assert(with_branch =~= head + (match branch {
            Some(b) => "; branch : "@ + b@ + "\n"@,
            None => Seq::empty(),
        }));
        assert(with_defs =~= with_branch + (if defs@.len() > 0 { ";\n"@ + defs@ } else { Seq::empty() }));
        assert(with_pca =~= with_decls + (if branch is Some { "\n"@ + pca@ } else { Seq::empty() }));
    }
    out
}

} // verus!
