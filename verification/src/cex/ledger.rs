//! The instantiated-terms ledger: the failed query's instantiation list,
//! grouped by origin. Origins are recomputed with the same ground-term
//! collector the type checker uses, run on each piece of the dissected VC:
//! the goal (core and assumptions), each hypothesis, the path conditions, and
//! what no piece yields: the hints the user gave by hand. A term goes to the
//! first group that claims it (goal, then hypotheses in order, then patterns,
//! then hints) and keeps its place in the instantiation order.

use vstd::prelude::*;
use crate::ast::{BinOp, Expr, ExprV, expr_views};
use crate::auto_inst::{collect_ground_terms, contains_expr, ground_terms};
use crate::cex::dissect::{Core, CoreV, Hypothesis, VcParts, hyps_view};
use crate::cex::print::{is_term, print_term, term_text, terms_texts, lemma_terms_texts};
use crate::text::{join, append_joined};

verus! {

broadcast use vstd::std_specs::vec::group_vec_axioms, crate::ast::group_ast_views;

/// The ground terms of each expression, concatenated.
pub open spec fn ground_of_all(es: Seq<ExprV>) -> Seq<ExprV>
    decreases es.len(),
{
    if es.len() == 0 {
        Seq::empty()
    } else {
        ground_of_all(es.drop_last()) + ground_terms(es.last())
    }
}

/// The terms the goal claims: those of its core, then of its assumptions.
pub open spec fn goal_claims(core: CoreV, assumptions: Seq<ExprV>) -> Seq<ExprV> {
    let c = match core {
        CoreV::Eq(l, r) => ground_terms(l) + ground_terms(r),
        CoreV::Bool(a) => ground_terms(a),
        CoreV::Opaque(e) => ground_terms(e),
    };
    c + ground_of_all(assumptions)
}

/// The terms a hypothesis claims: those of its fact, then of its gate.
pub open spec fn hyp_claims(h: (Option<ExprV>, ExprV)) -> Seq<ExprV> {
    ground_terms(h.1) + match h.0 {
        Some(g) => ground_terms(g),
        None => Seq::empty(),
    }
}

/// The claim lists of the hypotheses.
pub open spec fn hyps_claims(hyps: Seq<(Option<ExprV>, ExprV)>) -> Seq<Seq<ExprV>> {
    Seq::new(hyps.len(), |j: int| hyp_claims(hyps[j]))
}

/// The index of the first claim list holding `t`, or the number of lists.
pub open spec fn first_claim(t: ExprV, hcs: Seq<Seq<ExprV>>) -> int
    decreases hcs.len(),
{
    if hcs.len() == 0 {
        0
    } else if hcs[0].contains(t) {
        0
    } else {
        1 + first_claim(t, hcs.skip(1))
    }
}

/// The group of a term: 0 for the goal, `1 + i` for hypothesis `i`,
/// `n + 1` for the patterns and `n + 2` for the hints, with `n` hypotheses.
pub open spec fn origin(t: ExprV, gc: Seq<ExprV>, hcs: Seq<Seq<ExprV>>, pc: Seq<ExprV>) -> int {
    if gc.contains(t) {
        0
    } else if first_claim(t, hcs) < hcs.len() {
        1 + first_claim(t, hcs)
    } else if pc.contains(t) {
        hcs.len() as int + 1
    } else {
        hcs.len() as int + 2
    }
}

/// The terms whose group is `c`, in order.
pub open spec fn select(ts: Seq<ExprV>, codes: Seq<int>, c: int) -> Seq<ExprV>
    decreases ts.len(),
{
    if ts.len() == 0 || codes.len() != ts.len() {
        Seq::empty()
    } else if codes.last() == c {
        select(ts.drop_last(), codes.drop_last(), c).push(ts.last())
    } else {
        select(ts.drop_last(), codes.drop_last(), c)
    }
}

/// A fact as it labels a group: an equality as `l == r`, else the term.
pub open spec fn fact_text(f: ExprV) -> Seq<char> {
    match f {
        ExprV::BinOp { op: BinOp::Eq, left, right } => term_text(*left) + " == "@ + term_text(*right),
        _ => term_text(f),
    }
}

/// Whether a fact can be rendered: the sides of an equality, or the fact
/// itself, are terms.
pub open spec fn fact_renderable(f: ExprV) -> bool {
    match f {
        ExprV::BinOp { op: BinOp::Eq, left, right } => is_term(*left) && is_term(*right),
        _ => is_term(f),
    }
}

/// The label of a hypothesis group.
pub open spec fn hyp_label(h: (Option<ExprV>, ExprV)) -> Seq<char> {
    match h.0 {
        Some(g) => "from the hypothesis implies("@ + fact_text(g) + ", "@ + fact_text(h.1) + "):"@,
        None => "from the hypothesis "@ + fact_text(h.1) + ":"@,
    }
}

/// A group: nothing when empty, else its label and its terms on two lines.
pub open spec fn group_text(label: Seq<char>, ts: Seq<ExprV>) -> Seq<char> {
    if ts.len() == 0 {
        Seq::empty()
    } else {
        ";   "@ + label + "\n"@ + ";     "@ + join("   "@, terms_texts(ts)) + "\n"@
    }
}

/// The groups of the first `k` hypotheses.
pub open spec fn hyp_groups_text(hyps: Seq<(Option<ExprV>, ExprV)>, ts: Seq<ExprV>, codes: Seq<int>, k: int) -> Seq<char>
    decreases k,
{
    if k <= 0 {
        Seq::empty()
    } else {
        hyp_groups_text(hyps, ts, codes, k - 1) + group_text(hyp_label(hyps[k - 1]), select(ts, codes, k))
    }
}

/// The groups of every instantiated term.
pub open spec fn ledger_codes(core: CoreV, assumptions: Seq<ExprV>, hyps: Seq<(Option<ExprV>, ExprV)>, pcs: Seq<ExprV>, ts: Seq<ExprV>) -> Seq<int> {
    Seq::new(
        ts.len(),
        |i: int| origin(ts[i], goal_claims(core, assumptions), hyps_claims(hyps), ground_of_all(pcs)),
    )
}

/// The ledger comment block.
pub open spec fn ledger_text(core: CoreV, assumptions: Seq<ExprV>, hyps: Seq<(Option<ExprV>, ExprV)>, pcs: Seq<ExprV>, ts: Seq<ExprV>) -> Seq<char> {
    let codes = ledger_codes(core, assumptions, hyps, pcs, ts);
    let n = hyps.len() as int;
    "; instantiated terms:\n"@
        + group_text("from the goal:"@, select(ts, codes, 0))
        + hyp_groups_text(hyps, ts, codes, n)
        + group_text("from patterns:"@, select(ts, codes, n + 1))
        + group_text("user hints (instantiate!):"@, select(ts, codes, n + 2))
}

/// The ground terms of each expression of the list, concatenated.
fn ground_of_list(es: &Vec<Expr>) -> (r: Vec<Expr>)
    ensures
        expr_views(r@) == ground_of_all(expr_views(es@)),
{
    let ghost ev = expr_views(es@);
    let mut out: Vec<Expr> = Vec::new();
    let mut i: usize = 0;
    proof {
        assert(ev.take(0) =~= Seq::<ExprV>::empty());
        assert(expr_views(out@) =~= Seq::<ExprV>::empty());
    }
    while i < es.len()
        invariant
            0 <= i <= es@.len(),
            ev == expr_views(es@),
            expr_views(out@) == ground_of_all(ev.take(i as int)),
        decreases es@.len() - i,
    {
        let mut g = collect_ground_terms(&es[i]);
        let ghost a = out@;
        let ghost b = g@;
        out.append(&mut g);
        proof {
            assert(ev.take(i + 1).drop_last() =~= ev.take(i as int));
            assert(expr_views(out@) =~= expr_views(a) + expr_views(b));
        }
        i = i + 1;
    }
    proof {
        assert(ev.take(i as int) =~= ev);
    }
    out
}

/// The terms the goal claims.
fn goal_claim_terms(parts: &VcParts) -> (r: Vec<Expr>)
    ensures
        expr_views(r@) == goal_claims(parts.goal.core@, expr_views(parts.goal.assumptions@)),
{
    let mut claims = match &parts.goal.core {
        Core::Eq(l, r) => {
            let mut a = collect_ground_terms(l);
            let mut b = collect_ground_terms(r);
            let ghost av = a@;
            let ghost bv = b@;
            a.append(&mut b);
            proof {
                assert(expr_views(a@) =~= expr_views(av) + expr_views(bv));
            }
            a
        },
        Core::Bool(t) => collect_ground_terms(t),
        Core::Opaque(t) => collect_ground_terms(t),
    };
    let mut more = ground_of_list(&parts.goal.assumptions);
    let ghost cv = claims@;
    let ghost mv = more@;
    claims.append(&mut more);
    proof {
        assert(expr_views(claims@) =~= expr_views(cv) + expr_views(mv));
    }
    claims
}

/// The terms a hypothesis claims.
fn hypothesis_claim_terms(h: &Hypothesis) -> (r: Vec<Expr>)
    ensures
        expr_views(r@) == hyp_claims(h@),
{
    let mut claims = collect_ground_terms(&h.fact);
    match &h.gate {
        Some(g) => {
            let mut more = collect_ground_terms(g);
            let ghost cv = claims@;
            let ghost mv = more@;
            claims.append(&mut more);
            proof {
                assert(expr_views(claims@) =~= expr_views(cv) + expr_views(mv));
            }
        },
        None => {
            proof {
                assert(expr_views(claims@) + Seq::<ExprV>::empty() =~= expr_views(claims@));
            }
        },
    }
    claims
}

/// Renders a fact for a group label.
fn render_fact(f: &Expr) -> (r: String)
    requires
        fact_renderable(f@),
    ensures
        r@ == fact_text(f@),
{
    match f {
        Expr::BinOp { op: BinOp::Eq, left, right } => {
            proof {
                assert(f@ == ExprV::BinOp { op: BinOp::Eq, left: Box::new(left@), right: Box::new(right@) });
                reveal_strlit(" == ");
            }
            let mut out = print_term(left);
            out.append(" == ");
            let r = print_term(right);
            out.append(r.as_str());
            out
        },
        _ => {
            proof {
                if let Expr::BinOp { op, left, right } = f {
                    assert(f@ == ExprV::BinOp { op: *op, left: Box::new(left@), right: Box::new(right@) });
                }
            }
            print_term(f)
        },
    }
}

/// The label of a hypothesis group.
fn hypothesis_label(h: &Hypothesis) -> (r: String)
    requires
        fact_renderable(h.fact@),
        h.gate matches Some(g) ==> fact_renderable(g@),
    ensures
        r@ == hyp_label(h@),
{
    let fact = render_fact(&h.fact);
    match &h.gate {
        Some(g) => {
            proof {
                reveal_strlit("from the hypothesis implies(");
                reveal_strlit(", ");
                reveal_strlit("):");
            }
            let gate = render_fact(g);
            let mut out = String::from_str("from the hypothesis implies(");
            out.append(gate.as_str());
            out.append(", ");
            out.append(fact.as_str());
            out.append("):");
            out
        },
        None => {
            proof {
                reveal_strlit("from the hypothesis ");
                reveal_strlit(":");
            }
            let mut out = String::from_str("from the hypothesis ");
            out.append(fact.as_str());
            out.append(":");
            out
        },
    }
}

/// The index of the first claim list holding `t`, or the number of lists.
fn first_claim_index(t: &Expr, hcs: &Vec<Vec<Expr>>, Ghost(hv): Ghost<Seq<Seq<ExprV>>>) -> (r: usize)
    requires
        hv.len() == hcs@.len(),
        forall|j: int| 0 <= j < hcs@.len() ==> #[trigger] hv[j] == expr_views(hcs@[j]@),
    ensures
        r as int == first_claim(t@, hv),
{
    let mut j: usize = 0;
    proof {
        assert(hv.skip(0) =~= hv);
    }
    while j < hcs.len()
        invariant
            0 <= j <= hcs@.len(),
            hv.len() == hcs@.len(),
            forall|k: int| 0 <= k < hcs@.len() ==> #[trigger] hv[k] == expr_views(hcs@[k]@),
            first_claim(t@, hv) == j + first_claim(t@, hv.skip(j as int)),
        decreases hcs@.len() - j,
    {
        proof {
            assert(hv.skip(j as int)[0] == hv[j as int]);
            assert(hv.skip(j as int).skip(1) =~= hv.skip(j + 1));
        }
        if contains_expr(&hcs[j], t) {
            return j;
        }
        j = j + 1;
    }
    proof {
        assert(hv.skip(j as int).len() == 0);
    }
    j
}

/// Renders the group of the terms whose code is `c`.
fn render_group(out: &mut String, label: &str, ts: &Vec<Expr>, codes: &Vec<usize>, c: usize, Ghost(cv): Ghost<Seq<int>>)
    requires
        codes@.len() == ts@.len(),
        cv.len() == codes@.len(),
        forall|i: int| 0 <= i < cv.len() ==> #[trigger] cv[i] == codes@[i] as int,
        forall|i: int| 0 <= i < ts@.len() ==> is_term(#[trigger] ts@[i]@),
    ensures
        final(out)@ == old(out)@ + group_text(label@, select(expr_views(ts@), cv, c as int)),
{
    let ghost tv = expr_views(ts@);
    let mut line = String::new();
    let mut count: usize = 0;
    let mut i: usize = 0;
    proof {
        reveal_strlit("   ");
        assert(tv.take(0) =~= Seq::<ExprV>::empty());
    }
    while i < ts.len()
        invariant
            0 <= i <= ts@.len(),
            codes@.len() == ts@.len(),
            cv.len() == codes@.len(),
            tv == expr_views(ts@),
            forall|k: int| 0 <= k < cv.len() ==> #[trigger] cv[k] == codes@[k] as int,
            forall|k: int| 0 <= k < ts@.len() ==> is_term(#[trigger] ts@[k]@),
            count <= i,
            count as int == select(tv.take(i as int), cv.take(i as int), c as int).len(),
            line@ == join("   "@, terms_texts(select(tv.take(i as int), cv.take(i as int), c as int))),
        decreases ts@.len() - i,
    {
        let ghost before = select(tv.take(i as int), cv.take(i as int), c as int);
        proof {
            assert(tv.take(i + 1).drop_last() =~= tv.take(i as int));
            assert(cv.take(i + 1).drop_last() =~= cv.take(i as int));
            assert(tv.take(i + 1).last() == ts@[i as int]@);
            assert(cv.take(i + 1).last() == codes@[i as int] as int);
        }
        if codes[i] == c {
            let t = print_term(&ts[i]);
            proof {
                lemma_terms_texts(before);
                lemma_terms_texts(before.push(ts@[i as int]@));
                assert(terms_texts(before.push(ts@[i as int]@)) =~= terms_texts(before).push(t@));
            }
            append_joined(&mut line, "   ", t.as_str(), count == 0, Ghost(terms_texts(before)));
            count = count + 1;
        }
        i = i + 1;
    }
    proof {
        assert(tv.take(i as int) =~= tv);
        assert(cv.take(i as int) =~= cv);
    }
    if count > 0 {
        proof {
            reveal_strlit(";   ");
            reveal_strlit("\n");
            reveal_strlit(";     ");
        }
        out.append(";   ");
        out.append(label);
        out.append("\n");
        out.append(";     ");
        out.append(line.as_str());
        out.append("\n");
        proof {
            assert(final(out)@ =~= old(out)@ + group_text(label@, select(tv, cv, c as int)));
        }
    } else {
        proof {
            assert(old(out)@ + Seq::<char>::empty() =~= old(out)@);
        }
    }
}

/// Renders the ledger comment block of a dissected VC and the query's
/// instantiation list.
pub fn print_ledger(parts: &VcParts, instantiations: &Vec<Expr>) -> (r: String)
    requires
        forall|i: int| 0 <= i < instantiations@.len() ==> is_term(#[trigger] instantiations@[i]@),
        forall|i: int| 0 <= i < parts.hypotheses@.len() ==> fact_renderable(#[trigger] parts.hypotheses@[i].fact@),
        forall|i: int| 0 <= i < parts.hypotheses@.len() ==> (#[trigger] parts.hypotheses@[i].gate matches Some(g) ==> fact_renderable(g@)),
        parts.hypotheses@.len() + 2 < usize::MAX,
    ensures
        r@ == ledger_text(
            parts.goal.core@,
            expr_views(parts.goal.assumptions@),
            hyps_view(parts.hypotheses@),
            expr_views(parts.path_conds@),
            expr_views(instantiations@),
        ),
{
    let ghost hyps = hyps_view(parts.hypotheses@);
    let ghost ts = expr_views(instantiations@);
    let n = parts.hypotheses.len();
    let goal_claims_v = goal_claim_terms(parts);
    let pattern_claims = ground_of_list(&parts.path_conds);
    let mut hcs: Vec<Vec<Expr>> = Vec::new();
    let mut labels: Vec<String> = Vec::new();
    let ghost hv = hyps_claims(hyps);
    let mut j: usize = 0;
    while j < n
        invariant
            0 <= j <= n,
            n == parts.hypotheses@.len(),
            hyps == hyps_view(parts.hypotheses@),
            hv == hyps_claims(hyps),
            hcs@.len() == j,
            labels@.len() == j,
            forall|k: int| 0 <= k < j ==> #[trigger] expr_views(hcs@[k]@) == hv[k],
            forall|k: int| 0 <= k < j ==> (#[trigger] labels@[k])@ == hyp_label(hyps[k]),
            forall|i: int| 0 <= i < parts.hypotheses@.len() ==> fact_renderable(#[trigger] parts.hypotheses@[i].fact@),
            forall|i: int| 0 <= i < parts.hypotheses@.len() ==> (#[trigger] parts.hypotheses@[i].gate matches Some(g) ==> fact_renderable(g@)),
        decreases n - j,
    {
        let h = &parts.hypotheses[j];
        let c = hypothesis_claim_terms(h);
        let l = hypothesis_label(h);
        hcs.push(c);
        labels.push(l);
        j = j + 1;
    }
    let ghost gc = goal_claims(parts.goal.core@, expr_views(parts.goal.assumptions@));
    let ghost pc = ground_of_all(expr_views(parts.path_conds@));
    let ghost codes_v = ledger_codes(parts.goal.core@, expr_views(parts.goal.assumptions@), hyps, expr_views(parts.path_conds@), ts);
    let mut codes: Vec<usize> = Vec::new();
    let mut i: usize = 0;
    while i < instantiations.len()
        invariant
            0 <= i <= instantiations@.len(),
            n == parts.hypotheses@.len(),
            hyps == hyps_view(parts.hypotheses@),
            ts == expr_views(instantiations@),
            hv == hyps_claims(hyps),
            hcs@.len() == n,
            forall|k: int| 0 <= k < n ==> #[trigger] expr_views(hcs@[k]@) == hv[k],
            expr_views(goal_claims_v@) == gc,
            expr_views(pattern_claims@) == pc,
            gc == goal_claims(parts.goal.core@, expr_views(parts.goal.assumptions@)),
            pc == ground_of_all(expr_views(parts.path_conds@)),
            codes_v == ledger_codes(parts.goal.core@, expr_views(parts.goal.assumptions@), hyps, expr_views(parts.path_conds@), ts),
            codes@.len() == i,
            forall|k: int| 0 <= k < i ==> #[trigger] codes@[k] as int == codes_v[k],
            n + 2 < usize::MAX,
        decreases instantiations@.len() - i,
    {
        let t = &instantiations[i];
        let code: usize = if contains_expr(&goal_claims_v, t) {
            0
        } else {
            let f = first_claim_index(t, &hcs, Ghost(hv));
            if f < n {
                f + 1
            } else if contains_expr(&pattern_claims, t) {
                n + 1
            } else {
                n + 2
            }
        };
        proof {
            assert(codes_v[i as int] == origin(ts[i as int], gc, hv, pc));
        }
        codes.push(code);
        i = i + 1;
    }
    proof {
        reveal_strlit("; instantiated terms:\n");
        reveal_strlit("from the goal:");
        reveal_strlit("from patterns:");
        reveal_strlit("user hints (instantiate!):");
    }
    let mut out = String::from_str("; instantiated terms:\n");
    render_group(&mut out, "from the goal:", instantiations, &codes, 0, Ghost(codes_v));
    let mut k: usize = 0;
    let ghost head = out@;
    while k < n
        invariant
            0 <= k <= n,
            n == parts.hypotheses@.len(),
            n + 2 < usize::MAX,
            hyps == hyps_view(parts.hypotheses@),
            ts == expr_views(instantiations@),
            labels@.len() == n,
            forall|q: int| 0 <= q < n ==> (#[trigger] labels@[q])@ == hyp_label(hyps[q]),
            codes@.len() == instantiations@.len(),
            codes_v.len() == codes@.len(),
            forall|q: int| 0 <= q < codes_v.len() ==> #[trigger] codes_v[q] == codes@[q] as int,
            forall|q: int| 0 <= q < instantiations@.len() ==> is_term(#[trigger] instantiations@[q]@),
            out@ == head + hyp_groups_text(hyps, ts, codes_v, k as int),
        decreases n - k,
    {
        render_group(&mut out, labels[k].as_str(), instantiations, &codes, k + 1, Ghost(codes_v));
        proof {
            assert(out@ =~= head + hyp_groups_text(hyps, ts, codes_v, k + 1));
        }
        k = k + 1;
    }
    render_group(&mut out, "from patterns:", instantiations, &codes, n + 1, Ghost(codes_v));
    render_group(&mut out, "user hints (instantiate!):", instantiations, &codes, n + 2, Ghost(codes_v));
    proof {
        assert(out@ =~= ledger_text(
            parts.goal.core@,
            expr_views(parts.goal.assumptions@),
            hyps,
            expr_views(parts.path_conds@),
            ts,
        ));
    }
    out
}

} // verus!
