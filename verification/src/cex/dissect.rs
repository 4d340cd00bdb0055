//! The VC dissector: breaks a goal's property, shaped
//! `forall binders. context => goal`, into the pieces a counterexample is
//! explained with: the skolem variables, the path conditions (pattern
//! bindings `var == Constructor(..)`), the hypotheses (the other context
//! facts, possibly gated by `implies(gate, fact)`), and the goal, whose nested
//! implications are peeled into assumptions around a classified core.

use vstd::prelude::*;
use crate::ast::{BaseType, BinOp, Expr, ExprV, Ident, binders_view, clone_binders, expr_views};

verus! {

broadcast use vstd::std_specs::vec::group_vec_axioms, crate::ast::group_ast_views;

/// A dissected VC.
#[derive(Debug)]
pub struct VcParts {
    /// The binders of the outer `forall`, verbatim.
    pub skolems: Vec<(Ident, BaseType)>,
    /// Conjuncts of shape `var == Constructor(..)`.
    pub path_conds: Vec<Expr>,
    /// The remaining context facts.
    pub hypotheses: Vec<Hypothesis>,
    pub goal: GoalShape,
}

/// One context fact; a fact written `implies(gate, fact)` carries its gate.
#[derive(Debug)]
pub struct Hypothesis {
    pub gate: Option<Expr>,
    pub fact: Expr,
}

/// The goal: the antecedents peeled off it, and the falsified core.
#[derive(Debug)]
pub struct GoalShape {
    pub assumptions: Vec<Expr>,
    pub core: Core,
}

/// The core of a goal.
#[derive(Debug)]
pub enum Core {
    /// `lhs == rhs`
    Eq(Expr, Expr),
    /// A bare boolean atom: a predicate call or a variable.
    Bool(Expr),
    /// Any other shape.
    Opaque(Expr),
}

pub enum CoreV {
    Eq(ExprV, ExprV),
    Bool(ExprV),
    Opaque(ExprV),
}

impl View for Core {
    type V = CoreV;

    open spec fn view(&self) -> CoreV {
        match *self {
            Core::Eq(l, r) => CoreV::Eq(l@, r@),
            Core::Bool(a) => CoreV::Bool(a@),
            Core::Opaque(e) => CoreV::Opaque(e@),
        }
    }
}

impl View for Hypothesis {
    type V = (Option<ExprV>, ExprV);

    open spec fn view(&self) -> (Option<ExprV>, ExprV) {
        (
            match self.gate {
                Some(g) => Some(g@),
                None => None,
            },
            self.fact@,
        )
    }
}

/// The views of a list of hypotheses.
pub open spec fn hyps_view(hs: Seq<Hypothesis>) -> Seq<(Option<ExprV>, ExprV)> {
    Seq::new(hs.len(), |i: int| hs[i]@)
}

/// The conjuncts of an `&&` tree, without filler `true`s.
pub open spec fn conjuncts(e: ExprV) -> Seq<ExprV>
    decreases e,
{
    match e {
        ExprV::BinOp { op: BinOp::And, left, right } => conjuncts(*left) + conjuncts(*right),
        ExprV::BoolConst(true) => Seq::empty(),
        _ => seq![e],
    }
}

/// A pattern binding: `var == Constructor(..)`.
pub open spec fn is_path_cond(e: ExprV) -> bool {
    match e {
        ExprV::BinOp { op: BinOp::Eq, left, right } => (*left is Var) && (*right is Constructor),
        _ => false,
    }
}

/// A context fact as a hypothesis: `implies(g, f)` is `f` gated by `g`.
pub open spec fn hyp_of(e: ExprV) -> (Option<ExprV>, ExprV) {
    match e {
        ExprV::BinOp { op: BinOp::Implies, left, right } => (Some(*left), *right),
        _ => (None, e),
    }
}

/// The path conditions among some conjuncts, in order.
pub open spec fn path_conds_of(cs: Seq<ExprV>) -> Seq<ExprV>
    decreases cs.len(),
{
    if cs.len() == 0 {
        Seq::empty()
    } else if is_path_cond(cs.last()) {
        path_conds_of(cs.drop_last()).push(cs.last())
    } else {
        path_conds_of(cs.drop_last())
    }
}

/// The hypotheses among some conjuncts, in order.
pub open spec fn hyps_of(cs: Seq<ExprV>) -> Seq<(Option<ExprV>, ExprV)>
    decreases cs.len(),
{
    if cs.len() == 0 {
        Seq::empty()
    } else if is_path_cond(cs.last()) {
        hyps_of(cs.drop_last())
    } else {
        hyps_of(cs.drop_last()).push(hyp_of(cs.last()))
    }
}

/// The antecedents of the nested implications of a goal, outermost first.
pub open spec fn goal_assumptions(g: ExprV) -> Seq<ExprV>
    decreases g,
{
    match g {
        ExprV::BinOp { op: BinOp::Implies, left, right } => seq![*left] + goal_assumptions(*right),
        _ => Seq::empty(),
    }
}

/// What is left of a goal under its nested implications.
pub open spec fn goal_core(g: ExprV) -> ExprV
    decreases g,
{
    match g {
        ExprV::BinOp { op: BinOp::Implies, left, right } => goal_core(*right),
        _ => g,
    }
}

/// The classification of a core.
pub open spec fn classify(c: ExprV) -> CoreV {
    match c {
        ExprV::BinOp { op: BinOp::Eq, left, right } => CoreV::Eq(*left, *right),
        ExprV::Call { .. } => CoreV::Bool(c),
        ExprV::Var(_) => CoreV::Bool(c),
        _ => CoreV::Opaque(c),
    }
}

/// Whether a property has the shape `forall binders. context => goal`.
pub open spec fn is_vc_shape(p: ExprV) -> bool {
    p matches ExprV::Forall { body, .. } && (*body matches ExprV::BinOp { op: BinOp::Implies, .. })
}

/// The context of a VC.
pub open spec fn vc_context(p: ExprV) -> ExprV {
    match p {
        ExprV::Forall { body, .. } => match *body {
            ExprV::BinOp { left, .. } => *left,
            _ => p,
        },
        _ => p,
    }
}

/// The goal of a VC.
pub open spec fn vc_goal(p: ExprV) -> ExprV {
    match p {
        ExprV::Forall { body, .. } => match *body {
            ExprV::BinOp { right, .. } => *right,
            _ => p,
        },
        _ => p,
    }
}

/// Flattens an `&&` tree into its conjuncts, dropping filler `true`s.
fn flatten_and(e: &Expr) -> (r: Vec<Expr>)
    ensures
        expr_views(r@) == conjuncts(e@),
    decreases e,
{
    match e {
        Expr::BinOp { op: BinOp::And, left, right } => {
            let mut out = flatten_and(left);
            let mut rest = flatten_and(right);
            let ghost a = out@;
            let ghost b = rest@;
            out.append(&mut rest);
            proof {
                assert(e@ == ExprV::BinOp { op: BinOp::And, left: Box::new(left@), right: Box::new(right@) });
                assert(expr_views(out@) =~= expr_views(a) + expr_views(b));
            }
            out
        },
        Expr::BoolConst(true) => {
            proof {
                assert(expr_views(Seq::<Expr>::empty()) =~= Seq::<ExprV>::empty());
            }
            Vec::new()
        },
        _ => {
            let mut out = Vec::new();
            out.push(e.deep_clone());
            proof {
                assert(!(e@ is BoolConst && e@->BoolConst_0) && !(e@ matches ExprV::BinOp { op: BinOp::And, .. })) by {
                    match e {
                        Expr::BoolConst(b) => {},
                        Expr::BinOp { op, left, right } => {
                            assert(e@ == ExprV::BinOp { op: *op, left: Box::new(left@), right: Box::new(right@) });
                        },
                        _ => {},
                    }
                }
                assert(expr_views(out@) =~= seq![e@]);
            }
            out
        },
    }
}

/// Whether `e` is a pattern binding `var == Constructor(..)`.
fn is_path_condition(e: &Expr) -> (r: bool)
    ensures
        r == is_path_cond(e@),
{
    match e {
        Expr::BinOp { op: BinOp::Eq, left, right } => {
            proof {
                assert(e@ == ExprV::BinOp { op: BinOp::Eq, left: Box::new(left@), right: Box::new(right@) });
            }
            let l = match &**left {
                Expr::Var(_) => true,
                _ => false,
            };
            let r = match &**right {
                Expr::Constructor { .. } => true,
                _ => false,
            };
            l && r
        },
        Expr::BinOp { op, left, right } => {
            proof {
                assert(e@ == ExprV::BinOp { op: *op, left: Box::new(left@), right: Box::new(right@) });
            }
            false
        },
        _ => false,
    }
}

/// Peels the nested implications of a goal into `assumptions` and
/// classifies what is left.
fn dissect_goal(goal: &Expr, assumptions: &mut Vec<Expr>) -> (r: Core)
    ensures
        expr_views(final(assumptions)@) == expr_views(old(assumptions)@) + goal_assumptions(goal@),
        r@ == classify(goal_core(goal@)),
    decreases goal,
{
    match goal {
        Expr::BinOp { op: BinOp::Implies, left, right } => {
            proof {
                assert(goal@ == ExprV::BinOp { op: BinOp::Implies, left: Box::new(left@), right: Box::new(right@) });
            }
            let ghost before = assumptions@;
            assumptions.push(left.deep_clone());
            let ghost mid = assumptions@;
            let c = dissect_goal(right, assumptions);
            proof {
                assert(expr_views(mid) =~= expr_views(before).push(left@));
                assert(expr_views(before) + goal_assumptions(goal@) =~= expr_views(before).push(left@) + goal_assumptions(right@));
            }
            c
        },
        _ => {
            proof {
                assert(goal_assumptions(goal@) == Seq::<ExprV>::empty() && goal_core(goal@) == goal@) by {
                    if let Expr::BinOp { op, left, right } = goal {
                        assert(goal@ == ExprV::BinOp { op: *op, left: Box::new(left@), right: Box::new(right@) });
                    }
                }
                assert(expr_views(assumptions@) + Seq::<ExprV>::empty() =~= expr_views(assumptions@));
            }
            match goal {
                Expr::BinOp { op: BinOp::Eq, left, right } => {
                    proof {
                        assert(goal@ == ExprV::BinOp { op: BinOp::Eq, left: Box::new(left@), right: Box::new(right@) });
                    }
                    Core::Eq(left.deep_clone(), right.deep_clone())
                },
                Expr::Call { .. } => Core::Bool(goal.deep_clone()),
                Expr::Var(_) => Core::Bool(goal.deep_clone()),
                _ => {
                    let c = goal.deep_clone();
                    proof {
                        if let Expr::BinOp { op, left, right } = goal {
                            assert(goal@ == ExprV::BinOp { op: *op, left: Box::new(left@), right: Box::new(right@) });
                        }
                    }
                    Core::Opaque(c)
                },
            }
        },
    }
}

/// Dissects a goal's property.
pub fn dissect(property: &Expr) -> (r: VcParts)
    requires
        is_vc_shape(property@),
    ensures
        binders_view(r.skolems@) == property@->Forall_binders,
        expr_views(r.path_conds@) == path_conds_of(conjuncts(vc_context(property@))),
        hyps_view(r.hypotheses@) == hyps_of(conjuncts(vc_context(property@))),
        expr_views(r.goal.assumptions@) == goal_assumptions(vc_goal(property@)),
        r.goal.core@ == classify(goal_core(vc_goal(property@))),
{
    match property {
        Expr::Forall { binders, body } => {
            proof {
                assert(property@ == ExprV::Forall { binders: binders_view(binders@), body: Box::new(body@) });
            }
            match &**body {
                Expr::BinOp { op: BinOp::Implies, left, right } => {
                    proof {
                        assert(body@ == ExprV::BinOp { op: BinOp::Implies, left: Box::new(left@), right: Box::new(right@) });
                    }
                    let cs = flatten_and(left);
                    let ghost cv = conjuncts(left@);
                    let mut path_conds: Vec<Expr> = Vec::new();
                    let mut hypotheses: Vec<Hypothesis> = Vec::new();
                    let mut i: usize = 0;
                    while i < cs.len()
                        invariant
                            0 <= i <= cs@.len(),
                            expr_views(cs@) == cv,
                            expr_views(path_conds@) == path_conds_of(cv.take(i as int)),
                            hyps_view(hypotheses@) == hyps_of(cv.take(i as int)),
                        decreases cs@.len() - i,
                    {
                        let c = &cs[i];
                        proof {
                            assert(cv.take(i + 1).drop_last() =~= cv.take(i as int));
                            assert(cv.take(i + 1).last() == c@);
                        }
                        if is_path_condition(c) {
                            let ghost before = path_conds@;
                            path_conds.push(c.deep_clone());
                            proof {
                                assert(expr_views(path_conds@) =~= expr_views(before).push(c@));
                            }
                        } else {
                            let h = match c {
                                Expr::BinOp { op: BinOp::Implies, left: g, right: f } => {
                                    proof {
                                        assert(c@ == ExprV::BinOp { op: BinOp::Implies, left: Box::new(g@), right: Box::new(f@) });
                                    }
                                    Hypothesis { gate: Some(g.deep_clone()), fact: f.deep_clone() }
                                },
                                _ => {
                                    proof {
                                        if let Expr::BinOp { op, left: g, right: f } = c {
                                            assert(c@ == ExprV::BinOp { op: *op, left: Box::new(g@), right: Box::new(f@) });
                                        }
                                    }
                                    Hypothesis { gate: None, fact: c.deep_clone() }
                                },
                            };
                            let ghost before = hypotheses@;
                            hypotheses.push(h);
                            proof {
                                assert(hyps_view(hypotheses@) =~= hyps_view(before).push(hyp_of(c@)));
                            }
                        }
                        i = i + 1;
                    }
                    proof {
                        assert(cv.take(i as int) =~= cv);
                    }
                    let mut assumptions: Vec<Expr> = Vec::new();
                    let core = dissect_goal(right, &mut assumptions);
                    proof {
                        assert(expr_views(Seq::<Expr>::empty()) + goal_assumptions(right@) =~= goal_assumptions(right@));
                    }
                    VcParts {
                        skolems: clone_binders(binders),
                        path_conds,
                        hypotheses,
                        goal: GoalShape { assumptions, core },
                    }
                },
                _ => {
                    proof {
                        assert(false);
                    }
                    VcParts {
                        skolems: Vec::new(),
                        path_conds: Vec::new(),
                        hypotheses: Vec::new(),
                        goal: GoalShape { assumptions: Vec::new(), core: Core::Opaque(Expr::BoolConst(true)) },
                    }
                },
            }
        },
        _ => {
            proof {
                assert(false);
            }
            VcParts {
                skolems: Vec::new(),
                path_conds: Vec::new(),
                hypotheses: Vec::new(),
                goal: GoalShape { assumptions: Vec::new(), core: Core::Opaque(Expr::BoolConst(true)) },
            }
        },
    }
}

} // verus!
