//! Branch decomposition of function bodies, and the definitions comment
//! block of the counterexample file.
//!
//! [`decompose_body`] flattens the nested matches of a body: per branch,
//! which parameter took which pattern (outermost match first), and the
//! branch's leaf expression. An `if` stays in the leaf.
//!
//! [`print_definitions`] renders that decomposition as equations in math
//! style, `f(a, b)` with commas, one per line, the `=` signs aligned:
//!
//! ```text
//! ; definitions:
//! ;   add(Z, y)          = y
//! ;   add(S(x_prime), y) = S(add(x_prime, y))
//! ```

use vstd::prelude::*;
use crate::api::{fdef_view, fdefs_view, key_index};
use crate::ast::{BaseType, BaseTypeV, Expr, ExprV, FunctionDef, Ident, Pattern, PatternV, Program, Type, TypeV, arms_view,
    expr_views, group_ast_views, pattern_views};
use crate::cex::order::{listing, sorted_ci, texts};
use crate::cex::print::bool_text;
use crate::smt::axioms_body::{fun_types, get_fun_types};
use crate::text::{after_last_sep, append_joined, join, variant_name};

verus! {

broadcast use vstd::std_specs::vec::group_vec_axioms, group_ast_views;

/// One flattened match branch.
pub struct Branch {
    /// (matched parameter, pattern taken), outermost match first.
    pub bindings: Vec<(Ident, Pattern)>,
    /// The branch's leaf expression; it may hold an `if`.
    pub rhs: Expr,
}

/// The view of a branch's bindings.
pub open spec fn binding_views(s: Seq<(Ident, Pattern)>) -> Seq<(Seq<char>, PatternV)> {
    Seq::new(s.len(), |i: int| (s[i].0@, s[i].1@))
}

/// The view of a list of branches: bindings and leaf of each.
pub open spec fn branch_views(s: Seq<Branch>) -> Seq<(Seq<(Seq<char>, PatternV)>, ExprV)> {
    Seq::new(s.len(), |i: int| (binding_views(s[i].bindings@), s[i].rhs@))
}

/// The branches of `e` under the bindings `pre` taken so far: a `match` on a
/// variable splits into its arms, each arm adding (variable, pattern); any
/// other expression is a leaf. None where a `match` is on something else
/// than a variable.
pub open spec fn branches(e: ExprV, pre: Seq<(Seq<char>, PatternV)>) -> Option<Seq<(Seq<(Seq<char>, PatternV)>, ExprV)>>
    decreases e, 1int,
{
    match e {
        ExprV::Match { expr, arms } => match *expr {
            ExprV::Var(v) => arm_branches(v, arms, 0, pre),
            _ => None,
        },
        _ => Some(seq![(pre, e)]),
    }
}

/// The branches of the arms of a `match` on `v`, from the `i`-th arm on.
pub open spec fn arm_branches(v: Seq<char>, arms: Seq<(PatternV, ExprV)>, i: int, pre: Seq<(Seq<char>, PatternV)>) -> Option<Seq<(Seq<(Seq<char>, PatternV)>, ExprV)>>
    decreases arms, arms.len() - i,
{
    if i < 0 || i >= arms.len() {
        Some(Seq::empty())
    } else {
        match (branches(arms[i].1, pre.push((v, arms[i].0))), arm_branches(v, arms, i + 1, pre)) {
            (Some(a), Some(b)) => Some(a + b),
            _ => None,
        }
    }
}

/// `acc` put in front of what `o` holds.
pub open spec fn prepend<T>(acc: Seq<T>, o: Option<Seq<T>>) -> Option<Seq<T>> {
    match o {
        Some(b) => Some(acc + b),
        None => None,
    }
}

/// A copy of a list of bindings.
fn clone_bindings(bs: &Vec<(Ident, Pattern)>) -> (r: Vec<(Ident, Pattern)>)
    ensures
        binding_views(r@) == binding_views(bs@),
{
    let mut out: Vec<(Ident, Pattern)> = Vec::new();
    let mut i: usize = 0;
    while i < bs.len()
        invariant
            0 <= i <= bs@.len(),
            out@.len() == i,
            forall|k: int| 0 <= k < i ==> (#[trigger] out@[k]).0@ == bs@[k].0@ && out@[k].1@ == bs@[k].1@,
        decreases bs@.len() - i,
    {
        let c = (bs[i].0.clone(), bs[i].1.deep_clone());
        out.push(c);
        i = i + 1;
    }
    assert(binding_views(out@) =~= binding_views(bs@));
    out
}

/// Appends the branches of `e` under `bindings` to `out`; false where a
/// `match` is on something else than a variable.
#[verifier::loop_isolation(false)]
fn walk(e: &Expr, bindings: &mut Vec<(Ident, Pattern)>, out: &mut Vec<Branch>) -> (ok: bool)
    ensures
        final(bindings)@ == old(bindings)@,
        ok == branches(e@, binding_views(old(bindings)@)) is Some,
        ok ==> branch_views(final(out)@) == branch_views(old(out)@) + branches(e@, binding_views(old(bindings)@)).unwrap(),
    decreases e,
{
    let ghost pre = binding_views(bindings@);
    match e {
        Expr::Match { expr, arms } => {
            let v = match &**expr {
                Expr::Var(v) => v,
                _ => {
                    proof {
                        assert(e@ == ExprV::Match { expr: Box::new((**expr)@), arms: arms_view(arms@) });
                    }
                    return false;
                },
            };
            let ghost av = arms_view(arms@);
            proof {
                assert(e@ == ExprV::Match { expr: Box::new(ExprV::Var(v@)), arms: av });
            }
            let ghost out0 = branch_views(out@);
            let ghost mut acc: Seq<(Seq<(Seq<char>, PatternV)>, ExprV)> = Seq::empty();
            let mut i: usize = 0;
            while i < arms.len()
                invariant
                    0 <= i <= arms@.len(),
                    av == arms_view(arms@),
                    av.len() == arms@.len(),
                    bindings@ == old(bindings)@,
                    pre == binding_views(bindings@),
                    branch_views(out@) == out0 + acc,
                    arm_branches(v@, av, 0, pre) == prepend(acc, arm_branches(v@, av, i as int, pre)),
                decreases arms@.len() - i,
            {
                proof {
                    assert(decreases_to!(*e => (*e)->arms));
                    assert(decreases_to!(arms@ => arms@[i as int]));
                    assert(decreases_to!(arms@[i as int] => arms@[i as int].1));
                    assert(av[i as int] == (arms@[i as int].0@, arms@[i as int].1@));
                }
                let pat = arms[i].0.deep_clone();
                bindings.push((v.clone(), pat));
                proof {
                    assert(binding_views(bindings@) =~= pre.push((v@, av[i as int].0)));
                }
                let ok = walk(&arms[i].1, bindings, out);
                bindings.pop();
                proof {
                    assert(bindings@ =~= old(bindings)@);
                }
                if !ok {
                    return false;
                }
                proof {
                    let a = branches(av[i as int].1, pre.push((v@, av[i as int].0))).unwrap();
                    assert(branch_views(out@) =~= out0 + (acc + a));
                    match arm_branches(v@, av, i + 1, pre) {
                        Some(b) => {
                            assert(acc + (a + b) =~= (acc + a) + b);
                        },
                        None => {},
                    }
                    acc = acc + a;
                }
                i = i + 1;
            }
            proof {
                assert(acc + Seq::<(Seq<(Seq<char>, PatternV)>, ExprV)>::empty() =~= acc);
            }
            true
        },
        _ => {
            let b = Branch { bindings: clone_bindings(bindings), rhs: e.deep_clone() };
            let ghost before = branch_views(out@);
            out.push(b);
            proof {
                assert(e@ !is Match);
                assert(branch_views(out@) =~= before + seq![(pre, e@)]);
            }
            true
        },
    }
}

/// The branches of a function body, outermost match first in each branch's
/// bindings; None where a `match` is on something else than a variable.
pub fn decompose_body(body: &Expr) -> (r: Option<Vec<Branch>>)
    ensures
        match r {
            Some(bs) => branches(body@, Seq::empty()) == Some(branch_views(bs@)),
            None => branches(body@, Seq::empty()) is None,
        },
{
    let mut bindings: Vec<(Ident, Pattern)> = Vec::new();
    let mut out: Vec<Branch> = Vec::new();
    proof {
        assert(binding_views(bindings@) =~= Seq::empty());
        assert(branch_views(out@) =~= Seq::empty());
    }
    if walk(body, &mut bindings, &mut out) {
        proof {
            let bs = branches(body@, Seq::empty()).unwrap();
            assert(Seq::<(Seq<(Seq<char>, PatternV)>, ExprV)>::empty() + bs =~= bs);
        }
        Some(out)
    } else {
        None
    }
}

/// An application in math style: `head(a, b)`.
pub open spec fn math_app(head: Seq<char>, parts: Seq<Seq<char>>) -> Seq<char> {
    head + "("@ + join(", "@, parts) + ")"@
}

/// A pattern in math style: `_`, a name, or a constructor by its variant
/// name, with its arguments in brackets where it has any. None where it
/// holds a tuple pattern.
pub open spec fn pattern_math(p: PatternV) -> Option<Seq<char>>
    decreases p, 1int,
{
    match p {
        PatternV::Wildcard => Some("_"@),
        PatternV::Ident(n) => Some(n),
        PatternV::Constructor { name, args, .. } => if args.len() == 0 {
            Some(after_last_sep(name))
        } else {
            match patterns_math(args, 0) {
                Some(parts) => Some(math_app(after_last_sep(name), parts)),
                None => None,
            }
        },
        PatternV::Tuple(_) => None,
    }
}

/// The math texts of the patterns from the `i`-th on.
pub open spec fn patterns_math(ps: Seq<PatternV>, i: int) -> Option<Seq<Seq<char>>>
    decreases ps, ps.len() - i,
{
    if i < 0 || i >= ps.len() {
        Some(Seq::empty())
    } else {
        match (pattern_math(ps[i]), patterns_math(ps, i + 1)) {
            (Some(a), Some(rest)) => Some(seq![a] + rest),
            _ => None,
        }
    }
}

/// What `subst` gives for `x`: the text of its first entry named `x`.
pub open spec fn lookup_text(subst: Seq<(Seq<char>, Seq<char>)>, x: Seq<char>) -> Option<Seq<char>> {
    let k = key_index(subst, x);
    if 0 <= k < subst.len() {
        Some(subst[k].1)
    } else {
        None
    }
}

/// A leaf expression in math style: a variable that `subst` maps shown as
/// its text, calls and constructors as applications (a nullary one by its
/// bare name), an `if` inline as `if c then a else b`. None for any other
/// expression.
pub open spec fn expr_math(e: ExprV, subst: Seq<(Seq<char>, Seq<char>)>) -> Option<Seq<char>>
    decreases e, 1int,
{
    match e {
        ExprV::Var(n) => match lookup_text(subst, n) {
            Some(t) => Some(t),
            None => Some(n),
        },
        ExprV::BoolConst(b) => Some(bool_text(b)),
        ExprV::Call { func, args } => if args.len() == 0 {
            Some(func)
        } else {
            match exprs_math(args, 0, subst) {
                Some(parts) => Some(math_app(func, parts)),
                None => None,
            }
        },
        ExprV::Constructor { name, args } => if args.len() == 0 {
            Some(after_last_sep(name))
        } else {
            match exprs_math(args, 0, subst) {
                Some(parts) => Some(math_app(after_last_sep(name), parts)),
                None => None,
            }
        },
        ExprV::If { cond, then_expr, else_expr } => match (
            expr_math(*cond, subst),
            expr_math(*then_expr, subst),
            expr_math(*else_expr, subst),
        ) {
            (Some(c), Some(t), Some(f)) => Some("if "@ + c + " then "@ + t + " else "@ + f),
            _ => None,
        },
        _ => None,
    }
}

/// The math texts of the expressions from the `i`-th on.
pub open spec fn exprs_math(es: Seq<ExprV>, i: int, subst: Seq<(Seq<char>, Seq<char>)>) -> Option<Seq<Seq<char>>>
    decreases es, es.len() - i,
{
    if i < 0 || i >= es.len() {
        Some(Seq::empty())
    } else {
        match (expr_math(es[i], subst), exprs_math(es, i + 1, subst)) {
            (Some(a), Some(rest)) => Some(seq![a] + rest),
            _ => None,
        }
    }
}

/// Renders a pattern in math style (see [`pattern_math`]).
#[verifier::loop_isolation(false)]
pub fn render_pattern(p: &Pattern) -> (r: Option<String>)
    ensures
        pattern_math(p@) == match r {
            Some(t) => Some(t@),
            None => None,
        },
    decreases p,
{
    match p {
        Pattern::Wildcard => {
            proof {
                reveal_strlit("_");
            }
            Some(String::from_str("_"))
        },
        Pattern::Ident(n) => Some(n.clone()),
        Pattern::Constructor { name, args, .. } => {
            let head = variant_name(name.as_str());
            let ghost pv = pattern_views(args@);
            proof {
                assert(p@ matches PatternV::Constructor { .. });
                assert(p@->Constructor_args == pv);
                assert(p@->Constructor_name == name@);
            }
            if args.len() == 0 {
                return Some(head);
            }
            let mut parts: Vec<String> = Vec::new();
            let mut i: usize = 0;
            proof {
                assert(pv.len() == args@.len());
                match patterns_math(pv, 0) {
                    Some(rest) => {
                        assert(parts@.map_values(|t: String| t@) + rest =~= rest);
                    },
                    None => {},
                }
            }
            while i < args.len()
                invariant
                    0 <= i <= args@.len(),
                    pv == pattern_views(args@),
                    pv.len() == args@.len(),
                    patterns_math(pv, 0) == match patterns_math(pv, i as int) {
                        Some(rest) => Some(parts@.map_values(|t: String| t@) + rest),
                        None => None,
                    },
                decreases args@.len() - i,
            {
                proof {
                    assert(decreases_to!(*p => (*p)->args));
                    assert(decreases_to!(args@ => args@[i as int]));
                    assert(pv[i as int] == args@[i as int]@);
                }
                let one = render_pattern(&args[i]);
                match one {
                    Some(t) => {
                        proof {
                            let before = parts@.map_values(|t: String| t@);
                            match patterns_math(pv, i + 1) {
                                Some(rest) => {
                                    assert(before + (seq![t@] + rest) =~= before.push(t@) + rest);
                                },
                                None => {},
                            }
                        }
                        parts.push(t);
                        proof {
                            assert(parts@.map_values(|t: String| t@) =~= parts@.drop_last().map_values(|t: String| t@).push(parts@.last()@));
                        }
                    },
                    None => {
                        return None;
                    },
                }
                i = i + 1;
            }
            proof {
                assert(parts@.map_values(|t: String| t@) + Seq::<Seq<char>>::empty() =~= parts@.map_values(|t: String| t@));
            }
            Some(math_application(head, &parts))
        },
        Pattern::Tuple(_) => None,
    }
}

/// `head(a, b, ..)` from the parts.
fn math_application(head: String, parts: &Vec<String>) -> (r: String)
    ensures
        r@ == math_app(head@, parts@.map_values(|t: String| t@)),
{
    let ghost ps = parts@.map_values(|t: String| t@);
    proof {
        reveal_strlit("(");
        reveal_strlit(")");
        reveal_strlit(", ");
    }
    let mut inner = String::new();
    let mut i: usize = 0;
    while i < parts.len()
        invariant
            0 <= i <= parts@.len(),
            ps == parts@.map_values(|t: String| t@),
            inner@ == join(", "@, ps.take(i as int)),
        decreases parts@.len() - i,
    {
        append_joined(&mut inner, ", ", parts[i].as_str(), i == 0, Ghost(ps.take(i as int)));
        proof {
            assert(ps.take(i as int).push(parts@[i as int]@) =~= ps.take(i + 1));
        }
        i = i + 1;
    }
    proof {
        assert(ps.take(i as int) =~= ps);
    }
    let mut out = head;
    out.append("(");
    out.append(inner.as_str());
    out.append(")");
    proof {
        assert(out@ =~= head@ + "("@ + join(", "@, ps) + ")"@);
    }
    out
}

/// The view of a substitution of texts for names.
pub open spec fn subst_view(s: Seq<(String, String)>) -> Seq<(Seq<char>, Seq<char>)> {
    Seq::new(s.len(), |i: int| (s[i].0@, s[i].1@))
}

/// What `subst` gives for `x` (see [`lookup_text`]).
fn lookup_subst(subst: &Vec<(String, String)>, x: &String) -> (r: Option<String>)
    ensures
        lookup_text(subst_view(subst@), x@) == match r {
            Some(t) => Some(t@),
            None => None,
        },
{
    let ghost sv = subst_view(subst@);
    let mut k: usize = 0;
    proof {
        assert(sv.skip(0) =~= sv);
    }
    while k < subst.len()
        invariant
            0 <= k <= subst@.len(),
            sv == subst_view(subst@),
            key_index(sv, x@) == k + key_index(sv.skip(k as int), x@),
        decreases subst@.len() - k,
    {
        proof {
            assert(sv.skip(k as int)[0] == sv[k as int]);
            assert(sv.skip(k as int).skip(1) =~= sv.skip(k + 1));
        }
        if subst[k].0.eq(x) {
            proof {
                assert(key_index(sv.skip(k as int), x@) == 0);
            }
            return Some(subst[k].1.clone());
        }
        k = k + 1;
    }
    proof {
        assert(sv.skip(k as int).len() == 0);
    }
    None
}

/// Renders a leaf expression in math style (see [`expr_math`]).
pub fn render_expr(e: &Expr, subst: &Vec<(String, String)>) -> (r: Option<String>)
    ensures
        expr_math(e@, subst_view(subst@)) == match r {
            Some(t) => Some(t@),
            None => None,
        },
    decreases e,
{
    let ghost sv = subst_view(subst@);
    match e {
        Expr::Var(n) => match lookup_subst(subst, n) {
            Some(t) => Some(t),
            None => Some(n.clone()),
        },
        Expr::BoolConst(b) => {
            proof {
                reveal_strlit("true");
                reveal_strlit("false");
            }
            if *b {
                Some(String::from_str("true"))
            } else {
                Some(String::from_str("false"))
            }
        },
        Expr::Call { func, args } => {
            proof {
                assert(e@ == ExprV::Call { func: func@, args: expr_views(args@) });
            }
            render_application(func.clone(), args, subst)
        },
        Expr::Constructor { name, args } => {
            proof {
                assert(e@ == ExprV::Constructor { name: name@, args: expr_views(args@) });
            }
            render_application(variant_name(name.as_str()), args, subst)
        },
        Expr::If { cond, then_expr, else_expr } => {
            let c = render_expr(cond, subst);
            let t = render_expr(then_expr, subst);
            let f = render_expr(else_expr, subst);
            match (c, t, f) {
                (Some(c), Some(t), Some(f)) => {
                    proof {
                        reveal_strlit("if ");
                        reveal_strlit(" then ");
                        reveal_strlit(" else ");
                    }
                    let mut out = String::from_str("if ");
                    out.append(c.as_str());
                    out.append(" then ");
                    out.append(t.as_str());
                    out.append(" else ");
                    out.append(f.as_str());
                    proof {
                        assert(out@ =~= "if "@ + c@ + " then "@ + t@ + " else "@ + f@);
                    }
                    Some(out)
                },
                _ => None,
            }
        },
        _ => None,
    }
}

/// An application of `head` to expressions in math style; a nullary one is
/// the bare head.
fn render_application(head: String, args: &Vec<Expr>, subst: &Vec<(String, String)>) -> (r: Option<String>)
    ensures
        (if args@.len() == 0 {
            Some(head@)
        } else {
            match exprs_math(expr_views(args@), 0, subst_view(subst@)) {
                Some(parts) => Some(math_app(head@, parts)),
                None => None,
            }
        }) == match r {
            Some(t) => Some(t@),
            None => None,
        },
    decreases args,
{
    let ghost sv = subst_view(subst@);
    let ghost ev = expr_views(args@);
    if args.len() == 0 {
        return Some(head);
    }
    let mut parts: Vec<String> = Vec::new();
    let mut i: usize = 0;
    proof {
        match exprs_math(ev, 0, sv) {
            Some(rest) => {
                assert(parts@.map_values(|t: String| t@) + rest =~= rest);
            },
            None => {},
        }
    }
    while i < args.len()
        invariant
            0 <= i <= args@.len(),
            ev == expr_views(args@),
            ev.len() == args@.len(),
            sv == subst_view(subst@),
            exprs_math(ev, 0, sv) == match exprs_math(ev, i as int, sv) {
                Some(rest) => Some(parts@.map_values(|t: String| t@) + rest),
                None => None,
            },
        decreases args@.len() - i,
    {
        proof {
            assert(decreases_to!(*args => args@));
            assert(decreases_to!(args@ => args@[i as int]));
            assert(ev[i as int] == args@[i as int]@);
        }
        let one = render_expr(&args[i], subst);
        match one {
            Some(t) => {
                proof {
                    let before = parts@.map_values(|t: String| t@);
                    match exprs_math(ev, i + 1, sv) {
                        Some(rest) => {
                            assert(before + (seq![t@] + rest) =~= before.push(t@) + rest);
                        },
                        None => {},
                    }
                }
                parts.push(t);
                proof {
                    assert(parts@.map_values(|t: String| t@) =~= parts@.drop_last().map_values(|t: String| t@).push(parts@.last()@));
                }
            },
            None => {
                return None;
            },
        }
        i = i + 1;
    }
    proof {
        assert(parts@.map_values(|t: String| t@) + Seq::<Seq<char>>::empty() =~= parts@.map_values(|t: String| t@));
    }
    Some(math_application(head, &parts))
}

/// The parameter names along a signature's arrows.
pub open spec fn param_names(t: TypeV) -> Seq<Seq<char>>
    decreases t,
{
    match t {
        TypeV::Arrow { param_name, ret_type, .. } => seq![param_name] + param_names(*ret_type),
        _ => Seq::empty(),
    }
}

/// Each matched parameter with the math text of its pattern, from the
/// `i`-th binding on; None where a pattern holds a tuple.
pub open spec fn binding_texts(bs: Seq<(Seq<char>, PatternV)>, i: int) -> Option<Seq<(Seq<char>, Seq<char>)>>
    decreases bs.len() - i,
{
    if i < 0 || i >= bs.len() {
        Some(Seq::empty())
    } else {
        match (pattern_math(bs[i].1), binding_texts(bs, i + 1)) {
            (Some(t), Some(rest)) => Some(seq![(bs[i].0, t)] + rest),
            _ => None,
        }
    }
}

/// The left-hand side of a branch: `f(..)` with each matched parameter shown
/// as its pattern, the others by name.
pub open spec fn lhs_text(f: Seq<char>, params: Seq<Seq<char>>, subst: Seq<(Seq<char>, Seq<char>)>) -> Seq<char> {
    math_app(f, Seq::new(params.len(), |i: int| match lookup_text(subst, params[i]) {
        Some(t) => t,
        None => params[i],
    }))
}

/// The equations of the branches from the `i`-th on: left-hand side and
/// right-hand side, a matched parameter surviving in the right-hand side
/// shown as its pattern. None where a pattern or a leaf cannot be shown.
pub open spec fn branch_lines(
    f: Seq<char>,
    params: Seq<Seq<char>>,
    bs: Seq<(Seq<(Seq<char>, PatternV)>, ExprV)>,
    i: int,
) -> Option<Seq<(Seq<char>, Seq<char>)>>
    decreases bs.len() - i,
{
    if i < 0 || i >= bs.len() {
        Some(Seq::empty())
    } else {
        match binding_texts(bs[i].0, 0) {
            Some(subst) => match (expr_math(bs[i].1, subst), branch_lines(f, params, bs, i + 1)) {
                (Some(rhs), Some(rest)) => Some(seq![(lhs_text(f, params, subst), rhs)] + rest),
                _ => None,
            },
            None => None,
        }
    }
}

/// The equations of one function: none for a function without a body or
/// one that returns the unit type (a lemma); None where its signature takes
/// or gives a function, or its body cannot be shown.
pub open spec fn fun_lines(f: Seq<char>, def: (TypeV, Option<ExprV>, bool)) -> Option<Seq<(Seq<char>, Seq<char>)>> {
    match fun_types(def.0) {
        None => None,
        Some((_, out)) => if out == BaseTypeV::Unit {
            Some(Seq::empty())
        } else {
            match def.1 {
                None => Some(Seq::empty()),
                Some(body) => match branches(body, Seq::empty()) {
                    Some(bs) => branch_lines(f, param_names(def.0), bs, 0),
                    None => None,
                },
            }
        },
    }
}

/// The equations of the named functions, in order; None where a name is not
/// a function of `fs` or one function cannot be shown.
pub open spec fn names_lines(fs: Seq<(Seq<char>, (TypeV, Option<ExprV>, bool))>, names: Seq<Seq<char>>) -> Option<Seq<(Seq<char>, Seq<char>)>>
    decreases names.len(),
{
    if names.len() == 0 {
        Some(Seq::empty())
    } else {
        let k = key_index(fs, names.last());
        if k >= fs.len() {
            None
        } else {
            match (names_lines(fs, names.drop_last()), fun_lines(names.last(), fs[k].1)) {
                (Some(a), Some(b)) => Some(a + b),
                _ => None,
            }
        }
    }
}

/// The length in bytes of a text's UTF-8 encoding, as `str::len` gives it.
pub open spec fn byte_len(s: Seq<char>) -> int {
    (vstd::utf8::encode_utf8(s).len() as usize) as int
}

/// The widest left-hand side of the first `n` equations, in bytes.
pub open spec fn lhs_width(lines: Seq<(Seq<char>, Seq<char>)>, n: int) -> int
    decreases n,
{
    if n <= 0 {
        0
    } else {
        let w = lhs_width(lines, n - 1);
        let b = byte_len(lines[n - 1].0);
        if b > w { b } else { w }
    }
}

/// `n` spaces (none when `n` is not positive).
pub open spec fn spaces(n: int) -> Seq<char> {
    Seq::new(if n > 0 { n as nat } else { 0 }, |i: int| ' ')
}

/// One equation line: `;   lhs = rhs`, the left-hand side padded with
/// spaces to `w` characters.
pub open spec fn line_text(l: (Seq<char>, Seq<char>), w: int) -> Seq<char> {
    ";   "@ + l.0 + spaces(w - l.0.len()) + " = "@ + l.1 + "\n"@
}

/// The lines of the first `n` equations.
pub open spec fn lines_text(lines: Seq<(Seq<char>, Seq<char>)>, w: int, n: int) -> Seq<char>
    decreases n,
{
    if n <= 0 {
        Seq::empty()
    } else {
        lines_text(lines, w, n - 1) + line_text(lines[n - 1], w)
    }
}

/// The definitions block of the named functions: a header line, then one
/// line per equation, padded so that the `=` signs line up; empty when
/// there is no equation. None where a name is not a function or a
/// function cannot be shown.
pub open spec fn definitions_text(fs: Seq<(Seq<char>, (TypeV, Option<ExprV>, bool))>, names: Seq<Seq<char>>) -> Option<Seq<char>> {
    match names_lines(fs, names) {
        None => None,
        Some(lines) => Some(if lines.len() == 0 {
            Seq::empty()
        } else {
            "; definitions:\n"@ + lines_text(lines, lhs_width(lines, lines.len() as int), lines.len() as int)
        }),
    }
}

/// The parameter names of a signature (see [`param_names`]).
fn signature_params(ty: &Type) -> (r: Vec<String>)
    ensures
        r@.map_values(|t: String| t@) == param_names(ty@),
    decreases ty,
{
    match ty {
        Type::Arrow(f) => {
            proof {
                assert(ty@ == TypeV::Arrow {
                    param_name: f.param_name@,
                    param_type: Box::new((*f.param_type)@),
                    ret_type: Box::new((*f.ret_type)@),
                });
            }
            let mut rest = signature_params(&f.ret_type);
            let ghost rv = rest@.map_values(|t: String| t@);
            rest.insert(0, f.param_name.clone());
            proof {
                assert(rest@.map_values(|t: String| t@) =~= seq![f.param_name@] + rv);
            }
            rest
        },
        _ => {
            let v: Vec<String> = Vec::new();
            proof {
                assert(ty@ !is Arrow);
                assert(v@.map_values(|t: String| t@) =~= Seq::<Seq<char>>::empty());
            }
            v
        },
    }
}

/// The substitution of a branch (see [`binding_texts`]).
fn branch_subst(bs: &Vec<(Ident, Pattern)>) -> (r: Option<Vec<(String, String)>>)
    ensures
        binding_texts(binding_views(bs@), 0) == match r {
            Some(v) => Some(subst_view(v@)),
            None => None,
        },
{
    let ghost bv = binding_views(bs@);
    let mut out: Vec<(String, String)> = Vec::new();
    let mut i: usize = 0;
    proof {
        match binding_texts(bv, 0) {
            Some(rest) => {
                assert(subst_view(out@) + rest =~= rest);
            },
            None => {},
        }
    }
    while i < bs.len()
        invariant
            0 <= i <= bs@.len(),
            bv == binding_views(bs@),
            binding_texts(bv, 0) == prepend(subst_view(out@), binding_texts(bv, i as int)),
        decreases bs@.len() - i,
    {
        let t = render_pattern(&bs[i].1);
        match t {
            Some(t) => {
                proof {
                    let before = subst_view(out@);
                    let item = (bs@[i as int].0@, t@);
                    match binding_texts(bv, i + 1) {
                        Some(rest) => {
                            assert(before + (seq![item] + rest) =~= before.push(item) + rest);
                        },
                        None => {},
                    }
                }
                out.push((bs[i].0.clone(), t));
                proof {
                    assert(subst_view(out@) =~= subst_view(out@.drop_last()).push((out@.last().0@, out@.last().1@)));
                }
            },
            None => {
                return None;
            },
        }
        i = i + 1;
    }
    proof {
        assert(subst_view(out@) + Seq::<(Seq<char>, Seq<char>)>::empty() =~= subst_view(out@));
    }
    Some(out)
}

/// The left-hand side of a branch (see [`lhs_text`]).
fn render_lhs(func: &String, params: &Vec<String>, subst: &Vec<(String, String)>) -> (r: String)
    ensures
        r@ == lhs_text(func@, params@.map_values(|t: String| t@), subst_view(subst@)),
{
    let ghost pv = params@.map_values(|t: String| t@);
    let ghost sv = subst_view(subst@);
    let ghost parts = Seq::new(pv.len(), |i: int| match lookup_text(sv, pv[i]) {
        Some(t) => t,
        None => pv[i],
    });
    let mut shown: Vec<String> = Vec::new();
    let mut i: usize = 0;
    while i < params.len()
        invariant
            0 <= i <= params@.len(),
            pv == params@.map_values(|t: String| t@),
            sv == subst_view(subst@),
            parts.len() == pv.len(),
            parts == Seq::new(pv.len(), |i: int| match lookup_text(sv, pv[i]) {
                Some(t) => t,
                None => pv[i],
            }),
            shown@.map_values(|t: String| t@) == parts.take(i as int),
        decreases params@.len() - i,
    {
        let one = match lookup_subst(subst, &params[i]) {
            Some(t) => t,
            None => params[i].clone(),
        };
        proof {
            assert(pv[i as int] == params@[i as int]@);
            assert(one@ == parts[i as int]);
        }
        let ghost before = shown@;
        shown.push(one);
        proof {
            assert(shown@.map_values(|t: String| t@) =~= before.map_values(|t: String| t@).push(shown@.last()@));
            assert(shown@.map_values(|t: String| t@) =~= parts.take(i + 1));
        }
        i = i + 1;
    }
    proof {
        assert(parts.take(i as int) =~= parts);
    }
    math_application(func.clone(), &shown)
}

/// The index of the function named `name`, or the number of functions when
/// there is none.
pub fn function_index(fs: &Vec<(Ident, FunctionDef)>, name: &String) -> (r: usize)
    ensures
        r == key_index(fdefs_view(fs@), name@),
        r <= fs@.len(),
{
    let ghost fv = fdefs_view(fs@);
    let mut k: usize = 0;
    proof {
        assert(fv.skip(0) =~= fv);
    }
    while k < fs.len()
        invariant
            0 <= k <= fs@.len(),
            fv == fdefs_view(fs@),
            key_index(fv, name@) == k + key_index(fv.skip(k as int), name@),
        decreases fs@.len() - k,
    {
        proof {
            assert(fv.skip(k as int)[0] == fv[k as int]);
            assert(fv.skip(k as int).skip(1) =~= fv.skip(k + 1));
        }
        if fs[k].0.eq(name) {
            proof {
                assert(key_index(fv.skip(k as int), name@) == 0);
            }
            return k;
        }
        k = k + 1;
    }
    proof {
        assert(fv.skip(k as int).len() == 0);
    }
    k
}

/// Appends the equations of one function to `lines` (see [`fun_lines`]);
/// false where it cannot be shown.
fn push_fun_lines(func: &String, def: &FunctionDef, lines: &mut Vec<(String, String)>) -> (ok: bool)
    ensures
        ok == fun_lines(func@, fdef_view(*def)) is Some,
        ok ==> subst_view(final(lines)@) == subst_view(old(lines)@) + fun_lines(func@, fdef_view(*def)).unwrap(),
{
    let ghost sig = def.signature@;
    let out_type = match get_fun_types(&def.signature) {
        Some((_, out)) => out,
        None => {
            return false;
        },
    };
    if let BaseType::Unit = out_type {
        proof {
            assert(subst_view(lines@) + Seq::<(Seq<char>, Seq<char>)>::empty() =~= subst_view(lines@));
        }
        return true;
    }
    proof {
        assert(out_type@ != BaseTypeV::Unit);
    }
    let body = match &def.body {
        Some(b) => b,
        None => {
            proof {
                assert(subst_view(lines@) + Seq::<(Seq<char>, Seq<char>)>::empty() =~= subst_view(lines@));
            }
            return true;
        },
    };
    let params = signature_params(&def.signature);
    let branches_found = match decompose_body(body) {
        Some(bs) => bs,
        None => {
            return false;
        },
    };
    let ghost bv = branch_views(branches_found@);
    let ghost pv = params@.map_values(|t: String| t@);
    let ghost l0 = subst_view(lines@);
    let ghost mut acc: Seq<(Seq<char>, Seq<char>)> = Seq::empty();
    let mut i: usize = 0;
    proof {
        match branch_lines(func@, pv, bv, 0) {
            Some(rest) => {
                assert(acc + rest =~= rest);
            },
            None => {},
        }
        assert(l0 + acc =~= l0);
        assert(fdef_view(*def).1 == Some(body@));
        assert(fun_lines(func@, fdef_view(*def)) == branch_lines(func@, pv, bv, 0));
    }
    while i < branches_found.len()
        invariant
            0 <= i <= branches_found@.len(),
            bv == branch_views(branches_found@),
            pv == params@.map_values(|t: String| t@),
            pv == param_names(sig),
            subst_view(lines@) == l0 + acc,
            branch_lines(func@, pv, bv, 0) == prepend(acc, branch_lines(func@, pv, bv, i as int)),
            fun_lines(func@, fdef_view(*def)) == branch_lines(func@, pv, bv, 0),
        decreases branches_found@.len() - i,
    {
        let b = &branches_found[i];
        proof {
            assert(bv[i as int] == (binding_views(b.bindings@), b.rhs@));
        }
        let subst = match branch_subst(&b.bindings) {
            Some(s) => s,
            None => {
                return false;
            },
        };
        let rhs = match render_expr(&b.rhs, &subst) {
            Some(r) => r,
            None => {
                return false;
            },
        };
        let lhs = render_lhs(func, &params, &subst);
        proof {
            let item = (lhs@, rhs@);
            match branch_lines(func@, pv, bv, i + 1) {
                Some(rest) => {
                    assert(acc + (seq![item] + rest) =~= acc.push(item) + rest);
                },
                None => {},
            }
        }
        let ghost before = lines@;
        lines.push((lhs, rhs));
        proof {
            assert(subst_view(lines@) =~= subst_view(before).push((lines@.last().0@, lines@.last().1@)));
            assert(subst_view(lines@) =~= l0 + acc.push((lines@.last().0@, lines@.last().1@)));
            acc = acc.push((lines@.last().0@, lines@.last().1@));
        }
        i = i + 1;
    }
    proof {
        assert(acc + Seq::<(Seq<char>, Seq<char>)>::empty() =~= acc);
    }
    true
}

/// A failed function stays failed as more names follow.
proof fn lemma_names_lines_none(fs: Seq<(Seq<char>, (TypeV, Option<ExprV>, bool))>, names: Seq<Seq<char>>, n: int)
    requires
        0 <= n <= names.len(),
        names_lines(fs, names.take(n)) is None,
    ensures
        names_lines(fs, names) is None,
    decreases names.len(),
{
    if names.len() == n {
        assert(names.take(n) =~= names);
    } else {
        assert(names.drop_last().take(n) =~= names.take(n));
        lemma_names_lines_none(fs, names.drop_last(), n);
    }
}

/// Appends `n` spaces.
fn push_spaces(out: &mut String, n: usize)
    ensures
        final(out)@ == old(out)@ + spaces(n as int),
{
    proof {
        reveal_strlit(" ");
    }
    let mut k: usize = 0;
    while k < n
        invariant
            0 <= k <= n,
            out@ == old(out)@ + spaces(k as int),
        decreases n - k,
    {
        out.append(" ");
        proof {
            reveal_strlit(" ");
            assert(spaces(k + 1) =~= spaces(k as int) + " "@);
            assert(out@ =~= old(out)@ + spaces(k + 1));
        }
        k = k + 1;
    }
}

/// The definitions comment block for the named functions (see
/// [`definitions_text`]), the names taken once each in the listing order.
/// None where a name is not a function of the program, or a function's
/// signature takes or gives a function, or its body matches on something
/// else than a variable, holds a tuple pattern, or has a leaf that is not a
/// variable, constant, call, constructor or `if`.
pub fn try_print_definitions(program: &Program, funcs: &Vec<String>) -> (r: Option<String>)
    ensures
        definitions_text(fdefs_view(program.functions@), listing(texts(funcs@))) == match r {
            Some(t) => Some(t@),
            None => None,
        },
{
    let names = sorted_ci(funcs);
    let ghost nv = texts(names@);
    let ghost fv = fdefs_view(program.functions@);
    let mut lines: Vec<(String, String)> = Vec::new();
    let mut i: usize = 0;
    proof {
        assert(nv.take(0) =~= Seq::<Seq<char>>::empty());
        assert(subst_view(lines@) =~= Seq::<(Seq<char>, Seq<char>)>::empty());
    }
    while i < names.len()
        invariant
            0 <= i <= names@.len(),
            nv == texts(names@),
            nv == listing(texts(funcs@)),
            nv.len() == names@.len(),
            fv == fdefs_view(program.functions@),
            names_lines(fv, nv.take(i as int)) == Some(subst_view(lines@)),
        decreases names@.len() - i,
    {
        let k = function_index(&program.functions, &names[i]);
        proof {
            assert(nv.take(i + 1).drop_last() =~= nv.take(i as int));
            assert(nv.take(i + 1).last() == names@[i as int]@);
        }
        if k >= program.functions.len() {
            proof {
                assert(names_lines(fv, nv.take(i + 1)) is None);
                lemma_names_lines_none(fv, nv, i + 1);
                assert(names_lines(fv, nv) is None);
                assert(nv == listing(texts(funcs@)));
                assert(nv =~= nv.take(nv.len() as int));
            }
            return None;
        }
        proof {
            assert(fv[k as int].1 == fdef_view(program.functions@[k as int].1));
        }
        if !push_fun_lines(&names[i], &program.functions[k].1, &mut lines) {
            proof {
                assert(names_lines(fv, nv.take(i + 1)) is None);
                lemma_names_lines_none(fv, nv, i + 1);
            }
            return None;
        }
        i = i + 1;
    }
    proof {
        assert(nv.take(i as int) =~= nv);
    }
    let ghost lv = subst_view(lines@);
    if lines.len() == 0 {
        return Some(String::new());
    }
    let mut width: usize = 0;
    let mut j: usize = 0;
    while j < lines.len()
        invariant
            0 <= j <= lines@.len(),
            lv == subst_view(lines@),
            width == lhs_width(lv, j as int),
        decreases lines@.len() - j,
    {
        let b = lines[j].0.as_str().len();
        proof {
            assert(lv[j as int].0 == lines@[j as int].0@);
        }
        if b > width {
            width = b;
        }
        j = j + 1;
    }
    proof {
        reveal_strlit("; definitions:\n");
        reveal_strlit(";   ");
        reveal_strlit(" = ");
        reveal_strlit("\n");
    }
    let mut out = String::from_str("; definitions:\n");
    let ghost head = out@;
    let mut j: usize = 0;
    while j < lines.len()
        invariant
            0 <= j <= lines@.len(),
            lv == subst_view(lines@),
            width == lhs_width(lv, lv.len() as int),
            head == "; definitions:\n"@,
            out@ == head + lines_text(lv, width as int, j as int),
        decreases lines@.len() - j,
    {
        let lhs = lines[j].0.as_str();
        let rhs = lines[j].1.as_str();
        proof {
            assert(lv[j as int] == (lhs@, rhs@));
        }
        let chars = lhs.unicode_len();
        let ghost before = out@;
        out.append(";   ");
        out.append(lhs);
        if chars < width {
            push_spaces(&mut out, width - chars);
        } else {
            proof {
                assert(spaces(width - chars) =~= Seq::<char>::empty());
            }
        }
        out.append(" = ");
        out.append(rhs);
        out.append("\n");
        proof {
            assert(out@ =~= before + line_text(lv[j as int], width as int));
            assert(head + lines_text(lv, width as int, j + 1) =~= head + lines_text(lv, width as int, j as int) + line_text(lv[j as int], width as int));
        }
        j = j + 1;
    }
    Some(out)
}

/// The definitions comment block for the named functions (see
/// [`definitions_text`]); defined where [`try_print_definitions`] gives one.
pub fn print_definitions(program: &Program, funcs: &Vec<String>) -> (r: String)
    requires
        definitions_text(fdefs_view(program.functions@), listing(texts(funcs@))) is Some,
    ensures
        definitions_text(fdefs_view(program.functions@), listing(texts(funcs@))) == Some(r@),
{
    match try_print_definitions(program, funcs) {
        Some(t) => t,
        None => {
            proof {
                assert(false);
            }
            String::new()
        },
    }
}

} // verus!
