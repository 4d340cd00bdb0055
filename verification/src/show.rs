//! The debug text of the syntax trees, as a derived `Debug` writes it with
//! `{:?}`: a unit variant by its name, a tuple variant as `Name(a, b)`, a
//! struct variant as `Name { f: a, g: b }`, a list as `[a, b]`, a pair as
//! `(a, b)`, an option as `Some(a)` or `None`, a boxed value as the value,
//! and a string quoted and escaped as `str`'s own `Debug` does it.

use vstd::prelude::*;
use crate::ast::{BaseType, BaseTypeV, BinOp, Expr, ExprV, Ident, Pattern, PatternV, arms_view, base_views, binders_view, bindings_view, expr_views, pattern_views};

verus! {

broadcast use vstd::std_specs::vec::group_vec_axioms, crate::ast::group_ast_views;

/// What `str`'s `Debug` writes for a text: the text between double quotes,
/// with quotes, backslashes and control characters escaped.
pub uninterp spec fn str_debug(s: Seq<char>) -> Seq<char>;

/// `format!("{:?}", s)` on a `str`: its quoted, escaped text. The escaping
/// rules are std's and are named here, not spelled out.
#[verifier::external_body]
fn quoted(s: &str) -> (r: String)
    ensures
        r@ == str_debug(s@),
{
    format!("{:?}", s)
}

/// Items separated by `, `.
pub open spec fn joined(items: Seq<Seq<char>>) -> Seq<char>
    decreases items.len(),
{
    if items.len() == 0 {
        Seq::empty()
    } else if items.len() == 1 {
        items[0]
    } else {
        joined(items.drop_last()) + ", "@ + items.last()
    }
}

/// A list as `[a, b]`.
pub open spec fn bracketed(items: Seq<Seq<char>>) -> Seq<char> {
    "["@ + joined(items) + "]"@
}

/// The texts of a list of strings.
pub open spec fn texts(v: Seq<String>) -> Seq<Seq<char>> {
    Seq::new(v.len(), |i: int| v[i]@)
}

/// Writes rendered items as a list.
fn bracket_list(items: &Vec<String>) -> (r: String)
    ensures
        r@ == bracketed(texts(items@)),
{
    let ghost ts = texts(items@);
    let mut out = String::from_str("[");
    let mut i: usize = 0;
    proof {
        assert(ts.take(0) =~= Seq::<Seq<char>>::empty());
        assert(out@ =~= "["@ + joined(ts.take(0)));
    }
    while i < items.len()
        invariant
            0 <= i <= items@.len(),
            ts == texts(items@),
            out@ == "["@ + joined(ts.take(i as int)),
        decreases items@.len() - i,
    {
        let ghost before = out@;
        if i > 0 {
            out.append(", ");
        }
        out.append(items[i].as_str());
        proof {
            let t = ts.take(i + 1);
            assert(t.drop_last() =~= ts.take(i as int));
            assert(t.last() == items@[i as int]@);
            if i == 0 {
                assert(joined(ts.take(0)) =~= Seq::<char>::empty());
                assert(out@ =~= "["@ + joined(t));
            } else {
                assert(joined(t) == joined(ts.take(i as int)) + ", "@ + items@[i as int]@);
                assert(out@ =~= "["@ + joined(t));
            }
        }
        i = i + 1;
    }
    proof {
        assert(ts.take(items@.len() as int) =~= ts);
    }
    out.append("]");
    out
}

/// The debug text of a boolean.
pub open spec fn bool_debug(b: bool) -> Seq<char> {
    if b { "true"@ } else { "false"@ }
}

/// The debug text of a binary operator.
pub open spec fn binop_debug(op: BinOp) -> Seq<char> {
    match op {
        BinOp::Eq => "Eq"@,
        BinOp::Neq => "Neq"@,
        BinOp::Or => "Or"@,
        BinOp::And => "And"@,
        BinOp::Implies => "Implies"@,
    }
}

/// The debug text of a sort.
pub open spec fn base_debug(b: BaseTypeV) -> Seq<char>
    decreases b,
{
    match b {
        BaseTypeV::Unit => "Unit"@,
        BaseTypeV::Bool => "Bool"@,
        BaseTypeV::Tuple(ts) => "Tuple("@ + bracketed(base_texts(ts)) + ")"@,
        BaseTypeV::Custom(s) => "Custom("@ + str_debug(s) + ")"@,
    }
}

/// The debug texts of a list of sorts.
pub open spec fn base_texts(ts: Seq<BaseTypeV>) -> Seq<Seq<char>>
    decreases ts,
{
    Seq::new(ts.len(), |i: int| if 0 <= i < ts.len() { base_debug(ts[i]) } else { Seq::empty() })
}

/// The debug text of a pattern.
pub open spec fn pattern_debug(p: PatternV) -> Seq<char>
    decreases p,
{
    match p {
        PatternV::Wildcard => "Wildcard"@,
        PatternV::Ident(x) => "Ident("@ + str_debug(x) + ")"@,
        PatternV::Constructor { name, args, arg_types } => "Constructor { name: "@ + str_debug(name) + ", args: "@
            + bracketed(pattern_texts(args)) + ", arg_types: "@ + match arg_types {
            Some(ts) => "Some("@ + bracketed(base_texts(ts)) + ")"@,
            None => "None"@,
        } + " }"@,
        PatternV::Tuple(ps) => "Tuple("@ + bracketed(pattern_texts(ps)) + ")"@,
    }
}

/// The debug texts of a list of patterns.
pub open spec fn pattern_texts(ps: Seq<PatternV>) -> Seq<Seq<char>>
    decreases ps,
{
    Seq::new(ps.len(), |i: int| if 0 <= i < ps.len() { pattern_debug(ps[i]) } else { Seq::empty() })
}

fn bool_text(b: bool) -> (r: String)
    ensures
        r@ == bool_debug(b),
{
    if b { String::from_str("true") } else { String::from_str("false") }
}

fn binop_text(op: BinOp) -> (r: String)
    ensures
        r@ == binop_debug(op),
{
    match op {
        BinOp::Eq => String::from_str("Eq"),
        BinOp::Neq => String::from_str("Neq"),
        BinOp::Or => String::from_str("Or"),
        BinOp::And => String::from_str("And"),
        BinOp::Implies => String::from_str("Implies"),
    }
}

/// The debug text of each sort of a list.
fn base_list_text(ts: &Vec<BaseType>) -> (r: String)
    ensures
        r@ == bracketed(base_texts(base_views(ts@))),
    decreases ts, 0nat,
{
    let mut parts: Vec<String> = Vec::new();
    let mut i: usize = 0;
    while i < ts.len()
        invariant
            0 <= i <= ts@.len(),
            parts@.len() == i,
            forall|k: int| 0 <= k < i ==> (#[trigger] parts@[k])@ == base_debug(ts@[k]@),
        decreases ts@.len() - i,
    {
        proof {
            assert(decreases_to!(ts => ts@));
            assert(decreases_to!(ts@ => ts@[i as int]));
        }
        let t = base_text(&ts[i]);
        parts.push(t);
        i = i + 1;
    }
    let r = bracket_list(&parts);
    proof {
        assert(texts(parts@) =~= base_texts(base_views(ts@)));
    }
    r
}

/// The debug text of a sort (see [`base_debug`]).
pub fn base_text(b: &BaseType) -> (r: String)
    ensures
        r@ == base_debug(b@),
    decreases b, 1nat,
{
    match b {
        BaseType::Unit => {
            proof {
                assert(b@ == BaseTypeV::Unit);
            }
            String::from_str("Unit")
        },
        BaseType::Bool => {
            proof {
                assert(b@ == BaseTypeV::Bool);
            }
            String::from_str("Bool")
        },
        BaseType::Tuple(ts) => {
            proof {
                assert(decreases_to!(*b => (*b)->Tuple_0));
            }
            let mut r = String::from_str("Tuple(");
            let l = base_list_text(ts);
            r.append(l.as_str());
            r.append(")");
            proof {
                let tv = base_views(ts@);
                assert(b@ == BaseTypeV::Tuple(tv));
                assert(r@ =~= "Tuple("@ + bracketed(base_texts(tv)) + ")"@);
            }
            r
        },
        BaseType::Custom(s) => {
            let mut r = String::from_str("Custom(");
            let q = quoted(s.as_str());
            r.append(q.as_str());
            r.append(")");
            proof {
                assert(b@ == BaseTypeV::Custom(s@));
                assert(r@ =~= "Custom("@ + str_debug(s@) + ")"@);
            }
            r
        },
    }
}

/// A pair as `(a, b)`.
pub open spec fn paired(a: Seq<char>, b: Seq<char>) -> Seq<char> {
    "("@ + a + ", "@ + b + ")"@
}

/// The debug text of an expression.
pub open spec fn expr_debug(e: ExprV) -> Seq<char>
    decreases e,
{
    match e {
        ExprV::BoolConst(b) => "BoolConst("@ + bool_debug(b) + ")"@,
        ExprV::Var(x) => "Var("@ + str_debug(x) + ")"@,
        ExprV::Tuple(es) => "Tuple("@ + bracketed(expr_texts(es)) + ")"@,
        ExprV::BinOp { op, left, right } => "BinOp { op: "@ + binop_debug(op) + ", left: "@ + expr_debug(*left)
            + ", right: "@ + expr_debug(*right) + " }"@,
        ExprV::UnOp { expr, .. } => "UnOp { op: Not, expr: "@ + expr_debug(*expr) + " }"@,
        ExprV::If { cond, then_expr, else_expr } => "If { cond: "@ + expr_debug(*cond) + ", then_expr: "@
            + expr_debug(*then_expr) + ", else_expr: "@ + expr_debug(*else_expr) + " }"@,
        ExprV::Let { pat, bound_expr, body } => "Let { pat: "@ + pattern_debug(pat) + ", bound_expr: "@
            + expr_debug(*bound_expr) + ", body: "@ + expr_debug(*body) + " }"@,
        ExprV::Match { expr, arms } => "Match { expr: "@ + expr_debug(*expr) + ", arms: "@ + bracketed(arm_texts(arms))
            + " }"@,
        ExprV::Call { func, args } => "Call { func: "@ + str_debug(func) + ", args: "@ + bracketed(expr_texts(args))
            + " }"@,
        ExprV::Constructor { name, args } => "Constructor { name: "@ + str_debug(name) + ", args: "@
            + bracketed(expr_texts(args)) + " }"@,
        ExprV::ApplyRel { relation, args } => "ApplyRel { relation: "@ + str_debug(relation) + ", args: "@
            + bracketed(expr_texts(args)) + " }"@,
        ExprV::Forall { binders, body } => "Forall { binders: "@ + bracketed(binder_texts(binders)) + ", body: "@
            + expr_debug(*body) + " }"@,
        ExprV::Exists { binders, body } => "Exists { binders: "@ + bracketed(binder_texts(binders)) + ", body: "@
            + expr_debug(*body) + " }"@,
        ExprV::Instantiate(inner) => "Instantiate("@ + expr_debug(*inner) + ")"@,
        ExprV::ExistentialBindings(bs) => "ExistentialBindings("@ + bracketed(binding_texts(bs)) + ")"@,
    }
}

/// The debug texts of a list of expressions.
pub open spec fn expr_texts(es: Seq<ExprV>) -> Seq<Seq<char>>
    decreases es,
{
    Seq::new(es.len(), |i: int| if 0 <= i < es.len() { expr_debug(es[i]) } else { Seq::empty() })
}

/// The debug texts of the arms of a `match`.
pub open spec fn arm_texts(arms: Seq<(PatternV, ExprV)>) -> Seq<Seq<char>>
    decreases arms,
{
    Seq::new(
        arms.len(),
        |i: int| if 0 <= i < arms.len() { paired(pattern_debug(arms[i].0), expr_debug(arms[i].1)) } else { Seq::empty() },
    )
}

/// The debug texts of named bindings.
pub open spec fn binding_texts(bs: Seq<(Seq<char>, ExprV)>) -> Seq<Seq<char>>
    decreases bs,
{
    Seq::new(
        bs.len(),
        |i: int| if 0 <= i < bs.len() { paired(str_debug(bs[i].0), expr_debug(bs[i].1)) } else { Seq::empty() },
    )
}

/// The debug texts of typed binders.
pub open spec fn binder_texts(bs: Seq<(Seq<char>, BaseTypeV)>) -> Seq<Seq<char>> {
    Seq::new(bs.len(), |i: int| paired(str_debug(bs[i].0), base_debug(bs[i].1)))
}

/// The debug text of each pattern of a list.
fn pattern_list_text(ps: &Vec<Pattern>) -> (r: String)
    ensures
        r@ == bracketed(pattern_texts(pattern_views(ps@))),
    decreases ps, 0nat,
{
    let mut parts: Vec<String> = Vec::new();
    let mut i: usize = 0;
    while i < ps.len()
        invariant
            0 <= i <= ps@.len(),
            parts@.len() == i,
            forall|k: int| 0 <= k < i ==> (#[trigger] parts@[k])@ == pattern_debug(ps@[k]@),
        decreases ps@.len() - i,
    {
        proof {
            assert(decreases_to!(ps => ps@));
            assert(decreases_to!(ps@ => ps@[i as int]));
        }
        let t = pattern_text(&ps[i]);
        parts.push(t);
        i = i + 1;
    }
    let r = bracket_list(&parts);
    proof {
        assert(texts(parts@) =~= pattern_texts(pattern_views(ps@)));
    }
    r
}

/// The debug text of a pattern (see [`pattern_debug`]).
pub fn pattern_text(p: &Pattern) -> (r: String)
    ensures
        r@ == pattern_debug(p@),
    decreases p, 1nat,
{
    match p {
        Pattern::Wildcard => {
            let r = String::from_str("Wildcard");
            proof {
                assert(p@ == PatternV::Wildcard);
            }
            r
        },
        Pattern::Ident(x) => {
            let mut r = String::from_str("Ident(");
            let q = quoted(x.as_str());
            r.append(q.as_str());
            r.append(")");
            proof {
                assert(p@ == PatternV::Ident(x@));
                assert(r@ =~= "Ident("@ + str_debug(x@) + ")"@);
            }
            r
        },
        Pattern::Constructor { name, args, arg_types } => {
            proof {
                assert(decreases_to!(*p => (*p)->Constructor_args));
            }
            let mut r = String::from_str("Constructor { name: ");
            let q = quoted(name.as_str());
            r.append(q.as_str());
            r.append(", args: ");
            let a = pattern_list_text(args);
            r.append(a.as_str());
            r.append(", arg_types: ");
            let ghost at = match arg_types {
                Some(ts) => Some(base_views(ts@)),
                None => None,
            };
            let ghost tail = match at {
                Some(ts) => "Some("@ + bracketed(base_texts(ts)) + ")"@,
                None => "None"@,
            };
            match arg_types {
                Some(ts) => {
                    r.append("Some(");
                    let t = base_list_text(ts);
                    r.append(t.as_str());
                    r.append(")");
                },
                None => {
                    r.append("None");
                },
            }
            r.append(" }");
            proof {
                assert(p@ == PatternV::Constructor { name: name@, args: pattern_views(args@), arg_types: at });
                assert(r@ =~= "Constructor { name: "@ + str_debug(name@) + ", args: "@
                    + bracketed(pattern_texts(pattern_views(args@))) + ", arg_types: "@ + tail + " }"@);
                assert(r@ == pattern_debug(p@));
            }
            r
        },
        Pattern::Tuple(ps) => {
            proof {
                assert(decreases_to!(*p => (*p)->Tuple_0));
            }
            let mut r = String::from_str("Tuple(");
            let a = pattern_list_text(ps);
            r.append(a.as_str());
            r.append(")");
            proof {
                assert(p@ == PatternV::Tuple(pattern_views(ps@)));
                assert(r@ =~= "Tuple("@ + bracketed(pattern_texts(pattern_views(ps@))) + ")"@);
            }
            r
        },
    }
}

/// The debug text of each expression of a list.
fn expr_list_text(es: &Vec<Expr>) -> (r: String)
    ensures
        r@ == bracketed(expr_texts(expr_views(es@))),
    decreases es, 0nat,
{
    let mut parts: Vec<String> = Vec::new();
    let mut i: usize = 0;
    while i < es.len()
        invariant
            0 <= i <= es@.len(),
            parts@.len() == i,
            forall|k: int| 0 <= k < i ==> (#[trigger] parts@[k])@ == expr_debug(es@[k]@),
        decreases es@.len() - i,
    {
        proof {
            assert(decreases_to!(es => es@));
            assert(decreases_to!(es@ => es@[i as int]));
        }
        let t = expr_text(&es[i]);
        parts.push(t);
        i = i + 1;
    }
    let r = bracket_list(&parts);
    proof {
        assert(texts(parts@) =~= expr_texts(expr_views(es@)));
    }
    r
}

/// The debug text of each arm of a `match`.
fn arm_list_text(arms: &Vec<(Pattern, Expr)>) -> (r: String)
    ensures
        r@ == bracketed(arm_texts(arms_view(arms@))),
    decreases arms, 0nat,
{
    let mut parts: Vec<String> = Vec::new();
    let mut i: usize = 0;
    while i < arms.len()
        invariant
            0 <= i <= arms@.len(),
            parts@.len() == i,
            forall|k: int| 0 <= k < i ==> (#[trigger] parts@[k])@
                == paired(pattern_debug(arms@[k].0@), expr_debug(arms@[k].1@)),
        decreases arms@.len() - i,
    {
        proof {
            assert(decreases_to!(arms => arms@));
            assert(decreases_to!(arms@ => arms@[i as int]));
            assert(decreases_to!(arms@[i as int] => arms@[i as int].1));
        }
        let mut t = String::from_str("(");
        let a = pattern_text(&arms[i].0);
        t.append(a.as_str());
        t.append(", ");
        let b = expr_text(&arms[i].1);
        t.append(b.as_str());
        t.append(")");
        proof {
            assert(t@ =~= paired(pattern_debug(arms@[i as int].0@), expr_debug(arms@[i as int].1@)));
        }
        parts.push(t);
        i = i + 1;
    }
    let r = bracket_list(&parts);
    proof {
        assert(texts(parts@) =~= arm_texts(arms_view(arms@)));
    }
    r
}

/// The debug text of each named binding of a list.
fn binding_list_text(bs: &Vec<(Ident, Expr)>) -> (r: String)
    ensures
        r@ == bracketed(binding_texts(bindings_view(bs@))),
    decreases bs, 0nat,
{
    let mut parts: Vec<String> = Vec::new();
    let mut i: usize = 0;
    while i < bs.len()
        invariant
            0 <= i <= bs@.len(),
            parts@.len() == i,
            forall|k: int| 0 <= k < i ==> (#[trigger] parts@[k])@ == paired(str_debug(bs@[k].0@), expr_debug(bs@[k].1@)),
        decreases bs@.len() - i,
    {
        proof {
            assert(decreases_to!(bs => bs@));
            assert(decreases_to!(bs@ => bs@[i as int]));
            assert(decreases_to!(bs@[i as int] => bs@[i as int].1));
        }
        let mut t = String::from_str("(");
        let a = quoted(bs[i].0.as_str());
        t.append(a.as_str());
        t.append(", ");
        let b = expr_text(&bs[i].1);
        t.append(b.as_str());
        t.append(")");
        proof {
            assert(t@ =~= paired(str_debug(bs@[i as int].0@), expr_debug(bs@[i as int].1@)));
        }
        parts.push(t);
        i = i + 1;
    }
    let r = bracket_list(&parts);
    proof {
        assert(texts(parts@) =~= binding_texts(bindings_view(bs@)));
    }
    r
}

/// The debug text of each typed binder of a list.
fn binder_list_text(bs: &Vec<(Ident, BaseType)>) -> (r: String)
    ensures
        r@ == bracketed(binder_texts(binders_view(bs@))),
{
    let mut parts: Vec<String> = Vec::new();
    let mut i: usize = 0;
    while i < bs.len()
        invariant
            0 <= i <= bs@.len(),
            parts@.len() == i,
            forall|k: int| 0 <= k < i ==> (#[trigger] parts@[k])@ == paired(str_debug(bs@[k].0@), base_debug(bs@[k].1@)),
        decreases bs@.len() - i,
    {
        let mut t = String::from_str("(");
        let a = quoted(bs[i].0.as_str());
        t.append(a.as_str());
        t.append(", ");
        let b = base_text(&bs[i].1);
        t.append(b.as_str());
        t.append(")");
        proof {
            assert(t@ =~= paired(str_debug(bs@[i as int].0@), base_debug(bs@[i as int].1@)));
        }
        parts.push(t);
        i = i + 1;
    }
    let r = bracket_list(&parts);
    proof {
        assert(texts(parts@) =~= binder_texts(binders_view(bs@)));
    }
    r
}

/// The debug text of an expression, as its derived `Debug` writes it with
/// `{:?}` (see [`expr_debug`]).
pub fn expr_text(e: &Expr) -> (r: String)
    ensures
        r@ == expr_debug(e@),
    decreases e, 2nat,
{
    match e {
        Expr::Tuple(_) | Expr::Call { .. } | Expr::Constructor { .. } | Expr::ApplyRel { .. } | Expr::Match { .. }
        | Expr::Forall { .. } | Expr::Exists { .. } | Expr::ExistentialBindings(_) => list_form_text(e),
        _ => node_form_text(e),
    }
}

/// [`expr_text`] on the forms that hold a list.
#[verifier::spinoff_prover]
fn list_form_text(e: &Expr) -> (r: String)
    requires
        e is Tuple || e is Call || e is Constructor || e is ApplyRel || e is Match || e is Forall || e is Exists
            || e is ExistentialBindings,
    ensures
        r@ == expr_debug(e@),
    decreases e, 1nat,
{
    match e {
        Expr::Tuple(es) => {
            proof {
                assert(decreases_to!(*e => (*e)->Tuple_0));
            }
            let mut r = String::from_str("Tuple(");
            let a = expr_list_text(es);
            r.append(a.as_str());
            r.append(")");
            proof {
                assert(e@ == ExprV::Tuple(expr_views(es@)));
                assert(r@ =~= "Tuple("@ + bracketed(expr_texts(expr_views(es@))) + ")"@);
                assert(r@ == expr_debug(e@));
            }
            r
        },
        Expr::Call { func, args } => {
            proof {
                assert(decreases_to!(*e => (*e)->Call_args));
            }
            let mut r = String::from_str("Call { func: ");
            let q = quoted(func.as_str());
            r.append(q.as_str());
            r.append(", args: ");
            let a = expr_list_text(args);
            r.append(a.as_str());
            r.append(" }");
            proof {
                assert(e@ == ExprV::Call { func: func@, args: expr_views(args@) });
                assert(r@ =~= "Call { func: "@ + str_debug(func@) + ", args: "@ + bracketed(expr_texts(expr_views(args@)))
                    + " }"@);
                assert(r@ == expr_debug(e@));
            }
            r
        },
        Expr::Constructor { name, args } => {
            proof {
                assert(decreases_to!(*e => (*e)->Constructor_args));
            }
            let mut r = String::from_str("Constructor { name: ");
            let q = quoted(name.as_str());
            r.append(q.as_str());
            r.append(", args: ");
            let a = expr_list_text(args);
            r.append(a.as_str());
            r.append(" }");
            proof {
                assert(e@ == ExprV::Constructor { name: name@, args: expr_views(args@) });
                assert(r@ =~= "Constructor { name: "@ + str_debug(name@) + ", args: "@
                    + bracketed(expr_texts(expr_views(args@))) + " }"@);
                assert(r@ == expr_debug(e@));
            }
            r
        },
        Expr::ApplyRel { relation, args } => {
            proof {
                assert(decreases_to!(*e => (*e)->ApplyRel_args));
            }
            let mut r = String::from_str("ApplyRel { relation: ");
            let q = quoted(relation.as_str());
            r.append(q.as_str());
            r.append(", args: ");
            let a = expr_list_text(args);
            r.append(a.as_str());
            r.append(" }");
            proof {
                assert(e@ == ExprV::ApplyRel { relation: relation@, args: expr_views(args@) });
                assert(r@ =~= "ApplyRel { relation: "@ + str_debug(relation@) + ", args: "@
                    + bracketed(expr_texts(expr_views(args@))) + " }"@);
                assert(r@ == expr_debug(e@));
            }
            r
        },
        Expr::Match { expr, arms } => {
            proof {
                assert(decreases_to!(*e => (*e)->arms));
            }
            let mut r = String::from_str("Match { expr: ");
            let a = expr_text(expr);
            r.append(a.as_str());
            r.append(", arms: ");
            let b = arm_list_text(arms);
            r.append(b.as_str());
            r.append(" }");
            proof {
                assert(e@ == ExprV::Match { expr: Box::new((**expr)@), arms: arms_view(arms@) });
                assert(r@ =~= "Match { expr: "@ + expr_debug((**expr)@) + ", arms: "@ + bracketed(arm_texts(arms_view(arms@)))
                    + " }"@);
                assert(r@ == expr_debug(e@));
            }
            r
        },
        Expr::Forall { binders, body } => {
            let mut r = String::from_str("Forall { binders: ");
            let a = binder_list_text(binders);
            r.append(a.as_str());
            r.append(", body: ");
            let b = expr_text(body);
            r.append(b.as_str());
            r.append(" }");
            proof {
                assert(e@ == ExprV::Forall { binders: binders_view(binders@), body: Box::new((**body)@) });
                assert(r@ =~= "Forall { binders: "@ + bracketed(binder_texts(binders_view(binders@))) + ", body: "@
                    + expr_debug((**body)@) + " }"@);
                assert(r@ == expr_debug(e@));
            }
            r
        },
        Expr::Exists { binders, body } => {
            let mut r = String::from_str("Exists { binders: ");
            let a = binder_list_text(binders);
            r.append(a.as_str());
            r.append(", body: ");
            let b = expr_text(body);
            r.append(b.as_str());
            r.append(" }");
            proof {
                assert(e@ == ExprV::Exists { binders: binders_view(binders@), body: Box::new((**body)@) });
                assert(r@ =~= "Exists { binders: "@ + bracketed(binder_texts(binders_view(binders@))) + ", body: "@
                    + expr_debug((**body)@) + " }"@);
                assert(r@ == expr_debug(e@));
            }
            r
        },
        Expr::ExistentialBindings(bs) => {
            proof {
                assert(decreases_to!(*e => (*e)->ExistentialBindings_0));
            }
            let mut r = String::from_str("ExistentialBindings(");
            let a = binding_list_text(bs);
            r.append(a.as_str());
            r.append(")");
            proof {
                assert(e@ == ExprV::ExistentialBindings(bindings_view(bs@)));
                assert(r@ =~= "ExistentialBindings("@ + bracketed(binding_texts(bindings_view(bs@))) + ")"@);
                assert(r@ == expr_debug(e@));
            }
            r
        },
        _ => String::new(),
    }
}

/// [`expr_text`] on the other forms.
#[verifier::spinoff_prover]
fn node_form_text(e: &Expr) -> (r: String)
    requires
        !(e is Tuple || e is Call || e is Constructor || e is ApplyRel || e is Match || e is Forall || e is Exists
            || e is ExistentialBindings),
    ensures
        r@ == expr_debug(e@),
    decreases e, 1nat,
{
    match e {
        Expr::BoolConst(b) => {
            let mut r = String::from_str("BoolConst(");
            let t = bool_text(*b);
            r.append(t.as_str());
            r.append(")");
            proof {
                assert(e@ == ExprV::BoolConst(*b));
                assert(r@ =~= "BoolConst("@ + bool_debug(*b) + ")"@);
                assert(r@ == expr_debug(e@));
            }
            r
        },
        Expr::Var(x) => {
            let mut r = String::from_str("Var(");
            let q = quoted(x.as_str());
            r.append(q.as_str());
            r.append(")");
            proof {
                assert(e@ == ExprV::Var(x@));
                assert(r@ =~= "Var("@ + str_debug(x@) + ")"@);
                assert(r@ == expr_debug(e@));
            }
            r
        },
        Expr::BinOp { op, left, right } => {
            let mut r = String::from_str("BinOp { op: ");
            let o = binop_text(*op);
            r.append(o.as_str());
            r.append(", left: ");
            let a = expr_text(left);
            r.append(a.as_str());
            r.append(", right: ");
            let b = expr_text(right);
            r.append(b.as_str());
            r.append(" }");
            proof {
                assert(e@ == ExprV::BinOp { op: *op, left: Box::new((**left)@), right: Box::new((**right)@) });
                assert(r@ =~= "BinOp { op: "@ + binop_debug(*op) + ", left: "@ + expr_debug((**left)@) + ", right: "@
                    + expr_debug((**right)@) + " }"@);
                assert(r@ == expr_debug(e@));
            }
            r
        },
        Expr::UnOp { op, expr } => {
            let mut r = String::from_str("UnOp { op: Not, expr: ");
            let a = expr_text(expr);
            r.append(a.as_str());
            r.append(" }");
            proof {
                assert(e@ == ExprV::UnOp { op: *op, expr: Box::new((**expr)@) });
                assert(r@ =~= "UnOp { op: Not, expr: "@ + expr_debug((**expr)@) + " }"@);
                assert(r@ == expr_debug(e@));
            }
            r
        },
        Expr::If { cond, then_expr, else_expr } => {
            let mut r = String::from_str("If { cond: ");
            let a = expr_text(cond);
            r.append(a.as_str());
            r.append(", then_expr: ");
            let b = expr_text(then_expr);
            r.append(b.as_str());
            r.append(", else_expr: ");
            let c = expr_text(else_expr);
            r.append(c.as_str());
            r.append(" }");
            proof {
                assert(e@ == ExprV::If {
                    cond: Box::new((**cond)@),
                    then_expr: Box::new((**then_expr)@),
                    else_expr: Box::new((**else_expr)@),
                });
                assert(r@ =~= "If { cond: "@ + expr_debug((**cond)@) + ", then_expr: "@ + expr_debug((**then_expr)@)
                    + ", else_expr: "@ + expr_debug((**else_expr)@) + " }"@);
                assert(r@ == expr_debug(e@));
            }
            r
        },
        Expr::Let { pat, bound_expr, body } => {
            let mut r = String::from_str("Let { pat: ");
            let p = pattern_text(pat);
            r.append(p.as_str());
            r.append(", bound_expr: ");
            let a = expr_text(bound_expr);
            r.append(a.as_str());
            r.append(", body: ");
            let b = expr_text(body);
            r.append(b.as_str());
            r.append(" }");
            proof {
                assert(e@ == ExprV::Let { pat: pat@, bound_expr: Box::new((**bound_expr)@), body: Box::new((**body)@) });
                assert(r@ =~= "Let { pat: "@ + pattern_debug(pat@) + ", bound_expr: "@ + expr_debug((**bound_expr)@)
                    + ", body: "@ + expr_debug((**body)@) + " }"@);
                assert(r@ == expr_debug(e@));
            }
            r
        },
        Expr::Instantiate(inner) => {
            let mut r = String::from_str("Instantiate(");
            let a = expr_text(inner);
            r.append(a.as_str());
            r.append(")");
            proof {
                assert(e@ == ExprV::Instantiate(Box::new((**inner)@)));
                assert(r@ =~= "Instantiate("@ + expr_debug((**inner)@) + ")"@);
                assert(r@ == expr_debug(e@));
            }
            r
        },
        _ => String::new(),
    }
}

} // verus!
