//! S-expressions, their SMT-LIB text, and the translation of the formulas
//! that reach the solver (after relational abstraction) into them.

use vstd::prelude::*;
use crate::ast::{BaseType, BaseTypeV, BinOp, Expr, ExprV, Ident, UnOp, binders_view, expr_views};
use crate::smt::builder::{render_sort, sort_text};
use crate::text::{sanitized, sanitize_id};

verus! {

broadcast use vstd::std_specs::vec::group_vec_axioms, crate::ast::group_ast_views;

/// An s-expression: an atom, or a parenthesised list.
#[derive(Debug)]
pub enum Sexp {
    Atom(String),
    List(Vec<Sexp>),
}

/// The view of an s-expression.
pub enum SexpV {
    Atom(Seq<char>),
    List(Seq<SexpV>),
}

pub open spec fn sexp_view(s: Sexp) -> SexpV
    decreases s,
{
    match s {
        Sexp::Atom(a) => SexpV::Atom(a@),
        Sexp::List(xs) => SexpV::List(sexp_views(xs@)),
    }
}

/// The views of a list of s-expressions.
pub open spec fn sexp_views(s: Seq<Sexp>) -> Seq<SexpV>
    decreases s,
{
    Seq::new(s.len(), |i: int| if 0 <= i < s.len() { sexp_view(s[i]) } else { SexpV::Atom(Seq::empty()) })
}

impl View for Sexp {
    type V = SexpV;

    open spec fn view(&self) -> SexpV {
        sexp_view(*self)
    }
}

/// The view of a list is taken element by element.
pub broadcast proof fn lemma_sexp_views(s: Seq<Sexp>)
    ensures
        #[trigger] sexp_views(s).len() == s.len(),
        forall|i: int| 0 <= i < s.len() ==> #[trigger] sexp_views(s)[i] == s[i]@,
{
}

/// The text of an s-expression: an atom as it is, a list as its elements
/// between parentheses, separated by single spaces.
pub open spec fn sexp_text(s: SexpV) -> Seq<char>
    decreases s, 0int,
{
    match s {
        SexpV::Atom(a) => a,
        SexpV::List(xs) => "("@ + items_text(xs, xs.len() as int) + ")"@,
    }
}

/// The texts of the first `k` elements, separated by single spaces.
pub open spec fn items_text(xs: Seq<SexpV>, k: int) -> Seq<char>
    decreases xs, k,
{
    if k <= 0 || k > xs.len() {
        Seq::empty()
    } else if k == 1 {
        sexp_text(xs[0])
    } else {
        items_text(xs, k - 1) + " "@ + sexp_text(xs[k - 1])
    }
}

/// Writes an s-expression as SMT-LIB text.
pub fn render_sexp(s: &Sexp) -> (r: String)
    ensures
        r@ == sexp_text(s@),
    decreases s,
{
    match s {
        Sexp::Atom(a) => a.clone(),
        Sexp::List(xs) => {
            proof {
                reveal_strlit("(");
                reveal_strlit(")");
                reveal_strlit(" ");
                assert(s@ == SexpV::List(sexp_views(xs@)));
            }
            let ghost xv = sexp_views(xs@);
            let mut out = String::from_str("(");
            let mut i: usize = 0;
            while i < xs.len()
                invariant
                    0 <= i <= xs@.len(),
                    xv == sexp_views(xs@),
                    *s == Sexp::List(*xs),
                    out@ == "("@ + items_text(xv, i as int),
                decreases xs@.len() - i,
            {
                proof {
                    assert(decreases_to!(*s => (*s)->List_0));
                    assert(decreases_to!(xs@ => xs@[i as int]));
                }
                if i > 0 {
                    out.append(" ");
                }
                let t = render_sexp(&xs[i]);
                out.append(t.as_str());
                proof {
                    assert(xv[i as int] == xs@[i as int]@);
                    if i == 0 {
                        assert(items_text(xv, 1) == sexp_text(xv[0]));
                        assert(items_text(xv, 0) =~= Seq::<char>::empty());
                    }
                }
                i = i + 1;
            }
            out.append(")");
            out
        },
    }
}

/// An atom.
pub open spec fn atom(a: Seq<char>) -> SexpV {
    SexpV::Atom(a)
}

/// The s-expressions of the formulas that reach the solver: constants,
/// variables, connectives, quantifiers and relation applications. None for
/// anything else (calls, constructors, `let`, `if`, `match`, tuples and
/// hints must be gone by then).
pub open spec fn smt_of(e: ExprV) -> Option<SexpV>
    decreases e, 1int,
{
    match e {
        ExprV::BoolConst(b) => Some(atom(if b { "true"@ } else { "false"@ })),
        ExprV::Var(x) => Some(atom(sanitized(x))),
        ExprV::UnOp { op: _, expr } => match smt_of(*expr) {
            Some(s) => Some(SexpV::List(seq![atom("not"@), s])),
            None => None,
        },
        ExprV::BinOp { op, left, right } => match (smt_of(*left), smt_of(*right)) {
            (Some(l), Some(r)) => Some(SexpV::List(seq![atom(binop_text(op)), l, r])),
            _ => None,
        },
        ExprV::Forall { binders, body } => match smt_of(*body) {
            Some(b) => Some(if binders.len() == 0 { b } else { SexpV::List(seq![atom("forall"@), sorted_vars(binders), b]) }),
            None => None,
        },
        ExprV::Exists { binders, body } => match smt_of(*body) {
            Some(b) => Some(if binders.len() == 0 { b } else { SexpV::List(seq![atom("exists"@), sorted_vars(binders), b]) }),
            None => None,
        },
        ExprV::ApplyRel { relation, args } => match smt_all(args, 0) {
            Some(xs) => Some(SexpV::List(seq![atom(sanitized(relation))] + xs)),
            None => None,
        },
        _ => None,
    }
}

/// [`smt_of`] on the expressions of `es` from the `i`-th on.
pub open spec fn smt_all(es: Seq<ExprV>, i: int) -> Option<Seq<SexpV>>
    decreases es, es.len() - i,
{
    if i < 0 || i >= es.len() {
        Some(Seq::empty())
    } else {
        match (smt_of(es[i]), smt_all(es, i + 1)) {
            (Some(s), Some(rest)) => Some(seq![s] + rest),
            _ => None,
        }
    }
}

/// The SMT-LIB operator of a connective.
pub open spec fn binop_text(op: BinOp) -> Seq<char> {
    match op {
        BinOp::And => "and"@,
        BinOp::Or => "or"@,
        BinOp::Implies => "=>"@,
        BinOp::Eq => "="@,
        BinOp::Neq => "distinct"@,
    }
}

/// The sorted variables of a quantifier: `((x S) ..)`.
pub open spec fn sorted_vars(bs: Seq<(Seq<char>, BaseTypeV)>) -> SexpV {
    SexpV::List(Seq::new(bs.len(), |i: int| SexpV::List(seq![atom(sanitized(bs[i].0)), atom(sort_text(bs[i].1))])))
}

/// An atom holding `s`.
pub fn mk_atom(s: &str) -> (r: Sexp)
    ensures
        r@ == atom(s@),
{
    Sexp::Atom(String::from_str(s))
}

/// The list `(a b)` of two s-expressions.
fn pair(a: Sexp, b: Sexp) -> (r: Sexp)
    ensures
        r@ == SexpV::List(seq![a@, b@]),
{
    let mut v: Vec<Sexp> = Vec::new();
    v.push(a);
    v.push(b);
    let r = Sexp::List(v);
    proof {
        assert(sexp_views(v@) =~= seq![a@, b@]);
    }
    r
}

/// The list `(a b c)` of three s-expressions.
fn triple(a: Sexp, b: Sexp, c: Sexp) -> (r: Sexp)
    ensures
        r@ == SexpV::List(seq![a@, b@, c@]),
{
    let mut v: Vec<Sexp> = Vec::new();
    v.push(a);
    v.push(b);
    v.push(c);
    let r = Sexp::List(v);
    proof {
        assert(sexp_views(v@) =~= seq![a@, b@, c@]);
    }
    r
}

/// The sorted variables of a quantifier (see [`sorted_vars`]).
fn sorted_vars_sexp(bs: &Vec<(Ident, BaseType)>) -> (r: Sexp)
    ensures
        r@ == sorted_vars(binders_view(bs@)),
{
    let ghost bv = binders_view(bs@);
    let mut out: Vec<Sexp> = Vec::new();
    let mut i: usize = 0;
    while i < bs.len()
        invariant
            0 <= i <= bs@.len(),
            bv == binders_view(bs@),
            sexp_views(out@) =~= Seq::new(i as nat, |k: int| SexpV::List(seq![atom(sanitized(bv[k].0)), atom(sort_text(bv[k].1))])),
        decreases bs@.len() - i,
    {
        let name = Sexp::Atom(sanitize_id(bs[i].0.as_str()));
        let sort = Sexp::Atom(render_sort(&bs[i].1));
        let ghost before = sexp_views(out@);
        out.push(pair(name, sort));
        proof {
            assert(sexp_views(out@) =~= before.push(SexpV::List(seq![atom(sanitized(bv[i as int].0)), atom(sort_text(bv[i as int].1))])));
        }
        i = i + 1;
    }
    let r = Sexp::List(out);
    proof {
        assert(sexp_views(out@) =~= sorted_vars(bv)->List_0);
    }
    r
}

/// The connective's operator as an atom.
fn binop_atom(op: BinOp) -> (r: Sexp)
    ensures
        r@ == atom(binop_text(op)),
{
    match op {
        BinOp::And => mk_atom("and"),
        BinOp::Or => mk_atom("or"),
        BinOp::Implies => mk_atom("=>"),
        BinOp::Eq => mk_atom("="),
        BinOp::Neq => mk_atom("distinct"),
    }
}

/// Translates a formula for the solver (see [`smt_of`]); none where it still
/// holds a node the solver cannot read.
pub fn expr_to_smt(expr: &Expr) -> (r: Option<Sexp>)
    ensures
        smt_of(expr@) == match r {
            Some(s) => Some(s@),
            None => None,
        },
    decreases expr, 1int,
{
    match expr {
        Expr::BoolConst(b) => Some(if *b { mk_atom("true") } else { mk_atom("false") }),
        Expr::Var(x) => Some(Sexp::Atom(sanitize_id(x.as_str()))),
        Expr::UnOp { op, expr: inner } => {
            proof {
                assert(expr@ == ExprV::UnOp { op: *op, expr: Box::new((**inner)@) });
                assert(decreases_to!(*expr => *(*expr)->UnOp_expr));
            }
            match expr_to_smt(inner) {
                Some(s) => Some(pair(mk_atom("not"), s)),
                None => None,
            }
        },
        Expr::BinOp { op, left, right } => {
            proof {
                assert(expr@ == ExprV::BinOp { op: *op, left: Box::new((**left)@), right: Box::new((**right)@) });
                assert(decreases_to!(*expr => *(*expr)->BinOp_left));
                assert(decreases_to!(*expr => *(*expr)->BinOp_right));
            }
            let l = expr_to_smt(left);
            let r = expr_to_smt(right);
            match (l, r) {
                (Some(l), Some(r)) => Some(triple(binop_atom(*op), l, r)),
                _ => None,
            }
        },
        Expr::Forall { binders, body } => {
            proof {
                assert(expr@ == ExprV::Forall { binders: binders_view(binders@), body: Box::new((**body)@) });
                assert(decreases_to!(*expr => *(*expr)->Forall_body));
            }
            match expr_to_smt(body) {
                Some(b) => if binders.len() == 0 {
                    Some(b)
                } else {
                    Some(triple(mk_atom("forall"), sorted_vars_sexp(binders), b))
                },
                None => None,
            }
        },
        Expr::Exists { binders, body } => {
            proof {
                assert(expr@ == ExprV::Exists { binders: binders_view(binders@), body: Box::new((**body)@) });
                assert(decreases_to!(*expr => *(*expr)->Exists_body));
            }
            match expr_to_smt(body) {
                Some(b) => if binders.len() == 0 {
                    Some(b)
                } else {
                    Some(triple(mk_atom("exists"), sorted_vars_sexp(binders), b))
                },
                None => None,
            }
        },
        Expr::ApplyRel { relation, args } => {
            proof {
                assert(expr@ == ExprV::ApplyRel { relation: relation@, args: expr_views(args@) });
                assert(decreases_to!(*expr => (*expr)->ApplyRel_args));
            }
            let mut out: Vec<Sexp> = Vec::new();
            out.push(Sexp::Atom(sanitize_id(relation.as_str())));
            proof {
                assert(sexp_views(out@) =~= seq![atom(sanitized(relation@))]);
            }
            if smt_list(args, &mut out) {
                let r = Sexp::List(out);
                proof {
                    assert(r@ == SexpV::List(sexp_views(out@)));
                }
                Some(r)
            } else {
                None
            }
        },
        _ => None,
    }
}

/// [`smt_all`] is defined exactly when each expression from the `i`-th on
/// has a translation, and then lists the translations.
pub proof fn lemma_smt_all(es: Seq<ExprV>, i: int)
    requires
        0 <= i <= es.len(),
    ensures
        smt_all(es, i) is Some <==> forall|k: int| i <= k < es.len() ==> smt_of(#[trigger] es[k]) is Some,
        smt_all(es, i) is Some ==> smt_all(es, i).unwrap() =~= Seq::new((es.len() - i) as nat, |k: int| smt_of(es[i + k]).unwrap()),
    decreases es.len() - i,
{
    if i < es.len() {
        lemma_smt_all(es, i + 1);
        if smt_of(es[i]) is Some && smt_all(es, i + 1) is Some {
            let rest = smt_all(es, i + 1).unwrap();
            assert(smt_all(es, i).unwrap() == seq![smt_of(es[i]).unwrap()] + rest);
        }
    }
}

/// Appends the translation of each expression of `es` to `out`; false,
/// with `out` left in any state, where one has none.
fn smt_list(es: &Vec<Expr>, out: &mut Vec<Sexp>) -> (r: bool)
    ensures
        r == smt_all(expr_views(es@), 0) is Some,
        r ==> sexp_views(final(out)@) == sexp_views(old(out)@) + smt_all(expr_views(es@), 0).unwrap(),
    decreases es, 0int,
{
    let ghost ev = expr_views(es@);
    let ghost start = sexp_views(out@);
    proof {
        lemma_smt_all(ev, 0);
    }
    let mut i: usize = 0;
    while i < es.len()
        invariant
            0 <= i <= es@.len(),
            ev == expr_views(es@),
            start == sexp_views(old(out)@),
            forall|k: int| 0 <= k < i ==> smt_of(#[trigger] ev[k]) is Some,
            sexp_views(out@) =~= start + Seq::new(i as nat, |k: int| smt_of(ev[k]).unwrap()),
        decreases es@.len() - i,
    {
        proof {
            lemma_smt_all(ev, 0);
            assert(decreases_to!(*es => es@));
            assert(decreases_to!(es@ => es@[i as int]));
            assert(ev[i as int] == es@[i as int]@);
        }
        let ghost before = sexp_views(out@);
        match expr_to_smt(&es[i]) {
            Some(s) => {
                out.push(s);
                proof {
                    assert(sexp_views(out@) =~= before.push(s@));
                    assert(sexp_views(out@) =~= start + Seq::new((i + 1) as nat, |k: int| smt_of(ev[k]).unwrap()));
                }
            },
            None => {
                proof {
                    lemma_smt_all(ev, 0);
                    assert(smt_of(ev[i as int]) is None);
                }
                return false;
            },
        }
        i = i + 1;
    }
    proof {
        lemma_smt_all(ev, 0);
        assert(Seq::new(i as nat, |k: int| smt_of(ev[k]).unwrap()) =~= smt_all(ev, 0).unwrap());
    }
    true
}

} // verus!
