//! The grammar of specification signatures, on text: `(args) -> ret`, each
//! argument `name: ty` or `name: ty{refinement}`, the result `ty`,
//! `r: ty{refinement}` or `Lemma(requires(..), ensures(..))`. Splitting
//! goes by round, square and curly brackets: a comma or a brace inside
//! brackets belongs to the piece around it. The types, refinements and
//! lemma parts come out as text, to be read as Rust syntax.

use vstd::prelude::*;
use crate::parser::{RefinedArg, SpecLemma, SpecReturn, SpecReturnType, SpecSignature, lemma_parts, lemma_scan};
use crate::source::{expr_syntax, parse_expr_text, parse_type_text, type_syntax};
use crate::syntax::SynExpr;
use crate::model::{find_char, first_of, text_chars, text_of, trim_range, trim_white};

verus! {

broadcast use vstd::std_specs::vec::group_vec_axioms;

/// How a character changes the bracket depth.
pub open spec fn delta(c: char) -> int {
    if c == '(' || c == '[' || c == '{' {
        1
    } else if c == ')' || c == ']' || c == '}' {
        -1
    } else {
        0
    }
}

/// The first position from `i` on where `sep` stands at depth zero, the
/// depth being `d` at `i`; the length when there is none.
pub open spec fn scan_top(t: Seq<char>, sep: char, i: int, d: int) -> int
    decreases t.len() - i,
{
    if i < 0 || i >= t.len() {
        t.len() as int
    } else if d == 0 && t[i] == sep {
        i
    } else {
        scan_top(t, sep, i + 1, d + delta(t[i]))
    }
}

/// The first position from `i` on after which the depth, `d` at `i`, is
/// zero; the length when there is none.
pub open spec fn scan_close(t: Seq<char>, i: int, d: int) -> int
    decreases t.len() - i,
{
    if i < 0 || i >= t.len() {
        t.len() as int
    } else if d + delta(t[i]) == 0 {
        i
    } else {
        scan_close(t, i + 1, d + delta(t[i]))
    }
}

/// Where [`scan_top`] stops: at a separator, or at the end.
pub proof fn lemma_scan_top_bounds(t: Seq<char>, sep: char, i: int, d: int)
    requires
        0 <= i,
    ensures
        i <= scan_top(t, sep, i, d) <= t.len() || (i > t.len() && scan_top(t, sep, i, d) == t.len()),
        scan_top(t, sep, i, d) < t.len() ==> t[scan_top(t, sep, i, d)] == sep,
    decreases t.len() - i,
{
    if i < t.len() && !(d == 0 && t[i] == sep) {
        lemma_scan_top_bounds(t, sep, i + 1, d + delta(t[i]));
    }
}

/// The pieces of `t` between the separators `sep` that stand at depth zero.
pub open spec fn split_top(t: Seq<char>, sep: char) -> Seq<Seq<char>>
    decreases t.len(),
{
    let j = scan_top(t, sep, 0, 0);
    if j >= t.len() {
        seq![t]
    } else {
        proof {
            lemma_scan_top_bounds(t, sep, 0, 0);
        }
        seq![t.take(j)] + split_top(t.skip(j + 1), sep)
    }
}

/// [`scan_top`] on `cs[lo..hi]` from its start, counted from `lo`.
fn find_top(cs: &Vec<char>, lo: usize, hi: usize, sep: char) -> (r: usize)
    requires
        lo <= hi <= cs@.len(),
    ensures
        r == scan_top(cs@.subrange(lo as int, hi as int), sep, 0, 0),
        r <= hi - lo,
{
    let ghost t = cs@.subrange(lo as int, hi as int);
    let mut j: usize = lo;
    let mut d: i128 = 0;
    while j < hi
        invariant
            lo <= j <= hi <= cs@.len(),
            t == cs@.subrange(lo as int, hi as int),
            -(j - lo) <= d <= j - lo,
            scan_top(t, sep, 0, 0) == scan_top(t, sep, j - lo, d as int),
        decreases hi - j,
    {
        assert(t[j - lo] == cs@[j as int]);
        if d == 0 && cs[j] == sep {
            return j - lo;
        }
        let c = cs[j];
        if c == '(' || c == '[' || c == '{' {
            d = d + 1;
        } else if c == ')' || c == ']' || c == '}' {
            d = d - 1;
        }
        j = j + 1;
    }
    hi - lo
}

/// [`scan_close`] on `cs[lo..hi]` from its position 1 at depth 1, counted
/// from `lo`: the bracket that closes the one at `lo`.
fn find_close(cs: &Vec<char>, lo: usize, hi: usize) -> (r: usize)
    requires
        lo < hi <= cs@.len(),
    ensures
        r == scan_close(cs@.subrange(lo as int, hi as int), 1, 1),
        1 <= r <= hi - lo,
{
    let ghost t = cs@.subrange(lo as int, hi as int);
    let mut j: usize = lo + 1;
    let mut d: i128 = 1;
    while j < hi
        invariant
            lo + 1 <= j <= hi <= cs@.len(),
            t == cs@.subrange(lo as int, hi as int),
            -(j - lo) <= d <= j - lo,
            scan_close(t, 1, 1) == scan_close(t, j - lo, d as int),
        decreases hi - j,
    {
        assert(t[j - lo] == cs@[j as int]);
        let c = cs[j];
        let mut d2 = d;
        if c == '(' || c == '[' || c == '{' {
            d2 = d + 1;
        } else if c == ')' || c == ']' || c == '}' {
            d2 = d - 1;
        }
        if d2 == 0 {
            return j - lo;
        }
        d = d2;
        j = j + 1;
    }
    hi - lo
}

/// The bounds of the pieces of `cs[lo..hi]` (see [`split_top`]).
fn split_ranges(cs: &Vec<char>, lo: usize, hi: usize, sep: char) -> (r: Vec<(usize, usize)>)
    requires
        lo <= hi <= cs@.len(),
    ensures
        r@.len() == split_top(cs@.subrange(lo as int, hi as int), sep).len(),
        forall|k: int| 0 <= k < r@.len() ==> {
            &&& lo <= (#[trigger] r@[k]).0 <= r@[k].1 <= hi
            &&& cs@.subrange(r@[k].0 as int, r@[k].1 as int) == split_top(cs@.subrange(lo as int, hi as int), sep)[k]
        },
{
    let mut out: Vec<(usize, usize)> = Vec::new();
    let mut start: usize = lo;
    let ghost whole = split_top(cs@.subrange(lo as int, hi as int), sep);
    loop
        invariant_except_break
            whole == texts_of(cs@, out@) + split_top(cs@.subrange(start as int, hi as int), sep),
        invariant
            lo <= start <= hi <= cs@.len(),
            whole == split_top(cs@.subrange(lo as int, hi as int), sep),
            forall|k: int| 0 <= k < out@.len() ==> lo <= (#[trigger] out@[k]).0 <= out@[k].1 <= hi,
        ensures
            whole == texts_of(cs@, out@),
            forall|k: int| 0 <= k < out@.len() ==> lo <= (#[trigger] out@[k]).0 <= out@[k].1 <= hi,
        decreases hi - start,
    {
        let j = find_top(cs, start, hi, sep);
        let ghost t = cs@.subrange(start as int, hi as int);
        if j == hi - start {
            let ghost before = out@;
            out.push((start, hi));
            proof {
                assert(split_top(t, sep) == seq![t]);
                assert(texts_of(cs@, out@) =~= texts_of(cs@, before).push(t));
                assert(whole =~= texts_of(cs@, out@));
            }
            break;
        }
        proof {
            lemma_scan_top_bounds(t, sep, 0, 0);
            assert(split_top(t, sep) == seq![t.take(j as int)] + split_top(t.skip(j + 1), sep));
            assert(t.take(j as int) =~= cs@.subrange(start as int, start + j));
            assert(t.skip(j + 1) =~= cs@.subrange(start + j + 1, hi as int));
        }
        let ghost before = out@;
        out.push((start, start + j));
        proof {
            assert(texts_of(cs@, out@) =~= texts_of(cs@, before).push(cs@.subrange(start as int, start + j)));
            assert(whole =~= texts_of(cs@, out@) + split_top(cs@.subrange(start + j + 1, hi as int), sep));
        }
        start = start + j + 1;
    }
    proof {
        assert forall|k: int| 0 <= k < out@.len() implies cs@.subrange((#[trigger] out@[k]).0 as int, out@[k].1 as int)
            == whole[k] by {
            assert(texts_of(cs@, out@)[k] == cs@.subrange(out@[k].0 as int, out@[k].1 as int));
        }
    }
    out
}

/// The texts of ranges of `s`.
pub open spec fn texts_of(s: Seq<char>, rs: Seq<(usize, usize)>) -> Seq<Seq<char>> {
    Seq::new(rs.len(), |k: int| s.subrange(rs[k].0 as int, rs[k].1 as int))
}

/// A character of an identifier.
pub open spec fn ident_char(c: char) -> bool {
    ('a' <= c && c <= 'z') || ('A' <= c && c <= 'Z') || ('0' <= c && c <= '9') || c == '_'
}

/// Whether a text is an identifier: letters, digits and `_`, not starting
/// with a digit.
pub open spec fn is_ident(s: Seq<char>) -> bool {
    &&& s.len() > 0
    &&& !('0' <= s[0] && s[0] <= '9')
    &&& forall|i: int| 0 <= i < s.len() ==> ident_char(#[trigger] s[i])
}

/// The comma-separated pieces of a list, each trimmed, a trailing comma
/// allowed.
pub open spec fn pieces(t: Seq<char>) -> Seq<Seq<char>> {
    let sp = split_top(t, ',');
    let ps = Seq::new(sp.len(), |k: int| trim_white(sp[k]));
    if ps.len() > 0 && ps.last().len() == 0 {
        ps.drop_last()
    } else {
        ps
    }
}

/// A type with an optional refinement in braces after it.
pub open spec fn tyref(t: Seq<char>) -> Option<(Seq<char>, Option<Seq<char>>)> {
    let b = scan_top(t, '{', 0, 0);
    let ty = trim_white(t.take(b));
    if b >= t.len() {
        let ty = trim_white(t);
        if ty.len() > 0 { Some((ty, None)) } else { None }
    } else {
        let u = t.skip(b);
        let c = scan_close(u, 1, 1);
        if c < u.len() && trim_white(u.skip(c + 1)).len() == 0 && ty.len() > 0 {
            Some((ty, Some(u.subrange(1, c))))
        } else {
            None
        }
    }
}

/// An argument, `name: ty` or `name: ty{refinement}`.
pub open spec fn arg_of(p: Seq<char>) -> Option<(Seq<char>, Seq<char>, Option<Seq<char>>)> {
    let c = first_of(p, ':') as int;
    if c >= p.len() {
        None
    } else {
        let name = trim_white(p.take(c));
        let rest = p.skip(c + 1);
        if !is_ident(name) || (rest.len() > 0 && rest[0] == ':') {
            None
        } else {
            match tyref(rest) {
                Some((ty, rf)) => Some((name, ty, rf)),
                None => None,
            }
        }
    }
}

/// Every piece as an argument.
pub open spec fn args_of(ps: Seq<Seq<char>>) -> Option<Seq<(Seq<char>, Seq<char>, Option<Seq<char>>)>>
    decreases ps.len(),
{
    if ps.len() == 0 {
        Some(Seq::empty())
    } else {
        match (args_of(ps.drop_last()), arg_of(ps.last())) {
            (Some(a), Some(x)) => Some(a.push(x)),
            _ => None,
        }
    }
}

/// The result of a signature, as text.
pub enum RetTextV {
    Type { bind: Option<Seq<char>>, ty: Seq<char>, refinement: Option<Seq<char>> },
    Lemma(Seq<Seq<char>>),
}

/// Whether a text starts with the word `Lemma`.
pub open spec fn lemma_head(r: Seq<char>) -> bool {
    r.len() >= 5 && r[0] == 'L' && r[1] == 'e' && r[2] == 'm' && r[3] == 'm' && r[4] == 'a'
}

/// The result: `Lemma(parts)`, `r: ty{refinement}` or `ty`.
pub open spec fn ret_of(r: Seq<char>) -> Option<RetTextV> {
    let q = trim_white(r.skip(5));
    if lemma_head(r) && q.len() > 0 && q[0] == '(' {
        let c = scan_close(q, 1, 1);
        if c == q.len() - 1 {
            Some(RetTextV::Lemma(pieces(q.subrange(1, c))))
        } else {
            None
        }
    } else {
        let c = first_of(r, ':') as int;
        let bound = c < r.len() && is_ident(trim_white(r.take(c))) && !(c + 1 < r.len() && r[c + 1] == ':');
        let rest = if bound { r.skip(c + 1) } else { r };
        match tyref(rest) {
            Some((ty, rf)) => Some(RetTextV::Type { bind: if bound { Some(trim_white(r.take(c))) } else { None }, ty, refinement: rf }),
            None => None,
        }
    }
}

/// A signature `(args) -> ret`, as text.
pub open spec fn sig_of(s: Seq<char>) -> Option<(Seq<(Seq<char>, Seq<char>, Option<Seq<char>>)>, RetTextV)> {
    let t = trim_white(s);
    let c = scan_close(t, 1, 1);
    let after = trim_white(t.skip(c + 1));
    if t.len() == 0 || t[0] != '(' || c >= t.len() || after.len() < 2 || after[0] != '-' || after[1] != '>' {
        None
    } else {
        match (args_of(pieces(t.subrange(1, c))), ret_of(trim_white(after.skip(2)))) {
            (Some(a), Some(r)) => Some((a, r)),
            _ => None,
        }
    }
}

/// [`is_ident`] on `cs[lo..hi]`.
fn ident_range(cs: &Vec<char>, lo: usize, hi: usize) -> (r: bool)
    requires
        lo <= hi <= cs@.len(),
    ensures
        r == is_ident(cs@.subrange(lo as int, hi as int)),
{
    let ghost t = cs@.subrange(lo as int, hi as int);
    if lo == hi {
        return false;
    }
    let c0 = cs[lo];
    assert(t[0] == cs@[lo as int]);
    if '0' <= c0 && c0 <= '9' {
        return false;
    }
    let mut j: usize = lo;
    while j < hi
        invariant
            lo <= j <= hi <= cs@.len(),
            t == cs@.subrange(lo as int, hi as int),
            forall|i: int| 0 <= i < j - lo ==> ident_char(#[trigger] t[i]),
        decreases hi - j,
    {
        let c = cs[j];
        assert(t[j - lo] == c);
        if !(('a' <= c && c <= 'z') || ('A' <= c && c <= 'Z') || ('0' <= c && c <= '9') || c == '_') {
            return false;
        }
        j = j + 1;
    }
    true
}

/// [`tyref`] on `cs[lo..hi]`.
fn tyref_range(cs: &Vec<char>, lo: usize, hi: usize) -> (r: Option<(String, Option<String>)>)
    requires
        lo <= hi <= cs@.len(),
    ensures
        tyref(cs@.subrange(lo as int, hi as int)) == match r {
            Some((ty, rf)) => Some((ty@, match rf {
                Some(x) => Some(x@),
                None => None,
            })),
            None => None,
        },
{
    let ghost t = cs@.subrange(lo as int, hi as int);
    let b = find_top(cs, lo, hi, '{');
    proof {
        assert(t.take(b as int) =~= cs@.subrange(lo as int, lo + b));
    }
    if b == hi - lo {
        let (ta, tb) = trim_range(cs, lo, hi);
        if ta < tb {
            return Some((text_of(cs, ta, tb), None));
        } else {
            return None;
        }
    }
    let (ta, tb) = trim_range(cs, lo, lo + b);
    let ub = lo + b;
    let c = find_close(cs, ub, hi);
    proof {
        assert(t.skip(b as int) =~= cs@.subrange(ub as int, hi as int));
    }
    if c == hi - ub {
        return None;
    }
    let (sa, sb) = trim_range(cs, ub + c + 1, hi);
    proof {
        assert(t.skip(b as int).skip(c + 1) =~= cs@.subrange(ub + c + 1, hi as int));
        assert(t.skip(b as int).subrange(1, c as int) =~= cs@.subrange(ub + 1, ub + c));
    }
    if sa == sb && ta < tb {
        Some((text_of(cs, ta, tb), Some(text_of(cs, ub + 1, ub + c))))
    } else {
        None
    }
}

/// An argument of a signature, as text.
pub struct ArgText {
    pub name: String,
    pub ty: String,
    pub refinement: Option<String>,
}

/// The text of an optional piece.
pub open spec fn opt_text(o: Option<String>) -> Option<Seq<char>> {
    match o {
        Some(x) => Some(x@),
        None => None,
    }
}

impl View for ArgText {
    type V = (Seq<char>, Seq<char>, Option<Seq<char>>);

    open spec fn view(&self) -> (Seq<char>, Seq<char>, Option<Seq<char>>) {
        (self.name@, self.ty@, opt_text(self.refinement))
    }
}

/// The result of a signature, as text.
pub enum RetText {
    Type { bind: Option<String>, ty: String, refinement: Option<String> },
    Lemma(Vec<String>),
}

impl View for RetText {
    type V = RetTextV;

    open spec fn view(&self) -> RetTextV {
        match self {
            RetText::Type { bind, ty, refinement } => RetTextV::Type { bind: opt_text(*bind), ty: ty@, refinement: opt_text(*refinement) },
            RetText::Lemma(parts) => RetTextV::Lemma(Seq::new(parts@.len(), |k: int| parts@[k]@)),
        }
    }
}

/// A signature `(args) -> ret`, as text.
pub struct SignatureText {
    pub inputs: Vec<ArgText>,
    pub ret: RetText,
}

impl View for SignatureText {
    type V = (Seq<(Seq<char>, Seq<char>, Option<Seq<char>>)>, RetTextV);

    open spec fn view(&self) -> (Seq<(Seq<char>, Seq<char>, Option<Seq<char>>)>, RetTextV) {
        (Seq::new(self.inputs@.len(), |k: int| self.inputs@[k]@), self.ret@)
    }
}

/// [`arg_of`] on `cs[lo..hi]`.
fn arg_range(cs: &Vec<char>, lo: usize, hi: usize) -> (r: Option<ArgText>)
    requires
        lo <= hi <= cs@.len(),
    ensures
        arg_of(cs@.subrange(lo as int, hi as int)) == match r {
            Some(a) => Some(a@),
            None => None,
        },
{
    let ghost p = cs@.subrange(lo as int, hi as int);
    let c = find_char(cs, lo, hi, ':');
    if c == hi - lo {
        return None;
    }
    let (na, nb) = trim_range(cs, lo, lo + c);
    proof {
        assert(p.take(c as int) =~= cs@.subrange(lo as int, lo + c));
        assert(p.skip(c + 1) =~= cs@.subrange(lo + c + 1, hi as int));
    }
    if !ident_range(cs, na, nb) {
        return None;
    }
    if lo + c + 1 < hi && cs[lo + c + 1] == ':' {
        proof {
            assert(p.skip(c + 1)[0] == cs@[lo + c + 1]);
        }
        return None;
    }
    match tyref_range(cs, lo + c + 1, hi) {
        Some((ty, refinement)) => {
            let a = ArgText { name: text_of(cs, na, nb), ty, refinement };
            Some(a)
        },
        None => None,
    }
}

/// The bounds of the [`pieces`] of `cs[lo..hi]`.
fn piece_ranges(cs: &Vec<char>, lo: usize, hi: usize) -> (r: Vec<(usize, usize)>)
    requires
        lo <= hi <= cs@.len(),
    ensures
        texts_of(cs@, r@) == pieces(cs@.subrange(lo as int, hi as int)),
        forall|k: int| 0 <= k < r@.len() ==> lo <= (#[trigger] r@[k]).0 <= r@[k].1 <= hi,
{
    let ghost t = cs@.subrange(lo as int, hi as int);
    let ghost sp = split_top(t, ',');
    let rs = split_ranges(cs, lo, hi, ',');
    let mut out: Vec<(usize, usize)> = Vec::new();
    let mut k: usize = 0;
    while k < rs.len()
        invariant
            0 <= k <= rs@.len(),
            lo <= hi <= cs@.len(),
            sp == split_top(t, ','),
            t == cs@.subrange(lo as int, hi as int),
            rs@.len() == sp.len(),
            forall|m: int| 0 <= m < rs@.len() ==> {
                &&& lo <= (#[trigger] rs@[m]).0 <= rs@[m].1 <= hi
                &&& cs@.subrange(rs@[m].0 as int, rs@[m].1 as int) == sp[m]
            },
            out@.len() == k,
            forall|m: int| 0 <= m < k ==> lo <= (#[trigger] out@[m]).0 <= out@[m].1 <= hi,
            forall|m: int| 0 <= m < k ==> cs@.subrange((#[trigger] out@[m]).0 as int, out@[m].1 as int) == trim_white(sp[m]),
        decreases rs@.len() - k,
    {
        let (a, b) = rs[k];
        let tr = trim_range(cs, a, b);
        out.push(tr);
        k = k + 1;
    }
    let ghost ps = Seq::new(sp.len(), |m: int| trim_white(sp[m]));
    proof {
        assert(texts_of(cs@, out@) =~= ps);
    }
    if out.len() > 0 && out[out.len() - 1].0 == out[out.len() - 1].1 {
        let ghost before = out@;
        out.pop();
        proof {
            assert(ps.last().len() == 0);
            assert(texts_of(cs@, out@) =~= ps.drop_last());
        }
    } else {
        proof {
            if ps.len() > 0 {
                assert(ps.last() == cs@.subrange(out@[out@.len() - 1].0 as int, out@[out@.len() - 1].1 as int));
            }
        }
    }
    out
}

/// [`args_of`] on the pieces at the given bounds.
fn args_ranges(cs: &Vec<char>, rs: &Vec<(usize, usize)>) -> (r: Option<Vec<ArgText>>)
    requires
        forall|k: int| 0 <= k < rs@.len() ==> (#[trigger] rs@[k]).0 <= rs@[k].1 <= cs@.len(),
    ensures
        args_of(texts_of(cs@, rs@)) == match r {
            Some(v) => Some(Seq::new(v@.len(), |k: int| v@[k]@)),
            None => None,
        },
{
    let ghost ps = texts_of(cs@, rs@);
    let mut out: Vec<ArgText> = Vec::new();
    let mut k: usize = 0;
    proof {
        assert(ps.take(0) =~= Seq::<Seq<char>>::empty());
        assert(Seq::new(out@.len(), |m: int| out@[m]@) =~= Seq::<(Seq<char>, Seq<char>, Option<Seq<char>>)>::empty());
    }
    while k < rs.len()
        invariant
            0 <= k <= rs@.len(),
            ps == texts_of(cs@, rs@),
            forall|m: int| 0 <= m < rs@.len() ==> (#[trigger] rs@[m]).0 <= rs@[m].1 <= cs@.len(),
            args_of(ps.take(k as int)) == Some(Seq::new(out@.len(), |m: int| out@[m]@)),
        decreases rs@.len() - k,
    {
        let (a, b) = rs[k];
        let one = arg_range(cs, a, b);
        proof {
            assert(ps.take(k + 1).drop_last() =~= ps.take(k as int));
            assert(ps.take(k + 1).last() == cs@.subrange(a as int, b as int));
        }
        match one {
            Some(x) => {
                let ghost before = out@;
                out.push(x);
                proof {
                    assert(Seq::new(out@.len(), |m: int| out@[m]@) =~= Seq::new(before.len(), |m: int| before[m]@).push(x@));
                }
            },
            None => {
                proof {
                    lemma_args_of_prefix(ps, k + 1);
                }
                return None;
            },
        }
        k = k + 1;
    }
    proof {
        assert(ps.take(rs@.len() as int) =~= ps);
    }
    Some(out)
}

/// A list whose prefix has a piece that is no argument has none either.
proof fn lemma_args_of_prefix(ps: Seq<Seq<char>>, k: int)
    requires
        0 <= k <= ps.len(),
        args_of(ps.take(k)) is None,
    ensures
        args_of(ps) is None,
    decreases ps.len() - k,
{
    if k < ps.len() {
        assert(ps.take(k + 1).drop_last() =~= ps.take(k));
        lemma_args_of_prefix(ps, k + 1);
    } else {
        assert(ps.take(k) =~= ps);
    }
}

/// The texts at the given bounds.
fn texts_at(cs: &Vec<char>, rs: &Vec<(usize, usize)>) -> (r: Vec<String>)
    requires
        forall|k: int| 0 <= k < rs@.len() ==> (#[trigger] rs@[k]).0 <= rs@[k].1 <= cs@.len(),
    ensures
        Seq::new(r@.len(), |k: int| r@[k]@) == texts_of(cs@, rs@),
{
    let mut out: Vec<String> = Vec::new();
    let mut k: usize = 0;
    while k < rs.len()
        invariant
            0 <= k <= rs@.len(),
            forall|m: int| 0 <= m < rs@.len() ==> (#[trigger] rs@[m]).0 <= rs@[m].1 <= cs@.len(),
            out@.len() == k,
            forall|m: int| 0 <= m < k ==> (#[trigger] out@[m])@ == cs@.subrange(rs@[m].0 as int, rs@[m].1 as int),
        decreases rs@.len() - k,
    {
        let (a, b) = rs[k];
        out.push(text_of(cs, a, b));
        k = k + 1;
    }
    proof {
        assert(Seq::new(out@.len(), |k: int| out@[k]@) =~= texts_of(cs@, rs@));
    }
    out
}

/// [`ret_of`] on `cs[lo..hi]`.
fn ret_range(cs: &Vec<char>, lo: usize, hi: usize) -> (r: Option<RetText>)
    requires
        lo <= hi <= cs@.len(),
    ensures
        ret_of(cs@.subrange(lo as int, hi as int)) == match r {
            Some(x) => Some(x@),
            None => None,
        },
{
    let ghost t = cs@.subrange(lo as int, hi as int);
    let head = hi - lo >= 5 && cs[lo] == 'L' && cs[lo + 1] == 'e' && cs[lo + 2] == 'm' && cs[lo + 3] == 'm'
        && cs[lo + 4] == 'a';
    proof {
        if hi - lo >= 5 {
            assert(t[0] == cs@[lo as int] && t[1] == cs@[lo + 1] && t[2] == cs@[lo + 2] && t[3] == cs@[lo + 3]
                && t[4] == cs@[lo + 4]);
        }
        assert(head == lemma_head(t));
    }
    if head {
        let (qa, qb) = trim_range(cs, lo + 5, hi);
        proof {
            assert(t.skip(5) =~= cs@.subrange(lo + 5, hi as int));
        }
        if qa < qb && cs[qa] == '(' {
            let ghost q = cs@.subrange(qa as int, qb as int);
            assert(q[0] == cs@[qa as int]);
            let c = find_close(cs, qa, qb);
            if c == qb - qa - 1 {
                let rs = piece_ranges(cs, qa + 1, qa + c);
                proof {
                    assert(q.subrange(1, c as int) =~= cs@.subrange(qa + 1, qa + c));
                }
                let parts = texts_at(cs, &rs);
                return Some(RetText::Lemma(parts));
            } else {
                return None;
            }
        }
    }
    let c = find_char(cs, lo, hi, ':');
    let mut bound = false;
    let mut na: usize = lo;
    let mut nb: usize = lo;
    proof {
        assert(t.take(c as int) =~= cs@.subrange(lo as int, lo + c));
    }
    if c < hi - lo {
        let (a, b) = trim_range(cs, lo, lo + c);
        na = a;
        nb = b;
        let id = ident_range(cs, a, b);
        let double = lo + c + 1 < hi && cs[lo + c + 1] == ':';
        proof {
            if lo + c + 1 < hi {
                assert(t[c + 1] == cs@[lo + c + 1]);
            }
        }
        bound = id && !double;
    }
    let start = if bound { lo + c + 1 } else { lo };
    proof {
        if bound {
            assert(t.skip(c + 1) =~= cs@.subrange(start as int, hi as int));
        } else {
            assert(t =~= cs@.subrange(start as int, hi as int));
        }
    }
    match tyref_range(cs, start, hi) {
        Some((ty, refinement)) => {
            let bind = if bound { Some(text_of(cs, na, nb)) } else { None };
            Some(RetText::Type { bind, ty, refinement })
        },
        None => None,
    }
}

/// Reads a specification signature's text (see [`sig_of`]).
pub fn parse_signature_text(s: &str) -> (r: Option<SignatureText>)
    ensures
        sig_of(s@) == match r {
            Some(x) => Some(x@),
            None => None,
        },
{
    let cs = text_chars(s);
    let n = cs.len();
    let (ta, tb) = trim_range(&cs, 0, n);
    let ghost t = cs@.subrange(ta as int, tb as int);
    proof {
        assert(cs@.subrange(0, n as int) =~= s@);
    }
    if ta == tb || cs[ta] != '(' {
        proof {
            if ta < tb {
                assert(t[0] == cs@[ta as int]);
            }
        }
        return None;
    }
    assert(t[0] == cs@[ta as int]);
    let c = find_close(&cs, ta, tb);
    if c == tb - ta {
        return None;
    }
    let (aa, ab) = trim_range(&cs, ta + c + 1, tb);
    let ghost after = cs@.subrange(aa as int, ab as int);
    proof {
        assert(t.skip(c + 1) =~= cs@.subrange(ta + c + 1, tb as int));
    }
    if ab - aa < 2 || cs[aa] != '-' || cs[aa + 1] != '>' {
        proof {
            if ab - aa >= 2 {
                assert(after[0] == cs@[aa as int] && after[1] == cs@[aa + 1]);
            }
        }
        return None;
    }
    proof {
        assert(after[0] == cs@[aa as int] && after[1] == cs@[aa + 1]);
        assert(after.skip(2) =~= cs@.subrange(aa + 2, ab as int));
        assert(t.subrange(1, c as int) =~= cs@.subrange(ta + 1, ta + c));
    }
    let rs = piece_ranges(&cs, ta + 1, ta + c);
    let inputs = match args_ranges(&cs, &rs) {
        Some(v) => v,
        None => {
            return None;
        },
    };
    let (ra, rb) = trim_range(&cs, aa + 2, ab);
    match ret_range(&cs, ra, rb) {
        Some(ret) => {
            let sig = SignatureText { inputs, ret };
            Some(sig)
        },
        None => None,
    }
}

/// What an optional refinement text reads as: none, or the expression it
/// reads as; `None` when it does not read.
pub open spec fn piece_expr(rf: Option<Seq<char>>) -> Option<Option<SynExpr>> {
    match rf {
        None => Some(None),
        Some(t) => match expr_syntax(t) {
            Some(e) => Some(Some(e)),
            None => None,
        },
    }
}

/// Whether an argument is what its pieces read as.
pub open spec fn arg_reads(a: RefinedArg, p: (Seq<char>, Seq<char>, Option<Seq<char>>)) -> bool {
    &&& a.name@ == p.0
    &&& type_syntax(p.1) == Some(a.ty)
    &&& piece_expr(p.2) == Some(a.refinement)
}

/// Whether an argument's pieces read as Rust syntax.
pub open spec fn arg_readable(p: (Seq<char>, Seq<char>, Option<Seq<char>>)) -> bool {
    type_syntax(p.1) is Some && piece_expr(p.2) is Some
}

/// The expressions the parts of a lemma read as; `None` when one does not.
pub open spec fn lemma_exprs(parts: Seq<Seq<char>>) -> Option<Seq<SynExpr>>
    decreases parts.len(),
{
    if parts.len() == 0 {
        Some(Seq::empty())
    } else {
        match (lemma_exprs(parts.drop_last()), expr_syntax(parts.last())) {
            (Some(a), Some(e)) => Some(a.push(e)),
            _ => None,
        }
    }
}

/// Whether a result is what its pieces read as.
pub open spec fn ret_reads(r: SpecReturn, t: RetTextV) -> bool {
    match t {
        RetTextV::Type { bind, ty, refinement } => match r {
            SpecReturn::Type(rt) => opt_text(rt.bind) == bind && type_syntax(ty) == Some(rt.ty)
                && piece_expr(refinement) == Some(rt.refinement),
            SpecReturn::Lemma(_) => false,
        },
        RetTextV::Lemma(parts) => match (lemma_exprs(parts), r) {
            (Some(es), SpecReturn::Lemma(l)) => lemma_scan(es, None, None) == (l.requires, Some(l.ensures)),
            _ => false,
        },
    }
}

/// Whether a result's pieces read as Rust syntax, a lemma with an `ensures`.
pub open spec fn ret_readable(t: RetTextV) -> bool {
    match t {
        RetTextV::Type { ty, refinement, .. } => type_syntax(ty) is Some && piece_expr(refinement) is Some,
        RetTextV::Lemma(parts) => match lemma_exprs(parts) {
            Some(es) => lemma_scan(es, None, None).1 is Some,
            None => false,
        },
    }
}

/// Whether a signature's text reads: its grammar ([`sig_of`]), and each of
/// its pieces as Rust syntax.
pub open spec fn signature_readable(text: Seq<char>) -> bool {
    match sig_of(text) {
        Some((args, ret)) => (forall|i: int| 0 <= i < args.len() ==> arg_readable(#[trigger] args[i])) && ret_readable(ret),
        None => false,
    }
}

/// Whether a specification signature is what a text reads as.
pub open spec fn signature_reads(a: SpecSignature, text: Seq<char>) -> bool {
    match sig_of(text) {
        Some((args, ret)) => {
            &&& a.inputs@.len() == args.len()
            &&& forall|i: int| 0 <= i < args.len() ==> arg_reads(#[trigger] a.inputs@[i], args[i])
            &&& ret_reads(a.ret, ret)
        },
        None => false,
    }
}

/// An optional refinement text read as an expression.
fn read_refinement(rf: &Option<String>) -> (r: Option<Option<SynExpr>>)
    ensures
        r == piece_expr(opt_text(*rf)),
{
    match rf {
        None => Some(None),
        Some(t) => match parse_expr_text(t.as_str()) {
            Some(e) => Some(Some(e)),
            None => None,
        },
    }
}

/// Reads a specification signature from its text: the grammar, then each
/// type, refinement and lemma part as Rust syntax.
pub fn read_signature(text: &str) -> (r: Option<SpecSignature>)
    ensures
        r is Some <==> signature_readable(text@),
        r matches Some(a) ==> signature_reads(a, text@),
{
    let st = match parse_signature_text(text) {
        Some(st) => st,
        None => {
            return None;
        },
    };
    let ghost args = st@.0;
    let mut inputs: Vec<RefinedArg> = Vec::new();
    let mut k: usize = 0;
    while k < st.inputs.len()
        invariant
            0 <= k <= st.inputs@.len(),
            sig_of(text@) == Some(st@),
            args == st@.0,
            args.len() == st.inputs@.len(),
            inputs@.len() == k,
            forall|i: int| 0 <= i < k ==> arg_readable(#[trigger] args[i]),
            forall|i: int| 0 <= i < k ==> arg_reads(#[trigger] inputs@[i], args[i]),
        decreases st.inputs@.len() - k,
    {
        let arg = &st.inputs[k];
        assert(args[k as int] == arg@);
        let ty = match parse_type_text(arg.ty.as_str()) {
            Some(t) => t,
            None => {
                return None;
            },
        };
        let refinement = match read_refinement(&arg.refinement) {
            Some(x) => x,
            None => {
                return None;
            },
        };
        inputs.push(RefinedArg { name: arg.name.clone(), ty, refinement });
        k = k + 1;
    }
    let ret = match &st.ret {
        RetText::Type { bind, ty, refinement } => {
            let t = match parse_type_text(ty.as_str()) {
                Some(t) => t,
                None => {
                    return None;
                },
            };
            let rf = match read_refinement(refinement) {
                Some(x) => x,
                None => {
                    return None;
                },
            };
            let b = match bind {
                Some(x) => Some(x.clone()),
                None => None,
            };
            SpecReturn::Type(SpecReturnType { bind: b, ty: t, refinement: rf })
        },
        RetText::Lemma(parts) => {
            let ghost pv = Seq::new(parts@.len(), |m: int| parts@[m]@);
            assert(st@.1 == RetTextV::Lemma(pv));
            let mut exprs: Vec<SynExpr> = Vec::new();
            let mut j: usize = 0;
            proof {
                assert(pv.take(0) =~= Seq::<Seq<char>>::empty());
                assert(exprs@ =~= Seq::<SynExpr>::empty());
            }
            while j < parts.len()
                invariant
                    0 <= j <= parts@.len(),
                    sig_of(text@) == Some(st@),
                    st@.1 == RetTextV::Lemma(pv),
                    pv == Seq::new(parts@.len(), |m: int| parts@[m]@),
                    lemma_exprs(pv.take(j as int)) == Some(exprs@),
                decreases parts@.len() - j,
            {
                let e = parse_expr_text(parts[j].as_str());
                proof {
                    assert(pv.take(j + 1).drop_last() =~= pv.take(j as int));
                    assert(pv.take(j + 1).last() == parts@[j as int]@);
                }
                match e {
                    Some(x) => {
                        exprs.push(x);
                    },
                    None => {
                        proof {
                            lemma_exprs_prefix(pv, j + 1);
                        }
                        return None;
                    },
                }
                j = j + 1;
            }
            proof {
                assert(pv.take(parts@.len() as int) =~= pv);
            }
            match lemma_parts(exprs) {
                Some(l) => SpecReturn::Lemma(l),
                None => {
                    return None;
                },
            }
        },
    };
    let a = SpecSignature { inputs, ret };
    proof {
        assert(signature_reads(a, text@));
    }
    Some(a)
}

/// A list of parts whose prefix does not read does not read either.
proof fn lemma_exprs_prefix(ps: Seq<Seq<char>>, k: int)
    requires
        0 <= k <= ps.len(),
        lemma_exprs(ps.take(k)) is None,
    ensures
        lemma_exprs(ps) is None,
    decreases ps.len() - k,
{
    if k < ps.len() {
        assert(ps.take(k + 1).drop_last() =~= ps.take(k));
        lemma_exprs_prefix(ps, k + 1);
    } else {
        assert(ps.take(k) =~= ps);
    }
}

} // verus!
