//! Pattern resolution. Fills in the field sorts of every constructor pattern
//! of an expression from the datatype table: the parser sees one item at a
//! time, while the enum defining a constructor is registered by another item,
//! so this pass runs at registration time, before the body is type-checked.
//! Along the way a match on a tuple of variables is compiled into nested
//! matches on single variables, a bare `_` arm is replaced by the patterns the
//! arms before it leave uncovered, and overlapping arms are rejected: arms
//! are encoded as unordered cases, so they must be pairwise disjoint.
//!
//! Every failure (an unknown or unqualified constructor, a wrong number of
//! fields, overlapping arms, ...) makes the pass return `None`.

use vstd::prelude::*;
use crate::api::{ctors_view, datatypes_view};
use crate::ast::{
    BaseType, BaseTypeV, Expr, ExprV, Ident, Pattern, PatternV, arms_view, base_views, binders_view, bindings_view, clone_base_types,
    clone_binders, expr_views, pattern_views,
};
use crate::cex::defs::subst_view;
use crate::cex::order::texts;
use crate::model::{entry_of, keyed, lemma_key_index, lemma_keys_agree, name_index};
use crate::text::{dec_text, decimal, sep_at};

verus! {

broadcast use vstd::std_specs::vec::group_vec_axioms, crate::ast::group_ast_views;

/// The datatype table's view: each enum with its constructors' field sorts.
pub type DtsV = Seq<(Seq<char>, Seq<(Seq<char>, Seq<BaseTypeV>)>)>;

/// `s` split at its last `::` (as `rsplit_once("::")`); none without one.
pub open spec fn last_split(s: Seq<char>) -> Option<(Seq<char>, Seq<char>)>
    decreases s.len(),
{
    if s.len() < 2 {
        None
    } else if sep_at(s, s.len() - 2) {
        Some((s.take(s.len() - 2), Seq::empty()))
    } else {
        match last_split(s.drop_last()) {
            Some(parts) => Some((parts.0, parts.1.push(s.last()))),
            None => None,
        }
    }
}

/// The split at the last `::`, at position `i`.
proof fn lemma_last_split(s: Seq<char>, i: int)
    requires
        0 <= i,
        i + 2 <= s.len(),
        sep_at(s, i),
        forall|k: int| i < k < s.len() - 1 ==> !sep_at(s, k),
    ensures
        last_split(s) == Some((s.take(i), s.skip(i + 2))),
    decreases s.len(),
{
    if i + 2 == s.len() {
        assert(s.skip(i + 2) =~= Seq::<char>::empty());
    } else {
        let t = s.drop_last();
        assert(!sep_at(s, s.len() - 2));
        assert(sep_at(t, i));
        assert forall|k: int| i < k < t.len() - 1 implies !sep_at(t, k) by {
            assert(!sep_at(s, k));
        }
        lemma_last_split(t, i);
        assert(t.take(i) =~= s.take(i));
        assert(t.skip(i + 2).push(s.last()) =~= s.skip(i + 2));
    }
}

/// No `::` anywhere: no split.
proof fn lemma_no_split(s: Seq<char>)
    requires
        forall|k: int| 0 <= k < s.len() - 1 ==> !sep_at(s, k),
    ensures
        last_split(s) is None,
    decreases s.len(),
{
    if s.len() >= 2 {
        let t = s.drop_last();
        assert(!sep_at(s, s.len() - 2));
        assert forall|k: int| 0 <= k < t.len() - 1 implies !sep_at(t, k) by {
            assert(!sep_at(s, k));
        }
        lemma_no_split(t);
    }
}

/// `name` split at its last `::` (see [`last_split`]).
fn split_name(name: &str) -> (r: Option<(String, String)>)
    ensures
        last_split(name@) == match r {
            Some((a, b)) => Some((a@, b@)),
            None => None,
        },
{
    let n = name.unicode_len();
    if n < 2 {
        return None;
    }
    let mut i: usize = n - 1;
    while i > 0
        invariant
            n == name@.len(),
            n >= 2,
            0 <= i <= n - 1,
            forall|k: int| i <= k < n - 1 ==> !sep_at(name@, k),
        decreases i,
    {
        if name.get_char(i - 1) == ':' && name.get_char(i) == ':' {
            let a = name.substring_char(0, i - 1);
            let b = name.substring_char(i + 1, n);
            proof {
                assert(sep_at(name@, i - 1));
                lemma_last_split(name@, i - 1);
                assert(a@ =~= name@.take(i - 1));
                assert(b@ =~= name@.skip(i + 1));
            }
            return Some((String::from_str(a), String::from_str(b)));
        }
        i = i - 1;
    }
    proof {
        lemma_no_split(name@);
    }
    None
}

/// The field sorts of constructor `Enum::Variant` in the table.
pub open spec fn field_sorts(dts: DtsV, name: Seq<char>) -> Option<Seq<BaseTypeV>> {
    match last_split(name) {
        Some(parts) => match entry_of(dts, parts.0) {
            Some(vs) => entry_of(vs, parts.1),
            None => None,
        },
        None => None,
    }
}

/// The position of datatype `e` in the table (the length if it has none).
fn datatype_pos(dts: &Vec<(Ident, Vec<(Ident, Vec<BaseType>)>)>, e: &String) -> (r: usize)
    ensures
        r <= dts@.len(),
        r < dts@.len() ==> entry_of(datatypes_view(dts@), e@) == Some(ctors_view(dts@[r as int].1@)),
        r == dts@.len() ==> entry_of(datatypes_view(dts@), e@) is None,
{
    let i = name_index(dts, e);
    proof {
        lemma_keys_agree(keyed(dts@), datatypes_view(dts@), e@);
        lemma_key_index(datatypes_view(dts@), e@);
    }
    i
}

/// The field sorts of constructor `name` (see [`field_sorts`]).
fn lookup_fields<'a>(dts: &'a Vec<(Ident, Vec<(Ident, Vec<BaseType>)>)>, name: &String) -> (r: Option<&'a Vec<BaseType>>)
    ensures
        field_sorts(datatypes_view(dts@), name@) == match r {
            Some(fts) => Some(base_views(fts@)),
            None => None,
        },
{
    let parts = split_name(name.as_str());
    match parts {
        Some((e, v)) => {
            let d = datatype_pos(dts, &e);
            if d == dts.len() {
                return None;
            }
            let vs = &dts[d].1;
            let c = name_index(vs, &v);
            proof {
                lemma_keys_agree(keyed(vs@), ctors_view(vs@), v@);
                lemma_key_index(ctors_view(vs@), v@);
            }
            if c == vs.len() {
                None
            } else {
                Some(&vs[c].1)
            }
        },
        None => None,
    }
}

/// A pattern with the field sorts of each of its constructor patterns filled
/// in; none where a constructor is not in the table or has another number of
/// fields.
pub open spec fn stamp(p: PatternV, dts: DtsV) -> Option<PatternV>
    decreases p, 1int,
{
    match p {
        PatternV::Constructor { name, args, .. } => match field_sorts(dts, name) {
            Some(fts) => if args.len() != fts.len() {
                None
            } else {
                match stamp_from(args, 0, dts) {
                    Some(qs) => Some(PatternV::Constructor { name, args: qs, arg_types: Some(fts) }),
                    None => None,
                }
            },
            None => None,
        },
        PatternV::Tuple(ps) => match stamp_from(ps, 0, dts) {
            Some(qs) => Some(PatternV::Tuple(qs)),
            None => None,
        },
        _ => Some(p),
    }
}

/// [`stamp`] on each pattern from the `i`-th on.
pub open spec fn stamp_from(ps: Seq<PatternV>, i: int, dts: DtsV) -> Option<Seq<PatternV>>
    decreases ps, ps.len() - i,
{
    if i < 0 || i >= ps.len() {
        Some(Seq::empty())
    } else {
        match (stamp(ps[i], dts), stamp_from(ps, i + 1, dts)) {
            (Some(a), Some(rest)) => Some(seq![a] + rest),
            _ => None,
        }
    }
}

/// Stamps the patterns `ps` (see [`stamp_from`]).
fn stamp_list(ps: &Vec<Pattern>, dts: &Vec<(Ident, Vec<(Ident, Vec<BaseType>)>)>, Ghost(owner): Ghost<Pattern>) -> (r: Option<Vec<Pattern>>)
    requires
        decreases_to!(owner => ps@),
    ensures
        stamp_from(pattern_views(ps@), 0, datatypes_view(dts@)) == match r {
            Some(qs) => Some(pattern_views(qs@)),
            None => None,
        },
    decreases owner, 0int,
{
    let ghost pv = pattern_views(ps@);
    let ghost dv = datatypes_view(dts@);
    let mut out: Vec<Pattern> = Vec::new();
    let mut i: usize = 0;
    proof {
        match stamp_from(pv, 0, dv) {
            Some(rest) => {
                assert(pattern_views(out@) + rest =~= rest);
            },
            None => {},
        }
    }
    while i < ps.len()
        invariant
            0 <= i <= ps@.len(),
            pv == pattern_views(ps@),
            dv == datatypes_view(dts@),
            decreases_to!(owner => ps@),
            stamp_from(pv, 0, dv) == match stamp_from(pv, i as int, dv) {
                Some(rest) => Some(pattern_views(out@) + rest),
                None => None,
            },
        decreases ps@.len() - i,
    {
        proof {
            assert(decreases_to!(ps@ => ps@[i as int]));
            assert(pv[i as int] == ps@[i as int]@);
        }
        match resolve_in_pattern(&ps[i], dts) {
            Some(q) => {
                proof {
                    let before = pattern_views(out@);
                    match stamp_from(pv, i + 1, dv) {
                        Some(rest) => {
                            assert(pattern_views(out@.push(q)) =~= before.push(q@));
                            assert(before + (seq![q@] + rest) =~= before.push(q@) + rest);
                        },
                        None => {},
                    }
                }
                out.push(q);
            },
            None => {
                return None;
            },
        }
        i = i + 1;
    }
    proof {
        assert(stamp_from(pv, i as int, dv) == Some(Seq::<PatternV>::empty()));
        assert(pattern_views(out@) + Seq::<PatternV>::empty() =~= pattern_views(out@));
    }
    Some(out)
}

/// Stamps one pattern and its sub-patterns with constructor field sorts
/// (see [`stamp`]).
pub fn resolve_in_pattern(p: &Pattern, dts: &Vec<(Ident, Vec<(Ident, Vec<BaseType>)>)>) -> (r: Option<Pattern>)
    ensures
        stamp(p@, datatypes_view(dts@)) == match r {
            Some(q) => Some(q@),
            None => None,
        },
    decreases p, 1int,
{
    match p {
        Pattern::Wildcard => Some(Pattern::Wildcard),
        Pattern::Ident(x) => Some(Pattern::Ident(x.clone())),
        Pattern::Tuple(ps) => {
            proof {
                assert(decreases_to!(*p => (*p)->Tuple_0));
                assert(p@ == PatternV::Tuple(pattern_views(ps@)));
            }
            match stamp_list(ps, dts, Ghost(*p)) {
                Some(qs) => Some(Pattern::Tuple(qs)),
                None => None,
            }
        },
        Pattern::Constructor { name, args, .. } => {
            proof {
                assert(decreases_to!(*p => (*p)->args));
                assert(p@ matches PatternV::Constructor { .. });
                assert(p@->Constructor_args == pattern_views(args@));
                assert(p@->Constructor_name == name@);
            }
            match lookup_fields(dts, name) {
                Some(fts) => {
                    if args.len() != fts.len() {
                        return None;
                    }
                    match stamp_list(args, dts, Ghost(*p)) {
                        Some(qs) => {
                            let ts = clone_base_types(fts);
                            let q = Pattern::Constructor { name: name.clone(), args: qs, arg_types: Some(ts) };
                            proof {
                                assert(q@ == PatternV::Constructor {
                                    name: name@,
                                    args: pattern_views(qs@),
                                    arg_types: Some(base_views(fts@)),
                                });
                            }
                            Some(q)
                        },
                        None => None,
                    }
                },
                None => None,
            }
        },
    }
}

/// Whether no value can match both patterns: a wildcard or a variable
/// matches everything; two constructor patterns are disjoint where their
/// heads differ or some pair of fields is; likewise tuples; a constructor
/// and a tuple never match one value.
pub open spec fn disjoint(p: PatternV, q: PatternV) -> bool
    decreases p, 1int,
{
    match p {
        PatternV::Constructor { name: n1, args: a1, .. } => match q {
            PatternV::Constructor { name: n2, args: a2, .. } => n1 != n2 || disjoint_from(a1, a2, 0),
            PatternV::Tuple(_) => true,
            _ => false,
        },
        PatternV::Tuple(a1) => match q {
            PatternV::Tuple(a2) => disjoint_from(a1, a2, 0),
            PatternV::Constructor { .. } => true,
            _ => false,
        },
        _ => false,
    }
}

/// Some pair of corresponding patterns, from the `i`-th on, is disjoint.
pub open spec fn disjoint_from(a1: Seq<PatternV>, a2: Seq<PatternV>, i: int) -> bool
    decreases a1, a1.len() - i,
{
    if i < 0 || i >= a1.len() || i >= a2.len() {
        false
    } else {
        disjoint(a1[i], a2[i]) || disjoint_from(a1, a2, i + 1)
    }
}

/// Whether some pair of corresponding patterns is disjoint.
fn some_pair_disjoint(a1: &Vec<Pattern>, a2: &Vec<Pattern>, Ghost(owner): Ghost<Pattern>) -> (r: bool)
    requires
        decreases_to!(owner => a1@),
    ensures
        r == disjoint_from(pattern_views(a1@), pattern_views(a2@), 0),
    decreases owner, 0int,
{
    let ghost v1 = pattern_views(a1@);
    let ghost v2 = pattern_views(a2@);
    let mut i: usize = 0;
    while i < a1.len() && i < a2.len()
        invariant
            0 <= i <= a1@.len(),
            v1 == pattern_views(a1@),
            v2 == pattern_views(a2@),
            decreases_to!(owner => a1@),
            disjoint_from(v1, v2, 0) == disjoint_from(v1, v2, i as int),
        decreases a1@.len() - i,
    {
        proof {
            assert(decreases_to!(a1@ => a1@[i as int]));
            assert(v1[i as int] == a1@[i as int]@);
            assert(v2[i as int] == a2@[i as int]@);
        }
        if patterns_disjoint(&a1[i], &a2[i]) {
            return true;
        }
        i = i + 1;
    }
    false
}

/// Whether no value can match both patterns (see [`disjoint`]).
pub fn patterns_disjoint(p: &Pattern, q: &Pattern) -> (r: bool)
    ensures
        r == disjoint(p@, q@),
    decreases p, 1int,
{
    match p {
        Pattern::Constructor { name: n1, args: a1, .. } => {
            proof {
                assert(decreases_to!(*p => (*p)->args));
            }
            proof {
                assert(p@ matches PatternV::Constructor { .. });
                assert(p@->Constructor_args == pattern_views(a1@));
                assert(p@->Constructor_name == n1@);
            }
            match q {
                Pattern::Constructor { name: n2, args: a2, .. } => {
                    proof {
                        assert(q@ matches PatternV::Constructor { .. });
                        assert(q@->Constructor_args == pattern_views(a2@));
                        assert(q@->Constructor_name == n2@);
                    }
                    if !n1.eq(n2) {
                        proof {
                            assert(disjoint(p@, q@));
                        }
                        return true;
                    }
                    let r = some_pair_disjoint(a1, a2, Ghost(*p));
                    proof {
                        assert(p@->Constructor_name == q@->Constructor_name);
                        assert(r == disjoint(p@, q@));
                    }
                    r
                },
                Pattern::Tuple(_) => {
                    proof {
                        assert(q@ is Tuple);
                        assert(disjoint(p@, q@));
                    }
                    true
                },
                Pattern::Wildcard => {
                    proof {
                        assert(!disjoint(p@, q@));
                    }
                    false
                },
                Pattern::Ident(_) => {
                    proof {
                        assert(q@ is Ident);
                    }
                    false
                },
            }
        },
        Pattern::Tuple(a1) => {
            proof {
                assert(decreases_to!(*p => (*p)->Tuple_0));
            }
            match q {
                Pattern::Tuple(a2) => some_pair_disjoint(a1, a2, Ghost(*p)),
                Pattern::Constructor { .. } => true,
                _ => false,
            }
        },
        _ => false,
    }
}

/// Arms are pairwise disjoint.
pub open spec fn arms_disjoint(arms: Seq<(PatternV, ExprV)>) -> bool {
    forall|i: int, j: int| 0 <= i < j < arms.len() ==> disjoint(#[trigger] arms[i].0, #[trigger] arms[j].0)
}

/// Whether the arms are pairwise disjoint: match arms are encoded as
/// unordered cases (one condition per arm in proofs, one defining equation
/// per arm in function bodies), so two arms that overlap would give two
/// equations for one value. Overlapping arms are rejected rather than
/// mis-encoded.
pub fn reject_overlapping_arms(arms: &Vec<(Pattern, Expr)>) -> (r: bool)
    ensures
        r == arms_disjoint(crate::ast::arms_view(arms@)),
{
    let ghost av = crate::ast::arms_view(arms@);
    let mut i: usize = 0;
    while i < arms.len()
        invariant
            0 <= i <= arms@.len(),
            av == crate::ast::arms_view(arms@),
            forall|a: int, b: int| 0 <= a < i && a < b < arms@.len() ==> disjoint(#[trigger] av[a].0, #[trigger] av[b].0),
        decreases arms@.len() - i,
    {
        let mut j: usize = i + 1;
        while j < arms.len()
            invariant
                0 <= i < arms@.len(),
                i + 1 <= j <= arms@.len(),
                av == crate::ast::arms_view(arms@),
                forall|a: int, b: int| 0 <= a < i && a < b < arms@.len() ==> disjoint(#[trigger] av[a].0, #[trigger] av[b].0),
                forall|b: int| i < b < j ==> disjoint(av[i as int].0, #[trigger] av[b].0),
            decreases arms@.len() - j,
        {
            proof {
                assert(av[i as int].0 == arms@[i as int].0@);
                assert(av[j as int].0 == arms@[j as int].0@);
            }
            if !patterns_disjoint(&arms[i].0, &arms[j].0) {
                return false;
            }
            j = j + 1;
        }
        i = i + 1;
    }
    true
}

/// A pattern with every binder erased to a wildcard (what intersecting a
/// pattern with itself gives); none where it holds a tuple pattern.
pub open spec fn erase(c: PatternV) -> Option<PatternV>
    decreases c, 1int,
{
    match c {
        PatternV::Constructor { name, args, arg_types } => match erase_from(args, 0) {
            Some(xs) => Some(PatternV::Constructor { name, args: xs, arg_types }),
            None => None,
        },
        PatternV::Tuple(_) => None,
        _ => Some(PatternV::Wildcard),
    }
}

/// [`erase`] on each pattern from the `i`-th on.
pub open spec fn erase_from(ps: Seq<PatternV>, i: int) -> Option<Seq<PatternV>>
    decreases ps, ps.len() - i,
{
    if i < 0 || i >= ps.len() {
        Some(Seq::empty())
    } else {
        match (erase(ps[i]), erase_from(ps, i + 1)) {
            (Some(a), Some(rest)) => Some(seq![a] + rest),
            _ => None,
        }
    }
}

/// Erases the binders of a pattern (see [`erase`]).
#[verifier::loop_isolation(false)]
fn erase_pattern(c: &Pattern) -> (r: Option<Pattern>)
    ensures
        erase(c@) == match r {
            Some(x) => Some(x@),
            None => None,
        },
    decreases c,
{
    match c {
        Pattern::Constructor { name, args, arg_types } => {
            proof {
                assert(decreases_to!(*c => (*c)->args));
                assert(c@ matches PatternV::Constructor { .. });
                assert(c@->Constructor_args == pattern_views(args@));
            }
            let ghost pv = pattern_views(args@);
            let mut out: Vec<Pattern> = Vec::new();
            let mut i: usize = 0;
            proof {
                match erase_from(pv, 0) {
                    Some(rest) => {
                        assert(pattern_views(out@) + rest =~= rest);
                    },
                    None => {},
                }
            }
            while i < args.len()
                invariant
                    0 <= i <= args@.len(),
                    pv == pattern_views(args@),
                    decreases_to!(*c => args@),
                    erase_from(pv, 0) == match erase_from(pv, i as int) {
                        Some(rest) => Some(pattern_views(out@) + rest),
                        None => None,
                    },
                decreases args@.len() - i,
            {
                proof {
                    assert(decreases_to!(args@ => args@[i as int]));
                    assert(pv[i as int] == args@[i as int]@);
                }
                match erase_pattern(&args[i]) {
                    Some(x) => {
                        proof {
                            let before = pattern_views(out@);
                            match erase_from(pv, i + 1) {
                                Some(rest) => {
                                    assert(pattern_views(out@.push(x)) =~= before.push(x@));
                                    assert(before + (seq![x@] + rest) =~= before.push(x@) + rest);
                                },
                                None => {},
                            }
                        }
                        out.push(x);
                    },
                    None => {
                        return None;
                    },
                }
                i = i + 1;
            }
            proof {
                assert(pattern_views(out@) + Seq::<PatternV>::empty() =~= pattern_views(out@));
            }
            let ts = match arg_types {
                Some(t) => Some(clone_base_types(t)),
                None => None,
            };
            let x = Pattern::Constructor { name: name.clone(), args: out, arg_types: ts };
            proof {
                assert(x@ == PatternV::Constructor { name: name@, args: pattern_views(out@), arg_types: c@->Constructor_arg_types });
            }
            Some(x)
        },
        Pattern::Tuple(_) => None,
        _ => Some(Pattern::Wildcard),
    }
}

/// A pattern matching exactly the values both `q` and `p` match, binders
/// erased: `Some(None)` where no value matches both; none where a tuple
/// pattern is involved.
pub open spec fn intersect(q: PatternV, p: PatternV) -> Option<Option<PatternV>>
    decreases q, 1int,
{
    match q {
        PatternV::Constructor { name: qn, args: qa, arg_types: qt } => match p {
            PatternV::Constructor { name: pn, args: pa, .. } => if qn != pn {
                Some(None)
            } else {
                match intersect_from(qa, pa, 0) {
                    Some(Some(xs)) => Some(Some(PatternV::Constructor { name: qn, args: xs, arg_types: qt })),
                    Some(None) => Some(None),
                    None => None,
                }
            },
            PatternV::Tuple(_) => None,
            _ => match erase(q) {
                Some(x) => Some(Some(x)),
                None => None,
            },
        },
        PatternV::Tuple(_) => None,
        _ => match p {
            PatternV::Constructor { .. } => match erase(p) {
                Some(x) => Some(Some(x)),
                None => None,
            },
            PatternV::Tuple(_) => None,
            _ => Some(Some(PatternV::Wildcard)),
        },
    }
}

/// [`intersect`] on corresponding patterns from the `i`-th on, stopping at
/// the first pair that is disjoint.
pub open spec fn intersect_from(qa: Seq<PatternV>, pa: Seq<PatternV>, i: int) -> Option<Option<Seq<PatternV>>>
    decreases qa, qa.len() - i,
{
    if i < 0 || i >= qa.len() || i >= pa.len() {
        Some(Some(Seq::empty()))
    } else {
        match intersect(qa[i], pa[i]) {
            Some(Some(x)) => match intersect_from(qa, pa, i + 1) {
                Some(Some(rest)) => Some(Some(seq![x] + rest)),
                Some(None) => Some(None),
                None => None,
            },
            Some(None) => Some(None),
            None => None,
        }
    }
}

/// The view of an optional pattern.
pub open spec fn opt_pattern(o: Option<Pattern>) -> Option<PatternV> {
    match o {
        Some(x) => Some(x@),
        None => None,
    }
}

/// Intersects two patterns (see [`intersect`]).
#[verifier::loop_isolation(false)]
fn intersect_patterns(q: &Pattern, p: &Pattern) -> (r: Option<Option<Pattern>>)
    ensures
        intersect(q@, p@) == match r {
            Some(o) => Some(opt_pattern(o)),
            None => None,
        },
    decreases q,
{
    match q {
        Pattern::Constructor { name: qn, args: qa, arg_types: qt } => {
            proof {
                assert(decreases_to!(*q => (*q)->args));
                assert(q@ matches PatternV::Constructor { .. });
                assert(q@->Constructor_args == pattern_views(qa@));
                assert(q@->Constructor_name == qn@);
            }
            match p {
                Pattern::Constructor { name: pn, args: pa, .. } => {
                    proof {
                        assert(p@ matches PatternV::Constructor { .. });
                        assert(p@->Constructor_args == pattern_views(pa@));
                        assert(p@->Constructor_name == pn@);
                    }
                    if !qn.eq(pn) {
                        return Some(None);
                    }
                    let ghost qv = pattern_views(qa@);
                    let ghost pv = pattern_views(pa@);
                    let mut out: Vec<Pattern> = Vec::new();
                    let mut i: usize = 0;
                    proof {
                        match intersect_from(qv, pv, 0) {
                            Some(Some(rest)) => {
                                assert(pattern_views(out@) + rest =~= rest);
                            },
                            _ => {},
                        }
                    }
                    while i < qa.len() && i < pa.len()
                        invariant
                            0 <= i <= qa@.len(),
                            qv == pattern_views(qa@),
                            pv == pattern_views(pa@),
                            decreases_to!(*q => qa@),
                            intersect_from(qv, pv, 0) == match intersect_from(qv, pv, i as int) {
                                Some(Some(rest)) => Some(Some(pattern_views(out@) + rest)),
                                Some(None) => Some(None),
                                None => None,
                            },
                        decreases qa@.len() - i,
                    {
                        proof {
                            assert(decreases_to!(qa@ => qa@[i as int]));
                            assert(qv[i as int] == qa@[i as int]@);
                            assert(pv[i as int] == pa@[i as int]@);
                        }
                        match intersect_patterns(&qa[i], &pa[i]) {
                            Some(Some(x)) => {
                                proof {
                                    let before = pattern_views(out@);
                                    match intersect_from(qv, pv, i + 1) {
                                        Some(Some(rest)) => {
                                            assert(pattern_views(out@.push(x)) =~= before.push(x@));
                                            assert(before + (seq![x@] + rest) =~= before.push(x@) + rest);
                                        },
                                        _ => {},
                                    }
                                }
                                out.push(x);
                            },
                            Some(None) => {
                                return Some(None);
                            },
                            None => {
                                return None;
                            },
                        }
                        i = i + 1;
                    }
                    proof {
                        assert(pattern_views(out@) + Seq::<PatternV>::empty() =~= pattern_views(out@));
                    }
                    let ts = match qt {
                        Some(t) => Some(clone_base_types(t)),
                        None => None,
                    };
                    let x = Pattern::Constructor { name: qn.clone(), args: out, arg_types: ts };
                    proof {
                        assert(x@ == PatternV::Constructor { name: qn@, args: pattern_views(out@), arg_types: q@->Constructor_arg_types });
                    }
                    Some(Some(x))
                },
                Pattern::Tuple(_) => None,
                _ => match erase_pattern(q) {
                    Some(x) => Some(Some(x)),
                    None => None,
                },
            }
        },
        Pattern::Tuple(_) => None,
        _ => match p {
            Pattern::Constructor { .. } => match erase_pattern(p) {
                Some(x) => Some(Some(x)),
                None => None,
            },
            Pattern::Tuple(_) => None,
            _ => Some(Some(Pattern::Wildcard)),
        },
    }
}

/// 1 for a constructor pattern, 2 for any other (the measure of [`subtract`]).
pub open spec fn rank(q: PatternV) -> int {
    if q is Constructor {
        1
    } else {
        2
    }
}

/// The number of sub-patterns of a constructor pattern.
pub open spec fn ctor_arity(q: PatternV) -> int {
    match q {
        PatternV::Constructor { args, .. } => args.len() as int,
        _ => 0,
    }
}

/// Constructor `Enum::Variant` with a wildcard for each field.
pub open spec fn split_pattern(e: Seq<char>, v: Seq<char>, fts: Seq<BaseTypeV>) -> PatternV {
    PatternV::Constructor {
        name: e + "::"@ + v,
        args: Seq::new(fts.len(), |k: int| PatternV::Wildcard),
        arg_types: Some(fts),
    }
}

/// The patterns matching exactly the values `q` matches and `p` does not,
/// pairwise disjoint; `ty` is the sort at this position, by which a wildcard
/// is split into its datatype's constructors. None where the sort is not a
/// datatype of the table, where `q` was not stamped, or where a tuple
/// pattern is involved.
pub open spec fn subtract(q: PatternV, ty: BaseTypeV, p: PatternV, dts: DtsV) -> Option<Seq<PatternV>>
    decreases p, rank(q), 0int,
{
    match p {
        PatternV::Constructor { name: pn, .. } => match q {
            PatternV::Constructor { name: qn, arg_types: qt, .. } => if qn != pn {
                Some(seq![q])
            } else {
                match qt {
                    Some(fts) => sub_fields(q, fts, p, 0, Seq::empty(), dts),
                    None => None,
                }
            },
            PatternV::Tuple(_) => None,
            _ => match ty {
                BaseTypeV::Custom(e) => match entry_of(dts, e) {
                    Some(vs) => split_all(e, vs, 0, ty, p, dts),
                    None => None,
                },
                _ => None,
            },
        },
        PatternV::Tuple(_) => None,
        _ => Some(Seq::empty()),
    }
}

/// A wildcard split into the constructors `vs` of `Enum` from the `i`-th
/// on, each minus `p`.
pub open spec fn split_all(e: Seq<char>, vs: Seq<(Seq<char>, Seq<BaseTypeV>)>, i: int, ty: BaseTypeV, p: PatternV, dts: DtsV) -> Option<Seq<PatternV>>
    decreases p, 1int, vs.len() - i,
{
    if i < 0 || i >= vs.len() {
        Some(Seq::empty())
    } else {
        match (subtract(split_pattern(e, vs[i].0, vs[i].1), ty, p, dts), split_all(e, vs, i + 1, ty, p, dts)) {
            (Some(a), Some(b)) => Some(a + b),
            _ => None,
        }
    }
}

/// `C(q1..qn)` minus `C(p1..pn)` from field `i` on: the values that agree
/// with `p` on the fields before `i` (`agreed`), escape `p` at field `i` and
/// are free after it; then on, while the fields can agree.
pub open spec fn sub_fields(q: PatternV, fts: Seq<BaseTypeV>, p: PatternV, i: int, agreed: Seq<PatternV>, dts: DtsV) -> Option<Seq<PatternV>>
    decreases p, 0int, ctor_arity(q) - i,
{
    match p {
        PatternV::Constructor { args: pa, .. } => match q {
            PatternV::Constructor { name: qn, args: qa, arg_types: qt } => if i < 0 || i >= qa.len() {
                Some(Seq::empty())
            } else if i >= fts.len() || i >= pa.len() {
                None
            } else {
                match subtract(qa[i], fts[i], pa[i], dts) {
                    Some(rs) => {
                        let outs = Seq::new(rs.len(), |k: int| PatternV::Constructor {
                            name: qn,
                            args: agreed + seq![rs[k]] + qa.skip(i + 1),
                            arg_types: qt,
                        });
                        match intersect(qa[i], pa[i]) {
                            Some(Some(m)) => match sub_fields(q, fts, p, i + 1, agreed.push(m), dts) {
                                Some(rest) => Some(outs + rest),
                                None => None,
                            },
                            Some(None) => Some(outs),
                            None => None,
                        }
                    },
                    None => None,
                }
            },
            _ => None,
        },
        _ => None,
    }
}

/// Copies of the patterns `ps[from..]`.
fn copy_patterns(ps: &Vec<Pattern>, from: usize) -> (r: Vec<Pattern>)
    requires
        from <= ps@.len(),
    ensures
        pattern_views(r@) == pattern_views(ps@).skip(from as int),
{
    let mut out: Vec<Pattern> = Vec::new();
    let mut i: usize = from;
    while i < ps.len()
        invariant
            from <= i <= ps@.len(),
            pattern_views(out@) == pattern_views(ps@).subrange(from as int, i as int),
        decreases ps@.len() - i,
    {
        let x = ps[i].deep_clone();
        let ghost before = pattern_views(out@);
        out.push(x);
        proof {
            assert(pattern_views(out@) =~= before.push(ps@[i as int]@));
            assert(pattern_views(ps@).subrange(from as int, i + 1) =~= pattern_views(ps@).subrange(from as int, i as int).push(ps@[i as int]@));
        }
        i = i + 1;
    }
    proof {
        assert(pattern_views(ps@).subrange(from as int, ps@.len() as int) =~= pattern_views(ps@).skip(from as int));
    }
    out
}

/// The sort at a position: `Custom(e)` gives `e`.
fn custom_name(ty: &BaseType) -> (r: Option<&String>)
    ensures
        match r {
            Some(e) => ty@ == BaseTypeV::Custom(e@),
            None => !(ty@ is Custom),
        },
{
    match ty {
        BaseType::Custom(e) => Some(e),
        _ => None,
    }
}

/// The patterns matching what `q` matches and `p` does not (see
/// [`subtract`]).
#[verifier::loop_isolation(false)]
#[verifier::spinoff_prover]
#[verifier::rlimit(60)]
pub fn subtract_patterns(q: &Pattern, ty: &BaseType, p: &Pattern, dts: &Vec<(Ident, Vec<(Ident, Vec<BaseType>)>)>) -> (r: Option<Vec<Pattern>>)
    ensures
        subtract(q@, ty@, p@, datatypes_view(dts@)) == match r {
            Some(v) => Some(pattern_views(v@)),
            None => None,
        },
    decreases p, rank(q@),
{
    let ghost dv = datatypes_view(dts@);
    match p {
        Pattern::Constructor { name: pn, args: pa, .. } => {
            proof {
                assert(decreases_to!(*p => (*p)->args));
                assert(p@ matches PatternV::Constructor { .. });
                assert(p@->Constructor_args == pattern_views(pa@));
                assert(p@->Constructor_name == pn@);
            }
            match q {
                Pattern::Constructor { name: qn, args: qa, arg_types: qt } => {
                    proof {
                        assert(q@ matches PatternV::Constructor { .. });
                        assert(q@->Constructor_args == pattern_views(qa@));
                        assert(q@->Constructor_name == qn@);
                    }
                    if !qn.eq(pn) {
                        let mut one: Vec<Pattern> = Vec::new();
                        one.push(q.deep_clone());
                        proof {
                            assert(pattern_views(one@) =~= seq![q@]);
                        }
                        return Some(one);
                    }
                    let fts = match qt {
                        Some(t) => t,
                        None => {
                            return None;
                        },
                    };
                    proof {
                        assert(q@->Constructor_arg_types == Some(base_views(fts@)));
                    }
                    let ghost fv = base_views(fts@);
                    let ghost qv = pattern_views(qa@);
                    let ghost pv = pattern_views(pa@);
                    let mut out: Vec<Pattern> = Vec::new();
                    let mut agreed: Vec<Pattern> = Vec::new();
                    let mut i: usize = 0;
                    proof {
                        match sub_fields(q@, fv, p@, 0, Seq::empty(), dv) {
                            Some(rest) => {
                                assert(pattern_views(out@) + rest =~= rest);
                            },
                            None => {},
                        }
                        assert(pattern_views(agreed@) =~= Seq::<PatternV>::empty());
                    }
                    while i < qa.len()
                        invariant
                            0 <= i <= qa@.len(),
                            qv == pattern_views(qa@),
                            pv == pattern_views(pa@),
                            fv == base_views(fts@),
                            sub_fields(q@, fv, p@, 0, Seq::empty(), dv) == match sub_fields(q@, fv, p@, i as int, pattern_views(agreed@), dv) {
                                Some(rest) => Some(pattern_views(out@) + rest),
                                None => None,
                            },
                        decreases qa@.len() - i,
                    {
                        if i >= fts.len() || i >= pa.len() {
                            return None;
                        }
                        proof {
                            assert(decreases_to!(pa@ => pa@[i as int]));
                            assert(qv[i as int] == qa@[i as int]@);
                            assert(pv[i as int] == pa@[i as int]@);
                            assert(fv[i as int] == fts@[i as int]@);
                        }
                        let rs = match subtract_patterns(&qa[i], &fts[i], &pa[i], dts) {
                            Some(rs) => rs,
                            None => {
                                return None;
                            },
                        };
                        let ghost av = pattern_views(agreed@);
                        let ghost rv = pattern_views(rs@);
                        let ghost outs = Seq::new(rv.len(), |k: int| PatternV::Constructor {
                            name: qn@,
                            args: av + seq![rv[k]] + qv.skip(i + 1),
                            arg_types: Some(fv),
                        });
                        let ghost start = pattern_views(out@);
                        let mut k: usize = 0;
                        while k < rs.len()
                            invariant
                                0 <= k <= rs@.len(),
                                0 <= i < qa@.len(),
                                av == pattern_views(agreed@),
                                rv == pattern_views(rs@),
                                qv == pattern_views(qa@),
                                fv == base_views(fts@),
                                pattern_views(out@) == start + outs.take(k as int),
                            decreases rs@.len() - k,
                        {
                            let mut args = copy_patterns(&agreed, 0);
                            args.push(rs[k].deep_clone());
                            let rest = copy_patterns(qa, i + 1);
                            let ghost a0 = pattern_views(args@);
                            let mut j: usize = 0;
                            while j < rest.len()
                                invariant
                                    0 <= j <= rest@.len(),
                                    pattern_views(args@) == a0 + pattern_views(rest@).take(j as int),
                                decreases rest@.len() - j,
                            {
                                let ghost b = pattern_views(args@);
                                args.push(rest[j].deep_clone());
                                proof {
                                    assert(pattern_views(args@) =~= b.push(rest@[j as int]@));
                                    assert(pattern_views(rest@).take(j + 1) =~= pattern_views(rest@).take(j as int).push(rest@[j as int]@));
                                }
                                j = j + 1;
                            }
                            proof {
                                assert(pattern_views(agreed@).skip(0) =~= av);
                                assert(pattern_views(rest@).take(rest@.len() as int) =~= pattern_views(rest@));
                                assert(pattern_views(args@) =~= av + seq![rv[k as int]] + qv.skip(i + 1));
                            }
                            let x = Pattern::Constructor { name: qn.clone(), args, arg_types: Some(clone_base_types(fts)) };
                            let ghost b = pattern_views(out@);
                            out.push(x);
                            proof {
                                assert(x@ == outs[k as int]);
                                assert(pattern_views(out@) =~= b.push(x@));
                                assert(outs.take(k + 1) =~= outs.take(k as int).push(outs[k as int]));
                            }
                            k = k + 1;
                        }
                        proof {
                            assert(outs.take(rv.len() as int) =~= outs);
                        }
                        match intersect_patterns(&qa[i], &pa[i]) {
                            Some(Some(m)) => {
                                let ghost before_agreed = pattern_views(agreed@);
                                agreed.push(m);
                                proof {
                                    assert(pattern_views(agreed@) =~= before_agreed.push(m@));
                                    match sub_fields(q@, fv, p@, i + 1, pattern_views(agreed@), dv) {
                                        Some(rest) => {
                                            assert(start + (outs + rest) =~= (start + outs) + rest);
                                        },
                                        None => {},
                                    }
                                }
                            },
                            Some(None) => {
                                proof {
                                    assert(sub_fields(q@, fv, p@, i as int, av, dv) == Some(outs));
                                }
                                return Some(out);
                            },
                            None => {
                                return None;
                            },
                        }
                        i = i + 1;
                    }
                    proof {
                        assert(pattern_views(out@) + Seq::<PatternV>::empty() =~= pattern_views(out@));
                    }
                    Some(out)
                },
                Pattern::Tuple(_) => None,
                _ => {
                    let e = match custom_name(ty) {
                        Some(e) => e,
                        None => {
                            return None;
                        },
                    };
                    let d = datatype_pos(dts, e);
                    if d == dts.len() {
                        return None;
                    }
                    let vs = &dts[d].1;
                    let ghost cv = ctors_view(vs@);
                    let mut out: Vec<Pattern> = Vec::new();
                    let mut c: usize = 0;
                    proof {
                        reveal_strlit("::");
                        match split_all(e@, cv, 0, ty@, p@, dv) {
                            Some(rest) => {
                                assert(pattern_views(out@) + rest =~= rest);
                            },
                            None => {},
                        }
                    }
                    while c < vs.len()
                        invariant
                            0 <= c <= vs@.len(),
                            cv == ctors_view(vs@),
                            split_all(e@, cv, 0, ty@, p@, dv) == match split_all(e@, cv, c as int, ty@, p@, dv) {
                                Some(rest) => Some(pattern_views(out@) + rest),
                                None => None,
                            },
                        decreases vs@.len() - c,
                    {
                        let mut name = e.clone();
                        name.append("::");
                        name.append(vs[c].0.as_str());
                        let mut wild: Vec<Pattern> = Vec::new();
                        let mut k: usize = 0;
                        while k < vs[c].1.len()
                            invariant
                                0 <= k <= vs@[c as int].1@.len(),
                                wild@.len() == k,
                                forall|j: int| 0 <= j < k ==> (#[trigger] wild@[j]) is Wildcard,
                            decreases vs@[c as int].1@.len() - k,
                        {
                            wild.push(Pattern::Wildcard);
                            k = k + 1;
                        }
                        let split = Pattern::Constructor { name, args: wild, arg_types: Some(clone_base_types(&vs[c].1)) };
                        proof {
                            assert(pattern_views(wild@) =~= Seq::new(cv[c as int].1.len(), |k: int| PatternV::Wildcard));
                            assert(split@ == split_pattern(e@, cv[c as int].0, cv[c as int].1));
                            assert(rank(split@) == 1);
                        }
                        match subtract_patterns(&split, ty, p, dts) {
                            Some(rs) => {
                                let ghost before = pattern_views(out@);
                                let mut k: usize = 0;
                                while k < rs.len()
                                    invariant
                                        0 <= k <= rs@.len(),
                                        pattern_views(out@) == before + pattern_views(rs@).take(k as int),
                                    decreases rs@.len() - k,
                                {
                                    let ghost b = pattern_views(out@);
                                    out.push(rs[k].deep_clone());
                                    proof {
                                        assert(pattern_views(out@) =~= b.push(rs@[k as int]@));
                                        assert(pattern_views(rs@).take(k + 1) =~= pattern_views(rs@).take(k as int).push(rs@[k as int]@));
                                    }
                                    k = k + 1;
                                }
                                proof {
                                    assert(pattern_views(rs@).take(rs@.len() as int) =~= pattern_views(rs@));
                                    match split_all(e@, cv, c + 1, ty@, p@, dv) {
                                        Some(rest) => {
                                            assert(before + (pattern_views(rs@) + rest) =~= (before + pattern_views(rs@)) + rest);
                                        },
                                        None => {},
                                    }
                                }
                            },
                            None => {
                                return None;
                            },
                        }
                        c = c + 1;
                    }
                    proof {
                        assert(pattern_views(out@) + Seq::<PatternV>::empty() =~= pattern_views(out@));
                    }
                    Some(out)
                },
            }
        },
        Pattern::Tuple(_) => None,
        _ => Some(Vec::new()),
    }
}

/// A pattern with each wildcard named after its position: the wildcard at
/// field `j` of field `i` of the pattern gets `prefix_i_j`.
pub open spec fn named(p: PatternV, prefix: Seq<char>) -> PatternV
    decreases p, 1int,
{
    match p {
        PatternV::Wildcard => PatternV::Ident(prefix),
        PatternV::Constructor { name, args, arg_types } => PatternV::Constructor { name, args: named_from(args, prefix, 0), arg_types },
        PatternV::Tuple(ps) => PatternV::Tuple(named_from(ps, prefix, 0)),
        _ => p,
    }
}

/// [`named`] on each pattern from the `i`-th on, the `i`-th under
/// `prefix_i`.
pub open spec fn named_from(ps: Seq<PatternV>, prefix: Seq<char>, i: int) -> Seq<PatternV>
    decreases ps, ps.len() - i,
{
    if i < 0 || i >= ps.len() {
        Seq::empty()
    } else {
        seq![named(ps[i], prefix + "_"@ + dec_text(i as nat))] + named_from(ps, prefix, i + 1)
    }
}

/// Names the wildcards of a pattern after their positions (see [`named`]).
fn name_wildcards(p: &Pattern, prefix: &String) -> (r: Pattern)
    ensures
        r@ == named(p@, prefix@),
    decreases p,
{
    match p {
        Pattern::Wildcard => Pattern::Ident(prefix.clone()),
        Pattern::Ident(x) => Pattern::Ident(x.clone()),
        Pattern::Constructor { name, args, arg_types } => {
            proof {
                assert(decreases_to!(*p => (*p)->args));
                assert(p@ matches PatternV::Constructor { .. });
                assert(p@->Constructor_args == pattern_views(args@));
            }
            let out = name_list(args, prefix, Ghost(*p));
            let ts = match arg_types {
                Some(t) => Some(clone_base_types(t)),
                None => None,
            };
            let x = Pattern::Constructor { name: name.clone(), args: out, arg_types: ts };
            proof {
                assert(x@ == PatternV::Constructor { name: name@, args: pattern_views(out@), arg_types: p@->Constructor_arg_types });
            }
            x
        },
        Pattern::Tuple(ps) => {
            proof {
                assert(decreases_to!(*p => (*p)->Tuple_0));
                assert(p@ == PatternV::Tuple(pattern_views(ps@)));
            }
            let out = name_list(ps, prefix, Ghost(*p));
            Pattern::Tuple(out)
        },
    }
}

/// Names the wildcards of each pattern of a list (see [`named_from`]).
fn name_list(ps: &Vec<Pattern>, prefix: &String, Ghost(owner): Ghost<Pattern>) -> (r: Vec<Pattern>)
    requires
        decreases_to!(owner => ps@),
    ensures
        pattern_views(r@) == named_from(pattern_views(ps@), prefix@, 0),
    decreases owner, 0int,
{
    let ghost pv = pattern_views(ps@);
    let mut out: Vec<Pattern> = Vec::new();
    let mut i: usize = 0;
    proof {
        assert(pattern_views(out@) + named_from(pv, prefix@, 0) =~= named_from(pv, prefix@, 0));
    }
    while i < ps.len()
        invariant
            0 <= i <= ps@.len(),
            pv == pattern_views(ps@),
            decreases_to!(owner => ps@),
            named_from(pv, prefix@, 0) == pattern_views(out@) + named_from(pv, prefix@, i as int),
        decreases ps@.len() - i,
    {
        proof {
            assert(decreases_to!(ps@ => ps@[i as int]));
            assert(pv[i as int] == ps@[i as int]@);
            reveal_strlit("_");
        }
        let mut sub = prefix.clone();
        sub.append("_");
        let d = decimal(i);
        sub.append(d.as_str());
        let x = name_wildcards(&ps[i], &sub);
        let ghost before = pattern_views(out@);
        out.push(x);
        proof {
            assert(pattern_views(out@) =~= before.push(x@));
            assert(before + (seq![x@] + named_from(pv, prefix@, i + 1)) =~= before.push(x@) + named_from(pv, prefix@, i + 1));
        }
        i = i + 1;
    }
    proof {
        assert(pattern_views(out@) + Seq::<PatternV>::empty() =~= pattern_views(out@));
    }
    out
}

/// The enum a `_` arm stands at: that of the first constructor arm before
/// it with a qualified name.
pub open spec fn scrutinee_enum(arms: Seq<(PatternV, ExprV)>) -> Option<Seq<char>>
    decreases arms.len(),
{
    if arms.len() == 0 {
        None
    } else {
        match arms[0].0 {
            PatternV::Constructor { name, .. } => match last_split(name) {
                Some(parts) => Some(parts.0),
                None => scrutinee_enum(arms.skip(1)),
            },
            _ => scrutinee_enum(arms.skip(1)),
        }
    }
}

/// Each of `us`, in order, minus `p`.
pub open spec fn subtract_each(us: Seq<PatternV>, ty: BaseTypeV, p: PatternV, dts: DtsV) -> Option<Seq<PatternV>>
    decreases us.len(),
{
    if us.len() == 0 {
        Some(Seq::empty())
    } else {
        match (subtract_each(us.drop_last(), ty, p, dts), subtract(us.last(), ty, p, dts)) {
            (Some(a), Some(b)) => Some(a + b),
            _ => None,
        }
    }
}

/// What the arms `earlier` leave uncovered of the values at sort `ty`.
pub open spec fn uncovered_after(ty: BaseTypeV, earlier: Seq<(PatternV, ExprV)>, dts: DtsV) -> Option<Seq<PatternV>>
    decreases earlier.len(),
{
    if earlier.len() == 0 {
        Some(seq![PatternV::Wildcard])
    } else {
        match uncovered_after(ty, earlier.drop_last(), dts) {
            Some(us) => subtract_each(us, ty, earlier.last().0, dts),
            None => None,
        }
    }
}

/// The arms with every bare `_` arm replaced by the patterns the arms
/// before it leave uncovered (Rust's first-match semantics), each with its
/// wildcards named and a copy of the arm's body; none where a `_` arm has
/// no constructor arm before it.
pub open spec fn expand_arms(arms: Seq<(PatternV, ExprV)>, dts: DtsV) -> Option<Seq<(PatternV, ExprV)>>
    decreases arms.len(),
{
    if arms.len() == 0 {
        Some(Seq::empty())
    } else {
        match expand_arms(arms.drop_last(), dts) {
            Some(acc) => if arms.last().0 is Wildcard {
                match scrutinee_enum(acc) {
                    Some(e) => match uncovered_after(BaseTypeV::Custom(e), acc, dts) {
                        Some(us) => Some(acc + Seq::new(us.len(), |k: int| (named(us[k], "_w"@), arms.last().1))),
                        None => None,
                    },
                    None => None,
                }
            } else {
                Some(acc.push(arms.last()))
            },
            None => None,
        }
    }
}

/// The enum of the first qualified constructor arm (see [`scrutinee_enum`]).
fn find_scrutinee_enum(arms: &Vec<(Pattern, Expr)>) -> (r: Option<String>)
    ensures
        scrutinee_enum(crate::ast::arms_view(arms@)) == match r {
            Some(e) => Some(e@),
            None => None,
        },
{
    let ghost av = crate::ast::arms_view(arms@);
    let mut k: usize = 0;
    proof {
        assert(av.skip(0) =~= av);
    }
    while k < arms.len()
        invariant
            0 <= k <= arms@.len(),
            av == crate::ast::arms_view(arms@),
            scrutinee_enum(av) == scrutinee_enum(av.skip(k as int)),
        decreases arms@.len() - k,
    {
        proof {
            assert(av.skip(k as int)[0] == av[k as int]);
            assert(av[k as int].0 == arms@[k as int].0@);
            assert(av.skip(k as int).skip(1) =~= av.skip(k + 1));
        }
        match &arms[k].0 {
            Pattern::Constructor { name, .. } => {
                match split_name(name.as_str()) {
                    Some((e, _)) => {
                        return Some(e);
                    },
                    None => {},
                }
            },
            _ => {},
        }
        k = k + 1;
    }
    proof {
        assert(av.skip(k as int).len() == 0);
    }
    None
}

/// What the arms leave uncovered at sort `ty` (see [`uncovered_after`]).
#[verifier::loop_isolation(false)]
fn uncovered(ty: &BaseType, earlier: &Vec<(Pattern, Expr)>, dts: &Vec<(Ident, Vec<(Ident, Vec<BaseType>)>)>) -> (r: Option<Vec<Pattern>>)
    ensures
        uncovered_after(ty@, crate::ast::arms_view(earlier@), datatypes_view(dts@)) == match r {
            Some(v) => Some(pattern_views(v@)),
            None => None,
        },
{
    let ghost av = crate::ast::arms_view(earlier@);
    let ghost dv = datatypes_view(dts@);
    let mut us: Vec<Pattern> = Vec::new();
    us.push(Pattern::Wildcard);
    let mut j: usize = 0;
    proof {
        assert(av.take(0) =~= Seq::<(PatternV, ExprV)>::empty());
        assert(pattern_views(us@) =~= seq![PatternV::Wildcard]);
    }
    while j < earlier.len()
        invariant
            0 <= j <= earlier@.len(),
            av == crate::ast::arms_view(earlier@),
            dv == datatypes_view(dts@),
            uncovered_after(ty@, av.take(j as int), dv) == Some(pattern_views(us@)),
        decreases earlier@.len() - j,
    {
        proof {
            assert(av.take(j + 1).drop_last() =~= av.take(j as int));
            assert(av.take(j + 1).last() == av[j as int]);
            assert(av[j as int].0 == earlier@[j as int].0@);
        }
        let ghost uv = pattern_views(us@);
        let mut next: Vec<Pattern> = Vec::new();
        let mut k: usize = 0;
        proof {
            assert(uv.take(0) =~= Seq::<PatternV>::empty());
        }
        while k < us.len()
            invariant
                0 <= k <= us@.len(),
                uv == pattern_views(us@),
                subtract_each(uv.take(k as int), ty@, earlier@[j as int].0@, dv) == Some(pattern_views(next@)),
            decreases us@.len() - k,
        {
            proof {
                assert(uv.take(k + 1).drop_last() =~= uv.take(k as int));
                assert(uv.take(k + 1).last() == us@[k as int]@);
            }
            match subtract_patterns(&us[k], ty, &earlier[j].0, dts) {
                Some(rs) => {
                    let ghost before = pattern_views(next@);
                    let mut m: usize = 0;
                    while m < rs.len()
                        invariant
                            0 <= m <= rs@.len(),
                            pattern_views(next@) == before + pattern_views(rs@).take(m as int),
                        decreases rs@.len() - m,
                    {
                        let ghost b = pattern_views(next@);
                        next.push(rs[m].deep_clone());
                        proof {
                            assert(pattern_views(next@) =~= b.push(rs@[m as int]@));
                            assert(pattern_views(rs@).take(m + 1) =~= pattern_views(rs@).take(m as int).push(rs@[m as int]@));
                        }
                        m = m + 1;
                    }
                    proof {
                        assert(pattern_views(rs@).take(rs@.len() as int) =~= pattern_views(rs@));
                    }
                },
                None => {
                    proof {
                        assert(subtract_each(uv.take(k + 1), ty@, earlier@[j as int].0@, dv) is None);
                        lemma_subtract_each_none(uv, k as int + 1, ty@, earlier@[j as int].0@, dv);
                        assert(uncovered_after(ty@, av.take(j + 1), dv) is None);
                        lemma_uncovered_none(ty@, av, j as int + 1, dv);
                    }
                    return None;
                },
            }
            k = k + 1;
        }
        proof {
            assert(uv.take(us@.len() as int) =~= uv);
        }
        us = next;
        j = j + 1;
    }
    proof {
        assert(av.take(earlier@.len() as int) =~= av);
    }
    Some(us)
}

/// Once [`uncovered_after`] fails on a prefix it fails on the whole list.
proof fn lemma_uncovered_none(ty: BaseTypeV, arms: Seq<(PatternV, ExprV)>, k: int, dts: DtsV)
    requires
        0 <= k <= arms.len(),
        uncovered_after(ty, arms.take(k), dts) is None,
    ensures
        uncovered_after(ty, arms, dts) is None,
    decreases arms.len() - k,
{
    if k < arms.len() {
        assert(arms.take(k + 1).drop_last() =~= arms.take(k));
        lemma_uncovered_none(ty, arms, k + 1, dts);
    } else {
        assert(arms.take(k) =~= arms);
    }
}

/// Once [`subtract_each`] fails on a prefix it fails on the whole list.
proof fn lemma_subtract_each_none(us: Seq<PatternV>, k: int, ty: BaseTypeV, p: PatternV, dts: DtsV)
    requires
        0 <= k <= us.len(),
        subtract_each(us.take(k), ty, p, dts) is None,
    ensures
        subtract_each(us, ty, p, dts) is None,
    decreases us.len() - k,
{
    if k < us.len() {
        assert(us.take(k + 1).drop_last() =~= us.take(k));
        lemma_subtract_each_none(us, k + 1, ty, p, dts);
    } else {
        assert(us.take(k) =~= us);
    }
}

/// Replaces every bare `_` arm by the patterns the arms before it leave
/// uncovered (see [`expand_arms`]).
pub fn expand_catch_all_arms(arms: &Vec<(Pattern, Expr)>, dts: &Vec<(Ident, Vec<(Ident, Vec<BaseType>)>)>) -> (r: Option<Vec<(Pattern, Expr)>>)
    ensures
        expand_arms(crate::ast::arms_view(arms@), datatypes_view(dts@)) == match r {
            Some(v) => Some(crate::ast::arms_view(v@)),
            None => None,
        },
{
    let ghost av = crate::ast::arms_view(arms@);
    let ghost dv = datatypes_view(dts@);
    let mut out: Vec<(Pattern, Expr)> = Vec::new();
    let prefix = String::from_str("_w");
    let mut i: usize = 0;
    proof {
        assert(av.take(0) =~= Seq::<(PatternV, ExprV)>::empty());
        assert(crate::ast::arms_view(out@) =~= Seq::<(PatternV, ExprV)>::empty());
    }
    while i < arms.len()
        invariant
            0 <= i <= arms@.len(),
            av == crate::ast::arms_view(arms@),
            dv == datatypes_view(dts@),
            prefix@ == "_w"@,
            expand_arms(av.take(i as int), dv) == Some(crate::ast::arms_view(out@)),
        decreases arms@.len() - i,
    {
        proof {
            assert(av.take(i + 1).drop_last() =~= av.take(i as int));
            assert(av.take(i + 1).last() == av[i as int]);
            assert(av[i as int] == (arms@[i as int].0@, arms@[i as int].1@));
        }
        let ghost acc = crate::ast::arms_view(out@);
        let is_wild = match &arms[i].0 {
            Pattern::Wildcard => true,
            _ => false,
        };
        if !is_wild {
            out.push((arms[i].0.deep_clone(), arms[i].1.deep_clone()));
            proof {
                assert(crate::ast::arms_view(out@) =~= acc.push(av[i as int]));
            }
        } else {
            let e = match find_scrutinee_enum(&out) {
                Some(e) => e,
                None => {
                    proof {
                        lemma_expand_none(av, i as int + 1, dv);
                    }
                    return None;
                },
            };
            let ty = BaseType::Custom(e);
            proof {
                assert(ty@ == BaseTypeV::Custom(e@));
            }
            let us = match uncovered(&ty, &out, dts) {
                Some(us) => us,
                None => {
                    proof {
                        lemma_expand_none(av, i as int + 1, dv);
                    }
                    return None;
                },
            };
            let ghost uv = pattern_views(us@);
            let ghost added = Seq::new(uv.len(), |k: int| (named(uv[k], "_w"@), av[i as int].1));
            let mut k: usize = 0;
            proof {
                assert(acc + added.take(0) =~= acc);
            }
            while k < us.len()
                invariant
                    0 <= k <= us@.len(),
                    0 <= i < arms@.len(),
                    uv == pattern_views(us@),
                    av == crate::ast::arms_view(arms@),
                    prefix@ == "_w"@,
                    added == Seq::new(uv.len(), |k: int| (named(uv[k], "_w"@), av[i as int].1)),
                    crate::ast::arms_view(out@) == acc + added.take(k as int),
                decreases us@.len() - k,
            {
                let named_pat = name_wildcards(&us[k], &prefix);
                let body = arms[i].1.deep_clone();
                let ghost b = crate::ast::arms_view(out@);
                out.push((named_pat, body));
                proof {
                    assert(crate::ast::arms_view(out@) =~= b.push((named_pat@, body@)));
                    assert(added.take(k + 1) =~= added.take(k as int).push(added[k as int]));
                }
                k = k + 1;
            }
            proof {
                assert(added.take(uv.len() as int) =~= added);
            }
        }
        i = i + 1;
    }
    proof {
        assert(av.take(arms@.len() as int) =~= av);
    }
    Some(out)
}

/// Once [`expand_arms`] fails on a prefix it fails on the whole list.
proof fn lemma_expand_none(arms: Seq<(PatternV, ExprV)>, k: int, dts: DtsV)
    requires
        0 <= k <= arms.len(),
        expand_arms(arms.take(k), dts) is None,
    ensures
        expand_arms(arms, dts) is None,
    decreases arms.len() - k,
{
    if k < arms.len() {
        assert(arms.take(k + 1).drop_last() =~= arms.take(k));
        lemma_expand_none(arms, k + 1, dts);
    } else {
        assert(arms.take(k) =~= arms);
    }
}

/// An expression with every constructor pattern stamped (see [`stamp`]),
/// every match's `_` arms expanded (see [`expand_arms`]) and its arms
/// checked to be pairwise disjoint; a match on a tuple of variables is
/// first compiled into nested matches on single variables (see
/// [`compile_match`]). None where any of these fails.
pub open spec fn resolve(e: ExprV, dts: DtsV) -> Option<ExprV>
    decreases e, 3int, 0int, 0int, 0int, 0int,
{
    match e {
        ExprV::Let { pat, bound_expr, body } => match (stamp(pat, dts), resolve(*bound_expr, dts), resolve(*body, dts)) {
            (Some(p), Some(b), Some(c)) => Some(ExprV::Let { pat: p, bound_expr: Box::new(b), body: Box::new(c) }),
            _ => None,
        },
        ExprV::Match { expr: target, arms } => match *target {
            ExprV::Tuple(cs) => compile_match(e, dts),
            _ => match (resolve(*target, dts), resolve_arms(arms, 0, dts)) {
                (Some(t), Some(ra)) => match expand_arms(ra, dts) {
                    Some(xa) => if arms_disjoint(xa) {
                        Some(ExprV::Match { expr: Box::new(t), arms: xa })
                    } else {
                        None
                    },
                    None => None,
                },
                _ => None,
            },
        },
        ExprV::Tuple(es) => match resolve_from(es, 0, dts) {
            Some(xs) => Some(ExprV::Tuple(xs)),
            None => None,
        },
        ExprV::BinOp { op, left, right } => match (resolve(*left, dts), resolve(*right, dts)) {
            (Some(l), Some(r)) => Some(ExprV::BinOp { op, left: Box::new(l), right: Box::new(r) }),
            _ => None,
        },
        ExprV::UnOp { op, expr } => match resolve(*expr, dts) {
            Some(x) => Some(ExprV::UnOp { op, expr: Box::new(x) }),
            None => None,
        },
        ExprV::If { cond, then_expr, else_expr } => match (resolve(*cond, dts), resolve(*then_expr, dts), resolve(*else_expr, dts)) {
            (Some(c), Some(t), Some(f)) => Some(ExprV::If { cond: Box::new(c), then_expr: Box::new(t), else_expr: Box::new(f) }),
            _ => None,
        },
        ExprV::Call { func, args } => match resolve_from(args, 0, dts) {
            Some(xs) => Some(ExprV::Call { func, args: xs }),
            None => None,
        },
        ExprV::Constructor { name, args } => match resolve_from(args, 0, dts) {
            Some(xs) => Some(ExprV::Constructor { name, args: xs }),
            None => None,
        },
        ExprV::ApplyRel { relation, args } => match resolve_from(args, 0, dts) {
            Some(xs) => Some(ExprV::ApplyRel { relation, args: xs }),
            None => None,
        },
        ExprV::Forall { binders, body } => match resolve(*body, dts) {
            Some(b) => Some(ExprV::Forall { binders, body: Box::new(b) }),
            None => None,
        },
        ExprV::Exists { binders, body } => match resolve(*body, dts) {
            Some(b) => Some(ExprV::Exists { binders, body: Box::new(b) }),
            None => None,
        },
        ExprV::Instantiate(inner) => match resolve(*inner, dts) {
            Some(x) => Some(ExprV::Instantiate(Box::new(x))),
            None => None,
        },
        ExprV::ExistentialBindings(bs) => match resolve_bindings(bs, 0, dts) {
            Some(xs) => Some(ExprV::ExistentialBindings(xs)),
            None => None,
        },
        _ => Some(e),
    }
}

/// [`resolve`] on each expression from the `i`-th on.
pub open spec fn resolve_from(es: Seq<ExprV>, i: int, dts: DtsV) -> Option<Seq<ExprV>>
    decreases es, 0int, 0int, 0int, 0int, es.len() - i,
{
    if i < 0 || i >= es.len() {
        Some(Seq::empty())
    } else {
        match (resolve(es[i], dts), resolve_from(es, i + 1, dts)) {
            (Some(a), Some(rest)) => Some(seq![a] + rest),
            _ => None,
        }
    }
}

/// Each arm from the `i`-th on with its pattern stamped and its body
/// resolved.
pub open spec fn resolve_arms(arms: Seq<(PatternV, ExprV)>, i: int, dts: DtsV) -> Option<Seq<(PatternV, ExprV)>>
    decreases arms, 0int, 0int, 0int, 0int, arms.len() - i,
{
    if i < 0 || i >= arms.len() {
        Some(Seq::empty())
    } else {
        match (stamp(arms[i].0, dts), resolve(arms[i].1, dts), resolve_arms(arms, i + 1, dts)) {
            (Some(p), Some(b), Some(rest)) => Some(seq![(p, b)] + rest),
            _ => None,
        }
    }
}

/// Each binding from the `i`-th on with its expression resolved.
pub open spec fn resolve_bindings(bs: Seq<(Seq<char>, ExprV)>, i: int, dts: DtsV) -> Option<Seq<(Seq<char>, ExprV)>>
    decreases bs, 0int, 0int, 0int, 0int, bs.len() - i,
{
    if i < 0 || i >= bs.len() {
        Some(Seq::empty())
    } else {
        match (resolve(bs[i].1, dts), resolve_bindings(bs, i + 1, dts)) {
            (Some(x), Some(rest)) => Some(seq![(bs[i].0, x)] + rest),
            _ => None,
        }
    }
}

/// A row of a tuple match under compilation: the patterns left for the
/// remaining scrutinees, the bindings `x = scrutinee` made so far (latest
/// last), and the arm it came from.
pub type RowS = (Seq<PatternV>, Seq<(Seq<char>, Seq<char>)>, int);

/// The number of constructor patterns in a pattern.
pub open spec fn ctor_count(p: PatternV) -> nat
    decreases p,
{
    match p {
        PatternV::Constructor { args, .. } => 1 + ctor_counts(args),
        PatternV::Tuple(ps) => ctor_counts(ps),
        _ => 0,
    }
}

/// The number of constructor patterns in a list of patterns.
pub open spec fn ctor_counts(ps: Seq<PatternV>) -> nat
    decreases ps,
{
    if ps.len() == 0 {
        0
    } else {
        ctor_counts(ps.drop_last()) + ctor_count(ps.last())
    }
}

/// The number of constructor patterns in all rows.
pub open spec fn rows_count(rows: Seq<RowS>) -> nat
    decreases rows.len(),
{
    if rows.len() == 0 {
        0
    } else {
        rows_count(rows.drop_last()) + ctor_counts(rows.last().0)
    }
}

pub proof fn lemma_counts_concat(a: Seq<PatternV>, b: Seq<PatternV>)
    ensures
        ctor_counts(a + b) == ctor_counts(a) + ctor_counts(b),
    decreases b.len(),
{
    if b.len() == 0 {
        assert(a + b =~= a);
    } else {
        assert((a + b).drop_last() =~= a + b.drop_last());
        assert((a + b).last() == b.last());
        lemma_counts_concat(a, b.drop_last());
    }
}

pub proof fn lemma_counts_wild(k: nat)
    ensures
        ctor_counts(Seq::new(k, |j: int| PatternV::Wildcard)) == 0,
    decreases k,
{
    if k > 0 {
        assert(Seq::new(k, |j: int| PatternV::Wildcard).drop_last() =~= Seq::new((k - 1) as nat, |j: int| PatternV::Wildcard));
        assert(Seq::new(k, |j: int| PatternV::Wildcard).last() == PatternV::Wildcard);
        assert(ctor_count(PatternV::Wildcard) == 0);
        lemma_counts_wild((k - 1) as nat);
    }
}

pub proof fn lemma_counts_head(ps: Seq<PatternV>)
    requires
        ps.len() > 0,
    ensures
        ctor_counts(ps) == ctor_count(ps[0]) + ctor_counts(ps.skip(1)),
{
    assert(ps =~= seq![ps[0]] + ps.skip(1));
    lemma_counts_concat(seq![ps[0]], ps.skip(1));
    assert(seq![ps[0]].drop_last() =~= Seq::<PatternV>::empty());
    assert(seq![ps[0]].last() == ps[0]);
    assert(ctor_counts(Seq::<PatternV>::empty()) == 0);
    assert(ctor_counts(seq![ps[0]]) == ctor_counts(Seq::<PatternV>::empty()) + ctor_count(ps[0]));
}

/// Some row tests its first column with a constructor pattern.
pub open spec fn has_head_ctor(rows: Seq<RowS>) -> bool {
    exists|j: int| 0 <= j < rows.len() && rows[j].0.len() > 0 && (#[trigger] rows[j].0[0]) is Constructor
}

/// Every row has a pattern left.
pub open spec fn rows_nonempty(rows: Seq<RowS>) -> bool {
    forall|j: int| 0 <= j < rows.len() ==> (#[trigger] rows[j]).0.len() > 0
}

/// The enum of the first row that tests its first column with a qualified
/// constructor pattern.
pub open spec fn tested_enum(rows: Seq<RowS>) -> Option<Seq<char>>
    decreases rows.len(),
{
    if rows.len() == 0 {
        None
    } else if rows[0].0.len() > 0 && rows[0].0[0] is Constructor {
        match last_split(rows[0].0[0]->Constructor_name) {
            Some(parts) => Some(parts.0),
            None => tested_enum(rows.skip(1)),
        }
    } else {
        tested_enum(rows.skip(1))
    }
}

pub proof fn lemma_tested_enum(rows: Seq<RowS>)
    ensures
        tested_enum(rows) is Some ==> has_head_ctor(rows),
    decreases rows.len(),
{
    if rows.len() > 0 {
        if rows[0].0.len() > 0 && rows[0].0[0] is Constructor {
            assert(rows[0].0[0] is Constructor);
        } else {
            lemma_tested_enum(rows.skip(1));
            if tested_enum(rows.skip(1)) is Some {
                let j = choose|j: int| 0 <= j < rows.skip(1).len() && rows.skip(1)[j].0.len() > 0 && (#[trigger] rows.skip(1)[j].0[0]) is Constructor;
                assert(rows.skip(1)[j] == rows[j + 1]);
                assert(rows[j + 1].0[0] is Constructor);
            }
        }
    }
}

/// Each row with its first column bound to the scrutinee (a variable
/// pattern) or dropped (a wildcard); none for any other pattern.
pub open spec fn bind_rows(rows: Seq<RowS>, scr: Seq<char>) -> Option<Seq<RowS>>
    decreases rows.len(),
{
    if rows.len() == 0 {
        Some(Seq::empty())
    } else {
        match bind_rows(rows.drop_last(), scr) {
            Some(acc) => {
                let row = rows.last();
                if row.0.len() == 0 {
                    None
                } else {
                    match row.0[0] {
                        PatternV::Wildcard => Some(acc.push((row.0.skip(1), row.1, row.2))),
                        PatternV::Ident(x) => Some(acc.push((row.0.skip(1), row.1.push((x, scr)), row.2))),
                        _ => None,
                    }
                }
            },
            None => None,
        }
    }
}

pub proof fn lemma_bind_rows_count(rows: Seq<RowS>, scr: Seq<char>)
    ensures
        bind_rows(rows, scr) matches Some(r2) ==> rows_count(r2) == rows_count(rows),
    decreases rows.len(),
{
    if rows.len() > 0 {
        lemma_bind_rows_count(rows.drop_last(), scr);
        let row = rows.last();
        if row.0.len() > 0 {
            lemma_counts_head(row.0);
            match bind_rows(rows.drop_last(), scr) {
                Some(acc) => {
                    let r1 = (row.0.skip(1), row.1, row.2);
                    let r2 = (row.0.skip(1), row.1.push((row.0[0]->Ident_0, scr)), row.2);
                    assert(acc.push(r1).drop_last() =~= acc);
                    assert(acc.push(r2).drop_last() =~= acc);
                },
                None => {},
            }
        }
    }
}

/// The name of field `j` of a scrutinee.
pub open spec fn field_name(scr: Seq<char>, j: int) -> Seq<char> {
    scr + "_"@ + dec_text(j as nat)
}

/// The rows that can still match once the first column is known to be
/// constructor `name` with `k` fields: a row testing `name` continues with
/// its sub-patterns, one testing another constructor is dropped, a wildcard
/// or variable row continues with `k` wildcards (a variable bound to the
/// scrutinee); none for a tuple pattern there.
pub open spec fn sub_rows(rows: Seq<RowS>, name: Seq<char>, k: nat, scr: Seq<char>) -> Option<Seq<RowS>>
    decreases rows.len(),
{
    if rows.len() == 0 {
        Some(Seq::empty())
    } else {
        match sub_rows(rows.drop_last(), name, k, scr) {
            Some(acc) => {
                let row = rows.last();
                if row.0.len() == 0 {
                    None
                } else {
                    match row.0[0] {
                        PatternV::Constructor { name: n, args, .. } => if n == name {
                            Some(acc.push((args + row.0.skip(1), row.1, row.2)))
                        } else {
                            Some(acc)
                        },
                        PatternV::Wildcard => Some(acc.push((Seq::new(k, |j: int| PatternV::Wildcard) + row.0.skip(1), row.1, row.2))),
                        PatternV::Ident(x) => Some(acc.push((Seq::new(k, |j: int| PatternV::Wildcard) + row.0.skip(1), row.1.push((x, scr)), row.2))),
                        PatternV::Tuple(_) => None,
                    }
                }
            },
            None => None,
        }
    }
}

pub proof fn lemma_sub_rows_count(rows: Seq<RowS>, name: Seq<char>, k: nat, scr: Seq<char>)
    ensures
        sub_rows(rows, name, k, scr) matches Some(sub) ==> rows_count(sub) <= rows_count(rows)
            && (has_head_ctor(rows) ==> rows_count(sub) < rows_count(rows)),
    decreases rows.len(),
{
    if rows.len() > 0 {
        let prev = rows.drop_last();
        lemma_sub_rows_count(prev, name, k, scr);
        let row = rows.last();
        if row.0.len() > 0 {
            lemma_counts_head(row.0);
            lemma_counts_wild(k);
            match sub_rows(prev, name, k, scr) {
                Some(acc) => {
                    match row.0[0] {
                        PatternV::Constructor { name: n, args, .. } => {
                            lemma_counts_concat(args, row.0.skip(1));
                            let r1 = (args + row.0.skip(1), row.1, row.2);
                            assert(acc.push(r1).drop_last() =~= acc);
                        },
                        PatternV::Wildcard => {
                            lemma_counts_concat(Seq::new(k, |j: int| PatternV::Wildcard), row.0.skip(1));
                            let r1 = (Seq::new(k, |j: int| PatternV::Wildcard) + row.0.skip(1), row.1, row.2);
                            assert(acc.push(r1).drop_last() =~= acc);
                        },
                        PatternV::Ident(x) => {
                            lemma_counts_concat(Seq::new(k, |j: int| PatternV::Wildcard), row.0.skip(1));
                            let r1 = (Seq::new(k, |j: int| PatternV::Wildcard) + row.0.skip(1), row.1.push((x, scr)), row.2);
                            assert(acc.push(r1).drop_last() =~= acc);
                        },
                        PatternV::Tuple(_) => {},
                    }
                    if has_head_ctor(rows) {
                        let j = choose|j: int| 0 <= j < rows.len() && rows[j].0.len() > 0 && (#[trigger] rows[j].0[0]) is Constructor;
                        if j < rows.len() - 1 {
                            assert(prev[j] == rows[j]);
                            assert(prev[j].0[0] is Constructor);
                            assert(has_head_ctor(prev));
                        }
                    }
                },
                None => {},
            }
        }
    }
}

/// `body` inside the bindings, the latest outermost.
pub open spec fn wrap_binds(binds: Seq<(Seq<char>, Seq<char>)>, body: ExprV) -> ExprV
    decreases binds.len(),
{
    if binds.len() == 0 {
        body
    } else {
        ExprV::Let {
            pat: PatternV::Ident(binds.last().0),
            bound_expr: Box::new(ExprV::Var(binds.last().1)),
            body: Box::new(wrap_binds(binds.drop_last(), body)),
        }
    }
}

/// The names of a tuple of variables; none if a component is not a variable.
pub open spec fn var_names(cs: Seq<ExprV>) -> Option<Seq<Seq<char>>> {
    if forall|i: int| 0 <= i < cs.len() ==> (#[trigger] cs[i]) is Var {
        Some(Seq::new(cs.len(), |i: int| cs[i]->Var_0))
    } else {
        None
    }
}

/// The rows of a tuple match: an `n`-tuple pattern gives its components, a
/// `_` gives `n` wildcards; none for any other arm.
pub open spec fn initial_rows(arms: Seq<(PatternV, ExprV)>, n: nat) -> Option<Seq<RowS>> {
    if forall|k: int| 0 <= k < arms.len() ==> ((#[trigger] arms[k]).0 is Wildcard || (arms[k].0 is Tuple && arms[k].0->Tuple_0.len() == n)) {
        Some(Seq::new(arms.len(), |k: int| (
            if arms[k].0 is Wildcard { Seq::new(n, |j: int| PatternV::Wildcard) } else { arms[k].0->Tuple_0 },
            Seq::<(Seq<char>, Seq<char>)>::empty(),
            k,
        )))
    } else {
        None
    }
}

/// A match on a tuple of variables compiled into nested matches on single
/// variables (rows tried in order, as Rust does, so rows may overlap and a
/// `_` row stands for any tuple) and resolved; none where a component is
/// not a variable, an arm is neither an `n`-tuple pattern nor `_`, there is
/// no arm, or the compilation fails.
pub open spec fn compile_match(e: ExprV, dts: DtsV) -> Option<ExprV>
    decreases e, 2int, 0int, 0int, 0int, 0int,
{
    match e {
        ExprV::Match { expr: target, arms } => match *target {
            ExprV::Tuple(cs) => match var_names(cs) {
                Some(scrs) => match initial_rows(arms, scrs.len()) {
                    Some(rows) => if rows.len() == 0 {
                        None
                    } else {
                        compile_rows(e, scrs, rows, dts)
                    },
                    None => None,
                },
                None => None,
            },
            _ => None,
        },
        _ => None,
    }
}

/// One step of the decision tree for the match `owner`: the first column
/// is eliminated, by binding (no row tests it) or by a match on its
/// constructors; with no columns left, the first row is the one Rust would
/// take, its arm's body resolved inside the row's bindings.
pub open spec fn compile_rows(owner: ExprV, scrs: Seq<Seq<char>>, rows: Seq<RowS>, dts: DtsV) -> Option<ExprV>
    decreases owner, 1int, rows_count(rows), scrs.len(), 1int, 0int,
{
    if scrs.len() == 0 {
        if rows.len() == 0 {
            None
        } else {
            match owner {
                ExprV::Match { arms, .. } => if 0 <= rows[0].2 < arms.len() {
                    match resolve(arms[rows[0].2].1, dts) {
                        Some(b) => Some(wrap_binds(rows[0].1, b)),
                        None => None,
                    }
                } else {
                    None
                },
                _ => None,
            }
        }
    } else if !rows_nonempty(rows) {
        None
    } else {
        match tested_enum(rows) {
            None => match bind_rows(rows, scrs[0]) {
                Some(rows2) => {
                    proof {
                        lemma_bind_rows_count(rows, scrs[0]);
                    }
                    compile_rows(owner, scrs.skip(1), rows2, dts)
                },
                None => None,
            },
            Some(en) => match entry_of(dts, en) {
                Some(vs) => match compile_arms(owner, scrs, rows, en, vs, 0, dts) {
                    Some(xa) => if arms_disjoint(xa) {
                        Some(ExprV::Match { expr: Box::new(ExprV::Var(scrs[0])), arms: xa })
                    } else {
                        None
                    },
                    None => None,
                },
                None => None,
            },
        }
    }
}

/// The arms of the match on the first column, one per constructor of enum
/// `en` from the `i`-th on: the constructor with its fields named after the
/// scrutinee, stamped, and the rows that can still match, compiled on.
pub open spec fn compile_arms(owner: ExprV, scrs: Seq<Seq<char>>, rows: Seq<RowS>, en: Seq<char>, vs: Seq<(Seq<char>, Seq<BaseTypeV>)>, i: int, dts: DtsV) -> Option<Seq<(PatternV, ExprV)>>
    decreases owner, 1int, rows_count(rows), scrs.len(), 0int, vs.len() - i,
{
    if i < 0 || i >= vs.len() {
        Some(Seq::empty())
    } else if !has_head_ctor(rows) || scrs.len() == 0 {
        None
    } else {
        let name = en + "::"@ + vs[i].0;
        let k = vs[i].1.len();
        let fields = Seq::new(k, |j: int| field_name(scrs[0], j));
        match sub_rows(rows, name, k, scrs[0]) {
            Some(sub) => if sub.len() == 0 {
                None
            } else {
                proof {
                    lemma_sub_rows_count(rows, name, k, scrs[0]);
                }
                match (
                    stamp(PatternV::Constructor { name, args: Seq::new(k, |j: int| PatternV::Ident(fields[j])), arg_types: None }, dts),
                    compile_rows(owner, fields + scrs.skip(1), sub, dts),
                    compile_arms(owner, scrs, rows, en, vs, i + 1, dts),
                ) {
                    (Some(p), Some(b), Some(rest)) => Some(seq![(p, b)] + rest),
                    _ => None,
                }
            },
            None => None,
        }
    }
}

/// A row of a tuple match under compilation (see [`RowS`]).
pub type Row = (Vec<Pattern>, Vec<(String, String)>, usize);

/// The views of rows.
pub open spec fn rows_view(rows: Seq<Row>) -> Seq<RowS> {
    Seq::new(rows.len(), |k: int| (pattern_views(rows[k].0@), subst_view(rows[k].1@), rows[k].2 as int))
}

/// A copy of bindings.
fn copy_binds(b: &Vec<(String, String)>) -> (r: Vec<(String, String)>)
    ensures
        subst_view(r@) == subst_view(b@),
{
    let mut out: Vec<(String, String)> = Vec::new();
    let mut i: usize = 0;
    while i < b.len()
        invariant
            0 <= i <= b@.len(),
            subst_view(out@) == subst_view(b@).take(i as int),
        decreases b@.len() - i,
    {
        let ghost before = subst_view(out@);
        out.push((b[i].0.clone(), b[i].1.clone()));
        proof {
            assert(subst_view(out@) =~= before.push((b@[i as int].0@, b@[i as int].1@)));
            assert(subst_view(b@).take(i + 1) =~= subst_view(b@).take(i as int).push((b@[i as int].0@, b@[i as int].1@)));
        }
        i = i + 1;
    }
    proof {
        assert(subst_view(b@).take(b@.len() as int) =~= subst_view(b@));
    }
    out
}

/// `let x = v in body`.
fn let_var(x: String, v: String, body: Expr) -> (r: Expr)
    ensures
        r@ == (ExprV::Let { pat: PatternV::Ident(x@), bound_expr: Box::new(ExprV::Var(v@)), body: Box::new(body@) }),
{
    let p = Pattern::Ident(x);
    let b = Expr::Var(v);
    proof {
        assert(p@ == PatternV::Ident(x@));
        assert(b@ == ExprV::Var(v@));
    }
    let r = Expr::Let { pat: p, bound_expr: Box::new(b), body: Box::new(body) };
    proof {
        assert(r@ == ExprV::Let { pat: p@, bound_expr: Box::new(b@), body: Box::new(body@) });
    }
    r
}

/// `body` inside the bindings (see [`wrap_binds`]).
fn wrap_in_binds(binds: &Vec<(String, String)>, body: Expr) -> (r: Expr)
    ensures
        r@ == wrap_binds(subst_view(binds@), body@),
{
    let ghost bv = subst_view(binds@);
    let mut acc = body;
    let mut i: usize = 0;
    proof {
        assert(bv.take(0) =~= Seq::<(Seq<char>, Seq<char>)>::empty());
    }
    while i < binds.len()
        invariant
            0 <= i <= binds@.len(),
            bv == subst_view(binds@),
            acc@ == wrap_binds(bv.take(i as int), body@),
        decreases binds@.len() - i,
    {
        proof {
            assert(bv.take(i + 1).drop_last() =~= bv.take(i as int));
            assert(bv.take(i + 1).last() == bv[i as int]);
        }
        acc = let_var(binds[i].0.clone(), binds[i].1.clone(), acc);
        i = i + 1;
    }
    proof {
        assert(bv.take(binds@.len() as int) =~= bv);
    }
    acc
}

/// The enum of the first row testing its first column with a qualified
/// constructor (see [`tested_enum`]).
fn find_tested(rows: &Vec<Row>) -> (r: Option<String>)
    ensures
        tested_enum(rows_view(rows@)) == match r {
            Some(e) => Some(e@),
            None => None,
        },
{
    let ghost rv = rows_view(rows@);
    let mut k: usize = 0;
    proof {
        assert(rv.skip(0) =~= rv);
    }
    while k < rows.len()
        invariant
            0 <= k <= rows@.len(),
            rv == rows_view(rows@),
            tested_enum(rv) == tested_enum(rv.skip(k as int)),
        decreases rows@.len() - k,
    {
        proof {
            assert(rv.skip(k as int)[0] == rv[k as int]);
            assert(rv.skip(k as int).skip(1) =~= rv.skip(k + 1));
        }
        if rows[k].0.len() > 0 {
            proof {
                assert(rv[k as int].0[0] == rows@[k as int].0@[0]@);
            }
            match &rows[k].0[0] {
                Pattern::Constructor { name, .. } => {
                    match split_name(name.as_str()) {
                        Some((e, _)) => {
                            return Some(e);
                        },
                        None => {},
                    }
                },
                _ => {},
            }
        }
        k = k + 1;
    }
    proof {
        assert(rv.skip(k as int).len() == 0);
    }
    None
}

/// Once [`bind_rows`] fails on a prefix it fails on all rows.
proof fn lemma_bind_rows_none(rows: Seq<RowS>, k: int, scr: Seq<char>)
    requires
        0 <= k <= rows.len(),
        bind_rows(rows.take(k), scr) is None,
    ensures
        bind_rows(rows, scr) is None,
    decreases rows.len() - k,
{
    if k < rows.len() {
        assert(rows.take(k + 1).drop_last() =~= rows.take(k));
        lemma_bind_rows_none(rows, k + 1, scr);
    } else {
        assert(rows.take(k) =~= rows);
    }
}

/// Once [`sub_rows`] fails on a prefix it fails on all rows.
proof fn lemma_sub_rows_none(rows: Seq<RowS>, k: int, name: Seq<char>, n: nat, scr: Seq<char>)
    requires
        0 <= k <= rows.len(),
        sub_rows(rows.take(k), name, n, scr) is None,
    ensures
        sub_rows(rows, name, n, scr) is None,
    decreases rows.len() - k,
{
    if k < rows.len() {
        assert(rows.take(k + 1).drop_last() =~= rows.take(k));
        lemma_sub_rows_none(rows, k + 1, name, n, scr);
    } else {
        assert(rows.take(k) =~= rows);
    }
}

/// The rows with their first column bound (see [`bind_rows`]).
fn bind_row_list(rows: &Vec<Row>, scr: &String) -> (r: Option<Vec<Row>>)
    ensures
        bind_rows(rows_view(rows@), scr@) == match r {
            Some(v) => Some(rows_view(v@)),
            None => None,
        },
{
    let ghost rv = rows_view(rows@);
    let mut out: Vec<Row> = Vec::new();
    let mut k: usize = 0;
    proof {
        assert(rv.take(0) =~= Seq::<RowS>::empty());
        assert(rows_view(out@) =~= Seq::<RowS>::empty());
    }
    while k < rows.len()
        invariant
            0 <= k <= rows@.len(),
            rv == rows_view(rows@),
            bind_rows(rv.take(k as int), scr@) == Some(rows_view(out@)),
        decreases rows@.len() - k,
    {
        proof {
            assert(rv.take(k + 1).drop_last() =~= rv.take(k as int));
            assert(rv.take(k + 1).last() == rv[k as int]);
        }
        let row = &rows[k];
        if row.0.len() == 0 {
            proof {
                lemma_bind_rows_none(rv, k + 1, scr@);
            }
            return None;
        }
        proof {
            assert(rv[k as int].0[0] == row.0@[0]@);
            assert(rv[k as int].0.skip(1) =~= pattern_views(row.0@).skip(1));
        }
        let pats = copy_patterns(&row.0, 1);
        let mut binds = copy_binds(&row.1);
        let ghost before = rows_view(out@);
        match &row.0[0] {
            Pattern::Wildcard => {},
            Pattern::Ident(x) => {
                let ghost bb = subst_view(binds@);
                binds.push((x.clone(), scr.clone()));
                proof {
                    assert(subst_view(binds@) =~= bb.push((x@, scr@)));
                }
            },
            _ => {
                proof {
                    lemma_bind_rows_none(rv, k + 1, scr@);
                }
                return None;
            },
        }
        out.push((pats, binds, row.2));
        proof {
            assert(rows_view(out@) =~= before.push(rows_view(out@).last()));
        }
        k = k + 1;
    }
    proof {
        assert(rv.take(rows@.len() as int) =~= rv);
    }
    Some(out)
}

/// `k` wildcards, then copies of `ps[1..]`.
fn wild_then_rest(k: usize, ps: &Vec<Pattern>) -> (r: Vec<Pattern>)
    requires
        ps@.len() > 0,
    ensures
        pattern_views(r@) == Seq::new(k as nat, |j: int| PatternV::Wildcard) + pattern_views(ps@).skip(1),
{
    let mut out: Vec<Pattern> = Vec::new();
    let mut j: usize = 0;
    while j < k
        invariant
            0 <= j <= k,
            out@.len() == j,
            pattern_views(out@) == Seq::new(j as nat, |i: int| PatternV::Wildcard),
        decreases k - j,
    {
        let ghost before = pattern_views(out@);
        out.push(Pattern::Wildcard);
        proof {
            assert(out@[j as int]@ == PatternV::Wildcard);
            assert(pattern_views(out@) =~= before.push(PatternV::Wildcard));
            assert(pattern_views(out@) =~= Seq::new((j + 1) as nat, |i: int| PatternV::Wildcard));
        }
        j = j + 1;
    }
    let rest = copy_patterns(ps, 1);
    let ghost w = pattern_views(out@);
    let mut i: usize = 0;
    while i < rest.len()
        invariant
            0 <= i <= rest@.len(),
            pattern_views(out@) == w + pattern_views(rest@).take(i as int),
        decreases rest@.len() - i,
    {
        let ghost before = pattern_views(out@);
        out.push(rest[i].deep_clone());
        proof {
            assert(pattern_views(out@) =~= before.push(rest@[i as int]@));
            assert(pattern_views(rest@).take(i + 1) =~= pattern_views(rest@).take(i as int).push(rest@[i as int]@));
        }
        i = i + 1;
    }
    proof {
        assert(pattern_views(rest@).take(rest@.len() as int) =~= pattern_views(rest@));
    }
    out
}

/// Copies of `args`, then of `ps[1..]`.
fn args_then_rest(args: &Vec<Pattern>, ps: &Vec<Pattern>) -> (r: Vec<Pattern>)
    requires
        ps@.len() > 0,
    ensures
        pattern_views(r@) == pattern_views(args@) + pattern_views(ps@).skip(1),
{
    let mut out = copy_patterns(args, 0);
    proof {
        assert(pattern_views(args@).skip(0) =~= pattern_views(args@));
    }
    let rest = copy_patterns(ps, 1);
    let ghost w = pattern_views(out@);
    let mut i: usize = 0;
    while i < rest.len()
        invariant
            0 <= i <= rest@.len(),
            pattern_views(out@) == w + pattern_views(rest@).take(i as int),
        decreases rest@.len() - i,
    {
        let ghost before = pattern_views(out@);
        out.push(rest[i].deep_clone());
        proof {
            assert(pattern_views(out@) =~= before.push(rest@[i as int]@));
            assert(pattern_views(rest@).take(i + 1) =~= pattern_views(rest@).take(i as int).push(rest@[i as int]@));
        }
        i = i + 1;
    }
    proof {
        assert(pattern_views(rest@).take(rest@.len() as int) =~= pattern_views(rest@));
    }
    out
}

/// The rows that can still match constructor `name` (see [`sub_rows`]).
fn sub_row_list(rows: &Vec<Row>, name: &String, k: usize, scr: &String) -> (r: Option<Vec<Row>>)
    ensures
        sub_rows(rows_view(rows@), name@, k as nat, scr@) == match r {
            Some(v) => Some(rows_view(v@)),
            None => None,
        },
{
    let ghost rv = rows_view(rows@);
    let mut out: Vec<Row> = Vec::new();
    let mut i: usize = 0;
    proof {
        assert(rv.take(0) =~= Seq::<RowS>::empty());
        assert(rows_view(out@) =~= Seq::<RowS>::empty());
    }
    while i < rows.len()
        invariant
            0 <= i <= rows@.len(),
            rv == rows_view(rows@),
            sub_rows(rv.take(i as int), name@, k as nat, scr@) == Some(rows_view(out@)),
        decreases rows@.len() - i,
    {
        proof {
            assert(rv.take(i + 1).drop_last() =~= rv.take(i as int));
            assert(rv.take(i + 1).last() == rv[i as int]);
        }
        let row = &rows[i];
        if row.0.len() == 0 {
            proof {
                lemma_sub_rows_none(rv, i + 1, name@, k as nat, scr@);
            }
            return None;
        }
        proof {
            assert(rv[i as int].0[0] == row.0@[0]@);
        }
        let ghost before = rows_view(out@);
        match &row.0[0] {
            Pattern::Constructor { name: n, args, .. } => {
                proof {
                    assert(row.0@[0]@ matches PatternV::Constructor { .. });
                    assert(row.0@[0]@->Constructor_args == pattern_views(args@));
                    assert(row.0@[0]@->Constructor_name == n@);
                }
                if n.eq(name) {
                    let pats = args_then_rest(args, &row.0);
                    let binds = copy_binds(&row.1);
                    out.push((pats, binds, row.2));
                    proof {
                        assert(rows_view(out@) =~= before.push(rows_view(out@).last()));
                    }
                }
            },
            Pattern::Wildcard => {
                let pats = wild_then_rest(k, &row.0);
                let binds = copy_binds(&row.1);
                out.push((pats, binds, row.2));
                proof {
                    assert(rows_view(out@) =~= before.push(rows_view(out@).last()));
                }
            },
            Pattern::Ident(x) => {
                let pats = wild_then_rest(k, &row.0);
                let mut binds = copy_binds(&row.1);
                let ghost bb = subst_view(binds@);
                binds.push((x.clone(), scr.clone()));
                proof {
                    assert(subst_view(binds@) =~= bb.push((x@, scr@)));
                }
                out.push((pats, binds, row.2));
                proof {
                    assert(rows_view(out@) =~= before.push(rows_view(out@).last()));
                }
            },
            Pattern::Tuple(_) => {
                proof {
                    lemma_sub_rows_none(rv, i + 1, name@, k as nat, scr@);
                }
                return None;
            },
        }
        i = i + 1;
    }
    proof {
        assert(rv.take(rows@.len() as int) =~= rv);
    }
    Some(out)
}

/// The names of a tuple of variables (see [`var_names`]).
fn variable_names(cs: &Vec<Expr>) -> (r: Option<Vec<String>>)
    ensures
        var_names(expr_views(cs@)) == match r {
            Some(v) => Some(texts(v@)),
            None => None,
        },
{
    let ghost cv = expr_views(cs@);
    let mut out: Vec<String> = Vec::new();
    let mut i: usize = 0;
    while i < cs.len()
        invariant
            0 <= i <= cs@.len(),
            cv == expr_views(cs@),
            out@.len() == i,
            forall|k: int| 0 <= k < i ==> (#[trigger] cv[k]) is Var && cv[k]->Var_0 == out@[k]@,
        decreases cs@.len() - i,
    {
        proof {
            assert(cv[i as int] == cs@[i as int]@);
        }
        match &cs[i] {
            Expr::Var(x) => {
                out.push(x.clone());
            },
            _ => {
                proof {
                    assert(!(cv[i as int] is Var));
                }
                return None;
            },
        }
        i = i + 1;
    }
    proof {
        assert(texts(out@) =~= Seq::new(cv.len(), |i: int| cv[i]->Var_0));
    }
    Some(out)
}

/// The rows of a tuple match (see [`initial_rows`]).
fn first_rows(arms: &Vec<(Pattern, Expr)>, n: usize) -> (r: Option<Vec<Row>>)
    ensures
        initial_rows(arms_view(arms@), n as nat) == match r {
            Some(v) => Some(rows_view(v@)),
            None => None,
        },
{
    let ghost av = arms_view(arms@);
    let mut out: Vec<Row> = Vec::new();
    let mut k: usize = 0;
    while k < arms.len()
        invariant
            0 <= k <= arms@.len(),
            av == arms_view(arms@),
            out@.len() == k,
            forall|j: int| 0 <= j < k ==> ((#[trigger] av[j]).0 is Wildcard || (av[j].0 is Tuple && av[j].0->Tuple_0.len() == n)),
            forall|j: int| 0 <= j < k ==> #[trigger] rows_view(out@)[j] == (
                if av[j].0 is Wildcard { Seq::new(n as nat, |i: int| PatternV::Wildcard) } else { av[j].0->Tuple_0 },
                Seq::<(Seq<char>, Seq<char>)>::empty(),
                j,
            ),
        decreases arms@.len() - k,
    {
        proof {
            assert(av[k as int].0 == arms@[k as int].0@);
        }
        let ghost before = rows_view(out@);
        match &arms[k].0 {
            Pattern::Tuple(ps) => {
                proof {
                    assert(arms@[k as int].0@ == PatternV::Tuple(pattern_views(ps@)));
                }
                if ps.len() != n {
                    return None;
                }
                let pats = copy_patterns(ps, 0);
                proof {
                    assert(pattern_views(ps@).skip(0) =~= pattern_views(ps@));
                }
                out.push((pats, Vec::new(), k));
            },
            Pattern::Wildcard => {
                let mut pats: Vec<Pattern> = Vec::new();
                let mut j: usize = 0;
                while j < n
                    invariant
                        0 <= j <= n,
                        pats@.len() == j,
                        pattern_views(pats@) == Seq::new(j as nat, |i: int| PatternV::Wildcard),
                    decreases n - j,
                {
                    let ghost before_p = pattern_views(pats@);
                    pats.push(Pattern::Wildcard);
                    proof {
                        assert(pats@[j as int]@ == PatternV::Wildcard);
                        assert(pattern_views(pats@) =~= before_p.push(PatternV::Wildcard));
                        assert(pattern_views(pats@) =~= Seq::new((j + 1) as nat, |i: int| PatternV::Wildcard));
                    }
                    j = j + 1;
                }
                out.push((pats, Vec::new(), k));
            },
            _ => {
                return None;
            },
        }
        proof {
            assert(subst_view(out@[k as int].1@) =~= Seq::<(Seq<char>, Seq<char>)>::empty());
            assert forall|j: int| 0 <= j < k + 1 implies #[trigger] rows_view(out@)[j] == (
                if av[j].0 is Wildcard { Seq::new(n as nat, |i: int| PatternV::Wildcard) } else { av[j].0->Tuple_0 },
                Seq::<(Seq<char>, Seq<char>)>::empty(),
                j,
            ) by {
                if j < k {
                    assert(rows_view(out@)[j] == before[j]);
                }
            }
        }
        k = k + 1;
    }
    proof {
        assert(rows_view(out@) =~= Seq::new(av.len(), |k: int| (
            if av[k].0 is Wildcard { Seq::new(n as nat, |j: int| PatternV::Wildcard) } else { av[k].0->Tuple_0 },
            Seq::<(Seq<char>, Seq<char>)>::empty(),
            k,
        )));
    }
    Some(out)
}

/// Resolves the expressions of a list (see [`resolve_from`]).
fn resolve_list(es: &Vec<Expr>, dts: &Vec<(Ident, Vec<(Ident, Vec<BaseType>)>)>, Ghost(owner): Ghost<Expr>) -> (r: Option<Vec<Expr>>)
    requires
        decreases_to!(owner => es@),
    ensures
        resolve_from(expr_views(es@), 0, datatypes_view(dts@)) == match r {
            Some(xs) => Some(expr_views(xs@)),
            None => None,
        },
    decreases owner, 0int, 0int, 0int, 0int, 0int,
{
    let ghost ev = expr_views(es@);
    let ghost dv = datatypes_view(dts@);
    let mut out: Vec<Expr> = Vec::new();
    let mut i: usize = 0;
    proof {
        match resolve_from(ev, 0, dv) {
            Some(rest) => {
                assert(expr_views(out@) + rest =~= rest);
            },
            None => {},
        }
    }
    while i < es.len()
        invariant
            0 <= i <= es@.len(),
            ev == expr_views(es@),
            dv == datatypes_view(dts@),
            decreases_to!(owner => es@),
            resolve_from(ev, 0, dv) == match resolve_from(ev, i as int, dv) {
                Some(rest) => Some(expr_views(out@) + rest),
                None => None,
            },
        decreases es@.len() - i,
    {
        proof {
            assert(decreases_to!(es@ => es@[i as int]));
            assert(ev[i as int] == es@[i as int]@);
        }
        match resolve_expr(&es[i], dts) {
            Some(x) => {
                proof {
                    let before = expr_views(out@);
                    match resolve_from(ev, i + 1, dv) {
                        Some(rest) => {
                            assert(expr_views(out@.push(x)) =~= before.push(x@));
                            assert(before + (seq![x@] + rest) =~= before.push(x@) + rest);
                        },
                        None => {},
                    }
                }
                out.push(x);
            },
            None => {
                return None;
            },
        }
        i = i + 1;
    }
    proof {
        assert(expr_views(out@) + Seq::<ExprV>::empty() =~= expr_views(out@));
    }
    Some(out)
}

/// Resolves each arm (see [`resolve_arms`]).
fn resolve_arm_list(arms: &Vec<(Pattern, Expr)>, dts: &Vec<(Ident, Vec<(Ident, Vec<BaseType>)>)>, Ghost(owner): Ghost<Expr>) -> (r: Option<Vec<(Pattern, Expr)>>)
    requires
        decreases_to!(owner => arms@),
    ensures
        resolve_arms(arms_view(arms@), 0, datatypes_view(dts@)) == match r {
            Some(xs) => Some(arms_view(xs@)),
            None => None,
        },
    decreases owner, 0int, 0int, 0int, 0int, 0int,
{
    let ghost av = arms_view(arms@);
    let ghost dv = datatypes_view(dts@);
    let mut out: Vec<(Pattern, Expr)> = Vec::new();
    let mut i: usize = 0;
    proof {
        match resolve_arms(av, 0, dv) {
            Some(rest) => {
                assert(arms_view(out@) + rest =~= rest);
            },
            None => {},
        }
    }
    while i < arms.len()
        invariant
            0 <= i <= arms@.len(),
            av == arms_view(arms@),
            dv == datatypes_view(dts@),
            decreases_to!(owner => arms@),
            resolve_arms(av, 0, dv) == match resolve_arms(av, i as int, dv) {
                Some(rest) => Some(arms_view(out@) + rest),
                None => None,
            },
        decreases arms@.len() - i,
    {
        proof {
            assert(decreases_to!(arms@ => arms@[i as int]));
            assert(decreases_to!(arms@[i as int] => arms@[i as int].1));
            assert(av[i as int] == (arms@[i as int].0@, arms@[i as int].1@));
        }
        let p = match resolve_in_pattern(&arms[i].0, dts) {
            Some(p) => p,
            None => {
                return None;
            },
        };
        let b = match resolve_expr(&arms[i].1, dts) {
            Some(b) => b,
            None => {
                return None;
            },
        };
        proof {
            let before = arms_view(out@);
            match resolve_arms(av, i + 1, dv) {
                Some(rest) => {
                    assert(arms_view(out@.push((p, b))) =~= before.push((p@, b@)));
                    assert(before + (seq![(p@, b@)] + rest) =~= before.push((p@, b@)) + rest);
                },
                None => {},
            }
        }
        out.push((p, b));
        i = i + 1;
    }
    proof {
        assert(arms_view(out@) + Seq::<(PatternV, ExprV)>::empty() =~= arms_view(out@));
    }
    Some(out)
}

/// Resolves each binding's expression (see [`resolve_bindings`]).
fn resolve_binding_list(bs: &Vec<(Ident, Expr)>, dts: &Vec<(Ident, Vec<(Ident, Vec<BaseType>)>)>, Ghost(owner): Ghost<Expr>) -> (r: Option<Vec<(Ident, Expr)>>)
    requires
        decreases_to!(owner => bs@),
    ensures
        resolve_bindings(bindings_view(bs@), 0, datatypes_view(dts@)) == match r {
            Some(xs) => Some(bindings_view(xs@)),
            None => None,
        },
    decreases owner, 0int, 0int, 0int, 0int, 0int,
{
    let ghost bv = bindings_view(bs@);
    let ghost dv = datatypes_view(dts@);
    let mut out: Vec<(Ident, Expr)> = Vec::new();
    let mut i: usize = 0;
    proof {
        match resolve_bindings(bv, 0, dv) {
            Some(rest) => {
                assert(bindings_view(out@) + rest =~= rest);
            },
            None => {},
        }
    }
    while i < bs.len()
        invariant
            0 <= i <= bs@.len(),
            bv == bindings_view(bs@),
            dv == datatypes_view(dts@),
            decreases_to!(owner => bs@),
            resolve_bindings(bv, 0, dv) == match resolve_bindings(bv, i as int, dv) {
                Some(rest) => Some(bindings_view(out@) + rest),
                None => None,
            },
        decreases bs@.len() - i,
    {
        proof {
            assert(decreases_to!(bs@ => bs@[i as int]));
            assert(decreases_to!(bs@[i as int] => bs@[i as int].1));
            assert(bv[i as int] == (bs@[i as int].0@, bs@[i as int].1@));
        }
        match resolve_expr(&bs[i].1, dts) {
            Some(x) => {
                let name = bs[i].0.clone();
                proof {
                    let before = bindings_view(out@);
                    match resolve_bindings(bv, i + 1, dv) {
                        Some(rest) => {
                            assert(bindings_view(out@.push((name, x))) =~= before.push((name@, x@)));
                            assert(before + (seq![(name@, x@)] + rest) =~= before.push((name@, x@)) + rest);
                        },
                        None => {},
                    }
                }
                out.push((name, x));
            },
            None => {
                return None;
            },
        }
        i = i + 1;
    }
    proof {
        assert(bindings_view(out@) + Seq::<(Seq<char>, ExprV)>::empty() =~= bindings_view(out@));
    }
    Some(out)
}

/// Resolves a match (see [`resolve`]): a match on a tuple is compiled, any
/// other has its scrutinee and arms resolved, its `_` arms expanded and its
/// arms checked to be disjoint.
#[verifier::spinoff_prover]
fn resolve_match(e: &Expr, dts: &Vec<(Ident, Vec<(Ident, Vec<BaseType>)>)>) -> (r: Option<Expr>)
    requires
        e@ is Match,
    ensures
        resolve(e@, datatypes_view(dts@)) == match r {
            Some(x) => Some(x@),
            None => None,
        },
    decreases e, 2int, 0int, 0int, 0int, 0int,
{
    match e {
        Expr::Match { expr: target, arms } => {
            proof {
                assert(e@ == ExprV::Match { expr: Box::new(target@), arms: arms_view(arms@) });
                assert(decreases_to!(*e => (*e)->Match_arms));
            }
            match &**target {
                Expr::Tuple(_) => {
                    return compile_match_exec(e, dts);
                },
                _ => {},
            }
            let t = match resolve_expr(target, dts) {
                Some(t) => t,
                None => {
                    return None;
                },
            };
            let ra = match resolve_arm_list(arms, dts, Ghost(*e)) {
                Some(ra) => ra,
                None => {
                    return None;
                },
            };
            let xa = match expand_catch_all_arms(&ra, dts) {
                Some(xa) => xa,
                None => {
                    return None;
                },
            };
            if !reject_overlapping_arms(&xa) {
                return None;
            }
            Some(Expr::Match { expr: Box::new(t), arms: xa })
        },
        _ => None,
    }
}

/// Compiles and resolves a match on a tuple (see [`compile_match`]).
fn compile_match_exec(e: &Expr, dts: &Vec<(Ident, Vec<(Ident, Vec<BaseType>)>)>) -> (r: Option<Expr>)
    ensures
        compile_match(e@, datatypes_view(dts@)) == match r {
            Some(x) => Some(x@),
            None => None,
        },
    decreases e, 1int, 0int, 0int, 0int, 0int,
{
    match e {
        Expr::Match { expr: target, arms } => {
            proof {
                assert(e@ == ExprV::Match { expr: Box::new(target@), arms: arms_view(arms@) });
                assert(decreases_to!(*e => (*e)->Match_arms));
            }
            match &**target {
                Expr::Tuple(cs) => {
                    proof {
                        assert(target@ == ExprV::Tuple(expr_views(cs@)));
                    }
                    let scrs = match variable_names(cs) {
                        Some(v) => v,
                        None => {
                            return None;
                        },
                    };
                    let rows = match first_rows(arms, scrs.len()) {
                        Some(v) => v,
                        None => {
                            return None;
                        },
                    };
                    if rows.len() == 0 {
                        return None;
                    }
                    compile_rows_exec(&scrs, &rows, arms, dts, Ghost(*e))
                },
                _ => None,
            }
        },
        _ => None,
    }
}

/// Copies of `s[from..]`.
fn copy_strings(s: &Vec<String>, from: usize) -> (r: Vec<String>)
    requires
        from <= s@.len(),
    ensures
        texts(r@) == texts(s@).skip(from as int),
{
    let mut out: Vec<String> = Vec::new();
    let mut i: usize = from;
    while i < s.len()
        invariant
            from <= i <= s@.len(),
            texts(out@) == texts(s@).subrange(from as int, i as int),
        decreases s@.len() - i,
    {
        let ghost before = texts(out@);
        out.push(s[i].clone());
        proof {
            assert(texts(out@) =~= before.push(s@[i as int]@));
            assert(texts(s@).subrange(from as int, i + 1) =~= texts(s@).subrange(from as int, i as int).push(s@[i as int]@));
        }
        i = i + 1;
    }
    proof {
        assert(texts(s@).subrange(from as int, s@.len() as int) =~= texts(s@).skip(from as int));
    }
    out
}

/// One step of the decision tree (see [`compile_rows`]).
#[verifier::loop_isolation(false)]
#[verifier::spinoff_prover]
#[verifier::rlimit(60)]
fn compile_rows_exec(
    scrs: &Vec<String>,
    rows: &Vec<Row>,
    arms: &Vec<(Pattern, Expr)>,
    dts: &Vec<(Ident, Vec<(Ident, Vec<BaseType>)>)>,
    Ghost(owner): Ghost<Expr>,
) -> (r: Option<Expr>)
    requires
        decreases_to!(owner => arms@),
        owner@ is Match,
        owner@->Match_arms == arms_view(arms@),
    ensures
        compile_rows(owner@, texts(scrs@), rows_view(rows@), datatypes_view(dts@)) == match r {
            Some(x) => Some(x@),
            None => None,
        },
    decreases owner, 0int, rows_count(rows_view(rows@)), scrs@.len(), 1int, 0int,
{
    let ghost sv = texts(scrs@);
    let ghost rv = rows_view(rows@);
    let ghost dv = datatypes_view(dts@);
    if scrs.len() == 0 {
        if rows.len() == 0 {
            return None;
        }
        let r = rows[0].2;
        if r >= arms.len() {
            return None;
        }
        proof {
            assert(decreases_to!(arms@ => arms@[r as int]));
            assert(decreases_to!(arms@[r as int] => arms@[r as int].1));
            assert(arms_view(arms@)[r as int].1 == arms@[r as int].1@);
            assert(rv[0].2 == r as int);
            assert(rv[0].1 == subst_view(rows@[0].1@));
        }
        let b = match resolve_expr(&arms[r].1, dts) {
            Some(b) => b,
            None => {
                return None;
            },
        };
        return Some(wrap_in_binds(&rows[0].1, b));
    }
    let mut k: usize = 0;
    while k < rows.len()
        invariant
            0 <= k <= rows@.len(),
            rv == rows_view(rows@),
            forall|j: int| 0 <= j < k ==> (#[trigger] rv[j]).0.len() > 0,
        decreases rows@.len() - k,
    {
        if rows[k].0.len() == 0 {
            proof {
                assert(rv[k as int].0.len() == 0);
                assert(!rows_nonempty(rv));
            }
            return None;
        }
        k = k + 1;
    }
    assert(rows_nonempty(rv));
    match find_tested(rows) {
        None => {
            let rows2 = match bind_row_list(rows, &scrs[0]) {
                Some(x) => x,
                None => {
                    return None;
                },
            };
            let rest = copy_strings(scrs, 1);
            proof {
                lemma_bind_rows_count(rv, sv[0]);
                assert(sv[0] == scrs@[0]@);
            }
            compile_rows_exec(&rest, &rows2, arms, dts, Ghost(owner))
        },
        Some(en) => {
            let d = datatype_pos(dts, &en);
            if d == dts.len() {
                return None;
            }
            let vs = &dts[d].1;
            let ghost cv = ctors_view(vs@);
            proof {
                lemma_tested_enum(rv);
                reveal_strlit("::");
                reveal_strlit("_");
                assert(sv[0] == scrs@[0]@);
            }
            let mut out: Vec<(Pattern, Expr)> = Vec::new();
            let mut c: usize = 0;
            proof {
                match compile_arms(owner@, sv, rv, en@, cv, 0, dv) {
                    Some(rest) => {
                        assert(arms_view(out@) + rest =~= rest);
                    },
                    None => {},
                }
            }
            while c < vs.len()
                invariant
                    0 <= c <= vs@.len(),
                    cv == ctors_view(vs@),
                    compile_arms(owner@, sv, rv, en@, cv, 0, dv) == match compile_arms(owner@, sv, rv, en@, cv, c as int, dv) {
                        Some(rest) => Some(arms_view(out@) + rest),
                        None => None,
                    },
                decreases vs@.len() - c,
            {
                let mut name = en.clone();
                name.append("::");
                name.append(vs[c].0.as_str());
                let n = vs[c].1.len();
                let mut fields: Vec<String> = Vec::new();
                let mut fargs: Vec<Pattern> = Vec::new();
                let mut j: usize = 0;
                while j < n
                    invariant
                        0 <= j <= n,
                        fields@.len() == j,
                        fargs@.len() == j,
                        forall|i: int| 0 <= i < j ==> (#[trigger] fields@[i])@ == field_name(sv[0], i),
                        forall|i: int| 0 <= i < j ==> (#[trigger] fargs@[i])@ == PatternV::Ident(field_name(sv[0], i)),
                    decreases n - j,
                {
                    let mut f = scrs[0].clone();
                    f.append("_");
                    let dj = decimal(j);
                    f.append(dj.as_str());
                    fields.push(f.clone());
                    fargs.push(Pattern::Ident(f));
                    j = j + 1;
                }
                let ghost fv = Seq::new(n as nat, |i: int| field_name(sv[0], i));
                proof {
                    assert(texts(fields@) =~= fv);
                    assert(pattern_views(fargs@) =~= Seq::new(n as nat, |i: int| PatternV::Ident(fv[i])));
                    assert(cv[c as int] == (vs@[c as int].0@, base_views(vs@[c as int].1@)));
                }
                let sub = match sub_row_list(rows, &name, n, &scrs[0]) {
                    Some(x) => x,
                    None => {
                        return None;
                    },
                };
                if sub.len() == 0 {
                    return None;
                }
                proof {
                    lemma_sub_rows_count(rv, name@, n as nat, sv[0]);
                }
                let pat = Pattern::Constructor { name: name.clone(), args: fargs, arg_types: None };
                proof {
                    assert(pat@ == PatternV::Constructor { name: name@, args: pattern_views(fargs@), arg_types: None });
                }
                let p = match resolve_in_pattern(&pat, dts) {
                    Some(p) => p,
                    None => {
                        return None;
                    },
                };
                let mut cols = copy_strings(&fields, 0);
                let rest = copy_strings(scrs, 1);
                let ghost c0 = texts(cols@);
                let mut m: usize = 0;
                while m < rest.len()
                    invariant
                        0 <= m <= rest@.len(),
                        texts(cols@) == c0 + texts(rest@).take(m as int),
                    decreases rest@.len() - m,
                {
                    let ghost before = texts(cols@);
                    cols.push(rest[m].clone());
                    proof {
                        assert(texts(cols@) =~= before.push(rest@[m as int]@));
                        assert(texts(rest@).take(m + 1) =~= texts(rest@).take(m as int).push(rest@[m as int]@));
                    }
                    m = m + 1;
                }
                proof {
                    assert(texts(fields@).skip(0) =~= texts(fields@));
                    assert(texts(rest@).take(rest@.len() as int) =~= texts(rest@));
                    assert(texts(cols@) =~= fv + sv.skip(1));
                }
                let b = match compile_rows_exec(&cols, &sub, arms, dts, Ghost(owner)) {
                    Some(b) => b,
                    None => {
                        return None;
                    },
                };
                proof {
                    let before = arms_view(out@);
                    match compile_arms(owner@, sv, rv, en@, cv, c + 1, dv) {
                        Some(rest) => {
                            assert(arms_view(out@.push((p, b))) =~= before.push((p@, b@)));
                            assert(before + (seq![(p@, b@)] + rest) =~= before.push((p@, b@)) + rest);
                        },
                        None => {},
                    }
                }
                out.push((p, b));
                c = c + 1;
            }
            proof {
                assert(arms_view(out@) + Seq::<(PatternV, ExprV)>::empty() =~= arms_view(out@));
            }
            if !reject_overlapping_arms(&out) {
                return None;
            }
            let v = scrs[0].clone();
            let scrut = Expr::Var(v);
            proof {
                assert(scrut@ == ExprV::Var(sv[0]));
            }
            Some(Expr::Match { expr: Box::new(scrut), arms: out })
        },
    }
}

/// Resolves the patterns of an expression (see [`resolve`]).
#[verifier::spinoff_prover]
fn resolve_expr(e: &Expr, dts: &Vec<(Ident, Vec<(Ident, Vec<BaseType>)>)>) -> (r: Option<Expr>)
    ensures
        resolve(e@, datatypes_view(dts@)) == match r {
            Some(x) => Some(x@),
            None => None,
        },
    decreases e, 3int, 0int, 0int, 0int, 0int,
{
    let ghost dv = datatypes_view(dts@);
    match e {
        Expr::Let { pat, bound_expr, body } => {
            proof {
                assert(e@ == ExprV::Let { pat: pat@, bound_expr: Box::new(bound_expr@), body: Box::new(body@) });
            }
            let p = match resolve_in_pattern(pat, dts) {
                Some(p) => p,
                None => {
                    return None;
                },
            };
            let b = match resolve_expr(bound_expr, dts) {
                Some(b) => b,
                None => {
                    return None;
                },
            };
            let c = match resolve_expr(body, dts) {
                Some(c) => c,
                None => {
                    return None;
                },
            };
            Some(Expr::Let { pat: p, bound_expr: Box::new(b), body: Box::new(c) })
        },
        Expr::Match { .. } => resolve_match(e, dts),
        Expr::Tuple(es) => {
            proof {
                assert(e@ == ExprV::Tuple(expr_views(es@)));
                assert(decreases_to!(*e => (*e)->Tuple_0));
            }
            match resolve_list(es, dts, Ghost(*e)) {
                Some(xs) => Some(Expr::Tuple(xs)),
                None => None,
            }
        },
        Expr::BinOp { op, left, right } => {
            proof {
                assert(e@ == ExprV::BinOp { op: *op, left: Box::new(left@), right: Box::new(right@) });
            }
            let l = match resolve_expr(left, dts) {
                Some(l) => l,
                None => {
                    return None;
                },
            };
            let r = match resolve_expr(right, dts) {
                Some(r) => r,
                None => {
                    return None;
                },
            };
            Some(Expr::BinOp { op: *op, left: Box::new(l), right: Box::new(r) })
        },
        Expr::UnOp { op, expr } => {
            proof {
                assert(e@ == ExprV::UnOp { op: *op, expr: Box::new(expr@) });
            }
            match resolve_expr(expr, dts) {
                Some(x) => Some(Expr::UnOp { op: *op, expr: Box::new(x) }),
                None => None,
            }
        },
        Expr::If { cond, then_expr, else_expr } => {
            proof {
                assert(e@ == ExprV::If { cond: Box::new(cond@), then_expr: Box::new(then_expr@), else_expr: Box::new(else_expr@) });
            }
            let c = match resolve_expr(cond, dts) {
                Some(c) => c,
                None => {
                    return None;
                },
            };
            let t = match resolve_expr(then_expr, dts) {
                Some(t) => t,
                None => {
                    return None;
                },
            };
            let f = match resolve_expr(else_expr, dts) {
                Some(f) => f,
                None => {
                    return None;
                },
            };
            Some(Expr::If { cond: Box::new(c), then_expr: Box::new(t), else_expr: Box::new(f) })
        },
        Expr::Call { func, args } => {
            proof {
                assert(e@ == ExprV::Call { func: func@, args: expr_views(args@) });
                assert(decreases_to!(*e => (*e)->Call_args));
            }
            match resolve_list(args, dts, Ghost(*e)) {
                Some(xs) => Some(Expr::Call { func: func.clone(), args: xs }),
                None => None,
            }
        },
        Expr::Constructor { name, args } => {
            proof {
                assert(e@ == ExprV::Constructor { name: name@, args: expr_views(args@) });
                assert(decreases_to!(*e => (*e)->Constructor_args));
            }
            match resolve_list(args, dts, Ghost(*e)) {
                Some(xs) => Some(Expr::Constructor { name: name.clone(), args: xs }),
                None => None,
            }
        },
        Expr::ApplyRel { relation, args } => {
            proof {
                assert(e@ == ExprV::ApplyRel { relation: relation@, args: expr_views(args@) });
                assert(decreases_to!(*e => (*e)->ApplyRel_args));
            }
            match resolve_list(args, dts, Ghost(*e)) {
                Some(xs) => Some(Expr::ApplyRel { relation: relation.clone(), args: xs }),
                None => None,
            }
        },
        Expr::Forall { binders, body } => {
            proof {
                assert(e@ == ExprV::Forall { binders: binders_view(binders@), body: Box::new(body@) });
            }
            match resolve_expr(body, dts) {
                Some(b) => Some(Expr::Forall { binders: clone_binders(binders), body: Box::new(b) }),
                None => None,
            }
        },
        Expr::Exists { binders, body } => {
            proof {
                assert(e@ == ExprV::Exists { binders: binders_view(binders@), body: Box::new(body@) });
            }
            match resolve_expr(body, dts) {
                Some(b) => Some(Expr::Exists { binders: clone_binders(binders), body: Box::new(b) }),
                None => None,
            }
        },
        Expr::Instantiate(inner) => {
            proof {
                assert(e@ == ExprV::Instantiate(Box::new(inner@)));
            }
            match resolve_expr(inner, dts) {
                Some(x) => Some(Expr::Instantiate(Box::new(x))),
                None => None,
            }
        },
        Expr::ExistentialBindings(bs) => {
            proof {
                assert(e@ == ExprV::ExistentialBindings(bindings_view(bs@)));
                assert(decreases_to!(*e => (*e)->ExistentialBindings_0));
            }
            match resolve_binding_list(bs, dts, Ghost(*e)) {
                Some(xs) => Some(Expr::ExistentialBindings(xs)),
                None => None,
            }
        },
        Expr::BoolConst(b) => Some(Expr::BoolConst(*b)),
        Expr::Var(x) => Some(Expr::Var(x.clone())),
    }
}

/// Whether the patterns of an expression resolve against the datatype table
/// (see [`resolve`]). They do not where a constructor pattern names an
/// unknown datatype or constructor or has the wrong number of fields, or a
/// `match` has `_` arms that cannot be expanded or arms that overlap.
pub fn resolvable(expr: &Expr, datatypes: &Vec<(Ident, Vec<(Ident, Vec<BaseType>)>)>) -> (r: bool)
    ensures
        r == resolve(expr@, datatypes_view(datatypes@)) is Some,
{
    resolve_expr(expr, datatypes).is_some()
}

/// Resolves the patterns of an expression against the datatype table: every
/// constructor pattern gets its field sorts, tuple matches are compiled,
/// `_` arms expanded (see [`resolve`]). Defined on the expressions that
/// resolve (see [`resolvable`]); the others are refused at registration.
pub fn resolve_pattern_types(expr: &Expr, datatypes: &Vec<(Ident, Vec<(Ident, Vec<BaseType>)>)>) -> (r: Expr)
    requires
        resolve(expr@, datatypes_view(datatypes@)) is Some,
    ensures
        resolve(expr@, datatypes_view(datatypes@)) == Some(r@),
{
    match resolve_expr(expr, datatypes) {
        Some(x) => x,
        None => {
            proof {
                assert(false);
            }
            Expr::BoolConst(true)
        },
    }
}

/// Every match in the expression has pairwise disjoint arms.
pub open spec fn matches_disjoint(e: ExprV) -> bool
    decreases e, 1int,
{
    match e {
        ExprV::Match { expr, arms } => matches_disjoint(*expr) && arms_disjoint(arms) && md_arms_from(arms, 0),
        ExprV::Let { bound_expr, body, .. } => matches_disjoint(*bound_expr) && matches_disjoint(*body),
        ExprV::Tuple(es) => md_from(es, 0),
        ExprV::BinOp { left, right, .. } => matches_disjoint(*left) && matches_disjoint(*right),
        ExprV::UnOp { expr, .. } => matches_disjoint(*expr),
        ExprV::If { cond, then_expr, else_expr } => matches_disjoint(*cond) && matches_disjoint(*then_expr) && matches_disjoint(*else_expr),
        ExprV::Call { args, .. } => md_from(args, 0),
        ExprV::Constructor { args, .. } => md_from(args, 0),
        ExprV::ApplyRel { args, .. } => md_from(args, 0),
        ExprV::Forall { body, .. } => matches_disjoint(*body),
        ExprV::Exists { body, .. } => matches_disjoint(*body),
        ExprV::Instantiate(inner) => matches_disjoint(*inner),
        ExprV::ExistentialBindings(bs) => md_binds_from(bs, 0),
        _ => true,
    }
}

/// [`matches_disjoint`] of each expression from the `i`-th on.
pub open spec fn md_from(es: Seq<ExprV>, i: int) -> bool
    decreases es, es.len() - i,
{
    if i < 0 || i >= es.len() {
        true
    } else {
        matches_disjoint(es[i]) && md_from(es, i + 1)
    }
}

/// [`matches_disjoint`] of each arm's body from the `i`-th on.
pub open spec fn md_arms_from(arms: Seq<(PatternV, ExprV)>, i: int) -> bool
    decreases arms, arms.len() - i,
{
    if i < 0 || i >= arms.len() {
        true
    } else {
        matches_disjoint(arms[i].1) && md_arms_from(arms, i + 1)
    }
}

/// [`matches_disjoint`] of each binding's expression from the `i`-th on.
pub open spec fn md_binds_from(bs: Seq<(Seq<char>, ExprV)>, i: int) -> bool
    decreases bs, bs.len() - i,
{
    if i < 0 || i >= bs.len() {
        true
    } else {
        matches_disjoint(bs[i].1) && md_binds_from(bs, i + 1)
    }
}

proof fn lemma_md_from(es: Seq<ExprV>, i: int)
    requires
        0 <= i,
        forall|k: int| i <= k < es.len() ==> #[trigger] matches_disjoint(es[k]),
    ensures
        md_from(es, i),
    decreases es.len() - i,
{
    if i < es.len() {
        assert(matches_disjoint(es[i]));
        lemma_md_from(es, i + 1);
    }
}

proof fn lemma_md_arms_from(arms: Seq<(PatternV, ExprV)>, i: int)
    requires
        0 <= i,
        forall|k: int| i <= k < arms.len() ==> #[trigger] matches_disjoint(arms[k].1),
    ensures
        md_arms_from(arms, i),
    decreases arms.len() - i,
{
    if i < arms.len() {
        assert(matches_disjoint(arms[i].1));
        lemma_md_arms_from(arms, i + 1);
    }
}

proof fn lemma_md_binds_from(bs: Seq<(Seq<char>, ExprV)>, i: int)
    requires
        0 <= i,
        forall|k: int| i <= k < bs.len() ==> #[trigger] matches_disjoint(bs[k].1),
    ensures
        md_binds_from(bs, i),
    decreases bs.len() - i,
{
    if i < bs.len() {
        assert(matches_disjoint(bs[i].1));
        lemma_md_binds_from(bs, i + 1);
    }
}

/// Each body of the expanded arms is the body of one of the given arms.
proof fn lemma_expand_bodies(arms: Seq<(PatternV, ExprV)>, dts: DtsV)
    ensures
        expand_arms(arms, dts) matches Some(xa) ==> forall|k: int| 0 <= k < xa.len() ==> exists|j: int| 0 <= j < arms.len() && #[trigger] xa[k].1 == #[trigger] arms[j].1,
    decreases arms.len(),
{
    if arms.len() > 0 {
        let prev = arms.drop_last();
        lemma_expand_bodies(prev, dts);
        match expand_arms(prev, dts) {
            Some(acc) => {
                match expand_arms(arms, dts) {
                    Some(xa) => {
                        assert forall|k: int| 0 <= k < xa.len() implies exists|j: int| 0 <= j < arms.len() && #[trigger] xa[k].1 == #[trigger] arms[j].1 by {
                            if k < acc.len() {
                                assert(xa[k] == acc[k]);
                                let j = choose|j: int| 0 <= j < prev.len() && #[trigger] acc[k].1 == #[trigger] prev[j].1;
                                assert(prev[j] == arms[j]);
                            } else {
                                assert(xa[k].1 == arms[arms.len() - 1].1);
                            }
                        }
                    },
                    None => {},
                }
            },
            None => {},
        }
    }
}

/// A binding chain around an expression adds no match.
proof fn lemma_wrap_disjoint(binds: Seq<(Seq<char>, Seq<char>)>, b: ExprV)
    requires
        matches_disjoint(b),
    ensures
        matches_disjoint(wrap_binds(binds, b)),
    decreases binds.len(),
{
    if binds.len() > 0 {
        lemma_wrap_disjoint(binds.drop_last(), b);
        let v = ExprV::Var(binds.last().1);
        assert(matches_disjoint(v));
        let inner = wrap_binds(binds.drop_last(), b);
        let w = ExprV::Let { pat: PatternV::Ident(binds.last().0), bound_expr: Box::new(v), body: Box::new(inner) };
        assert(wrap_binds(binds, b) == w);
        assert(matches_disjoint(w));
    }
}

/// Law: in a resolved expression every match has pairwise disjoint arms,
/// so that encoding the arms as unordered cases keeps Rust's first-match
/// meaning.
pub proof fn lemma_resolved_matches_disjoint(e: ExprV, dts: DtsV)
    ensures
        resolve(e, dts) matches Some(x) ==> matches_disjoint(x),
    decreases e, 3int, 0int, 0int, 0int, 0int,
{
    match e {
        ExprV::Let { pat, bound_expr, body } => {
            lemma_resolved_matches_disjoint(*bound_expr, dts);
            lemma_resolved_matches_disjoint(*body, dts);
            match (stamp(pat, dts), resolve(*bound_expr, dts), resolve(*body, dts)) {
                (Some(p), Some(b), Some(c)) => {
                    let x = ExprV::Let { pat: p, bound_expr: Box::new(b), body: Box::new(c) };
                    assert(resolve(e, dts) == Some(x));
                    assert(matches_disjoint(x));
                },
                _ => {},
            }
        },
        ExprV::Match { expr: target, arms } => match *target {
            ExprV::Tuple(cs) => {
                lemma_compile_match_disjoint(e, dts);
            },
            _ => {
                lemma_resolved_matches_disjoint(*target, dts);
                lemma_resolve_arms_disjoint(arms, 0, dts);
                match resolve_arms(arms, 0, dts) {
                    Some(ra) => {
                        lemma_expand_bodies(ra, dts);
                        match expand_arms(ra, dts) {
                            Some(xa) => {
                                assert forall|i: int| 0 <= i < xa.len() implies #[trigger] matches_disjoint(xa[i].1) by {
                                    let j = choose|j: int| 0 <= j < ra.len() && #[trigger] xa[i].1 == #[trigger] ra[j].1;
                                }
                                match resolve(*target, dts) {
                                    Some(t) => {
                                        if arms_disjoint(xa) {
                                            let x = ExprV::Match { expr: Box::new(t), arms: xa };
                                            lemma_md_arms_from(xa, 0);
                                            assert(matches_disjoint(x));
                                        }
                                    },
                                    None => {},
                                }
                            },
                            None => {},
                        }
                    },
                    None => {},
                }
            },
        },
        ExprV::Tuple(es) => {
            lemma_resolve_from_disjoint(es, 0, dts);
            match resolve_from(es, 0, dts) {
                Some(xs) => {
                    lemma_md_from(xs, 0);
                },
                None => {},
            }
        },
        ExprV::BinOp { left, right, .. } => {
            lemma_resolved_matches_disjoint(*left, dts);
            lemma_resolved_matches_disjoint(*right, dts);
        },
        ExprV::UnOp { expr, .. } => {
            lemma_resolved_matches_disjoint(*expr, dts);
        },
        ExprV::If { cond, then_expr, else_expr } => {
            lemma_resolved_matches_disjoint(*cond, dts);
            lemma_resolved_matches_disjoint(*then_expr, dts);
            lemma_resolved_matches_disjoint(*else_expr, dts);
        },
        ExprV::Call { args, .. } => {
            lemma_resolve_from_disjoint(args, 0, dts);
            match resolve_from(args, 0, dts) {
                Some(xs) => {
                    lemma_md_from(xs, 0);
                },
                None => {},
            }
        },
        ExprV::Constructor { args, .. } => {
            lemma_resolve_from_disjoint(args, 0, dts);
            match resolve_from(args, 0, dts) {
                Some(xs) => {
                    lemma_md_from(xs, 0);
                },
                None => {},
            }
        },
        ExprV::ApplyRel { args, .. } => {
            lemma_resolve_from_disjoint(args, 0, dts);
            match resolve_from(args, 0, dts) {
                Some(xs) => {
                    lemma_md_from(xs, 0);
                },
                None => {},
            }
        },
        ExprV::Forall { body, .. } => {
            lemma_resolved_matches_disjoint(*body, dts);
        },
        ExprV::Exists { body, .. } => {
            lemma_resolved_matches_disjoint(*body, dts);
        },
        ExprV::Instantiate(inner) => {
            lemma_resolved_matches_disjoint(*inner, dts);
        },
        ExprV::ExistentialBindings(bs) => {
            lemma_resolve_bindings_disjoint(bs, 0, dts);
            match resolve_bindings(bs, 0, dts) {
                Some(xs) => {
                    lemma_md_binds_from(xs, 0);
                },
                None => {},
            }
        },
        _ => {},
    }
}

proof fn lemma_resolve_from_disjoint(es: Seq<ExprV>, i: int, dts: DtsV)
    ensures
        resolve_from(es, i, dts) matches Some(xs) ==> forall|k: int| 0 <= k < xs.len() ==> #[trigger] matches_disjoint(xs[k]),
    decreases es, 0int, 0int, 0int, 0int, es.len() - i,
{
    if 0 <= i < es.len() {
        lemma_resolved_matches_disjoint(es[i], dts);
        lemma_resolve_from_disjoint(es, i + 1, dts);
        match (resolve(es[i], dts), resolve_from(es, i + 1, dts)) {
            (Some(a), Some(rest)) => {
                assert forall|k: int| 0 <= k < (seq![a] + rest).len() implies #[trigger] matches_disjoint((seq![a] + rest)[k]) by {
                    if k > 0 {
                        assert((seq![a] + rest)[k] == rest[k - 1]);
                    }
                }
            },
            _ => {},
        }
    }
}

proof fn lemma_resolve_arms_disjoint(arms: Seq<(PatternV, ExprV)>, i: int, dts: DtsV)
    ensures
        resolve_arms(arms, i, dts) matches Some(xs) ==> forall|k: int| 0 <= k < xs.len() ==> #[trigger] matches_disjoint(xs[k].1),
    decreases arms, 0int, 0int, 0int, 0int, arms.len() - i,
{
    if 0 <= i < arms.len() {
        lemma_resolved_matches_disjoint(arms[i].1, dts);
        lemma_resolve_arms_disjoint(arms, i + 1, dts);
        match (stamp(arms[i].0, dts), resolve(arms[i].1, dts), resolve_arms(arms, i + 1, dts)) {
            (Some(p), Some(b), Some(rest)) => {
                assert forall|k: int| 0 <= k < (seq![(p, b)] + rest).len() implies #[trigger] matches_disjoint((seq![(p, b)] + rest)[k].1) by {
                    if k > 0 {
                        assert((seq![(p, b)] + rest)[k] == rest[k - 1]);
                    }
                }
            },
            _ => {},
        }
    }
}

proof fn lemma_resolve_bindings_disjoint(bs: Seq<(Seq<char>, ExprV)>, i: int, dts: DtsV)
    ensures
        resolve_bindings(bs, i, dts) matches Some(xs) ==> forall|k: int| 0 <= k < xs.len() ==> #[trigger] matches_disjoint(xs[k].1),
    decreases bs, 0int, 0int, 0int, 0int, bs.len() - i,
{
    if 0 <= i < bs.len() {
        lemma_resolved_matches_disjoint(bs[i].1, dts);
        lemma_resolve_bindings_disjoint(bs, i + 1, dts);
        match (resolve(bs[i].1, dts), resolve_bindings(bs, i + 1, dts)) {
            (Some(x), Some(rest)) => {
                assert forall|k: int| 0 <= k < (seq![(bs[i].0, x)] + rest).len() implies #[trigger] matches_disjoint((seq![(bs[i].0, x)] + rest)[k].1) by {
                    if k > 0 {
                        assert((seq![(bs[i].0, x)] + rest)[k] == rest[k - 1]);
                    }
                }
            },
            _ => {},
        }
    }
}

proof fn lemma_compile_match_disjoint(e: ExprV, dts: DtsV)
    ensures
        compile_match(e, dts) matches Some(x) ==> matches_disjoint(x),
    decreases e, 2int, 0int, 0int, 0int, 0int,
{
    match e {
        ExprV::Match { expr: target, arms } => match *target {
            ExprV::Tuple(cs) => match var_names(cs) {
                Some(scrs) => match initial_rows(arms, scrs.len()) {
                    Some(rows) => {
                        if rows.len() > 0 {
                            lemma_compile_rows_disjoint(e, scrs, rows, dts);
                        }
                    },
                    None => {},
                },
                None => {},
            },
            _ => {},
        },
        _ => {},
    }
}

proof fn lemma_compile_rows_disjoint(owner: ExprV, scrs: Seq<Seq<char>>, rows: Seq<RowS>, dts: DtsV)
    ensures
        compile_rows(owner, scrs, rows, dts) matches Some(x) ==> matches_disjoint(x),
    decreases owner, 1int, rows_count(rows), scrs.len(), 1int, 0int,
{
    if scrs.len() == 0 {
        if rows.len() > 0 {
            match owner {
                ExprV::Match { arms, .. } => {
                    if 0 <= rows[0].2 < arms.len() {
                        lemma_resolved_matches_disjoint(arms[rows[0].2].1, dts);
                        match resolve(arms[rows[0].2].1, dts) {
                            Some(b) => {
                                lemma_wrap_disjoint(rows[0].1, b);
                            },
                            None => {},
                        }
                    }
                },
                _ => {},
            }
        }
    } else if rows_nonempty(rows) {
        match tested_enum(rows) {
            None => match bind_rows(rows, scrs[0]) {
                Some(rows2) => {
                    lemma_bind_rows_count(rows, scrs[0]);
                    lemma_compile_rows_disjoint(owner, scrs.skip(1), rows2, dts);
                },
                None => {},
            },
            Some(en) => match entry_of(dts, en) {
                Some(vs) => {
                    lemma_compile_arms_disjoint(owner, scrs, rows, en, vs, 0, dts);
                    match compile_arms(owner, scrs, rows, en, vs, 0, dts) {
                        Some(xa) => {
                            let v = ExprV::Var(scrs[0]);
                            assert(matches_disjoint(v));
                            if arms_disjoint(xa) {
                                let x = ExprV::Match { expr: Box::new(v), arms: xa };
                                assert(compile_rows(owner, scrs, rows, dts) == Some(x));
                                lemma_md_arms_from(xa, 0);
                                assert(matches_disjoint(x));
                            }
                        },
                        None => {},
                    }
                },
                None => {},
            },
        }
    }
}

proof fn lemma_compile_arms_disjoint(owner: ExprV, scrs: Seq<Seq<char>>, rows: Seq<RowS>, en: Seq<char>, vs: Seq<(Seq<char>, Seq<BaseTypeV>)>, i: int, dts: DtsV)
    ensures
        compile_arms(owner, scrs, rows, en, vs, i, dts) matches Some(xa) ==> forall|k: int| 0 <= k < xa.len() ==> #[trigger] matches_disjoint(xa[k].1),
    decreases owner, 1int, rows_count(rows), scrs.len(), 0int, vs.len() - i,
{
    if 0 <= i < vs.len() && has_head_ctor(rows) && scrs.len() > 0 {
        let name = en + "::"@ + vs[i].0;
        let k = vs[i].1.len();
        let fields = Seq::new(k, |j: int| field_name(scrs[0], j));
        match sub_rows(rows, name, k, scrs[0]) {
            Some(sub) => {
                if sub.len() > 0 {
                    lemma_sub_rows_count(rows, name, k, scrs[0]);
                    lemma_compile_rows_disjoint(owner, fields + scrs.skip(1), sub, dts);
                    lemma_compile_arms_disjoint(owner, scrs, rows, en, vs, i + 1, dts);
                    match (
                        stamp(PatternV::Constructor { name, args: Seq::new(k, |j: int| PatternV::Ident(fields[j])), arg_types: None }, dts),
                        compile_rows(owner, fields + scrs.skip(1), sub, dts),
                        compile_arms(owner, scrs, rows, en, vs, i + 1, dts),
                    ) {
                        (Some(p), Some(b), Some(rest)) => {
                            assert forall|m: int| 0 <= m < (seq![(p, b)] + rest).len() implies #[trigger] matches_disjoint((seq![(p, b)] + rest)[m].1) by {
                                if m > 0 {
                                    assert((seq![(p, b)] + rest)[m] == rest[m - 1]);
                                }
                            }
                        },
                        _ => {},
                    }
                }
            },
            None => {},
        }
    }
}

/// Every constructor pattern within carries its field sorts.
pub open spec fn stamped_pat(p: PatternV) -> bool
    decreases p, 1int,
{
    match p {
        PatternV::Constructor { args, arg_types, .. } => arg_types is Some && stamped_from(args, 0),
        PatternV::Tuple(ps) => stamped_from(ps, 0),
        _ => true,
    }
}

/// [`stamped_pat`] of each pattern from the `i`-th on.
pub open spec fn stamped_from(ps: Seq<PatternV>, i: int) -> bool
    decreases ps, ps.len() - i,
{
    if i < 0 || i >= ps.len() {
        true
    } else {
        stamped_pat(ps[i]) && stamped_from(ps, i + 1)
    }
}

/// [`stamped_from`] says it of each pattern.
proof fn lemma_stamped_from(ps: Seq<PatternV>, i: int)
    requires
        0 <= i,
    ensures
        stamped_from(ps, i) <==> forall|k: int| i <= k < ps.len() ==> #[trigger] stamped_pat(ps[k]),
    decreases ps.len() - i,
{
    if i < ps.len() {
        lemma_stamped_from(ps, i + 1);
        if forall|k: int| i <= k < ps.len() ==> #[trigger] stamped_pat(ps[k]) {
            assert(stamped_pat(ps[i]));
            assert(forall|k: int| i + 1 <= k < ps.len() ==> #[trigger] stamped_pat(ps[k]));
        }
        if stamped_from(ps, i) {
            assert forall|k: int| i <= k < ps.len() implies #[trigger] stamped_pat(ps[k]) by {
                if k > i {
                }
            }
        }
    }
}

/// Stamping leaves every constructor pattern stamped.
proof fn lemma_stamp_stamped(p: PatternV, dts: DtsV)
    ensures
        stamp(p, dts) matches Some(q) ==> stamped_pat(q),
    decreases p, 1int,
{
    match p {
        PatternV::Constructor { name, args, .. } => {
            lemma_stamp_from_stamped(args, 0, dts);
            match stamp_from(args, 0, dts) {
                Some(qs) => {
                    lemma_stamped_from(qs, 0);
                },
                None => {},
            }
        },
        PatternV::Tuple(ps) => {
            lemma_stamp_from_stamped(ps, 0, dts);
            match stamp_from(ps, 0, dts) {
                Some(qs) => {
                    lemma_stamped_from(qs, 0);
                },
                None => {},
            }
        },
        _ => {},
    }
}

proof fn lemma_stamp_from_stamped(ps: Seq<PatternV>, i: int, dts: DtsV)
    ensures
        stamp_from(ps, i, dts) matches Some(qs) ==> forall|k: int| 0 <= k < qs.len() ==> #[trigger] stamped_pat(qs[k]),
    decreases ps, ps.len() - i,
{
    if 0 <= i < ps.len() {
        lemma_stamp_stamped(ps[i], dts);
        lemma_stamp_from_stamped(ps, i + 1, dts);
        match (stamp(ps[i], dts), stamp_from(ps, i + 1, dts)) {
            (Some(a), Some(rest)) => {
                assert forall|k: int| 0 <= k < (seq![a] + rest).len() implies #[trigger] stamped_pat((seq![a] + rest)[k]) by {
                    if k > 0 {
                        assert((seq![a] + rest)[k] == rest[k - 1]);
                    }
                }
            },
            _ => {},
        }
    }
}

/// Erasing binders keeps the field sorts.
proof fn lemma_erase_stamped(c: PatternV)
    requires
        stamped_pat(c),
    ensures
        erase(c) matches Some(x) ==> stamped_pat(x),
    decreases c, 1int,
{
    match c {
        PatternV::Constructor { args, .. } => {
            lemma_stamped_from(args, 0);
            lemma_erase_from_stamped(args, 0);
            match erase_from(args, 0) {
                Some(xs) => {
                    lemma_stamped_from(xs, 0);
                },
                None => {},
            }
        },
        _ => {},
    }
}

proof fn lemma_erase_from_stamped(ps: Seq<PatternV>, i: int)
    requires
        forall|k: int| 0 <= k < ps.len() ==> #[trigger] stamped_pat(ps[k]),
    ensures
        erase_from(ps, i) matches Some(xs) ==> forall|k: int| 0 <= k < xs.len() ==> #[trigger] stamped_pat(xs[k]),
    decreases ps, ps.len() - i,
{
    if 0 <= i < ps.len() {
        lemma_erase_stamped(ps[i]);
        lemma_erase_from_stamped(ps, i + 1);
        match (erase(ps[i]), erase_from(ps, i + 1)) {
            (Some(a), Some(rest)) => {
                assert forall|k: int| 0 <= k < (seq![a] + rest).len() implies #[trigger] stamped_pat((seq![a] + rest)[k]) by {
                    if k > 0 {
                        assert((seq![a] + rest)[k] == rest[k - 1]);
                    }
                }
            },
            _ => {},
        }
    }
}

/// Intersecting stamped patterns gives a stamped pattern.
proof fn lemma_intersect_stamped(q: PatternV, p: PatternV)
    requires
        stamped_pat(q),
        stamped_pat(p),
    ensures
        intersect(q, p) matches Some(Some(x)) ==> stamped_pat(x),
    decreases q, 1int,
{
    lemma_erase_stamped(q);
    lemma_erase_stamped(p);
    match q {
        PatternV::Constructor { args: qa, .. } => match p {
            PatternV::Constructor { args: pa, .. } => {
                lemma_stamped_from(qa, 0);
                lemma_stamped_from(pa, 0);
                lemma_intersect_from_stamped(qa, pa, 0);
                match intersect_from(qa, pa, 0) {
                    Some(Some(xs)) => {
                        lemma_stamped_from(xs, 0);
                    },
                    _ => {},
                }
            },
            _ => {},
        },
        _ => {},
    }
}

proof fn lemma_intersect_from_stamped(qa: Seq<PatternV>, pa: Seq<PatternV>, i: int)
    requires
        forall|k: int| 0 <= k < qa.len() ==> #[trigger] stamped_pat(qa[k]),
        forall|k: int| 0 <= k < pa.len() ==> #[trigger] stamped_pat(pa[k]),
    ensures
        intersect_from(qa, pa, i) matches Some(Some(xs)) ==> forall|k: int| 0 <= k < xs.len() ==> #[trigger] stamped_pat(xs[k]),
    decreases qa, qa.len() - i,
{
    if 0 <= i < qa.len() && i < pa.len() {
        lemma_intersect_stamped(qa[i], pa[i]);
        lemma_intersect_from_stamped(qa, pa, i + 1);
        match intersect(qa[i], pa[i]) {
            Some(Some(x)) => match intersect_from(qa, pa, i + 1) {
                Some(Some(rest)) => {
                    assert forall|k: int| 0 <= k < (seq![x] + rest).len() implies #[trigger] stamped_pat((seq![x] + rest)[k]) by {
                        if k > 0 {
                            assert((seq![x] + rest)[k] == rest[k - 1]);
                        }
                    }
                },
                _ => {},
            },
            _ => {},
        }
    }
}

/// Subtracting stamped patterns gives stamped patterns.
proof fn lemma_subtract_stamped(q: PatternV, ty: BaseTypeV, p: PatternV, dts: DtsV)
    requires
        stamped_pat(q),
        stamped_pat(p),
    ensures
        subtract(q, ty, p, dts) matches Some(rs) ==> forall|k: int| 0 <= k < rs.len() ==> #[trigger] stamped_pat(rs[k]),
    decreases p, rank(q), 0int,
{
    match p {
        PatternV::Constructor { name: pn, .. } => match q {
            PatternV::Constructor { name: qn, arg_types: qt, .. } => {
                if qn == pn {
                    match qt {
                        Some(fts) => {
                            lemma_sub_fields_stamped(q, fts, p, 0, Seq::empty(), dts);
                        },
                        None => {},
                    }
                }
            },
            PatternV::Tuple(_) => {},
            _ => match ty {
                BaseTypeV::Custom(e) => match entry_of(dts, e) {
                    Some(vs) => {
                        lemma_split_all_stamped(e, vs, 0, ty, p, dts);
                    },
                    None => {},
                },
                _ => {},
            },
        },
        _ => {},
    }
}

proof fn lemma_split_all_stamped(e: Seq<char>, vs: Seq<(Seq<char>, Seq<BaseTypeV>)>, i: int, ty: BaseTypeV, p: PatternV, dts: DtsV)
    requires
        stamped_pat(p),
    ensures
        split_all(e, vs, i, ty, p, dts) matches Some(rs) ==> forall|k: int| 0 <= k < rs.len() ==> #[trigger] stamped_pat(rs[k]),
    decreases p, 1int, vs.len() - i,
{
    if 0 <= i < vs.len() {
        let sp = split_pattern(e, vs[i].0, vs[i].1);
        let wild = Seq::new(vs[i].1.len(), |k: int| PatternV::Wildcard);
        assert forall|k: int| 0 <= k < wild.len() implies #[trigger] stamped_pat(wild[k]) by {
        }
        lemma_stamped_from(wild, 0);
        assert(stamped_pat(sp));
        lemma_subtract_stamped(sp, ty, p, dts);
        lemma_split_all_stamped(e, vs, i + 1, ty, p, dts);
    }
}

proof fn lemma_sub_fields_stamped(q: PatternV, fts: Seq<BaseTypeV>, p: PatternV, i: int, agreed: Seq<PatternV>, dts: DtsV)
    requires
        stamped_pat(q),
        stamped_pat(p),
        q is Constructor ==> q->Constructor_arg_types is Some,
        forall|k: int| 0 <= k < agreed.len() ==> #[trigger] stamped_pat(agreed[k]),
    ensures
        sub_fields(q, fts, p, i, agreed, dts) matches Some(rs) ==> forall|k: int| 0 <= k < rs.len() ==> #[trigger] stamped_pat(rs[k]),
    decreases p, 0int, ctor_arity(q) - i,
{
    match p {
        PatternV::Constructor { args: pa, .. } => match q {
            PatternV::Constructor { name: qn, args: qa, arg_types: qt } => {
                if 0 <= i < qa.len() && i < fts.len() && i < pa.len() {
                    lemma_stamped_from(qa, 0);
                    lemma_stamped_from(pa, 0);
                    lemma_subtract_stamped(qa[i], fts[i], pa[i], dts);
                    lemma_intersect_stamped(qa[i], pa[i]);
                    match subtract(qa[i], fts[i], pa[i], dts) {
                        Some(rs) => {
                            let outs = Seq::new(rs.len(), |k: int| PatternV::Constructor {
                                name: qn,
                                args: agreed + seq![rs[k]] + qa.skip(i + 1),
                                arg_types: qt,
                            });
                            assert forall|k: int| 0 <= k < outs.len() implies #[trigger] stamped_pat(outs[k]) by {
                                let args = agreed + seq![rs[k]] + qa.skip(i + 1);
                                assert forall|m: int| 0 <= m < args.len() implies #[trigger] stamped_pat(args[m]) by {
                                    if m < agreed.len() {
                                        assert(args[m] == agreed[m]);
                                    } else if m == agreed.len() {
                                        assert(args[m] == rs[k]);
                                    } else {
                                        assert(args[m] == qa[i + 1 + (m - agreed.len() - 1)]);
                                    }
                                }
                                lemma_stamped_from(args, 0);
                            }
                            match intersect(qa[i], pa[i]) {
                                Some(Some(m)) => {
                                    let ag2 = agreed.push(m);
                                    assert forall|k: int| 0 <= k < ag2.len() implies #[trigger] stamped_pat(ag2[k]) by {
                                        if k < agreed.len() {
                                            assert(ag2[k] == agreed[k]);
                                        }
                                    }
                                    lemma_sub_fields_stamped(q, fts, p, i + 1, ag2, dts);
                                    match sub_fields(q, fts, p, i + 1, ag2, dts) {
                                        Some(rest) => {
                                            assert forall|k: int| 0 <= k < (outs + rest).len() implies #[trigger] stamped_pat((outs + rest)[k]) by {
                                                if k >= outs.len() {
                                                    assert((outs + rest)[k] == rest[k - outs.len()]);
                                                } else {
                                                    assert((outs + rest)[k] == outs[k]);
                                                }
                                            }
                                        },
                                        None => {},
                                    }
                                },
                                _ => {},
                            }
                        },
                        None => {},
                    }
                }
            },
            _ => {},
        },
        _ => {},
    }
}

/// Naming wildcards keeps the field sorts.
proof fn lemma_named_stamped(p: PatternV, prefix: Seq<char>)
    requires
        stamped_pat(p),
    ensures
        stamped_pat(named(p, prefix)),
    decreases p, 1int,
{
    match p {
        PatternV::Constructor { args, .. } => {
            lemma_stamped_from(args, 0);
            lemma_named_from_stamped(args, prefix, 0);
            lemma_stamped_from(named_from(args, prefix, 0), 0);
        },
        PatternV::Tuple(ps) => {
            lemma_stamped_from(ps, 0);
            lemma_named_from_stamped(ps, prefix, 0);
            lemma_stamped_from(named_from(ps, prefix, 0), 0);
        },
        _ => {},
    }
}

proof fn lemma_named_from_stamped(ps: Seq<PatternV>, prefix: Seq<char>, i: int)
    requires
        forall|k: int| 0 <= k < ps.len() ==> #[trigger] stamped_pat(ps[k]),
    ensures
        forall|k: int| 0 <= k < named_from(ps, prefix, i).len() ==> #[trigger] stamped_pat(named_from(ps, prefix, i)[k]),
    decreases ps, ps.len() - i,
{
    if 0 <= i < ps.len() {
        lemma_named_stamped(ps[i], prefix + "_"@ + dec_text(i as nat));
        lemma_named_from_stamped(ps, prefix, i + 1);
        let a = named(ps[i], prefix + "_"@ + dec_text(i as nat));
        let rest = named_from(ps, prefix, i + 1);
        assert forall|k: int| 0 <= k < (seq![a] + rest).len() implies #[trigger] stamped_pat((seq![a] + rest)[k]) by {
            if k > 0 {
                assert((seq![a] + rest)[k] == rest[k - 1]);
            }
        }
    }
}

/// Every pattern in the expression (of `let` and of match arms) is stamped.
pub open spec fn pats_stamped(e: ExprV) -> bool
    decreases e, 1int,
{
    match e {
        ExprV::Match { expr, arms } => pats_stamped(*expr) && ps_arms_from(arms, 0),
        ExprV::Let { pat, bound_expr, body } => stamped_pat(pat) && pats_stamped(*bound_expr) && pats_stamped(*body),
        ExprV::Tuple(es) => ps_from(es, 0),
        ExprV::BinOp { left, right, .. } => pats_stamped(*left) && pats_stamped(*right),
        ExprV::UnOp { expr, .. } => pats_stamped(*expr),
        ExprV::If { cond, then_expr, else_expr } => pats_stamped(*cond) && pats_stamped(*then_expr) && pats_stamped(*else_expr),
        ExprV::Call { args, .. } => ps_from(args, 0),
        ExprV::Constructor { args, .. } => ps_from(args, 0),
        ExprV::ApplyRel { args, .. } => ps_from(args, 0),
        ExprV::Forall { body, .. } => pats_stamped(*body),
        ExprV::Exists { body, .. } => pats_stamped(*body),
        ExprV::Instantiate(inner) => pats_stamped(*inner),
        ExprV::ExistentialBindings(bs) => ps_binds_from(bs, 0),
        _ => true,
    }
}

/// [`pats_stamped`] of each expression from the `i`-th on.
pub open spec fn ps_from(es: Seq<ExprV>, i: int) -> bool
    decreases es, es.len() - i,
{
    if i < 0 || i >= es.len() {
        true
    } else {
        pats_stamped(es[i]) && ps_from(es, i + 1)
    }
}

/// Each arm from the `i`-th on has a stamped pattern and body.
pub open spec fn ps_arms_from(arms: Seq<(PatternV, ExprV)>, i: int) -> bool
    decreases arms, arms.len() - i,
{
    if i < 0 || i >= arms.len() {
        true
    } else {
        stamped_pat(arms[i].0) && pats_stamped(arms[i].1) && ps_arms_from(arms, i + 1)
    }
}

/// [`pats_stamped`] of each binding's expression from the `i`-th on.
pub open spec fn ps_binds_from(bs: Seq<(Seq<char>, ExprV)>, i: int) -> bool
    decreases bs, bs.len() - i,
{
    if i < 0 || i >= bs.len() {
        true
    } else {
        pats_stamped(bs[i].1) && ps_binds_from(bs, i + 1)
    }
}

proof fn lemma_ps_from(es: Seq<ExprV>, i: int)
    requires
        0 <= i,
        forall|k: int| i <= k < es.len() ==> #[trigger] pats_stamped(es[k]),
    ensures
        ps_from(es, i),
    decreases es.len() - i,
{
    if i < es.len() {
        assert(pats_stamped(es[i]));
        lemma_ps_from(es, i + 1);
    }
}

proof fn lemma_ps_arms_from(arms: Seq<(PatternV, ExprV)>, i: int)
    requires
        0 <= i,
        forall|k: int| i <= k < arms.len() ==> #[trigger] stamped_pat(arms[k].0) && pats_stamped(arms[k].1),
    ensures
        ps_arms_from(arms, i),
    decreases arms.len() - i,
{
    if i < arms.len() {
        assert(stamped_pat(arms[i].0) && pats_stamped(arms[i].1));
        lemma_ps_arms_from(arms, i + 1);
    }
}

proof fn lemma_ps_binds_from(bs: Seq<(Seq<char>, ExprV)>, i: int)
    requires
        0 <= i,
        forall|k: int| i <= k < bs.len() ==> #[trigger] pats_stamped(bs[k].1),
    ensures
        ps_binds_from(bs, i),
    decreases bs.len() - i,
{
    if i < bs.len() {
        assert(pats_stamped(bs[i].1));
        lemma_ps_binds_from(bs, i + 1);
    }
}

proof fn lemma_subtract_each_stamped(us: Seq<PatternV>, ty: BaseTypeV, p: PatternV, dts: DtsV)
    requires
        forall|k: int| 0 <= k < us.len() ==> #[trigger] stamped_pat(us[k]),
        stamped_pat(p),
    ensures
        subtract_each(us, ty, p, dts) matches Some(rs) ==> forall|k: int| 0 <= k < rs.len() ==> #[trigger] stamped_pat(rs[k]),
    decreases us.len(),
{
    if us.len() > 0 {
        assert(stamped_pat(us[us.len() - 1]));
        lemma_subtract_each_stamped(us.drop_last(), ty, p, dts);
        lemma_subtract_stamped(us.last(), ty, p, dts);
        match (subtract_each(us.drop_last(), ty, p, dts), subtract(us.last(), ty, p, dts)) {
            (Some(a), Some(b)) => {
                assert forall|k: int| 0 <= k < (a + b).len() implies #[trigger] stamped_pat((a + b)[k]) by {
                    if k < a.len() {
                        assert((a + b)[k] == a[k]);
                    } else {
                        assert((a + b)[k] == b[k - a.len()]);
                    }
                }
            },
            _ => {},
        }
    }
}

proof fn lemma_uncovered_stamped(ty: BaseTypeV, earlier: Seq<(PatternV, ExprV)>, dts: DtsV)
    requires
        forall|k: int| 0 <= k < earlier.len() ==> #[trigger] stamped_pat(earlier[k].0),
    ensures
        uncovered_after(ty, earlier, dts) matches Some(us) ==> forall|k: int| 0 <= k < us.len() ==> #[trigger] stamped_pat(us[k]),
    decreases earlier.len(),
{
    if earlier.len() > 0 {
        let prev = earlier.drop_last();
        assert forall|k: int| 0 <= k < prev.len() implies #[trigger] stamped_pat(prev[k].0) by {
            assert(prev[k] == earlier[k]);
        }
        lemma_uncovered_stamped(ty, prev, dts);
        assert(stamped_pat(earlier[earlier.len() - 1].0));
        match uncovered_after(ty, prev, dts) {
            Some(us) => {
                lemma_subtract_each_stamped(us, ty, earlier.last().0, dts);
            },
            None => {},
        }
    } else {
        assert(stamped_pat(seq![PatternV::Wildcard][0]));
    }
}

proof fn lemma_expand_stamped(arms: Seq<(PatternV, ExprV)>, dts: DtsV)
    requires
        forall|k: int| 0 <= k < arms.len() ==> #[trigger] stamped_pat(arms[k].0),
    ensures
        expand_arms(arms, dts) matches Some(xa) ==> forall|k: int| 0 <= k < xa.len() ==> #[trigger] stamped_pat(xa[k].0),
    decreases arms.len(),
{
    if arms.len() > 0 {
        let prev = arms.drop_last();
        assert forall|k: int| 0 <= k < prev.len() implies #[trigger] stamped_pat(prev[k].0) by {
            assert(prev[k] == arms[k]);
        }
        lemma_expand_stamped(prev, dts);
        assert(stamped_pat(arms[arms.len() - 1].0));
        match expand_arms(prev, dts) {
            Some(acc) => {
                if arms.last().0 is Wildcard {
                    match scrutinee_enum(acc) {
                        Some(e) => {
                            lemma_uncovered_stamped(BaseTypeV::Custom(e), acc, dts);
                            match uncovered_after(BaseTypeV::Custom(e), acc, dts) {
                                Some(us) => {
                                    let added = Seq::new(us.len(), |k: int| (named(us[k], "_w"@), arms.last().1));
                                    assert forall|k: int| 0 <= k < (acc + added).len() implies #[trigger] stamped_pat((acc + added)[k].0) by {
                                        if k < acc.len() {
                                            assert((acc + added)[k] == acc[k]);
                                        } else {
                                            assert((acc + added)[k] == added[k - acc.len()]);
                                            lemma_named_stamped(us[k - acc.len()], "_w"@);
                                        }
                                    }
                                },
                                None => {},
                            }
                        },
                        None => {},
                    }
                } else {
                    assert forall|k: int| 0 <= k < acc.push(arms.last()).len() implies #[trigger] stamped_pat(acc.push(arms.last())[k].0) by {
                        if k < acc.len() {
                            assert(acc.push(arms.last())[k] == acc[k]);
                        }
                    }
                }
            },
            None => {},
        }
    }
}

/// A binding chain around a stamped expression is stamped.
proof fn lemma_wrap_stamped(binds: Seq<(Seq<char>, Seq<char>)>, b: ExprV)
    requires
        pats_stamped(b),
    ensures
        pats_stamped(wrap_binds(binds, b)),
    decreases binds.len(),
{
    if binds.len() > 0 {
        lemma_wrap_stamped(binds.drop_last(), b);
        let v = ExprV::Var(binds.last().1);
        assert(pats_stamped(v));
        assert(stamped_pat(PatternV::Ident(binds.last().0)));
        let inner = wrap_binds(binds.drop_last(), b);
        let w = ExprV::Let { pat: PatternV::Ident(binds.last().0), bound_expr: Box::new(v), body: Box::new(inner) };
        assert(wrap_binds(binds, b) == w);
        assert(pats_stamped(w));
    }
}

/// Law: after resolution every pattern of the expression is stamped: each
/// constructor pattern carries its field sorts, so that the type checker
/// and the encoder read them off the pattern.
pub proof fn lemma_resolved_stamped(e: ExprV, dts: DtsV)
    ensures
        resolve(e, dts) matches Some(x) ==> pats_stamped(x),
    decreases e, 3int, 0int, 0int, 0int, 0int,
{
    match e {
        ExprV::Let { pat, bound_expr, body } => {
            lemma_stamp_stamped(pat, dts);
            lemma_resolved_stamped(*bound_expr, dts);
            lemma_resolved_stamped(*body, dts);
            match (stamp(pat, dts), resolve(*bound_expr, dts), resolve(*body, dts)) {
                (Some(p), Some(b), Some(c)) => {
                    let x = ExprV::Let { pat: p, bound_expr: Box::new(b), body: Box::new(c) };
                    assert(resolve(e, dts) == Some(x));
                    assert(pats_stamped(x));
                },
                _ => {},
            }
        },
        ExprV::Match { expr: target, arms } => match *target {
            ExprV::Tuple(cs) => {
                lemma_compile_match_stamped(e, dts);
            },
            _ => {
                lemma_resolved_stamped(*target, dts);
                lemma_resolve_arms_stamped(arms, 0, dts);
                match resolve_arms(arms, 0, dts) {
                    Some(ra) => {
                        lemma_expand_bodies(ra, dts);
                        lemma_expand_stamped(ra, dts);
                        match expand_arms(ra, dts) {
                            Some(xa) => {
                                assert forall|i: int| 0 <= i < xa.len() implies #[trigger] stamped_pat(xa[i].0) && pats_stamped(xa[i].1) by {
                                    let j = choose|j: int| 0 <= j < ra.len() && #[trigger] xa[i].1 == #[trigger] ra[j].1;
                                    assert(stamped_pat(ra[j].0));
                                    assert(pats_stamped(ra[j].1));
                                    assert(stamped_pat(xa[i].0));
                                }
                                match resolve(*target, dts) {
                                    Some(t) => {
                                        if arms_disjoint(xa) {
                                            let x = ExprV::Match { expr: Box::new(t), arms: xa };
                                            lemma_ps_arms_from(xa, 0);
                                            assert(pats_stamped(x));
                                        }
                                    },
                                    None => {},
                                }
                            },
                            None => {},
                        }
                    },
                    None => {},
                }
            },
        },
        ExprV::Tuple(es) => {
            lemma_resolve_from_stamped(es, 0, dts);
            match resolve_from(es, 0, dts) {
                Some(xs) => {
                    lemma_ps_from(xs, 0);
                },
                None => {},
            }
        },
        ExprV::BinOp { left, right, .. } => {
            lemma_resolved_stamped(*left, dts);
            lemma_resolved_stamped(*right, dts);
        },
        ExprV::UnOp { expr, .. } => {
            lemma_resolved_stamped(*expr, dts);
        },
        ExprV::If { cond, then_expr, else_expr } => {
            lemma_resolved_stamped(*cond, dts);
            lemma_resolved_stamped(*then_expr, dts);
            lemma_resolved_stamped(*else_expr, dts);
        },
        ExprV::Call { args, .. } => {
            lemma_resolve_from_stamped(args, 0, dts);
            match resolve_from(args, 0, dts) {
                Some(xs) => {
                    lemma_ps_from(xs, 0);
                },
                None => {},
            }
        },
        ExprV::Constructor { args, .. } => {
            lemma_resolve_from_stamped(args, 0, dts);
            match resolve_from(args, 0, dts) {
                Some(xs) => {
                    lemma_ps_from(xs, 0);
                },
                None => {},
            }
        },
        ExprV::ApplyRel { args, .. } => {
            lemma_resolve_from_stamped(args, 0, dts);
            match resolve_from(args, 0, dts) {
                Some(xs) => {
                    lemma_ps_from(xs, 0);
                },
                None => {},
            }
        },
        ExprV::Forall { body, .. } => {
            lemma_resolved_stamped(*body, dts);
        },
        ExprV::Exists { body, .. } => {
            lemma_resolved_stamped(*body, dts);
        },
        ExprV::Instantiate(inner) => {
            lemma_resolved_stamped(*inner, dts);
        },
        ExprV::ExistentialBindings(bs) => {
            lemma_resolve_bindings_stamped(bs, 0, dts);
            match resolve_bindings(bs, 0, dts) {
                Some(xs) => {
                    lemma_ps_binds_from(xs, 0);
                },
                None => {},
            }
        },
        _ => {},
    }
}

proof fn lemma_resolve_from_stamped(es: Seq<ExprV>, i: int, dts: DtsV)
    ensures
        resolve_from(es, i, dts) matches Some(xs) ==> forall|k: int| 0 <= k < xs.len() ==> #[trigger] pats_stamped(xs[k]),
    decreases es, 0int, 0int, 0int, 0int, es.len() - i,
{
    if 0 <= i < es.len() {
        lemma_resolved_stamped(es[i], dts);
        lemma_resolve_from_stamped(es, i + 1, dts);
        match (resolve(es[i], dts), resolve_from(es, i + 1, dts)) {
            (Some(a), Some(rest)) => {
                assert forall|k: int| 0 <= k < (seq![a] + rest).len() implies #[trigger] pats_stamped((seq![a] + rest)[k]) by {
                    if k > 0 {
                        assert((seq![a] + rest)[k] == rest[k - 1]);
                    }
                }
            },
            _ => {},
        }
    }
}

proof fn lemma_resolve_arms_stamped(arms: Seq<(PatternV, ExprV)>, i: int, dts: DtsV)
    ensures
        resolve_arms(arms, i, dts) matches Some(xs) ==> forall|k: int| 0 <= k < xs.len() ==> #[trigger] stamped_pat(xs[k].0) && pats_stamped(xs[k].1),
    decreases arms, 0int, 0int, 0int, 0int, arms.len() - i,
{
    if 0 <= i < arms.len() {
        lemma_stamp_stamped(arms[i].0, dts);
        lemma_resolved_stamped(arms[i].1, dts);
        lemma_resolve_arms_stamped(arms, i + 1, dts);
        match (stamp(arms[i].0, dts), resolve(arms[i].1, dts), resolve_arms(arms, i + 1, dts)) {
            (Some(p), Some(b), Some(rest)) => {
                assert forall|k: int| 0 <= k < (seq![(p, b)] + rest).len() implies #[trigger] stamped_pat((seq![(p, b)] + rest)[k].0) && pats_stamped((seq![(p, b)] + rest)[k].1) by {
                    if k > 0 {
                        assert((seq![(p, b)] + rest)[k] == rest[k - 1]);
                    }
                }
            },
            _ => {},
        }
    }
}

proof fn lemma_resolve_bindings_stamped(bs: Seq<(Seq<char>, ExprV)>, i: int, dts: DtsV)
    ensures
        resolve_bindings(bs, i, dts) matches Some(xs) ==> forall|k: int| 0 <= k < xs.len() ==> #[trigger] pats_stamped(xs[k].1),
    decreases bs, 0int, 0int, 0int, 0int, bs.len() - i,
{
    if 0 <= i < bs.len() {
        lemma_resolved_stamped(bs[i].1, dts);
        lemma_resolve_bindings_stamped(bs, i + 1, dts);
        match (resolve(bs[i].1, dts), resolve_bindings(bs, i + 1, dts)) {
            (Some(x), Some(rest)) => {
                assert forall|k: int| 0 <= k < (seq![(bs[i].0, x)] + rest).len() implies #[trigger] pats_stamped((seq![(bs[i].0, x)] + rest)[k].1) by {
                    if k > 0 {
                        assert((seq![(bs[i].0, x)] + rest)[k] == rest[k - 1]);
                    }
                }
            },
            _ => {},
        }
    }
}

proof fn lemma_compile_match_stamped(e: ExprV, dts: DtsV)
    ensures
        compile_match(e, dts) matches Some(x) ==> pats_stamped(x),
    decreases e, 2int, 0int, 0int, 0int, 0int,
{
    match e {
        ExprV::Match { expr: target, arms } => match *target {
            ExprV::Tuple(cs) => match var_names(cs) {
                Some(scrs) => match initial_rows(arms, scrs.len()) {
                    Some(rows) => {
                        if rows.len() > 0 {
                            lemma_compile_rows_stamped(e, scrs, rows, dts);
                        }
                    },
                    None => {},
                },
                None => {},
            },
            _ => {},
        },
        _ => {},
    }
}

proof fn lemma_compile_rows_stamped(owner: ExprV, scrs: Seq<Seq<char>>, rows: Seq<RowS>, dts: DtsV)
    ensures
        compile_rows(owner, scrs, rows, dts) matches Some(x) ==> pats_stamped(x),
    decreases owner, 1int, rows_count(rows), scrs.len(), 1int, 0int,
{
    if scrs.len() == 0 {
        if rows.len() > 0 {
            match owner {
                ExprV::Match { arms, .. } => {
                    if 0 <= rows[0].2 < arms.len() {
                        lemma_resolved_stamped(arms[rows[0].2].1, dts);
                        match resolve(arms[rows[0].2].1, dts) {
                            Some(b) => {
                                lemma_wrap_stamped(rows[0].1, b);
                            },
                            None => {},
                        }
                    }
                },
                _ => {},
            }
        }
    } else if rows_nonempty(rows) {
        match tested_enum(rows) {
            None => match bind_rows(rows, scrs[0]) {
                Some(rows2) => {
                    lemma_bind_rows_count(rows, scrs[0]);
                    lemma_compile_rows_stamped(owner, scrs.skip(1), rows2, dts);
                },
                None => {},
            },
            Some(en) => match entry_of(dts, en) {
                Some(vs) => {
                    lemma_compile_arms_stamped(owner, scrs, rows, en, vs, 0, dts);
                    match compile_arms(owner, scrs, rows, en, vs, 0, dts) {
                        Some(xa) => {
                            let v = ExprV::Var(scrs[0]);
                            assert(pats_stamped(v));
                            if arms_disjoint(xa) {
                                let x = ExprV::Match { expr: Box::new(v), arms: xa };
                                assert(compile_rows(owner, scrs, rows, dts) == Some(x));
                                lemma_ps_arms_from(xa, 0);
                                assert(pats_stamped(x));
                            }
                        },
                        None => {},
                    }
                },
                None => {},
            },
        }
    }
}

proof fn lemma_compile_arms_stamped(owner: ExprV, scrs: Seq<Seq<char>>, rows: Seq<RowS>, en: Seq<char>, vs: Seq<(Seq<char>, Seq<BaseTypeV>)>, i: int, dts: DtsV)
    ensures
        compile_arms(owner, scrs, rows, en, vs, i, dts) matches Some(xa) ==> forall|k: int| 0 <= k < xa.len() ==> #[trigger] stamped_pat(xa[k].0) && pats_stamped(xa[k].1),
    decreases owner, 1int, rows_count(rows), scrs.len(), 0int, vs.len() - i,
{
    if 0 <= i < vs.len() && has_head_ctor(rows) && scrs.len() > 0 {
        let name = en + "::"@ + vs[i].0;
        let k = vs[i].1.len();
        let fields = Seq::new(k, |j: int| field_name(scrs[0], j));
        match sub_rows(rows, name, k, scrs[0]) {
            Some(sub) => {
                if sub.len() > 0 {
                    lemma_sub_rows_count(rows, name, k, scrs[0]);
                    let gp = PatternV::Constructor { name, args: Seq::new(k, |j: int| PatternV::Ident(fields[j])), arg_types: None };
                    lemma_stamp_stamped(gp, dts);
                    lemma_compile_rows_stamped(owner, fields + scrs.skip(1), sub, dts);
                    lemma_compile_arms_stamped(owner, scrs, rows, en, vs, i + 1, dts);
                    match (stamp(gp, dts), compile_rows(owner, fields + scrs.skip(1), sub, dts), compile_arms(owner, scrs, rows, en, vs, i + 1, dts)) {
                        (Some(p), Some(b), Some(rest)) => {
                            assert forall|m: int| 0 <= m < (seq![(p, b)] + rest).len() implies #[trigger] stamped_pat((seq![(p, b)] + rest)[m].0) && pats_stamped((seq![(p, b)] + rest)[m].1) by {
                                if m > 0 {
                                    assert((seq![(p, b)] + rest)[m] == rest[m - 1]);
                                }
                            }
                        },
                        _ => {},
                    }
                }
            },
            None => {},
        }
    }
}

} // verus!
