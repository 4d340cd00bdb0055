//! Source-level names for a model's elements. The element a nullary
//! constructor's constant denotes gets that constructor's name; an element
//! some constructor tuple produces from already named arguments gets
//! `C(args)`, round after round until a round names nothing new; whatever is
//! left is junk (no constructor produces it, which the partial semantics
//! allows) and gets a `sort!k` tag. All SMT names are derived from the
//! program's datatypes through the encoder's own naming scheme.

use vstd::prelude::*;
use crate::api::{ctors_view, datatypes_view, key_index};
use crate::ast::{BaseType, BaseTypeV, Program};
use crate::cex::defs::subst_view;
use crate::cex::order::{lemma_text_lt, lowercase, text_less, text_lt, to_lower};
use crate::model::{
    Elem, Model, RowV, Table, TableV, entry_of, keyed, lemma_entry_push, lemma_key_index, lemma_keys_agree,
    name_index, rows_view, text_chars,
};
use crate::smt::builder::{render_sort, sort_text};
use crate::text::{append_joined, dec_text, decimal, join, sanitize_id, sanitized};

verus! {

broadcast use vstd::std_specs::vec::group_vec_axioms, vstd::seq_lib::group_to_multiset_ensures;

/// Names of elements, keyed by element.
pub type NameMap = Seq<(Seq<char>, Seq<char>)>;

/// Source-level names for a model's elements.
#[derive(Debug)]
pub struct Names {
    /// Element tag and its name (`Z`, `S(S(Z))`, `nat!3`, `true`).
    pub of_elem: Vec<(Elem, String)>,
    /// The junk elements: the sort's source name (`Nat`) and the tag.
    pub junk: Vec<(String, String)>,
}

/// The name `m` gives `e`; `e` itself where it gives none.
pub open spec fn name_or(m: NameMap, e: Seq<char>) -> Seq<char> {
    match entry_of(m, e) {
        Some(t) => t,
        None => e,
    }
}

impl Names {
    /// The name of an element; an element without one (a Boolean literal
    /// among them) names itself.
    pub fn get(&self, elem: &Elem) -> (r: String)
        ensures
            r@ == name_or(subst_view(self.of_elem@), elem@),
    {
        let i = name_index(&self.of_elem, elem);
        proof {
            lemma_keys_agree(keyed(self.of_elem@), subst_view(self.of_elem@), elem@);
            lemma_key_index(subst_view(self.of_elem@), elem@);
        }
        if i < self.of_elem.len() {
            self.of_elem[i].1.clone()
        } else {
            elem.clone()
        }
    }
}

/// `m` with `k` named `v`, unless `k` already has a name.
pub open spec fn put_absent(m: NameMap, k: Seq<char>, v: Seq<char>) -> NameMap {
    if entry_of(m, k) is Some {
        m
    } else {
        m.push((k, v))
    }
}

/// Names `k` as `v` unless it already has a name; whether it was named.
fn insert_absent(m: &mut Vec<(String, String)>, k: &String, v: String) -> (added: bool)
    ensures
        subst_view(final(m)@) == put_absent(subst_view(old(m)@), k@, v@),
        added == (entry_of(subst_view(old(m)@), k@) is None),
{
    let i = name_index(m, k);
    proof {
        lemma_keys_agree(keyed(m@), subst_view(m@), k@);
        lemma_key_index(subst_view(m@), k@);
    }
    if i < m.len() {
        false
    } else {
        let ghost before = subst_view(m@);
        m.push((k.clone(), v));
        proof {
            assert(subst_view(m@) =~= before.push((k@, v@)));
        }
        true
    }
}

/// The SMT identifier of `Enum::Variant` followed by `suffix`.
pub open spec fn qualified(e: Seq<char>, v: Seq<char>, suffix: Seq<char>) -> Seq<char> {
    sanitized(e + "::"@ + v + suffix)
}

/// The SMT identifier of `Enum::Variant` followed by `suffix`.
pub(crate) fn qualify(e: &String, v: &String, suffix: &str) -> (r: String)
    ensures
        r@ == qualified(e@, v@, suffix@),
{
    proof {
        reveal_strlit("::");
    }
    let mut s = e.clone();
    s.append("::");
    s.append(v.as_str());
    s.append(suffix);
    sanitize_id(s.as_str())
}

/// The Boolean literals, which name themselves.
pub open spec fn bool_names() -> NameMap {
    seq![("true"@, "true"@), ("false"@, "false"@)]
}

fn new_bool_names() -> (r: Vec<(String, String)>)
    ensures
        subst_view(r@) == bool_names(),
{
    let mut r: Vec<(String, String)> = Vec::new();
    r.push((String::from_str("true"), String::from_str("true")));
    r.push((String::from_str("false"), String::from_str("false")));
    proof {
        assert(subst_view(r@) =~= bool_names());
    }
    r
}

/// The nullary constructors of `Enum` (`vs`, in order) name the elements
/// their constants denote.
pub open spec fn name_nullary(m: NameMap, consts: NameMap, e: Seq<char>, vs: Seq<(Seq<char>, Seq<BaseTypeV>)>) -> NameMap
    decreases vs.len(),
{
    if vs.len() == 0 {
        m
    } else {
        let m0 = name_nullary(m, consts, e, vs.drop_last());
        if vs.last().1.len() == 0 {
            match entry_of(consts, qualified(e, vs.last().0, ""@)) {
                Some(elem) => put_absent(m0, elem, vs.last().0),
                None => m0,
            }
        } else {
            m0
        }
    }
}

/// The nullary constructors of every datatype, in order, name their elements.
pub open spec fn name_all_nullary(m: NameMap, consts: NameMap, dts: Seq<(Seq<char>, Seq<(Seq<char>, Seq<BaseTypeV>)>)>) -> NameMap
    decreases dts.len(),
{
    if dts.len() == 0 {
        m
    } else {
        name_nullary(name_all_nullary(m, consts, dts.drop_last()), consts, dts.last().0, dts.last().1)
    }
}

/// The element of the constant named `k`, if the model has one.
pub(crate) fn const_elem<'a>(model: &'a Model, k: &String) -> (r: Option<&'a Elem>)
    ensures
        match r {
            Some(e) => entry_of(model@.consts, k@) == Some(e@),
            None => entry_of(model@.consts, k@) is None,
        },
{
    let i = name_index(&model.consts, k);
    proof {
        lemma_keys_agree(keyed(model.consts@), model@.consts, k@);
        lemma_key_index(model@.consts, k@);
    }
    if i < model.consts.len() {
        Some(&model.consts[i].1)
    } else {
        None
    }
}

/// Names the elements of `Enum`'s nullary constructors (see [`name_nullary`]).
fn nullary_names(names: &mut Vec<(String, String)>, model: &Model, e: &String, vs: &Vec<(String, Vec<BaseType>)>)
    ensures
        subst_view(final(names)@) == name_nullary(subst_view(old(names)@), model@.consts, e@, ctors_view(vs@)),
{
    let ghost start = subst_view(names@);
    let ghost cv = ctors_view(vs@);
    let mut i: usize = 0;
    proof {
        assert(cv.take(0) =~= Seq::<(Seq<char>, Seq<BaseTypeV>)>::empty());
    }
    while i < vs.len()
        invariant
            0 <= i <= vs@.len(),
            cv == ctors_view(vs@),
            subst_view(names@) == name_nullary(start, model@.consts, e@, cv.take(i as int)),
        decreases vs@.len() - i,
    {
        proof {
            assert(cv.take(i + 1).drop_last() =~= cv.take(i as int));
            assert(cv.take(i + 1).last() == cv[i as int]);
            reveal_strlit("");
        }
        if vs[i].1.len() == 0 {
            let constant = qualify(e, &vs[i].0, "");
            match const_elem(model, &constant) {
                Some(elem) => {
                    insert_absent(names, elem, vs[i].0.clone());
                },
                None => {},
            }
        }
        i = i + 1;
    }
    proof {
        assert(cv.take(vs@.len() as int) =~= cv);
    }
}

/// The text after the last `c` of `s` (all of it where there is none).
pub open spec fn after_last(s: Seq<char>, c: char) -> Seq<char>
    decreases s.len(),
{
    if s.len() == 0 {
        s
    } else if s.last() == c {
        Seq::empty()
    } else {
        after_last(s.drop_last(), c).push(s.last())
    }
}

/// Whether every character is a decimal digit.
pub open spec fn all_digits(s: Seq<char>) -> bool {
    forall|i: int| 0 <= i < s.len() ==> '0' <= #[trigger] s[i] <= '9'
}

/// The number decimal digits spell.
pub open spec fn digits_value(s: Seq<char>) -> nat
    decreases s.len(),
{
    if s.len() == 0 {
        0
    } else {
        digits_value(s.drop_last()) * 10 + (s.last() as nat - '0' as nat) as nat
    }
}

/// A `usize` in decimal, as `str::parse` reads it: an optional `+`, then
/// one digit or more, of a value that fits.
pub open spec fn parse_index(s: Seq<char>) -> Option<nat> {
    let d = if s.len() > 0 && s[0] == '+' { s.skip(1) } else { s };
    if d.len() > 0 && all_digits(d) && digits_value(d) <= usize::MAX {
        Some(digits_value(d))
    } else {
        None
    }
}

/// The index a solver put in an element's tag (`UI_Nat!val!3` gives 3),
/// `k` where the tag holds none.
pub open spec fn tag_of(elem: Seq<char>, k: nat) -> nat {
    match parse_index(after_last(elem, '!')) {
        Some(n) => n,
        None => k,
    }
}

/// A prefix of digits spells at most what all of them spell.
proof fn lemma_digits_prefix(s: Seq<char>, i: int)
    requires
        0 <= i <= s.len(),
        all_digits(s),
    ensures
        digits_value(s.take(i)) <= digits_value(s),
    decreases s.len() - i,
{
    if i < s.len() {
        lemma_digits_prefix(s, i + 1);
        assert(s.take(i + 1).drop_last() =~= s.take(i));
        assert('0' <= s.take(i + 1).last());
    } else {
        assert(s.take(i) =~= s);
    }
}

/// The number `cs[from..to]` spells, if it is a `usize` in decimal (see
/// [`parse_index`]).
#[verifier::loop_isolation(false)]
fn parse_usize(cs: &Vec<char>, from: usize, to: usize) -> (r: Option<usize>)
    requires
        from <= to <= cs@.len(),
    ensures
        match r {
            Some(n) => parse_index(cs@.subrange(from as int, to as int)) == Some(n as nat),
            None => parse_index(cs@.subrange(from as int, to as int)) is None,
        },
{
    let ghost s = cs@.subrange(from as int, to as int);
    let mut a = from;
    if from < to && cs[from] == '+' {
        a = from + 1;
    }
    let ghost d = cs@.subrange(a as int, to as int);
    proof {
        if from < to && s[0] == '+' {
            assert(s.skip(1) =~= d);
        } else {
            assert(s =~= d);
        }
    }
    if a == to {
        return None;
    }
    let mut acc: usize = 0;
    let mut i: usize = a;
    proof {
        assert(d.take(0) =~= Seq::<char>::empty());
    }
    while i < to
        invariant
            a <= i <= to <= cs@.len(),
            d == cs@.subrange(a as int, to as int),
            all_digits(d.take(i - a)),
            acc == digits_value(d.take(i - a)),
        decreases to - i,
    {
        let c = cs[i];
        if c < '0' || c > '9' {
            proof {
                assert(d[i - a] == c);
            }
            return None;
        }
        proof {
            assert(d.take(i - a + 1).drop_last() =~= d.take(i - a));
            assert(d.take(i - a + 1).last() == c);
            assert forall|j: int| 0 <= j < d.take(i - a + 1).len() implies '0' <= #[trigger] d.take(i - a + 1)[j] <= '9' by {
                if j < i - a {
                    assert(d.take(i - a + 1)[j] == d.take(i - a)[j]);
                }
            }
        }
        let digit = (c as u32 - '0' as u32) as usize;
        let next = match acc.checked_mul(10) {
            Some(m) => m.checked_add(digit),
            None => None,
        };
        match next {
            Some(v) => {
                acc = v;
            },
            None => {
                proof {
                    assert(digits_value(d.take(i - a + 1)) == acc * 10 + digit);
                    if all_digits(d) {
                        lemma_digits_prefix(d, i - a + 1);
                    }
                }
                return None;
            },
        }
        i = i + 1;
    }
    proof {
        assert(d.take(i - a) =~= d);
    }
    Some(acc)
}

/// The index in an element's tag (see [`tag_of`]), `k` where it holds none.
fn tag_index(elem: &Elem, k: usize) -> (r: usize)
    ensures
        r == tag_of(elem@, k as nat),
{
    let cs = text_chars(elem.as_str());
    let n = cs.len();
    let mut j: usize = n;
    proof {
        assert(cs@.subrange(n as int, n as int) =~= Seq::<char>::empty());
        assert(cs@.take(n as int) =~= cs@);
    }
    while j > 0 && cs[j - 1] != '!'
        invariant
            0 <= j <= n,
            n == cs@.len(),
            after_last(cs@, '!') == after_last(cs@.take(j as int), '!') + cs@.subrange(j as int, n as int),
        decreases j,
    {
        proof {
            assert(cs@.take(j as int).last() == cs@[j - 1]);
            assert(cs@.take(j as int).drop_last() =~= cs@.take(j - 1));
            assert(after_last(cs@.take(j - 1), '!').push(cs@[j - 1]) + cs@.subrange(j as int, n as int)
                =~= after_last(cs@.take(j - 1), '!') + cs@.subrange(j - 1, n as int));
        }
        j = j - 1;
    }
    proof {
        if j > 0 {
            assert(cs@.take(j as int).last() == cs@[j - 1]);
        }
        assert(after_last(cs@.take(j as int), '!').len() == 0);
        assert(after_last(cs@, '!') =~= cs@.subrange(j as int, n as int));
    }
    match parse_usize(&cs, j, n) {
        Some(v) => v,
        None => k,
    }
}

/// The tag `prefix!k` of the universe's `k`-th element, `k` read off the
/// element where its tag holds an index.
pub open spec fn tag_text(prefix: Seq<char>, elem: Seq<char>, k: nat) -> Seq<char> {
    prefix + "!"@ + dec_text(tag_of(elem, k))
}

/// `prefix!k` for the `k`-th element (see [`tag_text`]).
fn make_tag(prefix: &String, elem: &Elem, k: usize) -> (r: String)
    ensures
        r@ == tag_text(prefix@, elem@, k as nat),
{
    proof {
        reveal_strlit("!");
    }
    let mut s = prefix.clone();
    s.append("!");
    let idx = tag_index(elem, k);
    let d = decimal(idx);
    s.append(d.as_str());
    s
}

/// Each element of a universe, in order, that has no name yet is named
/// `prefix!k`.
pub open spec fn name_universe(m: NameMap, prefix: Seq<char>, u: Seq<Seq<char>>) -> NameMap
    decreases u.len(),
{
    if u.len() == 0 {
        m
    } else {
        put_absent(name_universe(m, prefix, u.drop_last()), u.last(), tag_text(prefix, u.last(), (u.len() - 1) as nat))
    }
}

/// The universe of the sort named `k`, if the model has one.
pub(crate) fn universe_of<'a>(model: &'a Model, k: &String) -> (r: Option<&'a Vec<Elem>>)
    ensures
        match r {
            Some(u) => entry_of(model@.universes, k@) == Some(crate::cex::order::texts(u@)),
            None => entry_of(model@.universes, k@) is None,
        },
{
    let i = name_index(&model.universes, k);
    proof {
        lemma_keys_agree(keyed(model.universes@), model@.universes, k@);
        lemma_key_index(model@.universes, k@);
    }
    if i < model.universes.len() {
        Some(&model.universes[i].1)
    } else {
        None
    }
}

/// Names the elements of a universe that have none as `prefix!k`.
fn universe_tags(names: &mut Vec<(String, String)>, prefix: &String, u: &Vec<Elem>)
    ensures
        subst_view(final(names)@) == name_universe(subst_view(old(names)@), prefix@, crate::cex::order::texts(u@)),
{
    let ghost start = subst_view(names@);
    let ghost uv = crate::cex::order::texts(u@);
    let mut k: usize = 0;
    proof {
        assert(uv.take(0) =~= Seq::<Seq<char>>::empty());
    }
    while k < u.len()
        invariant
            0 <= k <= u@.len(),
            uv == crate::cex::order::texts(u@),
            subst_view(names@) == name_universe(start, prefix@, uv.take(k as int)),
        decreases u@.len() - k,
    {
        proof {
            assert(uv.take(k + 1).drop_last() =~= uv.take(k as int));
            assert(uv.take(k + 1).last() == u@[k as int]@);
        }
        let tag = make_tag(prefix, &u[k], k);
        insert_absent(names, &u[k], tag);
        k = k + 1;
    }
    proof {
        assert(uv.take(u@.len() as int) =~= uv);
    }
}

/// The names CamlStar's display gives, for datatypes `dts` in order.
pub open spec fn tags_of(m: NameMap, universes: Seq<(Seq<char>, Seq<Seq<char>>)>, consts: NameMap, dts: Seq<(Seq<char>, Seq<(Seq<char>, Seq<BaseTypeV>)>)>) -> NameMap
    decreases dts.len(),
{
    if dts.len() == 0 {
        m
    } else {
        let e = dts.last().0;
        let m1 = name_nullary(tags_of(m, universes, consts, dts.drop_last()), consts, e, dts.last().1);
        match entry_of(universes, sort_text(BaseTypeV::Custom(e))) {
            Some(u) => name_universe(m1, e, u),
            None => m1,
        }
    }
}

/// CamlStar's display rule, exactly: a nullary constructor's element is
/// written with the constructor's name, every other element of a datatype's
/// universe as `Sort!k` with the solver's index. (No constructor-term
/// naming and no junk: `name_elements` does those.)
pub fn tags_only(model: &Model, program: &Program) -> (r: Names)
    ensures
        subst_view(r.of_elem@) == tags_of(bool_names(), model@.universes, model@.consts, datatypes_view(program.datatypes@)),
        r.junk@.len() == 0,
{
    let mut names = new_bool_names();
    let ghost dv = datatypes_view(program.datatypes@);
    let mut i: usize = 0;
    proof {
        assert(dv.take(0) =~= Seq::<(Seq<char>, Seq<(Seq<char>, Seq<BaseTypeV>)>)>::empty());
    }
    while i < program.datatypes.len()
        invariant
            0 <= i <= program.datatypes@.len(),
            dv == datatypes_view(program.datatypes@),
            subst_view(names@) == tags_of(bool_names(), model@.universes, model@.consts, dv.take(i as int)),
        decreases program.datatypes@.len() - i,
    {
        proof {
            assert(dv.take(i + 1).drop_last() =~= dv.take(i as int));
            assert(dv.take(i + 1).last() == dv[i as int]);
        }
        let e = &program.datatypes[i].0;
        nullary_names(&mut names, model, e, &program.datatypes[i].1);
        let sort_type = BaseType::Custom(e.clone());
        proof {
            assert(sort_type@ == BaseTypeV::Custom(e@));
        }
        let sort = render_sort(&sort_type);
        match universe_of(model, &sort) {
            Some(u) => universe_tags(&mut names, e, u),
            None => {},
        }
        i = i + 1;
    }
    proof {
        assert(dv.take(program.datatypes@.len() as int) =~= dv);
    }
    Names { of_elem: names, junk: Vec::new() }
}

/// Whether every element of `args` has a name.
pub open spec fn all_named(m: NameMap, args: Seq<Seq<char>>) -> bool {
    forall|i: int| 0 <= i < args.len() ==> (#[trigger] entry_of(m, args[i])) is Some
}

/// The names of `args`.
pub open spec fn arg_names(m: NameMap, args: Seq<Seq<char>>) -> Seq<Seq<char>> {
    Seq::new(args.len(), |i: int| name_or(m, args[i]))
}

/// A constructor application `C(a, b)`.
pub open spec fn ctor_text(v: Seq<char>, parts: Seq<Seq<char>>) -> Seq<char> {
    v + "("@ + join(", "@, parts) + ")"@
}

/// A row of constructor `v`'s table: where it holds and produces an
/// element without a name from named arguments, that element is named
/// `v(args)`. (The last column is the result.)
pub open spec fn row_step(m: NameMap, v: Seq<char>, row: RowV) -> NameMap {
    if row.1 != "true"@ || row.0.len() == 0 {
        m
    } else if entry_of(m, row.0.last()) is Some {
        m
    } else if all_named(m, row.0.drop_last()) {
        m.push((row.0.last(), ctor_text(v, arg_names(m, row.0.drop_last()))))
    } else {
        m
    }
}

/// The rows of constructor `v`'s table, in order.
pub open spec fn rows_step(m: NameMap, v: Seq<char>, rows: Seq<RowV>) -> NameMap
    decreases rows.len(),
{
    if rows.len() == 0 {
        m
    } else {
        row_step(rows_step(m, v, rows.drop_last()), v, rows.last())
    }
}

/// The constructors with fields of `Enum`, in order, each through its table
/// where the model has one.
pub open spec fn variants_round(m: NameMap, rels: Seq<(Seq<char>, TableV)>, e: Seq<char>, vs: Seq<(Seq<char>, Seq<BaseTypeV>)>) -> NameMap
    decreases vs.len(),
{
    if vs.len() == 0 {
        m
    } else {
        let m0 = variants_round(m, rels, e, vs.drop_last());
        if vs.last().1.len() == 0 {
            m0
        } else {
            match entry_of(rels, qualified(e, vs.last().0, "_rel"@)) {
                Some(t) => rows_step(m0, vs.last().0, t.entries),
                None => m0,
            }
        }
    }
}

/// One round: every datatype's constructors, in order.
pub open spec fn round(m: NameMap, rels: Seq<(Seq<char>, TableV)>, dts: Seq<(Seq<char>, Seq<(Seq<char>, Seq<BaseTypeV>)>)>) -> NameMap
    decreases dts.len(),
{
    if dts.len() == 0 {
        m
    } else {
        variants_round(round(m, rels, dts.drop_last()), rels, dts.last().0, dts.last().1)
    }
}

/// `n` rounds.
pub open spec fn rounds(m: NameMap, rels: Seq<(Seq<char>, TableV)>, dts: Seq<(Seq<char>, Seq<(Seq<char>, Seq<BaseTypeV>)>)>, n: nat) -> NameMap
    decreases n,
{
    if n == 0 {
        m
    } else {
        round(rounds(m, rels, dts, (n - 1) as nat), rels, dts)
    }
}

/// The rows of all tables, in order.
pub open spec fn all_rows(rels: Seq<(Seq<char>, TableV)>) -> Seq<RowV>
    decreases rels.len(),
{
    if rels.len() == 0 {
        Seq::empty()
    } else {
        all_rows(rels.drop_last()) + rels.last().1.entries
    }
}

/// Every row that holds has a result column: the naming reads a true
/// row's last column as the element it names.
pub open spec fn rows_ok(rows: Seq<RowV>) -> bool {
    forall|k: int| 0 <= k < rows.len() ==> ((#[trigger] rows[k]).1 == "true"@ ==> rows[k].0.len() > 0)
}

/// The rows of the first tables are where the rows of all tables start.
proof fn lemma_all_rows_prefix(rels: Seq<(Seq<char>, TableV)>, n: int)
    requires
        0 <= n <= rels.len(),
    ensures
        all_rows(rels.take(n)).len() <= all_rows(rels).len(),
        all_rows(rels).take(all_rows(rels.take(n)).len() as int) == all_rows(rels.take(n)),
    decreases rels.len() - n,
{
    if n == rels.len() {
        assert(rels.take(n) =~= rels);
        assert(all_rows(rels).take(all_rows(rels).len() as int) =~= all_rows(rels));
    } else {
        lemma_all_rows_prefix(rels, n + 1);
        let t = rels.take(n + 1);
        assert(t.drop_last() =~= rels.take(n));
        let a = all_rows(rels.take(n));
        let b = all_rows(t);
        assert(b == a + t.last().1.entries);
        assert(all_rows(rels).take(a.len() as int) =~= b.take(a.len() as int));
        assert(b.take(a.len() as int) =~= a);
    }
}

/// Whether every true row of the model's relations has a result column
/// (see [`rows_ok`]).
pub fn rows_hold_results(model: &Model) -> (r: bool)
    ensures
        r == rows_ok(all_rows(model@.rels)),
{
    let ghost rv = model@.rels;
    let mut i: usize = 0;
    proof {
        assert(rv.take(0) =~= Seq::<(Seq<char>, TableV)>::empty());
    }
    while i < model.rels.len()
        invariant
            0 <= i <= model.rels@.len(),
            rv == model@.rels,
            rv.len() == model.rels@.len(),
            rows_ok(all_rows(rv.take(i as int))),
        decreases model.rels@.len() - i,
    {
        let entries = &model.rels[i].1.entries;
        let ghost before = all_rows(rv.take(i as int));
        let ghost ev = rv[i as int].1.entries;
        assert(ev == rows_view(entries@));
        let mut j: usize = 0;
        while j < entries.len()
            invariant
                0 <= j <= entries@.len(),
                0 <= i < rv.len(),
                rv == model@.rels,
                before == all_rows(rv.take(i as int)),
                ev == rv[i as int].1.entries,
                rows_ok(before),
                ev == rows_view(entries@),
                forall|k: int| 0 <= k < j ==> (#[trigger] ev[k]).1 == "true"@ ==> ev[k].0.len() > 0,
            decreases entries@.len() - j,
        {
            let holds = entries[j].1.eq(&String::from_str("true"));
            if holds && entries[j].0.len() == 0 {
                proof {
                    let t = rv.take(i + 1);
                    assert(t.drop_last() =~= rv.take(i as int));
                    let rows = all_rows(t);
                    assert(rows == before + ev);
                    assert(rows[before.len() + j] == ev[j as int]);
                    assert(ev[j as int].0 =~= Seq::<Seq<char>>::empty());
                    lemma_all_rows_prefix(rv, i + 1);
                    assert(all_rows(rv)[before.len() + j] == rows[before.len() + j]);
                    assert(rv.take(rv.len() as int) =~= rv);
                }
                return false;
            }
            proof {
                if ev[j as int].1 == "true"@ {
                    assert(holds);
                }
            }
            j = j + 1;
        }
        proof {
            let t = rv.take(i + 1);
            assert(t.drop_last() =~= rv.take(i as int));
            assert(all_rows(t) == before + ev);
        }
        i = i + 1;
    }
    proof {
        assert(rv.take(rv.len() as int) =~= rv);
    }
    true
}

/// The rows whose result has no name yet.
pub open spec fn pending(m: NameMap, rows: Seq<RowV>) -> nat
    decreases rows.len(),
{
    if rows.len() == 0 {
        0
    } else {
        pending(m, rows.drop_last()) + if rows.last().0.len() > 0 && entry_of(m, rows.last().0.last()) is None {
            1nat
        } else {
            0nat
        }
    }
}

/// Naming one more element leaves no more rows pending.
proof fn lemma_pending_push(m: NameMap, p: (Seq<char>, Seq<char>), rows: Seq<RowV>)
    ensures
        pending(m.push(p), rows) <= pending(m, rows),
    decreases rows.len(),
{
    if rows.len() > 0 {
        lemma_pending_push(m, p, rows.drop_last());
        lemma_entry_push(m, p, rows.last().0.last());
    }
}

/// Naming the result of a pending row leaves fewer rows pending.
proof fn lemma_pending_named(m: NameMap, p: (Seq<char>, Seq<char>), rows: Seq<RowV>, k: int)
    requires
        0 <= k < rows.len(),
        rows[k].0.len() > 0,
        rows[k].0.last() == p.0,
        entry_of(m, p.0) is None,
    ensures
        pending(m.push(p), rows) < pending(m, rows),
    decreases rows.len(),
{
    lemma_entry_push(m, p, p.0);
    lemma_entry_push(m, p, rows.last().0.last());
    if k == rows.len() - 1 {
        lemma_pending_push(m, p, rows.drop_last());
    } else {
        assert(rows.drop_last()[k] == rows[k]);
        lemma_pending_named(m, p, rows.drop_last(), k);
    }
}

/// Each row of each table is among all rows.
pub(crate) proof fn lemma_all_rows(rels: Seq<(Seq<char>, TableV)>, i: int, j: int) -> (k: int)
    requires
        0 <= i < rels.len(),
        0 <= j < rels[i].1.entries.len(),
    ensures
        0 <= k < all_rows(rels).len(),
        all_rows(rels)[k] == rels[i].1.entries[j],
    decreases rels.len(),
{
    if i == rels.len() - 1 {
        all_rows(rels.drop_last()).len() + j
    } else {
        assert(rels.drop_last()[i] == rels[i]);
        lemma_all_rows(rels.drop_last(), i, j)
    }
}

/// The names of `args[..upto]`, if each has one.
fn arg_texts(names: &Vec<(String, String)>, args: &Vec<String>, upto: usize) -> (r: Option<Vec<String>>)
    requires
        upto <= args@.len(),
    ensures
        r is Some <==> all_named(subst_view(names@), crate::cex::order::texts(args@).take(upto as int)),
        r matches Some(p) ==> crate::cex::order::texts(p@) == arg_names(subst_view(names@), crate::cex::order::texts(args@).take(upto as int)),
{
    let ghost m = subst_view(names@);
    let ghost av = crate::cex::order::texts(args@).take(upto as int);
    let mut out: Vec<String> = Vec::new();
    let mut a: usize = 0;
    while a < upto
        invariant
            0 <= a <= upto <= args@.len(),
            m == subst_view(names@),
            av == crate::cex::order::texts(args@).take(upto as int),
            out@.len() == a,
            forall|i: int| 0 <= i < a ==> (#[trigger] entry_of(m, av[i])) is Some,
            forall|i: int| 0 <= i < a ==> (#[trigger] out@[i])@ == name_or(m, av[i]),
        decreases upto - a,
    {
        let i = name_index(names, &args[a]);
        proof {
            lemma_keys_agree(keyed(names@), m, args@[a as int]@);
            lemma_key_index(m, args@[a as int]@);
            assert(av[a as int] == args@[a as int]@);
        }
        if i == names.len() {
            proof {
                assert(entry_of(m, av[a as int]) is None);
            }
            return None;
        }
        out.push(names[i].1.clone());
        a = a + 1;
    }
    proof {
        assert(crate::cex::order::texts(out@) =~= arg_names(m, av));
    }
    Some(out)
}

/// `v(parts)`.
fn render_ctor(v: &String, parts: &Vec<String>) -> (r: String)
    ensures
        r@ == ctor_text(v@, crate::cex::order::texts(parts@)),
{
    proof {
        reveal_strlit("(");
        reveal_strlit(")");
        reveal_strlit(", ");
    }
    let ghost pv = crate::cex::order::texts(parts@);
    let mut inner = String::new();
    let mut i: usize = 0;
    proof {
        assert(pv.take(0) =~= Seq::<Seq<char>>::empty());
    }
    while i < parts.len()
        invariant
            0 <= i <= parts@.len(),
            pv == crate::cex::order::texts(parts@),
            inner@ == join(", "@, pv.take(i as int)),
        decreases parts@.len() - i,
    {
        proof {
            assert(pv.take(i + 1) =~= pv.take(i as int).push(parts@[i as int]@));
        }
        append_joined(&mut inner, ", ", parts[i].as_str(), i == 0, Ghost(pv.take(i as int)));
        i = i + 1;
    }
    proof {
        assert(pv.take(parts@.len() as int) =~= pv);
    }
    let mut s = v.clone();
    s.append("(");
    s.append(inner.as_str());
    s.append(")");
    s
}

/// The rows of the table at `ti`, for constructor `v` (see [`rows_step`]);
/// whether it named anything. Naming leaves fewer rows pending.
fn name_rows(names: &mut Vec<(String, String)>, v: &String, model: &Model, ti: usize) -> (grew: bool)
    requires
        ti < model.rels@.len(),
        rows_ok(all_rows(model@.rels)),
    ensures
        subst_view(final(names)@) == rows_step(subst_view(old(names)@), v@, model@.rels[ti as int].1.entries),
        !grew ==> subst_view(final(names)@) == subst_view(old(names)@),
        grew ==> pending(subst_view(final(names)@), all_rows(model@.rels)) < pending(subst_view(old(names)@), all_rows(model@.rels)),
{
    let ghost start = subst_view(names@);
    let ghost all = all_rows(model@.rels);
    let table: &Table = &model.rels[ti].1;
    let ghost rows = model@.rels[ti as int].1.entries;
    assert(rows == table@.entries);
    let t = String::from_str("true");
    proof {
        reveal_strlit("true");
    }
    let mut grew = false;
    let mut j: usize = 0;
    proof {
        assert(rows.take(0) =~= Seq::<RowV>::empty());
    }
    while j < table.entries.len()
        invariant
            0 <= j <= table.entries@.len(),
            ti < model.rels@.len(),
            table == &model.rels@[ti as int].1,
            rows == table@.entries,
            rows == model@.rels[ti as int].1.entries,
            all == all_rows(model@.rels),
            rows_ok(all),
            t@ == "true"@,
            subst_view(names@) == rows_step(start, v@, rows.take(j as int)),
            !grew ==> subst_view(names@) == start,
            pending(subst_view(names@), all) + (if grew { 1int } else { 0int }) <= pending(start, all),
        decreases table.entries@.len() - j,
    {
        let ghost cur = subst_view(names@);
        let ghost row = rows[j as int];
        proof {
            assert(rows.take(j + 1).drop_last() =~= rows.take(j as int));
            assert(rows.take(j + 1).last() == row);
        }
        let entry = &table.entries[j];
        if entry.1.eq(&t) {
            let n = entry.0.len();
            proof {
                let k = lemma_all_rows(model@.rels, ti as int, j as int);
                assert(all[k] == row);
                assert(row.0.len() == n);
            }
            let result = &entry.0[n - 1];
            let ri = name_index(names, result);
            proof {
                lemma_keys_agree(keyed(names@), cur, result@);
                lemma_key_index(cur, result@);
                assert(row.0.last() == result@);
                assert(row.0.drop_last() =~= crate::cex::order::texts(entry.0@).take(n - 1));
            }
            if ri == names.len() {
                match arg_texts(names, &entry.0, n - 1) {
                    Some(parts) => {
                        let text = render_ctor(v, &parts);
                        names.push((result.clone(), text));
                        proof {
                            assert(subst_view(names@) =~= cur.push((result@, text@)));
                            let k = lemma_all_rows(model@.rels, ti as int, j as int);
                            lemma_pending_named(cur, (result@, text@), all, k);
                        }
                        grew = true;
                    },
                    None => {},
                }
            }
        }
        j = j + 1;
    }
    proof {
        assert(rows.take(table.entries@.len() as int) =~= rows);
    }
    grew
}

/// The position of the relation named `k` (the length if there is none).
pub(crate) fn rel_index(model: &Model, k: &String) -> (r: usize)
    ensures
        r <= model.rels@.len(),
        r < model.rels@.len() ==> entry_of(model@.rels, k@) == Some(model@.rels[r as int].1),
        r == model.rels@.len() ==> entry_of(model@.rels, k@) is None,
{
    let i = name_index(&model.rels, k);
    proof {
        lemma_keys_agree(keyed(model.rels@), model@.rels, k@);
        lemma_key_index(model@.rels, k@);
    }
    i
}

/// One round (see [`round`]); whether it named anything.
fn name_round(names: &mut Vec<(String, String)>, model: &Model, program: &Program) -> (grew: bool)
    requires
        rows_ok(all_rows(model@.rels)),
    ensures
        subst_view(final(names)@) == round(subst_view(old(names)@), model@.rels, datatypes_view(program.datatypes@)),
        !grew ==> subst_view(final(names)@) == subst_view(old(names)@),
        grew ==> pending(subst_view(final(names)@), all_rows(model@.rels)) < pending(subst_view(old(names)@), all_rows(model@.rels)),
{
    let ghost start = subst_view(names@);
    let ghost all = all_rows(model@.rels);
    let ghost dv = datatypes_view(program.datatypes@);
    let mut grew = false;
    let mut i: usize = 0;
    proof {
        reveal_strlit("_rel");
        assert(dv.take(0) =~= Seq::<(Seq<char>, Seq<(Seq<char>, Seq<BaseTypeV>)>)>::empty());
    }
    while i < program.datatypes.len()
        invariant
            0 <= i <= program.datatypes@.len(),
            dv == datatypes_view(program.datatypes@),
            all == all_rows(model@.rels),
            rows_ok(all),
            subst_view(names@) == round(start, model@.rels, dv.take(i as int)),
            !grew ==> subst_view(names@) == start,
            pending(subst_view(names@), all) + (if grew { 1int } else { 0int }) <= pending(start, all),
        decreases program.datatypes@.len() - i,
    {
        proof {
            assert(dv.take(i + 1).drop_last() =~= dv.take(i as int));
            assert(dv.take(i + 1).last() == dv[i as int]);
        }
        let e = &program.datatypes[i].0;
        let vs = &program.datatypes[i].1;
        let ghost cv = ctors_view(vs@);
        let ghost mid = subst_view(names@);
        let mut c: usize = 0;
        proof {
            assert(cv.take(0) =~= Seq::<(Seq<char>, Seq<BaseTypeV>)>::empty());
        }
        while c < vs.len()
            invariant
                0 <= c <= vs@.len(),
                0 <= i < program.datatypes@.len(),
                vs == &program.datatypes@[i as int].1,
                e == &program.datatypes@[i as int].0,
                cv == ctors_view(vs@),
                all == all_rows(model@.rels),
                rows_ok(all),
                subst_view(names@) == variants_round(mid, model@.rels, e@, cv.take(c as int)),
                !grew ==> subst_view(names@) == start,
                pending(subst_view(names@), all) + (if grew { 1int } else { 0int }) <= pending(start, all),
            decreases vs@.len() - c,
        {
            proof {
                assert(cv.take(c + 1).drop_last() =~= cv.take(c as int));
                assert(cv.take(c + 1).last() == cv[c as int]);
            }
            if vs[c].1.len() > 0 {
                let rel = qualify(e, &vs[c].0, "_rel");
                let ti = rel_index(model, &rel);
                if ti < model.rels.len() {
                    let ghost before = subst_view(names@);
                    let g = name_rows(names, &vs[c].0, model, ti);
                    grew = grew || g;
                }
            }
            c = c + 1;
        }
        proof {
            assert(cv.take(vs@.len() as int) =~= cv);
        }
        i = i + 1;
    }
    proof {
        assert(dv.take(program.datatypes@.len() as int) =~= dv);
    }
    grew
}


/// Junk naming over a universe, in order: each element without a name is
/// named `sort!k` (the sort in lower case) and listed as junk of `Enum`.
pub open spec fn junk_universe(acc: (NameMap, NameMap), e: Seq<char>, u: Seq<Seq<char>>) -> (NameMap, NameMap)
    decreases u.len(),
{
    if u.len() == 0 {
        acc
    } else {
        let prev = junk_universe(acc, e, u.drop_last());
        let x = u.last();
        if entry_of(prev.0, x) is Some {
            prev
        } else {
            let t = tag_text(lowercase(e), x, (u.len() - 1) as nat);
            (prev.0.push((x, t)), prev.1.push((e, t)))
        }
    }
}

/// Junk naming over every datatype's universe, in order.
pub open spec fn junk_all(acc: (NameMap, NameMap), universes: Seq<(Seq<char>, Seq<Seq<char>>)>, dts: Seq<(Seq<char>, Seq<(Seq<char>, Seq<BaseTypeV>)>)>) -> (NameMap, NameMap)
    decreases dts.len(),
{
    if dts.len() == 0 {
        acc
    } else {
        let a0 = junk_all(acc, universes, dts.drop_last());
        match entry_of(universes, sort_text(BaseTypeV::Custom(dts.last().0))) {
            Some(u) => junk_universe(a0, dts.last().0, u),
            None => a0,
        }
    }
}

/// The order of pairs of texts: by the first, then by the second.
pub open spec fn pair_le(a: (Seq<char>, Seq<char>), b: (Seq<char>, Seq<char>)) -> bool {
    text_lt(a.0, b.0) || (a.0 == b.0 && !text_lt(b.1, a.1))
}

/// In order, equal pairs side by side.
pub open spec fn pairs_sorted(s: NameMap) -> bool {
    forall|i: int, j: int| 0 <= i < j < s.len() ==> pair_le(#[trigger] s[i], #[trigger] s[j])
}

/// The pair order is transitive and total.
proof fn lemma_pair_le(a: (Seq<char>, Seq<char>), b: (Seq<char>, Seq<char>), c: (Seq<char>, Seq<char>))
    ensures
        pair_le(a, b) && pair_le(b, c) ==> pair_le(a, c),
        pair_le(a, b) || pair_le(b, a),
{
    lemma_text_lt(a.0, b.0, c.0);
    lemma_text_lt(a.1, b.1, c.1);
    lemma_text_lt(b.0, a.0, c.0);
    lemma_text_lt(c.1, b.1, a.1);
    lemma_text_lt(b.1, a.1, a.1);
    lemma_text_lt(c.0, a.0, a.0);
    lemma_text_lt(c.1, a.1, b.1);
    lemma_text_lt(a.0, c.0, c.0);
}

/// Whether `a` comes no later than `b` (see [`pair_le`]).
fn pair_leq(a: &(String, String), b: &(String, String)) -> (r: bool)
    ensures
        r == pair_le((a.0@, a.1@), (b.0@, b.1@)),
{
    if text_less(a.0.as_str(), b.0.as_str()) {
        true
    } else if a.0.eq(&b.0) {
        !text_less(b.1.as_str(), a.1.as_str())
    } else {
        false
    }
}

/// The pairs in order (see [`pair_le`]), each as often as given.
fn sort_pairs(v: &Vec<(String, String)>) -> (r: Vec<(String, String)>)
    ensures
        pairs_sorted(subst_view(r@)),
        subst_view(r@).to_multiset() == subst_view(v@).to_multiset(),
{
    let mut out: Vec<(String, String)> = Vec::new();
    let mut i: usize = 0;
    proof {
        assert(subst_view(out@) =~= subst_view(v@).take(0));
    }
    while i < v.len()
        invariant
            0 <= i <= v@.len(),
            pairs_sorted(subst_view(out@)),
            subst_view(out@).to_multiset() == subst_view(v@).take(i as int).to_multiset(),
        decreases v@.len() - i,
    {
        let x = &v[i];
        let ghost xv = (x.0@, x.1@);
        let ghost before = subst_view(out@);
        let mut p: usize = 0;
        while p < out.len() && pair_leq(&out[p], x)
            invariant
                0 <= p <= out@.len(),
                before == subst_view(out@),
                xv == (x.0@, x.1@),
                forall|k: int| 0 <= k < p ==> pair_le(#[trigger] before[k], xv),
            decreases out@.len() - p,
        {
            p = p + 1;
        }
        out.insert(p, (x.0.clone(), x.1.clone()));
        proof {
            let after = subst_view(out@);
            assert(after =~= before.insert(p as int, xv));
            if p < before.len() {
                lemma_pair_le(before[p as int], xv, xv);
            }
            assert forall|a: int, b: int| 0 <= a < b < after.len() implies pair_le(#[trigger] after[a], #[trigger] after[b]) by {
                if a < p && b == p {
                } else if a < p && b > p {
                    assert(pair_le(before[a], xv));
                    lemma_pair_le(xv, before[p as int], before[b - 1]);
                    if b - 1 > p {
                        assert(pair_le(before[p as int], before[b - 1]));
                    }
                    lemma_pair_le(before[a], xv, before[b - 1]);
                } else if a == p {
                    if b - 1 > p {
                        assert(pair_le(before[p as int], before[b - 1]));
                    }
                    lemma_pair_le(xv, before[p as int], before[b - 1]);
                } else if a > p {
                    assert(pair_le(before[a - 1], before[b - 1]));
                } else {
                    assert(pair_le(before[a], before[b]));
                }
            }
            assert(subst_view(v@).take(i + 1) =~= subst_view(v@).take(i as int).push(xv));
        }
        i = i + 1;
    }
    proof {
        assert(subst_view(v@).take(v@.len() as int) =~= subst_view(v@));
    }
    out
}

/// Junk naming over one universe (see [`junk_universe`]).
fn junk_of_universe(names: &mut Vec<(String, String)>, junk: &mut Vec<(String, String)>, e: &String, lower: &String, u: &Vec<Elem>)
    requires
        lower@ == lowercase(e@),
    ensures
        (subst_view(final(names)@), subst_view(final(junk)@)) == junk_universe((subst_view(old(names)@), subst_view(old(junk)@)), e@, crate::cex::order::texts(u@)),
{
    let ghost start = (subst_view(names@), subst_view(junk@));
    let ghost uv = crate::cex::order::texts(u@);
    let mut k: usize = 0;
    proof {
        assert(uv.take(0) =~= Seq::<Seq<char>>::empty());
    }
    while k < u.len()
        invariant
            0 <= k <= u@.len(),
            uv == crate::cex::order::texts(u@),
            lower@ == lowercase(e@),
            (subst_view(names@), subst_view(junk@)) == junk_universe(start, e@, uv.take(k as int)),
        decreases u@.len() - k,
    {
        proof {
            assert(uv.take(k + 1).drop_last() =~= uv.take(k as int));
            assert(uv.take(k + 1).last() == u@[k as int]@);
        }
        let tag = make_tag(lower, &u[k], k);
        let ghost jv = subst_view(junk@);
        let added = insert_absent(names, &u[k], tag.clone());
        if added {
            junk.push((e.clone(), tag));
            proof {
                assert(subst_view(junk@) =~= jv.push((e@, tag@)));
            }
        }
        k = k + 1;
    }
    proof {
        assert(uv.take(u@.len() as int) =~= uv);
    }
}

/// The names before any constructor round: the Boolean literals, then the
/// elements of the nullary constructors' constants.
pub open spec fn first_names(model: crate::model::ModelV, dts: Seq<(Seq<char>, Seq<(Seq<char>, Seq<BaseTypeV>)>)>) -> NameMap {
    name_all_nullary(bool_names(), model.consts, dts)
}

/// `n` rounds bring the naming to rest: one more names nothing new.
pub open spec fn settled(model: crate::model::ModelV, dts: Seq<(Seq<char>, Seq<(Seq<char>, Seq<BaseTypeV>)>)>, n: nat) -> bool {
    round(rounds(first_names(model, dts), model.rels, dts, n), model.rels, dts) == rounds(first_names(model, dts), model.rels, dts, n)
}

/// Names every element of the model it can in the source vocabulary: the
/// nullary constructors' elements by the constructors' names, then, round
/// after round until a round names nothing new, each element a constructor
/// tuple produces from named arguments as `C(args)`; the rest is junk, named
/// `sort!k` and listed in order.
pub fn name_elements(model: &Model, program: &Program) -> (r: Names)
    requires
        rows_ok(all_rows(model@.rels)),
    ensures
        exists|n: nat| #[trigger] settled(model@, datatypes_view(program.datatypes@), n) && {
            let dv = datatypes_view(program.datatypes@);
            let named = junk_all((rounds(first_names(model@, dv), model@.rels, dv, n), Seq::empty()), model@.universes, dv);
            &&& subst_view(r.of_elem@) == named.0
            &&& pairs_sorted(subst_view(r.junk@))
            &&& subst_view(r.junk@).to_multiset() == named.1.to_multiset()
        },
{
    let ghost dv = datatypes_view(program.datatypes@);
    let ghost all = all_rows(model@.rels);
    let mut names = new_bool_names();
    let mut i: usize = 0;
    proof {
        assert(dv.take(0) =~= Seq::<(Seq<char>, Seq<(Seq<char>, Seq<BaseTypeV>)>)>::empty());
    }
    while i < program.datatypes.len()
        invariant
            0 <= i <= program.datatypes@.len(),
            dv == datatypes_view(program.datatypes@),
            subst_view(names@) == name_all_nullary(bool_names(), model@.consts, dv.take(i as int)),
        decreases program.datatypes@.len() - i,
    {
        proof {
            assert(dv.take(i + 1).drop_last() =~= dv.take(i as int));
            assert(dv.take(i + 1).last() == dv[i as int]);
        }
        nullary_names(&mut names, model, &program.datatypes[i].0, &program.datatypes[i].1);
        i = i + 1;
    }
    proof {
        assert(dv.take(program.datatypes@.len() as int) =~= dv);
    }
    let ghost first = subst_view(names@);
    let ghost mut n: nat = 0;
    loop
        invariant
            dv == datatypes_view(program.datatypes@),
            all == all_rows(model@.rels),
            rows_ok(all),
            first == first_names(model@, dv),
            subst_view(names@) == rounds(first, model@.rels, dv, n),
        ensures
            subst_view(names@) == rounds(first, model@.rels, dv, n),
            settled(model@, dv, n),
        decreases pending(subst_view(names@), all),
    {
        let ghost before = subst_view(names@);
        let grew = name_round(&mut names, model, program);
        if !grew {
            break;
        }
        proof {
            n = n + 1;
        }
    }
    let ghost settled_names = subst_view(names@);
    let mut junk: Vec<(String, String)> = Vec::new();
    let mut i: usize = 0;
    proof {
        assert(dv.take(0) =~= Seq::<(Seq<char>, Seq<(Seq<char>, Seq<BaseTypeV>)>)>::empty());
        assert(subst_view(junk@) =~= Seq::<(Seq<char>, Seq<char>)>::empty());
    }
    while i < program.datatypes.len()
        invariant
            0 <= i <= program.datatypes@.len(),
            dv == datatypes_view(program.datatypes@),
            (subst_view(names@), subst_view(junk@)) == junk_all((settled_names, Seq::empty()), model@.universes, dv.take(i as int)),
        decreases program.datatypes@.len() - i,
    {
        proof {
            assert(dv.take(i + 1).drop_last() =~= dv.take(i as int));
            assert(dv.take(i + 1).last() == dv[i as int]);
        }
        let e = &program.datatypes[i].0;
        let sort_type = BaseType::Custom(e.clone());
        proof {
            assert(sort_type@ == BaseTypeV::Custom(e@));
        }
        let sort = render_sort(&sort_type);
        match universe_of(model, &sort) {
            Some(u) => {
                let lower = to_lower(e.as_str());
                junk_of_universe(&mut names, &mut junk, e, &lower, u);
            },
            None => {},
        }
        i = i + 1;
    }
    proof {
        assert(dv.take(program.datatypes@.len() as int) =~= dv);
    }
    let sorted = sort_pairs(&junk);
    Names { of_elem: names, junk: sorted }
}

} // verus!
