//! Countermodels. Where `cex` renders the failed obligation in the source
//! vocabulary, this module holds the finite model a solver found for it, in a
//! form that does not depend on the solver: each sort's universe, each
//! constant's element and each relation's table. `name` gives the elements
//! source-level names and `print` writes a model out.

pub mod name;
pub mod print;

use vstd::prelude::*;
use crate::api::key_index;
use crate::ast::same_text;
use crate::cex::order::texts;

verus! {

broadcast use vstd::std_specs::vec::group_vec_axioms;

/// An element of a sort's finite universe, by the solver's tag (such as
/// `UI_Nat!val!2`); `true` or `false` at Boolean positions.
pub type Elem = String;

/// A row of a table: an argument tuple and the relation's value on it.
pub type RowV = (Seq<Seq<char>>, Seq<char>);

/// A relation's interpretation as solvers report it: the listed argument
/// tuples with their values, and the value of every other tuple. An
/// `else_value` of `None` means the solver gave a formula there, so that an
/// unlisted tuple's value is unknown.
#[derive(Debug)]
pub struct Table {
    pub entries: Vec<(Vec<Elem>, Elem)>,
    pub else_value: Option<Elem>,
}

/// The texts of a table.
pub struct TableV {
    pub entries: Seq<RowV>,
    pub else_value: Option<Seq<char>>,
}

/// The views of a table's rows.
pub open spec fn rows_view(s: Seq<(Vec<Elem>, Elem)>) -> Seq<RowV> {
    Seq::new(s.len(), |i: int| (texts(s[i].0@), s[i].1@))
}

/// The text of an optional string.
pub open spec fn opt_text(o: Option<String>) -> Option<Seq<char>> {
    match o {
        Some(s) => Some(s@),
        None => None,
    }
}

impl View for Table {
    type V = TableV;

    open spec fn view(&self) -> TableV {
        TableV { entries: rows_view(self.entries@), else_value: opt_text(self.else_value) }
    }
}

/// The value the rows give `args`: that of the first row listing it, else the
/// table's default.
pub open spec fn table_value(rows: Seq<RowV>, default: Option<Seq<char>>, args: Seq<Seq<char>>) -> Option<Seq<char>>
    decreases rows.len(),
{
    if rows.len() == 0 {
        default
    } else if rows[0].0 == args {
        Some(rows[0].1)
    } else {
        table_value(rows.skip(1), default, args)
    }
}

/// Whether two lists of strings hold the same texts.
pub fn same_texts(a: &[String], b: &[String]) -> (r: bool)
    ensures
        r == (texts(a@) == texts(b@)),
{
    if a.len() != b.len() {
        proof {
            assert(texts(a@).len() != texts(b@).len());
        }
        return false;
    }
    let mut i: usize = 0;
    while i < a.len()
        invariant
            a@.len() == b@.len(),
            0 <= i <= a@.len(),
            forall|k: int| 0 <= k < i ==> (#[trigger] a@[k])@ == b@[k]@,
        decreases a@.len() - i,
    {
        if !same_text(&a[i], &b[i]) {
            proof {
                assert(texts(a@)[i as int] != texts(b@)[i as int]);
            }
            return false;
        }
        i = i + 1;
    }
    proof {
        assert(texts(a@) =~= texts(b@));
    }
    true
}

impl Table {
    /// The relation's value on `args`, if the table determines it.
    pub fn lookup(&self, args: &[Elem]) -> (r: Option<&Elem>)
        ensures
            (match r {
                Some(v) => Some(v@),
                None => None::<Seq<char>>,
            }) == table_value(self@.entries, self@.else_value, texts(args@)),
    {
        let ghost rows = self@.entries;
        let mut i: usize = 0;
        proof {
            assert(rows.skip(0) =~= rows);
        }
        while i < self.entries.len()
            invariant
                0 <= i <= self.entries@.len(),
                rows == self@.entries,
                table_value(rows, self@.else_value, texts(args@)) == table_value(rows.skip(i as int), self@.else_value, texts(args@)),
            decreases self.entries@.len() - i,
        {
            proof {
                assert(rows.skip(i as int)[0] == rows[i as int]);
                assert(rows.skip(i as int).skip(1) =~= rows.skip(i + 1));
            }
            if same_texts(self.entries[i].0.as_slice(), args) {
                return Some(&self.entries[i].1);
            }
            i = i + 1;
        }
        proof {
            assert(rows.skip(i as int).len() == 0);
        }
        match &self.else_value {
            Some(v) => Some(v),
            None => None,
        }
    }
}

/// A finite model of one failed query, each part keyed by its SMT name.
#[derive(Debug)]
pub struct Model {
    /// Sort name (`UI_Nat`) and its universe.
    pub universes: Vec<(String, Vec<Elem>)>,
    /// Constant name (`i`, `Nat__Z`) and its element.
    pub consts: Vec<(String, Elem)>,
    /// Relation name (`add_rel`, `Nat__S_rel`) and its table.
    pub rels: Vec<(String, Table)>,
}

/// The texts of a model.
pub struct ModelV {
    pub universes: Seq<(Seq<char>, Seq<Seq<char>>)>,
    pub consts: Seq<(Seq<char>, Seq<char>)>,
    pub rels: Seq<(Seq<char>, TableV)>,
}

impl View for Model {
    type V = ModelV;

    open spec fn view(&self) -> ModelV {
        ModelV {
            universes: Seq::new(self.universes@.len(), |i: int| (self.universes@[i].0@, texts(self.universes@[i].1@))),
            consts: Seq::new(self.consts@.len(), |i: int| (self.consts@[i].0@, self.consts@[i].1@)),
            rels: Seq::new(self.rels@.len(), |i: int| (self.rels@[i].0@, self.rels@[i].1@)),
        }
    }
}

/// A keyed list with its keys as texts.
pub open spec fn keyed<T>(s: Seq<(String, T)>) -> Seq<(Seq<char>, T)> {
    Seq::new(s.len(), |i: int| (s[i].0@, s[i].1))
}

/// What a keyed list holds under `k`: its first entry named `k`.
pub open spec fn entry_of<T>(s: Seq<(Seq<char>, T)>, k: Seq<char>) -> Option<T> {
    let i = key_index(s, k);
    if 0 <= i < s.len() {
        Some(s[i].1)
    } else {
        None
    }
}

/// `key_index` stays within the list, at an entry with that key where it is
/// short of the end.
pub proof fn lemma_key_index<T>(s: Seq<(Seq<char>, T)>, k: Seq<char>)
    ensures
        0 <= key_index(s, k) <= s.len(),
        key_index(s, k) < s.len() ==> s[key_index(s, k)].0 == k,
        forall|j: int| 0 <= j < key_index(s, k) ==> s[j].0 != k,
    decreases s.len(),
{
    if s.len() > 0 && s[0].0 != k {
        lemma_key_index(s.skip(1), k);
        assert forall|j: int| 0 <= j < key_index(s, k) implies s[j].0 != k by {
            if j > 0 {
                assert(s.skip(1)[j - 1] == s[j]);
            }
        }
    }
}

/// `key_index` reads the keys alone.
pub proof fn lemma_keys_agree<A, B>(a: Seq<(Seq<char>, A)>, b: Seq<(Seq<char>, B)>, k: Seq<char>)
    requires
        a.len() == b.len(),
        forall|i: int| 0 <= i < a.len() ==> (#[trigger] a[i]).0 == b[i].0,
    ensures
        key_index(a, k) == key_index(b, k),
    decreases a.len(),
{
    if a.len() > 0 && a[0].0 != k {
        assert(b[0].0 == a[0].0);
        assert forall|i: int| 0 <= i < a.skip(1).len() implies (#[trigger] a.skip(1)[i]).0 == b.skip(1)[i].0 by {
            assert(a.skip(1)[i] == a[i + 1]);
            assert(b.skip(1)[i] == b[i + 1]);
        }
        lemma_keys_agree(a.skip(1), b.skip(1), k);
    } else if a.len() > 0 {
        assert(b[0].0 == a[0].0);
    }
}

/// What a keyed list gives `k` after an entry is added last.
pub proof fn lemma_key_index_push<T>(s: Seq<(Seq<char>, T)>, p: (Seq<char>, T), k: Seq<char>)
    ensures
        key_index(s.push(p), k) == if key_index(s, k) < s.len() {
            key_index(s, k)
        } else if p.0 == k {
            s.len() as int
        } else {
            s.len() as int + 1
        },
    decreases s.len(),
{
    lemma_key_index(s, k);
    if s.len() > 0 {
        assert(s.push(p)[0] == s[0]);
        assert(s.push(p).skip(1) =~= s.skip(1).push(p));
        lemma_key_index_push(s.skip(1), p, k);
        if s[0].0 != k {
            assert(key_index(s, k) == 1 + key_index(s.skip(1), k));
            assert(key_index(s.push(p), k) == 1 + key_index(s.skip(1).push(p), k));
        }
    } else {
        assert(s.push(p)[0] == p);
        assert(s.push(p).skip(1).len() == 0);
        assert(key_index(s.push(p).skip(1), k) == 0);
    }
}

/// What a keyed list gives `k` after an entry is added last.
pub proof fn lemma_entry_push<T>(s: Seq<(Seq<char>, T)>, p: (Seq<char>, T), k: Seq<char>)
    ensures
        entry_of(s.push(p), k) == if entry_of(s, k) is Some {
            entry_of(s, k)
        } else if p.0 == k {
            Some(p.1)
        } else {
            None
        },
{
    lemma_key_index(s, k);
    lemma_key_index_push(s, p, k);
}

/// The position of the first entry named `k` (the length if there is none).
pub fn name_index<T>(s: &Vec<(String, T)>, k: &String) -> (r: usize)
    ensures
        r == key_index(keyed(s@), k@),
        r <= s@.len(),
{
    let ghost ks = keyed(s@);
    let mut i: usize = 0;
    proof {
        assert(ks.skip(0) =~= ks);
    }
    while i < s.len()
        invariant
            0 <= i <= s@.len(),
            ks == keyed(s@),
            key_index(ks, k@) == i + key_index(ks.skip(i as int), k@),
        decreases s@.len() - i,
    {
        proof {
            assert(ks.skip(i as int)[0] == ks[i as int]);
            assert(ks.skip(i as int).skip(1) =~= ks.skip(i + 1));
        }
        if s[i].0.eq(k) {
            proof {
                assert(key_index(ks.skip(i as int), k@) == 0);
            }
            return i;
        }
        i = i + 1;
    }
    proof {
        assert(ks.skip(i as int).len() == 0);
    }
    i
}

/// The characters of a text.
#[verifier::external_body]
pub(crate) fn text_chars(s: &str) -> (r: Vec<char>)
    ensures
        r@ == s@,
{
    s.chars().collect()
}

/// The text made of the characters `cs[from..to]`.
#[verifier::external_body]
pub(crate) fn text_of(cs: &Vec<char>, from: usize, to: usize) -> (r: String)
    requires
        from <= to <= cs@.len(),
    ensures
        r@ == cs@.subrange(from as int, to as int),
{
    cs[from..to].iter().collect()
}

/// Whether a character is white space: Unicode's `White_Space` property,
/// the tab to the carriage return, the space, the next line, the no-break
/// space, the Ogham space mark, the spaces from the en quad to the hair
/// space, the line and paragraph separators, the narrow no-break space, the
/// medium mathematical space and the ideographic space.
pub open spec fn white(c: char) -> bool {
    let n = c as u32;
    ||| 0x09 <= n <= 0x0D
    ||| n == 0x20
    ||| n == 0x85
    ||| n == 0xA0
    ||| n == 0x1680
    ||| 0x2000 <= n <= 0x200A
    ||| n == 0x2028
    ||| n == 0x2029
    ||| n == 0x202F
    ||| n == 0x205F
    ||| n == 0x3000
}

/// Whether the character has Unicode's `White_Space` property (see
/// [`white`]), as `char::is_whitespace` tells.
pub(crate) fn is_white(c: char) -> (r: bool)
    ensures
        r == white(c),
{
    let n = c as u32;
    (0x09 <= n && n <= 0x0D) || n == 0x20 || n == 0x85 || n == 0xA0 || n == 0x1680 || (0x2000 <= n && n <= 0x200A)
        || n == 0x2028 || n == 0x2029 || n == 0x202F || n == 0x205F || n == 0x3000
}

/// The bounds of `cs[a..b]` without its leading and trailing white space.
pub(crate) fn trim_range(cs: &Vec<char>, a: usize, b: usize) -> (r: (usize, usize))
    requires
        a <= b <= cs@.len(),
    ensures
        a <= r.0 <= r.1 <= b,
        cs@.subrange(r.0 as int, r.1 as int) == trim_white(cs@.subrange(a as int, b as int)),
{
    let ghost line = cs@.subrange(a as int, b as int);
    let mut ta: usize = a;
    while ta < b && is_white(cs[ta])
        invariant
            a <= ta <= b <= cs@.len(),
            line == cs@.subrange(a as int, b as int),
            drop_lead(line) == drop_lead(cs@.subrange(ta as int, b as int)),
        decreases b - ta,
    {
        proof {
            assert(cs@.subrange(ta as int, b as int)[0] == cs@[ta as int]);
            assert(cs@.subrange(ta as int, b as int).skip(1) =~= cs@.subrange(ta + 1, b as int));
        }
        ta = ta + 1;
    }
    proof {
        if ta < b {
            assert(cs@.subrange(ta as int, b as int)[0] == cs@[ta as int]);
        }
    }
    let mut tb: usize = b;
    while tb > ta && is_white(cs[tb - 1])
        invariant
            a <= ta <= tb <= b <= cs@.len(),
            line == cs@.subrange(a as int, b as int),
            trim_white(line) == drop_trail(cs@.subrange(ta as int, tb as int)),
        decreases tb - ta,
    {
        proof {
            assert(cs@.subrange(ta as int, tb as int).last() == cs@[tb - 1]);
            assert(cs@.subrange(ta as int, tb as int).drop_last() =~= cs@.subrange(ta as int, tb - 1));
        }
        tb = tb - 1;
    }
    proof {
        if tb > ta {
            assert(cs@.subrange(ta as int, tb as int).last() == cs@[tb - 1]);
        }
    }
    (ta, tb)
}

/// The text without its leading white space.
pub open spec fn drop_lead(s: Seq<char>) -> Seq<char>
    decreases s.len(),
{
    if s.len() > 0 && white(s[0]) {
        drop_lead(s.skip(1))
    } else {
        s
    }
}

/// The text without its trailing white space.
pub open spec fn drop_trail(s: Seq<char>) -> Seq<char>
    decreases s.len(),
{
    if s.len() > 0 && white(s.last()) {
        drop_trail(s.drop_last())
    } else {
        s
    }
}

/// The text without leading and trailing white space (as `str::trim`).
pub open spec fn trim_white(s: Seq<char>) -> Seq<char> {
    drop_trail(drop_lead(s))
}

/// The position of the first `c` in `s` (its length if there is none).
pub open spec fn first_of(s: Seq<char>, c: char) -> nat
    decreases s.len(),
{
    if s.len() == 0 {
        0
    } else if s[0] == c {
        0
    } else {
        1 + first_of(s.skip(1), c)
    }
}

/// The words of `s`, a word under way being `cur`: the maximal runs of
/// characters that are not white space (as `str::split_whitespace`).
pub open spec fn words_from(s: Seq<char>, cur: Seq<char>) -> Seq<Seq<char>>
    decreases s.len(),
{
    if s.len() == 0 {
        if cur.len() == 0 {
            Seq::empty()
        } else {
            seq![cur]
        }
    } else if white(s[0]) {
        if cur.len() == 0 {
            words_from(s.skip(1), cur)
        } else {
            seq![cur] + words_from(s.skip(1), Seq::empty())
        }
    } else {
        words_from(s.skip(1), cur.push(s[0]))
    }
}

/// `first_of` finds the first `c`, or runs to the end.
pub proof fn lemma_first_of(s: Seq<char>, c: char)
    ensures
        first_of(s, c) <= s.len(),
        first_of(s, c) < s.len() ==> s[first_of(s, c) as int] == c,
        forall|j: int| 0 <= j < first_of(s, c) ==> s[j] != c,
    decreases s.len(),
{
    if s.len() > 0 && s[0] != c {
        lemma_first_of(s.skip(1), c);
        assert forall|j: int| 0 <= j < first_of(s, c) implies s[j] != c by {
            if j > 0 {
                assert(s.skip(1)[j - 1] == s[j]);
            }
        }
    }
}

/// The words of a text.
pub open spec fn words(s: Seq<char>) -> Seq<Seq<char>> {
    words_from(s, Seq::empty())
}

/// The pieces of `s` between line feeds, the piece under way being `cur`.
pub open spec fn pieces_from(s: Seq<char>, cur: Seq<char>) -> Seq<Seq<char>>
    decreases s.len(),
{
    if s.len() == 0 {
        seq![cur]
    } else if s[0] == '\n' {
        seq![cur] + pieces_from(s.skip(1), Seq::empty())
    } else {
        pieces_from(s.skip(1), cur.push(s[0]))
    }
}

/// What a line declares: `(declare-fun NAME (S1 .. Sn) Bool)`, trimmed,
/// gives `NAME` and `[S1, .., Sn]`; any other line nothing.
pub open spec fn relation_decl(line: Seq<char>) -> Option<(Seq<char>, Seq<Seq<char>>)> {
    let t = trim_white(line);
    let p = "(declare-fun "@;
    if t.len() < p.len() || t.take(p.len() as int) != p {
        None
    } else {
        let rest = t.skip(p.len() as int);
        let sp = first_of(rest, ' ');
        if sp == rest.len() {
            None
        } else {
            let after = rest.skip(sp as int + 1);
            let open = first_of(after, '(');
            if open == after.len() {
                None
            } else {
                let close = open + first_of(after.skip(open as int), ')');
                if close == after.len() {
                    None
                } else {
                    Some((rest.take(sp as int), words(after.subrange(open as int + 1, close as int))))
                }
            }
        }
    }
}

/// The declarations of a list of lines, in order.
pub open spec fn decls_of(lines: Seq<Seq<char>>) -> Seq<(Seq<char>, Seq<Seq<char>>)>
    decreases lines.len(),
{
    if lines.len() == 0 {
        Seq::empty()
    } else {
        let d = decls_of(lines.drop_last());
        match relation_decl(lines.last()) {
            Some(x) => d.push(x),
            None => d,
        }
    }
}

/// The relation declarations of a query text, line by line.
pub open spec fn relation_decls(query: Seq<char>) -> Seq<(Seq<char>, Seq<Seq<char>>)> {
    decls_of(pieces_from(query, Seq::empty()))
}

/// The views of declarations.
pub open spec fn decl_views(s: Seq<(String, Vec<String>)>) -> Seq<(Seq<char>, Seq<Seq<char>>)> {
    Seq::new(s.len(), |i: int| (s[i].0@, texts(s[i].1@)))
}

/// The words of `cs[a..b]`.
fn words_in(cs: &Vec<char>, a: usize, b: usize) -> (r: Vec<String>)
    requires
        a <= b <= cs@.len(),
    ensures
        texts(r@) == words(cs@.subrange(a as int, b as int)),
{
    let mut out: Vec<String> = Vec::new();
    let mut ws: usize = a;
    let mut i: usize = a;
    proof {
        assert(cs@.subrange(a as int, a as int) =~= Seq::<char>::empty());
        assert(texts(out@) =~= Seq::<Seq<char>>::empty());
        assert(Seq::<Seq<char>>::empty() + words(cs@.subrange(a as int, b as int)) =~= words(cs@.subrange(a as int, b as int)));
    }
    while i < b
        invariant
            a <= ws <= i <= b <= cs@.len(),
            words(cs@.subrange(a as int, b as int)) == texts(out@) + words_from(cs@.subrange(i as int, b as int), cs@.subrange(ws as int, i as int)),
        decreases b - i,
    {
        let ghost s = cs@.subrange(i as int, b as int);
        let ghost cur = cs@.subrange(ws as int, i as int);
        let ghost before = texts(out@);
        proof {
            assert(s[0] == cs@[i as int]);
            assert(s.skip(1) =~= cs@.subrange(i + 1, b as int));
            assert(cs@.subrange(i + 1, i + 1) =~= Seq::<char>::empty());
        }
        if is_white(cs[i]) {
            if ws < i {
                let w = text_of(cs, ws, i);
                out.push(w);
                proof {
                    assert(texts(out@) =~= before.push(cur));
                    assert(before + (seq![cur] + words_from(s.skip(1), Seq::empty())) =~= texts(out@) + words_from(s.skip(1), Seq::empty()));
                }
            } else {
                proof {
                    assert(cur =~= Seq::<char>::empty());
                    assert(texts(out@) =~= before);
                }
            }
            ws = i + 1;
        } else {
            proof {
                assert(cur.push(cs@[i as int]) =~= cs@.subrange(ws as int, i + 1));
                assert(texts(out@) =~= before);
            }
        }
        i = i + 1;
    }
    let ghost before = texts(out@);
    let ghost cur = cs@.subrange(ws as int, b as int);
    proof {
        assert(cs@.subrange(b as int, b as int).len() == 0);
    }
    if ws < b {
        let w = text_of(cs, ws, b);
        out.push(w);
        proof {
            assert(texts(out@) =~= before.push(cur));
            assert(before + seq![cur] =~= texts(out@));
        }
    } else {
        proof {
            assert(cur.len() == 0);
            assert(texts(out@) =~= before);
            assert(before + Seq::<Seq<char>>::empty() =~= before);
        }
    }
    out
}

/// The position of the first `c` in `cs[from..to]`, counted from `from`
/// (`to - from` if there is none).
pub(crate) fn find_char(cs: &Vec<char>, from: usize, to: usize, c: char) -> (r: usize)
    requires
        from <= to <= cs@.len(),
    ensures
        r == first_of(cs@.subrange(from as int, to as int), c),
        r <= to - from,
{
    let mut j: usize = from;
    proof {
        assert(cs@.subrange(from as int, to as int) =~= cs@.subrange(j as int, to as int));
    }
    while j < to && cs[j] != c
        invariant
            from <= j <= to <= cs@.len(),
            first_of(cs@.subrange(from as int, to as int), c) == (j - from) + first_of(cs@.subrange(j as int, to as int), c),
        decreases to - j,
    {
        proof {
            assert(cs@.subrange(j as int, to as int)[0] == cs@[j as int]);
            assert(cs@.subrange(j as int, to as int).skip(1) =~= cs@.subrange(j + 1, to as int));
        }
        j = j + 1;
    }
    proof {
        if j < to {
            assert(cs@.subrange(j as int, to as int)[0] == cs@[j as int]);
        }
    }
    j - from
}

/// What the line `cs[a..b]` declares (see [`relation_decl`]).
#[verifier::loop_isolation(false)]
fn line_decl(cs: &Vec<char>, a: usize, b: usize) -> (r: Option<(String, Vec<String>)>)
    requires
        a <= b <= cs@.len(),
    ensures
        relation_decl(cs@.subrange(a as int, b as int)) == match r {
            Some((name, cols)) => Some((name@, texts(cols@))),
            None => None,
        },
{
    let ghost line = cs@.subrange(a as int, b as int);
    let mut ta: usize = a;
    while ta < b && is_white(cs[ta])
        invariant
            a <= ta <= b <= cs@.len(),
            line == cs@.subrange(a as int, b as int),
            drop_lead(line) == drop_lead(cs@.subrange(ta as int, b as int)),
        decreases b - ta,
    {
        proof {
            assert(cs@.subrange(ta as int, b as int)[0] == cs@[ta as int]);
            assert(cs@.subrange(ta as int, b as int).skip(1) =~= cs@.subrange(ta + 1, b as int));
        }
        ta = ta + 1;
    }
    proof {
        if ta < b {
            assert(cs@.subrange(ta as int, b as int)[0] == cs@[ta as int]);
        }
    }
    let mut tb: usize = b;
    while tb > ta && is_white(cs[tb - 1])
        invariant
            a <= ta <= tb <= b <= cs@.len(),
            line == cs@.subrange(a as int, b as int),
            trim_white(line) == drop_trail(cs@.subrange(ta as int, tb as int)),
        decreases tb - ta,
    {
        proof {
            assert(cs@.subrange(ta as int, tb as int).last() == cs@[tb - 1]);
            assert(cs@.subrange(ta as int, tb as int).drop_last() =~= cs@.subrange(ta as int, tb - 1));
        }
        tb = tb - 1;
    }
    proof {
        if tb > ta {
            assert(cs@.subrange(ta as int, tb as int).last() == cs@[tb - 1]);
        }
    }
    let ghost t = cs@.subrange(ta as int, tb as int);
    assert(trim_white(line) == t);
    let p = text_chars("(declare-fun ");
    let pl = p.len();
    if tb - ta < pl {
        return None;
    }
    let mut k: usize = 0;
    while k < pl
        invariant
            0 <= k <= pl,
            pl == p@.len(),
            p@ == "(declare-fun "@,
            ta + pl <= tb <= cs@.len(),
            t == cs@.subrange(ta as int, tb as int),
            forall|m: int| 0 <= m < k ==> cs@[ta + m] == p@[m],
        decreases pl - k,
    {
        if cs[ta + k] != p[k] {
            proof {
                assert(t.take(pl as int)[k as int] != p@[k as int]);
            }
            return None;
        }
        k = k + 1;
    }
    proof {
        assert(t.take(pl as int) =~= p@);
    }
    let r0 = ta + pl;
    let ghost rest = t.skip(pl as int);
    proof {
        assert(rest =~= cs@.subrange(r0 as int, tb as int));
    }
    let sp = find_char(cs, r0, tb, ' ');
    if sp == tb - r0 {
        return None;
    }
    let r2 = r0 + sp + 1;
    let ghost after = rest.skip(sp as int + 1);
    proof {
        assert(after =~= cs@.subrange(r2 as int, tb as int));
    }
    let open = find_char(cs, r2, tb, '(');
    if open == tb - r2 {
        return None;
    }
    let o = r2 + open;
    proof {
        lemma_first_of(cs@.subrange(r2 as int, tb as int), '(');
        assert(cs@.subrange(r2 as int, tb as int)[open as int] == cs@[o as int]);
        assert(cs@.subrange(o as int, tb as int)[0] == cs@[o as int]);
    }
    let close = find_char(cs, o, tb, ')');
    proof {
        assert(after.skip(open as int) =~= cs@.subrange(o as int, tb as int));
    }
    if open + close == tb - r2 {
        return None;
    }
    let c = o + close;
    let name = text_of(cs, r0, r0 + sp);
    let cols = words_in(cs, o + 1, c);
    proof {
        assert(rest.take(sp as int) =~= cs@.subrange(r0 as int, r0 + sp));
        assert(after.subrange(open as int + 1, (open + close) as int) =~= cs@.subrange(o + 1, c as int));
    }
    Some((name, cols))
}

/// The signature of each relation a query declares:
/// `(declare-fun NAME (S1 .. Sn) Bool)` gives `NAME` and `[S1, .., Sn]`.
/// Read from the query text, so it holds for any program and any solver.
pub fn declared_relations(query: &str) -> (r: Vec<(String, Vec<String>)>)
    ensures
        decl_views(r@) == relation_decls(query@),
{
    let cs = text_chars(query);
    let n = cs.len();
    let mut out: Vec<(String, Vec<String>)> = Vec::new();
    let ghost mut done: Seq<Seq<char>> = Seq::empty();
    let mut start: usize = 0;
    let mut i: usize = 0;
    proof {
        assert(cs@.skip(0) =~= cs@);
        assert(cs@.subrange(0, 0) =~= Seq::<char>::empty());
        assert(Seq::<Seq<char>>::empty() + pieces_from(cs@, Seq::empty()) =~= pieces_from(cs@, Seq::empty()));
        assert(decl_views(out@) =~= decls_of(done));
    }
    while i < n
        invariant
            n == cs@.len(),
            cs@ == query@,
            0 <= start <= i <= n,
            pieces_from(cs@, Seq::empty()) == done + pieces_from(cs@.skip(i as int), cs@.subrange(start as int, i as int)),
            decl_views(out@) == decls_of(done),
        decreases n - i,
    {
        let ghost s = cs@.skip(i as int);
        let ghost cur = cs@.subrange(start as int, i as int);
        proof {
            assert(s[0] == cs@[i as int]);
            assert(s.skip(1) =~= cs@.skip(i + 1));
        }
        if cs[i] == '\n' {
            let d = line_decl(&cs, start, i);
            let ghost before = decl_views(out@);
            let ghost old_done = done;
            proof {
                done = done.push(cur);
                assert(done.drop_last() =~= old_done);
                assert(done.last() == cur);
                assert(cs@.subrange(i + 1, i + 1) =~= Seq::<char>::empty());
                assert(old_done + (seq![cur] + pieces_from(s.skip(1), Seq::empty())) =~= done + pieces_from(cs@.skip(i + 1), cs@.subrange(i + 1, i + 1)));
            }
            match d {
                Some(x) => {
                    out.push(x);
                    proof {
                        assert(decl_views(out@) =~= before.push(relation_decl(cur)->0));
                    }
                },
                None => {},
            }
            start = i + 1;
        } else {
            proof {
                assert(cur.push(cs@[i as int]) =~= cs@.subrange(start as int, i + 1));
            }
        }
        i = i + 1;
    }
    let ghost cur = cs@.subrange(start as int, n as int);
    let ghost before = decl_views(out@);
    let ghost old_done = done;
    proof {
        assert(cs@.skip(n as int).len() == 0);
        done = done.push(cur);
        assert(done.drop_last() =~= old_done);
        assert(pieces_from(cs@, Seq::empty()) =~= done);
    }
    let d = line_decl(&cs, start, n);
    match d {
        Some(x) => {
            out.push(x);
            proof {
                assert(decl_views(out@) =~= before.push(relation_decl(cur)->0));
            }
        },
        None => {},
    }
    out
}

} // verus!
