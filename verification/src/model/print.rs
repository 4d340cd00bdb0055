//! A model written as the JSON CamlStar prints, section by section: each
//! datatype's universe, each program variable's element, and each relation
//! as a finite map `"(args)": "result"` under its source name. Elements are
//! displayed by `name::tags_only`.

use vstd::prelude::*;
use crate::api::{datatypes_view, fdefs_view};
use crate::ast::{BaseType, BaseTypeV, ExprV, Ident, Program, TypeV, binders_view, keys_of};
use crate::cex::defs::subst_view;
use crate::cex::order::{text_less, text_lt, texts};
use crate::model::{Model, RowV, TableV, entry_of, keyed, lemma_key_index, lemma_keys_agree, name_index, text_chars, text_of};
use crate::model::name::{
    NameMap, Names, all_rows, bool_names, const_elem, lemma_all_rows, name_or, qualified, qualify, rel_index, rows_ok, tags_of,
    tags_only, universe_of,
};
use crate::smt::axioms_body::{fun_types, get_fun_types};
use crate::smt::builder::{render_sort, sort_text};
use crate::text::{append_joined, join, sanitize_id, sanitized};

verus! {

broadcast use vstd::std_specs::vec::group_vec_axioms, crate::ast::group_ast_views;

/// A character as it stands inside a JSON string.
pub open spec fn escape_char(c: char) -> Seq<char> {
    if c == '"' {
        seq!['\\', '"']
    } else if c == '\\' {
        seq!['\\', '\\']
    } else if c == '\n' {
        seq!['\\', 'n']
    } else {
        seq![c]
    }
}

/// A text with its quotes, backslashes and line feeds escaped.
pub open spec fn escaped(s: Seq<char>) -> Seq<char>
    decreases s.len(),
{
    if s.len() == 0 {
        Seq::empty()
    } else {
        escaped(s.drop_last()) + escape_char(s.last())
    }
}

/// A text as a JSON string.
pub open spec fn quoted_text(s: Seq<char>) -> Seq<char> {
    seq!['"'] + escaped(s) + seq!['"']
}

/// `s` as a JSON string.
fn quoted(s: &str) -> (r: String)
    ensures
        r@ == quoted_text(s@),
{
    let cs = text_chars(s);
    let quote = text_chars("\"\\n");
    proof {
        reveal_strlit("\"\\n");
        assert(quote@ =~= seq!['"', '\\', 'n']);
    }
    let mut out = text_of(&quote, 0, 1);
    let mut i: usize = 0;
    proof {
        assert(cs@.take(0) =~= Seq::<char>::empty());
    }
    while i < cs.len()
        invariant
            0 <= i <= cs@.len(),
            cs@ == s@,
            quote@ == seq!['"', '\\', 'n'],
            out@ == seq!['"'] + escaped(cs@.take(i as int)),
        decreases cs@.len() - i,
    {
        proof {
            assert(cs@.take(i + 1).drop_last() =~= cs@.take(i as int));
            assert(cs@.take(i + 1).last() == cs@[i as int]);
        }
        let c = cs[i];
        if c == '"' {
            let bs = text_of(&quote, 1, 2);
            let q = text_of(&quote, 0, 1);
            out.append(bs.as_str());
            out.append(q.as_str());
        } else if c == '\\' {
            let bs = text_of(&quote, 1, 2);
            out.append(bs.as_str());
            out.append(bs.as_str());
        } else if c == '\n' {
            let bs = text_of(&quote, 1, 2);
            let n = text_of(&quote, 2, 3);
            out.append(bs.as_str());
            out.append(n.as_str());
        } else {
            let one = text_of(&cs, i, i + 1);
            out.append(one.as_str());
        }
        proof {
            assert(out@ =~= seq!['"'] + escaped(cs@.take(i + 1)));
        }
        i = i + 1;
    }
    let q = text_of(&quote, 0, 1);
    out.append(q.as_str());
    proof {
        assert(cs@.take(cs@.len() as int) =~= cs@);
    }
    out
}

/// `ord` with position `x` inserted after the positions whose keys do not
/// come after `keys[x]`: a step of a stable sort by key.
pub open spec fn insert_index(keys: Seq<Seq<char>>, ord: Seq<int>, x: int) -> Seq<int>
    decreases ord.len(),
{
    if ord.len() == 0 {
        seq![x]
    } else if text_lt(keys[x], keys[ord[0]]) {
        seq![x] + ord
    } else {
        seq![ord[0]] + insert_index(keys, ord.skip(1), x)
    }
}

/// The positions `0..n` stably sorted by key (as `sort_by` on the names).
pub open spec fn key_order(keys: Seq<Seq<char>>, n: nat) -> Seq<int>
    decreases n,
{
    if n == 0 {
        Seq::empty()
    } else {
        insert_index(keys, key_order(keys, (n - 1) as nat), n - 1)
    }
}

/// Inserting before the first later key is [`insert_index`].
proof fn lemma_insert_index(keys: Seq<Seq<char>>, ord: Seq<int>, x: int, p: int)
    requires
        0 <= p <= ord.len(),
        forall|k: int| 0 <= k < p ==> !text_lt(keys[x], keys[#[trigger] ord[k]]),
        p < ord.len() ==> text_lt(keys[x], keys[ord[p]]),
    ensures
        ord.insert(p, x) == insert_index(keys, ord, x),
    decreases p,
{
    if ord.len() == 0 {
        assert(ord.insert(p, x) =~= seq![x]);
    } else if p == 0 {
        assert(ord.insert(p, x) =~= seq![x] + ord);
    } else {
        assert(!text_lt(keys[x], keys[ord[0]]));
        assert forall|k: int| 0 <= k < p - 1 implies !text_lt(keys[x], keys[#[trigger] ord.skip(1)[k]]) by {
            assert(ord.skip(1)[k] == ord[k + 1]);
        }
        lemma_insert_index(keys, ord.skip(1), x, p - 1);
        assert(ord.insert(p, x) =~= seq![ord[0]] + ord.skip(1).insert(p - 1, x));
    }
}

/// The positions of a keyed list stably sorted by key (see [`key_order`]).
fn name_order<T>(s: &Vec<(String, T)>) -> (r: Vec<usize>)
    ensures
        r@.len() == s@.len(),
        Seq::new(r@.len(), |k: int| r@[k] as int) == key_order(keys_of(s@), s@.len()),
        forall|k: int| 0 <= k < r@.len() ==> r@[k] < s@.len(),
{
    let ghost keys = keys_of(s@);
    let mut out: Vec<usize> = Vec::new();
    let mut i: usize = 0;
    proof {
        assert(Seq::new(out@.len(), |k: int| out@[k] as int) =~= key_order(keys, 0));
    }
    while i < s.len()
        invariant
            0 <= i <= s@.len(),
            keys == keys_of(s@),
            out@.len() == i,
            Seq::new(out@.len(), |k: int| out@[k] as int) == key_order(keys, i as nat),
            forall|k: int| 0 <= k < out@.len() ==> out@[k] < i,
        decreases s@.len() - i,
    {
        let ghost ord = Seq::new(out@.len(), |k: int| out@[k] as int);
        let mut p: usize = 0;
        while p < out.len() && !text_less(s[i].0.as_str(), s[out[p]].0.as_str())
            invariant
                0 <= p <= out@.len(),
                out@.len() == i,
                i < s@.len(),
                keys == keys_of(s@),
                ord == Seq::new(out@.len(), |k: int| out@[k] as int),
                forall|k: int| 0 <= k < out@.len() ==> out@[k] < i,
                forall|k: int| 0 <= k < p ==> !text_lt(keys[i as int], keys[#[trigger] ord[k]]),
            decreases out@.len() - p,
        {
            p = p + 1;
        }
        proof {
            lemma_insert_index(keys, ord, i as int, p as int);
        }
        out.insert(p, i);
        proof {
            assert(Seq::new(out@.len(), |k: int| out@[k] as int) =~= ord.insert(p as int, i as int));
        }
        i = i + 1;
    }
    out
}

/// The JSON item of a datatype's universe, if the model has one.
pub open spec fn universe_item(names: NameMap, universes: Seq<(Seq<char>, Seq<Seq<char>>)>, e: Seq<char>) -> Option<Seq<char>> {
    match entry_of(universes, sort_text(BaseTypeV::Custom(e))) {
        Some(u) => Some("  "@ + quoted_text(e) + ": ["@ + join(", "@, Seq::new(u.len(), |k: int| quoted_text(name_or(names, u[k])))) + "]"@),
        None => None,
    }
}

/// The items of the datatypes at positions `ord`, in that order.
pub open spec fn universe_items(names: NameMap, universes: Seq<(Seq<char>, Seq<Seq<char>>)>, dts: Seq<(Seq<char>, Seq<(Seq<char>, Seq<BaseTypeV>)>)>, ord: Seq<int>) -> Seq<Seq<char>>
    decreases ord.len(),
{
    if ord.len() == 0 {
        Seq::empty()
    } else {
        let prev = universe_items(names, universes, dts, ord.drop_last());
        match universe_item(names, universes, dts[ord.last()].0) {
            Some(t) => prev.push(t),
            None => prev,
        }
    }
}

/// The JSON item of a program variable, if it has an element; none for the
/// Unit-typed ones and the subtyping variable, which are not program
/// variables.
pub open spec fn variable_item(names: NameMap, consts: NameMap, var: (Seq<char>, BaseTypeV)) -> Option<Seq<char>> {
    if var.1 == BaseTypeV::Unit || var.0 == "v_sub"@ {
        None
    } else {
        match entry_of(consts, sanitized(var.0)) {
            Some(elem) => Some("  "@ + quoted_text(var.0) + ": "@ + quoted_text(name_or(names, elem))),
            None => None,
        }
    }
}

/// The items of the variables, in order.
pub open spec fn variable_items(names: NameMap, consts: NameMap, vars: Seq<(Seq<char>, BaseTypeV)>) -> Seq<Seq<char>>
    decreases vars.len(),
{
    if vars.len() == 0 {
        Seq::empty()
    } else {
        let prev = variable_items(names, consts, vars.drop_last());
        match variable_item(names, consts, vars.last()) {
            Some(t) => prev.push(t),
            None => prev,
        }
    }
}

/// The relations of the functions at positions `ord` that return something
/// (a lemma's relation carries no information): name and relation name.
pub open spec fn function_relations(fdefs: Seq<(Seq<char>, (TypeV, Option<ExprV>, bool))>, ord: Seq<int>) -> NameMap
    decreases ord.len(),
{
    if ord.len() == 0 {
        Seq::empty()
    } else {
        let prev = function_relations(fdefs, ord.drop_last());
        let f = fdefs[ord.last()];
        if fun_types(f.1.0).unwrap().1 == BaseTypeV::Unit {
            prev
        } else {
            prev.push((f.0, f.0 + "_rel"@))
        }
    }
}

/// The relations of one enum's constructors with fields: name and relation.
pub open spec fn ctor_relations(e: Seq<char>, vs: Seq<(Seq<char>, Seq<BaseTypeV>)>) -> NameMap
    decreases vs.len(),
{
    if vs.len() == 0 {
        Seq::empty()
    } else {
        let prev = ctor_relations(e, vs.drop_last());
        if vs.last().1.len() == 0 {
            prev
        } else {
            prev.push((vs.last().0, qualified(e, vs.last().0, "_rel"@)))
        }
    }
}

/// The constructor relations of the datatypes at positions `ord`.
pub open spec fn all_ctor_relations(dts: Seq<(Seq<char>, Seq<(Seq<char>, Seq<BaseTypeV>)>)>, ord: Seq<int>) -> NameMap
    decreases ord.len(),
{
    if ord.len() == 0 {
        Seq::empty()
    } else {
        all_ctor_relations(dts, ord.drop_last()) + ctor_relations(dts[ord.last()].0, dts[ord.last()].1)
    }
}

/// CamlStar's key: a single argument bare, several (or none) as `(a, b)`.
pub open spec fn key_text(names: NameMap, args: Seq<Seq<char>>) -> Seq<char> {
    if args.len() == 1 {
        name_or(names, args[0])
    } else {
        "("@ + join(", "@, Seq::new(args.len(), |k: int| name_or(names, args[k]))) + ")"@
    }
}

/// The lines of the rows that hold: `"key": "result"`.
pub open spec fn row_lines(names: NameMap, rows: Seq<RowV>) -> Seq<Seq<char>>
    decreases rows.len(),
{
    if rows.len() == 0 {
        Seq::empty()
    } else {
        let prev = row_lines(names, rows.drop_last());
        let row = rows.last();
        if row.1 == "true"@ {
            prev.push("    "@ + quoted_text(key_text(names, row.0.drop_last())) + ": "@ + quoted_text(name_or(names, row.0.last())))
        } else {
            prev
        }
    }
}

/// The JSON item of a relation: its finite map, if the model has the
/// relation and it holds somewhere.
pub open spec fn relation_item(names: NameMap, rels: Seq<(Seq<char>, TableV)>, rel: (Seq<char>, Seq<char>)) -> Option<Seq<char>> {
    match entry_of(rels, rel.1) {
        Some(t) => {
            let lines = row_lines(names, t.entries);
            if lines.len() == 0 {
                None
            } else {
                Some("  "@ + quoted_text(rel.0) + ": {\n"@ + join(",\n"@, lines) + "\n  }"@)
            }
        },
        None => None,
    }
}

/// The items of the relations, in order.
pub open spec fn relation_items(names: NameMap, rels: Seq<(Seq<char>, TableV)>, list: NameMap) -> Seq<Seq<char>>
    decreases list.len(),
{
    if list.len() == 0 {
        Seq::empty()
    } else {
        let prev = relation_items(names, rels, list.drop_last());
        match relation_item(names, rels, list.last()) {
            Some(t) => prev.push(t),
            None => prev,
        }
    }
}

/// The JSON object of a model: universes by datatype name, then the
/// variables, then the functions' relations by function name and the
/// constructors' relations by datatype name.
pub open spec fn model_json(model: crate::model::ModelV, dts: Seq<(Seq<char>, Seq<(Seq<char>, Seq<BaseTypeV>)>)>, fdefs: Seq<(Seq<char>, (TypeV, Option<ExprV>, bool))>, vars: Seq<(Seq<char>, BaseTypeV)>) -> Seq<char> {
    let names = tags_of(bool_names(), model.universes, model.consts, dts);
    let dord = key_order(Seq::new(dts.len(), |i: int| dts[i].0), dts.len());
    let ford = key_order(Seq::new(fdefs.len(), |i: int| fdefs[i].0), fdefs.len());
    let items = universe_items(names, model.universes, dts, dord) + variable_items(names, model.consts, vars)
        + relation_items(names, model.rels, function_relations(fdefs, ford) + all_ctor_relations(dts, dord));
    if items.len() == 0 {
        "{}"@
    } else {
        "{\n"@ + join(",\n"@, items) + "\n}"@
    }
}

/// The parts joined by `sep`.
fn join_strings(parts: &Vec<String>, sep: &str) -> (r: String)
    ensures
        r@ == join(sep@, texts(parts@)),
{
    let ghost pv = texts(parts@);
    let mut out = String::new();
    let mut i: usize = 0;
    proof {
        assert(pv.take(0) =~= Seq::<Seq<char>>::empty());
    }
    while i < parts.len()
        invariant
            0 <= i <= parts@.len(),
            pv == texts(parts@),
            out@ == join(sep@, pv.take(i as int)),
        decreases parts@.len() - i,
    {
        proof {
            assert(pv.take(i + 1) =~= pv.take(i as int).push(parts@[i as int]@));
        }
        append_joined(&mut out, sep, parts[i].as_str(), i == 0, Ghost(pv.take(i as int)));
        i = i + 1;
    }
    proof {
        assert(pv.take(parts@.len() as int) =~= pv);
    }
    out
}

/// The item of one universe (see [`universe_item`]).
fn universe_line(names: &Names, e: &String, u: &Vec<String>) -> (r: String)
    ensures
        r@ == "  "@ + quoted_text(e@) + ": ["@ + join(", "@, Seq::new(texts(u@).len(), |k: int| quoted_text(name_or(subst_view(names.of_elem@), texts(u@)[k])))) + "]"@,
{
    let ghost m = subst_view(names.of_elem@);
    let mut parts: Vec<String> = Vec::new();
    let mut k: usize = 0;
    while k < u.len()
        invariant
            0 <= k <= u@.len(),
            m == subst_view(names.of_elem@),
            parts@.len() == k,
            forall|j: int| 0 <= j < k ==> (#[trigger] parts@[j])@ == quoted_text(name_or(m, u@[j]@)),
        decreases u@.len() - k,
    {
        let n = names.get(&u[k]);
        let q = quoted(n.as_str());
        parts.push(q);
        k = k + 1;
    }
    proof {
        assert(texts(parts@) =~= Seq::new(texts(u@).len(), |k: int| quoted_text(name_or(m, texts(u@)[k]))));
    }
    let inner = join_strings(&parts, ", ");
    let mut s = String::from_str("  ");
    let qe = quoted(e.as_str());
    s.append(qe.as_str());
    s.append(": [");
    s.append(inner.as_str());
    s.append("]");
    s
}

/// The key of a row: its arguments `args[..upto]` (see [`key_text`]).
fn key_string(names: &Names, args: &Vec<String>, upto: usize) -> (r: String)
    requires
        upto <= args@.len(),
    ensures
        r@ == key_text(subst_view(names.of_elem@), texts(args@).take(upto as int)),
{
    let ghost m = subst_view(names.of_elem@);
    let ghost av = texts(args@).take(upto as int);
    if upto == 1 {
        return names.get(&args[0]);
    }
    let mut parts: Vec<String> = Vec::new();
    let mut k: usize = 0;
    while k < upto
        invariant
            0 <= k <= upto <= args@.len(),
            m == subst_view(names.of_elem@),
            av == texts(args@).take(upto as int),
            parts@.len() == k,
            forall|j: int| 0 <= j < k ==> (#[trigger] parts@[j])@ == name_or(m, av[j]),
        decreases upto - k,
    {
        let n = names.get(&args[k]);
        parts.push(n);
        k = k + 1;
    }
    proof {
        assert(texts(parts@) =~= Seq::new(av.len(), |k: int| name_or(m, av[k])));
    }
    let inner = join_strings(&parts, ", ");
    let mut s = String::from_str("(");
    s.append(inner.as_str());
    s.append(")");
    s
}

/// The lines of the rows of the table at `ti` that hold (see [`row_lines`]).
fn table_lines(names: &Names, model: &Model, ti: usize) -> (r: Vec<String>)
    requires
        ti < model.rels@.len(),
        rows_ok(all_rows(model@.rels)),
    ensures
        texts(r@) == row_lines(subst_view(names.of_elem@), model@.rels[ti as int].1.entries),
{
    let ghost m = subst_view(names.of_elem@);
    let table = &model.rels[ti].1;
    let ghost rows = model@.rels[ti as int].1.entries;
    assert(rows == table@.entries);
    let t = String::from_str("true");
    let mut out: Vec<String> = Vec::new();
    let mut j: usize = 0;
    proof {
        assert(rows.take(0) =~= Seq::<RowV>::empty());
    }
    while j < table.entries.len()
        invariant
            0 <= j <= table.entries@.len(),
            ti < model.rels@.len(),
            table == &model.rels@[ti as int].1,
            rows == table@.entries,
            rows == model@.rels[ti as int].1.entries,
            rows_ok(all_rows(model@.rels)),
            m == subst_view(names.of_elem@),
            t@ == "true"@,
            texts(out@) == row_lines(m, rows.take(j as int)),
        decreases table.entries@.len() - j,
    {
        let ghost row = rows[j as int];
        let ghost before = texts(out@);
        proof {
            assert(rows.take(j + 1).drop_last() =~= rows.take(j as int));
            assert(rows.take(j + 1).last() == row);
        }
        let entry = &table.entries[j];
        if entry.1.eq(&t) {
            let n = entry.0.len();
            proof {
                let k = lemma_all_rows(model@.rels, ti as int, j as int);
                assert(all_rows(model@.rels)[k] == row);
                assert(row.0.len() == n);
                assert(row.0.drop_last() =~= texts(entry.0@).take(n - 1));
            }
            let key = key_string(names, &entry.0, n - 1);
            let result = names.get(&entry.0[n - 1]);
            let mut line = String::from_str("    ");
            let qk = quoted(key.as_str());
            let qr = quoted(result.as_str());
            line.append(qk.as_str());
            line.append(": ");
            line.append(qr.as_str());
            out.push(line);
            proof {
                assert(texts(out@) =~= before.push(line@));
            }
        }
        j = j + 1;
    }
    proof {
        assert(rows.take(table.entries@.len() as int) =~= rows);
    }
    out
}

/// Every function's signature is a chain of arrows over sorts.
pub open spec fn signatures_ok(fdefs: Seq<(Seq<char>, (TypeV, Option<ExprV>, bool))>) -> bool {
    forall|i: int| 0 <= i < fdefs.len() ==> fun_types((#[trigger] fdefs[i]).1.0) is Some
}

/// The three sections of a model as one JSON object (see [`model_json`]).
/// `variables` are the goal's binders, the counterexample's own constants;
/// Unit-typed plumbing and the subtyping variable are left out, as they are
/// not program variables.
pub fn camlstar_json(model: &Model, program: &Program, variables: &[(Ident, BaseType)]) -> (r: String)
    requires
        rows_ok(all_rows(model@.rels)),
        signatures_ok(fdefs_view(program.functions@)),
    ensures
        r@ == model_json(model@, datatypes_view(program.datatypes@), fdefs_view(program.functions@), binders_view(variables@)),
{
    let names = tags_only(model, program);
    let ghost m = subst_view(names.of_elem@);
    let ghost dv = datatypes_view(program.datatypes@);
    let ghost fv = fdefs_view(program.functions@);
    let ghost vv = binders_view(variables@);
    let dord = name_order(&program.datatypes);
    let ford = name_order(&program.functions);
    let ghost dseq = Seq::new(dord@.len(), |k: int| dord@[k] as int);
    let ghost fseq = Seq::new(ford@.len(), |k: int| ford@[k] as int);
    proof {
        assert(keys_of(program.datatypes@) =~= Seq::new(dv.len(), |i: int| dv[i].0));
        assert(keys_of(program.functions@) =~= Seq::new(fv.len(), |i: int| fv[i].0));
        reveal_strlit("_rel");
    }
    let mut items: Vec<String> = Vec::new();
    // 1. universes, in datatype name order
    let mut k: usize = 0;
    proof {
        assert(dseq.take(0) =~= Seq::<int>::empty());
    }
    while k < dord.len()
        invariant
            0 <= k <= dord@.len(),
            dord@.len() == program.datatypes@.len(),
            forall|j: int| 0 <= j < dord@.len() ==> dord@[j] < program.datatypes@.len(),
            dseq == Seq::new(dord@.len(), |k: int| dord@[k] as int),
            dv == datatypes_view(program.datatypes@),
            m == subst_view(names.of_elem@),
            texts(items@) == universe_items(m, model@.universes, dv, dseq.take(k as int)),
        decreases dord@.len() - k,
    {
        let ghost before = texts(items@);
        proof {
            assert(dseq.take(k + 1).drop_last() =~= dseq.take(k as int));
            assert(dseq.take(k + 1).last() == dord@[k as int] as int);
        }
        let e = &program.datatypes[dord[k]].0;
        let sort_type = BaseType::Custom(e.clone());
        proof {
            assert(sort_type@ == BaseTypeV::Custom(e@));
            assert(dv[dord@[k as int] as int].0 == e@);
        }
        let sort = render_sort(&sort_type);
        match universe_of(model, &sort) {
            Some(u) => {
                let line = universe_line(&names, e, u);
                items.push(line);
                proof {
                    assert(texts(items@) =~= before.push(line@));
                }
            },
            None => {},
        }
        k = k + 1;
    }
    proof {
        assert(dseq.take(dord@.len() as int) =~= dseq);
    }
    let ghost sec1 = texts(items@);
    // 2. program variables
    let v_sub = String::from_str("v_sub");
    let mut k: usize = 0;
    proof {
        assert(vv.take(0) =~= Seq::<(Seq<char>, BaseTypeV)>::empty());
        assert(sec1 + variable_items(m, model@.consts, vv.take(0)) =~= sec1);
    }
    while k < variables.len()
        invariant
            0 <= k <= variables@.len(),
            vv == binders_view(variables@),
            m == subst_view(names.of_elem@),
            v_sub@ == "v_sub"@,
            texts(items@) == sec1 + variable_items(m, model@.consts, vv.take(k as int)),
        decreases variables@.len() - k,
    {
        let ghost before = texts(items@);
        proof {
            assert(vv.take(k + 1).drop_last() =~= vv.take(k as int));
            assert(vv.take(k + 1).last() == vv[k as int]);
        }
        let name = &variables[k].0;
        let is_unit = match &variables[k].1 {
            BaseType::Unit => true,
            _ => false,
        };
        if !is_unit && !name.eq(&v_sub) {
            let constant = sanitize_id(name.as_str());
            match const_elem(model, &constant) {
                Some(elem) => {
                    let shown = names.get(elem);
                    let mut line = String::from_str("  ");
                    let qn = quoted(name.as_str());
                    let qe = quoted(shown.as_str());
                    line.append(qn.as_str());
                    line.append(": ");
                    line.append(qe.as_str());
                    items.push(line);
                    proof {
                        assert(texts(items@) =~= before.push(line@));
                    }
                },
                None => {},
            }
        }
        k = k + 1;
    }
    proof {
        assert(vv.take(variables@.len() as int) =~= vv);
    }
    let ghost sec2 = texts(items@);
    // 3. relations: functions by name, then constructors by datatype name
    let mut rels: Vec<(String, String)> = Vec::new();
    let mut k: usize = 0;
    proof {
        assert(fseq.take(0) =~= Seq::<int>::empty());
    }
    while k < ford.len()
        invariant
            0 <= k <= ford@.len(),
            ford@.len() == program.functions@.len(),
            forall|j: int| 0 <= j < ford@.len() ==> ford@[j] < program.functions@.len(),
            fseq == Seq::new(ford@.len(), |k: int| ford@[k] as int),
            fv == fdefs_view(program.functions@),
            signatures_ok(fv),
            subst_view(rels@) == function_relations(fv, fseq.take(k as int)),
        decreases ford@.len() - k,
    {
        let ghost before = subst_view(rels@);
        proof {
            assert(fseq.take(k + 1).drop_last() =~= fseq.take(k as int));
            assert(fseq.take(k + 1).last() == ford@[k as int] as int);
        }
        let f = &program.functions[ford[k]];
        proof {
            assert(fv[ford@[k as int] as int].1.0 == f.1.signature@);
            assert(fun_types(f.1.signature@) is Some);
        }
        match get_fun_types(&f.1.signature) {
            Some((_, out)) => {
                let unit_out = match out {
                    BaseType::Unit => true,
                    _ => false,
                };
                if !unit_out {
                    let mut rel = f.0.clone();
                    rel.append("_rel");
                    rels.push((f.0.clone(), rel));
                    proof {
                        assert(subst_view(rels@) =~= before.push((f.0@, f.0@ + "_rel"@)));
                    }
                }
            },
            None => {},
        }
        k = k + 1;
    }
    proof {
        assert(fseq.take(ford@.len() as int) =~= fseq);
    }
    let ghost frels = subst_view(rels@);
    let mut k: usize = 0;
    proof {
        assert(dseq.take(0) =~= Seq::<int>::empty());
        assert(frels + all_ctor_relations(dv, dseq.take(0)) =~= frels);
    }
    while k < dord.len()
        invariant
            0 <= k <= dord@.len(),
            dord@.len() == program.datatypes@.len(),
            forall|j: int| 0 <= j < dord@.len() ==> dord@[j] < program.datatypes@.len(),
            dseq == Seq::new(dord@.len(), |k: int| dord@[k] as int),
            dv == datatypes_view(program.datatypes@),
            subst_view(rels@) == frels + all_ctor_relations(dv, dseq.take(k as int)),
        decreases dord@.len() - k,
    {
        proof {
            assert(dseq.take(k + 1).drop_last() =~= dseq.take(k as int));
            assert(dseq.take(k + 1).last() == dord@[k as int] as int);
        }
        let e = &program.datatypes[dord[k]].0;
        let vs = &program.datatypes[dord[k]].1;
        let ghost cv = crate::api::ctors_view(vs@);
        let ghost mid = subst_view(rels@);
        proof {
            assert(dv[dord@[k as int] as int] == (e@, cv));
        }
        let mut c: usize = 0;
        proof {
            assert(cv.take(0) =~= Seq::<(Seq<char>, Seq<BaseTypeV>)>::empty());
            assert(mid + ctor_relations(e@, cv.take(0)) =~= mid);
        }
        while c < vs.len()
            invariant
                0 <= c <= vs@.len(),
                cv == crate::api::ctors_view(vs@),
                subst_view(rels@) == mid + ctor_relations(e@, cv.take(c as int)),
            decreases vs@.len() - c,
        {
            let ghost before = subst_view(rels@);
            proof {
                assert(cv.take(c + 1).drop_last() =~= cv.take(c as int));
                assert(cv.take(c + 1).last() == cv[c as int]);
            }
            if vs[c].1.len() > 0 {
                let rel = qualify(e, &vs[c].0, "_rel");
                rels.push((vs[c].0.clone(), rel));
                proof {
                    assert(subst_view(rels@) =~= before.push((vs@[c as int].0@, rel@)));
                    assert(mid + ctor_relations(e@, cv.take(c + 1)) =~= before.push((vs@[c as int].0@, rel@)));
                }
            } else {
                proof {
                    assert(mid + ctor_relations(e@, cv.take(c + 1)) =~= before);
                }
            }
            c = c + 1;
        }
        proof {
            assert(cv.take(vs@.len() as int) =~= cv);
            assert(frels + all_ctor_relations(dv, dseq.take(k + 1)) =~= mid + ctor_relations(e@, cv));
        }
        k = k + 1;
    }
    proof {
        assert(dseq.take(dord@.len() as int) =~= dseq);
    }
    let ghost rlist = subst_view(rels@);
    let mut k: usize = 0;
    proof {
        assert(rlist.take(0) =~= Seq::<(Seq<char>, Seq<char>)>::empty());
        assert(sec2 + relation_items(m, model@.rels, rlist.take(0)) =~= sec2);
    }
    while k < rels.len()
        invariant
            0 <= k <= rels@.len(),
            rlist == subst_view(rels@),
            m == subst_view(names.of_elem@),
            rows_ok(all_rows(model@.rels)),
            texts(items@) == sec2 + relation_items(m, model@.rels, rlist.take(k as int)),
        decreases rels@.len() - k,
    {
        let ghost before = texts(items@);
        proof {
            assert(rlist.take(k + 1).drop_last() =~= rlist.take(k as int));
            assert(rlist.take(k + 1).last() == rlist[k as int]);
        }
        let ti = rel_index(model, &rels[k].1);
        if ti < model.rels.len() {
            let lines = table_lines(&names, model, ti);
            if lines.len() > 0 {
                let body = join_strings(&lines, ",\n");
                let mut line = String::from_str("  ");
                let qd = quoted(rels[k].0.as_str());
                line.append(qd.as_str());
                line.append(": {\n");
                line.append(body.as_str());
                line.append("\n  }");
                items.push(line);
                proof {
                    assert(texts(items@) =~= before.push(line@));
                    assert(sec2 + relation_items(m, model@.rels, rlist.take(k + 1)) =~= before.push(line@));
                }
            } else {
                proof {
                    assert(sec2 + relation_items(m, model@.rels, rlist.take(k + 1)) =~= before);
                }
            }
        } else {
            proof {
                assert(sec2 + relation_items(m, model@.rels, rlist.take(k + 1)) =~= before);
            }
        }
        k = k + 1;
    }
    proof {
        assert(rlist.take(rels@.len() as int) =~= rlist);
    }
    if items.len() == 0 {
        String::from_str("{}")
    } else {
        let body = join_strings(&items, ",\n");
        let mut s = String::from_str("{\n");
        s.append(body.as_str());
        s.append("\n}");
        s
    }
}

} // verus!
