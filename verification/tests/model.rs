use ravencheck::ast::{BaseType, FunType, FunctionDef, Program, Type};
use ravencheck::model::name::{name_elements, tags_only};
use ravencheck::model::print::camlstar_json;
use ravencheck::model::{declared_relations, Model, Table};
use ravencheck::smt::builder::render_sort;
use ravencheck::text::sanitize_id;

fn custom(name: &str) -> BaseType {
    BaseType::Custom(name.to_string())
}

fn s(x: &str) -> String {
    x.to_string()
}

fn empty_model() -> Model {
    Model { universes: Vec::new(), consts: Vec::new(), rels: Vec::new() }
}

fn holds(rows: Vec<Vec<String>>) -> Table {
    Table { entries: rows.into_iter().map(|r| (r, s("true"))).collect(), else_value: Some(s("false")) }
}

/// `enum Peano { Zero, Succ(Box<Peano>) }` and `enum Cell { Mk(Peano, bool) }`.
fn peano_cell_program() -> Program {
    Program {
        datatypes: vec![
            (s("Peano"), vec![(s("Zero"), vec![]), (s("Succ"), vec![custom("Peano")])]),
            (s("Cell"), vec![(s("Mk"), vec![custom("Peano"), BaseType::Bool])]),
        ],
        functions: vec![],
        goals: vec![],
    }
}

#[test]
fn constructors_name_elements_and_the_rest_is_junk() {
    let p = peano_cell_program();
    let peano = render_sort(&custom("Peano"));
    let cell = render_sort(&custom("Cell"));
    let e: Vec<String> = (0..4).map(|k| format!("{}!val!{}", peano, k)).collect();
    let c: Vec<String> = (0..2).map(|k| format!("{}!val!{}", cell, k)).collect();

    let mut m = empty_model();
    m.universes.push((peano.clone(), e.clone()));
    m.universes.push((cell.clone(), c.clone()));
    m.consts.push((sanitize_id("Peano::Zero"), e[0].clone()));
    m.rels.push((
        sanitize_id("Peano::Succ_rel"),
        holds(vec![vec![e[0].clone(), e[1].clone()], vec![e[1].clone(), e[2].clone()]]),
    ));
    m.rels.push((sanitize_id("Cell::Mk_rel"), holds(vec![vec![e[2].clone(), s("true"), c[0].clone()]])));

    let n = name_elements(&m, &p);
    assert_eq!(n.get(&e[0]), "Zero");
    assert_eq!(n.get(&e[1]), "Succ(Zero)");
    assert_eq!(n.get(&e[2]), "Succ(Succ(Zero))");
    assert_eq!(n.get(&e[3]), "peano!3");
    assert_eq!(n.get(&c[0]), "Mk(Succ(Succ(Zero)), true)");
    assert_eq!(n.get(&c[1]), "cell!1");
    assert_eq!(n.junk, vec![(s("Cell"), s("cell!1")), (s("Peano"), s("peano!3"))]);
}

#[test]
fn prints_universes_variables_and_relations_like_camlstar() {
    // `fn twice(n: Peano) -> Peano`
    let twice = FunctionDef {
        signature: Type::Arrow(FunType {
            param_name: s("n"),
            param_type: Box::new(Type::Base(custom("Peano"))),
            ret_type: Box::new(Type::Base(custom("Peano"))),
        }),
        body: None,
        is_recursive: false,
    };
    let program = Program {
        datatypes: vec![(s("Peano"), vec![(s("Zero"), vec![]), (s("Succ"), vec![custom("Peano")])])],
        functions: vec![(s("twice"), twice)],
        goals: vec![],
    };
    let peano = render_sort(&custom("Peano"));
    let e: Vec<String> = (0..3).map(|k| format!("{}!val!{}", peano, k)).collect();

    let mut m = empty_model();
    m.universes.push((peano.clone(), e.clone()));
    m.consts.push((sanitize_id("Peano::Zero"), e[0].clone()));
    m.consts.push((s("n"), e[1].clone()));
    m.rels.push((sanitize_id("Peano::Succ_rel"), holds(vec![vec![e[0].clone(), e[1].clone()]])));
    m.rels.push((s("twice_rel"), holds(vec![vec![e[1].clone(), e[2].clone()]])));

    let json = camlstar_json(&m, &program, &[(s("n"), custom("Peano")), (s("v_sub"), BaseType::Unit)]);
    let expected = "{\n  \"Peano\": [\"Zero\", \"Peano!1\", \"Peano!2\"],\n  \"n\": \"Peano!1\",\n  \"twice\": {\n    \"Peano!1\": \"Peano!2\"\n  },\n  \"Succ\": {\n    \"Zero\": \"Peano!1\"\n  }\n}";
    assert_eq!(json, expected);
}

#[test]
fn lookup_takes_the_listed_value_then_the_default() {
    let t = Table {
        entries: vec![(vec![s("a"), s("b")], s("true")), (vec![s("a"), s("b")], s("false")), (vec![s("b")], s("false"))],
        else_value: Some(s("false")),
    };
    assert_eq!(t.lookup(&[s("a"), s("b")]), Some(&s("true")));
    assert_eq!(t.lookup(&[s("b")]), Some(&s("false")));
    assert_eq!(t.lookup(&[s("c")]), Some(&s("false")));
    let open = Table { entries: vec![], else_value: None };
    assert_eq!(open.lookup(&[s("c")]), None);
}

#[test]
fn declared_relations_reads_each_declare_fun_line() {
    let query = "(set-logic ALL)\n  (declare-fun add_rel (UI_Nat UI_Nat UI_Nat) Bool)  \r\n(declare-const i UI_Nat)\n(declare-fun p () Bool)\n(declare-fun broken\n";
    let decls = declared_relations(query);
    assert_eq!(
        decls,
        vec![(s("add_rel"), vec![s("UI_Nat"), s("UI_Nat"), s("UI_Nat")]), (s("p"), vec![])]
    );
    assert_eq!(declared_relations(""), vec![]);
}

#[test]
fn tags_only_names_nullary_constructors_and_indexes_the_rest() {
    let p = peano_cell_program();
    let peano = render_sort(&custom("Peano"));
    let mut m = empty_model();
    m.universes.push((peano.clone(), vec![s("a!7"), s("b"), s("c!x")]));
    m.consts.push((sanitize_id("Peano::Zero"), s("b")));
    let n = tags_only(&m, &p);
    assert_eq!(n.get(&s("b")), "Zero");
    assert_eq!(n.get(&s("a!7")), "Peano!7");
    assert_eq!(n.get(&s("c!x")), "Peano!2");
    assert_eq!(n.get(&s("true")), "true");
    assert_eq!(n.get(&s("elsewhere")), "elsewhere");
    assert!(n.junk.is_empty());
}

#[test]
fn naming_needs_named_arguments_and_quotes_are_escaped() {
    // `Succ` of an element nothing names stays unnamed: junk.
    let program = Program {
        datatypes: vec![(s("Peano"), vec![(s("Zero"), vec![]), (s("Succ"), vec![custom("Peano")])])],
        functions: vec![],
        goals: vec![],
    };
    let peano = render_sort(&custom("Peano"));
    let mut m = empty_model();
    m.universes.push((peano.clone(), vec![s("x!1"), s("x!2")]));
    m.rels.push((sanitize_id("Peano::Succ_rel"), holds(vec![vec![s("x!1"), s("x!2")]])));
    let n = name_elements(&m, &program);
    assert_eq!(n.get(&s("x!1")), "peano!1");
    assert_eq!(n.get(&s("x!2")), "peano!2");
    assert_eq!(n.junk, vec![(s("Peano"), s("peano!1")), (s("Peano"), s("peano!2"))]);

    let json = camlstar_json(&m, &program, &[(s("q\"x"), custom("Peano"))]);
    assert_eq!(json, "{\n  \"Peano\": [\"Peano!1\", \"Peano!2\"],\n  \"Succ\": {\n    \"Peano!1\": \"Peano!2\"\n  }\n}");
    let mut m2 = empty_model();
    m2.consts.push((s("q\"x"), s("v\\1")));
    let json2 = camlstar_json(&m2, &program, &[(s("q\"x"), custom("Peano"))]);
    assert_eq!(json2, "{\n  \"q\\\"x\": \"v\\\\1\"\n}");
    assert_eq!(camlstar_json(&empty_model(), &program, &[]), "{}");
}

#[test]
fn white_space_is_what_char_is_whitespace_says() {
    for n in 0u32..0x3100 {
        let Some(c) = char::from_u32(n) else { continue };
        if c == '\n' {
            continue;
        }
        let query = format!("{c}(declare-fun r (A{c}B) Bool){c}");
        let decls = declared_relations(&query);
        if c.is_whitespace() {
            assert_eq!(decls, vec![(s("r"), vec![s("A"), s("B")])], "char {:?}", c);
        } else {
            assert!(decls.is_empty(), "char {:?}", c);
        }
    }
}

#[test]
fn true_rows_need_a_result_column() {
    use_rows_hold_results();
}

fn use_rows_hold_results() {
    let good = Model {
        universes: vec![],
        consts: vec![],
        rels: vec![(s("r"), Table { entries: vec![(vec![s("a"), s("b")], s("true")), (vec![], s("false"))], else_value: None })],
    };
    assert!(ravencheck::model::name::rows_hold_results(&good));
    let bad = Model {
        universes: vec![],
        consts: vec![],
        rels: vec![
            (s("r"), Table { entries: vec![(vec![s("a")], s("true"))], else_value: None }),
            (s("p"), Table { entries: vec![(vec![], s("true"))], else_value: None }),
        ],
    };
    assert!(!ravencheck::model::name::rows_hold_results(&bad));
}
