use ravencheck::ast::{BaseType, Expr, FunType, FunctionDef, Pattern, Program, Type};
use ravencheck::cex::defs::{decompose_body, print_definitions, try_print_definitions};

fn var(name: &str) -> Expr {
    Expr::Var(name.to_string())
}

fn call(func: &str, args: Vec<Expr>) -> Expr {
    Expr::Call { func: func.to_string(), args }
}

fn cons(name: &str, args: Vec<Expr>) -> Expr {
    Expr::Constructor { name: name.to_string(), args }
}

fn pat_cons(name: &str, args: Vec<Pattern>) -> Pattern {
    Pattern::Constructor { name: name.to_string(), args, arg_types: None }
}

fn pat_id(name: &str) -> Pattern {
    Pattern::Ident(name.to_string())
}

fn nat_sort() -> BaseType {
    BaseType::Custom("Nat".to_string())
}

fn signature(params: &[(&str, BaseType)], ret: BaseType) -> Type {
    let mut ty = Type::Base(ret);
    for (name, p) in params.iter().rev() {
        ty = Type::Arrow(FunType {
            param_name: name.to_string(),
            param_type: Box::new(Type::Base(p.deep_clone())),
            ret_type: Box::new(ty),
        });
    }
    ty
}

fn fun_def(params: &[(&str, BaseType)], ret: BaseType, body: Option<Expr>) -> FunctionDef {
    FunctionDef { signature: signature(params, ret), body, is_recursive: true }
}

/// match x { Z => y, S(x_prime) => S(add(x_prime, y)) }
fn add_body() -> Expr {
    Expr::Match {
        expr: Box::new(var("x")),
        arms: vec![
            (pat_cons("Nat::Z", vec![]), var("y")),
            (
                pat_cons("Nat::S", vec![pat_id("x_prime")]),
                cons("Nat::S", vec![call("add", vec![var("x_prime"), var("y")])]),
            ),
        ],
    }
}

/// match x { Z => Z, S(x_min) => match y { Z => x, S(y_min) => sub(x_min, y_min) } }
fn sub_body() -> Expr {
    Expr::Match {
        expr: Box::new(var("x")),
        arms: vec![
            (pat_cons("Nat::Z", vec![]), cons("Nat::Z", vec![])),
            (
                pat_cons("Nat::S", vec![pat_id("x_min")]),
                Expr::Match {
                    expr: Box::new(var("y")),
                    arms: vec![
                        (pat_cons("Nat::Z", vec![]), var("x")),
                        (
                            pat_cons("Nat::S", vec![pat_id("y_min")]),
                            call("sub", vec![var("x_min"), var("y_min")]),
                        ),
                    ],
                },
            ),
        ],
    }
}

fn line(width: usize, lhs: &str, rhs: &str) -> String {
    format!(";   {:<width$} = {}\n", lhs, rhs, width = width)
}

#[test]
fn decompose_flattens_nested_matches() {
    let branches = decompose_body(&sub_body()).unwrap();
    assert_eq!(branches.len(), 3);
    assert_eq!(branches[2].bindings.len(), 2);
    assert_eq!(branches[2].bindings[0].0, "x");
    assert_eq!(branches[2].bindings[1].0, "y");
    assert!(matches!(&branches[2].rhs, Expr::Call { func, .. } if func == "sub"));
}

#[test]
fn decompose_refuses_a_match_on_a_non_variable() {
    let body = Expr::Match {
        expr: Box::new(call("f", vec![var("x")])),
        arms: vec![(Pattern::Wildcard, var("y"))],
    };
    assert!(decompose_body(&body).is_none());
    let leaf = decompose_body(&var("y")).unwrap();
    assert_eq!(leaf.len(), 1);
    assert!(leaf[0].bindings.is_empty());
}

#[test]
fn definitions_block_for_nat_arithmetic() {
    let functions = vec![
        ("add".to_string(), fun_def(&[("x", nat_sort()), ("y", nat_sort())], nat_sort(), Some(add_body()))),
        ("sub".to_string(), fun_def(&[("x", nat_sort()), ("y", nat_sort())], nat_sort(), Some(sub_body()))),
    ];
    let program = Program { datatypes: vec![], functions, goals: vec![] };
    let funcs: Vec<String> = ["add", "sub"].iter().map(|s| s.to_string()).collect();

    let expected = String::from("; definitions:\n")
        + &line(23, "add(Z, y)", "y")
        + &line(23, "add(S(x_prime), y)", "S(add(x_prime, y))")
        + &line(23, "sub(Z, y)", "Z")
        + &line(23, "sub(S(x_min), Z)", "S(x_min)")
        + &line(23, "sub(S(x_min), S(y_min))", "sub(x_min, y_min)");
    assert_eq!(print_definitions(&program, &funcs), expected);
}

#[test]
fn guarded_branch_renders_as_inline_if() {
    let nlist = BaseType::Custom("NList".to_string());
    let count_body = Expr::Match {
        expr: Box::new(var("xs")),
        arms: vec![
            (pat_cons("NList::Nil", vec![]), cons("Nat::Z", vec![])),
            (
                pat_cons("NList::Cons", vec![pat_id("h"), pat_id("t")]),
                Expr::If {
                    cond: Box::new(call("eq_nat", vec![var("x"), var("h")])),
                    then_expr: Box::new(cons("Nat::S", vec![call("count", vec![var("x"), var("t")])])),
                    else_expr: Box::new(call("count", vec![var("x"), var("t")])),
                },
            ),
        ],
    };
    let functions = vec![
        ("count".to_string(), fun_def(&[("x", nat_sort()), ("xs", nlist)], nat_sort(), Some(count_body))),
        ("some_lemma".to_string(), fun_def(&[("n", nat_sort())], BaseType::Unit, Some(var("n")))),
        ("declared_fn".to_string(), fun_def(&[("n", nat_sort())], nat_sort(), None)),
    ];
    let program = Program { datatypes: vec![], functions, goals: vec![] };
    let funcs: Vec<String> = ["count", "some_lemma", "declared_fn"].iter().map(|s| s.to_string()).collect();

    let expected = String::from("; definitions:\n")
        + &line(20, "count(x, Nil)", "Z")
        + &line(20, "count(x, Cons(h, t))", "if eq_nat(x, h) then S(count(x, t)) else count(x, t)");
    assert_eq!(print_definitions(&program, &funcs), expected);
}

#[test]
fn definitions_are_empty_without_equations_and_refuse_unknown_names() {
    let functions = vec![("declared_fn".to_string(), fun_def(&[("n", nat_sort())], nat_sort(), None))];
    let program = Program { datatypes: vec![], functions, goals: vec![] };
    assert_eq!(print_definitions(&program, &vec!["declared_fn".to_string()]), String::new());
    assert_eq!(try_print_definitions(&program, &vec!["missing".to_string()]), None);
}

#[test]
fn definitions_list_names_case_insensitively() {
    let functions = vec![
        ("b".to_string(), fun_def(&[], nat_sort(), Some(cons("Nat::Z", vec![])))),
        ("A".to_string(), fun_def(&[], BaseType::Bool, Some(Expr::BoolConst(true)))),
    ];
    let program = Program { datatypes: vec![], functions, goals: vec![] };
    let funcs = vec!["b".to_string(), "A".to_string(), "b".to_string()];
    let expected = String::from("; definitions:\n") + &line(3, "A()", "true") + &line(3, "b()", "Z");
    assert_eq!(print_definitions(&program, &funcs), expected);
}
