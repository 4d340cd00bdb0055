use ravencheck::ast::Expr;
use ravencheck::cex::print::print_term;

fn var(name: &str) -> Expr {
    Expr::Var(name.to_string())
}

fn call(func: &str, args: Vec<Expr>) -> Expr {
    Expr::Call { func: func.to_string(), args }
}

fn cons(name: &str, args: Vec<Expr>) -> Expr {
    Expr::Constructor { name: name.to_string(), args }
}

#[test]
fn variable_prints_as_its_name() {
    assert_eq!(print_term(&var("i_prime")), "i_prime");
}

#[test]
fn bool_constants_print_as_smt_literals() {
    assert_eq!(print_term(&Expr::BoolConst(true)), "true");
    assert_eq!(print_term(&Expr::BoolConst(false)), "false");
}

#[test]
fn nested_calls_print_as_sexprs() {
    let term = call("sub", vec![call("sub", vec![var("i"), var("j")]), var("k")]);
    assert_eq!(print_term(&term), "(sub (sub i j) k)");
}

#[test]
fn nullary_constructor_prints_bare() {
    assert_eq!(print_term(&cons("Nat::Z", vec![])), "Z");
}

#[test]
fn constructor_strips_enum_prefix() {
    let term = cons("Nat::S", vec![call("add", vec![var("j_prime"), var("k")])]);
    assert_eq!(print_term(&term), "(S (add j_prime k))");
}

#[test]
fn multi_argument_constructor() {
    let term = cons(
        "Tree::Node",
        vec![call("mirror", vec![var("r")]), var("e"), call("mirror", vec![var("l")])],
    );
    assert_eq!(print_term(&term), "(Node (mirror r) e (mirror l))");
}

#[test]
fn constructor_without_enum_prefix_keeps_its_name() {
    assert_eq!(print_term(&cons("Leaf", vec![])), "Leaf");
    assert_eq!(print_term(&cons("A::B::C", vec![var("x")])), "(C x)");
}

// ----------------------------------------------------------------------
// print_declarations
// ----------------------------------------------------------------------

use ravencheck::ast::{BaseType, FunType, FunctionDef, Program, Type};
use ravencheck::cex::print::{print_declarations, try_print_declarations};

fn nat_sort() -> BaseType {
    BaseType::Custom("Nat".to_string())
}

fn signature(params: &[BaseType], ret: BaseType) -> Type {
    let mut ty = Type::Base(ret);
    for (i, p) in params.iter().enumerate().rev() {
        ty = Type::Arrow(FunType {
            param_name: format!("x{}", i),
            param_type: Box::new(Type::Base(p.deep_clone())),
            ret_type: Box::new(ty),
        });
    }
    ty
}

fn fun_def(params: &[BaseType], ret: BaseType) -> FunctionDef {
    FunctionDef { signature: signature(params, ret), body: None, is_recursive: true }
}

#[test]
fn declarations_for_nat_arithmetic() {
    let datatypes = vec![(
        "Nat".to_string(),
        vec![("Z".to_string(), vec![]), ("S".to_string(), vec![nat_sort()])],
    )];
    let functions = vec![
        ("add".to_string(), fun_def(&[nat_sort(), nat_sort()], nat_sort())),
        ("sub".to_string(), fun_def(&[nat_sort(), nat_sort()], nat_sort())),
    ];
    let program = Program { datatypes, functions, goals: vec![] };

    let goal_term = call("sub", vec![call("sub", vec![var("i"), var("j")]), var("k")]);
    let rhs_term = call("sub", vec![var("i"), call("add", vec![var("j"), var("k")])]);
    let inputs = vec![
        ("i".to_string(), nat_sort()),
        ("k".to_string(), nat_sort()),
        ("j".to_string(), nat_sort()),
        ("_bind_3".to_string(), BaseType::Unit),
        ("v_sub".to_string(), BaseType::Unit),
    ];

    let block = print_declarations(&program, &vec![goal_term, rhs_term], &inputs);
    assert_eq!(
        block,
        "(declare-sort Nat 0)\n\
         (declare-const Z Nat)\n\
         (declare-fun S (Nat) Nat)\n\
         (declare-fun add (Nat Nat) Nat)\n\
         (declare-fun sub (Nat Nat) Nat)\n\
         \n\
         (declare-const i Nat)\n\
         (declare-const k Nat)\n\
         (declare-const j Nat)\n"
    );
}

#[test]
fn declarations_include_uninterpreted_field_sorts() {
    let tree = || BaseType::Custom("Tree".to_string());
    let elem = || BaseType::Custom("Elem".to_string());
    let datatypes = vec![
        ("Nat".to_string(), vec![("Z".to_string(), vec![]), ("S".to_string(), vec![nat_sort()])]),
        (
            "Tree".to_string(),
            vec![("Leaf".to_string(), vec![]), ("Node".to_string(), vec![tree(), elem(), tree()])],
        ),
    ];
    let functions = vec![
        ("height".to_string(), fun_def(&[tree()], nat_sort())),
        ("mirror".to_string(), fun_def(&[tree()], tree())),
    ];
    let program = Program { datatypes, functions, goals: vec![] };

    let lhs = call("height", vec![call("mirror", vec![var("t")])]);
    let node = cons(
        "Tree::Node",
        vec![call("mirror", vec![var("r")]), var("e"), call("mirror", vec![var("l")])],
    );
    let inputs = vec![
        ("t".to_string(), tree()),
        ("l".to_string(), tree()),
        ("e".to_string(), elem()),
        ("r".to_string(), tree()),
    ];

    let block = print_declarations(&program, &vec![lhs, node], &inputs);
    assert_eq!(
        block,
        "(declare-sort Elem 0)\n\
         (declare-sort Nat 0)\n\
         (declare-sort Tree 0)\n\
         (declare-const Z Nat)\n\
         (declare-fun S (Nat) Nat)\n\
         (declare-const Leaf Tree)\n\
         (declare-fun Node (Tree Elem Tree) Tree)\n\
         (declare-fun height (Tree) Nat)\n\
         (declare-fun mirror (Tree) Tree)\n\
         \n\
         (declare-const t Tree)\n\
         (declare-const l Tree)\n\
         (declare-const e Elem)\n\
         (declare-const r Tree)\n"
    );
}

#[test]
fn reserved_sort_name_gets_underscore_and_note() {
    let list = || BaseType::Custom("List".to_string());
    let elem = || BaseType::Custom("Elem".to_string());
    let datatypes = vec![(
        "List".to_string(),
        vec![("Nil".to_string(), vec![]), ("Cons".to_string(), vec![elem(), list()])],
    )];
    let functions = vec![("app".to_string(), fun_def(&[list(), list()], list()))];
    let program = Program { datatypes, functions, goals: vec![] };

    let term = call("app", vec![var("x"), var("y")]);
    let inputs = vec![("x".to_string(), list()), ("h".to_string(), elem())];

    let block = print_declarations(&program, &vec![term], &inputs);
    assert_eq!(
        block,
        "(declare-sort Elem 0)\n\
         ; sort 'List' is written as 'List_' below (the name collides with a Z3 built-in)\n\
         (declare-sort List_ 0)\n\
         (declare-const Nil List_)\n\
         (declare-fun Cons (Elem List_) List_)\n\
         (declare-fun app (List_ List_) List_)\n\
         \n\
         (declare-const x List_)\n\
         (declare-const h Elem)\n"
    );
}

#[test]
fn declarations_refuse_a_non_term_or_an_unknown_function() {
    let program = Program { datatypes: vec![], functions: vec![], goals: vec![] };
    let unknown = call("nowhere", vec![var("x")]);
    assert!(try_print_declarations(&program, &vec![unknown], &vec![]).is_none());
    let not_a_term = Expr::Tuple(vec![var("x")]);
    assert!(try_print_declarations(&program, &vec![not_a_term], &vec![]).is_none());
}

#[test]
fn declarations_sort_names_case_insensitively_once_each() {
    let b = || BaseType::Custom("b".to_string());
    let a = || BaseType::Custom("A".to_string());
    let functions = vec![("f".to_string(), fun_def(&[b(), a(), b()], BaseType::Bool))];
    let program = Program { datatypes: vec![], functions, goals: vec![] };
    let term = call("f", vec![var("x"), var("y"), var("z")]);
    let block = print_declarations(&program, &vec![term.deep_clone(), term], &vec![]);
    assert_eq!(
        block,
        "(declare-sort A 0)\n(declare-sort b 0)\n(declare-fun f (b A b) Bool)\n\n"
    );
}
