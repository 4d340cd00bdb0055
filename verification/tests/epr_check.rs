use ravencheck::ast::{BaseType, Expr, FunType, FunctionDef, Type};
use ravencheck::epr_check::{check_for_cycles, render_cycle};

fn sort(name: &str) -> BaseType {
    BaseType::Custom(name.to_string())
}

fn all_of(name: &str, s: BaseType, body: Expr) -> Expr {
    Expr::Forall { binders: vec![(name.to_string(), s)], body: Box::new(body) }
}

fn some_of(name: &str, s: BaseType, body: Expr) -> Expr {
    Expr::Exists { binders: vec![(name.to_string(), s)], body: Box::new(body) }
}

fn truth() -> Expr {
    Expr::BoolConst(true)
}

#[test]
fn acyclic_sorts_pass() {
    let goal = all_of("p", sort("Person"), some_of("d", sort("Dog"), truth()));
    assert!(check_for_cycles(&vec![goal], &vec![]).is_ok());
}

#[test]
fn two_axioms_together_close_a_cycle() {
    let a = all_of("p", sort("Person"), some_of("d", sort("Dog"), truth()));
    let b = all_of("d", sort("Dog"), some_of("p", sort("Person"), truth()));
    let def = FunctionDef { signature: Type::Base(BaseType::Bool), body: Some(b), is_recursive: false };
    let r = check_for_cycles(&vec![a], &vec![("axiom_b".to_string(), def)]);
    let cycles = r.unwrap_err();
    assert_eq!(cycles.len(), 1);
    assert_eq!(cycles[0].len(), 2);
    assert!(cycles[0].contains(&sort("Person")));
    assert!(cycles[0].contains(&sort("Dog")));
}

#[test]
fn a_self_loop_is_a_cycle() {
    let goal = all_of("n", sort("Nat"), some_of("m", sort("Nat"), truth()));
    let cycles = check_for_cycles(&vec![goal], &vec![]).unwrap_err();
    assert_eq!(cycles, vec![vec![sort("Nat")]]);
}

#[test]
fn exists_outside_forall_adds_no_edge() {
    let goal = some_of("m", sort("Nat"), all_of("n", sort("Nat"), truth()));
    let unused = FunctionDef {
        signature: Type::Arrow(FunType {
            param_name: "x".to_string(),
            param_type: Box::new(Type::Base(sort("Nat"))),
            ret_type: Box::new(Type::Base(sort("Nat"))),
        }),
        body: None,
        is_recursive: false,
    };
    assert!(check_for_cycles(&vec![goal], &vec![("f".to_string(), unused)]).is_ok());
}

#[test]
fn cycles_render_for_messages() {
    assert_eq!(render_cycle(&vec![sort("Nat")]), "self-loop ⤷ Nat ⤴");
    assert_eq!(render_cycle(&vec![sort("Person"), sort("Dog")]), "⤷ Person → Dog ⤴");
    assert_eq!(
        render_cycle(&vec![BaseType::Tuple(vec![sort("A"), BaseType::Bool]), BaseType::Unit]),
        "⤷ (A, Bool) → Unit ⤴"
    );
}

#[test]
fn a_self_loop_is_reported_once() {
    let goal = all_of("x", sort("Nat"), some_of("y", sort("Nat"), Expr::Var("p".to_string())));
    assert_eq!(check_for_cycles(&vec![goal], &vec![]), Err(vec![vec![sort("Nat")]]));
    let other = all_of("x", sort("Nat"), some_of("y", sort("Elem"), Expr::Var("p".to_string())));
    assert_eq!(check_for_cycles(&vec![other], &vec![]), Ok(()));
}

#[test]
fn a_cycle_that_another_leads_to_comes_first() {
    let p = || Expr::Var("p".to_string());
    let goals = vec![
        all_of("x", sort("A"), some_of("y", sort("A"), p())),
        all_of("x", sort("A"), some_of("y", sort("B"), p())),
        all_of("x", sort("B"), some_of("y", sort("B"), p())),
    ];
    assert_eq!(check_for_cycles(&goals, &vec![]), Err(vec![vec![sort("B")], vec![sort("A")]]));
}
