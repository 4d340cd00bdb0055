use ravencheck::api::{register_declare, register_enum, register_lemma, register_val, RegisterError};
use ravencheck::ast::{BaseType, Program};
use ravencheck::sigtext::read_signature;
use ravencheck::source::{parse_expr_text, parse_item_fn, parse_type_text};
use ravencheck::syntax::{SynExpr, SynType};

fn nat_program() -> Program {
    let mut program = Program::new();
    assert_eq!(register_enum(&mut program, "Nat", "enum Nat { Z, S(Box<Nat>) }"), Ok(()));
    program
}

#[test]
fn an_enum_is_registered_from_its_text() {
    let program = nat_program();
    assert_eq!(
        program.datatypes,
        vec![(
            "Nat".to_string(),
            vec![("Z".to_string(), vec![]), ("S".to_string(), vec![BaseType::Custom("Nat".to_string())])]
        )]
    );
    let mut p = Program::new();
    assert_eq!(register_enum(&mut p, "Bad", "enum Bad {"), Err(RegisterError::Parse));
    assert_eq!(register_enum(&mut p, "Pair", "enum Pair { P { a: bool } }"), Err(RegisterError::Fields));
    assert!(p.datatypes.is_empty());
}

#[test]
fn a_function_is_registered_from_its_text() {
    let mut program = nat_program();
    assert_eq!(register_val(&mut program, "is_z", None, "fn is_z(n: Nat) -> bool { true }", false), Ok(()));
    assert_eq!(
        register_val(&mut program, "is_z2", Some("(n: Nat) -> bool"), "fn is_z2(n: Nat) -> bool { true }", false),
        Ok(())
    );
    assert_eq!(program.functions.len(), 2);
    assert_eq!(
        register_lemma(&mut program, "l", Some("() -> Lemma(ensures(true))"), "fn l() { }", false),
        Ok(())
    );
}

#[test]
fn texts_that_do_not_read_are_parse_errors() {
    let mut program = nat_program();
    assert_eq!(register_val(&mut program, "f", None, "fn f(", false), Err(RegisterError::Parse));
    assert_eq!(
        register_val(&mut program, "g", Some("n: Nat -> bool"), "fn g(n: Nat) -> bool { true }", false),
        Err(RegisterError::Parse)
    );
    assert_eq!(
        register_val(&mut program, "h", Some("(n: Nat{ ) ) -> bool"), "fn h(n: Nat) -> bool { true }", false),
        Err(RegisterError::Parse)
    );
    assert!(program.functions.is_empty());
    assert!(register_declare(&mut program, "d", "fn d(x: Nat) -> Nat { x }"));
    assert!(!register_declare(&mut program, "d", "not a function"));
}

#[test]
fn the_pieces_read_as_rust_syntax() {
    assert!(matches!(parse_type_text("crate::Nat"), Some(SynType::Path(ref s)) if s == &vec!["crate".to_string(), "Nat".to_string()]));
    assert!(matches!(parse_expr_text("x"), Some(SynExpr::Path(_))));
    assert!(parse_expr_text("x +").is_none());
    assert!(parse_item_fn("fn f() {}").is_some());
    let sig = read_signature("(x: Nat{ le(x, x) }) -> r: bool").unwrap();
    assert_eq!(sig.inputs.len(), 1);
    assert_eq!(sig.inputs[0].name, "x");
    assert!(sig.inputs[0].refinement.is_some());
    assert!(read_signature("(x: Nat) -> Lemma(requires(p))").is_none());
}
