use ravencheck::api::{register_enum_syntax, register_val_syntax, RegisterError};
use ravencheck::ast::{BaseType, Program};
use ravencheck::syntax::{SynExpr, SynFields, SynFnArg, SynFnSig, SynLit, SynPat, SynStmt, SynType, SynVariant};

fn ty(name: &str) -> SynType {
    SynType::Path(vec![name.to_string()])
}

fn nat_variants() -> Vec<SynVariant> {
    vec![
        SynVariant { name: "Z".to_string(), fields: SynFields::Unit },
        SynVariant {
            name: "S".to_string(),
            fields: SynFields::Unnamed(vec![SynType::Applied { segs: vec!["Box".to_string()], args: vec![ty("Nat")] }]),
        },
    ]
}

fn is_z_sig() -> SynFnSig {
    SynFnSig {
        inputs: vec![SynFnArg::Typed { pat: SynPat::Ident("n".to_string()), ty: ty("Nat") }],
        output: Some(ty("bool")),
    }
}

fn block_of(e: SynExpr) -> SynExpr {
    SynExpr::Block(vec![SynStmt::Expr { expr: e, semi: false }])
}

#[test]
fn an_enum_is_registered_from_its_variants() {
    let mut program = Program::new();
    assert!(register_enum_syntax(&mut program, "Nat", &nat_variants()));
    assert_eq!(
        program.datatypes,
        vec![(
            "Nat".to_string(),
            vec![("Z".to_string(), vec![]), ("S".to_string(), vec![BaseType::Custom("Nat".to_string())])]
        )]
    );
    let named = vec![SynVariant { name: "P".to_string(), fields: SynFields::Named }];
    assert!(!register_enum_syntax(&mut program, "Pair", &named));
    assert_eq!(program.datatypes.len(), 1);
}

#[test]
fn a_function_is_registered_from_its_syntax() {
    let mut program = Program::new();
    assert!(register_enum_syntax(&mut program, "Nat", &nat_variants()));
    let body = block_of(SynExpr::Lit(SynLit::Bool(true)));
    assert_eq!(register_val_syntax(&mut program, "is_z", None, &is_z_sig(), &body, false), Ok(()));
    assert_eq!(program.functions.len(), 1);
    assert_eq!(program.functions[0].0, "is_z".to_string());
    assert!(program.goals.is_empty());
}

#[test]
fn each_refusal_names_its_reason() {
    let mut program = Program::new();
    assert!(register_enum_syntax(&mut program, "Nat", &nat_variants()));
    let body = block_of(SynExpr::Lit(SynLit::Bool(true)));
    let with_self = SynFnSig { inputs: vec![SynFnArg::Receiver], output: Some(ty("bool")) };
    assert_eq!(
        register_val_syntax(&mut program, "f", None, &with_self, &body, false),
        Err(RegisterError::Signature)
    );
    let bad_body = block_of(SynExpr::Macro { path: vec![], as_expr: None, as_closure: None });
    assert_eq!(
        register_val_syntax(&mut program, "g", None, &is_z_sig(), &bad_body, false),
        Err(RegisterError::Body)
    );
    assert!(program.functions.is_empty());
}

#[test]
fn unknown_constructors_and_ill_typed_bodies_are_refused() {
    let mut program = Program::new();
    assert!(register_enum_syntax(&mut program, "Nat", &nat_variants()));
    let scrutinee = SynExpr::Path(vec!["n".to_string()]);
    let unknown = SynPat::TupleStruct { path: vec!["Foo".to_string(), "Bar".to_string()], elems: vec![] };
    let body = block_of(SynExpr::Match {
        expr: Box::new(scrutinee),
        arms: vec![(unknown, SynExpr::Lit(SynLit::Bool(true)))],
    });
    assert_eq!(
        register_val_syntax(&mut program, "h", None, &is_z_sig(), &body, false),
        Err(RegisterError::Patterns)
    );
    assert!(program.functions.is_empty());
    let returns_nat = block_of(SynExpr::Path(vec!["n".to_string()]));
    assert_eq!(
        register_val_syntax(&mut program, "k", None, &is_z_sig(), &returns_nat, false),
        Err(RegisterError::Typing)
    );
}
