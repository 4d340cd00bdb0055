use ravencheck::ast::{BaseType, BinOp, Expr, Pattern, Type};
use ravencheck::parser::{
    convert_base_type, convert_expr, convert_pattern, convert_signature, RefinedArg, SpecLemma, SpecReturn,
    SpecReturnType, SpecSignature,
};
use ravencheck::syntax::{SynBinOp, SynClosure, SynExpr, SynLit, SynPat, SynStmt, SynType};

fn path(segs: &[&str]) -> SynExpr {
    SynExpr::Path(segs.iter().map(|s| s.to_string()).collect())
}

fn ty(name: &str) -> SynType {
    SynType::Path(vec![name.to_string()])
}

fn call(segs: &[&str], args: Vec<SynExpr>) -> SynExpr {
    SynExpr::Call { func: Box::new(path(segs)), args }
}

#[test]
fn base_types_by_their_last_segment() {
    assert_eq!(convert_base_type(&ty("bool")), Some(BaseType::Bool));
    assert_eq!(convert_base_type(&ty("Unit")), Some(BaseType::Unit));
    assert_eq!(convert_base_type(&SynType::Tuple(vec![])), Some(BaseType::Unit));
    assert_eq!(
        convert_base_type(&SynType::Path(vec!["crate".to_string(), "Nat".to_string()])),
        Some(BaseType::Custom("Nat".to_string()))
    );
    assert_eq!(convert_base_type(&SynType::Other), None);
}

#[test]
fn arithmetic_becomes_calls_and_equality_stays_logical() {
    let sum = SynExpr::Binary { op: SynBinOp::Add, left: Box::new(path(&["a"])), right: Box::new(path(&["b"])) };
    assert_eq!(
        convert_expr(&sum),
        Some(Expr::Call { func: "add".to_string(), args: vec![Expr::Var("a".to_string()), Expr::Var("b".to_string())] })
    );
    let eq = SynExpr::Binary { op: SynBinOp::Eq, left: Box::new(path(&["a"])), right: Box::new(path(&["Nat", "Z"])) };
    assert_eq!(
        convert_expr(&eq),
        Some(Expr::BinOp {
            op: BinOp::Eq,
            left: Box::new(Expr::Var("a".to_string())),
            right: Box::new(Expr::Constructor { name: "Nat::Z".to_string(), args: vec![] }),
        })
    );
}

#[test]
fn box_new_clone_and_implies_are_read_through() {
    let boxed = call(&["Box", "new"], vec![SynExpr::MethodCall { receiver: Box::new(path(&["x"])), method: "clone".to_string() }]);
    assert_eq!(convert_expr(&boxed), Some(Expr::Var("x".to_string())));
    let imp = call(&["implies"], vec![path(&["p"]), path(&["q"])]);
    assert_eq!(
        convert_expr(&imp),
        Some(Expr::BinOp {
            op: BinOp::Implies,
            left: Box::new(Expr::Var("p".to_string())),
            right: Box::new(Expr::Var("q".to_string())),
        })
    );
    let ctor = call(&["Cons"], vec![path(&["h"])]);
    assert_eq!(
        convert_expr(&ctor),
        Some(Expr::Constructor { name: "Cons".to_string(), args: vec![Expr::Var("h".to_string())] })
    );
}

#[test]
fn quantifier_calls_need_typed_names() {
    let closure = SynClosure {
        inputs: vec![SynPat::Typed { pat: Box::new(SynPat::Ident("n".to_string())), ty: ty("Nat") }],
        body: Box::new(SynExpr::Lit(SynLit::Bool(true))),
    };
    assert_eq!(
        convert_expr(&call(&["forall"], vec![SynExpr::Closure(closure)])),
        Some(Expr::Forall {
            binders: vec![("n".to_string(), BaseType::Custom("Nat".to_string()))],
            body: Box::new(Expr::BoolConst(true)),
        })
    );
    let untyped = SynClosure { inputs: vec![SynPat::Ident("n".to_string())], body: Box::new(path(&["n"])) };
    assert_eq!(
        convert_expr(&call(&["exists"], vec![SynExpr::Closure(untyped)])),
        Some(Expr::Var("missing_type_annotation".to_string()))
    );
}

#[test]
fn blocks_chain_instantiations_and_refuse_let() {
    let block = SynExpr::Block(vec![
        SynStmt::Macro { path: vec!["instantiate".to_string()], tokens: Some(call(&["f"], vec![path(&["x"])])) },
        SynStmt::Expr { expr: path(&["y"]), semi: false },
    ]);
    let expected = Expr::Let {
        pat: Pattern::Wildcard,
        bound_expr: Box::new(Expr::Instantiate(Box::new(Expr::Call {
            func: "f".to_string(),
            args: vec![Expr::Var("x".to_string())],
        }))),
        body: Box::new(Expr::Var("y".to_string())),
    };
    assert_eq!(convert_expr(&block), Some(expected));
    let with_let = SynExpr::Block(vec![SynStmt::Local, SynStmt::Expr { expr: path(&["y"]), semi: false }]);
    assert_eq!(convert_expr(&with_let), None);
    assert_eq!(convert_expr(&SynExpr::Block(vec![])), Some(Expr::Tuple(vec![])));
}

#[test]
fn unsupported_forms_become_named_variables() {
    assert_eq!(
        convert_expr(&SynExpr::MethodCall { receiver: Box::new(path(&["x"])), method: "len".to_string() }),
        Some(Expr::Var("unsupported_method_len".to_string()))
    );
    assert_eq!(
        convert_expr(&SynExpr::Lit(SynLit::Other("Int(3)".to_string()))),
        Some(Expr::Var("unsupported_literal_Int(3)".to_string()))
    );
    assert_eq!(convert_expr(&SynExpr::Other), Some(Expr::Var("unsupported_expression".to_string())));
}

#[test]
fn patterns_join_their_paths() {
    let p = SynPat::TupleStruct {
        path: vec!["Nat".to_string(), "S".to_string()],
        elems: vec![SynPat::Ident("m".to_string()), SynPat::Wild],
    };
    assert_eq!(
        convert_pattern(&p),
        Some(Pattern::Constructor {
            name: "Nat::S".to_string(),
            args: vec![Pattern::Ident("m".to_string()), Pattern::Wildcard],
            arg_types: None,
        })
    );
    assert_eq!(convert_pattern(&SynPat::Other), None);
}

#[test]
fn lemma_requires_refines_the_last_parameter() {
    let spec = SpecSignature {
        inputs: vec![
            RefinedArg { name: "a".to_string(), ty: ty("Nat"), refinement: None },
            RefinedArg { name: "b".to_string(), ty: ty("Nat"), refinement: None },
        ],
        ret: SpecReturn::Lemma(SpecLemma { requires: Some(path(&["p"])), ensures: path(&["q"]) }),
    };
    let t = convert_signature(spec).unwrap();
    match t {
        Type::Arrow(f) => {
            assert_eq!(f.param_name, "a");
            assert_eq!(*f.param_type, Type::Base(BaseType::Custom("Nat".to_string())));
            match *f.ret_type {
                Type::Arrow(g) => {
                    assert_eq!(g.param_name, "b");
                    match *g.param_type {
                        Type::Refined(r) => {
                            assert_eq!(r.bound_var, "b");
                            assert_eq!(r.predicate, Expr::Var("p".to_string()));
                        },
                        other => panic!("unexpected {:?}", other),
                    }
                    match *g.ret_type {
                        Type::Refined(r) => {
                            assert_eq!(r.bound_var, "_ret");
                            assert_eq!(r.base, BaseType::Unit);
                            assert_eq!(r.predicate, Expr::Var("q".to_string()));
                        },
                        other => panic!("unexpected {:?}", other),
                    }
                },
                other => panic!("unexpected {:?}", other),
            }
        },
        other => panic!("unexpected {:?}", other),
    }
    let no_params = SpecSignature {
        inputs: vec![],
        ret: SpecReturn::Lemma(SpecLemma { requires: Some(path(&["p"])), ensures: path(&["q"]) }),
    };
    assert!(convert_signature(no_params).is_none());
    let refined_ret = SpecSignature {
        inputs: vec![],
        ret: SpecReturn::Type(SpecReturnType { bind: None, ty: ty("Nat"), refinement: Some(path(&["p"])) }),
    };
    assert!(convert_signature(refined_ret).is_none());
}

use ravencheck::parser::{convert_enum, lemma_parts, signature_of_fn};
use ravencheck::syntax::{SynFields, SynFnArg, SynFnSig, SynVariant};

#[test]
fn enum_fields_read_through_box() {
    let variants = vec![
        SynVariant { name: "Z".to_string(), fields: SynFields::Unit },
        SynVariant {
            name: "S".to_string(),
            fields: SynFields::Unnamed(vec![SynType::Applied { segs: vec!["Box".to_string()], args: vec![ty("Nat")] }]),
        },
    ];
    assert_eq!(
        convert_enum(&variants),
        Some(vec![
            ("Z".to_string(), vec![]),
            ("S".to_string(), vec![BaseType::Custom("Nat".to_string())]),
        ])
    );
    let named = vec![SynVariant { name: "P".to_string(), fields: SynFields::Named }];
    assert_eq!(convert_enum(&named), None);
}

#[test]
fn a_plain_signature_gives_plain_arrows() {
    let sig = SynFnSig {
        inputs: vec![SynFnArg::Typed { pat: SynPat::Ident("x".to_string()), ty: ty("Nat") }],
        output: None,
    };
    assert_eq!(
        signature_of_fn(&sig),
        Some(Type::Arrow(ravencheck::ast::FunType {
            param_name: "x".to_string(),
            param_type: Box::new(Type::Base(BaseType::Custom("Nat".to_string()))),
            ret_type: Box::new(Type::Base(BaseType::Unit)),
        }))
    );
    let with_self = SynFnSig { inputs: vec![SynFnArg::Receiver], output: Some(ty("bool")) };
    assert_eq!(signature_of_fn(&with_self), None);
}

#[test]
fn lemma_parts_take_requires_and_ensures() {
    let parts = vec![call(&["requires"], vec![path(&["p"])]), path(&["q"])];
    let lemma = lemma_parts(parts).unwrap();
    assert!(matches!(lemma.requires, Some(SynExpr::Path(ref s)) if s == &vec!["p".to_string()]));
    assert!(matches!(lemma.ensures, SynExpr::Path(ref s) if s == &vec!["q".to_string()]));
    assert!(lemma_parts(vec![call(&["requires"], vec![path(&["p"])])]).is_none());
}
