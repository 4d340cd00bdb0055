use ravencheck::ast::{BaseType, BinOp, Expr, RefinedType, Type};
use ravencheck::env::TypeEnv;
use ravencheck::typechecking::{generate_subtyping_vc, same_shape};

fn var(x: &str) -> Expr {
    Expr::Var(x.to_string())
}

#[test]
fn a_refinement_gives_one_verification_condition() {
    let b = BaseType::Bool;
    let refined = Type::Refined(RefinedType {
        bound_var: "v".to_string(),
        base: BaseType::Bool,
        predicate: Expr::BinOp { op: BinOp::Eq, left: Box::new(var("v")), right: Box::new(Expr::BoolConst(true)) },
    });
    let mut vcs = Vec::new();
    generate_subtyping_vc(&mut TypeEnv::new(), &Type::Base(b), &refined, &mut vcs);
    assert_eq!(vcs.len(), 1);
    assert_eq!(
        vcs[0].property,
        Expr::Forall {
            binders: vec![("v_sub".to_string(), BaseType::Bool)],
            body: Box::new(Expr::BinOp {
                op: BinOp::Implies,
                left: Box::new(Expr::BoolConst(true)),
                right: Box::new(Expr::BinOp { op: BinOp::Eq, left: Box::new(var("v_sub")), right: Box::new(Expr::BoolConst(true)) }),
            }),
        }
    );
    assert!(vcs[0].instantiations.is_empty());
    let mut none = Vec::new();
    generate_subtyping_vc(&mut TypeEnv::new(), &Type::Base(BaseType::Bool), &Type::Base(BaseType::Bool), &mut none);
    assert!(none.is_empty());
}

#[test]
fn different_sorts_have_different_shapes() {
    assert!(!same_shape(&Type::Base(BaseType::Bool), &Type::Base(BaseType::Custom("Nat".to_string()))));
    assert!(same_shape(&Type::Base(BaseType::Bool), &Type::Base(BaseType::Bool)));
}
