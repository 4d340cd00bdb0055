use ravencheck::anf::NameGenerator;
use ravencheck::ast::{BaseType, BinOp, Expr, Pattern, UnOp};
use ravencheck::env::TypeEnv;
use ravencheck::ast::Type;
use ravencheck::nnf::transform_expr;
use ravencheck::show::{expr_text, pattern_text};

fn var(x: &str) -> Expr {
    Expr::Var(x.to_string())
}

fn every_form() -> Expr {
    let pat = Pattern::Constructor {
        name: "Nat::S".to_string(),
        args: vec![Pattern::Ident("n".to_string()), Pattern::Wildcard],
        arg_types: Some(vec![BaseType::Custom("Nat".to_string()), BaseType::Tuple(vec![BaseType::Unit, BaseType::Bool])]),
    };
    let arms = vec![
        (pat, Expr::Tuple(vec![var("a"), Expr::BoolConst(false)])),
        (Pattern::Tuple(vec![]), Expr::Instantiate(Box::new(var("q\"uote")))),
    ];
    let body = Expr::If {
        cond: Box::new(Expr::UnOp { op: UnOp::Not, expr: Box::new(var("c")) }),
        then_expr: Box::new(Expr::Match { expr: Box::new(var("m")), arms }),
        else_expr: Box::new(Expr::ExistentialBindings(vec![(
            "w".to_string(),
            Expr::ApplyRel { relation: "r\\el".to_string(), args: vec![] },
        )])),
    };
    Expr::Forall {
        binders: vec![("x".to_string(), BaseType::Bool), ("y".to_string(), BaseType::Custom("Elem".to_string()))],
        body: Box::new(Expr::Exists {
            binders: vec![],
            body: Box::new(Expr::Let {
                pat: Pattern::Ident("z".to_string()),
                bound_expr: Box::new(Expr::Call {
                    func: "f".to_string(),
                    args: vec![Expr::Constructor { name: "Nat::Z".to_string(), args: vec![] }, var("x")],
                }),
                body: Box::new(Expr::BinOp { op: BinOp::Implies, left: Box::new(var("z")), right: Box::new(body) }),
            }),
        }),
    }
}

#[test]
fn expression_text_is_the_derived_debug_text() {
    let e = every_form();
    assert_eq!(expr_text(&e), format!("{:?}", e));
}

#[test]
fn simple_expression_text() {
    let e = Expr::BinOp { op: BinOp::Eq, left: Box::new(var("a")), right: Box::new(Expr::BoolConst(true)) };
    assert_eq!(expr_text(&e), "BinOp { op: Eq, left: Var(\"a\"), right: BoolConst(true) }");
}

#[test]
fn pattern_text_is_the_derived_debug_text() {
    let p = Pattern::Constructor { name: "T::C".to_string(), args: vec![], arg_types: None };
    assert_eq!(pattern_text(&p), format!("{:?}", p));
    assert_eq!(pattern_text(&p), "Constructor { name: \"T::C\", args: [], arg_types: None }");
}

#[test]
fn negation_reaches_into_let_bound_values_and_arguments() {
    // !(a && b) inside a let's bound value and a call argument
    let neg = Expr::UnOp {
        op: UnOp::Not,
        expr: Box::new(Expr::BinOp { op: BinOp::And, left: Box::new(var("a")), right: Box::new(var("b")) }),
    };
    let neg2 = Expr::UnOp {
        op: UnOp::Not,
        expr: Box::new(Expr::BinOp { op: BinOp::Implies, left: Box::new(var("c")), right: Box::new(var("d")) }),
    };
    let e = Expr::Let {
        pat: Pattern::Ident("v".to_string()),
        bound_expr: Box::new(neg),
        body: Box::new(Expr::Call { func: "P".to_string(), args: vec![neg2] }),
    };
    let not = |x: &str| Expr::UnOp { op: UnOp::Not, expr: Box::new(var(x)) };
    let expected = Expr::Let {
        pat: Pattern::Ident("v".to_string()),
        bound_expr: Box::new(Expr::BinOp { op: BinOp::Or, left: Box::new(not("a")), right: Box::new(not("b")) }),
        body: Box::new(Expr::Call {
            func: "P".to_string(),
            args: vec![Expr::BinOp { op: BinOp::And, left: Box::new(var("c")), right: Box::new(not("d")) }],
        }),
    };
    assert_eq!(transform_expr(e), expected);
}

#[test]
fn fresh_names_never_repeat() {
    let mut g = NameGenerator::new();
    let mut seen: Vec<String> = Vec::new();
    for _ in 0..25 {
        let n = g.fresh();
        assert!(!seen.contains(&n));
        seen.push(n);
    }
    assert_eq!(seen[0], "anf_0");
    assert_eq!(seen[10], "anf_10");
}

#[test]
fn closing_a_scope_restores_the_environment() {
    let mut env = TypeEnv::new();
    env.insert_var("x".to_string(), Type::Base(BaseType::Bool));
    let before_ctx = env.to_logical_context();
    let before_inst = env.get_active_instantiations();
    env.push_scope();
    env.insert_var("x".to_string(), Type::Base(BaseType::Unit));
    env.add_path_condition(var("c"));
    env.add_instantiation(var("i"));
    assert_eq!(env.lookup_var(&"x".to_string()), Some(&Type::Base(BaseType::Unit)));
    env.pop_scope();
    assert_eq!(env.lookup_var(&"x".to_string()), Some(&Type::Base(BaseType::Bool)));
    assert_eq!(env.to_logical_context(), before_ctx);
    assert_eq!(env.get_active_instantiations(), before_inst);
}

#[test]
fn with_scope_gives_the_inner_binding_and_restores_the_outer_one() {
    let mut env = TypeEnv::new();
    env.insert_var("x".to_string(), Type::Base(BaseType::Bool));
    let before_ctx = env.to_logical_context();
    let before_inst = env.get_active_instantiations();
    let inner = env.with_scope(|e: &mut TypeEnv| {
        e.insert_var("x".to_string(), Type::Base(BaseType::Unit));
        e.add_path_condition(var("c"));
        e.add_instantiation(var("i"));
        e.lookup_var(&"x".to_string()).map(|t| t.deep_clone())
    });
    assert_eq!(inner, Some(Type::Base(BaseType::Unit)));
    assert_eq!(env.lookup_var(&"x".to_string()), Some(&Type::Base(BaseType::Bool)));
    assert_eq!(env.to_logical_context(), before_ctx);
    assert_eq!(env.get_active_instantiations(), before_inst);
    let again = env.scoped_lookup("x".to_string(), Type::Base(BaseType::Unit), var("c"), var("i"));
    assert_eq!(again, Some(Type::Base(BaseType::Unit)));
    assert_eq!(env.lookup_var(&"x".to_string()), Some(&Type::Base(BaseType::Bool)));
}
