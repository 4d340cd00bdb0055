use ravencheck::ast::{BaseType, BinOp, Expr};
use ravencheck::cex::dissect::{dissect, Core};

fn var(name: &str) -> Expr {
    Expr::Var(name.to_string())
}

fn call(func: &str, args: Vec<Expr>) -> Expr {
    Expr::Call { func: func.to_string(), args }
}

fn cons(name: &str, args: Vec<Expr>) -> Expr {
    Expr::Constructor { name: name.to_string(), args }
}

fn binop(op: BinOp, left: Expr, right: Expr) -> Expr {
    Expr::BinOp { op, left: Box::new(left), right: Box::new(right) }
}

fn nat_sort() -> BaseType {
    BaseType::Custom("Nat".to_string())
}

fn forall_vc(binders: Vec<(&str, BaseType)>, body: Expr) -> Expr {
    Expr::Forall {
        binders: binders.into_iter().map(|(n, t)| (n.to_string(), t)).collect(),
        body: Box::new(body),
    }
}

fn is_path_condition(e: &Expr) -> bool {
    match e {
        Expr::BinOp { op: BinOp::Eq, left, right } => {
            matches!(&**left, Expr::Var(_)) && matches!(&**right, Expr::Constructor { .. })
        }
        _ => false,
    }
}

fn prop_09_vc6() -> Expr {
    let ih = binop(
        BinOp::Eq,
        call("sub", vec![call("sub", vec![var("i_prime"), var("j_prime")]), var("k")]),
        call("sub", vec![var("i_prime"), call("add", vec![var("j_prime"), var("k")])]),
    );
    let antecedent = binop(
        BinOp::And,
        binop(
            BinOp::And,
            binop(
                BinOp::And,
                binop(BinOp::Eq, var("i"), cons("Nat::S", vec![var("i_prime")])),
                binop(BinOp::Eq, var("j"), cons("Nat::S", vec![var("j_prime")])),
            ),
            ih,
        ),
        Expr::BoolConst(true),
    );
    let goal = binop(
        BinOp::Eq,
        call("sub", vec![call("sub", vec![var("i"), var("j")]), var("k")]),
        call("sub", vec![var("i"), call("add", vec![var("j"), var("k")])]),
    );
    forall_vc(
        vec![
            ("i", nat_sort()),
            ("k", nat_sort()),
            ("j", nat_sort()),
            ("i_prime", nat_sort()),
            ("j_prime", nat_sort()),
            ("_bind_3", BaseType::Unit),
            ("v_sub", BaseType::Unit),
        ],
        binop(BinOp::Implies, antecedent, goal),
    )
}

#[test]
fn dissects_branch_vc_with_hypothesis() {
    let parts = dissect(&prop_09_vc6());
    assert_eq!(parts.skolems.len(), 7);
    assert_eq!(parts.path_conds.len(), 2);
    assert!(is_path_condition(&parts.path_conds[0]));
    assert_eq!(parts.hypotheses.len(), 1);
    assert!(parts.hypotheses[0].gate.is_none());
    assert!(matches!(&parts.hypotheses[0].fact, Expr::BinOp { op: BinOp::Eq, .. }));
    assert!(parts.goal.assumptions.is_empty());
    assert!(matches!(&parts.goal.core, Core::Eq(lhs, _)
        if matches!(lhs, Expr::Call { func, .. } if func == "sub")));
}

#[test]
fn dissects_trivial_antecedent() {
    let goal = binop(
        BinOp::Eq,
        cons("Nat::S", vec![call("count", vec![var("n"), var("xs")])]),
        call("count", vec![var("n"), cons("NList::Cons", vec![var("n"), var("xs")])]),
    );
    let vc = forall_vc(
        vec![("n", nat_sort()), ("xs", BaseType::Custom("NList".to_string())), ("v_sub", BaseType::Unit)],
        binop(BinOp::Implies, Expr::BoolConst(true), goal),
    );

    let parts = dissect(&vc);
    assert!(parts.path_conds.is_empty());
    assert!(parts.hypotheses.is_empty());
    assert!(matches!(parts.goal.core, Core::Eq(_, _)));
}

#[test]
fn peels_implication_goal_into_assumptions() {
    let goal = binop(
        BinOp::Implies,
        call("le", vec![var("x"), var("y")]),
        binop(BinOp::Eq, call("max", vec![var("x"), var("y")]), var("y")),
    );
    let vc = forall_vc(vec![("x", nat_sort()), ("y", nat_sort())], binop(BinOp::Implies, Expr::BoolConst(true), goal));

    let parts = dissect(&vc);
    assert_eq!(parts.goal.assumptions.len(), 1);
    assert!(matches!(&parts.goal.assumptions[0], Expr::Call { func, .. } if func == "le"));
    assert!(matches!(parts.goal.core, Core::Eq(_, _)));
}

#[test]
fn conditional_context_fact_becomes_gated_hypothesis() {
    let gated = binop(
        BinOp::Implies,
        call("le", vec![var("a"), var("b")]),
        binop(BinOp::Eq, call("max", vec![var("a"), var("b")]), var("b")),
    );
    let goal = binop(BinOp::Eq, var("a"), var("b"));
    let vc = forall_vc(vec![("a", nat_sort()), ("b", nat_sort())], binop(BinOp::Implies, gated, goal));

    let parts = dissect(&vc);
    assert_eq!(parts.hypotheses.len(), 1);
    assert!(matches!(&parts.hypotheses[0].gate, Some(Expr::Call { func, .. }) if func == "le"));
}

#[test]
fn bare_predicate_goal_is_bool_core() {
    let vc = forall_vc(
        vec![("x", nat_sort())],
        binop(BinOp::Implies, Expr::BoolConst(true), call("eq_nat", vec![var("x"), var("x")])),
    );
    assert!(matches!(dissect(&vc).goal.core, Core::Bool(_)));
}

#[test]
fn unrecognized_goal_shape_falls_back_to_opaque() {
    let vc = forall_vc(
        vec![("x", nat_sort()), ("y", nat_sort())],
        binop(
            BinOp::Implies,
            Expr::BoolConst(true),
            binop(BinOp::Or, call("le", vec![var("x"), var("y")]), call("le", vec![var("y"), var("x")])),
        ),
    );
    assert!(matches!(dissect(&vc).goal.core, Core::Opaque(_)));
}

#[test]
fn nested_implications_peel_outermost_first() {
    let goal = binop(
        BinOp::Implies,
        var("p"),
        binop(BinOp::Implies, var("q"), var("r")),
    );
    let vc = forall_vc(vec![], binop(BinOp::Implies, Expr::BoolConst(true), goal));
    let parts = dissect(&vc);
    assert_eq!(parts.goal.assumptions.len(), 2);
    assert!(matches!(&parts.goal.assumptions[0], Expr::Var(x) if x == "p"));
    assert!(matches!(&parts.goal.assumptions[1], Expr::Var(x) if x == "q"));
    assert!(matches!(&parts.goal.core, Core::Bool(Expr::Var(x)) if x == "r"));
}
