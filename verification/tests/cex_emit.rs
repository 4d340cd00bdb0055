use ravencheck::ast::{BaseType, BinOp, Expr, FunType, FunctionDef, Goal, Pattern, Program, Type};
use ravencheck::cex::emit_text;

fn var(name: &str) -> Expr {
    Expr::Var(name.to_string())
}

fn call(func: &str, args: Vec<Expr>) -> Expr {
    Expr::Call { func: func.to_string(), args }
}

fn cons(name: &str, args: Vec<Expr>) -> Expr {
    Expr::Constructor { name: name.to_string(), args }
}

fn binop(op: BinOp, left: Expr, right: Expr) -> Expr {
    Expr::BinOp { op, left: Box::new(left), right: Box::new(right) }
}

fn nat_sort() -> BaseType {
    BaseType::Custom("Nat".to_string())
}

fn pred_program() -> Program {
    let body = Expr::Match {
        expr: Box::new(var("n")),
        arms: vec![
            (Pattern::Constructor { name: "Nat::Z".to_string(), args: vec![], arg_types: None }, cons("Nat::Z", vec![])),
            (
                Pattern::Constructor {
                    name: "Nat::S".to_string(),
                    args: vec![Pattern::Ident("m".to_string())],
                    arg_types: None,
                },
                var("m"),
            ),
        ],
    };
    let signature = Type::Arrow(FunType {
        param_name: "n".to_string(),
        param_type: Box::new(Type::Base(nat_sort())),
        ret_type: Box::new(Type::Base(nat_sort())),
    });
    Program {
        datatypes: vec![(
            "Nat".to_string(),
            vec![("Z".to_string(), vec![]), ("S".to_string(), vec![nat_sort()])],
        )],
        functions: vec![("f".to_string(), FunctionDef { signature, body: Some(body), is_recursive: false })],
        goals: vec![],
    }
}

fn pred_goal() -> Goal {
    let property = Expr::Forall {
        binders: vec![("x".to_string(), nat_sort()), ("y".to_string(), nat_sort())],
        body: Box::new(binop(
            BinOp::Implies,
            binop(BinOp::Eq, var("x"), cons("Nat::S", vec![var("y")])),
            binop(BinOp::Eq, call("f", vec![var("x")]), var("y")),
        )),
    };
    Goal {
        name: "pred_vc_2".to_string(),
        property,
        instantiations: vec![call("f", vec![var("x")]), cons("Nat::S", vec![var("y")])],
    }
}

#[test]
fn counterexample_file_for_a_branch_vc() {
    let text = emit_text(&pred_program(), &pred_goal()).unwrap();
    let expected = "; ravencheck counterexample\n\
                    ; lemma  : pred   [vc 2]\n\
                    ; goal   : f(x) == y\n\
                    ; branch : x = S(y)\n\
                    ;\n\
                    ; definitions:\n\
                    ;   f(Z)    = Z\n\
                    ;   f(S(m)) = m\n\
                    \n\
                    (declare-sort Nat 0)\n\
                    (declare-const Z Nat)\n\
                    (declare-fun S (Nat) Nat)\n\
                    (declare-fun f (Nat) Nat)\n\
                    \n\
                    (declare-const x Nat)\n\
                    (declare-const y Nat)\n\
                    \n\
                    (assert (= x (S y)))\n\
                    \n\
                    ; instantiated terms:\n\
                    ;   from the goal:\n\
                    ;     (f x)\n\
                    ;   from patterns:\n\
                    ;     (S y)\n\
                    \n\
                    (assert (distinct (f x) y))\n\
                    (check-sat)\n";
    assert_eq!(text, expected);
}

#[test]
fn implication_goal_asserts_its_assumptions() {
    let property = Expr::Forall {
        binders: vec![("a".to_string(), BaseType::Bool)],
        body: Box::new(binop(
            BinOp::Implies,
            Expr::BoolConst(true),
            binop(
                BinOp::Implies,
                Expr::UnOp { op: ravencheck::ast::UnOp::Not, expr: Box::new(binop(BinOp::Eq, var("a"), var("b"))) },
                call("p", vec![var("a")]),
            ),
        )),
    };
    let goal = Goal { name: "plain".to_string(), property, instantiations: vec![] };
    let program = Program { datatypes: vec![], functions: vec![], goals: vec![] };
    let text = emit_text(&program, &goal).unwrap();
    assert!(text.starts_with("; ravencheck counterexample\n; lemma  : plain\n; goal   : a != b ==> p(a)\n\n"));
    assert!(text.ends_with("(assert (not (= a b)))\n(assert (= (p a) false))\n(check-sat)\n"));
}

#[test]
fn emit_refuses_a_property_that_is_not_a_vc() {
    let goal = Goal { name: "g".to_string(), property: Expr::BoolConst(true), instantiations: vec![] };
    let program = Program { datatypes: vec![], functions: vec![], goals: vec![] };
    assert!(emit_text(&program, &goal).is_none());
}
