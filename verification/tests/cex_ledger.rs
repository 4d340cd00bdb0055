use ravencheck::ast::{BaseType, BinOp, Expr};
use ravencheck::cex::dissect::dissect;
use ravencheck::cex::ledger::print_ledger;

fn var(name: &str) -> Expr {
    Expr::Var(name.to_string())
}

fn call(func: &str, args: Vec<Expr>) -> Expr {
    Expr::Call { func: func.to_string(), args }
}

fn cons(name: &str, args: Vec<Expr>) -> Expr {
    Expr::Constructor { name: name.to_string(), args }
}

fn binop(op: BinOp, left: Expr, right: Expr) -> Expr {
    Expr::BinOp { op, left: Box::new(left), right: Box::new(right) }
}

fn prop_09_vc6() -> Expr {
    let nat_sort = || BaseType::Custom("Nat".to_string());
    let ih = binop(
        BinOp::Eq,
        call("sub", vec![call("sub", vec![var("i_prime"), var("j_prime")]), var("k")]),
        call("sub", vec![var("i_prime"), call("add", vec![var("j_prime"), var("k")])]),
    );
    let antecedent = binop(
        BinOp::And,
        binop(
            BinOp::And,
            binop(BinOp::Eq, var("i"), cons("Nat::S", vec![var("i_prime")])),
            binop(BinOp::Eq, var("j"), cons("Nat::S", vec![var("j_prime")])),
        ),
        ih,
    );
    let goal = binop(
        BinOp::Eq,
        call("sub", vec![call("sub", vec![var("i"), var("j")]), var("k")]),
        call("sub", vec![var("i"), call("add", vec![var("j"), var("k")])]),
    );
    Expr::Forall {
        binders: vec![
            ("i".to_string(), nat_sort()),
            ("k".to_string(), nat_sort()),
            ("j".to_string(), nat_sort()),
            ("i_prime".to_string(), nat_sort()),
            ("j_prime".to_string(), nat_sort()),
        ],
        body: Box::new(binop(BinOp::Implies, antecedent, goal)),
    }
}

#[test]
fn partitions_terms_by_origin() {
    let parts = dissect(&prop_09_vc6());
    let instantiations = vec![
        call("sub", vec![var("i"), var("j")]),
        call("sub", vec![call("sub", vec![var("i"), var("j")]), var("k")]),
        call("add", vec![var("j"), var("k")]),
        call("sub", vec![var("i"), call("add", vec![var("j"), var("k")])]),
        call("sub", vec![var("i_prime"), var("j_prime")]),
        call("sub", vec![call("sub", vec![var("i_prime"), var("j_prime")]), var("k")]),
        call("add", vec![var("j_prime"), var("k")]),
        call("sub", vec![var("i_prime"), call("add", vec![var("j_prime"), var("k")])]),
        cons("Nat::S", vec![var("i_prime")]),
        cons("Nat::S", vec![var("j_prime")]),
        cons("Nat::S", vec![call("add", vec![var("j_prime"), var("k")])]),
    ];

    assert_eq!(
        print_ledger(&parts, &instantiations),
        "; instantiated terms:\n\
         ;   from the goal:\n\
         ;     (sub i j)   (sub (sub i j) k)   (add j k)   (sub i (add j k))\n\
         ;   from the hypothesis (sub (sub i_prime j_prime) k) == (sub i_prime (add j_prime k)):\n\
         ;     (sub i_prime j_prime)   (sub (sub i_prime j_prime) k)   (add j_prime k)   (sub i_prime (add j_prime k))\n\
         ;   from patterns:\n\
         ;     (S i_prime)   (S j_prime)\n\
         ;   user hints (instantiate!):\n\
         ;     (S (add j_prime k))\n"
    );
}

#[test]
fn empty_groups_are_omitted() {
    let goal = binop(
        BinOp::Eq,
        cons("Nat::S", vec![call("count", vec![var("n"), var("xs")])]),
        call("count", vec![var("n"), cons("NList::Cons", vec![var("n"), var("xs")])]),
    );
    let vc = Expr::Forall {
        binders: vec![("n".to_string(), BaseType::Custom("Nat".to_string()))],
        body: Box::new(binop(BinOp::Implies, Expr::BoolConst(true), goal)),
    };
    let parts = dissect(&vc);
    let instantiations = vec![
        call("count", vec![var("n"), var("xs")]),
        cons("Nat::S", vec![call("count", vec![var("n"), var("xs")])]),
        cons("NList::Cons", vec![var("n"), var("xs")]),
    ];

    let ledger = print_ledger(&parts, &instantiations);
    assert!(ledger.contains("from the goal:"));
    assert!(!ledger.contains("from patterns:"));
    assert!(!ledger.contains("hypothesis"));
    assert!(!ledger.contains("user hints"));
}

#[test]
fn gated_hypothesis_label_shows_the_gate() {
    let gated = binop(
        BinOp::Implies,
        call("le", vec![var("a"), var("b")]),
        binop(BinOp::Eq, call("max", vec![var("a"), var("b")]), var("b")),
    );
    let vc = Expr::Forall {
        binders: vec![],
        body: Box::new(binop(BinOp::Implies, gated, binop(BinOp::Eq, var("a"), var("b")))),
    };
    let parts = dissect(&vc);
    let ledger = print_ledger(&parts, &vec![call("max", vec![var("a"), var("b")])]);
    assert_eq!(
        ledger,
        "; instantiated terms:\n\
         ;   from the hypothesis implies((le a b), (max a b) == b):\n\
         ;     (max a b)\n"
    );
}
