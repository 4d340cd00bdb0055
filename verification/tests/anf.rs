use ravencheck::anf::{bind_calls, transform_expr, NameGenerator};
use ravencheck::ast::{Expr, Pattern};

fn var(x: &str) -> Expr {
    Expr::Var(x.to_string())
}

fn call(f: &str, args: Vec<Expr>) -> Expr {
    Expr::Call { func: f.to_string(), args }
}

fn let_(x: &str, b: Expr, body: Expr) -> Expr {
    Expr::Let { pat: Pattern::Ident(x.to_string()), bound_expr: Box::new(b), body: Box::new(body) }
}

fn example() -> Expr {
    call("P", vec![call("add", vec![var("a"), call("sub", vec![var("b"), var("c")])])])
}

#[test]
fn nested_calls_are_flattened_and_the_statement_stays() {
    let mut gen = NameGenerator::new();
    let expected = let_(
        "anf_0",
        call("sub", vec![var("b"), var("c")]),
        let_("anf_1", call("add", vec![var("a"), var("anf_0")]), call("P", vec![var("anf_1")])),
    );
    assert_eq!(transform_expr(&example(), &mut gen), expected);
    assert_eq!(gen.counter_value(), 2);
}

#[test]
fn the_pipeline_form_binds_the_outermost_call_too() {
    let mut gen = NameGenerator::new();
    let expected = let_(
        "anf_0",
        call("sub", vec![var("b"), var("c")]),
        let_(
            "anf_1",
            call("add", vec![var("a"), var("anf_0")]),
            let_("anf_2", call("P", vec![var("anf_1")]), var("anf_2")),
        ),
    );
    assert_eq!(bind_calls(&example(), &mut gen), expected);
}
