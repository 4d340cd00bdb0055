use ravencheck::ast::{BaseType, Expr, Pattern};
use ravencheck::resolve::{patterns_disjoint, resolvable, resolve_in_pattern, resolve_pattern_types};

fn s(x: &str) -> String {
    x.to_string()
}

fn nat_sort() -> BaseType {
    BaseType::Custom(s("Nat"))
}

/// `enum Nat { Z, S(Box<Nat>) }` and `enum List { Nil, Cons(Elem, Box<List>) }`.
fn table() -> Vec<(String, Vec<(String, Vec<BaseType>)>)> {
    vec![
        (s("Nat"), vec![(s("Z"), vec![]), (s("S"), vec![nat_sort()])]),
        (s("List"), vec![(s("Nil"), vec![]), (s("Cons"), vec![BaseType::Custom(s("Elem")), BaseType::Custom(s("List"))])]),
    ]
}

fn var(x: &str) -> Expr {
    Expr::Var(s(x))
}

fn ctor(name: &str, args: Vec<Pattern>) -> Pattern {
    Pattern::Constructor { name: s(name), args, arg_types: None }
}

fn stamped(name: &str, args: Vec<Pattern>, types: Vec<BaseType>) -> Pattern {
    Pattern::Constructor { name: s(name), args, arg_types: Some(types) }
}

fn ident(x: &str) -> Pattern {
    Pattern::Ident(s(x))
}

fn matching(scrutinee: Expr, arms: Vec<(Pattern, Expr)>) -> Expr {
    Expr::Match { expr: Box::new(scrutinee), arms }
}

fn let_var(x: &str, v: &str, body: Expr) -> Expr {
    Expr::Let { pat: ident(x), bound_expr: Box::new(var(v)), body: Box::new(body) }
}

#[test]
fn constructor_patterns_get_their_field_sorts() {
    let e = matching(
        var("l"),
        vec![
            (ctor("List::Cons", vec![ident("h"), ctor("List::Nil", vec![])]), var("a")),
            (ctor("List::Cons", vec![ident("h"), ctor("List::Cons", vec![Pattern::Wildcard, ident("t")])]), var("b")),
            (ctor("List::Nil", vec![]), var("c")),
        ],
    );
    let elem = BaseType::Custom(s("Elem"));
    let list = BaseType::Custom(s("List"));
    let cons_types = vec![elem.deep_clone(), list.deep_clone()];
    let expected = matching(
        var("l"),
        vec![
            (stamped("List::Cons", vec![ident("h"), stamped("List::Nil", vec![], vec![])], cons_types.iter().map(|t| t.deep_clone()).collect()), var("a")),
            (
                stamped(
                    "List::Cons",
                    vec![ident("h"), stamped("List::Cons", vec![Pattern::Wildcard, ident("t")], cons_types.iter().map(|t| t.deep_clone()).collect())],
                    cons_types.iter().map(|t| t.deep_clone()).collect(),
                ),
                var("b"),
            ),
            (stamped("List::Nil", vec![], vec![]), var("c")),
        ],
    );
    assert!(resolvable(&e, &table()));
    assert_eq!(resolve_pattern_types(&e, &table()), expected);
}

#[test]
fn unknown_constructors_and_wrong_arity_are_rejected() {
    let dts = table();
    assert_eq!(resolve_in_pattern(&ctor("Nat::T", vec![]), &dts), None);
    assert_eq!(resolve_in_pattern(&ctor("Tree::Leaf", vec![]), &dts), None);
    assert_eq!(resolve_in_pattern(&ctor("Z", vec![]), &dts), None);
    assert_eq!(resolve_in_pattern(&ctor("Nat::S", vec![]), &dts), None);
    assert_eq!(
        resolve_in_pattern(&ctor("Nat::S", vec![ident("m")]), &dts),
        Some(stamped("Nat::S", vec![ident("m")], vec![nat_sort()]))
    );
}

#[test]
fn catch_all_arm_becomes_the_uncovered_constructors() {
    let e = matching(var("n"), vec![(ctor("Nat::Z", vec![]), var("a")), (Pattern::Wildcard, var("b"))]);
    let expected = matching(
        var("n"),
        vec![(stamped("Nat::Z", vec![], vec![]), var("a")), (stamped("Nat::S", vec![ident("_w_0")], vec![nat_sort()]), var("b"))],
    );
    assert!(resolvable(&e, &table()));
    assert_eq!(resolve_pattern_types(&e, &table()), expected);
}

#[test]
fn nested_catch_all_leaves_the_deeper_constructors() {
    // S(Z) first: `_` stands for Z and S(S(_)).
    let e = matching(var("n"), vec![(ctor("Nat::S", vec![ctor("Nat::Z", vec![])]), var("a")), (Pattern::Wildcard, var("b"))]);
    let expected = matching(
        var("n"),
        vec![
            (stamped("Nat::S", vec![stamped("Nat::Z", vec![], vec![])], vec![nat_sort()]), var("a")),
            (stamped("Nat::Z", vec![], vec![]), var("b")),
            (stamped("Nat::S", vec![stamped("Nat::S", vec![ident("_w_0_0")], vec![nat_sort()])], vec![nat_sort()]), var("b")),
        ],
    );
    assert!(resolvable(&e, &table()));
    assert_eq!(resolve_pattern_types(&e, &table()), expected);
}

#[test]
fn catch_all_without_a_constructor_arm_before_it_is_rejected() {
    let e = matching(var("n"), vec![(Pattern::Wildcard, var("b"))]);
    assert!(!resolvable(&e, &table()));
}

#[test]
fn overlapping_arms_are_rejected() {
    let e = matching(
        var("n"),
        vec![(ctor("Nat::S", vec![ident("m")]), var("a")), (ctor("Nat::S", vec![ctor("Nat::Z", vec![])]), var("b")), (ctor("Nat::Z", vec![]), var("c"))],
    );
    assert!(!resolvable(&e, &table()));
    assert!(!patterns_disjoint(&ctor("Nat::S", vec![ident("m")]), &ctor("Nat::S", vec![ctor("Nat::Z", vec![])])));
    assert!(patterns_disjoint(&ctor("Nat::S", vec![ctor("Nat::S", vec![Pattern::Wildcard])]), &ctor("Nat::S", vec![ctor("Nat::Z", vec![])])));
    assert!(patterns_disjoint(&ctor("Nat::Z", vec![]), &Pattern::Tuple(vec![])));
}

#[test]
fn tuple_match_compiles_into_nested_matches() {
    let e = matching(
        Expr::Tuple(vec![var("a"), var("b")]),
        vec![
            (Pattern::Tuple(vec![ctor("Nat::Z", vec![]), Pattern::Wildcard]), var("x")),
            (Pattern::Tuple(vec![Pattern::Wildcard, ctor("Nat::Z", vec![])]), var("y")),
            (Pattern::Tuple(vec![ctor("Nat::S", vec![ident("p")]), ctor("Nat::S", vec![ident("q")])]), var("z")),
        ],
    );
    let z = || stamped("Nat::Z", vec![], vec![]);
    let succ = |f: &str| stamped("Nat::S", vec![ident(f)], vec![nat_sort()]);
    let expected = matching(
        var("a"),
        vec![
            (z(), matching(var("b"), vec![(z(), var("x")), (succ("b_0"), var("x"))])),
            (
                succ("a_0"),
                matching(var("b"), vec![(z(), var("y")), (succ("b_0"), let_var("q", "b_0", let_var("p", "a_0", var("z"))))]),
            ),
        ],
    );
    assert!(resolvable(&e, &table()));
    assert_eq!(resolve_pattern_types(&e, &table()), expected);
}

#[test]
fn tuple_match_needs_variables_and_full_rows() {
    let dts = table();
    let not_vars = matching(
        Expr::Tuple(vec![var("a"), Expr::BoolConst(true)]),
        vec![(Pattern::Tuple(vec![Pattern::Wildcard, Pattern::Wildcard]), var("x"))],
    );
    assert!(!resolvable(&not_vars, &dts));
    let short_row = matching(Expr::Tuple(vec![var("a"), var("b")]), vec![(Pattern::Tuple(vec![Pattern::Wildcard]), var("x"))]);
    assert!(!resolvable(&short_row, &dts));
    let no_arms = matching(Expr::Tuple(vec![var("a")]), vec![]);
    assert!(!resolvable(&no_arms, &dts));
    // Z is never covered for `a`.
    let not_exhaustive = matching(
        Expr::Tuple(vec![var("a")]),
        vec![(Pattern::Tuple(vec![ctor("Nat::S", vec![Pattern::Wildcard])]), var("x"))],
    );
    assert!(!resolvable(&not_exhaustive, &dts));
    let all_wild = matching(Expr::Tuple(vec![var("a")]), vec![(Pattern::Wildcard, var("x"))]);
    assert!(resolvable(&all_wild, &dts));
    assert_eq!(resolve_pattern_types(&all_wild, &dts), var("x"));
}
