use ravencheck::sigtext::{parse_signature_text, RetText};

#[test]
fn arguments_with_and_without_refinements() {
    let s = parse_signature_text(" (x: Nat, y : Nat{ le(x, y) },) -> r: bool{ r == true } ").unwrap();
    assert_eq!(s.inputs.len(), 2);
    assert_eq!(s.inputs[0].name, "x");
    assert_eq!(s.inputs[0].ty, "Nat");
    assert_eq!(s.inputs[0].refinement, None);
    assert_eq!(s.inputs[1].name, "y");
    assert_eq!(s.inputs[1].ty, "Nat");
    assert_eq!(s.inputs[1].refinement, Some(" le(x, y) ".to_string()));
    match s.ret {
        RetText::Type { bind, ty, refinement } => {
            assert_eq!(bind, Some("r".to_string()));
            assert_eq!(ty, "bool");
            assert_eq!(refinement, Some(" r == true ".to_string()));
        }
        RetText::Lemma(_) => panic!("expected a type"),
    }
}

#[test]
fn a_lemma_result_and_paths() {
    let s = parse_signature_text("() -> Lemma(requires(p(x)), ensures(q(x, y)))").unwrap();
    assert!(s.inputs.is_empty());
    match s.ret {
        RetText::Lemma(parts) => assert_eq!(parts, vec!["requires(p(x))".to_string(), "ensures(q(x, y))".to_string()]),
        RetText::Type { .. } => panic!("expected a lemma"),
    }
    let t = parse_signature_text("(n : crate :: Nat) -> crate :: Nat").unwrap();
    assert_eq!(t.inputs[0].ty, "crate :: Nat");
    match t.ret {
        RetText::Type { bind, ty, refinement } => {
            assert_eq!(bind, None);
            assert_eq!(ty, "crate :: Nat");
            assert_eq!(refinement, None);
        }
        RetText::Lemma(_) => panic!("expected a type"),
    }
}

#[test]
fn malformed_signatures_are_refused() {
    assert!(parse_signature_text("x: Nat -> bool").is_none());
    assert!(parse_signature_text("(x: Nat) bool").is_none());
    assert!(parse_signature_text("(x Nat) -> bool").is_none());
    assert!(parse_signature_text("(x: Nat, , y: Nat) -> bool").is_none());
    assert!(parse_signature_text("(x: Nat{ p(x) ) -> bool").is_none());
    assert!(parse_signature_text("(1x: Nat) -> bool").is_none());
    assert!(parse_signature_text("(x: Nat) -> Lemma(p) extra").is_none());
}
