use snafu_bounds::payload::{construct, source_chain, Failure, Leaf, Payload};
use snafu_bounds::recursive::{source_chain as recursive_source_chain, Recursive};

#[test]
fn constructs_borrowed_payloads_without_diagnostic_traits() {
    let text = String::from("payload");
    let error: Failure<_> = Failure::into_error(Payload(&text));
    assert_eq!(error.source.0, "payload");
    assert_eq!(error.to_string(), "operation failed");
}

#[test]
fn construct_borrows_the_text() {
    let text = String::from("borrowed");
    let error = construct(&text);
    assert_eq!(error.source.0, "borrowed");
    assert_eq!(error.to_string(), "operation failed");
}

#[test]
fn source_chain_wraps_a_leaf() {
    let error = source_chain();
    assert!(matches!(error.source, Leaf));
    assert!(matches!(error.source(), Leaf));
    assert_eq!(error.to_string(), "operation failed");
}

#[test]
fn recursive_source_chain_nests_a_leaf() {
    let error = recursive_source_chain();
    match &error {
        Recursive::Nested { source } => assert!(matches!(**source, Recursive::Leaf { value: 42 })),
        Recursive::Leaf { .. } => panic!("expected a nested error"),
    }
    assert_eq!(error.to_string(), "nested: leaf: 42");
    assert!(error.source().is_some());
}

#[test]
fn a_leaf_has_no_source() {
    let leaf: Recursive<u8> = Recursive::Leaf { value: 7 };
    assert!(leaf.source().is_none());
    assert_eq!(leaf.to_string(), "leaf: 7");
}

#[test]
fn leaf_values_display_in_decimal() {
    assert_eq!(Recursive::Leaf { value: 0u8 }.to_string(), "leaf: 0");
    assert_eq!(Recursive::Leaf { value: 100u8 }.to_string(), "leaf: 100");
    assert_eq!(Recursive::Leaf { value: 255u8 }.to_string(), "leaf: 255");
}

#[test]
fn nesting_prefixes_each_level() {
    let inner = Recursive::Nested { source: Box::new(Recursive::Leaf { value: 9u8 }) };
    let outer = Recursive::Nested { source: Box::new(inner) };
    assert_eq!(outer.to_string(), "nested: nested: leaf: 9");
    match outer.source() {
        Some(s) => assert_eq!(s.to_string(), "nested: leaf: 9"),
        None => panic!("expected a source"),
    }
}
