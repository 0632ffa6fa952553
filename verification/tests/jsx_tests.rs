use photonic_handlers::jsx::{strip_unreachable_branches, unsupported_attribute_expression};

#[test]
fn unreachable_empty_state_expression_is_not_scanned() {
    let source = "<section><EmptyState icon={AlertCircle} title=\"none\" /><div className=\"grid\">{tiles.map(";
    assert!(unsupported_attribute_expression(&strip_unreachable_branches(source)).is_none());
}

#[test]
fn rendered_unknown_attribute_expression_is_scanned() {
    assert_eq!(
        unsupported_attribute_expression("<section data-fixture={unknownStaticValue}>").as_deref(),
        Some("data-fixture={unknownStaticValue}")
    );
}
