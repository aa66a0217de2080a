use edifact_rs::{ValidationIssue, ValidationReport, ValidationSeverity};

#[test]
fn report_collects_errors_and_warnings() {
    let mut report = ValidationReport::default();
    report.add_error(
        ValidationIssue::new(ValidationSeverity::Error, "Test error")
            .with_segment("BGM")
            .with_offset(42),
    );
    report.add_warning(ValidationIssue::new(ValidationSeverity::Warning, "Test warning"));

    assert!(report.has_errors());
    assert!(report.has_warnings());
    assert_eq!(report.total_issues(), 2);
    assert!(!report.is_valid());
}

#[test]
fn report_result_conversion() {
    let mut report = ValidationReport::default();
    report.add_error(ValidationIssue::new(ValidationSeverity::Error, "Critical issue"));
    assert!(report.result().is_err());
}

#[test]
fn report_valid_with_only_warnings() {
    let mut report = ValidationReport::default();
    report.add_warning(ValidationIssue::new(ValidationSeverity::Warning, "Just a warning"));
    assert!(report.is_valid());
    assert!(report.result().is_ok());
}

#[test]
fn issue_builder_chain() {
    let issue = ValidationIssue::new(ValidationSeverity::Warning, "test message")
        .with_error_code("E013")
        .with_offset(100)
        .with_segment("NAD")
        .with_rule_id("DEMO-P001")
        .with_element_index(1)
        .with_component_index(2)
        .with_suggestion("Check element count");

    assert_eq!(issue.error_code, Some("E013"));
    assert_eq!(issue.message, "test message");
    assert_eq!(issue.offset, Some(100));
    assert_eq!(issue.segment_tag, Some("NAD".to_owned()));
    assert_eq!(issue.rule_id, Some("DEMO-P001".to_owned()));
    assert_eq!(issue.element_index, Some(1));
    assert_eq!(issue.component_index, Some(2));
    assert_eq!(issue.suggestion, Some("Check element count".to_owned()));
}

#[test]
fn report_display_format() {
    let mut report = ValidationReport::default();
    report.add_error(
        ValidationIssue::new(ValidationSeverity::Error, "Error 1")
            .with_error_code("E011")
            .with_offset(8),
    );
    report.add_warning(ValidationIssue::new(ValidationSeverity::Warning, "Warning 1"));
    report.add_info(ValidationIssue::new(ValidationSeverity::Info, "Info 1"));

    let display_str = report.to_string();
    assert!(display_str.contains("Errors (1)"));
    assert!(display_str.contains("Warnings (1)"));
    assert!(display_str.contains("Info (1)"));
    assert!(display_str.contains("[E011]"));
}

#[test]
fn render_deterministic_sorts_by_offset() {
    let mut report = ValidationReport::default();
    report.add_error(
        ValidationIssue::new(ValidationSeverity::Error, "later")
            .with_segment("BGM")
            .with_offset(20),
    );
    report.add_error(
        ValidationIssue::new(ValidationSeverity::Error, "earlier")
            .with_segment("UNH")
            .with_offset(1),
    );

    let rendered = report.render_deterministic();
    let first = rendered.find("earlier").expect("missing first issue");
    let second = rendered.find("later").expect("missing second issue");
    assert!(first < second, "expected deterministic sort by offset");
}

#[test]
fn filter_by_rule_id() {
    let mut report = ValidationReport::default();
    report.add_error(
        ValidationIssue::new(ValidationSeverity::Error, "orders policy blocked").with_rule_id("ORDERS-P001"),
    );
    report.add_warning(
        ValidationIssue::new(ValidationSeverity::Warning, "invoic policy warning").with_rule_id("INVOIC-P001"),
    );
    report.add_info(
        ValidationIssue::new(ValidationSeverity::Info, "orders policy info").with_rule_id("ORDERS-P002"),
    );

    let only_orders_block = report.filter_by_rule_id("ORDERS-P001");
    assert_eq!(only_orders_block.errors().len(), 1);
    assert!(only_orders_block.warnings().is_empty());
    assert!(only_orders_block.infos().is_empty());

    let orders_family = report.filter_by_rule_prefix("ORDERS-");
    assert_eq!(orders_family.total_issues(), 2);

    let exact: Vec<_> = report.issues_for_rule_id("INVOIC-P001");
    assert_eq!(exact.len(), 1);
    assert_eq!(exact[0].message, "invoic policy warning");
}

#[test]
fn context_map_builder() {
    let issue = ValidationIssue::new(ValidationSeverity::Error, "BGM code invalid")
        .with_context_entry("pid", "13001")
        .with_context_entry("partner", "9900123456789");

    assert_eq!(issue.context_get("pid"), Some("13001"));
    assert_eq!(issue.context_get("partner"), Some("9900123456789"));
    assert_eq!(issue.context_get("missing"), None);
}

#[test]
fn context_map_extend() {
    let meta = [("pid", "13001"), ("partner", "9900123456789")];
    let issue = ValidationIssue::new(ValidationSeverity::Error, "test").with_context_entries(&meta);
    assert_eq!(issue.context_get("pid"), Some("13001"));
}

#[test]
fn context_key_overwrite() {
    let issue = ValidationIssue::new(ValidationSeverity::Warning, "demo")
        .with_context_entry("pid", "old")
        .with_context_entry("pid", "new");
    assert_eq!(issue.context_get("pid"), Some("new"));
}

#[test]
fn rendered_report_has_exact_text() {
    let mut report = ValidationReport::default();
    report.add_error(
        ValidationIssue::new(ValidationSeverity::Error, "bad code")
            .with_error_code("E011")
            .with_segment("BGM")
            .with_rule_id("R1")
            .with_element_index(2)
            .with_component_index(0)
            .with_offset(17)
            .with_suggestion("fix it"),
    );
    report.add_info(ValidationIssue::new(ValidationSeverity::Info, "note"));
    assert_eq!(
        report.render_deterministic(),
        "Validation Report:\n  Errors (1)\n    - bad code [E011] [segment=BGM] [rule=R1] [element=2] [component=0] [offset=17] [hint=fix it]\n  Info (1)\n    - note"
    );
}

#[test]
fn an_empty_report_renders_only_its_header() {
    assert_eq!(ValidationReport::default().render_deterministic(), "Validation Report:");
}

#[test]
fn equal_offsets_sort_by_segment_then_message_and_absent_offsets_go_last() {
    let mut report = ValidationReport::default();
    report.add_warning(ValidationIssue::new(ValidationSeverity::Warning, "no offset"));
    report.add_warning(ValidationIssue::new(ValidationSeverity::Warning, "b").with_offset(5).with_segment("NAD"));
    report.add_warning(ValidationIssue::new(ValidationSeverity::Warning, "a").with_offset(5).with_segment("NAD"));
    report.add_warning(ValidationIssue::new(ValidationSeverity::Warning, "c").with_offset(5).with_segment("BGM"));
    let text = report.render_deterministic();
    let c = text.find("- c").unwrap();
    let a = text.find("- a").unwrap();
    let b = text.find("- b").unwrap();
    let none = text.find("no offset").unwrap();
    assert!(c < a && a < b && b < none);
}

#[test]
fn render_deterministic_ignores_the_order_issues_were_added() {
    let issues = || {
        vec![
            ValidationIssue::new(ValidationSeverity::Error, "c").with_segment("DTM").with_offset(30),
            ValidationIssue::new(ValidationSeverity::Error, "a").with_segment("BGM").with_offset(10),
            ValidationIssue::new(ValidationSeverity::Error, "no offset").with_segment("UNT"),
            ValidationIssue::new(ValidationSeverity::Error, "b").with_segment("BGM").with_offset(10),
        ]
    };
    let mut forward = ValidationReport::default();
    for issue in issues() {
        forward.add_error(issue);
    }
    let mut backward = ValidationReport::default();
    for issue in issues().into_iter().rev() {
        backward.add_error(issue);
    }
    let text = forward.render_deterministic();
    assert_eq!(text, backward.render_deterministic());
    let a = text.find("- a").unwrap();
    let b = text.find("- b").unwrap();
    let c = text.find("- c").unwrap();
    let none = text.find("no offset").unwrap();
    assert!(a < b && b < c && c < none);
}
