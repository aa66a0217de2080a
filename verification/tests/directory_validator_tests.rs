use edifact_rs::{
    effective_component_count, from_bufread_stream, from_bytes, ComponentRef, DefaultHooks, DirectoryValidator,
    DirectoryValidatorBuilder, EdifactError, ElementRef, OwnedElementRef, OwnedSegmentDef, Repr, Segment,
    SegmentDefinition, Status, TableHooks,
};

fn test_segment() -> OwnedSegmentDef {
    let elements: &'static [ElementRef] =
        Box::leak(vec![ElementRef::new(1, "C507", Status::Mandatory, 1)].into_boxed_slice());
    let def: &'static SegmentDefinition = Box::leak(Box::new(SegmentDefinition::new("TST", "Test segment", elements)));
    OwnedSegmentDef::from_definition(def)
}

fn parse_single(input: &[u8]) -> Segment {
    from_bufread_stream(input.to_vec()).collect_segments().expect("parse should succeed").into_iter().next().unwrap()
}

fn custom_rules() -> TableHooks {
    TableHooks {
        code_lists: vec![("CUSTOM_DE".to_owned(), vec!["VALID".to_owned()])],
        suggestions: vec![("CUSTOM_DE".to_owned(), "INVALID".to_owned(), "VALID")],
        component_counts: vec![],
        code_rules: Some(vec![("TST".to_owned(), 0, 0, "CUSTOM_DE".to_owned())]),
        required: None,
    }
}

#[test]
fn mandatory_composite_present_when_any_component_non_empty() {
    let segments = from_bytes(b"TST+:ABC'").collect_segments().expect("parse should succeed");
    let validator = DirectoryValidator::new("TEST", vec![test_segment()], DefaultHooks);
    assert!(validator.batch_issues(&segments).is_empty());
    assert!(validator.required_segment_issues(&segments).is_empty());
}

#[test]
fn trailing_empty_component_stripped_from_dtm() {
    let seg = parse_single(b"DTM+137:20200101:'");
    assert_eq!(effective_component_count(&seg, 0), Some(2), "trailing empty component should be stripped");
}

#[test]
fn all_empty_components_result_in_zero() {
    let seg = parse_single(b"NAD+MS++:'");
    assert_eq!(effective_component_count(&seg, 2), Some(0), "all-empty composite should have effective count 0");
}

#[test]
fn non_empty_component_not_stripped() {
    let seg = parse_single(b"DTM+137:20200101:102'");
    assert_eq!(effective_component_count(&seg, 0), Some(3), "no components should be stripped when all non-empty");
}

#[test]
fn with_code_list_rules_overrides_base() {
    let segments = from_bytes(b"TST+INVALID'").collect_segments().expect("parse should succeed");
    let validator = DirectoryValidator::new("TEST", vec![test_segment()], custom_rules());
    let issues = validator.batch_issues(&segments);
    assert!(
        issues.iter().any(|e| matches!(e, EdifactError::InvalidCodeValue { value, code_list, .. } if value == "INVALID" && code_list == "CUSTOM_DE")),
        "INVALID is not in the custom code list so validation must report it"
    );
}

fn bgm_def() -> OwnedSegmentDef {
    OwnedSegmentDef::new_unchecked(
        "BGM".to_owned(),
        "Beginning of message".to_owned(),
        vec![
            OwnedElementRef::new_unchecked(1, "C002".to_owned(), Status::Mandatory, 1),
            OwnedElementRef::new_unchecked(2, "C106".to_owned(), Status::Conditional, 1)
                .with_repr(Repr::an_up_to(5)),
        ],
    )
}

#[test]
fn unknown_tags_missing_elements_and_lengths_are_reported() {
    let validator = DirectoryValidatorBuilder::new("my-profile").add_segment(bgm_def()).build();
    let segments = from_bytes(b"BGM++TOOLONGVALUE'XYZ+1'").collect_segments().unwrap();
    let issues = validator.batch_issues(&segments);
    assert!(issues.iter().any(|e| matches!(e, EdifactError::MissingRequiredElement { element_index: 0, .. })));
    assert!(issues.iter().any(|e| matches!(e, EdifactError::DataElementTooLong { actual: 12, .. })));
    assert!(issues.iter().any(|e| matches!(e, EdifactError::InvalidSegmentForMessage { tag, message_type, .. } if tag == "XYZ" && message_type == "my-profile")));
    let relaxed = DirectoryValidator::from_owned_definitions(vec![bgm_def()]).enforce_known_tags(false);
    assert!(relaxed.batch_issues(&segments[1..]).is_empty());
}

#[test]
fn required_segments_are_checked_for_presence_and_order() {
    let validator = DirectoryValidator::from_owned_definitions(vec![bgm_def()]);
    let segments = from_bytes(b"UNT+2+1'UNH+1+ORDERS:D:96A:UN'").collect_segments().unwrap();
    let issues = validator.required_segment_issues(&segments);
    assert_eq!(issues.len(), 1);
    assert_eq!(issues[0].message, "segment sequence violation for message type ORDERS: 'UNT' appears out of order");
    let only_unh = from_bytes(b"UNH+1+ORDERS:D:96A:UN'").collect_segments().unwrap();
    let missing = validator.required_segment_issues(&only_unh);
    assert_eq!(missing.len(), 1);
    assert_eq!(missing[0].message, "required segment UNT missing for message type ORDERS");
    assert_eq!(missing[0].suggestion.as_deref(), Some("Add the mandatory segment at the correct position"));
}

#[test]
fn static_definitions_convert_to_owned_ones() {
    let comps: &'static [ComponentRef] = Box::leak(vec![ComponentRef::new(1, "2005", Status::Mandatory)].into_boxed_slice());
    let elements: &'static [ElementRef] =
        Box::leak(vec![ElementRef::composite(1, "C507", Status::Mandatory, 1, comps)].into_boxed_slice());
    let defs: &'static [SegmentDefinition] = Box::leak(vec![SegmentDefinition::new("DTM", "Date", elements)].into_boxed_slice());
    let validator = DirectoryValidator::from_definitions(defs);
    let segments = from_bytes(b"DTM+:20260101'").collect_segments().unwrap();
    let issues = validator.batch_issues(&segments);
    assert!(issues.iter().any(|e| matches!(e, EdifactError::MissingRequiredComponent { element_index: 0, component_index: 0, .. })));
}

#[test]
fn table_hooks_fix_component_counts_and_suggest_codes() {
    let hooks = TableHooks {
        code_lists: vec![("CUSTOM_DE".to_owned(), vec!["VALID".to_owned()])],
        suggestions: vec![("CUSTOM_DE".to_owned(), "INVALID".to_owned(), "VALID")],
        component_counts: vec![("TST".to_owned(), 0, 2)],
        code_rules: Some(vec![("TST".to_owned(), 0, 0, "CUSTOM_DE".to_owned())]),
        required: Some(vec![("ORDERS".to_owned(), vec!["UNH".to_owned(), "BGM".to_owned(), "UNT".to_owned()])]),
    };
    let validator = DirectoryValidator::new("TEST", vec![test_segment()], hooks);
    let segments = from_bytes(b"TST+INVALID'").collect_segments().unwrap();
    let issues = validator.segment_issues(&segments[0], None);
    assert!(issues.iter().any(|e| matches!(e, EdifactError::InvalidComponentCount { expected: 2, actual: 1, .. })));
    assert!(issues.iter().any(|e| matches!(e, EdifactError::InvalidCodeValue { suggestion: Some("VALID"), .. })));
    let mut v = validator;
    v.set_message_type(Some("ORDERS"));
    let missing = v.required_segment_issues(&segments);
    assert_eq!(missing.len(), 3);
    assert_eq!(missing[1].segment_tag.as_deref(), Some("BGM"));
}

#[test]
fn code_list_rules_and_required_segments_can_be_set_afterwards() {
    let segments = from_bytes(b"UNH+1+ORDERS:D:96A:UN'TST+INVALID'UNT+3+1'").collect_segments().unwrap();
    let plain = TableHooks { code_rules: None, ..custom_rules() };
    let validator = DirectoryValidator::new("TEST", vec![test_segment()], plain)
        .with_code_list_rules(vec![("TST".to_owned(), 0, 0, "CUSTOM_DE".to_owned())])
        .with_required_segments(vec![("ORDERS".to_owned(), vec!["UNH".to_owned(), "BGM".to_owned(), "UNT".to_owned()])]);
    let issues = validator.batch_issues(&segments);
    assert!(issues.iter().any(|e| matches!(e, EdifactError::InvalidCodeValue { value, .. } if value == "INVALID")));
    let missing = validator.required_segment_issues(&segments);
    assert!(!missing.is_empty(), "BGM is required for ORDERS and absent");
}
