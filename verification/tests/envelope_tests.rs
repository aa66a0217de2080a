use edifact_rs::{
    from_bufread_stream, validate_envelope, validate_envelope_from_owned, validate_envelope_lenient, EdifactError,
    LenientResult, OwnedSegment, Segment, ValidatedInterchange,
};

fn parse(input: &[u8]) -> Vec<OwnedSegment> {
    from_bufread_stream(input.to_vec()).collect_segments().expect("parse failed")
}

fn parse_and_validate(input: &[u8]) -> Result<ValidatedInterchange, EdifactError> {
    let owned = parse(input);
    let segs: Vec<Segment> = owned;
    validate_envelope(&segs)
}

fn parse_and_validate_lenient(input: &[u8]) -> LenientResult {
    let owned = parse(input);
    let segs: Vec<Segment> = owned;
    validate_envelope_lenient(&segs)
}

#[test]
fn lenient_collects_every_violation_not_just_the_first() {
    // Two independent violations: a UNZ control-reference mismatch and a
    // UNT segment-count mismatch.  The lenient path used to abort on the
    // first and report only one.
    let input = b"UNB+UNOA:1+S+R+200101:0900+CTRL1'\
                  UNH+1+ORDERS:D:96A:UN'BGM+220'UNT+99+1'\
                  UNZ+1+CTRL2'";
    let result = parse_and_validate_lenient(input);
    assert!(
        result.errors.len() >= 2,
        "expected both violations, got {:?}",
        result.errors
    );
    assert!(
        result
            .errors
            .iter()
            .any(|e| matches!(e, EdifactError::QualifierMismatch { tag, .. } if tag == "UNZ")),
        "missing UNZ control-ref mismatch in {:?}",
        result.errors
    );
    assert!(
        result
            .errors
            .iter()
            .any(|e| matches!(e, EdifactError::SegmentCountMismatch { .. })),
        "missing UNT segment-count mismatch in {:?}",
        result.errors
    );
}

#[test]
fn strict_reports_the_first_error_lenient_collects() {
    // Strict and lenient share one implementation, so strict's error must
    // always be the head of the lenient error list.
    for input in [
        &b"UNB+UNOA:1+S+R+200101:0900+C1'UNH+1+ORDERS:D:96A:UN'UNT+2+1'UNZ+9+C1'"[..],
        &b"UNB+UNOA:1+S+R+200101:0900+C1'UNH+1+ORDERS:D:96A:UN'UNT+99+1'UNZ+1+C1'"[..],
        &b"UNB+UNOA:1+S+R+200101:0900+C1'UNH+1+ORDERS:D:96A:UN'UNT+2+9'UNZ+1+C1'"[..],
    ] {
        let strict = parse_and_validate(input);
        let lenient = parse_and_validate_lenient(input);
        match strict {
            Err(e) => assert_eq!(
                Some(&e),
                lenient.errors.first(),
                "strict/lenient diverged for {:?}",
                std::str::from_utf8(input).unwrap()
            ),
            Ok(_) => assert!(lenient.errors.is_empty()),
        }
    }
}

#[test]
fn duplicate_message_references_are_rejected() {
    let input = b"UNB+UNOA:1+S+R+200101:0900+C1'\
                  UNH+1+ORDERS:D:96A:UN'BGM+220'UNT+3+1'\
                  UNH+1+ORDERS:D:96A:UN'BGM+221'UNT+3+1'\
                  UNZ+2+C1'";
    let err = parse_and_validate(input).expect_err("duplicate UNH refs must fail");
    assert!(
        matches!(&err, EdifactError::DuplicateReference { tag, reference, .. }
                 if tag == "UNH" && reference == "1"),
        "got {err:?}"
    );
}

#[test]
fn distinct_message_references_are_accepted() {
    let input = b"UNB+UNOA:1+S+R+200101:0900+C1'\
                  UNH+1+ORDERS:D:96A:UN'BGM+220'UNT+3+1'\
                  UNH+2+ORDERS:D:96A:UN'BGM+221'UNT+3+2'\
                  UNZ+2+C1'";
    parse_and_validate(input).expect("distinct refs must validate");
}

#[test]
fn into_strict_is_total_after_the_caller_filters_errors() {
    // `errors` is a public field, so filtering tolerated violations before
    // converting must not panic.
    let input = b"UNB+UNOA:1+S+R+200101:0900+C1'UNZ+1+C2'";
    let mut lenient = parse_and_validate_lenient(input);
    lenient.errors.clear();
    // Either outcome is acceptable; the contract is only that it does not panic.
    let _ = lenient.into_strict();
}

fn parse_and_validate_owned(input: &[u8]) -> Result<ValidatedInterchange, EdifactError> {
    validate_envelope_from_owned(&parse(input))
}

const VALID_INTERCHANGE: &[u8] =
    b"UNA:+.? 'UNB+UNOA:3+SENDER::293+RECEIVER::293+230401:0900+00001'UNH+00001+ORDERS:D:11A:UN:EAN010'BGM+220+PO-4711+9'DTM+137:20230401:102'UNT+4+00001'UNZ+1+00001'";

#[test]
fn valid_envelope_parses_ok() {
    let result = parse_and_validate(VALID_INTERCHANGE).expect("envelope should be valid");
    assert_eq!(result.interchange.sender_id, "SENDER");
    assert_eq!(result.interchange.sender_qualifier, ""); // no qualifier in fixture
    assert_eq!(result.interchange.recipient_id, "RECEIVER");
    assert_eq!(result.interchange.recipient_qualifier, "");
    assert_eq!(result.interchange.syntax_identifier, "UNOA");
    assert_eq!(result.interchange.syntax_version, "3");
    assert_eq!(result.interchange.control_ref, "00001");
    assert_eq!(result.interchange.declared_unit_count, 1);
    assert_eq!(result.interchange.actual_unit_count, 1);
    assert!(!result.interchange.is_test());
    assert!(!result.has_functional_groups());
    assert_eq!(result.message_count(), 1);
    assert_eq!(result.messages[0].message_type, "ORDERS");
    assert_eq!(result.messages[0].association_code, "EAN010");
    assert_eq!(result.messages[0].declared_segment_count, 4);
    assert_eq!(result.messages[0].actual_segment_count, 4);
}

#[test]
fn valid_envelope_parses_ok_owned_path() {
    let result = parse_and_validate_owned(VALID_INTERCHANGE).expect("envelope should be valid");
    assert_eq!(result.interchange.sender_id, "SENDER");
    assert_eq!(result.interchange.actual_unit_count, 1);
    assert_eq!(result.messages[0].declared_segment_count, 4);
}

#[test]
fn unt_count_mismatch_returns_err() {
    let input = b"UNB+UNOA:3+S+R+200101:0900+1'UNH+1+ORDERS:D:11A:UN:EAN010'BGM+220+PO-1+9'DTM+137:20200101:102'UNT+99+1'UNZ+1+1'";
    let result = parse_and_validate(input);
    assert!(
        matches!(
            result,
            Err(EdifactError::SegmentCountMismatch { expected: 99, .. })
        ),
        "expected SegmentCountMismatch, got {result:?}"
    );
}

#[test]
fn unz_count_mismatch_returns_err() {
    let input = b"UNB+UNOA:3+S+R+200101:0900+1'UNH+1+ORDERS:D:11A:UN:EAN010'BGM+220+PO-1+9'UNT+3+1'UNZ+2+1'";
    let result = parse_and_validate(input);
    assert!(
        matches!(
            result,
            Err(EdifactError::MessageCountMismatch {
                expected: 2,
                actual: 1
            })
        ),
        "expected MessageCountMismatch(2,1), got {result:?}"
    );
}

#[test]
fn missing_unb_returns_err() {
    let input = b"UNH+1+ORDERS:D:11A:UN:EAN010'BGM+220+PO-1+9'UNT+3+1'UNZ+1+1'";
    assert!(parse_and_validate(input).is_err());
}

#[test]
fn extracts_una_interchange_correctly() {
    let result = parse_and_validate(VALID_INTERCHANGE).unwrap();
    assert_eq!(result.interchange.syntax_identifier, "UNOA");
    assert_eq!(result.interchange.syntax_version, "3");
    assert_eq!(result.interchange.date, "230401");
    assert_eq!(result.interchange.time.as_deref(), Some("0900"));
}

#[test]
fn sender_and_recipient_qualifiers_extracted() {
    // GLN-qualified partners: 1234567890123:14 — qualifier at S002 comp 1
    let input = b"UNB+UNOA:3+1234567890123:14+9876543210987:14+200101:0900+1'\
                  UNH+1+ORDERS:D:96A:UN'\
                  BGM+220+PO-001+9'\
                  UNT+3+1'\
                  UNZ+1+1'";
    let r = parse_and_validate(input).expect("GLN-qualified UNB must parse ok");
    assert_eq!(r.interchange.sender_id, "1234567890123");
    assert_eq!(r.interchange.sender_qualifier, "14");
    assert_eq!(r.interchange.recipient_id, "9876543210987");
    assert_eq!(r.interchange.recipient_qualifier, "14");
}

// UNB DE 0026 (app_ref) is at element index 6 (ISO 9735-1 §6.1.1):
// [4]=control_ref [5]=S005/password [6]=0026/app_ref [7]=0029 [8]=0031/ack [9]=0032/comms [10]=0035/test

#[test]
fn test_indicator_parsed_from_unb() {
    // DE 0035 (test indicator) is at element index 10 (ISO 9735-1).
    // UNB+...+1 (ctrl) + (S005) + (0026) + (0029) + (0031) + (0032) + 1 (0035)
    //                    [5]       [6]       [7]       [8]       [9]     [10]
    let input = b"UNB+UNOA:3+S+R+200101:0900+1++++++1'\
                  UNH+1+ORDERS:D:96A:UN'\
                  BGM+220+PO-001+9'\
                  UNT+3+1'\
                  UNZ+1+1'";
    let r = parse_and_validate(input).expect("test-flagged UNB must parse ok");
    assert!(
        r.interchange.test_indicator,
        "test_indicator should be true"
    );
    assert!(r.interchange.is_test(), "is_test() convenience must agree");
}

#[test]
fn no_test_indicator_defaults_false() {
    let r = parse_and_validate(VALID_INTERCHANGE).unwrap();
    assert!(!r.interchange.test_indicator);
    assert!(!r.interchange.is_test());
}

#[test]
fn app_ref_extracted_when_present() {
    // DE 0026 (app_ref) is at element index 6; element [5] (S005 password) is empty.
    let input = b"UNB+UNOA:3+S+R+200101:0900+1++MYAPP'\
                  UNH+1+ORDERS:D:96A:UN'\
                  BGM+220+PO-001+9'\
                  UNT+3+1'\
                  UNZ+1+1'";
    let r = parse_and_validate(input).expect("UNB with app_ref must parse ok");
    assert_eq!(r.interchange.app_ref.as_deref(), Some("MYAPP"));
}

#[test]
fn app_ref_is_none_when_absent() {
    let r = parse_and_validate(VALID_INTERCHANGE).unwrap();
    assert!(r.interchange.app_ref.is_none());
}

#[test]
fn recipient_password_extracted_when_present() {
    // DE 0022 (recipient password) is at element index 5 (S005 comp 0).
    let input = b"UNB+UNOA:3+S+R+200101:0900+1+MYPASS'\
                  UNH+1+ORDERS:D:96A:UN'\
                  BGM+220+PO-001+9'\
                  UNT+3+1'\
                  UNZ+1+1'";
    let r = parse_and_validate(input).expect("UNB with password must parse ok");
    assert_eq!(r.interchange.recipient_password.as_deref(), Some("MYPASS"));
}

#[test]
fn recipient_password_is_none_when_absent() {
    let r = parse_and_validate(VALID_INTERCHANGE).unwrap();
    assert!(r.interchange.recipient_password.is_none());
}

#[test]
fn acknowledgement_request_flag_parsed() {
    // DE 0031 (ack request) at element index 8; set to "1".
    // Elements: [5]S005="" [6]0026="" [7]0029="" [8]0031="1"
    let input = b"UNB+UNOA:3+S+R+200101:0900+1++++1'\
                  UNH+1+ORDERS:D:96A:UN'\
                  BGM+220+PO-001+9'\
                  UNT+3+1'\
                  UNZ+1+1'";
    let r = parse_and_validate(input).expect("UNB with ack-request must parse ok");
    assert!(r.interchange.acknowledgement_request);
    assert!(r.interchange.ack_requested());
}

#[test]
fn acknowledgement_request_defaults_false() {
    let r = parse_and_validate(VALID_INTERCHANGE).unwrap();
    assert!(!r.interchange.acknowledgement_request);
    assert!(!r.interchange.ack_requested());
}

#[test]
fn communications_agreement_id_extracted() {
    // DE 0032 at element index 9; elements [5]-[8] empty.
    let input = b"UNB+UNOA:3+S+R+200101:0900+1+++++AGREEMENT-1'\
                  UNH+1+ORDERS:D:96A:UN'\
                  BGM+220+PO-001+9'\
                  UNT+3+1'\
                  UNZ+1+1'";
    let r = parse_and_validate(input).expect("UNB with comms-agreement must parse ok");
    assert_eq!(
        r.interchange.communications_agreement_id.as_deref(),
        Some("AGREEMENT-1")
    );
}

#[test]
fn dangling_unh_without_unt_returns_err() {
    let input =
        b"UNB+UNOA:3+S+R+200101:0900+1'UNH+1+ORDERS:D:11A:UN:EAN010'BGM+220+PO-1+9'UNZ+1+1'";
    let result = parse_and_validate(input);
    assert!(
        matches!(result, Err(EdifactError::MissingSegment { ref tag, .. }) if tag == "UNT")
    );
}

#[test]
fn stray_segment_outside_message_returns_err() {
    let input = b"UNB+UNOA:3+S+R+200101:0900+1'UNH+1+ORDERS:D:11A:UN:EAN010'BGM+220+PO-1+9'UNT+3+1'BGM+999+PO-2+9'UNZ+1+1'";
    assert!(matches!(
        parse_and_validate(input),
        Err(EdifactError::InvalidSegmentForMessage { .. })
    ));
}

#[test]
fn missing_unb_sender_component_returns_err() {
    let input = b"UNB+UNOA:3++R+200101:0900+1'UNH+1+ORDERS:D:11A:UN:EAN010'BGM+220+PO-1+9'UNT+3+1'UNZ+1+1'";
    let result = parse_and_validate(input);
    assert!(
        matches!(result, Err(EdifactError::MissingRequiredComponent { ref tag, element_index: 1, component_index: 0 }) if tag == "UNB"),
        "expected MissingRequiredComponent for empty sender, got: {result:?}"
    );
}

#[test]
fn nested_unh_without_closing_previous_message_returns_err() {
    let input = b"UNB+UNOA:3+S+R+200101:0900+1'UNH+1+ORDERS:D:11A:UN:EAN010'BGM+220+PO-1+9'UNH+2+ORDERS:D:11A:UN:EAN010'UNT+3+2'UNZ+1+1'";
    let result = parse_and_validate(input);
    assert!(
        matches!(result, Err(EdifactError::InvalidSegmentForMessage { ref tag, .. }) if tag == "UNH"),
        "expected InvalidSegmentForMessage(UNH), got {result:?}"
    );
}

#[test]
fn unt_message_reference_must_match_unh() {
    let input = b"UNB+UNOA:3+S+R+200101:0900+1'UNH+1+ORDERS:D:11A:UN:EAN010'BGM+220+PO-1+9'UNT+3+999'UNZ+1+1'";
    let result = parse_and_validate(input);
    assert!(
        matches!(result, Err(EdifactError::QualifierMismatch { ref tag, .. }) if tag == "UNT")
    );
}

#[test]
fn unz_control_reference_must_match_unb() {
    let input = b"UNB+UNOA:3+S+R+200101:0900+1'UNH+1+ORDERS:D:11A:UN:EAN010'BGM+220+PO-1+9'UNT+3+1'UNZ+1+999'";
    let result = parse_and_validate(input);
    assert!(
        matches!(result, Err(EdifactError::QualifierMismatch { ref tag, .. }) if tag == "UNZ")
    );
}

#[test]
fn missing_unh_message_type_components_return_err() {
    let input =
        b"UNB+UNOA:3+S+R+200101:0900+1'UNH+1+ORDERS:D:11A'BGM+220+PO-1+9'UNT+3+1'UNZ+1+1'";
    let result = parse_and_validate(input);
    assert!(
        matches!(result, Err(EdifactError::MissingRequiredComponent { ref tag, element_index: 1, component_index: 3 }) if tag == "UNH"),
        "got: {result:?}"
    );
}

#[test]
fn nested_unz_inside_message_returns_err() {
    let input =
        b"UNB+UNOA:3+S+R+200101:0900+1'UNH+1+ORDERS:D:11A:UN:EAN010'UNZ+1+1'UNT+2+1'UNZ+1+1'";
    let result = parse_and_validate(input);
    assert!(
        matches!(result, Err(EdifactError::InvalidSegmentForMessage { ref tag, .. }) if tag == "UNZ")
    );
}

#[test]
fn lenient_returns_partial_result_on_count_mismatch() {
    // UNZ says 2 but only 1 message — lenient mode must return Some(partial)
    // along with the error, not None.
    let input = b"UNB+UNOA:3+S+R+200101:0900+1'UNH+1+ORDERS:D:11A:UN:EAN010'BGM+220+PO-1+9'UNT+3+1'UNZ+2+1'";
    let owned = parse(input);
    let segs: Vec<Segment> = owned;
    let lenient = validate_envelope_lenient(&segs);
    let result = lenient.interchange;
    let errors = lenient.errors;
    assert!(
        result.is_some(),
        "lenient mode must return Some even on count mismatch"
    );
    assert_eq!(errors.len(), 1);
    assert!(
        matches!(
            &errors[0],
            EdifactError::MessageCountMismatch {
                expected: 2,
                actual: 1
            }
        ),
        "expected MessageCountMismatch(2,1), got {:?}",
        errors[0]
    );
    let partial = result.unwrap();
    assert_eq!(partial.messages.len(), 1);
    assert_eq!(partial.interchange.actual_unit_count, 1);
    assert_eq!(partial.interchange.declared_unit_count, 2);
}

#[test]
fn lenient_returns_none_on_structural_error() {
    // Missing UNB — no structure at all, expect None
    let input = b"UNH+1+ORDERS:D:11A:UN:EAN010'BGM+220+PO-1+9'UNT+3+1'UNZ+1+1'";
    let owned = parse(input);
    let segs: Vec<Segment> = owned;
    let lenient = validate_envelope_lenient(&segs);
    let result = lenient.interchange;
    let errors = lenient.errors;
    assert!(result.is_none(), "missing UNB must yield None");
    assert!(!errors.is_empty());
}

#[test]
fn message_count_convenience_method() {
    let r = parse_and_validate(VALID_INTERCHANGE).unwrap();
    assert_eq!(r.message_count(), r.messages.len());
    assert_eq!(r.message_count(), 1);
}

#[test]
fn interchange_with_single_functional_group_parses_ok() {
    let input = b"UNB+UNOA:3+S+R+200101:0900+1'\
                  UNG+ORDERS+S+R+200101:0900+1+UN+D:96A'\
                  UNH+1+ORDERS:D:96A:UN'\
                  BGM+220+PO-001+9'\
                  UNT+3+1'\
                  UNE+1+1'\
                  UNZ+1+1'";
    let result = parse_and_validate(input).expect("single-group interchange must parse ok");
    assert!(result.has_functional_groups());
    assert_eq!(result.functional_groups.len(), 1);
    let g = &result.functional_groups[0];
    assert_eq!(g.group_id, "ORDERS");
    assert_eq!(g.group_ref, "1");
    assert_eq!(g.controlling_agency, "UN");
    assert_eq!(g.declared_message_count, 1);
    assert_eq!(g.actual_message_count, 1);
    assert_eq!(result.messages.len(), 1);
    assert_eq!(result.messages[0].message_type, "ORDERS");
    assert_eq!(result.interchange.declared_unit_count, 1);
    assert_eq!(result.interchange.actual_unit_count, 1);
}

#[test]
fn interchange_with_multi_message_group_parses_ok() {
    // One group containing 2 messages — UNZ = 1 group, UNE = 2 messages.
    // This is the key case that strip_functional_group_segments breaks.
    let input = b"UNB+UNOA:3+S+R+200101:0900+1'\
                  UNG+ORDERS+S+R+200101:0900+1+UN+D:96A'\
                  UNH+1+ORDERS:D:96A:UN'\
                  BGM+220+PO-001+9'\
                  UNT+3+1'\
                  UNH+2+ORDERS:D:96A:UN'\
                  BGM+220+PO-002+9'\
                  UNT+3+2'\
                  UNE+2+1'\
                  UNZ+1+1'";
    let result = parse_and_validate(input).expect("multi-message group must parse ok");
    assert!(result.has_functional_groups());
    assert_eq!(result.functional_groups.len(), 1);
    assert_eq!(result.functional_groups[0].actual_message_count, 2);
    assert_eq!(result.messages.len(), 2);
    // UNZ = 1 group (not 2 messages): ISO 9735-1 §9.2
    assert_eq!(result.interchange.actual_unit_count, 1);
    assert_eq!(result.interchange.declared_unit_count, 1);
}

#[test]
fn interchange_with_multiple_groups_parses_ok() {
    let input = b"UNB+UNOA:3+S+R+200101:0900+2'\
                  UNG+ORDERS+S+R+200101:0900+1+UN+D:96A'\
                  UNH+1+ORDERS:D:96A:UN'\
                  BGM+220+PO-001+9'\
                  UNT+3+1'\
                  UNE+1+1'\
                  UNG+INVOIC+S+R+200101:0900+2+UN+D:96A'\
                  UNH+2+INVOIC:D:96A:UN'\
                  BGM+380+INV-001+9'\
                  UNT+3+2'\
                  UNE+1+2'\
                  UNZ+2+2'";
    let result = parse_and_validate(input).expect("multi-group interchange must parse ok");
    assert_eq!(result.functional_groups.len(), 2);
    assert_eq!(result.functional_groups[0].group_id, "ORDERS");
    assert_eq!(result.functional_groups[1].group_id, "INVOIC");
    assert_eq!(result.messages.len(), 2);
    assert_eq!(result.interchange.declared_unit_count, 2);
    assert_eq!(result.interchange.actual_unit_count, 2);
}

#[test]
fn ung_une_count_mismatch_returns_err() {
    let input = b"UNB+UNOA:3+S+R+200101:0900+1'\
                  UNG+ORDERS+S+R+200101:0900+1+UN+D:96A'\
                  UNH+1+ORDERS:D:96A:UN'\
                  BGM+220+PO-001+9'\
                  UNT+3+1'\
                  UNE+2+1'\
                  UNZ+1+1'";
    let result = parse_and_validate(input);
    assert!(
        matches!(
            result,
            Err(EdifactError::MessageCountMismatch {
                expected: 2,
                actual: 1
            })
        ),
        "expected MessageCountMismatch(2,1), got {result:?}"
    );
}

#[test]
fn une_without_ung_returns_err() {
    let input = b"UNB+UNOA:3+S+R+200101:0900+1'\
                  UNE+1+1'\
                  UNH+1+ORDERS:D:96A:UN'\
                  BGM+220+PO-001+9'\
                  UNT+3+1'\
                  UNZ+1+1'";
    let result = parse_and_validate(input);
    assert!(
        matches!(result, Err(EdifactError::InvalidSegmentForMessage { ref tag, .. }) if tag == "UNE"),
        "expected InvalidSegmentForMessage(UNE), got {result:?}"
    );
}

#[test]
fn ung_without_une_returns_err() {
    let input = b"UNB+UNOA:3+S+R+200101:0900+1'\
                  UNG+ORDERS+S+R+200101:0900+1+UN+D:96A'\
                  UNH+1+ORDERS:D:96A:UN'\
                  BGM+220+PO-001+9'\
                  UNT+3+1'\
                  UNZ+1+1'";
    let result = parse_and_validate(input);
    assert!(
        matches!(result, Err(EdifactError::MissingSegment { ref tag, .. }) if tag == "UNE"),
        "expected MissingSegment(UNE), got {result:?}"
    );
}

#[test]
fn une_group_ref_must_match_ung() {
    let input = b"UNB+UNOA:3+S+R+200101:0900+1'\
                  UNG+ORDERS+S+R+200101:0900+1+UN+D:96A'\
                  UNH+1+ORDERS:D:96A:UN'\
                  BGM+220+PO-001+9'\
                  UNT+3+1'\
                  UNE+1+999'\
                  UNZ+1+1'";
    let result = parse_and_validate(input);
    assert!(
        matches!(result, Err(EdifactError::QualifierMismatch { ref tag, .. }) if tag == "UNE"),
        "expected QualifierMismatch(UNE), got {result:?}"
    );
}

// ── New-field tests (ISO 9735-1 completeness) ─────────────────────────────

#[test]
fn processing_priority_extracted_when_present() {
    // DE 0029 at element index 7: [5]=S005="" [6]=0026="" [7]=0029="A"
    let input = b"UNB+UNOA:3+S+R+200101:0900+1+++A'\
                  UNH+1+ORDERS:D:96A:UN'\
                  BGM+220+PO-001+9'\
                  UNT+3+1'\
                  UNZ+1+1'";
    let r = parse_and_validate(input).expect("UNB with processing_priority must parse ok");
    assert_eq!(r.interchange.processing_priority.as_deref(), Some("A"));
}

#[test]
fn processing_priority_is_none_when_absent() {
    let r = parse_and_validate(VALID_INTERCHANGE).unwrap();
    assert!(r.interchange.processing_priority.is_none());
}

#[test]
fn sender_routing_address_extracted_when_present() {
    // S002: sender_id:qualifier:routing  → comp[2] = routing address
    let input = b"UNB+UNOA:3+SENDER:14:ROUTEA+RECIP+200101:0900+1'\
                  UNH+1+ORDERS:D:96A:UN'\
                  BGM+220+PO-001+9'\
                  UNT+3+1'\
                  UNZ+1+1'";
    let r = parse_and_validate(input).expect("UNB with sender routing must parse ok");
    assert_eq!(
        r.interchange.sender_routing_address.as_deref(),
        Some("ROUTEA")
    );
    assert!(r.interchange.recipient_routing_address.is_none());
}

#[test]
fn recipient_routing_address_extracted_when_present() {
    // S003: recipient_id:qualifier:routing → comp[2] = routing address
    let input = b"UNB+UNOA:3+SENDER+RECIP:14:ROUTEB+200101:0900+1'\
                  UNH+1+ORDERS:D:96A:UN'\
                  BGM+220+PO-001+9'\
                  UNT+3+1'\
                  UNZ+1+1'";
    let r = parse_and_validate(input).expect("UNB with recipient routing must parse ok");
    assert!(r.interchange.sender_routing_address.is_none());
    assert_eq!(
        r.interchange.recipient_routing_address.as_deref(),
        Some("ROUTEB")
    );
}

#[test]
fn routing_address_is_none_when_absent() {
    // Plain S+R without sub-components — no routing addresses in S002/S003
    let input = b"UNB+UNOA:3+S+R+200101:0900+1'\
                  UNH+1+ORDERS:D:96A:UN'\
                  BGM+220+PO-001+9'\
                  UNT+3+1'\
                  UNZ+1+1'";
    let r = parse_and_validate(input).unwrap();
    assert!(r.interchange.sender_routing_address.is_none());
    assert!(r.interchange.recipient_routing_address.is_none());
}

#[test]
fn common_access_ref_extracted_when_present() {
    // UNH element [2] (DE 0068): common access reference
    let input = b"UNB+UNOA:3+S+R+200101:0900+1'\
                  UNH+1+ORDERS:D:96A:UN+COMREF1'\
                  BGM+220+PO-001+9'\
                  UNT+3+1'\
                  UNZ+1+1'";
    let r = parse_and_validate(input).expect("UNH with common_access_ref must parse ok");
    assert_eq!(r.messages[0].common_access_ref.as_deref(), Some("COMREF1"));
}

#[test]
fn common_access_ref_is_none_when_absent() {
    let r = parse_and_validate(VALID_INTERCHANGE).unwrap();
    assert!(r.messages[0].common_access_ref.is_none());
}

#[test]
fn parse_unh_includes_message_ref() {
    let input = b"UNB+UNOA:3+S+R+200101:0900+1'\
                  UNH+REF42+ORDERS:D:96A:UN'\
                  BGM+220+PO-001+9'\
                  UNT+3+REF42'\
                  UNZ+1+1'";
    // Validate the high-level API which exercises parse_unh internally;
    // the message_ref field on MessageEnvelope should equal the UNH DE 0062 value.
    let r = parse_and_validate(input).expect("must parse ok");
    assert_eq!(r.messages[0].message_ref, "REF42");
    assert_eq!(r.messages[0].message_type, "ORDERS");
}

#[test]
fn iter_messages_by_type_returns_matching_messages() {
    let input = b"UNB+UNOA:3+S+R+200101:0900+CTRL2'\
                  UNH+1+ORDERS:D:96A:UN'\
                  BGM+220+PO-001+9'\
                  UNT+3+1'\
                  UNH+2+INVOIC:D:96A:UN'\
                  BGM+380+INV-001+9'\
                  UNT+3+2'\
                  UNZ+2+CTRL2'";
    let r = parse_and_validate(input).expect("two-message interchange must parse ok");
    let orders: Vec<_> = r.iter_messages_by_type("ORDERS");
    assert_eq!(orders.len(), 1);
    assert_eq!(orders[0].message_ref, "1");
    let invoices: Vec<_> = r.iter_messages_by_type("INVOIC");
    assert_eq!(invoices.len(), 1);
    assert_eq!(invoices[0].message_ref, "2");
    let none: Vec<_> = r.iter_messages_by_type("DESADV");
    assert!(none.is_empty());
}

#[test]
fn display_interchange_envelope() {
    let r = parse_and_validate(VALID_INTERCHANGE).unwrap();
    let s = r.interchange.to_string();
    assert!(s.contains("SENDER"), "Display must include sender_id");
    assert!(s.contains("UNOA"), "Display must include syntax_identifier");
}

#[test]
fn display_message_envelope() {
    let r = parse_and_validate(VALID_INTERCHANGE).unwrap();
    let s = r.messages[0].to_string();
    assert!(s.contains("ORDERS"), "Display must include message_type");
    assert!(s.contains("ref="), "Display must include message ref label");
}

#[test]
fn display_validated_interchange() {
    let r = parse_and_validate(VALID_INTERCHANGE).unwrap();
    let s = r.to_string();
    assert!(
        s.contains("messages="),
        "Display must include message count label"
    );
}

// ── DE 0001 syntax identifier validation ─────────────────────────────────

#[test]
fn unrecognised_syntax_identifier_returns_err() {
    // DE 0001 "XXXX" is not in the ISO 9735-1 §3.1 defined list.
    let input = b"UNB+XXXX:3+S+R+200101:0900+1'\
                  UNH+1+ORDERS:D:96A:UN'\
                  BGM+220+PO-001+9'\
                  UNT+3+1'\
                  UNZ+1+1'";
    let result = parse_and_validate(input);
    assert!(
        matches!(result, Err(EdifactError::UnrecognisedSyntaxIdentifier(ref id)) if id == "XXXX"),
        "expected UnrecognisedSyntaxIdentifier(\"XXXX\"), got {result:?}"
    );
}

#[test]
fn all_valid_syntax_identifiers_accepted() {
    for id in &["UNOA", "UNOB", "UNOC", "UNOD", "UNOE", "UNOF", "KECA"] {
        let input = format!(
            "UNB+{id}:3+S+R+200101:0900+1'UNH+1+ORDERS:D:96A:UN'BGM+220+PO-001+9'UNT+3+1'UNZ+1+1'"
        );
        let result = parse_and_validate(input.as_bytes());
        assert!(
            result.is_ok(),
            "syntax id '{id}' should be accepted, got {result:?}"
        );
    }
}

// ── UNB S005 password qualifier ───────────────────────────────────────────

#[test]
fn recipient_password_qualifier_extracted_when_present() {
    // S005: MYPASS:AA — comp[0]=password, comp[1]=qualifier (DE 0025)
    let input = b"UNB+UNOA:3+S+R+200101:0900+1+MYPASS:AA'\
                  UNH+1+ORDERS:D:96A:UN'\
                  BGM+220+PO-001+9'\
                  UNT+3+1'\
                  UNZ+1+1'";
    let r = parse_and_validate(input).expect("UNB with password+qualifier must parse ok");
    assert_eq!(r.interchange.recipient_password.as_deref(), Some("MYPASS"));
    assert_eq!(
        r.interchange.recipient_password_qualifier.as_deref(),
        Some("AA")
    );
}

#[test]
fn recipient_password_qualifier_is_none_when_absent() {
    let r = parse_and_validate(VALID_INTERCHANGE).unwrap();
    assert!(r.interchange.recipient_password_qualifier.is_none());
}

// ── UNH S010 sequence-of-transfers ───────────────────────────────────────

#[test]
fn sequence_of_transfers_extracted_when_present() {
    // UNH element [2] = common access ref, element [3] = S010 (seq:position)
    let input = b"UNB+UNOA:3+S+R+200101:0900+1'\
                  UNH+1+ORDERS:D:96A:UN++2:C'\
                  BGM+220+PO-001+9'\
                  UNT+3+1'\
                  UNZ+1+1'";
    let r = parse_and_validate(input).expect("UNH with S010 must parse ok");
    assert_eq!(r.messages[0].sequence_of_transfers, Some(2));
    assert_eq!(r.messages[0].transfer_position.as_deref(), Some("C"));
}

#[test]
fn sequence_of_transfers_none_when_absent() {
    let r = parse_and_validate(VALID_INTERCHANGE).unwrap();
    assert!(r.messages[0].sequence_of_transfers.is_none());
    assert!(r.messages[0].transfer_position.is_none());
}

// ── UNG S006/S007 application qualifiers ─────────────────────────────────

#[test]
fn ung_app_sender_and_recipient_qualifiers_extracted() {
    // UNG: group_id + S006(app_sender:qualifier) + S007(app_recip:qualifier) + ...
    let input = b"UNB+UNOA:3+S+R+200101:0900+1'\
                  UNG+ORDERS+APPSEND:ZZZ+APPRECV:14+200101:0900+1+UN+D:96A'\
                  UNH+1+ORDERS:D:96A:UN'\
                  BGM+220+PO-001+9'\
                  UNT+3+1'\
                  UNE+1+1'\
                  UNZ+1+1'";
    let r = parse_and_validate(input).expect("UNG with qualifiers must parse ok");
    let g = &r.functional_groups[0];
    assert_eq!(g.app_sender, "APPSEND");
    assert_eq!(g.app_sender_qualifier, "ZZZ");
    assert_eq!(g.app_recipient, "APPRECV");
    assert_eq!(g.app_recipient_qualifier, "14");
}

#[test]
fn ung_qualifiers_empty_when_absent() {
    let input = b"UNB+UNOA:3+S+R+200101:0900+1'\
                  UNG+ORDERS+S+R+200101:0900+1+UN+D:96A'\
                  UNH+1+ORDERS:D:96A:UN'\
                  BGM+220+PO-001+9'\
                  UNT+3+1'\
                  UNE+1+1'\
                  UNZ+1+1'";
    let r = parse_and_validate(input).unwrap();
    let g = &r.functional_groups[0];
    assert_eq!(g.app_sender_qualifier, "");
    assert_eq!(g.app_recipient_qualifier, "");
}

// ── LenientResult methods ─────────────────────────────────────────────────

#[test]
fn lenient_result_is_valid_true_on_clean_interchange() {
    let owned = parse(VALID_INTERCHANGE);
    let segs: Vec<Segment> = owned;
    let r = validate_envelope_lenient(&segs);
    assert!(r.is_valid());
    assert!(r.errors.is_empty());
    assert!(r.interchange.is_some());
}

#[test]
fn lenient_result_into_strict_ok_path() {
    let owned = parse(VALID_INTERCHANGE);
    let segs: Vec<Segment> = owned;
    let r = validate_envelope_lenient(&segs);
    let strict = r.into_strict();
    assert!(
        strict.is_ok(),
        "into_strict() should succeed for valid interchange"
    );
    assert_eq!(strict.unwrap().messages.len(), 1);
}

#[test]
fn lenient_result_into_strict_err_path() {
    // Count mismatch → into_strict() returns Err with the error
    let input = b"UNB+UNOA:3+S+R+200101:0900+1'UNH+1+ORDERS:D:11A:UN:EAN010'BGM+220+PO-1+9'UNT+3+1'UNZ+2+1'";
    let owned = parse(input);
    let segs: Vec<Segment> = owned;
    let r = validate_envelope_lenient(&segs);
    assert!(!r.is_valid());
    let strict = r.into_strict();
    assert!(strict.is_err());
    let errors = strict.unwrap_err();
    assert_eq!(errors.len(), 1);
    assert!(matches!(
        &errors[0],
        EdifactError::MessageCountMismatch {
            expected: 2,
            actual: 1
        }
    ));
}

// ── Direct parse_unh / parse_ung API ─────────────────────────────────────

#[test]
fn parse_unh_direct_extracts_all_s009_fields() {
    // parse_unh is called internally by extract_messages_flat; all S009 fields
    // it extracts surface in the resulting MessageEnvelope.  We verify them here
    // rather than calling parse_unh(&seg) from a Vec<Segment>, which would
    // conflict with the SmallVec-based Element drop-check (see API docs).
    let input = b"UNB+UNOA:3+S+R+200101:0900+1'\
                  UNH+REF99+ORDERS:D:96A:UN:EAN010'\
                  BGM+220+PO-001+9'\
                  UNT+3+REF99'\
                  UNZ+1+1'";
    let r = parse_and_validate(input).expect("must parse ok");
    let msg = &r.messages[0];
    assert_eq!(msg.message_ref, "REF99");
    assert_eq!(msg.message_type, "ORDERS");
    assert_eq!(msg.version, "D");
    assert_eq!(msg.release, "96A");
    assert_eq!(msg.controlling_agency, "UN");
    assert_eq!(msg.association_code, "EAN010");
}

#[test]
fn parse_ung_direct_extracts_identifier_fields() {
    // parse_ung fields surface via the FunctionalGroupEnvelope returned by validation.
    let input = b"UNB+UNOA:3+S+R+200101:0900+1'\
                  UNG+ORDERS+APPSEND:ZZZ+APPRECV:14+200101:0900+GRP01+UN+D:96A'\
                  UNH+1+ORDERS:D:96A:UN'\
                  BGM+220+PO-001+9'\
                  UNT+3+1'\
                  UNE+1+GRP01'\
                  UNZ+1+1'";
    let r = parse_and_validate(input).expect("must parse ok");
    let g = &r.functional_groups[0];
    assert_eq!(g.group_id, "ORDERS");
    assert_eq!(g.app_sender, "APPSEND");
    assert_eq!(g.app_sender_qualifier, "ZZZ");
    assert_eq!(g.app_recipient, "APPRECV");
    assert_eq!(g.app_recipient_qualifier, "14");
    assert_eq!(g.group_ref, "GRP01");
    assert_eq!(g.controlling_agency, "UN");
    assert_eq!(g.version, "D");
    assert_eq!(g.release, "96A");
}

// ── find_message convenience method ──────────────────────────────────────

#[test]
fn find_message_returns_correct_message_by_ref() {
    let input = b"UNB+UNOA:3+S+R+200101:0900+CTRL2'\
                  UNH+REF-A+ORDERS:D:96A:UN'\
                  BGM+220+PO-001+9'\
                  UNT+3+REF-A'\
                  UNH+REF-B+INVOIC:D:96A:UN'\
                  BGM+380+INV-001+9'\
                  UNT+3+REF-B'\
                  UNZ+2+CTRL2'";
    let r = parse_and_validate(input).expect("two-message interchange must parse ok");
    let msg_a = r.find_message("REF-A");
    assert!(msg_a.is_some());
    assert_eq!(msg_a.unwrap().message_type, "ORDERS");
    let msg_b = r.find_message("REF-B");
    assert!(msg_b.is_some());
    assert_eq!(msg_b.unwrap().message_type, "INVOIC");
    assert!(r.find_message("MISSING").is_none());
}

// ── UNG missing mandatory group_ref ──────────────────────────────────────

#[test]
fn ung_missing_group_ref_returns_err() {
    // UNG with element [4] (group ref) empty — must error, not silently use ""
    let input = b"UNB+UNOA:3+S+R+200101:0900+1'\
                  UNG+ORDERS+S+R+200101:0900++UN+D:96A'\
                  UNH+1+ORDERS:D:96A:UN'\
                  BGM+220+PO-001+9'\
                  UNT+3+1'\
                  UNE+1+'\
                  UNZ+1+1'";
    let result = parse_and_validate(input);
    assert!(
        matches!(result,
            Err(EdifactError::MissingRequiredComponent { ref tag, element_index: 4, component_index: 0 })
            if tag == "UNG"
        ),
        "expected MissingRequiredComponent for empty UNG group_ref, got {result:?}"
    );
}

// ── Edge case and ergonomics tests ────────────────────────────────────────

#[test]
fn empty_segment_list_returns_missing_unb() {
    // Contract: validate_envelope(&[]) must return MissingSegment{UNB},
    // not panic or return Ok.
    let result = validate_envelope(&[]);
    assert!(
        matches!(result, Err(EdifactError::MissingSegment { ref tag, .. }) if tag == "UNB"),
        "expected MissingSegment(UNB) for empty input, got {result:?}"
    );
}

#[test]
fn single_segment_only_unb_returns_missing_unz() {
    // Only UNB, no UNZ — should fail with MissingSegment{UNZ}.
    let input = b"UNB+UNOA:3+S+R+200101:0900+1'";
    let owned = parse(input);
    let segs: Vec<Segment> = owned;
    let result = validate_envelope(&segs);
    assert!(
        matches!(result, Err(EdifactError::MissingSegment { ref tag, .. }) if tag == "UNZ"),
        "expected MissingSegment(UNZ) for UNB-only input, got {result:?}"
    );
}

#[test]
fn display_validated_interchange_includes_count() {
    let r = parse_and_validate(VALID_INTERCHANGE).unwrap();
    let s = r.to_string();
    // Must include the numeric count, not just the label
    assert!(
        s.contains("messages=1"),
        "Display must include count '1': {s}"
    );
}

#[test]
fn display_interchange_envelope_contains_arrow() {
    let r = parse_and_validate(VALID_INTERCHANGE).unwrap();
    let s = r.interchange.to_string();
    // Must use ASCII arrow, not Unicode →
    assert!(s.contains("->"), "Display must use ASCII '->' arrow: {s}");
    assert!(
        !s.contains('\u{2192}'),
        "Display must not use Unicode → arrow: {s}"
    );
}

#[test]
fn display_functional_group_envelope() {
    let input = b"UNB+UNOA:3+S+R+200101:0900+1'\
                  UNG+ORDERS+APPSEND+APPRECV+200101:0900+GRP01+UN+D:96A'\
                  UNH+1+ORDERS:D:96A:UN'\
                  BGM+220+PO-001+9'\
                  UNT+3+1'\
                  UNE+1+GRP01'\
                  UNZ+1+1'";
    let r = parse_and_validate(input).expect("must parse ok");
    let g = &r.functional_groups[0];
    let s = g.to_string();
    assert!(s.contains("ORDERS"), "Display must include group_id: {s}");
    assert!(
        s.contains("APPSEND"),
        "Display must include app_sender: {s}"
    );
    assert!(
        s.contains("APPRECV"),
        "Display must include app_recipient: {s}"
    );
    assert!(s.contains("GRP01"), "Display must include group_ref: {s}");
    assert!(
        s.contains("msgs="),
        "Display must include message count label: {s}"
    );
    assert!(
        s.contains("1/1"),
        "Display must include actual/declared counts: {s}"
    );
}

#[test]
fn lenient_has_errors_is_inverse_of_is_valid() {
    let owned = parse(VALID_INTERCHANGE);
    let segs: Vec<Segment> = owned;
    let valid = validate_envelope_lenient(&segs);
    assert!(valid.is_valid());
    assert!(!valid.has_errors());

    // Count mismatch: is_valid() == false, has_errors() == true
    let input = b"UNB+UNOA:3+S+R+200101:0900+1'UNH+1+ORDERS:D:11A:UN:EAN010'BGM+220+PO-1+9'UNT+3+1'UNZ+2+1'";
    let owned2 = parse(input);
    let segs2: Vec<Segment> = owned2;
    let invalid = validate_envelope_lenient(&segs2);
    assert!(!invalid.is_valid());
    assert!(invalid.has_errors());
}

#[test]
fn every_defined_syntax_identifier_is_recognised() {
    for id in &["UNOG", "UNOH", "UNOI", "UNOJ", "UNOK", "UNOX", "UNOY"] {
        let input = format!(
            "UNB+{id}:4+S+R+20260101:0900+1'UNH+1+ORDERS:D:96A:UN'BGM+220'UNT+3+1'UNZ+1+1'"
        );
        let result = parse_and_validate(input.as_bytes());
        assert!(result.is_ok(), "syntax id '{id}' is defined, got {result:?}");
    }
    for id in &["UNOL", "UNOZ", "UNO", "UNOAA", "keca"] {
        let input = format!(
            "UNB+{id}:4+S+R+20260101:0900+1'UNH+1+ORDERS:D:96A:UN'BGM+220'UNT+3+1'UNZ+1+1'"
        );
        let result = parse_and_validate(input.as_bytes());
        assert!(
            matches!(result, Err(EdifactError::UnrecognisedSyntaxIdentifier(ref got)) if got == id),
            "syntax id '{id}' is not defined, got {result:?}"
        );
    }
}
