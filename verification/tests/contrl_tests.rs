use edifact_rs::contrl::{Finding, Scope};
use edifact_rs::{
    from_bytes, validate_envelope, validate_envelope_lenient, Action, Contrl, EdifactError, ReportingLevel, Segment,
    Span, SyntaxError, ValidationIssue, ValidationReport, ValidationSeverity,
};

fn parse(input: &[u8]) -> Vec<Segment> {
    from_bytes(input).collect_segments().expect("parse")
}

const ALL_ERRORS: &[SyntaxError] = &[
    SyntaxError::SyntaxVersionNotSupported,
    SyntaxError::NotActualRecipient,
    SyntaxError::InvalidValue,
    SyntaxError::Missing,
    SyntaxError::ValueNotSupportedHere,
    SyntaxError::NotSupportedHere,
    SyntaxError::TooManyConstituents,
    SyntaxError::NoAgreement,
    SyntaxError::Unspecified,
    SyntaxError::InvalidAsServiceCharacter,
    SyntaxError::InvalidCharacters,
    SyntaxError::InvalidServiceCharacters,
    SyntaxError::UnknownSender,
    SyntaxError::TooOld,
    SyntaxError::TestIndicatorNotSupported,
    SyntaxError::DuplicateDetected,
    SyntaxError::ReferencesDoNotMatch,
    SyntaxError::ControlCountMismatch,
    SyntaxError::GroupsAndMessagesMixed,
    SyntaxError::LowerLevelEmpty,
    SyntaxError::InvalidOccurrenceOutsideMessage,
    SyntaxError::TooManyRepetitions,
    SyntaxError::TooManyGroupRepetitions,
    SyntaxError::InvalidCharacterType,
    SyntaxError::DataElementTooLong,
    SyntaxError::DataElementTooShort,
    SyntaxError::TrailingSeparator,
    SyntaxError::CharacterSetNotSupported,
    SyntaxError::EnvelopeFunctionalityNotSupported,
];

const ALL_LEVELS: [ReportingLevel; 5] = [
    ReportingLevel::Interchange,
    ReportingLevel::Group,
    ReportingLevel::Message,
    ReportingLevel::Segment,
    ReportingLevel::DataElement,
];

#[test]
fn annex_a_permits_a_code_only_where_the_table_says() {
    assert!(SyntaxError::NotActualRecipient.permitted_at(ReportingLevel::Interchange));
    assert!(!SyntaxError::NotActualRecipient.permitted_at(ReportingLevel::Group));
    assert!(SyntaxError::TooManyGroupRepetitions.permitted_at(ReportingLevel::Segment));
    assert!(!SyntaxError::TooManyGroupRepetitions.permitted_at(ReportingLevel::DataElement));
    assert!(SyntaxError::LowerLevelEmpty.permitted_at(ReportingLevel::Group));
    assert!(!SyntaxError::LowerLevelEmpty.permitted_at(ReportingLevel::Message));
    assert!(SyntaxError::EnvelopeFunctionalityNotSupported.permitted_at(ReportingLevel::Group));
    assert!(!SyntaxError::EnvelopeFunctionalityNotSupported.permitted_at(ReportingLevel::Interchange));
    for level in ALL_LEVELS {
        assert!(SyntaxError::InvalidValue.permitted_at(level), "{level:?}");
    }
}

#[test]
fn every_code_is_permitted_somewhere() {
    for error in ALL_ERRORS {
        assert!(ALL_LEVELS.iter().any(|level| error.permitted_at(*level)), "{error:?} is permitted nowhere");
    }
}

#[test]
fn codes_are_unique() {
    let mut codes: Vec<&str> = ALL_ERRORS.iter().map(|e| e.code()).collect();
    codes.sort_unstable();
    let before = codes.len();
    codes.dedup();
    assert_eq!(before, codes.len(), "duplicate DE 0085 code");
}

#[test]
fn a_receipt_carries_action_8_and_nothing_else() {
    let raw = b"UNB+UNOC:3+S+R+260101:0900+IC1'UNH+M1+ORDERS:D:96A:UN'BGM+220'UNT+3+M1'UNZ+1+IC1'";
    let segments = parse(raw);
    let validated = validate_envelope(&segments).expect("valid subject");

    let wire = Contrl::receipt(&validated.interchange).to_edifact_string().expect("render");
    assert!(wire.contains("UCI+IC1+S+R+8'"), "{wire}");
    assert_eq!(Contrl::receipt(&validated.interchange).action(), Action::Received);
}

#[test]
fn the_message_reference_defaults_to_the_subject_control_reference() {
    let raw = b"UNB+UNOC:3+S+R+260101:0900+IC-42'UNH+M1+ORDERS:D:96A:UN'BGM+220'UNT+3+M1'UNZ+1+IC-42'";
    let segments = parse(raw);
    let validated = validate_envelope(&segments).expect("valid subject");
    assert_eq!(Contrl::acknowledgement(&validated).message_reference(), "IC-42");
}

#[test]
fn a_forbidden_interchange_level_code_is_not_recorded() {
    let raw = b"UNB+UNOC:3+S+R+260101:0900+IC1'UNH+M1+ORDERS:D:96A:UN'BGM+220'UNT+3+M1'UNZ+1+IC1'";
    let segments = parse(raw);
    let validated = validate_envelope(&segments).expect("valid subject");
    let wire = Contrl::acknowledgement(&validated)
        .with_interchange_error(SyntaxError::TooManyGroupRepetitions)
        .to_edifact_string()
        .expect("render");
    assert!(wire.contains("UCI+IC1+S+R+7'"), "{wire}");
}

#[test]
fn a_finding_lands_at_the_lowest_level_annex_a_permits() {
    let duplicate = Finding {
        scope: Scope::Message { index: 0, segment_position: 1 },
        element_position: Some(2),
        component_position: None,
        rejects: true,
        error: SyntaxError::DuplicateDetected,
    };
    assert_eq!(duplicate.level(), ReportingLevel::Message);

    let invalid = Finding { error: SyntaxError::InvalidValue, ..duplicate.clone() };
    assert_eq!(invalid.level(), ReportingLevel::DataElement);

    let segment_only = Finding { element_position: None, ..invalid.clone() };
    assert_eq!(segment_only.level(), ReportingLevel::Segment);

    let group_repetitions = Finding { error: SyntaxError::TooManyGroupRepetitions, ..duplicate };
    assert_eq!(group_repetitions.level(), ReportingLevel::Segment);
}

#[test]
fn error_mapping_picks_the_narrowest_annex_a_code() {
    let cases: [(EdifactError, SyntaxError); 6] = [
        (EdifactError::MessageCountMismatch { expected: 1, actual: 2 }, SyntaxError::ControlCountMismatch),
        (
            EdifactError::DuplicateReference { tag: "UNH".to_owned(), reference: "1".to_owned(), span: Span::new(0, 1) },
            SyntaxError::DuplicateDetected,
        ),
        (EdifactError::UnsupportedCharset { syntax_identifier: "UNOX".to_owned() }, SyntaxError::CharacterSetNotSupported),
        (EdifactError::InvalidUna, SyntaxError::InvalidServiceCharacters),
        (EdifactError::EmptyInterchange { control_ref: "IC1".to_owned() }, SyntaxError::LowerLevelEmpty),
        (
            EdifactError::PackageNotSupported { tag: "UNO".to_owned(), span: Span::new(0, 1) },
            SyntaxError::EnvelopeFunctionalityNotSupported,
        ),
    ];
    for (error, expected) in cases {
        assert_eq!(SyntaxError::for_error(&error), expected, "{error:?}");
    }
}

#[test]
fn an_acknowledgement_of_a_clean_interchange_is_a_bare_uci() {
    let raw = b"UNB+UNOC:3+SENDER:14+RECEIVER:14+260101:0900+IC4711'UNH+MSG1+ORDERS:D:96A:UN'BGM+220+PO-1+9'UNT+3+MSG1'UNZ+1+IC4711'";
    let segments = parse(raw);
    let validated = validate_envelope(&segments).expect("valid subject");
    let wire = Contrl::acknowledgement(&validated).with_message_reference("ACK1").to_edifact_string().expect("render");
    assert_eq!(wire, "UNH+ACK1+CONTRL:4:1:UN'UCI+IC4711+SENDER:14+RECEIVER:14+7'UNT+3+ACK1'");
}

#[test]
fn a_located_count_fault_is_reported_on_its_message() {
    let raw = b"UNB+UNOC:3+S+R+260101:0900+IC1'UNH+M1+ORDERS:D:96A:UN'BGM+220'UNT+9+M1'UNZ+1+IC1'";
    let segments = parse(raw);
    let validated = validate_envelope_lenient(&segments).interchange.expect("interpretable");
    let mut report = ValidationReport::default();
    report.add_error(
        ValidationIssue::new(ValidationSeverity::Error, "count").with_error_code("E005").with_span(segments[3].span),
    );
    let contrl = Contrl::from_report(&validated, &segments, &report);
    assert_eq!(contrl.action(), Action::Acknowledged);
    assert_eq!(
        contrl.to_edifact_string().unwrap(),
        "UNH+IC1+CONTRL:4:1:UN'UCI+IC1+S+R+7'UCM+M1+ORDERS:D:96A:UN+4+29'UNT+4+IC1'"
    );
}

#[test]
fn an_unlocated_error_rejects_the_interchange() {
    let raw = b"UNB+UNOC:3+S+R+260101:0900+IC1'UNH+M1+ORDERS:D:96A:UN'BGM+220'UNT+3+M1'UNZ+1+IC1'";
    let segments = parse(raw);
    let validated = validate_envelope(&segments).expect("valid subject");
    let mut report = ValidationReport::default();
    report.add_error(ValidationIssue::new(ValidationSeverity::Error, "refs").with_error_code("E016"));
    let contrl = Contrl::from_report(&validated, &segments, &report);
    assert_eq!(contrl.action(), Action::Rejected);
    assert_eq!(contrl.to_edifact_string().unwrap(), "UNH+IC1+CONTRL:4:1:UN'UCI+IC1+S+R+4+28'UNT+3+IC1'");
}

#[test]
fn a_contrl_interchange_reparses_and_validates() {
    let raw = b"UNB+UNOC:3+S+R+260101:0900+IC1'UNH+M1+ORDERS:D:96A:UN'BGM+220'UNT+3+M1'UNZ+1+IC1'";
    let segments = parse(raw);
    let validated = validate_envelope(&segments).expect("valid subject");
    let wire = Contrl::acknowledgement(&validated)
        .to_interchange_string("UNOC", "3", "260101", "0930", "ACK-1")
        .expect("render");
    let reparsed = parse(wire.as_bytes());
    let again = validate_envelope(&reparsed).expect("generated CONTRL must validate");
    assert_eq!(again.messages.len(), 1);
    assert_eq!(again.messages[0].message_type, "CONTRL");
    assert_eq!(again.messages[0].declared_segment_count, again.messages[0].actual_segment_count);
}
