use edifact_rs::{EdifactError, Span};

#[test]
fn recovery_hint_exists_for_common_malformed_cases() {
    let err = EdifactError::InvalidReleaseSequence { offset: 10 };
    assert!(err.recovery_hint().is_some());

    let err = EdifactError::InvalidCodeValue {
        tag: "BGM".to_owned(),
        element_index: 0,
        value: "X".to_owned(),
        code_list: "1001".to_owned(),
        span: Span::new(0, 9),
        suggestion: None,
    };
    assert!(err.recovery_hint().is_some());
}

#[test]
fn stable_codes_name_each_error() {
    assert_eq!(EdifactError::UnexpectedEof { offset: 0 }.stable_code(), "E001");
    assert_eq!(EdifactError::InvalidUna.stable_code(), "E007");
    assert_eq!(EdifactError::InvalidReleaseSequence { offset: 3 }.stable_code(), "E019");
}

#[test]
fn help_texts_carry_the_values_involved() {
    assert_eq!(
        EdifactError::InvalidDelimiter { byte: 0x1f, offset: 12 }.help(),
        "The byte 0x1F at offset 12 is not a valid delimiter. Check UNA configuration"
    );
    assert_eq!(
        EdifactError::MessageCountMismatch { expected: 2, actual: 1 }.help(),
        "UNZ declares 2 message(s) but 1 UNH/UNT pair(s) were found. Check the UNZ message count"
    );
    assert_eq!(
        EdifactError::InvalidFieldValue { tag: "DTM".to_owned(), element_index: 0, value: "x\"y".to_owned() }.help(),
        "Segment DTM element 0 has invalid value 'x\"y'. Check the expected format or range for this field"
    );
    assert_eq!(
        EdifactError::IncompatibleReleaseScopes { current: "D96A".to_owned(), incoming: "a\"b".to_owned() }.help(),
        "Release scope \"D96A\" and \"a\\\"b\" are incompatible. Only compose ProfileRulePack values that share the same release scope, or where at most one carries a release scope"
    );
    assert_eq!(
        EdifactError::TrailingSeparator { tag: "NAD".to_owned(), element_index: None, span: Span::new(0, 4) }.help(),
        "Segment NAD ends in a data element separator with no value after it. ISO 9735-1 §8.7.1 requires trailing data element separators to be omitted"
    );
    assert!(EdifactError::InvalidUna.help().starts_with("UNA segment must be exactly 9 bytes"));
}

#[test]
fn help_for_an_unrecognised_syntax_identifier_names_the_defined_set() {
    let e = EdifactError::UnrecognisedSyntaxIdentifier("UNOZ".to_owned());
    let h = e.help();
    assert!(h.contains("'UNOZ'"));
    assert!(h.contains("UNOA through UNOK, UNOX, UNOY"));
    assert!(h.contains("KECA"));
}
