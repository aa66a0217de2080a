use edifact_rs::{
    find_qualified_segment, find_segment, find_segments, from_bufread_stream, from_bytes, message_windows,
    message_windows_from_stream, qualifier_matches_pattern, windows_of_segments, EdifactError, MessageWindow,
    MessageWindows, Segment,
};

fn parse_all(input: &[u8]) -> Vec<Segment> {
    from_bytes(input).collect_segments().expect("parse failed")
}

fn collect(windows: Vec<Result<MessageWindow, EdifactError>>) -> Result<Vec<MessageWindow>, EdifactError> {
    windows.into_iter().collect()
}

#[test]
fn qualifier_patterns_match_the_documented_way() {
    assert!(qualifier_matches_pattern("MS", "M*"));
    assert!(!qualifier_matches_pattern("MS", "M"));
    assert!(qualifier_matches_pattern("MS", "MS"));
    assert!(qualifier_matches_pattern("", ""));
    // Adversarial patterns are refused rather than backtracked.
    assert!(!qualifier_matches_pattern("aaaa", "*a*a*a*a*"));
}

#[test]
fn qualifier_patterns_glob_in_every_position() {
    assert!(qualifier_matches_pattern("ZZ:MS", "*:MS"));
    assert!(!qualifier_matches_pattern("ZZ:MR", "*:MS"));
    assert!(qualifier_matches_pattern("anything", "*"));
    assert!(qualifier_matches_pattern("", "*"));
    assert!(!qualifier_matches_pattern("x", ""));
    assert!(qualifier_matches_pattern("ABCDE", "A*C*E"));
    assert!(!qualifier_matches_pattern("ABDE", "A*C*E"));
    assert!(qualifier_matches_pattern("AXBYC", "A*B*C"));
    assert!(qualifier_matches_pattern("abcabc", "a*b*c*c"));
    // The prefix and the suffix never share a character.
    assert!(!qualifier_matches_pattern("A", "A*A"));
    assert!(qualifier_matches_pattern("AA", "A*A"));
    assert!(!qualifier_matches_pattern("ab", "ab**b"));
    // Three `*`s are still accepted.
    assert!(qualifier_matches_pattern("a1b2c3d", "a*b*c*d"));
}

#[test]
fn finds_segments_by_tag() {
    let segs = parse_all(b"UNH+1+ORDERS:D:96A:UN'NAD+MS+1'NAD+BY+2'NAD+MR+3'UNT+5+1'");
    let first = find_segment(&segs, "NAD").expect("a NAD");
    assert_eq!(first.element_str(0), Some("MS"));
    assert!(find_segment(&segs, "DTM").is_none());
    let all = find_segments(&segs, "NAD");
    assert_eq!(all.len(), 3);
    assert_eq!(all[2].element_str(1), Some("3"));
    assert!(find_segments(&segs, "LIN").is_empty());
}

#[test]
fn finds_a_segment_by_its_qualifier() {
    let segs = parse_all(b"NAD+MS+1'NAD+BY+2'NAD++3'");
    let by = find_qualified_segment(&segs, "NAD", "BY").expect("the buyer");
    assert_eq!(by.element_str(1), Some("2"));
    let empty = find_qualified_segment(&segs, "NAD", "").expect("the unqualified one");
    assert_eq!(empty.element_str(1), Some("3"));
    assert!(find_qualified_segment(&segs, "NAD", "SU").is_none());
    assert!(find_qualified_segment(&segs, "LOC", "MS").is_none());
}

#[test]
fn message_windows_agree_across_both_parsing_paths() {
    let input = b"UNB+UNOA:1+S+R+200101:0900+1'\
                  UNH+1+ORDERS:D:96A:UN'BGM+220+A+9'UNT+3+1'\
                  UNH+2+ORDERS:D:96A:UN'BGM+220+B+9'UNT+3+2'\
                  UNZ+2+1'";

    let sliced = collect(message_windows(input)).unwrap();
    let streamed = collect(message_windows_from_stream(from_bufread_stream(input.to_vec()))).unwrap();

    assert_eq!(sliced.len(), 2);
    assert_eq!(sliced.len(), streamed.len());
    for (a, b) in sliced.iter().zip(&streamed) {
        assert_eq!(a.message_type, b.message_type);
        assert_eq!(a.body().len(), b.body().len());
    }
}

#[test]
fn a_truncated_window_is_an_error_not_a_short_message() {
    let input = b"UNH+1+ORDERS:D:96A:UN'BGM+220+A+9'";
    let err = collect(message_windows(input)).expect_err("an unclosed UNH must not pass as a complete message");
    assert!(matches!(err, EdifactError::UnexpectedEof { .. }));
    assert_eq!(err, EdifactError::UnexpectedEof { offset: 34 });
}

#[test]
fn a_window_carries_its_unh_details_and_body() {
    let input = b"UNH+1+ORDERS:D:96A:UN:EAN008'BGM+220+A+9'DTM+137:20200101:102'UNT+4+1'";
    let windows = collect(message_windows(input)).unwrap();
    assert_eq!(windows.len(), 1);
    let w = &windows[0];
    assert_eq!(w.message_type.as_deref(), Some("ORDERS"));
    assert_eq!(w.association_code.as_deref(), Some("EAN008"));
    assert_eq!(w.segments.len(), 4);
    let body: Vec<&str> = w.body().iter().map(|s| s.tag.as_str()).collect();
    assert_eq!(body, ["BGM", "DTM"]);
}

#[test]
fn an_empty_association_code_is_absent() {
    let input = b"UNH+1+ORDERS:D:96A:UN'UNT+2+1'";
    let windows = collect(message_windows(input)).unwrap();
    assert_eq!(windows[0].message_type.as_deref(), Some("ORDERS"));
    assert_eq!(windows[0].association_code, None);
    assert!(windows[0].body().is_empty());
}

#[test]
fn a_nested_unh_ends_grouping_with_an_error() {
    let input = b"UNH+1+ORDERS:D:96A:UN'BGM+220+A+9'UNH+2+ORDERS:D:96A:UN'UNT+2+2'";
    let windows = message_windows(input);
    assert_eq!(windows.len(), 1);
    match &windows[0] {
        Err(EdifactError::InvalidSegmentForMessage { tag, message_type, span }) => {
            assert_eq!(tag, "UNH");
            assert_eq!(message_type, "ENVELOPE");
            assert_eq!(span.start, 34);
        }
        other => panic!("unexpected {other:?}"),
    }
}

#[test]
fn segments_outside_windows_are_skipped() {
    let input = b"UNB+UNOA:1+S+R+200101:0900+1'UNZ+0+1'";
    assert!(message_windows(input).is_empty());
}

#[test]
fn a_parse_error_is_passed_on_after_the_windows_before_it() {
    let input = b"UNH+1+ORDERS:D:96A:UN'UNT+2+1'BGM+2?";
    let windows = message_windows(input);
    assert_eq!(windows.len(), 2);
    assert!(windows[0].is_ok());
    assert!(windows[1].is_err());
}

#[test]
fn grouping_can_be_fed_one_item_at_a_time() {
    let segs = parse_all(b"UNH+1+ORDERS:D:96A:UN'BGM+220+A+9'UNT+3+1'");
    let mut grouping = MessageWindows::new();
    let mut out = Vec::new();
    for s in segs {
        if let Some(w) = grouping.feed(Some(Ok(s))) {
            out.push(w);
        }
    }
    assert!(grouping.feed(None).is_none());
    assert!(grouping.finished());
    assert_eq!(out.len(), 1);
    assert!(grouping.feed(None).is_none());
}

#[test]
fn grouping_a_list_reports_the_error_that_ended_it() {
    let segs = parse_all(b"UNH+1+ORDERS:D:96A:UN'BGM+220+A+9'UNT+3+1'");
    let windows = windows_of_segments(segs, Some(EdifactError::InvalidUna));
    assert_eq!(windows.len(), 2);
    assert!(matches!(windows[1], Err(EdifactError::InvalidUna)));
}
