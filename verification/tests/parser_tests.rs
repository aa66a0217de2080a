use edifact_rs::{
    from_bufread_stream, from_bufread_stream_with_config, from_bytes, from_bytes_with_config, EdifactError,
    OwnedSegmentStream, ReaderConfig, Segment, Span,
};

fn parse_all(input: &[u8]) -> Vec<Segment> {
    from_bytes(input).collect_segments().expect("parse failed")
}

fn from_reader(input: &[u8]) -> Result<Vec<Segment>, EdifactError> {
    from_bufread_stream(input.to_vec()).collect_segments()
}

#[test]
fn parses_unb_unz() {
    let input = b"UNB+UNOA:1+SENDER+RECEIVER+200101:0900+1'UNZ+0+1'";
    let segs = parse_all(input);
    assert_eq!(segs.len(), 2);
    assert_eq!(segs[0].tag, "UNB");
    assert_eq!(segs[1].tag, "UNZ");
    assert_eq!(segs[0].tag_span, Span::new(0, 3));
    assert_eq!(segs[0].span, Span::new(0, 41));
}

#[test]
fn element_access() {
    let input = b"BGM+220+ORDER123+9'";
    let segs = parse_all(input);
    assert_eq!(segs[0].element_str(0), Some("220"));
    assert_eq!(segs[0].element_str(1), Some("ORDER123"));
}

#[test]
fn component_access() {
    let input = b"DTM+137:20200101:102'";
    let segs = parse_all(input);
    let dtm = &segs[0];
    assert_eq!(dtm.get_element(0).unwrap().get_component(0), Some("137"));
    assert_eq!(dtm.get_element(0).unwrap().get_component(1), Some("20200101"));
    assert_eq!(dtm.get_element(0).unwrap().get_component(2), Some("102"));
}

#[test]
fn release_char_resolved() {
    let input = b"FTX+AAA++test?+value'";
    let segs = parse_all(input);
    assert_eq!(segs[0].element_str(2), Some("test+value"));
    assert_eq!(segs[0].get_element(2).unwrap().component_span(0), Some(Span::new(9, 20)));
}

#[test]
fn reader_path_preserves_custom_una_delimiters() {
    let input = b"UNA:;.? 'BGM;220;test?;value'";
    let segments = from_reader(input).expect("reader parse should succeed");
    let bgm = segments.iter().find(|segment| segment.tag == "BGM").expect("BGM segment should be present");
    assert_eq!(bgm.elements[0].components.as_slice()[0].0, "220");
    assert_eq!(bgm.elements[1].components.as_slice()[0].0, "test;value");
}

#[test]
fn arbitrary_bytes_no_panic() {
    let garbage: &[u8] = b"\xff\x00\x01\x02ABC+++'''???";
    let mut it = from_bytes(garbage);
    while let Some(_) = it.next() {}
}

#[test]
fn from_reader_handles_chunk_boundaries() {
    let input = b"UNA:+.? 'BGM+220+test?+value'UNT+2+1'";
    let parsed = from_reader(input).expect("reader parsing should succeed");
    assert_eq!(parsed.len(), 2);
    assert_eq!(parsed[0].tag, "BGM");
    assert_eq!(parsed[0].elements[1].components.as_slice()[0].0, "test+value");
    assert_eq!(parsed[1].tag, "UNT");
}

#[test]
fn from_reader_without_una_uses_default_delimiters() {
    let input = b"BGM+220+X'UNT+2+1'";
    let parsed = from_reader(input).expect("reader parsing should succeed");
    assert_eq!(parsed.len(), 2);
    assert_eq!(parsed[0].tag, "BGM");
    assert_eq!(parsed[0].elements[0].components.as_slice()[0].0, "220");
    assert_eq!(parsed[1].span, Span::new(10, 18));
}

#[test]
fn dangling_release_sequence_is_error() {
    let input = b"FTX+AAA++dangling?";
    let err = from_bytes(input).collect_segments().expect_err("expected dangling release to fail");
    assert!(matches!(err, EdifactError::InvalidReleaseSequence { .. }));
}

#[test]
fn from_reader_reports_dangling_release_sequence() {
    let input = b"FTX+AAA++dangling?";
    let err = from_reader(input).expect_err("expected dangling release from reader path");
    assert!(matches!(err, EdifactError::InvalidReleaseSequence { .. }));
}

#[test]
fn from_reader_rejects_invalid_una() {
    let input = b"UNA::.? 'BGM:220'";
    let err = from_reader(input).expect_err("invalid UNA should fail reader parsing");
    assert!(matches!(err, EdifactError::InvalidUna));
}

#[test]
fn a_segment_over_the_configured_limit_is_refused() {
    let cfg = ReaderConfig::new().max_segment_bytes(4);
    let err = from_bytes_with_config(b"BGM+220+123456'", cfg).collect_segments().unwrap_err();
    assert!(matches!(err, EdifactError::SegmentTooLong { .. }));
    let ok = from_bytes_with_config(b"BGM'", ReaderConfig::new().max_segment_bytes(4)).collect_segments().unwrap();
    assert_eq!(ok.len(), 1);
}

#[test]
fn the_stream_stops_at_the_segment_budget_and_reports_a_trailing_error() {
    let cfg = ReaderConfig::new().max_segments(1);
    let segs = from_bufread_stream_with_config(b"BGM+1'DTM+2'".to_vec(), cfg).collect_segments();
    assert_eq!(segs, Err(EdifactError::LimitExceeded { limit: "max_segments", max: 1 }));
    let trailing = OwnedSegmentStream::over(b"BGM+1'".to_vec(), ReaderConfig::new(), Some(EdifactError::InvalidUna))
        .collect_segments();
    assert!(matches!(trailing, Err(EdifactError::InvalidUna)));
}

#[test]
fn whitespace_between_segments_is_skipped() {
    let segs = parse_all(b"BGM+1'\r\nDTM+2'\n");
    assert_eq!(segs.len(), 2);
    assert_eq!(segs[1].tag, "DTM");
}

#[test]
fn a_declared_repertoire_is_decoded_before_parsing() {
    let mut raw = b"UNB+UNOC:3+S+R+260101:0900+IC1'NAD+BY+M".to_vec();
    raw.push(0xFC);
    raw.extend_from_slice(b"ller'UNZ+0+IC1'");
    assert!(from_bytes(&raw).collect_segments().is_err());
    let segments = edifact_rs::from_bytes_decoded(&raw).unwrap();
    assert_eq!(segments[1].element_str(1), Some("Müller"));
    let limited = edifact_rs::from_bytes_decoded_with_config(&raw, ReaderConfig::new().max_segments(1));
    assert!(matches!(limited, Err(EdifactError::LimitExceeded { .. })));
}

#[test]
fn every_budget_is_reported_alike_by_slice_and_reader() {
    let input: &[u8] = b"UNH+1+ORDERS:D:96A:UN'BGM+220'UNT+3+1'UNH+2+ORDERS:D:96A:UN'UNT+2+2'";
    for cfg in [
        ReaderConfig::new().max_segments(2),
        ReaderConfig::new().max_messages(1),
        ReaderConfig::new().max_input_bytes(30),
    ] {
        let sliced = from_bytes_with_config(input, cfg).collect_segments();
        let streamed = from_bufread_stream_with_config(input.to_vec(), cfg).collect_segments();
        assert!(matches!(sliced, Err(EdifactError::LimitExceeded { .. })), "{sliced:?}");
        assert_eq!(sliced, streamed);
    }
}
