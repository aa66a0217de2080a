use edifact_rs::{
    from_bufread_stream, from_bytes, ComponentRef, EdifactError, Element, ElementRef, OwnedSegment, Segment,
    SegmentDefinition, Span, Status,
};

#[test]
fn owned_segments_pass_where_borrowed_ones_are_expected() {
    fn tags(segments: &[Segment]) -> Vec<&str> {
        segments.iter().map(Segment::tag).collect()
    }

    let owned: Vec<OwnedSegment> =
        from_bufread_stream(b"BGM+220'UNT+2+1'".to_vec()).collect_segments().expect("reader parse");
    assert_eq!(tags(&owned), ["BGM", "UNT"]);
}

#[test]
fn into_owned_outlives_the_input_buffer() {
    let segment = {
        let input = b"BGM+220+PO-4711'".to_vec();
        let parsed: Vec<Segment> = from_bytes(&input).collect_segments().expect("parse");
        parsed.into_iter().next().unwrap()
    };
    assert_eq!(segment.element_str(1), Some("PO-4711"));
}

#[test]
fn required_accessors_treat_empty_as_absent() {
    let segments: Vec<Segment> = from_bytes(b"NAD++::'").collect_segments().expect("parse");
    let nad = &segments[0];
    assert!(matches!(nad.required_element(0), Err(EdifactError::MissingRequiredElement { .. })));
    assert!(matches!(nad.required_component(1, 0), Err(EdifactError::MissingRequiredComponent { .. })));
    assert!(matches!(nad.required_component(5, 0), Err(EdifactError::MissingRequiredElement { .. })));
}

#[test]
fn spans_shift_and_measure() {
    let s = Span::new(3, 7);
    assert_eq!(s.len(), 4);
    assert!(!s.is_empty());
    assert_eq!(s.offset(10), Span::new(13, 17));
    assert_eq!(s.to_string(), "3..7");
}

#[test]
fn repeated_components_are_read_per_occurrence() {
    let e = Element::of(&["ON", "1"]).and_repeat(&["ON", "2"]);
    assert_eq!(e.repeat_count(), 2);
    assert_eq!(e.repeated_component(1), vec!["1", "2"]);
    assert_eq!(e.get_component(1), Some("1"));
    assert_eq!(e.component_or_empty(5), "");
    let seg = Segment::new("RFF", vec![e]);
    assert_eq!(seg.component_str(0, 0), Some("ON"));
    assert_eq!(seg.optional_element(3), None);
    assert_eq!(seg.parsed_element::<u32>(0).is_err(), true);
}

fn dtm_definition() -> SegmentDefinition {
    let c507: &'static [ComponentRef] = Box::leak(
        vec![
            ComponentRef::new(1, "2005", Status::Mandatory),
            ComponentRef::new(2, "2380", Status::Conditional),
            ComponentRef::new(3, "2379", Status::Conditional),
        ]
        .into_boxed_slice(),
    );
    let elements: &'static [ElementRef] =
        Box::leak(vec![ElementRef::composite(1, "C507", Status::Mandatory, 1, c507)].into_boxed_slice());
    SegmentDefinition::new("DTM", "Date/time/period", elements)
}

#[test]
fn values_are_read_by_data_element_code() {
    let dtm_def = dtm_definition();
    let segments = from_bytes(b"DTM+137:20260101:102'").collect_segments().unwrap();
    let dtm = &segments[0];
    assert_eq!(dtm.value_by_code(&dtm_def, "2380").unwrap(), Some("20260101"));
    assert_eq!(dtm.span_by_code(&dtm_def, "2380").unwrap(), Some(Span::new(8, 16)));
    assert_eq!(dtm.element_by_code(&dtm_def, "2379").unwrap().unwrap().get_component(2), Some("102"));
    assert!(matches!(dtm.value_by_code(&dtm_def, "3055"), Err(EdifactError::UnknownDataElement { .. })));
    let bgm = Segment::new("BGM", vec![]);
    assert!(matches!(bgm.value_by_code(&dtm_def, "2380"), Err(EdifactError::SegmentLayoutMismatch { .. })));
}
