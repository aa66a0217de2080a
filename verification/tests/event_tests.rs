use edifact_rs::{
    events_to_bytes, from_bytes, EdifactError, EdifactEvent, EventEmitter, ServiceStringAdvice, VecEmitter, WriterEmitter,
};

#[test]
fn vec_emitter_no_memory_leak() {
    let mut e = VecEmitter::default();
    e.emit(EdifactEvent::start("BGM")).unwrap();
    e.emit(EdifactEvent::element("E03")).unwrap();
    e.emit(EdifactEvent::EndSegment).unwrap();
    assert_eq!(e.events[0], EdifactEvent::start(&"BGM".to_owned()));
    assert_eq!(e.events[1], EdifactEvent::element(&"E03".to_owned()));
}

#[test]
fn writer_emitter_produces_valid_edifact() {
    let mut e = WriterEmitter::new();
    e.emit(EdifactEvent::start("BGM")).unwrap();
    e.emit(EdifactEvent::element("E03")).unwrap();
    e.emit(EdifactEvent::element("11042")).unwrap();
    e.emit(EdifactEvent::EndSegment).unwrap();
    let buf = e.finish().unwrap();
    assert_eq!(buf, b"BGM+E03+11042'");
}

#[test]
fn writer_emitter_handles_components() {
    let mut e = WriterEmitter::new();
    e.emit(EdifactEvent::start("NAD")).unwrap();
    e.emit(EdifactEvent::element("MS")).unwrap();
    e.emit(EdifactEvent::element("9900112233445")).unwrap();
    e.emit(EdifactEvent::component("")).unwrap();
    e.emit(EdifactEvent::component("293")).unwrap();
    e.emit(EdifactEvent::EndSegment).unwrap();
    let buf = e.finish().unwrap();
    let s = std::str::from_utf8(&buf).unwrap();
    assert_eq!(s, "NAD+MS+9900112233445::293'");
}

#[test]
fn repetitions_round_trip_through_the_event_layer() {
    let ssa = ServiceStringAdvice::from_bytes(b"UNA:+.?*'").unwrap();
    let mut e = WriterEmitter::with_una(ssa).unwrap();
    e.emit(EdifactEvent::start("RFF")).unwrap();
    e.emit(EdifactEvent::element("ON")).unwrap();
    e.emit(EdifactEvent::component("1")).unwrap();
    e.emit(EdifactEvent::repeat("ON")).unwrap();
    e.emit(EdifactEvent::component("2")).unwrap();
    e.emit(EdifactEvent::EndSegment).unwrap();
    let buf = e.finish().unwrap();
    assert_eq!(std::str::from_utf8(&buf).unwrap(), "UNA:+.?*'RFF+ON:1*ON:2'");

    let segments = from_bytes(&buf).collect_segments().unwrap();
    let element = segments[0].get_element(0).unwrap();
    assert_eq!(element.repeat_count(), 2);
    assert_eq!(element.repetition(1).unwrap()[1].0, "2");
}

#[test]
fn a_repetition_without_a_declared_separator_is_refused() {
    let mut e = WriterEmitter::new();
    e.emit(EdifactEvent::start("RFF")).unwrap();
    e.emit(EdifactEvent::element("ON")).unwrap();
    let err = e.emit(EdifactEvent::repeat("ON")).unwrap_err();
    assert!(
        matches!(err, EdifactError::RepetitionSeparatorNotDeclared),
        "expected RepetitionSeparatorNotDeclared, got {err:?}"
    );
}

#[test]
fn a_repetition_before_any_element_is_refused() {
    let ssa = ServiceStringAdvice::from_bytes(b"UNA:+.?*'").unwrap();
    let mut e = WriterEmitter::with_una(ssa).unwrap();
    e.emit(EdifactEvent::start("RFF")).unwrap();
    let err = e.emit(EdifactEvent::repeat("ON")).unwrap_err();
    assert!(
        matches!(err, EdifactError::InvalidEventSequence { .. }),
        "expected InvalidEventSequence, got {err:?}"
    );
}

#[test]
fn writer_emitter_element_before_start_segment_is_err() {
    let mut e = WriterEmitter::new();
    let err = e.emit(EdifactEvent::element("X")).unwrap_err();
    assert!(
        matches!(err, EdifactError::InvalidEventSequence { .. }),
        "expected InvalidEventSequence, got {err:?}"
    );
}

#[test]
fn writer_emitter_component_before_element_is_err() {
    let mut e = WriterEmitter::new();
    e.emit(EdifactEvent::start("BGM")).unwrap();
    let err = e.emit(EdifactEvent::component("X")).unwrap_err();
    assert!(
        matches!(err, EdifactError::InvalidEventSequence { .. }),
        "expected InvalidEventSequence, got {err:?}"
    );
}

#[test]
fn writer_emitter_double_start_segment_is_err() {
    let mut e = WriterEmitter::new();
    e.emit(EdifactEvent::start("BGM")).unwrap();
    let err = e.emit(EdifactEvent::start("DTM")).unwrap_err();
    assert!(
        matches!(err, EdifactError::InvalidEventSequence { .. }),
        "expected InvalidEventSequence, got {err:?}"
    );
}

#[test]
fn writer_emitter_end_segment_without_start_is_err() {
    let mut e = WriterEmitter::new();
    let err = e.emit(EdifactEvent::EndSegment).unwrap_err();
    assert!(
        matches!(err, EdifactError::InvalidEventSequence { .. }),
        "expected InvalidEventSequence, got {err:?}"
    );
}

#[test]
fn writer_emitter_counts_segments_and_escapes_service_characters() {
    let mut e = WriterEmitter::new();
    e.emit(EdifactEvent::start("FTX")).unwrap();
    e.emit(EdifactEvent::element("a+b:c'd?e")).unwrap();
    e.emit(EdifactEvent::EndSegment).unwrap();
    assert_eq!(e.segment_count(), 1);
    assert_eq!(e.finish().unwrap(), b"FTX+a?+b?:c?'d??e'");
}

#[test]
fn a_list_of_events_writes_as_one_emitter_would() {
    let events = vec![
        EdifactEvent::start("NAD"),
        EdifactEvent::element("MS"),
        EdifactEvent::element("9900112233445"),
        EdifactEvent::component(""),
        EdifactEvent::component("293"),
        EdifactEvent::EndSegment,
    ];
    let bytes = events_to_bytes(&events).unwrap();
    assert_eq!(std::str::from_utf8(&bytes).unwrap(), "NAD+MS+9900112233445::293'");
    assert!(events_to_bytes(&[]).unwrap().is_empty());
}

#[test]
fn a_list_of_events_stops_at_the_first_refused_one() {
    let out_of_place = vec![EdifactEvent::element("MS")];
    assert!(matches!(events_to_bytes(&out_of_place), Err(EdifactError::InvalidEventSequence { .. })));
    // The default service characters declare no repetition separator.
    let repeated = vec![EdifactEvent::start("RFF"), EdifactEvent::element("ON"), EdifactEvent::repeat("ON")];
    assert!(matches!(events_to_bytes(&repeated), Err(EdifactError::RepetitionSeparatorNotDeclared)));
    let escaped = vec![EdifactEvent::start("FTX"), EdifactEvent::element("a+b"), EdifactEvent::EndSegment];
    assert_eq!(std::str::from_utf8(&events_to_bytes(&escaped).unwrap()).unwrap(), "FTX+a?+b'");
}
