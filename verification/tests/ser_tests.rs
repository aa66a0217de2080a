use edifact_rs::{
    emit_sparse_segment, to_bytes, to_edifact_string, EdifactCompositeSerialize, EdifactError, EdifactEvent, EdifactSerialize, EventEmitter,
    VecEmitter, WriterEmitter,
};

fn sparse_to_wire(parts: &[(usize, usize, String)], tag: &str) -> String {
    let mut emitter = WriterEmitter::new();
    let mut parts = parts.to_vec();
    emit_sparse_segment(&mut emitter, tag, &mut parts).expect("emit");
    let buf = emitter.finish().expect("finish");
    String::from_utf8(buf).expect("utf-8")
}

fn part(e: usize, c: usize, v: &str) -> (usize, usize, String) {
    (e, c, v.to_owned())
}

#[test]
fn emit_sparse_segment_fills_gaps_in_elements_and_components() {
    let parts = vec![part(1, 2, "293"), part(0, 0, "MS"), part(3, 1, "late")];
    assert_eq!(sparse_to_wire(&parts, "NAD"), "NAD+MS+::293++:late'");
}

#[test]
fn emit_sparse_segment_first_value_wins_on_a_duplicate_slot() {
    let parts = vec![part(0, 0, "MS"), part(1, 0, "first"), part(1, 0, "second"), part(1, 2, "293")];
    assert_eq!(sparse_to_wire(&parts, "NAD"), "NAD+MS+first::293'");
}

#[test]
fn emit_sparse_segment_sorts_the_callers_parts() {
    let mut parts = vec![part(1, 2, "293"), part(0, 0, "MS"), part(1, 0, "first"), part(3, 1, "late"), part(1, 0, "second")];
    let mut emitter = WriterEmitter::new();
    emit_sparse_segment(&mut emitter, "NAD", &mut parts).unwrap();
    assert_eq!(
        parts,
        vec![part(0, 0, "MS"), part(1, 0, "first"), part(1, 0, "second"), part(1, 2, "293"), part(3, 1, "late")]
    );
    assert_eq!(emitter.finish().unwrap(), b"NAD+MS+first::293++:late'".to_vec());
}

#[test]
fn emit_sparse_segment_with_no_parts_writes_a_bare_tag() {
    assert_eq!(sparse_to_wire(&[], "UNS"), "UNS'");
}

struct BgmSegment {
    doc_name_code: String,
    pruef_id: String,
    msg_function: Option<String>,
}

impl EdifactSerialize for BgmSegment {
    fn edifact_serialize<E: EventEmitter>(&self, emitter: &mut E) -> Result<(), EdifactError> {
        emitter.emit(EdifactEvent::start("BGM"))?;
        emitter.emit(EdifactEvent::element(&self.doc_name_code))?;
        emitter.emit(EdifactEvent::element(&self.pruef_id))?;
        self.msg_function.edifact_serialize(emitter)?;
        emitter.emit(EdifactEvent::EndSegment)?;
        Ok(())
    }
}

#[test]
fn vec_emitter_captures_segment_events() {
    let seg = BgmSegment { doc_name_code: "E03".to_owned(), pruef_id: "11042".to_owned(), msg_function: None };
    let mut emitter = VecEmitter::default();
    seg.edifact_serialize(&mut emitter).unwrap();

    assert_eq!(emitter.events[0], EdifactEvent::StartSegment { tag: "BGM".to_owned() });
    assert_eq!(emitter.events.last(), Some(&EdifactEvent::EndSegment));
}

#[test]
fn to_bytes_produces_valid_edifact() {
    let seg = BgmSegment {
        doc_name_code: "E03".to_owned(),
        pruef_id: "11042".to_owned(),
        msg_function: Some("9".to_owned()),
    };
    let bytes = to_bytes(&seg).unwrap();
    assert_eq!(std::str::from_utf8(&bytes).unwrap(), "BGM+E03+11042+9'");
    assert_eq!(to_edifact_string(&seg).unwrap(), "BGM+E03+11042+9'");
}

#[test]
fn option_none_emits_empty_element() {
    let val: Option<String> = None;
    let mut emitter = VecEmitter::default();
    val.edifact_serialize(&mut emitter).unwrap();
    assert_eq!(emitter.events[0], EdifactEvent::Element { value: String::new() });
}

#[test]
fn option_some_emits_value() {
    let val: Option<String> = Some("TEST".to_owned());
    let mut emitter = VecEmitter::default();
    val.edifact_serialize(&mut emitter).unwrap();
    assert_eq!(emitter.events[0], EdifactEvent::Element { value: "TEST".to_owned() });
}

#[test]
fn integer_types_serialize_without_alloc() {
    let mut emitter = VecEmitter::default();
    42u32.edifact_serialize(&mut emitter).unwrap();
    assert_eq!(emitter.events[0], EdifactEvent::Element { value: "42".to_owned() });
    let mut emitter2 = VecEmitter::default();
    i128::MIN.edifact_serialize(&mut emitter2).unwrap();
    assert_eq!(
        emitter2.events[0],
        EdifactEvent::Element { value: "-170141183460469231731687303715884105728".to_owned() }
    );
}

#[test]
fn vec_serializes_each_item() {
    let segments = vec![
        BgmSegment { doc_name_code: "E03".to_owned(), pruef_id: "11042".to_owned(), msg_function: None },
        BgmSegment { doc_name_code: "E01".to_owned(), pruef_id: "11043".to_owned(), msg_function: None },
    ];
    let bytes = to_bytes(&segments).unwrap();
    let s = std::str::from_utf8(&bytes).unwrap();
    assert!(s.contains("BGM+E03+11042"));
    assert!(s.contains("BGM+E01+11043"));
}

#[test]
fn booleans_and_composites_serialize() {
    let mut emitter = VecEmitter::default();
    true.edifact_serialize(&mut emitter).unwrap();
    false.edifact_serialize(&mut emitter).unwrap();
    (-7i8).edifact_serialize(&mut emitter).unwrap();
    assert_eq!(emitter.events[0], EdifactEvent::Element { value: "true".to_owned() });
    assert_eq!(emitter.events[1], EdifactEvent::Element { value: "false".to_owned() });
    assert_eq!(emitter.events[2], EdifactEvent::Element { value: "-7".to_owned() });
    let mut emitter3 = VecEmitter::default();
    vec!["A".to_owned(), "B".to_owned()].edifact_serialize_composite(&mut emitter3).unwrap();
    assert_eq!(emitter3.events[0], EdifactEvent::Element { value: "A".to_owned() });
    assert_eq!(emitter3.events[1], EdifactEvent::ComponentElement { value: "B".to_owned() });
}

#[test]
fn a_refused_event_ends_a_composite_and_writes_nothing_more() {
    // Outside a segment, the writing emitter refuses the composite's element.
    let mut emitter = WriterEmitter::new();
    let err = vec!["A".to_owned(), "B".to_owned()].edifact_serialize_composite(&mut emitter).unwrap_err();
    assert!(matches!(err, EdifactError::InvalidEventSequence { .. }));
    assert_eq!(emitter.segment_count(), 0);
    assert!(emitter.finish().unwrap().is_empty());
}

#[test]
fn a_sparse_segment_stops_where_the_emitter_refuses() {
    let mut emitter = WriterEmitter::new();
    emitter.emit(EdifactEvent::start("BGM")).unwrap();
    // A segment is already open: the sparse segment's own start is refused.
    let err = emit_sparse_segment(&mut emitter, "NAD", &mut vec![(0, 0, "MS".to_owned())]).unwrap_err();
    assert!(matches!(err, EdifactError::InvalidEventSequence { .. }));
    assert_eq!(emitter.finish().unwrap(), b"BGM".to_vec());
}
