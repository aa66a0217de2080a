use edifact_rs::{
    composite_element, contiguous_groups, contiguous_runs, deserialize, deserialize_each, deserialize_messages,
    deserialize_str, find_segment, find_segments_matching, find_segments_typed, from_bufread_stream, from_bytes,
    EdifactDeserialize, EdifactError, EdifactSegmentTag, Segment,
};

#[derive(Debug, PartialEq)]
struct BgmSegment {
    doc_name_code: String,
    pruef_id: String,
    msg_function: Option<String>,
}

impl EdifactSegmentTag for BgmSegment {
    fn segment_tag() -> &'static str {
        "BGM"
    }
}

struct NadM;

impl EdifactSegmentTag for NadM {
    fn segment_tag() -> &'static str {
        "NAD"
    }
    fn qualifier_pattern() -> Option<&'static str> {
        Some("M*")
    }
}

struct Loc;

impl EdifactSegmentTag for Loc {
    fn segment_tag() -> &'static str {
        "LOC"
    }
}

impl EdifactDeserialize for BgmSegment {
    fn edifact_deserialize(segments: &[Segment]) -> Result<Self, EdifactError> {
        let seg = find_segment(segments, "BGM")
            .ok_or_else(|| EdifactError::MissingRequiredElement { tag: "BGM".to_owned(), element_index: 0 })?;
        Ok(Self {
            doc_name_code: seg.element_str(0).unwrap_or("").to_owned(),
            pruef_id: seg.element_str(1).unwrap_or("").to_owned(),
            msg_function: seg.optional_element(2).map(str::to_owned),
        })
    }
}

fn parse(input: &[u8]) -> Vec<Segment> {
    from_bytes(input).collect_segments().unwrap()
}

#[test]
fn deserialize_single_segment() {
    let input = b"BGM+E03+11042+9'";
    let bgm: BgmSegment = deserialize(input).unwrap();
    assert_eq!(bgm.doc_name_code, "E03");
    assert_eq!(bgm.pruef_id, "11042");
    assert_eq!(bgm.msg_function, Some("9".to_owned()));
    let same: BgmSegment = deserialize_str("BGM+E03+11042+9'").unwrap();
    assert_eq!(same, bgm);
}

#[test]
fn deserialize_returns_the_parse_error_as_it_is() {
    let r: Result<BgmSegment, EdifactError> = deserialize(b"UNA::.? 'BGM+1'");
    assert!(matches!(r, Err(EdifactError::InvalidUna)));
}

#[test]
fn deserialize_each_is_lazy_over_both_sources() {
    let input = b"BGM+E03+11042+9'RFF+AA:1'BGM+E01+11043+9'";

    let from_slice: Vec<BgmSegment> = deserialize_each(input).into_iter().collect::<Result<_, _>>().unwrap();
    let streamed = from_bufread_stream(input.to_vec()).collect_segments().unwrap();
    let from_reader: Vec<BgmSegment> = find_segments_typed::<BgmSegment>(&streamed)
        .into_iter()
        .map(|s| BgmSegment::edifact_deserialize(std::slice::from_ref(s)))
        .collect::<Result<_, _>>()
        .unwrap();

    assert_eq!(from_slice, from_reader);
    assert_eq!(from_slice.len(), 2);
    assert_eq!(from_slice[1].pruef_id, "11043");
}

#[test]
fn deserialize_each_stops_at_the_first_match_when_asked() {
    let input = b"UNH+1+ORDERS:D:11A:UN'BGM+E03+11042+9'UNT+3+1'";
    let first: BgmSegment = deserialize_each(input).into_iter().next().unwrap().unwrap();
    assert_eq!(first.pruef_id, "11042");
}

#[test]
fn deserialize_each_ends_with_the_parse_error() {
    let items: Vec<Result<BgmSegment, EdifactError>> = deserialize_each(b"BGM+E03+1+9'BGM+E03+2+9'RFF+?");
    assert!(items.len() >= 1);
    assert!(items.last().unwrap().is_err());
}

#[test]
fn typed_qualifier_matching_filters_by_element_zero() {
    let segments = parse(b"NAD+MS+1'NAD+BY+2'NAD+MR+3'");
    let matched: Vec<&str> = find_segments_typed::<NadM>(&segments).iter().map(|s| s.element_str(1).unwrap()).collect();
    assert_eq!(matched, ["1", "3"]);
    let same: Vec<&str> =
        find_segments_matching(&segments, "NAD", Some("M*")).iter().map(|s| s.element_str(1).unwrap()).collect();
    assert_eq!(same, ["1", "3"]);
}

#[test]
fn contiguous_groups_are_maximal_runs() {
    let segments = parse(b"LOC+1'LOC+2'DTM+137'LOC+3'");
    let runs: Vec<usize> = contiguous_groups::<Loc>(&segments).iter().map(|r| r.len()).collect();
    assert_eq!(runs, [2, 1]);
    let plain: Vec<usize> = contiguous_runs(&segments, "LOC", None).iter().map(|r| r.len()).collect();
    assert_eq!(plain, [2, 1]);
    assert!(contiguous_runs(&segments, "QTY", None).is_empty());
}

#[test]
fn one_value_per_message() {
    let input = b"UNB+UNOA:1+S+R+200101:0900+1'\
                  UNH+1+ORDERS:D:96A:UN'BGM+220+PO-1+9'UNT+3+1'\
                  UNH+2+ORDERS:D:96A:UN'BGM+220+PO-2+9'UNT+3+2'\
                  UNZ+2+1'";
    let orders: Vec<BgmSegment> = deserialize_messages(input).into_iter().collect::<Result<_, _>>().unwrap();
    assert_eq!(orders.len(), 2);
    assert_eq!(orders[1].pruef_id, "PO-2");
}

#[test]
fn a_composite_flattens_its_components() {
    let segments = parse(b"NAD+MS+9900112233445::293'");
    let c = composite_element(&segments[0], 1).unwrap();
    assert_eq!(c.len(), 3);
    assert_eq!(c.get(0), Some("9900112233445"));
    assert_eq!(c.get_or_empty(1), "");
    assert_eq!(c.get(2), Some("293"));
    assert_eq!(c.get(3), None);
    assert_eq!(c.iter(), ["9900112233445", "", "293"]);
    assert!(composite_element(&segments[0], 2).is_none());
}
