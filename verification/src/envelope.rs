//! The interchange envelope: UNB/UNZ, functional groups (UNG/UNE) and
//! messages (UNH/UNT), their service data, and the structural rules of
//! ISO 9735-1 that bind them.

use vstd::prelude::*;

use crate::error::EdifactError;
use crate::model::{non_empty, seg_component, OwnedSegment, Segment, Span};
use crate::text::{decimal, decimal_string, own, parse_u32, parse_u32_spec, str_eq, string_push_str};

verus! {

/// The interchange header and trailer data.
#[derive(Debug, PartialEq, Eq, Hash)]
#[non_exhaustive]
pub struct InterchangeEnvelope {
    /// UNB S001 DE 0001.
    pub syntax_identifier: String,
    /// UNB S001 DE 0002.
    pub syntax_version: String,
    /// UNB S002 DE 0004.
    pub sender_id: String,
    /// UNB S002 DE 0007.
    pub sender_qualifier: String,
    /// UNB S002 DE 0008, when present and not empty.
    pub sender_routing_address: Option<String>,
    /// UNB S003 DE 0010.
    pub recipient_id: String,
    /// UNB S003 DE 0007.
    pub recipient_qualifier: String,
    /// UNB S003 DE 0014, when present and not empty.
    pub recipient_routing_address: Option<String>,
    /// UNB S004 DE 0017.
    pub date: String,
    /// UNB S004 DE 0019, when present and not empty.
    pub time: Option<String>,
    /// UNB DE 0020: the interchange control reference.
    pub control_ref: String,
    /// UNB S005 DE 0022, when present and not empty.
    pub recipient_password: Option<String>,
    /// UNB S005 DE 0025, when present and not empty.
    pub recipient_password_qualifier: Option<String>,
    /// UNB DE 0026, when present and not empty.
    pub app_ref: Option<String>,
    /// UNB DE 0029, when present and not empty.
    pub processing_priority: Option<String>,
    /// UNB DE 0031 is `1`.
    pub acknowledgement_request: bool,
    /// UNB DE 0032, when present and not empty.
    pub communications_agreement_id: Option<String>,
    /// UNB DE 0035 is `1`.
    pub test_indicator: bool,
    /// UNZ DE 0036: the declared number of groups or messages.
    pub declared_unit_count: u32,
    /// The number of groups (or, without groups, messages) found.
    pub actual_unit_count: u32,
}

/// One message's header and trailer data.
#[derive(Debug, PartialEq, Eq, Hash)]
#[non_exhaustive]
pub struct MessageEnvelope {
    /// UNH DE 0062.
    pub message_ref: String,
    /// UNH S009 DE 0065.
    pub message_type: String,
    /// UNH S009 DE 0052.
    pub version: String,
    /// UNH S009 DE 0054.
    pub release: String,
    /// UNH S009 DE 0051.
    pub controlling_agency: String,
    /// UNH S009 DE 0057.
    pub association_code: String,
    /// UNH DE 0068, when present and not empty.
    pub common_access_ref: Option<String>,
    /// UNH S010 DE 0070, when present and a number.
    pub sequence_of_transfers: Option<u32>,
    /// UNH S010 DE 0073, when present and not empty.
    pub transfer_position: Option<String>,
    /// UNT DE 0074: the declared number of segments.
    pub declared_segment_count: u32,
    /// The number of segments from UNH to UNT inclusive.
    pub actual_segment_count: u32,
}

/// One functional group's header and trailer data, and its messages.
#[derive(Debug, PartialEq, Eq, Hash)]
#[non_exhaustive]
pub struct FunctionalGroupEnvelope {
    /// UNG DE 0038.
    pub group_id: String,
    /// UNG S006 DE 0040.
    pub app_sender: String,
    /// UNG S006 DE 0007.
    pub app_sender_qualifier: String,
    /// UNG S007 DE 0044.
    pub app_recipient: String,
    /// UNG S007 DE 0007.
    pub app_recipient_qualifier: String,
    /// UNG S004 DE 0017.
    pub date: String,
    /// UNG S004 DE 0019, when present and not empty.
    pub time: Option<String>,
    /// UNG DE 0048: the group reference.
    pub group_ref: String,
    /// UNG DE 0051.
    pub controlling_agency: String,
    /// UNG S008 DE 0052.
    pub version: String,
    /// UNG S008 DE 0054.
    pub release: String,
    /// UNE DE 0060: the declared number of messages.
    pub declared_message_count: u32,
    /// The number of messages found in the group.
    pub actual_message_count: u32,
    /// The group's messages, in order.
    pub messages: Vec<MessageEnvelope>,
}

/// An interchange whose envelope passed validation.
#[derive(Debug, PartialEq, Eq, Hash)]
#[non_exhaustive]
pub struct ValidatedInterchange {
    /// The interchange header and trailer data.
    pub interchange: InterchangeEnvelope,
    /// The functional groups, when the interchange uses them.
    pub functional_groups: Vec<FunctionalGroupEnvelope>,
    /// Every message, in document order (across groups when there are groups).
    pub messages: Vec<MessageEnvelope>,
}

/// The message identification of a UNH segment, borrowed from it.
#[derive(Debug, Clone, Copy, PartialEq, Eq, Hash)]
#[non_exhaustive]
pub struct MessageIdentifier<'a> {
    /// DE 0062.
    pub message_ref: &'a str,
    /// S009 DE 0065.
    pub message_type: &'a str,
    /// S009 DE 0052.
    pub version: &'a str,
    /// S009 DE 0054.
    pub release: &'a str,
    /// S009 DE 0051.
    pub controlling_agency: &'a str,
    /// S009 DE 0057.
    pub association_code: &'a str,
}

/// The group identification of a UNG segment, borrowed from it.
#[derive(Debug, Clone, Copy, PartialEq, Eq, Hash)]
#[non_exhaustive]
pub struct GroupIdentifier<'a> {
    /// DE 0038.
    pub group_id: &'a str,
    /// S006 DE 0040.
    pub app_sender: &'a str,
    /// S006 DE 0007.
    pub app_sender_qualifier: &'a str,
    /// S007 DE 0044.
    pub app_recipient: &'a str,
    /// S007 DE 0007.
    pub app_recipient_qualifier: &'a str,
    /// DE 0048.
    pub group_ref: &'a str,
    /// DE 0051.
    pub controlling_agency: &'a str,
    /// S008 DE 0052.
    pub version: &'a str,
    /// S008 DE 0054.
    pub release: &'a str,
}

/// The outcome of lenient validation: the envelope where the structure
/// could be read, and every violation found.
#[derive(Debug)]
#[non_exhaustive]
pub struct LenientResult {
    /// The envelope, unless a structural fault made it unreadable.
    pub interchange: Option<ValidatedInterchange>,
    /// Every violation, in the order found.
    pub errors: Vec<EdifactError>,
}

/// The segment kinds envelope access is offered for.
pub trait Sealed {}

impl Sealed for Segment {}

// ── component access ────────────────────────────────────────────────────────

/// A component's text, or empty where it does not exist.
pub open spec fn opt_text(s: Segment, e: int, c: int) -> Seq<char> {
    match seg_component(s, e, c) {
        Some(t) => t,
        None => Seq::empty(),
    }
}

/// A required component's text, or empty where it is absent or empty.
pub open spec fn req_text(s: Segment, e: int, c: int) -> Seq<char> {
    match non_empty(seg_component(s, e, c)) {
        Some(t) => t,
        None => Seq::empty(),
    }
}

/// An optional value: present only when the component exists and is not empty.
pub open spec fn opt_value(s: Segment, e: int, c: int) -> Option<Seq<char>> {
    non_empty(seg_component(s, e, c))
}

/// The text of an optional string.
pub open spec fn opt_string(o: Option<String>) -> Option<Seq<char>> {
    match o {
        Some(s) => Some(s@),
        None => None,
    }
}

/// The envelope violations this module reports, by their data.
pub enum ErrView {
    /// `MissingSegment`.
    Missing { tag: Seq<char>, position: Seq<char> },
    /// `MissingRequiredComponent`.
    MissingComponent { tag: Seq<char>, element: int, component: int },
    /// `InvalidSegmentForMessage` with message type `ENVELOPE`.
    Misplaced { tag: Seq<char>, span: Span },
    /// `UnrecognisedSyntaxIdentifier`.
    Unrecognised { id: Seq<char> },
    /// `QualifierMismatch`.
    Mismatch { tag: Seq<char>, actual: Seq<char>, expected: Seq<char>, span: Span },
    /// `InvalidText`: a count that is not a number.
    BadNumber { offset: int },
    /// `DuplicateReference`.
    Duplicate { tag: Seq<char>, reference: Seq<char>, span: Span },
    /// `MessageCountMismatch`.
    UnitCount { expected: int, actual: int },
    /// `SegmentCountMismatch`.
    SegmentCount { expected: int, actual: int, message_ref: Seq<char>, span: Span },
    /// `InterchangeTooLarge`.
    TooLarge { count: int },
    /// Any other error.
    Other,
}

/// The data of an error, as far as the envelope rules concern it.
pub open spec fn err_view(e: EdifactError) -> ErrView {
    match e {
        EdifactError::MissingSegment { tag, expected_position } => ErrView::Missing { tag: tag@, position: expected_position@ },
        EdifactError::MissingRequiredComponent { tag, element_index, component_index } =>
            ErrView::MissingComponent { tag: tag@, element: element_index as int, component: component_index as int },
        EdifactError::InvalidSegmentForMessage { tag, message_type, span } =>
            if message_type@ == "ENVELOPE"@ { ErrView::Misplaced { tag: tag@, span } } else { ErrView::Other },
        EdifactError::UnrecognisedSyntaxIdentifier(id) => ErrView::Unrecognised { id: id@ },
        EdifactError::QualifierMismatch { tag, actual, expected, span } =>
            ErrView::Mismatch { tag: tag@, actual: actual@, expected: expected@, span },
        EdifactError::InvalidText { offset } => ErrView::BadNumber { offset: offset as int },
        EdifactError::DuplicateReference { tag, reference, span } =>
            ErrView::Duplicate { tag: tag@, reference: reference@, span },
        EdifactError::MessageCountMismatch { expected, actual } => ErrView::UnitCount { expected: expected as int, actual: actual as int },
        EdifactError::SegmentCountMismatch { expected, actual, message_ref, span } =>
            ErrView::SegmentCount { expected: expected as int, actual: actual as int, message_ref: message_ref@, span },
        EdifactError::InterchangeTooLarge { count } => ErrView::TooLarge { count: count as int },
        _ => ErrView::Other,
    }
}

/// The data of a list of errors.
pub open spec fn errs_view(es: Seq<EdifactError>) -> Seq<ErrView> {
    es.map_values(|e: EdifactError| err_view(e))
}

/// The violation a missing or empty required component raises, if it does.
pub open spec fn req_err(s: Segment, e: int, c: int) -> Seq<ErrView> {
    if non_empty(seg_component(s, e, c)) is Some {
        Seq::empty()
    } else {
        seq![ErrView::MissingComponent { tag: s.tag@, element: e, component: c }]
    }
}

/// A count read from a required component: its value, or 0 when it is not a number.
pub open spec fn count_value(s: Segment, e: int, c: int) -> u32 {
    match parse_u32_spec(req_text(s, e, c)) {
        Some(v) => v,
        None => 0,
    }
}

/// The violation a count that is not a number raises, if it does.
pub open spec fn count_err(s: Segment, e: int, c: int) -> Seq<ErrView> {
    if parse_u32_spec(req_text(s, e, c)) is Some {
        Seq::empty()
    } else {
        seq![ErrView::BadNumber { offset: s.span.start as int }]
    }
}

fn comp_text(s: &Segment, e: usize, c: usize) -> (r: String)
    ensures
        r@ == opt_text(*s, e as int, c as int),
{
    match s.component_str(e, c) {
        Some(t) => own(t),
        None => String::new(),
    }
}

fn opt_owned(s: &Segment, e: usize, c: usize) -> (r: Option<String>)
    ensures
        opt_string(r) == opt_value(*s, e as int, c as int),
{
    match s.optional_component(e, c) {
        Some(t) => Some(own(t)),
        None => None,
    }
}

fn push_err(errs: &mut Vec<EdifactError>, e: EdifactError)
    ensures
        errs_view(final(errs)@) == errs_view(old(errs)@).push(err_view(e)),
{
    let ghost v = err_view(e);
    errs.push(e);
    proof { assert(errs_view(errs@) =~= errs_view(old(errs)@).push(v)); }
}

fn required(s: &Segment, e: usize, c: usize, errs: &mut Vec<EdifactError>) -> (r: String)
    ensures
        r@ == req_text(*s, e as int, c as int),
        errs_view(final(errs)@) == errs_view(old(errs)@) + req_err(*s, e as int, c as int),
{
    match s.optional_component(e, c) {
        Some(t) => {
            proof { assert(errs_view(errs@) + req_err(*s, e as int, c as int) =~= errs_view(errs@)); }
            own(t)
        },
        None => {
            push_err(errs, EdifactError::MissingRequiredComponent { tag: s.tag.clone(), element_index: e, component_index: c });
            proof { assert(errs_view(errs@) =~= errs_view(old(errs)@) + req_err(*s, e as int, c as int)); }
            String::new()
        },
    }
}

fn required_count(s: &Segment, e: usize, c: usize, errs: &mut Vec<EdifactError>) -> (r: u32)
    ensures
        r == count_value(*s, e as int, c as int),
        errs_view(final(errs)@) == errs_view(old(errs)@) + req_err(*s, e as int, c as int) + count_err(*s, e as int, c as int),
{
    let raw = required(s, e, c, errs);
    let ghost mid = errs_view(errs@);
    match parse_u32(raw.as_str()) {
        Some(v) => {
            proof { assert(mid + count_err(*s, e as int, c as int) =~= mid); }
            v
        },
        None => {
            push_err(errs, EdifactError::InvalidText { offset: s.span.start });
            proof { assert(errs_view(errs@) =~= mid + count_err(*s, e as int, c as int)); }
            0
        },
    }
}

// ── messages ────────────────────────────────────────────────────────────────

/// The texts of a list of strings.
pub open spec fn strings_view(v: Seq<String>) -> Seq<Seq<char>> {
    v.map_values(|s: String| s@)
}

/// The tags that open or close an interchange or a group.
pub open spec fn is_envelope_tag(t: Seq<char>) -> bool {
    t == "UNB"@ || t == "UNZ"@ || t == "UNG"@ || t == "UNE"@
}

/// The violations of a message header, given the references seen before it.
pub open spec fn header_errs(unh: Segment, seen: Seq<Seq<char>>) -> Seq<ErrView> {
    let r = req_text(unh, 0, 0);
    req_err(unh, 0, 0)
    + (if seen.contains(r) { seq![ErrView::Duplicate { tag: "UNH"@, reference: r, span: unh.span }] } else { Seq::empty() })
    + req_err(unh, 1, 0) + req_err(unh, 1, 1) + req_err(unh, 1, 2) + req_err(unh, 1, 3)
}

/// The violations of a message trailer, given the header's reference `r`.
pub open spec fn trailer_errs(unt: Segment, r: Seq<char>) -> Seq<ErrView> {
    req_err(unt, 0, 0) + count_err(unt, 0, 0) + req_err(unt, 1, 0)
    + (if req_text(unt, 1, 0) != r {
        seq![ErrView::Mismatch { tag: "UNT"@, actual: req_text(unt, 1, 0), expected: r, span: unt.span }]
    } else {
        Seq::empty()
    })
}

/// The violations of the message from UNH at `u` to UNT at `t`, in the
/// order they are found, given the message references seen before it.
pub open spec fn message_errs(segs: Seq<Segment>, u: int, t: int, seen: Seq<Seq<char>>) -> Seq<ErrView> {
    header_errs(segs[u], seen) + trailer_errs(segs[t], req_text(segs[u], 0, 0))
    + (if t - u + 1 > u32::MAX { seq![ErrView::TooLarge { count: t - u + 1 }] } else { Seq::empty() })
}

/// `m` is the message from UNH at `u` to UNT at `t`.
pub open spec fn message_is(m: MessageEnvelope, segs: Seq<Segment>, u: int, t: int) -> bool {
    let unh = segs[u];
    let unt = segs[t];
    &&& m.message_ref@ == req_text(unh, 0, 0)
    &&& m.message_type@ == req_text(unh, 1, 0)
    &&& m.version@ == req_text(unh, 1, 1)
    &&& m.release@ == req_text(unh, 1, 2)
    &&& m.controlling_agency@ == req_text(unh, 1, 3)
    &&& m.association_code@ == opt_text(unh, 1, 4)
    &&& opt_string(m.common_access_ref) == opt_value(unh, 2, 0)
    &&& m.sequence_of_transfers == (match opt_value(unh, 3, 0) { Some(v) => parse_u32_spec(v), None => None })
    &&& opt_string(m.transfer_position) == opt_value(unh, 3, 1)
    &&& m.declared_segment_count == count_value(unt, 0, 0)
    &&& m.actual_segment_count == (if t - u + 1 > u32::MAX { u32::MAX } else { (t - u + 1) as u32 })
}

/// The state of reading messages: still running, with the violations and
/// references so far, the open UNH and the messages closed; or stopped by a
/// structural fault.
pub enum FlatState {
    /// Reading goes on.
    Run { errs: Seq<ErrView>, seen: Seq<Seq<char>>, open: Option<int>, pairs: Seq<(int, int)> },
    /// A structural fault stopped reading.
    Fatal { errs: Seq<ErrView>, fatal: ErrView },
}

/// One segment of message reading.
pub open spec fn flat_step(segs: Seq<Segment>, i: int, st: FlatState) -> FlatState {
    match st {
        FlatState::Fatal { .. } => st,
        FlatState::Run { errs, seen, open, pairs } => {
            let s = segs[i];
            let t = s.tag@;
            let misplaced = FlatState::Fatal { errs, fatal: ErrView::Misplaced { tag: t, span: s.span } };
            if t == "UNH"@ {
                if open is Some { misplaced } else { FlatState::Run { errs, seen, open: Some(i), pairs } }
            } else if t == "UNT"@ {
                match open {
                    Some(u) => FlatState::Run {
                        errs: errs + message_errs(segs, u, i, seen),
                        seen: seen.push(req_text(segs[u], 0, 0)),
                        open: None,
                        pairs: pairs.push((u, i)),
                    },
                    None => misplaced,
                }
            } else if is_envelope_tag(t) || open is None {
                misplaced
            } else {
                st
            }
        },
    }
}

/// Message reading over the first `n` segments, from references `seen`.
pub open spec fn flat_fold(segs: Seq<Segment>, n: int, seen: Seq<Seq<char>>) -> FlatState
    decreases n,
{
    if n <= 0 {
        FlatState::Run { errs: Seq::empty(), seen, open: None, pairs: Seq::empty() }
    } else {
        flat_step(segs, n - 1, flat_fold(segs, n - 1, seen))
    }
}

/// Message reading over all segments: a message left open is a fault.
pub open spec fn flat_result(segs: Seq<Segment>, seen: Seq<Seq<char>>) -> FlatState {
    match flat_fold(segs, segs.len() as int, seen) {
        FlatState::Run { errs, seen: s2, open, pairs } => if open is Some {
            FlatState::Fatal { errs, fatal: ErrView::Missing { tag: "UNT"@, position: "end of message group"@ } }
        } else {
            FlatState::Run { errs, seen: s2, open, pairs }
        },
        f => f,
    }
}

fn contains_ref(seen: &Vec<String>, r: &str) -> (b: bool)
    ensures
        b == strings_view(seen@).contains(r@),
{
    let mut i: usize = 0;
    while i < seen.len()
        invariant
            i <= seen@.len(),
            forall|j: int| 0 <= j < i ==> seen@[j]@ != r@,
        decreases seen@.len() - i,
    {
        if str_eq(seen[i].as_str(), r) {
            proof { assert(strings_view(seen@)[i as int] == r@); }
            return true;
        }
        i = i + 1;
    }
    proof {
        if strings_view(seen@).contains(r@) {
            let j = choose|j: int| 0 <= j < strings_view(seen@).len() && strings_view(seen@)[j] == r@;
            assert(seen@[j]@ == r@);
        }
    }
    false
}

fn read_header(unh: &Segment, seen: &mut Vec<String>, errs: &mut Vec<EdifactError>) -> (r: (String, String, String, String, String))
    ensures
        r.0@ == req_text(*unh, 0, 0),
        r.1@ == req_text(*unh, 1, 0),
        r.2@ == req_text(*unh, 1, 1),
        r.3@ == req_text(*unh, 1, 2),
        r.4@ == req_text(*unh, 1, 3),
        errs_view(final(errs)@) == errs_view(old(errs)@) + header_errs(*unh, strings_view(old(seen)@)),
        strings_view(final(seen)@) == strings_view(old(seen)@).push(req_text(*unh, 0, 0)),
{
    let ghost e0 = errs_view(errs@);
    let message_ref = required(unh, 0, 0, errs);
    let ghost e1 = errs_view(errs@);
    if contains_ref(seen, message_ref.as_str()) {
        push_err(errs, EdifactError::DuplicateReference { tag: own("UNH"), reference: message_ref.clone(), span: unh.span });
    }
    let ghost e2 = errs_view(errs@);
    proof { reveal_strlit("UNH"); }
    seen.push(message_ref.clone());
    proof { assert(strings_view(seen@) =~= strings_view(old(seen)@).push(message_ref@)); }
    let a = required(unh, 1, 0, errs);
    let b = required(unh, 1, 1, errs);
    let c = required(unh, 1, 2, errs);
    let d = required(unh, 1, 3, errs);
    proof {
        assert(errs_view(errs@) =~= e2 + req_err(*unh, 1, 0) + req_err(*unh, 1, 1) + req_err(*unh, 1, 2) + req_err(*unh, 1, 3));
        assert(errs_view(errs@) =~= errs_view(old(errs)@) + header_errs(*unh, strings_view(old(seen)@)));
    }
    (message_ref, a, b, c, d)
}

fn read_trailer(unt: &Segment, message_ref: &str, errs: &mut Vec<EdifactError>) -> (r: u32)
    ensures
        r == count_value(*unt, 0, 0),
        errs_view(final(errs)@) == errs_view(old(errs)@) + trailer_errs(*unt, message_ref@),
{
    let ghost e0 = errs_view(errs@);
    let declared = required_count(unt, 0, 0, errs);
    let unt_ref = required(unt, 1, 0, errs);
    let ghost e1 = errs_view(errs@);
    if !str_eq(unt_ref.as_str(), message_ref) {
        push_err(errs, EdifactError::QualifierMismatch {
            tag: own("UNT"),
            actual: unt_ref,
            expected: own(message_ref),
            span: unt.span,
        });
    }
    proof {
        reveal_strlit("UNT");
        assert(errs_view(errs@) =~= errs_view(old(errs)@) + trailer_errs(*unt, message_ref@));
    }
    declared
}

fn read_message(segs: &[Segment], u: usize, t: usize, seen: &mut Vec<String>, errs: &mut Vec<EdifactError>) -> (m: MessageEnvelope)
    requires
        u < t < segs@.len(),
    ensures
        message_is(m, segs@, u as int, t as int),
        errs_view(final(errs)@) == errs_view(old(errs)@) + message_errs(segs@, u as int, t as int, strings_view(old(seen)@)),
        strings_view(final(seen)@) == strings_view(old(seen)@).push(req_text(segs@[u as int], 0, 0)),
{
    let unh = &segs[u];
    let unt = &segs[t];
    let ghost e0 = errs_view(errs@);
    let (message_ref, message_type, version, release, controlling_agency) = read_header(unh, seen, errs);
    let association_code = comp_text(unh, 1, 4);
    let common_access_ref = opt_owned(unh, 2, 0);
    let sequence_of_transfers = match unh.optional_component(3, 0) {
        Some(v) => parse_u32(v),
        None => None,
    };
    let transfer_position = opt_owned(unh, 3, 1);
    let declared_segment_count = read_trailer(unt, message_ref.as_str(), errs);
    let ghost e3 = errs_view(errs@);
    let span_len = t - u;
    let actual_segment_count: u32 = if span_len >= 4294967295usize {
        push_err(errs, EdifactError::InterchangeTooLarge { count: (span_len as u64) + 1 });
        4294967295u32
    } else {
        (span_len + 1) as u32
    };
    proof {
        assert(errs_view(errs@) =~= e0 + message_errs(segs@, u as int, t as int, strings_view(old(seen)@)));
    }
    MessageEnvelope {
        message_ref,
        message_type,
        version,
        release,
        controlling_agency,
        association_code,
        common_access_ref,
        sequence_of_transfers,
        transfer_position,
        declared_segment_count,
        actual_segment_count,
    }
}

fn is_tag(s: &Segment, t: &str) -> (b: bool)
    ensures
        b == (s.tag@ == t@),
{
    str_eq(s.tag.as_str(), t)
}

fn misplaced(s: &Segment) -> (e: EdifactError)
    ensures
        err_view(e) == (ErrView::Misplaced { tag: s.tag@, span: s.span }),
{
    proof { reveal_strlit("ENVELOPE"); }
    EdifactError::InvalidSegmentForMessage { tag: s.tag.clone(), message_type: own("ENVELOPE"), span: s.span }
}

/// What reading messages gave: the messages and the spans of their UNT
/// segments, in order, matching the closed pairs of the reading state.
pub open spec fn messages_match(segs: Seq<Segment>, ms: Seq<MessageEnvelope>, spans: Seq<Span>, pairs: Seq<(int, int)>) -> bool {
    &&& ms.len() == pairs.len()
    &&& spans.len() == pairs.len()
    &&& forall|k: int| 0 <= k < pairs.len() ==> message_is(#[trigger] ms[k], segs, pairs[k].0, pairs[k].1)
        && spans[k] == segs[pairs[k].1].span && 0 <= pairs[k].0 < pairs[k].1 < segs.len()
}

fn extract_messages_flat(segs: &[Segment], seen: &mut Vec<String>, errs: &mut Vec<EdifactError>)
    -> (r: Result<(Vec<MessageEnvelope>, Vec<Span>), EdifactError>)
    ensures
        match flat_result(segs@, strings_view(old(seen)@)) {
            FlatState::Run { errs: fe, seen: fs, open, pairs } => r matches Ok((ms, spans))
                && errs_view(final(errs)@) == errs_view(old(errs)@) + fe
                && strings_view(final(seen)@) == fs
                && messages_match(segs@, ms@, spans@, pairs),
            FlatState::Fatal { errs: fe, fatal } => r matches Err(e) && err_view(e) == fatal
                && errs_view(final(errs)@) == errs_view(old(errs)@) + fe,
        },
{
    let ghost base = errs_view(errs@);
    let ghost seen0 = strings_view(seen@);
    let mut msgs: Vec<MessageEnvelope> = Vec::new();
    let mut spans: Vec<Span> = Vec::new();
    let mut open: Option<usize> = None;
    let ghost mut pairs: Seq<(int, int)> = Seq::empty();
    let mut i: usize = 0;
    proof {
        assert(errs_view(errs@).subrange(base.len() as int, errs_view(errs@).len() as int) =~= Seq::<ErrView>::empty());
        assert(errs_view(errs@).subrange(0, base.len() as int) =~= base);
    }
    while i < segs.len()
        invariant
            i <= segs@.len(),
            base == errs_view(old(errs)@),
            seen0 == strings_view(old(seen)@),
            flat_fold(segs@, i as int, seen0) == (FlatState::Run {
                errs: errs_view(errs@).subrange(base.len() as int, errs_view(errs@).len() as int),
                seen: strings_view(seen@),
                open: match open { Some(u) => Some(u as int), None => None },
                pairs,
            }),
            errs_view(errs@).subrange(0, base.len() as int) == base,
            base.len() <= errs_view(errs@).len(),
            open matches Some(u) ==> u < i,
            forall|k: int| 0 <= k < pairs.len() ==> 0 <= (#[trigger] pairs[k]).0 < pairs[k].1 < i,
            messages_match(segs@, msgs@, spans@, pairs),
        decreases segs@.len() - i,
    {
        let ghost st = flat_fold(segs@, i as int, seen0);
        let ghost ev = errs_view(errs@);
        let s = &segs[i];
        proof { reveal_strlit("UNH"); reveal_strlit("UNT"); reveal_strlit("UNB"); reveal_strlit("UNZ"); reveal_strlit("UNG"); reveal_strlit("UNE"); }
        if is_tag(s, "UNH") {
            if open.is_some() {
                let e = misplaced(s);
                proof { lemma_flat_fatal_sticks(segs@, seen0, i as int + 1); }
                return Err(e);
            }
            open = Some(i);
        } else if is_tag(s, "UNT") {
            match open {
                Some(u) => {
                    let m = read_message(segs, u, i, seen, errs);
                    msgs.push(m);
                    spans.push(s.span);
                    proof {
                        pairs = pairs.push((u as int, i as int));
                        assert(errs_view(errs@).subrange(base.len() as int, errs_view(errs@).len() as int)
                            =~= ev.subrange(base.len() as int, ev.len() as int) + message_errs(segs@, u as int, i as int, st->Run_seen));
                        assert(errs_view(errs@).subrange(0, base.len() as int) =~= ev.subrange(0, base.len() as int));
                    }
                    open = None;
                },
                None => {
                    let e = misplaced(s);
                    proof { lemma_flat_fatal_sticks(segs@, seen0, i as int + 1); }
                    return Err(e);
                },
            }
        } else if is_tag(s, "UNB") || is_tag(s, "UNZ") || is_tag(s, "UNG") || is_tag(s, "UNE") || open.is_none() {
            let e = misplaced(s);
            proof { lemma_flat_fatal_sticks(segs@, seen0, i as int + 1); }
            return Err(e);
        }
        i = i + 1;
    }
    if open.is_some() {
        proof { reveal_strlit("end of message group"); }
        return Err(EdifactError::MissingSegment { tag: own("UNT"), expected_position: own("end of message group") });
    }
    proof { assert(errs_view(errs@) =~= base + errs_view(errs@).subrange(base.len() as int, errs_view(errs@).len() as int)); }
    Ok((msgs, spans))
}

/// Once reading stops on a fault, the rest of the segments change nothing.
proof fn lemma_flat_fatal_sticks(segs: Seq<Segment>, seen: Seq<Seq<char>>, n: int)
    requires
        0 <= n <= segs.len(),
        flat_fold(segs, n, seen) is Fatal,
    ensures
        flat_fold(segs, segs.len() as int, seen) == flat_fold(segs, n, seen),
        flat_result(segs, seen) == flat_fold(segs, n, seen),
    decreases segs.len() - n,
{
    if n < segs.len() {
        lemma_flat_fatal_sticks(segs, seen, n + 1);
    }
}

// ── functional groups ───────────────────────────────────────────────────────

/// The UNE closing a group, searched from `k`: its index, or the fault (a
/// nested UNG, or no UNE at all).
pub open spec fn matching_une(segs: Seq<Segment>, k: int) -> Result<int, ErrView>
    decreases segs.len() - k,
{
    if k >= segs.len() {
        Err(ErrView::Missing { tag: "UNE"@, position: "end of functional group"@ })
    } else if segs[k].tag@ == "UNE"@ {
        Ok(k)
    } else if segs[k].tag@ == "UNG"@ {
        Err(ErrView::Misplaced { tag: "UNG"@, span: segs[k].span })
    } else {
        matching_une(segs, k + 1)
    }
}

pub proof fn lemma_matching_une(segs: Seq<Segment>, k: int)
    requires
        0 <= k,
    ensures
        matching_une(segs, k) matches Ok(e) ==> k <= e < segs.len(),
    decreases segs.len() - k,
{
    if k < segs.len() && segs[k].tag@ != "UNE"@ && segs[k].tag@ != "UNG"@ {
        lemma_matching_une(segs, k + 1);
    }
}

/// The violations of a group's UNG and UNE, given the group references seen before.
pub open spec fn group_head_errs(ung: Segment, une: Segment, seen: Seq<Seq<char>>) -> Seq<ErrView> {
    let r = req_text(ung, 4, 0);
    req_err(ung, 4, 0)
    + (if seen.contains(r) { seq![ErrView::Duplicate { tag: "UNG"@, reference: r, span: ung.span }] } else { Seq::empty() })
    + req_err(une, 0, 0) + count_err(une, 0, 0) + req_err(une, 1, 0)
    + (if req_text(une, 1, 0) != r {
        seq![ErrView::Mismatch { tag: "UNE"@, actual: req_text(une, 1, 0), expected: r, span: une.span }]
    } else {
        Seq::empty()
    })
}

/// A count as a `u32`, or `u32::MAX` when it does not fit.
pub open spec fn clamp_count(n: int) -> u32 {
    if n > u32::MAX { u32::MAX } else { n as u32 }
}

/// The violations after a group's messages: too many, or not as many as declared.
pub open spec fn group_tail_errs(une: Segment, n: int) -> Seq<ErrView> {
    (if n > u32::MAX { seq![ErrView::TooLarge { count: n }] } else { Seq::empty() })
    + (if count_value(une, 0, 0) != clamp_count(n) {
        seq![ErrView::UnitCount { expected: count_value(une, 0, 0) as int, actual: clamp_count(n) as int }]
    } else {
        Seq::empty()
    })
}

/// The state of reading groups.
pub enum GroupState {
    /// Reading goes on: violations, group and message references seen, and
    /// per group its UNG, its UNE and its messages' UNH/UNT pairs (relative to
    /// the group's content).
    Run { errs: Seq<ErrView>, seen_groups: Seq<Seq<char>>, seen_messages: Seq<Seq<char>>, groups: Seq<(int, int, Seq<(int, int)>)> },
    /// A structural fault stopped reading.
    Fatal { errs: Seq<ErrView>, fatal: ErrView },
}

/// Group reading from segment `i` on.
pub open spec fn grouped_from(segs: Seq<Segment>, i: int, st: GroupState) -> GroupState
    decreases segs.len() - i,
{
    match st {
        GroupState::Fatal { .. } => st,
        GroupState::Run { errs, seen_groups, seen_messages, groups } => {
            if i < 0 || i >= segs.len() {
                st
            } else if segs[i].tag@ != "UNG"@ {
                GroupState::Fatal { errs, fatal: ErrView::Misplaced { tag: segs[i].tag@, span: segs[i].span } }
            } else {
                match matching_une(segs, i + 1) {
                    Err(f) => GroupState::Fatal { errs, fatal: f },
                    Ok(e) => {
                        let ung = segs[i];
                        let une = segs[e];
                        let errs1 = errs + group_head_errs(ung, une, seen_groups);
                        match flat_result(segs.subrange(i + 1, e), seen_messages) {
                            FlatState::Fatal { errs: fe, fatal } => GroupState::Fatal { errs: errs1 + fe, fatal },
                            FlatState::Run { errs: fe, seen: sm, open: _, pairs } => {
                                proof { lemma_matching_une(segs, i + 1); }
                                grouped_from(segs, e + 1, GroupState::Run {
                                    errs: errs1 + fe + group_tail_errs(une, pairs.len() as int),
                                    seen_groups: seen_groups.push(req_text(ung, 4, 0)),
                                    seen_messages: sm,
                                    groups: groups.push((i, e, pairs)),
                                })
                            },
                        }
                    },
                }
            }
        },
    }
}

/// `g` is the group from UNG at `i` to UNE at `e`, with the given message pairs.
pub open spec fn group_is(g: FunctionalGroupEnvelope, segs: Seq<Segment>, i: int, e: int, pairs: Seq<(int, int)>) -> bool {
    let ung = segs[i];
    let une = segs[e];
    &&& g.group_id@ == opt_text(ung, 0, 0)
    &&& g.app_sender@ == opt_text(ung, 1, 0)
    &&& g.app_sender_qualifier@ == opt_text(ung, 1, 1)
    &&& g.app_recipient@ == opt_text(ung, 2, 0)
    &&& g.app_recipient_qualifier@ == opt_text(ung, 2, 1)
    &&& g.date@ == opt_text(ung, 3, 0)
    &&& opt_string(g.time) == opt_value(ung, 3, 1)
    &&& g.group_ref@ == req_text(ung, 4, 0)
    &&& g.controlling_agency@ == opt_text(ung, 5, 0)
    &&& g.version@ == opt_text(ung, 6, 0)
    &&& g.release@ == opt_text(ung, 6, 1)
    &&& g.declared_message_count == count_value(une, 0, 0)
    &&& g.actual_message_count == clamp_count(pairs.len() as int)
    &&& g.messages@.len() == pairs.len()
    &&& forall|k: int| 0 <= k < pairs.len() ==>
        message_is(#[trigger] g.messages@[k], segs.subrange(i + 1, e), pairs[k].0, pairs[k].1)
}

fn read_group_head(ung: &Segment, une: &Segment, seen: &mut Vec<String>, errs: &mut Vec<EdifactError>) -> (r: (String, u32))
    ensures
        r.0@ == req_text(*ung, 4, 0),
        r.1 == count_value(*une, 0, 0),
        errs_view(final(errs)@) == errs_view(old(errs)@) + group_head_errs(*ung, *une, strings_view(old(seen)@)),
        strings_view(final(seen)@) == strings_view(old(seen)@).push(req_text(*ung, 4, 0)),
{
    let ghost e0 = errs_view(errs@);
    let group_ref = required(ung, 4, 0, errs);
    if contains_ref(seen, group_ref.as_str()) {
        push_err(errs, EdifactError::DuplicateReference { tag: own("UNG"), reference: group_ref.clone(), span: ung.span });
    }
    proof { reveal_strlit("UNG"); }
    seen.push(group_ref.clone());
    proof { assert(strings_view(seen@) =~= strings_view(old(seen)@).push(group_ref@)); }
    let ghost e1 = errs_view(errs@);
    let declared = required_count(une, 0, 0, errs);
    let une_ref = required(une, 1, 0, errs);
    if !str_eq(une_ref.as_str(), group_ref.as_str()) {
        push_err(errs, EdifactError::QualifierMismatch {
            tag: own("UNE"),
            actual: une_ref,
            expected: group_ref.clone(),
            span: une.span,
        });
    }
    proof {
        reveal_strlit("UNE");
        assert(errs_view(errs@) =~= e0 + group_head_errs(*ung, *une, strings_view(old(seen)@)));
    }
    (group_ref, declared)
}

fn find_matching_une(segs: &[Segment], start: usize) -> (r: Result<usize, EdifactError>)
    requires
        start <= segs@.len(),
    ensures
        match matching_une(segs@, start as int) {
            Ok(e) => r == Ok::<usize, EdifactError>(e as usize),
            Err(f) => r matches Err(x) && err_view(x) == f,
        },
{
    let mut k = start;
    while k < segs.len()
        invariant
            start <= k <= segs@.len(),
            matching_une(segs@, start as int) == matching_une(segs@, k as int),
        decreases segs@.len() - k,
    {
        proof { reveal_strlit("UNE"); reveal_strlit("UNG"); }
        if is_tag(&segs[k], "UNE") {
            return Ok(k);
        }
        if is_tag(&segs[k], "UNG") {
            return Err(misplaced(&segs[k]));
        }
        k = k + 1;
    }
    proof { reveal_strlit("end of functional group"); }
    Err(EdifactError::MissingSegment { tag: own("UNE"), expected_position: own("end of functional group") })
}

/// The spans of the UNT segments of every group's messages, in document order.
pub open spec fn group_unt_spans(segs: Seq<Segment>, groups: Seq<(int, int, Seq<(int, int)>)>) -> Seq<Span>
    decreases groups.len(),
{
    if groups.len() == 0 {
        Seq::empty()
    } else {
        let g = groups.last();
        group_unt_spans(segs, groups.drop_last())
            + g.2.map_values(|p: (int, int)| segs[g.0 + 1 + p.1].span)
    }
}

/// The initial group-reading state.
pub open spec fn group_start() -> GroupState {
    GroupState::Run { errs: Seq::empty(), seen_groups: Seq::empty(), seen_messages: Seq::empty(), groups: Seq::empty() }
}

fn read_group(inner: &[Segment], i: usize, e: usize, seen_groups: &mut Vec<String>, seen_messages: &mut Vec<String>,
    errs: &mut Vec<EdifactError>) -> (r: Result<(FunctionalGroupEnvelope, Vec<Span>), EdifactError>)
    requires
        i < e < inner@.len(),
    ensures
        ({
            let ung = inner@[i as int];
            let une = inner@[e as int];
            let head = group_head_errs(ung, une, strings_view(old(seen_groups)@));
            match flat_result(inner@.subrange(i + 1, e as int), strings_view(old(seen_messages)@)) {
                FlatState::Fatal { errs: fe, fatal } => r matches Err(x) && err_view(x) == fatal
                    && errs_view(final(errs)@) == errs_view(old(errs)@) + head + fe,
                FlatState::Run { errs: fe, seen: sm, open: _, pairs } => r matches Ok((g, spans))
                    && group_is(g, inner@, i as int, e as int, pairs)
                    && spans@ == pairs.map_values(|p: (int, int)| inner@[i + 1 + p.1].span)
                    && errs_view(final(errs)@) == errs_view(old(errs)@) + head + fe + group_tail_errs(une, pairs.len() as int)
                    && strings_view(final(seen_groups)@) == strings_view(old(seen_groups)@).push(req_text(ung, 4, 0))
                    && strings_view(final(seen_messages)@) == sm,
            }
        }),
{
    let ung = &inner[i];
    let une = &inner[e];
    let ghost e0 = errs_view(errs@);
    let (group_ref, declared) = read_group_head(ung, une, seen_groups, errs);
    let ghost e1 = errs_view(errs@);
    let sub = vstd::slice::slice_subrange(inner, i + 1, e);
    let (msgs, mspans) = match extract_messages_flat(sub, seen_messages, errs) {
        Ok(p) => p,
        Err(x) => return Err(x),
    };
    let ghost e2 = errs_view(errs@);
    let ghost mv = msgs@;
    let n = msgs.len();
    let actual: u32 = if n > 4294967295usize {
        push_err(errs, EdifactError::InterchangeTooLarge { count: n as u64 });
        4294967295u32
    } else {
        n as u32
    };
    if declared != actual {
        push_err(errs, EdifactError::MessageCountMismatch { expected: declared, actual });
    }
    proof {
        let une_v = inner@[e as int];
        assert(errs_view(errs@) =~= e2 + group_tail_errs(une_v, n as int));
    }
    let g = FunctionalGroupEnvelope {
        group_id: comp_text(ung, 0, 0),
        app_sender: comp_text(ung, 1, 0),
        app_sender_qualifier: comp_text(ung, 1, 1),
        app_recipient: comp_text(ung, 2, 0),
        app_recipient_qualifier: comp_text(ung, 2, 1),
        date: comp_text(ung, 3, 0),
        time: opt_owned(ung, 3, 1),
        group_ref,
        controlling_agency: comp_text(ung, 5, 0),
        version: comp_text(ung, 6, 0),
        release: comp_text(ung, 6, 1),
        declared_message_count: declared,
        actual_message_count: actual,
        messages: msgs,
    };
    proof {
        let pairs = match flat_result(sub@, strings_view(old(seen_messages)@)) { FlatState::Run { pairs, .. } => pairs, _ => Seq::empty() };
        assert forall|k: int| 0 <= k < pairs.len() implies #[trigger] mspans@[k] == inner@[i + 1 + pairs[k].1].span by {
            assert(message_is(mv[k], sub@, pairs[k].0, pairs[k].1));
            assert(sub@[pairs[k].1] == inner@[i + 1 + pairs[k].1]);
        }
        assert(mspans@ =~= pairs.map_values(|p: (int, int)| inner@[i + 1 + p.1].span));
    }
    Ok((g, mspans))
}

#[verifier::spinoff_prover]
#[verifier::rlimit(40)]
fn extract_with_groups(inner: &[Segment], errs: &mut Vec<EdifactError>)
    -> (r: Result<(Vec<FunctionalGroupEnvelope>, Vec<Span>), EdifactError>)
    ensures
        match grouped_from(inner@, 0, group_start()) {
            GroupState::Run { errs: ge, groups, .. } => r matches Ok((gs, spans))
                && errs_view(final(errs)@) == errs_view(old(errs)@) + ge
                && gs@.len() == groups.len()
                && (forall|k: int| 0 <= k < groups.len() ==>
                    group_is(#[trigger] gs@[k], inner@, groups[k].0, groups[k].1, groups[k].2))
                && spans@ == group_unt_spans(inner@, groups),
            GroupState::Fatal { errs: ge, fatal } => r matches Err(x) && err_view(x) == fatal
                && errs_view(final(errs)@) == errs_view(old(errs)@) + ge,
        },
{
    let ghost base = errs_view(errs@);
    let mut groups: Vec<FunctionalGroupEnvelope> = Vec::new();
    let mut spans: Vec<Span> = Vec::new();
    let mut seen_groups: Vec<String> = Vec::new();
    let mut seen_messages: Vec<String> = Vec::new();
    let ghost mut gv: Seq<(int, int, Seq<(int, int)>)> = Seq::empty();
    let mut i: usize = 0;
    proof {
        assert(errs_view(errs@).subrange(base.len() as int, errs_view(errs@).len() as int) =~= Seq::<ErrView>::empty());
        assert(errs_view(errs@).subrange(0, base.len() as int) =~= base);
        assert(strings_view(seen_groups@) =~= Seq::<Seq<char>>::empty());
        assert(strings_view(seen_messages@) =~= Seq::<Seq<char>>::empty());
    }
    while i < inner.len()
        invariant
            i <= inner@.len(),
            base == errs_view(old(errs)@),
            base.len() <= errs_view(errs@).len(),
            errs_view(errs@).subrange(0, base.len() as int) == base,
            grouped_from(inner@, 0, group_start()) == grouped_from(inner@, i as int, GroupState::Run {
                errs: errs_view(errs@).subrange(base.len() as int, errs_view(errs@).len() as int),
                seen_groups: strings_view(seen_groups@),
                seen_messages: strings_view(seen_messages@),
                groups: gv,
            }),
            groups@.len() == gv.len(),
            forall|k: int| 0 <= k < gv.len() ==> group_is(#[trigger] groups@[k], inner@, gv[k].0, gv[k].1, gv[k].2),
            spans@ == group_unt_spans(inner@, gv),
        decreases inner@.len() - i,
    {
        let ghost ev = errs_view(errs@);
        let ung = &inner[i];
        proof { reveal_strlit("UNG"); }
        if !is_tag(ung, "UNG") {
            return Err(misplaced(ung));
        }
        let e = match find_matching_une(inner, i + 1) {
            Ok(e) => e,
            Err(x) => return Err(x),
        };
        proof { lemma_matching_une(inner@, i + 1); }
        let ghost sg0 = strings_view(seen_groups@);
        let ghost sm0 = strings_view(seen_messages@);
        let (g, gspans) = match read_group(inner, i, e, &mut seen_groups, &mut seen_messages, errs) {
            Ok(p) => p,
            Err(x) => {
                proof {
                    assert(errs_view(errs@).subrange(base.len() as int, errs_view(errs@).len() as int)
                        =~= ev.subrange(base.len() as int, ev.len() as int)
                            + errs_view(errs@).subrange(ev.len() as int, errs_view(errs@).len() as int));
                }
                return Err(x);
            },
        };
        let ghost pairs = match flat_result(inner@.subrange(i + 1, e as int), sm0) { FlatState::Run { pairs, .. } => pairs, _ => Seq::empty() };
        proof {
            let ung_v = inner@[i as int];
            let une_v = inner@[e as int];
            let head = group_head_errs(ung_v, une_v, sg0);
            let cur = GroupState::Run {
                errs: ev.subrange(base.len() as int, ev.len() as int),
                seen_groups: sg0,
                seen_messages: sm0,
                groups: gv,
            };
            match flat_result(inner@.subrange(i + 1, e as int), sm0) {
                FlatState::Run { errs: fe, seen: sm, open: _, pairs: p } => {
                    let tail = group_tail_errs(une_v, p.len() as int);
                    assert(errs_view(errs@) == ev + head + fe + tail);
                    assert(errs_view(errs@).subrange(base.len() as int, errs_view(errs@).len() as int)
                        =~= ev.subrange(base.len() as int, ev.len() as int) + head + fe + tail);
                    assert(grouped_from(inner@, i as int, cur) == grouped_from(inner@, e + 1, GroupState::Run {
                        errs: ev.subrange(base.len() as int, ev.len() as int) + head + fe + tail,
                        seen_groups: sg0.push(req_text(ung_v, 4, 0)),
                        seen_messages: sm,
                        groups: gv.push((i as int, e as int, p)),
                    }));
                },
                _ => {},
            }
            assert(errs_view(errs@).subrange(0, base.len() as int) =~= base);
        }
        let ghost old_groups = groups@;
        groups.push(g);
        let mut gspans = gspans;
        spans.append(&mut gspans);
        proof {
            let ng = gv.push((i as int, e as int, pairs));
            assert(ng.drop_last() =~= gv);
            assert(spans@ =~= group_unt_spans(inner@, ng));
            assert forall|k: int| 0 <= k < ng.len() implies group_is(#[trigger] groups@[k], inner@, ng[k].0, ng[k].1, ng[k].2) by {
                if k < gv.len() { assert(groups@[k] == old_groups[k]); }
            }
            gv = ng;
        }
        i = e + 1;
    }
    proof { assert(errs_view(errs@) =~= base + errs_view(errs@).subrange(base.len() as int, errs_view(errs@).len() as int)); }
    Ok((groups, spans))
}

// ── the interchange ─────────────────────────────────────────────────────────

/// The syntax identifiers ISO 9735-1 defines: `UNOA` through `UNOK`, `UNOX`,
/// `UNOY` and `KECA`.  A defined repertoire that cannot be decoded is a
/// matter for the character-set layer, not for the envelope.
pub open spec fn known_syntax_id(id: Seq<char>) -> bool {
    &&& id.len() == 4
    &&& ((id[0] == 'U' && id[1] == 'N' && id[2] == 'O'
            && (('A' <= id[3] && id[3] <= 'K') || id[3] == 'X' || id[3] == 'Y'))
        || id == seq!['K', 'E', 'C', 'A'])
}

/// Whether `id` is a syntax identifier ISO 9735-1 defines.
fn is_known_syntax_id(id: &str) -> (r: bool)
    ensures
        r == known_syntax_id(id@),
{
    let c = crate::text::to_chars(id);
    if c.len() != 4 {
        return false;
    }
    let unox = c[0] == 'U' && c[1] == 'N' && c[2] == 'O'
        && (('A' <= c[3] && c[3] <= 'K') || c[3] == 'X' || c[3] == 'Y');
    let keca = c[0] == 'K' && c[1] == 'E' && c[2] == 'C' && c[3] == 'A';
    proof {
        if keca { assert(id@ =~= seq!['K', 'E', 'C', 'A']); }
        if id@ == seq!['K', 'E', 'C', 'A'] { assert(c@[0] == 'K' && c@[1] == 'E' && c@[2] == 'C' && c@[3] == 'A'); }
    }
    unox || keca
}

/// The structural fault of the interchange frame, if any: no UNB first, or no UNZ last.
pub open spec fn frame_fault(segs: Seq<Segment>) -> Option<ErrView> {
    if segs.len() == 0 || segs[0].tag@ != "UNB"@ {
        Some(ErrView::Missing { tag: "UNB"@, position: "first segment of interchange"@ })
    } else if segs.last().tag@ != "UNZ"@ {
        Some(ErrView::Missing { tag: "UNZ"@, position: "last segment of interchange"@ })
    } else {
        None
    }
}

/// The violations of UNB, in the order they are found.
pub open spec fn unb_errs(unb: Segment) -> Seq<ErrView> {
    let id = req_text(unb, 0, 0);
    req_err(unb, 0, 0)
    + (if !known_syntax_id(id) { seq![ErrView::Unrecognised { id }] } else { Seq::empty() })
    + req_err(unb, 1, 0) + req_err(unb, 2, 0) + req_err(unb, 3, 0) + req_err(unb, 4, 0)
}

/// The violations of UNZ, given the control reference of UNB.
pub open spec fn unz_errs(unz: Segment, control_ref: Seq<char>) -> Seq<ErrView> {
    req_err(unz, 1, 0)
    + (if req_text(unz, 1, 0) != control_ref {
        seq![ErrView::Mismatch { tag: "UNZ"@, actual: req_text(unz, 1, 0), expected: control_ref, span: unz.span }]
    } else {
        Seq::empty()
    })
    + req_err(unz, 0, 0) + count_err(unz, 0, 0)
}

/// The violations of UNB and UNZ, in the order they are found.
pub open spec fn frame_errs(unb: Segment, unz: Segment) -> Seq<ErrView> {
    unb_errs(unb) + unz_errs(unz, req_text(unb, 4, 0))
}

/// `env` holds the data of UNB and UNZ (its actual unit count aside).
pub open spec fn interchange_is(env: InterchangeEnvelope, unb: Segment, unz: Segment) -> bool {
    &&& env.syntax_identifier@ == req_text(unb, 0, 0)
    &&& env.syntax_version@ == opt_text(unb, 0, 1)
    &&& env.sender_id@ == req_text(unb, 1, 0)
    &&& env.sender_qualifier@ == opt_text(unb, 1, 1)
    &&& opt_string(env.sender_routing_address) == opt_value(unb, 1, 2)
    &&& env.recipient_id@ == req_text(unb, 2, 0)
    &&& env.recipient_qualifier@ == opt_text(unb, 2, 1)
    &&& opt_string(env.recipient_routing_address) == opt_value(unb, 2, 2)
    &&& env.date@ == req_text(unb, 3, 0)
    &&& opt_string(env.time) == opt_value(unb, 3, 1)
    &&& env.control_ref@ == req_text(unb, 4, 0)
    &&& opt_string(env.recipient_password) == opt_value(unb, 5, 0)
    &&& opt_string(env.recipient_password_qualifier) == opt_value(unb, 5, 1)
    &&& opt_string(env.app_ref) == opt_value(unb, 6, 0)
    &&& opt_string(env.processing_priority) == opt_value(unb, 7, 0)
    &&& env.acknowledgement_request == (seg_component(unb, 8, 0) == Some("1"@))
    &&& opt_string(env.communications_agreement_id) == opt_value(unb, 9, 0)
    &&& env.test_indicator == (seg_component(unb, 10, 0) == Some("1"@))
    &&& env.declared_unit_count == count_value(unz, 0, 0)
}

fn component_is_one(s: &Segment, e: usize, c: usize) -> (b: bool)
    ensures
        b == (seg_component(*s, e as int, c as int) == Some("1"@)),
{
    proof { reveal_strlit("1"); }
    match s.component_str(e, c) {
        Some(t) => str_eq(t, "1"),
        None => false,
    }
}

fn read_unb(unb: &Segment, errs: &mut Vec<EdifactError>) -> (r: (String, String, String, String, String))
    ensures
        r.0@ == req_text(*unb, 0, 0),
        r.1@ == req_text(*unb, 1, 0),
        r.2@ == req_text(*unb, 2, 0),
        r.3@ == req_text(*unb, 3, 0),
        r.4@ == req_text(*unb, 4, 0),
        errs_view(final(errs)@) == errs_view(old(errs)@) + unb_errs(*unb),
{
    let ghost e0 = errs_view(errs@);
    let syntax_identifier = required(unb, 0, 0, errs);
    let known = is_known_syntax_id(syntax_identifier.as_str());
    if !known {
        push_err(errs, EdifactError::UnrecognisedSyntaxIdentifier(syntax_identifier.clone()));
    }
    let ghost e1 = errs_view(errs@);
    let sender_id = required(unb, 1, 0, errs);
    let recipient_id = required(unb, 2, 0, errs);
    let date = required(unb, 3, 0, errs);
    let control_ref = required(unb, 4, 0, errs);
    proof {
        assert(errs_view(errs@) =~= e1 + req_err(*unb, 1, 0) + req_err(*unb, 2, 0) + req_err(*unb, 3, 0) + req_err(*unb, 4, 0));
        assert(errs_view(errs@) =~= e0 + unb_errs(*unb));
    }
    (syntax_identifier, sender_id, recipient_id, date, control_ref)
}

fn read_unz(unz: &Segment, control_ref: &str, errs: &mut Vec<EdifactError>) -> (r: u32)
    ensures
        r == count_value(*unz, 0, 0),
        errs_view(final(errs)@) == errs_view(old(errs)@) + unz_errs(*unz, control_ref@),
{
    let ghost e0 = errs_view(errs@);
    let unz_ref = required(unz, 1, 0, errs);
    if !str_eq(unz_ref.as_str(), control_ref) {
        push_err(errs, EdifactError::QualifierMismatch {
            tag: own("UNZ"),
            actual: unz_ref,
            expected: own(control_ref),
            span: unz.span,
        });
    }
    proof { reveal_strlit("UNZ"); }
    let ghost e1 = errs_view(errs@);
    let declared = required_count(unz, 0, 0, errs);
    proof { assert(errs_view(errs@) =~= e0 + unz_errs(*unz, control_ref@)); }
    declared
}

fn read_frame(unb: &Segment, unz: &Segment, errs: &mut Vec<EdifactError>) -> (env: InterchangeEnvelope)
    ensures
        interchange_is(env, *unb, *unz),
        env.actual_unit_count == 0,
        errs_view(final(errs)@) == errs_view(old(errs)@) + frame_errs(*unb, *unz),
{
    let ghost e0 = errs_view(errs@);
    let (syntax_identifier, sender_id, recipient_id, date, control_ref) = read_unb(unb, errs);
    let declared = read_unz(unz, control_ref.as_str(), errs);
    proof { assert(errs_view(errs@) =~= e0 + frame_errs(*unb, *unz)); }
    InterchangeEnvelope {
        syntax_identifier,
        syntax_version: comp_text(unb, 0, 1),
        sender_id,
        sender_qualifier: comp_text(unb, 1, 1),
        sender_routing_address: opt_owned(unb, 1, 2),
        recipient_id,
        recipient_qualifier: comp_text(unb, 2, 1),
        recipient_routing_address: opt_owned(unb, 2, 2),
        date,
        time: opt_owned(unb, 3, 1),
        control_ref,
        recipient_password: opt_owned(unb, 5, 0),
        recipient_password_qualifier: opt_owned(unb, 5, 1),
        app_ref: opt_owned(unb, 6, 0),
        processing_priority: opt_owned(unb, 7, 0),
        acknowledgement_request: component_is_one(unb, 8, 0),
        communications_agreement_id: opt_owned(unb, 9, 0),
        test_indicator: component_is_one(unb, 10, 0),
        declared_unit_count: declared,
        actual_unit_count: 0,
    }
}

impl Clone for MessageEnvelope {
    fn clone(&self) -> (r: Self)
        ensures
            r == *self,
    {
        MessageEnvelope {
            message_ref: self.message_ref.clone(),
            message_type: self.message_type.clone(),
            version: self.version.clone(),
            release: self.release.clone(),
            controlling_agency: self.controlling_agency.clone(),
            association_code: self.association_code.clone(),
            common_access_ref: match &self.common_access_ref { Some(s) => Some(s.clone()), None => None },
            sequence_of_transfers: self.sequence_of_transfers,
            transfer_position: match &self.transfer_position { Some(s) => Some(s.clone()), None => None },
            declared_segment_count: self.declared_segment_count,
            actual_segment_count: self.actual_segment_count,
        }
    }
}

/// Every group's messages, in document order.
pub open spec fn group_messages(gs: Seq<FunctionalGroupEnvelope>) -> Seq<MessageEnvelope>
    decreases gs.len(),
{
    if gs.len() == 0 { Seq::empty() } else { group_messages(gs.drop_last()) + gs.last().messages@ }
}

fn flatten_groups(gs: &Vec<FunctionalGroupEnvelope>) -> (r: Vec<MessageEnvelope>)
    ensures
        r@ == group_messages(gs@),
{
    let mut out: Vec<MessageEnvelope> = Vec::new();
    let mut i: usize = 0;
    while i < gs.len()
        invariant
            i <= gs@.len(),
            out@ == group_messages(gs@.take(i as int)),
        decreases gs@.len() - i,
    {
        let ghost before = out@;
        let ms = &gs[i].messages;
        let mut k: usize = 0;
        while k < ms.len()
            invariant
                k <= ms@.len(),
                out@ == before + ms@.take(k as int),
            decreases ms@.len() - k,
        {
            out.push(ms[k].clone());
            proof { assert(out@ =~= before + ms@.take(k + 1)); }
            k = k + 1;
        }
        proof {
            assert(gs@.take(i + 1).drop_last() =~= gs@.take(i as int));
            assert(ms@.take(ms@.len() as int) =~= ms@);
        }
        i = i + 1;
    }
    proof { assert(gs@.take(gs@.len() as int) =~= gs@); }
    out
}

// ── validation ──────────────────────────────────────────────────────────────

/// The segments between UNB and UNZ.
pub open spec fn inner_of(segs: Seq<Segment>) -> Seq<Segment> {
    if segs.len() >= 2 { segs.subrange(1, segs.len() - 1) } else { Seq::empty() }
}

/// Whether the interchange uses functional groups: a UNG comes first.
pub open spec fn uses_groups(inner: Seq<Segment>) -> bool {
    inner.len() > 0 && inner[0].tag@ == "UNG"@
}

/// The violations of the unit count: too many units, or not as many as UNZ declares.
pub open spec fn unit_errs(declared: u32, n: int) -> Seq<ErrView> {
    (if n > u32::MAX { seq![ErrView::TooLarge { count: n }] } else { Seq::empty() })
    + (if declared != clamp_count(n) {
        seq![ErrView::UnitCount { expected: declared as int, actual: clamp_count(n) as int }]
    } else {
        Seq::empty()
    })
}

/// The segment count violations of the messages, in order, each reported at its UNT.
pub open spec fn count_errs(ms: Seq<MessageEnvelope>, spans: Seq<Span>) -> Seq<ErrView>
    decreases ms.len(),
{
    if ms.len() == 0 {
        Seq::empty()
    } else {
        let m = ms.last();
        count_errs(ms.drop_last(), spans.drop_last())
        + (if m.declared_segment_count != m.actual_segment_count {
            seq![ErrView::SegmentCount {
                expected: m.declared_segment_count as int,
                actual: m.actual_segment_count as int,
                message_ref: m.message_ref@,
                span: spans.last(),
            }]
        } else {
            Seq::empty()
        })
    }
}

/// What lenient validation answers for `segs`: the envelope `iv` where the
/// structure could be read, and the violations `errs`, in the order found:
/// those of UNB and UNZ, those found reading the content, and then either
/// the structural fault that stopped reading, or the unit count and segment
/// count violations.
pub open spec fn lenient_is(segs: Seq<Segment>, iv: Option<ValidatedInterchange>, errs: Seq<ErrView>) -> bool {
    match frame_fault(segs) {
        Some(f) => iv is None && errs == seq![f],
        None => {
            let unb = segs[0];
            let unz = segs.last();
            let inner = inner_of(segs);
            let fe = frame_errs(unb, unz);
            if uses_groups(inner) {
                match grouped_from(inner, 0, group_start()) {
                    GroupState::Fatal { errs: ge, fatal } => iv is None && errs == fe + ge + seq![fatal],
                    GroupState::Run { errs: ge, groups, .. } => iv matches Some(v)
                        && interchange_is(v.interchange, unb, unz)
                        && v.interchange.actual_unit_count == clamp_count(groups.len() as int)
                        && v.functional_groups@.len() == groups.len()
                        && (forall|k: int| 0 <= k < groups.len() ==>
                            group_is(#[trigger] v.functional_groups@[k], inner, groups[k].0, groups[k].1, groups[k].2))
                        && v.messages@ == group_messages(v.functional_groups@)
                        && errs == fe + ge + unit_errs(v.interchange.declared_unit_count, groups.len() as int)
                            + count_errs(v.messages@, group_unt_spans(inner, groups)),
                }
            } else {
                match flat_result(inner, Seq::empty()) {
                    FlatState::Fatal { errs: me, fatal } => iv is None && errs == fe + me + seq![fatal],
                    FlatState::Run { errs: me, pairs, .. } => iv matches Some(v)
                        && interchange_is(v.interchange, unb, unz)
                        && v.interchange.actual_unit_count == clamp_count(pairs.len() as int)
                        && v.functional_groups@.len() == 0
                        && v.messages@.len() == pairs.len()
                        && (forall|k: int| 0 <= k < pairs.len() ==> message_is(#[trigger] v.messages@[k], inner, pairs[k].0, pairs[k].1))
                        && errs == fe + me + unit_errs(v.interchange.declared_unit_count, pairs.len() as int)
                            + count_errs(v.messages@, pairs.map_values(|p: (int, int)| inner[p.1].span)),
                }
            }
        },
    }
}

fn check_counts(ms: &Vec<MessageEnvelope>, spans: &Vec<Span>, errs: &mut Vec<EdifactError>)
    requires
        spans@.len() == ms@.len(),
    ensures
        errs_view(final(errs)@) == errs_view(old(errs)@) + count_errs(ms@, spans@),
{
    let ghost e0 = errs_view(errs@);
    let mut i: usize = 0;
    while i < ms.len()
        invariant
            i <= ms@.len(),
            spans@.len() == ms@.len(),
            errs_view(errs@) == e0 + count_errs(ms@.take(i as int), spans@.take(i as int)),
        decreases ms@.len() - i,
    {
        let m = &ms[i];
        proof {
            assert(ms@.take(i + 1).drop_last() =~= ms@.take(i as int));
            assert(spans@.take(i + 1).drop_last() =~= spans@.take(i as int));
        }
        if m.declared_segment_count != m.actual_segment_count {
            push_err(errs, EdifactError::SegmentCountMismatch {
                expected: m.declared_segment_count,
                actual: m.actual_segment_count,
                message_ref: m.message_ref.clone(),
                span: spans[i],
            });
        }
        proof { assert(errs_view(errs@) =~= e0 + count_errs(ms@.take(i + 1), spans@.take(i + 1))); }
        i = i + 1;
    }
    proof {
        assert(ms@.take(ms@.len() as int) =~= ms@);
        assert(spans@.take(spans@.len() as int) =~= spans@);
    }
}

fn unit_count(n: usize, declared: u32, errs: &mut Vec<EdifactError>) -> (r: u32)
    ensures
        r == clamp_count(n as int),
        errs_view(final(errs)@) == errs_view(old(errs)@) + unit_errs(declared, n as int),
{
    let ghost e0 = errs_view(errs@);
    let actual: u32 = if n > 4294967295usize {
        push_err(errs, EdifactError::InterchangeTooLarge { count: n as u64 });
        4294967295u32
    } else {
        n as u32
    };
    if declared != actual {
        push_err(errs, EdifactError::MessageCountMismatch { expected: declared, actual });
    }
    proof { assert(errs_view(errs@) =~= e0 + unit_errs(declared, n as int)); }
    actual
}

proof fn lemma_group_spans_len(segs: Seq<Segment>, groups: Seq<(int, int, Seq<(int, int)>)>, gs: Seq<FunctionalGroupEnvelope>)
    requires
        gs.len() == groups.len(),
        forall|k: int| 0 <= k < groups.len() ==> (#[trigger] gs[k]).messages@.len() == groups[k].2.len(),
    ensures
        group_unt_spans(segs, groups).len() == group_messages(gs).len(),
    decreases groups.len(),
{
    if groups.len() > 0 {
        lemma_group_spans_len(segs, groups.drop_last(), gs.drop_last());
    }
}

fn validate_collecting(segs: &[Segment]) -> (r: (Option<ValidatedInterchange>, Vec<EdifactError>))
    ensures
        lenient_is(segs@, r.0, errs_view(r.1@)),
{
    let mut errs: Vec<EdifactError> = Vec::new();
    let n = segs.len();
    proof { reveal_strlit("UNB"); reveal_strlit("UNZ"); reveal_strlit("UNG"); }
    proof { assert(errs_view(errs@) =~= Seq::<ErrView>::empty()); }
    if n == 0 || !is_tag(&segs[0], "UNB") {
        let e = EdifactError::MissingSegment { tag: own("UNB"), expected_position: own("first segment of interchange") };
        push_err(&mut errs, e);
        proof { assert(errs_view(errs@) =~= seq![frame_fault(segs@).unwrap()]); }
        return (None, errs);
    }
    if !is_tag(&segs[n - 1], "UNZ") {
        let e = EdifactError::MissingSegment { tag: own("UNZ"), expected_position: own("last segment of interchange") };
        push_err(&mut errs, e);
        proof {
            assert(segs@.last() == segs@[n - 1]);
            assert(errs_view(errs@) =~= seq![frame_fault(segs@).unwrap()]);
        }
        return (None, errs);
    }
    let mut env = read_frame(&segs[0], &segs[n - 1], &mut errs);
    let inner: &[Segment] = if n >= 2 { vstd::slice::slice_subrange(segs, 1, n - 1) } else { vstd::slice::slice_subrange(segs, 0, 0) };
    proof {
        assert(errs_view(errs@) =~= frame_errs(segs@[0], segs@.last()));
        assert(inner@ =~= inner_of(segs@));
    }
    let grouped = inner.len() > 0 && is_tag(&inner[0], "UNG");
    if grouped {
        let ghost before = errs_view(errs@);
        let res = extract_with_groups(inner, &mut errs);
        let (groups, spans) = match res {
            Ok(p) => p,
            Err(x) => {
                let ghost mid = errs_view(errs@);
                push_err(&mut errs, x);
                proof {
                    assert(frame_fault(segs@) is None);
                    assert(uses_groups(inner_of(segs@)));
                    assert(errs_view(errs@) =~= mid + seq![err_view(x)]);
                }
                return (None, errs);
            },
        };
        let messages = flatten_groups(&groups);
        env.actual_unit_count = unit_count(groups.len(), env.declared_unit_count, &mut errs);
        proof {
            match grouped_from(inner@, 0, group_start()) {
                GroupState::Run { groups: gv, .. } => { lemma_group_spans_len(inner@, gv, groups@); },
                _ => {},
            }
        }
        check_counts(&messages, &spans, &mut errs);
        (Some(ValidatedInterchange { interchange: env, functional_groups: groups, messages }), errs)
    } else {
        let mut seen: Vec<String> = Vec::new();
        proof { assert(strings_view(seen@) =~= Seq::<Seq<char>>::empty()); }
        let res = extract_messages_flat(inner, &mut seen, &mut errs);
        let (messages, spans) = match res {
            Ok(p) => p,
            Err(x) => {
                let ghost mid = errs_view(errs@);
                push_err(&mut errs, x);
                proof {
                    assert(frame_fault(segs@) is None);
                    assert(!uses_groups(inner_of(segs@)));
                    assert(errs_view(errs@) =~= mid + seq![err_view(x)]);
                }
                return (None, errs);
            },
        };
        env.actual_unit_count = unit_count(messages.len(), env.declared_unit_count, &mut errs);
        check_counts(&messages, &spans, &mut errs);
        proof {
            match flat_result(inner@, Seq::empty()) {
                FlatState::Run { pairs, .. } => {
                    assert forall|k: int| 0 <= k < pairs.len() implies
                        spans@[k] == pairs.map_values(|p: (int, int)| inner@[p.1].span)[k] by {
                        assert(message_is(messages@[k], inner@, pairs[k].0, pairs[k].1));
                    }
                    assert(spans@ =~= pairs.map_values(|p: (int, int)| inner@[p.1].span));
                },
                _ => {},
            }
        }
        (Some(ValidatedInterchange { interchange: env, functional_groups: Vec::new(), messages }), errs)
    }
}

// ── public validation ──────────────────────────────────────────────────────

/// What strict validation answers for `segs`: the envelope when lenient
/// validation finds it readable and without violation; otherwise the first
/// violation lenient validation reports.
pub open spec fn strict_is(segs: Seq<Segment>, r: Result<ValidatedInterchange, EdifactError>) -> bool {
    match r {
        Ok(v) => lenient_is(segs, Some(v), Seq::empty()),
        Err(e) => exists|iv: Option<ValidatedInterchange>, es: Seq<ErrView>|
            #[trigger] lenient_is(segs, iv, es) && es.len() > 0 && es[0] == err_view(e),
    }
}

/// An interchange whose structure cannot be read is never answered without a
/// violation: lenient validation that finds no envelope reports at least one
/// error, so a result without errors always carries the envelope.
pub proof fn law_unreadable_envelope_is_reported(segs: Seq<Segment>, iv: Option<ValidatedInterchange>, es: Seq<ErrView>)
    requires
        lenient_is(segs, iv, es),
    ensures
        iv is None ==> es.len() > 0,
        es.len() == 0 ==> iv is Some,
{
    match frame_fault(segs) {
        Some(f) => {},
        None => {
            let inner = inner_of(segs);
            let fe = frame_errs(segs[0], segs.last());
            if uses_groups(inner) {
                match grouped_from(inner, 0, group_start()) {
                    GroupState::Fatal { errs: ge, fatal } => { assert((fe + ge + seq![fatal]).len() > 0); },
                    _ => {},
                }
            } else {
                match flat_result(inner, Seq::empty()) {
                    FlatState::Fatal { errs: me, fatal } => { assert((fe + me + seq![fatal]).len() > 0); },
                    _ => {},
                }
            }
        },
    }
}

fn first_error(errs: Vec<EdifactError>) -> (e: EdifactError)
    requires
        errs@.len() > 0,
    ensures
        err_view(e) == errs_view(errs@)[0],
{
    let mut errs = errs;
    errs.swap_remove(0)
}

fn strict_of(segments: &[Segment]) -> (r: Result<ValidatedInterchange, EdifactError>)
    ensures
        strict_is(segments@, r),
{
    let (iv, errs) = validate_collecting(segments);
    proof { law_unreadable_envelope_is_reported(segments@, iv, errs_view(errs@)); }
    let ghost es = errs_view(errs@);
    match iv {
        Some(v) => {
            if errs.len() == 0 {
                proof { assert(es =~= Seq::<ErrView>::empty()); }
                Ok(v)
            } else {
                let e = first_error(errs);
                proof { assert(lenient_is(segments@, Some(v), es)); }
                Err(e)
            }
        },
        None => {
            let e = first_error(errs);
            proof { assert(lenient_is(segments@, None::<ValidatedInterchange>, es)); }
            Err(e)
        },
    }
}

/// Validates the interchange envelope and stops at the first violation.
pub fn validate_envelope(segments: &[Segment]) -> (r: Result<ValidatedInterchange, EdifactError>)
    ensures
        strict_is(segments@, r),
{
    strict_of(segments)
}

/// Validates the envelope of owned segments and stops at the first violation.
pub fn validate_envelope_from_owned(segments: &[OwnedSegment]) -> (r: Result<ValidatedInterchange, EdifactError>)
    ensures
        strict_is(segments@, r),
{
    strict_of(segments)
}

/// Validates the interchange envelope and collects every violation.
pub fn validate_envelope_lenient(segments: &[Segment]) -> (r: LenientResult)
    ensures
        lenient_is(segments@, r.interchange, errs_view(r.errors@)),
{
    let (interchange, errors) = validate_collecting(segments);
    LenientResult { interchange, errors }
}

/// Validates the envelope of owned segments and collects every violation.
pub fn validate_envelope_lenient_from_owned(segments: &[OwnedSegment]) -> (r: LenientResult)
    ensures
        lenient_is(segments@, r.interchange, errs_view(r.errors@)),
{
    validate_envelope_lenient(segments)
}

impl LenientResult {
    /// No violation was found.
    pub fn is_valid(&self) -> (r: bool)
        ensures
            r == (self.errors@.len() == 0),
    {
        self.errors.len() == 0
    }

    /// At least one violation was found.
    pub fn has_errors(&self) -> (r: bool)
        ensures
            r == (self.errors@.len() > 0),
    {
        self.errors.len() > 0
    }

    /// The envelope when it was read without violation; the violations otherwise.
    pub fn into_strict(self) -> (r: Result<ValidatedInterchange, Vec<EdifactError>>)
        ensures
            match self.interchange {
                Some(v) => if self.errors@.len() == 0 { r == Ok::<ValidatedInterchange, Vec<EdifactError>>(v) }
                    else { r == Err::<ValidatedInterchange, Vec<EdifactError>>(self.errors) },
                None => r == Err::<ValidatedInterchange, Vec<EdifactError>>(self.errors),
            },
    {
        match self.interchange {
            Some(v) => if self.errors.len() == 0 { Ok(v) } else { Err(self.errors) },
            None => Err(self.errors),
        }
    }
}

// ── accessors ─────────────────────────────────────────────────────────────

impl InterchangeEnvelope {
    /// The interchange is marked as a test (UNB DE 0035 is `1`).
    pub fn is_test(&self) -> (r: bool)
        ensures
            r == self.test_indicator,
    {
        self.test_indicator
    }

    /// The sender asks for an acknowledgement (UNB DE 0031 is `1`).
    pub fn ack_requested(&self) -> (r: bool)
        ensures
            r == self.acknowledgement_request,
    {
        self.acknowledgement_request
    }

    /// `sender -> recipient [control reference] (syntax identifier:version)`.
    pub fn to_string(&self) -> (r: String)
        ensures
            r@ == interchange_text(*self),
    {
        let mut out = self.sender_id.clone();
        string_push_str(&mut out, " -> ");
        string_push_str(&mut out, self.recipient_id.as_str());
        string_push_str(&mut out, " [");
        string_push_str(&mut out, self.control_ref.as_str());
        string_push_str(&mut out, "] (");
        string_push_str(&mut out, self.syntax_identifier.as_str());
        string_push_str(&mut out, ":");
        string_push_str(&mut out, self.syntax_version.as_str());
        string_push_str(&mut out, ")");
        out
    }
}

/// The one-line description of an interchange envelope.
pub open spec fn interchange_text(e: InterchangeEnvelope) -> Seq<char> {
    e.sender_id@ + " -> "@ + e.recipient_id@ + " ["@ + e.control_ref@ + "] ("@
        + e.syntax_identifier@ + ":"@ + e.syntax_version@ + ")"@
}

/// The one-line description of a message envelope.
pub open spec fn message_text(m: MessageEnvelope) -> Seq<char> {
    m.message_type@ + ":"@ + m.version@ + ":"@ + m.release@ + " ref="@ + m.message_ref@
        + " seg="@ + decimal(m.actual_segment_count as nat) + "/"@ + decimal(m.declared_segment_count as nat)
}

/// The one-line description of a functional group envelope.
pub open spec fn group_text(g: FunctionalGroupEnvelope) -> Seq<char> {
    g.group_id@ + " sender="@ + g.app_sender@ + " recipient="@ + g.app_recipient@ + " ["@ + g.group_ref@
        + "] ("@ + g.controlling_agency@ + ") msgs="@ + decimal(g.actual_message_count as nat) + "/"@
        + decimal(g.declared_message_count as nat)
}

impl MessageEnvelope {
    /// `type:version:release ref=reference seg=actual/declared`.
    pub fn to_string(&self) -> (r: String)
        ensures
            r@ == message_text(*self),
    {
        let mut out = self.message_type.clone();
        string_push_str(&mut out, ":");
        string_push_str(&mut out, self.version.as_str());
        string_push_str(&mut out, ":");
        string_push_str(&mut out, self.release.as_str());
        string_push_str(&mut out, " ref=");
        string_push_str(&mut out, self.message_ref.as_str());
        string_push_str(&mut out, " seg=");
        let actual = decimal_string(self.actual_segment_count as u128);
        string_push_str(&mut out, actual.as_str());
        string_push_str(&mut out, "/");
        let declared = decimal_string(self.declared_segment_count as u128);
        string_push_str(&mut out, declared.as_str());
        out
    }
}

impl FunctionalGroupEnvelope {
    /// `id sender=s recipient=r [reference] (agency) msgs=actual/declared`.
    pub fn to_string(&self) -> (r: String)
        ensures
            r@ == group_text(*self),
    {
        let mut out = self.group_id.clone();
        string_push_str(&mut out, " sender=");
        string_push_str(&mut out, self.app_sender.as_str());
        string_push_str(&mut out, " recipient=");
        string_push_str(&mut out, self.app_recipient.as_str());
        string_push_str(&mut out, " [");
        string_push_str(&mut out, self.group_ref.as_str());
        string_push_str(&mut out, "] (");
        string_push_str(&mut out, self.controlling_agency.as_str());
        string_push_str(&mut out, ") msgs=");
        let actual = decimal_string(self.actual_message_count as u128);
        string_push_str(&mut out, actual.as_str());
        string_push_str(&mut out, "/");
        let declared = decimal_string(self.declared_message_count as u128);
        string_push_str(&mut out, declared.as_str());
        out
    }
}

/// The messages of `ms` whose type is `t`, in order.
pub open spec fn of_type(ms: Seq<MessageEnvelope>, t: Seq<char>) -> Seq<MessageEnvelope>
    decreases ms.len(),
{
    if ms.len() == 0 {
        Seq::empty()
    } else if ms.last().message_type@ == t {
        of_type(ms.drop_last(), t).push(ms.last())
    } else {
        of_type(ms.drop_last(), t)
    }
}

impl ValidatedInterchange {
    /// The interchange uses functional groups.
    pub fn has_functional_groups(&self) -> (r: bool)
        ensures
            r == (self.functional_groups@.len() > 0),
    {
        self.functional_groups.len() > 0
    }

    /// The number of messages.
    pub fn message_count(&self) -> (r: usize)
        ensures
            r == self.messages@.len(),
    {
        self.messages.len()
    }

    /// Every message, in document order.
    pub fn iter_messages(&self) -> (r: Vec<&MessageEnvelope>)
        ensures
            r@.len() == self.messages@.len(),
            forall|i: int| 0 <= i < r@.len() ==> *(#[trigger] r@[i]) == self.messages@[i],
    {
        let mut out: Vec<&MessageEnvelope> = Vec::new();
        let mut i: usize = 0;
        while i < self.messages.len()
            invariant
                i <= self.messages@.len(),
                out@.len() == i,
                forall|k: int| 0 <= k < i ==> *(#[trigger] out@[k]) == self.messages@[k],
            decreases self.messages@.len() - i,
        {
            out.push(&self.messages[i]);
            i = i + 1;
        }
        out
    }

    /// The first message whose reference is `reference`.
    pub fn find_message(&self, reference: &str) -> (r: Option<&MessageEnvelope>)
        ensures
            match r {
                Some(m) => exists|i: int| 0 <= i < self.messages@.len() && *m == self.messages@[i]
                    && m.message_ref@ == reference@
                    && forall|k: int| 0 <= k < i ==> (#[trigger] self.messages@[k]).message_ref@ != reference@,
                None => forall|k: int| 0 <= k < self.messages@.len() ==> (#[trigger] self.messages@[k]).message_ref@ != reference@,
            },
    {
        let mut i: usize = 0;
        while i < self.messages.len()
            invariant
                i <= self.messages@.len(),
                forall|k: int| 0 <= k < i ==> (#[trigger] self.messages@[k]).message_ref@ != reference@,
            decreases self.messages@.len() - i,
        {
            if str_eq(self.messages[i].message_ref.as_str(), reference) {
                return Some(&self.messages[i]);
            }
            i = i + 1;
        }
        None
    }

    /// The messages of type `message_type`, in document order.
    pub fn messages_by_type(&self, message_type: &str) -> (r: Vec<&MessageEnvelope>)
        ensures
            r@.len() == of_type(self.messages@, message_type@).len(),
            forall|i: int| 0 <= i < r@.len() ==> *(#[trigger] r@[i]) == of_type(self.messages@, message_type@)[i],
    {
        let mut out: Vec<&MessageEnvelope> = Vec::new();
        let mut i: usize = 0;
        while i < self.messages.len()
            invariant
                i <= self.messages@.len(),
                out@.len() == of_type(self.messages@.take(i as int), message_type@).len(),
                forall|k: int| 0 <= k < out@.len() ==>
                    *(#[trigger] out@[k]) == of_type(self.messages@.take(i as int), message_type@)[k],
            decreases self.messages@.len() - i,
        {
            proof { assert(self.messages@.take(i + 1).drop_last() =~= self.messages@.take(i as int)); }
            if str_eq(self.messages[i].message_type.as_str(), message_type) {
                out.push(&self.messages[i]);
            }
            i = i + 1;
        }
        proof { assert(self.messages@.take(self.messages@.len() as int) =~= self.messages@); }
        out
    }

    /// The messages of type `message_type`, in document order.
    pub fn iter_messages_by_type(&self, message_type: &str) -> (r: Vec<&MessageEnvelope>)
        ensures
            r@.len() == of_type(self.messages@, message_type@).len(),
            forall|i: int| 0 <= i < r@.len() ==> *(#[trigger] r@[i]) == of_type(self.messages@, message_type@)[i],
    {
        self.messages_by_type(message_type)
    }

    /// `interchange description messages=count`.
    pub fn to_string(&self) -> (r: String)
        ensures
            r@ == interchange_text(self.interchange) + " messages="@ + decimal(self.messages@.len() as nat),
    {
        let mut out = self.interchange.to_string();
        string_push_str(&mut out, " messages=");
        let n = decimal_string(self.messages.len() as u128);
        string_push_str(&mut out, n.as_str());
        out
    }
}

// ── identification without validation ───────────────────────────────────────

/// What `parse_unh` answers for a segment: the fields of its identification,
/// or the first field that is missing.
pub open spec fn unh_identified(unh: Segment, r: Result<MessageIdentifier, EdifactError>) -> bool {
    if non_empty(seg_component(unh, 0, 0)) is None {
        r matches Err(EdifactError::MissingRequiredComponent { tag, element_index, component_index })
            && tag@ == "UNH"@ && element_index == 0 && component_index == 0
    } else if unh.elements@.len() <= 1 {
        r matches Err(EdifactError::MissingRequiredElement { tag, element_index })
            && tag@ == "UNH"@ && element_index == 1
    } else if seg_component(unh, 1, 0) is None {
        r matches Err(EdifactError::MissingRequiredComponent { tag, element_index, component_index })
            && tag@ == "UNH"@ && element_index == 1 && component_index == 0
    } else {
        r matches Ok(id)
            && Some(id.message_ref@) == seg_component(unh, 0, 0)
            && Some(id.message_type@) == seg_component(unh, 1, 0)
            && id.version@ == opt_text(unh, 1, 1)
            && id.release@ == opt_text(unh, 1, 2)
            && id.controlling_agency@ == opt_text(unh, 1, 3)
            && id.association_code@ == opt_text(unh, 1, 4)
    }
}

fn component_or_blank<'a>(s: &'a Segment, e: usize, c: usize) -> (r: &'a str)
    ensures
        r@ == opt_text(*s, e as int, c as int),
{
    match s.component_str(e, c) {
        Some(t) => t,
        None => {
            proof { reveal_strlit(""); }
            ""
        },
    }
}

/// Reads the message identification of a UNH segment, borrowing its text.
pub fn parse_unh<'a>(unh: &'a Segment) -> (r: Result<MessageIdentifier<'a>, EdifactError>)
    ensures
        unh_identified(*unh, r),
{
    let message_ref = match unh.optional_component(0, 0) {
        Some(t) => t,
        None => {
            return Err(EdifactError::MissingRequiredComponent { tag: own("UNH"), element_index: 0, component_index: 0 });
        },
    };
    if unh.elements.len() <= 1 {
        return Err(EdifactError::MissingRequiredElement { tag: own("UNH"), element_index: 1 });
    }
    let message_type = match unh.component_str(1, 0) {
        Some(t) => t,
        None => {
            return Err(EdifactError::MissingRequiredComponent { tag: own("UNH"), element_index: 1, component_index: 0 });
        },
    };
    Ok(MessageIdentifier {
        message_ref,
        message_type,
        version: component_or_blank(unh, 1, 1),
        release: component_or_blank(unh, 1, 2),
        controlling_agency: component_or_blank(unh, 1, 3),
        association_code: component_or_blank(unh, 1, 4),
    })
}

/// What `parse_ung` answers for a segment: the fields of its identification,
/// or the missing group reference.
pub open spec fn ung_identified(ung: Segment, r: Result<GroupIdentifier, EdifactError>) -> bool {
    match seg_component(ung, 4, 0) {
        None => r matches Err(EdifactError::MissingRequiredComponent { tag, element_index, component_index })
            && tag@ == "UNG"@ && element_index == 4 && component_index == 0,
        Some(group_ref) => r matches Ok(id)
            && id.group_ref@ == group_ref
            && id.group_id@ == opt_text(ung, 0, 0)
            && id.app_sender@ == opt_text(ung, 1, 0)
            && id.app_sender_qualifier@ == opt_text(ung, 1, 1)
            && id.app_recipient@ == opt_text(ung, 2, 0)
            && id.app_recipient_qualifier@ == opt_text(ung, 2, 1)
            && id.controlling_agency@ == opt_text(ung, 5, 0)
            && id.version@ == opt_text(ung, 6, 0)
            && id.release@ == opt_text(ung, 6, 1),
    }
}

/// Reads the group identification of a UNG segment, borrowing its text.
pub fn parse_ung<'a>(ung: &'a Segment) -> (r: Result<GroupIdentifier<'a>, EdifactError>)
    ensures
        ung_identified(*ung, r),
{
    let group_ref = match ung.component_str(4, 0) {
        Some(t) => t,
        None => {
            return Err(EdifactError::MissingRequiredComponent { tag: own("UNG"), element_index: 4, component_index: 0 });
        },
    };
    Ok(GroupIdentifier {
        group_id: component_or_blank(ung, 0, 0),
        app_sender: component_or_blank(ung, 1, 0),
        app_sender_qualifier: component_or_blank(ung, 1, 1),
        app_recipient: component_or_blank(ung, 2, 0),
        app_recipient_qualifier: component_or_blank(ung, 2, 1),
        group_ref,
        controlling_agency: component_or_blank(ung, 5, 0),
        version: component_or_blank(ung, 6, 0),
        release: component_or_blank(ung, 6, 1),
    })
}


/// Two lists of messages agree on what their segment count checks read.
pub open spec fn counts_alike(a: Seq<MessageEnvelope>, b: Seq<MessageEnvelope>) -> bool {
    &&& a.len() == b.len()
    &&& forall|k: int| 0 <= k < a.len() ==> {
        &&& (#[trigger] a[k]).declared_segment_count == b[k].declared_segment_count
        &&& a[k].actual_segment_count == b[k].actual_segment_count
        &&& a[k].message_ref@ == b[k].message_ref@
    }
}

proof fn lemma_count_errs_alike(a: Seq<MessageEnvelope>, b: Seq<MessageEnvelope>, spans: Seq<Span>)
    requires
        counts_alike(a, b),
    ensures
        count_errs(a, spans) == count_errs(b, spans),
    decreases a.len(),
{
    if a.len() > 0 {
        assert(counts_alike(a.drop_last(), b.drop_last())) by {
            assert forall|k: int| 0 <= k < a.len() - 1 implies {
                &&& (#[trigger] a.drop_last()[k]).declared_segment_count == b.drop_last()[k].declared_segment_count
                &&& a.drop_last()[k].actual_segment_count == b.drop_last()[k].actual_segment_count
                &&& a.drop_last()[k].message_ref@ == b.drop_last()[k].message_ref@
            } by {
                assert(a.drop_last()[k] == a[k]);
                assert(b.drop_last()[k] == b[k]);
            }
        }
        lemma_count_errs_alike(a.drop_last(), b.drop_last(), spans.drop_last());
        assert(a.last() == a[a.len() - 1]);
    }
}

proof fn lemma_counts_alike_concat(a1: Seq<MessageEnvelope>, b1: Seq<MessageEnvelope>, a2: Seq<MessageEnvelope>, b2: Seq<MessageEnvelope>)
    requires
        counts_alike(a1, b1),
        counts_alike(a2, b2),
    ensures
        counts_alike(a1 + a2, b1 + b2),
{
    assert forall|k: int| 0 <= k < (a1 + a2).len() implies {
        &&& (#[trigger] (a1 + a2)[k]).declared_segment_count == (b1 + b2)[k].declared_segment_count
        &&& (a1 + a2)[k].actual_segment_count == (b1 + b2)[k].actual_segment_count
        &&& (a1 + a2)[k].message_ref@ == (b1 + b2)[k].message_ref@
    } by {
        if k < a1.len() {
            assert(a1[k] == (a1 + a2)[k]);
        } else {
            assert(a2[k - a1.len()] == (a1 + a2)[k]);
        }
    }
}

proof fn lemma_group_messages_alike(g1: Seq<FunctionalGroupEnvelope>, g2: Seq<FunctionalGroupEnvelope>, inner: Seq<Segment>,
    groups: Seq<(int, int, Seq<(int, int)>)>)
    requires
        g1.len() == groups.len(),
        g2.len() == groups.len(),
        forall|k: int| 0 <= k < groups.len() ==> group_is(#[trigger] g1[k], inner, groups[k].0, groups[k].1, groups[k].2),
        forall|k: int| 0 <= k < groups.len() ==> group_is(#[trigger] g2[k], inner, groups[k].0, groups[k].1, groups[k].2),
    ensures
        counts_alike(group_messages(g1), group_messages(g2)),
    decreases g1.len(),
{
    if g1.len() > 0 {
        let n = g1.len() - 1;
        lemma_group_messages_alike(g1.drop_last(), g2.drop_last(), inner, groups.drop_last());
        let a = g1[n];
        let b = g2[n];
        assert(group_is(a, inner, groups[n].0, groups[n].1, groups[n].2));
        assert(group_is(b, inner, groups[n].0, groups[n].1, groups[n].2));
        assert(counts_alike(a.messages@, b.messages@)) by {
            let sub = inner.subrange(groups[n].0 + 1, groups[n].1);
            assert forall|k: int| 0 <= k < a.messages@.len() implies {
                &&& (#[trigger] a.messages@[k]).declared_segment_count == b.messages@[k].declared_segment_count
                &&& a.messages@[k].actual_segment_count == b.messages@[k].actual_segment_count
                &&& a.messages@[k].message_ref@ == b.messages@[k].message_ref@
            } by {
                assert(message_is(a.messages@[k], sub, groups[n].2[k].0, groups[n].2[k].1));
                assert(message_is(b.messages@[k], sub, groups[n].2[k].0, groups[n].2[k].1));
            }
        }
        assert(g1.last() == a);
        assert(g2.last() == b);
        lemma_counts_alike_concat(group_messages(g1.drop_last()), group_messages(g2.drop_last()), a.messages@, b.messages@);
    }
}

/// Lenient validation has one answer's worth of violations per input: two
/// lenient answers for the same segments report the same violations, in
/// the same order.
pub proof fn law_lenient_errors_determined(segs: Seq<Segment>, iv1: Option<ValidatedInterchange>, e1: Seq<ErrView>,
    iv2: Option<ValidatedInterchange>, e2: Seq<ErrView>)
    requires
        lenient_is(segs, iv1, e1),
        lenient_is(segs, iv2, e2),
    ensures
        e1 == e2,
        (iv1 is Some) == (iv2 is Some),
{
    match frame_fault(segs) {
        Some(f) => {},
        None => {
            let inner = inner_of(segs);
            if uses_groups(inner) {
                match grouped_from(inner, 0, group_start()) {
                    GroupState::Fatal { .. } => {},
                    GroupState::Run { errs: ge, groups, .. } => {
                        let v1 = iv1->Some_0;
                        let v2 = iv2->Some_0;
                        lemma_group_messages_alike(v1.functional_groups@, v2.functional_groups@, inner, groups);
                        lemma_count_errs_alike(v1.messages@, v2.messages@, group_unt_spans(inner, groups));
                    },
                }
            } else {
                match flat_result(inner, Seq::empty()) {
                    FlatState::Fatal { .. } => {},
                    FlatState::Run { errs: me, pairs, .. } => {
                        let v1 = iv1->Some_0;
                        let v2 = iv2->Some_0;
                        assert(counts_alike(v1.messages@, v2.messages@)) by {
                            assert forall|k: int| 0 <= k < v1.messages@.len() implies {
                                &&& (#[trigger] v1.messages@[k]).declared_segment_count == v2.messages@[k].declared_segment_count
                                &&& v1.messages@[k].actual_segment_count == v2.messages@[k].actual_segment_count
                                &&& v1.messages@[k].message_ref@ == v2.messages@[k].message_ref@
                            } by {
                                assert(message_is(v1.messages@[k], inner, pairs[k].0, pairs[k].1));
                                assert(message_is(v2.messages@[k], inner, pairs[k].0, pairs[k].1));
                            }
                        }
                        lemma_count_errs_alike(v1.messages@, v2.messages@, pairs.map_values(|p: (int, int)| inner[p.1].span));
                    },
                }
            }
        },
    }
}

/// Strict validation answers with the first violation lenient validation
/// collects, and succeeds exactly where lenient validation finds none.
pub proof fn law_strict_reports_first_lenient(segs: Seq<Segment>, r: Result<ValidatedInterchange, EdifactError>,
    iv: Option<ValidatedInterchange>, es: Seq<ErrView>)
    requires
        strict_is(segs, r),
        lenient_is(segs, iv, es),
    ensures
        match r {
            Ok(_) => es.len() == 0 && iv is Some,
            Err(e) => es.len() > 0 && es[0] == err_view(e),
        },
{
    match r {
        Ok(v) => {
            law_lenient_errors_determined(segs, Some(v), Seq::empty(), iv, es);
        },
        Err(e) => {
            let (iv2, es2) = choose|iv2: Option<ValidatedInterchange>, es2: Seq<ErrView>|
                #[trigger] lenient_is(segs, iv2, es2) && es2.len() > 0 && es2[0] == err_view(e);
            law_lenient_errors_determined(segs, iv2, es2, iv, es);
        },
    }
}


/// The references of the groups, in order: each group's UNG reference.
pub open spec fn group_refs(segs: Seq<Segment>, groups: Seq<(int, int, Seq<(int, int)>)>) -> Seq<Seq<char>> {
    groups.map_values(|g: (int, int, Seq<(int, int)>)| req_text(segs[g.0], 4, 0))
}

/// No two entries are equal.
pub open spec fn all_distinct(s: Seq<Seq<char>>) -> bool {
    forall|i: int, j: int| 0 <= i < j < s.len() ==> #[trigger] s[i] != #[trigger] s[j]
}

/// Reading groups keeps the references seen as those of the groups read, and
/// a run that ends without a violation read no group whose reference was
/// already seen.
proof fn lemma_grouped_refs(segs: Seq<Segment>, i: int, errs: Seq<ErrView>, seen_groups: Seq<Seq<char>>,
    seen_messages: Seq<Seq<char>>, groups: Seq<(int, int, Seq<(int, int)>)>)
    requires
        seen_groups == group_refs(segs, groups),
    ensures
        grouped_from(segs, i, GroupState::Run { errs, seen_groups, seen_messages, groups })
            matches GroupState::Run { errs: e2, seen_groups: sg2, seen_messages: _, groups: g2 } ==> {
            &&& sg2 == group_refs(segs, g2)
            &&& e2.len() >= errs.len()
            &&& (e2.len() == 0 && all_distinct(seen_groups) ==> all_distinct(sg2))
        },
    decreases segs.len() - i,
{
    if 0 <= i < segs.len() && segs[i].tag@ == "UNG"@ {
        match matching_une(segs, i + 1) {
            Err(_) => {},
            Ok(e) => {
                let ung = segs[i];
                let une = segs[e];
                let head = group_head_errs(ung, une, seen_groups);
                let errs1 = errs + head;
                match flat_result(segs.subrange(i + 1, e), seen_messages) {
                    FlatState::Fatal { .. } => {},
                    FlatState::Run { errs: fe, seen: sm, open: _, pairs } => {
                        lemma_matching_une(segs, i + 1);
                        let r = req_text(ung, 4, 0);
                        let ng = groups.push((i, e, pairs));
                        let ns = seen_groups.push(r);
                        assert(ns =~= group_refs(segs, ng));
                        lemma_grouped_refs(segs, e + 1, errs1 + fe + group_tail_errs(une, pairs.len() as int), ns, sm, ng);
                        if seen_groups.contains(r) {
                            let d = seq![ErrView::Duplicate { tag: "UNG"@, reference: r, span: ung.span }];
                            assert(head.len() >= 1) by {
                                assert(head == req_err(ung, 4, 0) + d + req_err(une, 0, 0) + count_err(une, 0, 0) + req_err(une, 1, 0)
                                    + (if req_text(une, 1, 0) != r {
                                        seq![ErrView::Mismatch { tag: "UNE"@, actual: req_text(une, 1, 0), expected: r, span: une.span }]
                                    } else {
                                        Seq::empty()
                                    }));
                            }
                        } else if all_distinct(seen_groups) {
                            assert forall|a: int, b: int| 0 <= a < b < ns.len() implies #[trigger] ns[a] != #[trigger] ns[b] by {
                                if b == ns.len() - 1 {
                                    assert(ns[a] == seen_groups[a]);
                                    if ns[a] == r {
                                        assert(seen_groups.contains(r));
                                    }
                                } else {
                                    assert(ns[a] == seen_groups[a] && ns[b] == seen_groups[b]);
                                }
                            }
                        }
                    },
                }
            },
        }
    }
}

/// In an interchange that validates, no two functional groups share a
/// reference: a repeated UNG reference is a violation.
pub proof fn law_group_references_distinct(segs: Seq<Segment>, v: ValidatedInterchange)
    requires
        strict_is(segs, Ok(v)),
    ensures
        forall|a: int, b: int| 0 <= a < b < v.functional_groups@.len() ==>
            (#[trigger] v.functional_groups@[a]).group_ref@ != (#[trigger] v.functional_groups@[b]).group_ref@,
{
    assert(lenient_is(segs, Some(v), Seq::empty()));
    match frame_fault(segs) {
        Some(_) => {},
        None => {
            let inner = inner_of(segs);
            if uses_groups(inner) {
                assert(Seq::<Seq<char>>::empty() =~= group_refs(inner, Seq::empty()));
                lemma_grouped_refs(inner, 0, Seq::empty(), Seq::empty(), Seq::empty(), Seq::empty());
                match grouped_from(inner, 0, group_start()) {
                    GroupState::Fatal { .. } => {},
                    GroupState::Run { errs: ge, seen_groups: sg, groups, .. } => {
                        let fe = frame_errs(segs[0], segs.last());
                        assert(ge.len() == 0);
                        assert forall|a: int, b: int| 0 <= a < b < v.functional_groups@.len() implies
                            (#[trigger] v.functional_groups@[a]).group_ref@ != (#[trigger] v.functional_groups@[b]).group_ref@ by {
                            assert(group_is(v.functional_groups@[a], inner, groups[a].0, groups[a].1, groups[a].2));
                            assert(group_is(v.functional_groups@[b], inner, groups[b].0, groups[b].1, groups[b].2));
                            assert(sg[a] != sg[b]);
                        }
                    },
                }
            }
        },
    }
}

} // verus!
