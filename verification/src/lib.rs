//! EDIFACT (ISO 9735) parsing, writing and validation: segments and their
//! service characters, interchange envelopes, CONTRL acknowledgements,
//! character repertoires, segment groups and directory layouts.

pub mod charset;
pub mod contrl;
pub mod de;
pub mod directory_validator;
pub mod envelope;
pub mod error;
pub mod event;
pub mod group;
pub mod model;
pub mod parser;
pub mod report;
pub mod ser;
pub mod stream;
pub mod syntax;
pub mod text;
pub mod typed;
pub mod writer;

pub use charset::{decode_interchange, decode_step, sniff_charset, Charset};
pub use contrl::{Action, Contrl, ReportingLevel, SyntaxError};
pub use de::{
    find_qualified_segment, find_segment, find_segments, message_windows, message_windows_from_stream,
    qualifier_matches_pattern, windows_of_segments, MessageWindow, MessageWindows,
};
pub use directory_validator::{
    audit_directory, base_code_list_rules, effective_component_count, ComponentRef, DefaultHooks, DirectoryHooks,
    DirectoryValidator, DirectoryValidatorBuilder, ElementPath, TableHooks, ElementRef, LayoutAudit,
    LayoutFinding, LayoutSlot, OwnedComponentRef, OwnedElementRef, OwnedSegmentDef, Repr, ReprKind,
    SegmentDefinition, SegmentLayout, Status,
};
pub use envelope::{
    parse_ung, parse_unh, validate_envelope, validate_envelope_from_owned, validate_envelope_lenient,
    validate_envelope_lenient_from_owned, FunctionalGroupEnvelope, GroupIdentifier, InterchangeEnvelope,
    LenientResult, MessageEnvelope, MessageIdentifier, ValidatedInterchange,
};
pub use error::{EdifactError, Insignificant, IoError};
pub use event::{events_to_bytes, EdifactEvent, EventEmitter, VecEmitter, WriterEmitter};
pub use group::{group_segments_indexed, Descendants, GroupDef, SegmentGroupIndexed};
pub use model::{Components, Element, OwnedElement, OwnedSegment, Segment, Span};
pub use parser::{
    from_bufread_stream, from_bufread_stream_with_config, from_bytes, from_bytes_decoded, from_bytes_decoded_with_config,
    from_bytes_with_config, FromBytesIter,
    OwnedSegmentStream, ReaderConfig,
};
pub use report::{ValidationIssue, ValidationReport, ValidationSeverity};
pub use typed::{
    composite_element, contiguous_groups, contiguous_runs, deserialize, deserialize_each, deserialize_messages,
    deserialize_str, find_segments_matching, find_segments_typed, matches_tag_and_pattern, qualifier_str,
    CompositeElement, EdifactCompositeDeserialize, EdifactDeserialize, EdifactSegmentTag,
};
pub use ser::{emit_sparse_segment, to_bytes, to_edifact_string, EdifactCompositeSerialize, EdifactSerialize};
pub use stream::{ChunkedReader, ReadStep};
pub use syntax::ServiceStringAdvice;
pub use writer::{segments_to_bytes, Writer};
