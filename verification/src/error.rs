//! The crate's error type, [`EdifactError`], with a stable code and a
//! recovery hint for each variant.

use vstd::prelude::*;

use crate::model::Span;
use crate::report::ValidationReport;
use crate::text::{decimal, decimal_string, digit_char, own, string_push, string_push_str};

verus! {

/// `std::io::Error`, carried opaquely inside [`IoError`].
#[verifier::external_type_specification]
#[verifier::external_body]
pub struct ExStdIoError(std::io::Error);

/// An I/O error raised while reading or writing EDIFACT data.
#[derive(Debug)]
pub struct IoError(pub std::io::Error);

impl PartialEq for IoError {
    /// Two I/O errors are equal when they are of the same kind
    /// (`std::io::Error::kind`).
    #[verifier::external_body]
    fn eq(&self, other: &Self) -> bool {
        self.0.kind() == other.0.kind()
    }
}

impl IoError {
    /// The wrapped I/O error.
    pub fn inner(&self) -> (r: &std::io::Error)
        ensures
            *r == self.0,
    {
        &self.0
    }
}

/// The two kinds of insignificant characters ISO 9735-1 requires to be suppressed.
#[derive(Debug, Clone, Copy, PartialEq, Eq, Structural, Hash)]
#[non_exhaustive]
pub enum Insignificant {
    /// A variable-length numeric value carries leading zeroes.
    LeadingZeroes,
    /// A variable-length text value carries trailing spaces.
    TrailingSpaces,
}

impl Insignificant {
    /// The human-readable description of this kind.
    pub fn describe(self) -> (r: &'static str)
        ensures
            r@ == (match self {
                Insignificant::LeadingZeroes => "leading zeroes are not suppressed"@,
                Insignificant::TrailingSpaces => "trailing spaces are not suppressed"@,
            }),
    {
        match self {
            Insignificant::LeadingZeroes => "leading zeroes are not suppressed",
            Insignificant::TrailingSpaces => "trailing spaces are not suppressed",
        }
    }
}

/// Everything that can go wrong while reading, writing or validating EDIFACT.
#[derive(Debug, PartialEq)]
#[non_exhaustive]
#[allow(inconsistent_fields)]
pub enum EdifactError {
    /// The input ended inside a segment.
    UnexpectedEof { offset: usize },
    /// A byte that cannot serve as a delimiter.
    InvalidDelimiter { byte: u8, offset: usize },
    /// Text that is not valid in its encoding.
    InvalidText { offset: usize },
    /// A release character with nothing after it.
    InvalidReleaseSequence { offset: usize },
    /// UNZ declares another number of messages or groups than were found.
    MessageCountMismatch { expected: u32, actual: u32 },
    /// UNT declares another number of segments than were found.
    SegmentCountMismatch { expected: u32, actual: u32, message_ref: String, span: Span },
    /// A segment tag that is not three ASCII letters or digits.
    InvalidSegmentTag(String),
    /// A malformed UNA service string advice.
    InvalidUna,
    /// A mandatory data element is absent or empty.
    MissingRequiredElement { tag: String, element_index: usize },
    /// A mandatory component is absent or empty.
    MissingRequiredComponent { tag: String, element_index: usize, component_index: usize },
    /// Serialized output is not valid UTF-8.
    InvalidUtf8,
    /// An I/O failure.
    Io(IoError),
    /// A segment that the message type does not allow.
    InvalidSegmentForMessage { tag: String, message_type: String, span: Span },
    /// A segment with too few or too many data elements.
    InvalidElementCount { tag: String, min: usize, max: usize, actual: usize, span: Span },
    /// A composite with the wrong number of components.
    InvalidComponentCount { tag: String, element_index: usize, expected: u8, actual: u8, span: Span },
    /// A value outside its code list.
    InvalidCodeValue {
        tag: String,
        element_index: usize,
        value: String,
        code_list: String,
        span: Span,
        suggestion: Option<&'static str>,
    },
    /// A required segment is missing.
    MissingSegment { tag: String, expected_position: String },
    /// A segment qualifier differs from the expected one.
    QualifierMismatch { tag: String, actual: String, expected: String, span: Span },
    /// A conditional requirement is not met.
    ConditionalRequirementNotMet { tag: String, element_index: usize, condition: String, span: Span },
    /// Validation found errors; the report holds them.
    ValidationErrors { error_count: usize, report: Box<ValidationReport> },
    /// A segment longer than the configured limit.
    SegmentTooLong { offset: usize, limit: usize },
    /// A count that does not fit the interchange's counters.
    InterchangeTooLarge { count: u64 },
    /// Writer events in an order that does not form segments.
    InvalidEventSequence { message: &'static str },
    /// An element definition with position 0.
    InvalidElementPosition,
    /// Two rule packs with incompatible release scopes.
    IncompatibleReleaseScopes { current: String, incoming: String },
    /// A field value outside its format or range.
    InvalidFieldValue { tag: String, element_index: usize, value: String },
    /// Data before any segment tag.
    UnexpectedDataToken { offset: usize },
    /// A syntax identifier that ISO 9735 does not define.
    UnrecognisedSyntaxIdentifier(String),
    /// A control reference used twice in one interchange.
    DuplicateReference { tag: String, reference: String, span: Span },
    /// A data element code the segment definition does not have.
    UnknownDataElement { tag: String, data_element: String },
    /// A data element code the segment definition has at several positions.
    AmbiguousDataElement { tag: String, data_element: String },
    /// A configured reader limit was exceeded.
    LimitExceeded { limit: &'static str, max: u64 },
    /// A repetition was written although no repetition separator is declared.
    RepetitionSeparatorNotDeclared,
    /// A number with no EDIFACT representation.
    NonFiniteNumber { value: String },
    /// A character outside the declared repertoire.
    CharacterNotInRepertoire { charset: &'static str, character: char, offset: usize },
    /// UNB declares another repertoire than the writer encodes.
    CharacterRepertoireMismatch { declared: String, writer: &'static str },
    /// A repertoire this crate does not decode.
    UnsupportedCharset { syntax_identifier: String },
    /// An interchange without messages or groups.
    EmptyInterchange { control_ref: String },
    /// A message without segments between UNH and UNT.
    EmptyMessage { message_ref: String, span: Span },
    /// A package segment (UNO/UNP).
    PackageNotSupported { tag: String, span: Span },
    /// A value made only of spaces.
    BlankDataElementValue { tag: String, element_index: usize, component_index: usize, span: Span },
    /// A segment with no data element.
    SegmentWithoutDataElements { tag: String, span: Span },
    /// A data element repeated more often than allowed.
    TooManyRepetitions { tag: String, element_index: usize, max: u8, actual: usize, span: Span },
    /// A value of the wrong character class.
    InvalidCharacterType {
        tag: String,
        element_index: usize,
        component_index: usize,
        repr: String,
        value: String,
        span: Span,
    },
    /// A value longer than its representation allows.
    DataElementTooLong {
        tag: String,
        element_index: usize,
        component_index: usize,
        repr: String,
        actual: usize,
        span: Span,
    },
    /// A value shorter than its representation requires.
    DataElementTooShort {
        tag: String,
        element_index: usize,
        component_index: usize,
        repr: String,
        actual: usize,
        span: Span,
    },
    /// A segment ending in a separator that carries no value.
    TrailingSeparator { tag: String, element_index: Option<usize>, span: Span },
    /// An interchange mixing groups with ungrouped messages.
    GroupsAndMessagesMixed { span: Span },
    /// Insignificant characters that should have been suppressed.
    InsignificantCharacters {
        tag: String,
        element_index: usize,
        component_index: usize,
        kind: Insignificant,
        span: Span,
    },
    /// A segment layout applied to a segment with another tag.
    SegmentLayoutMismatch { expected: String, actual: String },
}

/// The stable code of each error variant.
pub open spec fn stable_code_of(e: &EdifactError) -> Seq<char> {
    match e {
        EdifactError::UnexpectedEof { .. } => "E001"@,
        EdifactError::InvalidDelimiter { .. } => "E002"@,
        EdifactError::InvalidText { .. } => "E003"@,
        EdifactError::MessageCountMismatch { .. } => "E004"@,
        EdifactError::SegmentCountMismatch { .. } => "E005"@,
        EdifactError::InvalidSegmentTag(_) => "E006"@,
        EdifactError::InvalidUna => "E007"@,
        EdifactError::MissingRequiredElement { .. } => "E008"@,
        EdifactError::InvalidUtf8 => "E009"@,
        EdifactError::Io(_) => "E010"@,
        EdifactError::InvalidSegmentForMessage { .. } => "E011"@,
        EdifactError::InvalidElementCount { .. } => "E012"@,
        EdifactError::InvalidComponentCount { .. } => "E013"@,
        EdifactError::InvalidCodeValue { .. } => "E014"@,
        EdifactError::MissingSegment { .. } => "E015"@,
        EdifactError::QualifierMismatch { .. } => "E016"@,
        EdifactError::ConditionalRequirementNotMet { .. } => "E017"@,
        EdifactError::InvalidReleaseSequence { .. } => "E019"@,
        EdifactError::SegmentTooLong { .. } => "E020"@,
        EdifactError::MissingRequiredComponent { .. } => "E021"@,
        EdifactError::InterchangeTooLarge { .. } => "E023"@,
        EdifactError::InvalidEventSequence { .. } => "E024"@,
        EdifactError::InvalidElementPosition => "E025"@,
        EdifactError::IncompatibleReleaseScopes { .. } => "E026"@,
        EdifactError::InvalidFieldValue { .. } => "E027"@,
        EdifactError::UnexpectedDataToken { .. } => "E028"@,
        EdifactError::ValidationErrors { .. } => "E030"@,
        EdifactError::UnrecognisedSyntaxIdentifier(_) => "E031"@,
        EdifactError::DuplicateReference { .. } => "E032"@,
        EdifactError::UnknownDataElement { .. } => "E033"@,
        EdifactError::AmbiguousDataElement { .. } => "E034"@,
        EdifactError::SegmentLayoutMismatch { .. } => "E035"@,
        EdifactError::LimitExceeded { .. } => "E036"@,
        EdifactError::RepetitionSeparatorNotDeclared => "E037"@,
        EdifactError::CharacterNotInRepertoire { .. } => "E038"@,
        EdifactError::UnsupportedCharset { .. } => "E039"@,
        EdifactError::NonFiniteNumber { .. } => "E040"@,
        EdifactError::CharacterRepertoireMismatch { .. } => "E041"@,
        EdifactError::EmptyInterchange { .. } => "E042"@,
        EdifactError::EmptyMessage { .. } => "E043"@,
        EdifactError::PackageNotSupported { .. } => "E044"@,
        EdifactError::BlankDataElementValue { .. } => "E045"@,
        EdifactError::SegmentWithoutDataElements { .. } => "E046"@,
        EdifactError::TooManyRepetitions { .. } => "E047"@,
        EdifactError::InvalidCharacterType { .. } => "E048"@,
        EdifactError::DataElementTooLong { .. } => "E049"@,
        EdifactError::DataElementTooShort { .. } => "E050"@,
        EdifactError::TrailingSeparator { .. } => "E051"@,
        EdifactError::GroupsAndMessagesMixed { .. } => "E052"@,
        EdifactError::InsignificantCharacters { .. } => "E053"@,
    }
}

/// The number of each variant's stable code.
pub open spec fn code_number(e: &EdifactError) -> nat {
    match e {
        EdifactError::UnexpectedEof { .. } => 1,
        EdifactError::InvalidDelimiter { .. } => 2,
        EdifactError::InvalidText { .. } => 3,
        EdifactError::MessageCountMismatch { .. } => 4,
        EdifactError::SegmentCountMismatch { .. } => 5,
        EdifactError::InvalidSegmentTag(_) => 6,
        EdifactError::InvalidUna => 7,
        EdifactError::MissingRequiredElement { .. } => 8,
        EdifactError::InvalidUtf8 => 9,
        EdifactError::Io(_) => 10,
        EdifactError::InvalidSegmentForMessage { .. } => 11,
        EdifactError::InvalidElementCount { .. } => 12,
        EdifactError::InvalidComponentCount { .. } => 13,
        EdifactError::InvalidCodeValue { .. } => 14,
        EdifactError::MissingSegment { .. } => 15,
        EdifactError::QualifierMismatch { .. } => 16,
        EdifactError::ConditionalRequirementNotMet { .. } => 17,
        EdifactError::InvalidReleaseSequence { .. } => 19,
        EdifactError::SegmentTooLong { .. } => 20,
        EdifactError::MissingRequiredComponent { .. } => 21,
        EdifactError::InterchangeTooLarge { .. } => 23,
        EdifactError::InvalidEventSequence { .. } => 24,
        EdifactError::InvalidElementPosition => 25,
        EdifactError::IncompatibleReleaseScopes { .. } => 26,
        EdifactError::InvalidFieldValue { .. } => 27,
        EdifactError::UnexpectedDataToken { .. } => 28,
        EdifactError::ValidationErrors { .. } => 30,
        EdifactError::UnrecognisedSyntaxIdentifier(_) => 31,
        EdifactError::DuplicateReference { .. } => 32,
        EdifactError::UnknownDataElement { .. } => 33,
        EdifactError::AmbiguousDataElement { .. } => 34,
        EdifactError::SegmentLayoutMismatch { .. } => 35,
        EdifactError::LimitExceeded { .. } => 36,
        EdifactError::RepetitionSeparatorNotDeclared => 37,
        EdifactError::CharacterNotInRepertoire { .. } => 38,
        EdifactError::UnsupportedCharset { .. } => 39,
        EdifactError::NonFiniteNumber { .. } => 40,
        EdifactError::CharacterRepertoireMismatch { .. } => 41,
        EdifactError::EmptyInterchange { .. } => 42,
        EdifactError::EmptyMessage { .. } => 43,
        EdifactError::PackageNotSupported { .. } => 44,
        EdifactError::BlankDataElementValue { .. } => 45,
        EdifactError::SegmentWithoutDataElements { .. } => 46,
        EdifactError::TooManyRepetitions { .. } => 47,
        EdifactError::InvalidCharacterType { .. } => 48,
        EdifactError::DataElementTooLong { .. } => 49,
        EdifactError::DataElementTooShort { .. } => 50,
        EdifactError::TrailingSeparator { .. } => 51,
        EdifactError::GroupsAndMessagesMixed { .. } => 52,
        EdifactError::InsignificantCharacters { .. } => 53,
    }
}

/// Whether `a` and `b` are the same kind of error (the same variant), whatever they carry.
pub open spec fn same_variant(a: &EdifactError, b: &EdifactError) -> bool {
    ||| (a is UnexpectedEof && b is UnexpectedEof)
    ||| (a is InvalidDelimiter && b is InvalidDelimiter)
    ||| (a is InvalidText && b is InvalidText)
    ||| (a is MessageCountMismatch && b is MessageCountMismatch)
    ||| (a is SegmentCountMismatch && b is SegmentCountMismatch)
    ||| (a is InvalidSegmentTag && b is InvalidSegmentTag)
    ||| (a is InvalidUna && b is InvalidUna)
    ||| (a is MissingRequiredElement && b is MissingRequiredElement)
    ||| (a is InvalidUtf8 && b is InvalidUtf8)
    ||| (a is Io && b is Io)
    ||| (a is InvalidSegmentForMessage && b is InvalidSegmentForMessage)
    ||| (a is InvalidElementCount && b is InvalidElementCount)
    ||| (a is InvalidComponentCount && b is InvalidComponentCount)
    ||| (a is InvalidCodeValue && b is InvalidCodeValue)
    ||| (a is MissingSegment && b is MissingSegment)
    ||| (a is QualifierMismatch && b is QualifierMismatch)
    ||| (a is ConditionalRequirementNotMet && b is ConditionalRequirementNotMet)
    ||| (a is InvalidReleaseSequence && b is InvalidReleaseSequence)
    ||| (a is SegmentTooLong && b is SegmentTooLong)
    ||| (a is MissingRequiredComponent && b is MissingRequiredComponent)
    ||| (a is InterchangeTooLarge && b is InterchangeTooLarge)
    ||| (a is InvalidEventSequence && b is InvalidEventSequence)
    ||| (a is InvalidElementPosition && b is InvalidElementPosition)
    ||| (a is IncompatibleReleaseScopes && b is IncompatibleReleaseScopes)
    ||| (a is InvalidFieldValue && b is InvalidFieldValue)
    ||| (a is UnexpectedDataToken && b is UnexpectedDataToken)
    ||| (a is ValidationErrors && b is ValidationErrors)
    ||| (a is UnrecognisedSyntaxIdentifier && b is UnrecognisedSyntaxIdentifier)
    ||| (a is DuplicateReference && b is DuplicateReference)
    ||| (a is UnknownDataElement && b is UnknownDataElement)
    ||| (a is AmbiguousDataElement && b is AmbiguousDataElement)
    ||| (a is SegmentLayoutMismatch && b is SegmentLayoutMismatch)
    ||| (a is LimitExceeded && b is LimitExceeded)
    ||| (a is RepetitionSeparatorNotDeclared && b is RepetitionSeparatorNotDeclared)
    ||| (a is CharacterNotInRepertoire && b is CharacterNotInRepertoire)
    ||| (a is UnsupportedCharset && b is UnsupportedCharset)
    ||| (a is NonFiniteNumber && b is NonFiniteNumber)
    ||| (a is CharacterRepertoireMismatch && b is CharacterRepertoireMismatch)
    ||| (a is EmptyInterchange && b is EmptyInterchange)
    ||| (a is EmptyMessage && b is EmptyMessage)
    ||| (a is PackageNotSupported && b is PackageNotSupported)
    ||| (a is BlankDataElementValue && b is BlankDataElementValue)
    ||| (a is SegmentWithoutDataElements && b is SegmentWithoutDataElements)
    ||| (a is TooManyRepetitions && b is TooManyRepetitions)
    ||| (a is InvalidCharacterType && b is InvalidCharacterType)
    ||| (a is DataElementTooLong && b is DataElementTooLong)
    ||| (a is DataElementTooShort && b is DataElementTooShort)
    ||| (a is TrailingSeparator && b is TrailingSeparator)
    ||| (a is GroupsAndMessagesMixed && b is GroupsAndMessagesMixed)
    ||| (a is InsignificantCharacters && b is InsignificantCharacters)
}

/// Different kinds of error never share a stable code: the code names the
/// kind of error, whatever the error carries.
pub proof fn law_distinct_kinds_distinct_codes(a: &EdifactError, b: &EdifactError)
    ensures
        !same_variant(a, b) ==> stable_code_of(a) != stable_code_of(b),
        same_variant(a, b) ==> stable_code_of(a) == stable_code_of(b),
{
    lemma_code_text(a);
    lemma_code_text(b);
    law_stable_codes(a, b);
    lemma_code_number_kind(a, b);
}

proof fn lemma_code_number_kind(a: &EdifactError, b: &EdifactError)
    ensures
        same_variant(a, b) <==> code_number(a) == code_number(b),
{
}

/// The code text of number `n`: `E` and three decimal digits.
pub open spec fn code_text(n: nat) -> Seq<char> {
    seq!['E', digit_char(n / 100), digit_char((n / 10) % 10), digit_char(n % 10)]
}

proof fn lemma_code_text(e: &EdifactError)
    ensures
        stable_code_of(e) == code_text(code_number(e)),
{
    reveal_strlit("E001");
    reveal_strlit("E002");
    reveal_strlit("E003");
    reveal_strlit("E004");
    reveal_strlit("E005");
    reveal_strlit("E006");
    reveal_strlit("E007");
    reveal_strlit("E008");
    reveal_strlit("E009");
    reveal_strlit("E010");
    reveal_strlit("E011");
    reveal_strlit("E012");
    reveal_strlit("E013");
    reveal_strlit("E014");
    reveal_strlit("E015");
    reveal_strlit("E016");
    reveal_strlit("E017");
    reveal_strlit("E019");
    reveal_strlit("E020");
    reveal_strlit("E021");
    reveal_strlit("E023");
    reveal_strlit("E024");
    reveal_strlit("E025");
    reveal_strlit("E026");
    reveal_strlit("E027");
    reveal_strlit("E028");
    reveal_strlit("E030");
    reveal_strlit("E031");
    reveal_strlit("E032");
    reveal_strlit("E033");
    reveal_strlit("E034");
    reveal_strlit("E035");
    reveal_strlit("E036");
    reveal_strlit("E037");
    reveal_strlit("E038");
    reveal_strlit("E039");
    reveal_strlit("E040");
    reveal_strlit("E041");
    reveal_strlit("E042");
    reveal_strlit("E043");
    reveal_strlit("E044");
    reveal_strlit("E045");
    reveal_strlit("E046");
    reveal_strlit("E047");
    reveal_strlit("E048");
    reveal_strlit("E049");
    reveal_strlit("E050");
    reveal_strlit("E051");
    reveal_strlit("E052");
    reveal_strlit("E053");
    assert(stable_code_of(e) =~= code_text(code_number(e)));
}

/// Every stable code is `E` and three decimal digits, no variant carries a
/// retired number (18, 22 or 29), and variants with different numbers have
/// different codes.
pub proof fn law_stable_codes(a: &EdifactError, b: &EdifactError)
    ensures
        stable_code_of(a).len() == 4,
        stable_code_of(a)[0] == 'E',
        forall|i: int| 1 <= i < 4 ==> '0' <= #[trigger] stable_code_of(a)[i] <= '9',
        1 <= code_number(a) <= 53,
        code_number(a) != 18 && code_number(a) != 22 && code_number(a) != 29,
        code_number(a) != code_number(b) ==> stable_code_of(a) != stable_code_of(b),
{
    lemma_code_text(a);
    lemma_code_text(b);
    let x = code_number(a);
    let y = code_number(b);
    if x != y {
        if stable_code_of(a) == stable_code_of(b) {
            assert(code_text(x)[1] == code_text(y)[1]);
            assert(code_text(x)[2] == code_text(y)[2]);
            assert(code_text(x)[3] == code_text(y)[3]);
            assert(x == (x / 100) * 100 + ((x / 10) % 10) * 10 + x % 10) by (nonlinear_arith);
            assert(y == (y / 100) * 100 + ((y / 10) % 10) * 10 + y % 10) by (nonlinear_arith);
        }
    }
}


/// The recovery hint of each error variant, where it has one.
pub open spec fn recovery_hint_of(e: &EdifactError) -> Option<Seq<char>> {
    match e {
        EdifactError::UnexpectedEof { .. } => Some("Ensure every segment ends with the configured segment terminator"@),
        EdifactError::InvalidDelimiter { .. } => Some("Check UNA service string advice and delimiter bytes in the payload"@),
        EdifactError::InvalidText { .. } => Some("Input must be valid UTF-8 text for segment and element values"@),
        EdifactError::InvalidReleaseSequence { .. } => Some("Release character must escape one following byte; trailing '?' is invalid"@),
        EdifactError::InvalidSegmentTag(_) => Some("Segment tags must be 3 ASCII uppercase letters"@),
        EdifactError::InvalidUna => Some("UNA must be exactly 9 bytes: 'UNA' followed by 6 service characters, of which the active five must be distinct and non-whitespace"@),
        EdifactError::MissingRequiredElement { .. } => Some("Provide all mandatory elements for the segment per directory rules"@),
        EdifactError::MissingRequiredComponent { .. } => Some("Provide all mandatory components for the composite element per directory rules"@),
        EdifactError::InvalidSegmentForMessage { .. } => Some("Remove unsupported segment or switch to the correct message type"@),
        EdifactError::InvalidElementCount { .. } => Some("Adjust the segment element count to the allowed min/max range"@),
        EdifactError::InvalidComponentCount { .. } => Some("Fix composite element arity to match the expected component count"@),
        EdifactError::InvalidCodeValue { .. } => Some("Use a value from the referenced code list for this element"@),
        EdifactError::MissingSegment { .. } => Some("Insert the required segment at the expected position"@),
        EdifactError::QualifierMismatch { .. } => Some("Set the segment qualifier to the expected value"@),
        EdifactError::ConditionalRequirementNotMet { .. } => Some("When the condition is met, include the conditionally required element"@),
        EdifactError::SegmentTooLong { .. } => Some("Increase max_segment_bytes in ReaderConfig or reject the input as malformed"@),
        EdifactError::InvalidEventSequence { .. } => Some("Emit StartSegment before Element, and Element before ComponentElement"@),
        EdifactError::InvalidElementPosition => Some("Set element position to a value >= 1; positions are one-based (1 = first element slot)"@),
        EdifactError::IncompatibleReleaseScopes { .. } => Some("Only compose ProfileRulePack values that share the same release scope, or where at most one has a release scope set"@),
        EdifactError::InvalidFieldValue { .. } => Some("Correct the field value to match the expected format or range for this element"@),
        EdifactError::UnexpectedDataToken { .. } => Some("A data element appeared before any segment tag; check for partial writes or encoding corruption"@),
        EdifactError::DuplicateReference { .. } => Some("Assign a unique control reference to every UNH (DE 0062) and UNG (DE 0048) within an interchange"@),
        EdifactError::UnknownDataElement { .. } => Some("Check the data element identifier against the segment definition; the directory is the source of truth"@),
        EdifactError::AmbiguousDataElement { .. } => Some("The code appears at more than one position; address the element positionally instead"@),
        EdifactError::SegmentLayoutMismatch { .. } => Some("Resolve codes against the segment definition whose tag matches the segment"@),
        EdifactError::LimitExceeded { .. } => Some("Raise the corresponding ReaderConfig limit, or reject the input as oversized"@),
        EdifactError::RepetitionSeparatorNotDeclared => Some("Build the writer with Writer::with_una and a ServiceStringAdvice whose repetition_sep is set"@),
        EdifactError::CharacterNotInRepertoire { .. } => Some("Transliterate the value into the declared repertoire, or declare a wider one in UNB S001 (UNOC for Latin-1, UNOY for UTF-8)"@),
        EdifactError::UnsupportedCharset { .. } => Some("UNOX and KECA are not supported; ask the partner for UNOC or UNOY, or transcode the interchange before parsing"@),
        EdifactError::NonFiniteNumber { .. } => Some("EDIFACT has no representation for NaN or infinity; check the calculation, or omit the element"@),
        EdifactError::CharacterRepertoireMismatch { .. } => Some("Pass the writer's own syntax identifier to begin_interchange, or bind the writer to the repertoire the header declares"@),
        EdifactError::EmptyInterchange { .. } => Some("An interchange must carry at least one message or group; send nothing rather than an empty envelope"@),
        EdifactError::EmptyMessage { .. } => Some("A message needs at least one segment between UNH and UNT; omit the message entirely if it has no content"@),
        EdifactError::PackageNotSupported { .. } => Some("Split the object out of the byte stream using the length in UNO S022 DE 0810, then parse the remaining segments"@),
        EdifactError::BlankDataElementValue { .. } => Some("Omit the data element instead of sending spaces; trailing spaces are insignificant and must be suppressed"@),
        EdifactError::SegmentWithoutDataElements { .. } => Some("Supply the segment's data, or omit the segment entirely if it is conditional"@),
        EdifactError::TooManyRepetitions { .. } => Some("Reduce the occurrences to the definition's maximum, or correct the definition if the directory allows more"@),
        EdifactError::InvalidCharacterType { .. } => Some("Send a value of the declared class: `n` admits digits, an optional minus, a decimal mark and an exponent — never a space or a plus sign"@),
        EdifactError::DataElementTooLong { .. } => Some("Shorten the value to the declared maximum; length is counted in characters, and a numeric value excludes its sign, decimal mark and exponent"@),
        EdifactError::DataElementTooShort { .. } => Some("Pad the value to the declared fixed length, or correct the definition if the directory declares it variable"@),
        EdifactError::TrailingSeparator { .. } => Some("Stop emitting separators once the last value has been written; ISO 9735-1 §8.7.1 and §8.7.2 require trailing ones to be omitted"@),
        EdifactError::GroupsAndMessagesMixed { .. } => Some("Put every message inside a group, or none of them; ISO 9735-1 §7.1 does not allow both in one interchange"@),
        EdifactError::InsignificantCharacters { .. } => Some("Suppress the insignificant characters before sending: leading zeroes in a variable-length numeric value, trailing spaces in a variable-length text one"@),
        EdifactError::UnrecognisedSyntaxIdentifier(_) => Some("UNB S001 DE 0001 must name a defined repertoire: UNOA-UNOK, UNOX, UNOY, or KECA"@),
        _ => None,
    }
}

impl EdifactError {
    /// The stable, never-reused code of this error (`"E001"` and onward).
    pub fn stable_code(&self) -> (r: &'static str)
        ensures
            r@ == stable_code_of(self),
    {
        match self {
            EdifactError::UnexpectedEof { .. } => "E001",
            EdifactError::InvalidDelimiter { .. } => "E002",
            EdifactError::InvalidText { .. } => "E003",
            EdifactError::MessageCountMismatch { .. } => "E004",
            EdifactError::SegmentCountMismatch { .. } => "E005",
            EdifactError::InvalidSegmentTag(_) => "E006",
            EdifactError::InvalidUna => "E007",
            EdifactError::MissingRequiredElement { .. } => "E008",
            EdifactError::InvalidUtf8 => "E009",
            EdifactError::Io(_) => "E010",
            EdifactError::InvalidSegmentForMessage { .. } => "E011",
            EdifactError::InvalidElementCount { .. } => "E012",
            EdifactError::InvalidComponentCount { .. } => "E013",
            EdifactError::InvalidCodeValue { .. } => "E014",
            EdifactError::MissingSegment { .. } => "E015",
            EdifactError::QualifierMismatch { .. } => "E016",
            EdifactError::ConditionalRequirementNotMet { .. } => "E017",
            EdifactError::InvalidReleaseSequence { .. } => "E019",
            EdifactError::SegmentTooLong { .. } => "E020",
            EdifactError::MissingRequiredComponent { .. } => "E021",
            EdifactError::InterchangeTooLarge { .. } => "E023",
            EdifactError::InvalidEventSequence { .. } => "E024",
            EdifactError::InvalidElementPosition => "E025",
            EdifactError::IncompatibleReleaseScopes { .. } => "E026",
            EdifactError::InvalidFieldValue { .. } => "E027",
            EdifactError::UnexpectedDataToken { .. } => "E028",
            EdifactError::ValidationErrors { .. } => "E030",
            EdifactError::UnrecognisedSyntaxIdentifier(_) => "E031",
            EdifactError::DuplicateReference { .. } => "E032",
            EdifactError::UnknownDataElement { .. } => "E033",
            EdifactError::AmbiguousDataElement { .. } => "E034",
            EdifactError::SegmentLayoutMismatch { .. } => "E035",
            EdifactError::LimitExceeded { .. } => "E036",
            EdifactError::RepetitionSeparatorNotDeclared => "E037",
            EdifactError::CharacterNotInRepertoire { .. } => "E038",
            EdifactError::UnsupportedCharset { .. } => "E039",
            EdifactError::NonFiniteNumber { .. } => "E040",
            EdifactError::CharacterRepertoireMismatch { .. } => "E041",
            EdifactError::EmptyInterchange { .. } => "E042",
            EdifactError::EmptyMessage { .. } => "E043",
            EdifactError::PackageNotSupported { .. } => "E044",
            EdifactError::BlankDataElementValue { .. } => "E045",
            EdifactError::SegmentWithoutDataElements { .. } => "E046",
            EdifactError::TooManyRepetitions { .. } => "E047",
            EdifactError::InvalidCharacterType { .. } => "E048",
            EdifactError::DataElementTooLong { .. } => "E049",
            EdifactError::DataElementTooShort { .. } => "E050",
            EdifactError::TrailingSeparator { .. } => "E051",
            EdifactError::GroupsAndMessagesMixed { .. } => "E052",
            EdifactError::InsignificantCharacters { .. } => "E053",
        }
    }

    /// A short remediation hint for this error, where one is known.
    pub fn recovery_hint(&self) -> (r: Option<&'static str>)
        ensures
            match (r, recovery_hint_of(self)) {
                (Some(s), Some(h)) => s@ == h,
                (None, None) => true,
                _ => false,
            },
    {
        match self {
            EdifactError::UnexpectedEof { .. } => Some("Ensure every segment ends with the configured segment terminator"),
            EdifactError::InvalidDelimiter { .. } => Some("Check UNA service string advice and delimiter bytes in the payload"),
            EdifactError::InvalidText { .. } => Some("Input must be valid UTF-8 text for segment and element values"),
            EdifactError::InvalidReleaseSequence { .. } => Some("Release character must escape one following byte; trailing '?' is invalid"),
            EdifactError::InvalidSegmentTag(_) => Some("Segment tags must be 3 ASCII uppercase letters"),
            EdifactError::InvalidUna => Some("UNA must be exactly 9 bytes: 'UNA' followed by 6 service characters, of which the active five must be distinct and non-whitespace"),
            EdifactError::MissingRequiredElement { .. } => Some("Provide all mandatory elements for the segment per directory rules"),
            EdifactError::MissingRequiredComponent { .. } => Some("Provide all mandatory components for the composite element per directory rules"),
            EdifactError::InvalidSegmentForMessage { .. } => Some("Remove unsupported segment or switch to the correct message type"),
            EdifactError::InvalidElementCount { .. } => Some("Adjust the segment element count to the allowed min/max range"),
            EdifactError::InvalidComponentCount { .. } => Some("Fix composite element arity to match the expected component count"),
            EdifactError::InvalidCodeValue { .. } => Some("Use a value from the referenced code list for this element"),
            EdifactError::MissingSegment { .. } => Some("Insert the required segment at the expected position"),
            EdifactError::QualifierMismatch { .. } => Some("Set the segment qualifier to the expected value"),
            EdifactError::ConditionalRequirementNotMet { .. } => Some("When the condition is met, include the conditionally required element"),
            EdifactError::SegmentTooLong { .. } => Some("Increase max_segment_bytes in ReaderConfig or reject the input as malformed"),
            EdifactError::InvalidEventSequence { .. } => Some("Emit StartSegment before Element, and Element before ComponentElement"),
            EdifactError::InvalidElementPosition => Some("Set element position to a value >= 1; positions are one-based (1 = first element slot)"),
            EdifactError::IncompatibleReleaseScopes { .. } => Some("Only compose ProfileRulePack values that share the same release scope, or where at most one has a release scope set"),
            EdifactError::InvalidFieldValue { .. } => Some("Correct the field value to match the expected format or range for this element"),
            EdifactError::UnexpectedDataToken { .. } => Some("A data element appeared before any segment tag; check for partial writes or encoding corruption"),
            EdifactError::DuplicateReference { .. } => Some("Assign a unique control reference to every UNH (DE 0062) and UNG (DE 0048) within an interchange"),
            EdifactError::UnknownDataElement { .. } => Some("Check the data element identifier against the segment definition; the directory is the source of truth"),
            EdifactError::AmbiguousDataElement { .. } => Some("The code appears at more than one position; address the element positionally instead"),
            EdifactError::SegmentLayoutMismatch { .. } => Some("Resolve codes against the segment definition whose tag matches the segment"),
            EdifactError::LimitExceeded { .. } => Some("Raise the corresponding ReaderConfig limit, or reject the input as oversized"),
            EdifactError::RepetitionSeparatorNotDeclared => Some("Build the writer with Writer::with_una and a ServiceStringAdvice whose repetition_sep is set"),
            EdifactError::CharacterNotInRepertoire { .. } => Some("Transliterate the value into the declared repertoire, or declare a wider one in UNB S001 (UNOC for Latin-1, UNOY for UTF-8)"),
            EdifactError::UnsupportedCharset { .. } => Some("UNOX and KECA are not supported; ask the partner for UNOC or UNOY, or transcode the interchange before parsing"),
            EdifactError::NonFiniteNumber { .. } => Some("EDIFACT has no representation for NaN or infinity; check the calculation, or omit the element"),
            EdifactError::CharacterRepertoireMismatch { .. } => Some("Pass the writer's own syntax identifier to begin_interchange, or bind the writer to the repertoire the header declares"),
            EdifactError::EmptyInterchange { .. } => Some("An interchange must carry at least one message or group; send nothing rather than an empty envelope"),
            EdifactError::EmptyMessage { .. } => Some("A message needs at least one segment between UNH and UNT; omit the message entirely if it has no content"),
            EdifactError::PackageNotSupported { .. } => Some("Split the object out of the byte stream using the length in UNO S022 DE 0810, then parse the remaining segments"),
            EdifactError::BlankDataElementValue { .. } => Some("Omit the data element instead of sending spaces; trailing spaces are insignificant and must be suppressed"),
            EdifactError::SegmentWithoutDataElements { .. } => Some("Supply the segment's data, or omit the segment entirely if it is conditional"),
            EdifactError::TooManyRepetitions { .. } => Some("Reduce the occurrences to the definition's maximum, or correct the definition if the directory allows more"),
            EdifactError::InvalidCharacterType { .. } => Some("Send a value of the declared class: `n` admits digits, an optional minus, a decimal mark and an exponent — never a space or a plus sign"),
            EdifactError::DataElementTooLong { .. } => Some("Shorten the value to the declared maximum; length is counted in characters, and a numeric value excludes its sign, decimal mark and exponent"),
            EdifactError::DataElementTooShort { .. } => Some("Pad the value to the declared fixed length, or correct the definition if the directory declares it variable"),
            EdifactError::TrailingSeparator { .. } => Some("Stop emitting separators once the last value has been written; ISO 9735-1 §8.7.1 and §8.7.2 require trailing ones to be omitted"),
            EdifactError::GroupsAndMessagesMixed { .. } => Some("Put every message inside a group, or none of them; ISO 9735-1 §7.1 does not allow both in one interchange"),
            EdifactError::InsignificantCharacters { .. } => Some("Suppress the insignificant characters before sending: leading zeroes in a variable-length numeric value, trailing spaces in a variable-length text one"),
            EdifactError::UnrecognisedSyntaxIdentifier(_) => Some("UNB S001 DE 0001 must name a defined repertoire: UNOA-UNOK, UNOX, UNOY, or KECA"),
            EdifactError::ValidationErrors { .. } | EdifactError::MessageCountMismatch { .. } | EdifactError::SegmentCountMismatch { .. } | EdifactError::InterchangeTooLarge { .. } | EdifactError::InvalidUtf8 | EdifactError::Io(_) => None,
        }
    }
}

/// The text of an insignificant-character kind.
pub open spec fn insignificant_text(k: Insignificant) -> Seq<char> {
    match k {
        Insignificant::LeadingZeroes => "leading zeroes are not suppressed"@,
        Insignificant::TrailingSpaces => "trailing spaces are not suppressed"@,
    }
}

/// What `<str as Debug>` writes for a text: the text in double quotes with
/// its special characters escaped (which characters are escaped follows
/// Unicode tables, so the result is named rather than stated).
pub uninterp spec fn debug_str_text(s: Seq<char>) -> Seq<char>;

/// What `<char as Debug>` writes for a character: the character in single
/// quotes, escaped as `char::escape_debug` does.
pub uninterp spec fn debug_char_text(c: char) -> Seq<char>;

/// `format!("{:?}", s)` for a string slice: the result is [`debug_str_text`] of its text.
#[verifier::external_body]
fn debug_str(s: &str) -> (r: String)
    ensures
        r@ == debug_str_text(s@),
{
    format!("{:?}", s)
}

/// `format!("{:?}", c)` for a character: the result is [`debug_char_text`] of it.
#[verifier::external_body]
fn debug_char(c: char) -> (r: String)
    ensures
        r@ == debug_char_text(c),
{
    format!("{:?}", c)
}

/// `format!("{}", e)` for an I/O error.  Its text comes from the operating
/// system, so nothing is said of it.
#[verifier::external_body]
fn io_text(e: &IoError) -> (r: String)
{
    format!("{}", e.0)
}

/// An upper-case hexadecimal digit.
pub open spec fn hex_char(d: nat) -> char {
    if d < 10 { digit_char(d) } else { (55 + d) as char }
}

/// A byte as two upper-case hexadecimal digits.
pub open spec fn hex2(b: u8) -> Seq<char> {
    seq![hex_char((b / 16) as nat), hex_char((b % 16) as nat)]
}

fn hex_digit(d: u8) -> (c: char)
    requires
        d < 16,
    ensures
        c == hex_char(d as nat),
{
    if d < 10 { (48u8 + d) as char } else { (55u8 + d) as char }
}

fn hex2_string(b: u8) -> (s: String)
    ensures
        s@ == hex2(b),
{
    let mut s = String::new();
    string_push(&mut s, hex_digit(b / 16));
    string_push(&mut s, hex_digit(b % 16));
    assert(s@ =~= hex2(b));
    s
}

/// The help text of each error: what went wrong, with the values involved,
/// and what to do about it.  For an I/O error this is the prefix
/// `I/O error: ` of the text, which goes on with the system's message.
pub open spec fn help_text(e: EdifactError) -> Seq<char> {
    match e {
        EdifactError::InvalidUna => "UNA segment must be exactly 9 bytes: 'UNA' + 6 service characters. See EDIFACT spec"@,
        EdifactError::InvalidUtf8 => "Internal error: serialized output contains invalid UTF-8. Please report this as a bug"@,
        EdifactError::UnexpectedEof { offset } => "Check that all segments are terminated with the segment terminator (usually '). Reached end at offset "@ + decimal(offset as nat),
        EdifactError::InvalidDelimiter { byte, offset } => "The byte 0x"@ + hex2(byte) + " at offset "@ + decimal(offset as nat) + " is not a valid delimiter. Check UNA configuration"@,
        EdifactError::InvalidText { offset } => "The byte sequence at offset "@ + decimal(offset as nat) + " contains invalid UTF-8. Ensure input is valid UTF-8"@,
        EdifactError::InvalidReleaseSequence { offset } => "Release character at offset "@ + decimal(offset as nat) + " is dangling. Ensure '?' is followed by an escaped byte"@,
        EdifactError::MessageCountMismatch { actual, expected } => "UNZ declares "@ + decimal(expected as nat) + " message(s) but "@ + decimal(actual as nat) + " UNH/UNT pair(s) were found. Check the UNZ message count"@,
        EdifactError::SegmentCountMismatch { actual, expected, message_ref, .. } => "UNT for message "@ + message_ref@ + " declares "@ + decimal(expected as nat) + " segment(s) but "@ + decimal(actual as nat) + " were found. Check the UNT segment count"@,
        EdifactError::InvalidSegmentTag(tag) => "Segment tag '"@ + tag@ + "' must be exactly 3 ASCII uppercase letters"@,
        EdifactError::MissingRequiredElement { element_index, tag } => "Segment "@ + tag@ + " requires element at index "@ + decimal(element_index as nat),
        EdifactError::MissingRequiredComponent { component_index, element_index, tag } => "Segment "@ + tag@ + " element "@ + decimal(element_index as nat) + " requires component at index "@ + decimal(component_index as nat),
        EdifactError::Io(_) => "I/O error: "@,
        EdifactError::InvalidSegmentForMessage { message_type, tag, .. } => "Segment "@ + tag@ + " should not appear in a "@ + message_type@ + " message. Check the directory definition"@,
        EdifactError::InvalidElementCount { actual, max, min, tag, .. } => "Segment "@ + tag@ + " should have between "@ + decimal(min as nat) + " and "@ + decimal(max as nat) + " elements, but has "@ + decimal(actual as nat) + ". Check segment structure"@,
        EdifactError::InvalidComponentCount { actual, element_index, expected, tag, .. } => "In segment "@ + tag@ + ", element "@ + decimal(element_index as nat) + " should have "@ + decimal(expected as nat) + " components but has "@ + decimal(actual as nat) + ". Check element structure"@,
        EdifactError::InvalidCodeValue { code_list, element_index, tag, value, .. } => "Value '"@ + value@ + "' in segment "@ + tag@ + " element "@ + decimal(element_index as nat) + " is not in the "@ + code_list@ + " code list. Check the directory for valid codes"@,
        EdifactError::MissingSegment { expected_position, tag } => "Segment "@ + tag@ + " is required at position "@ + expected_position@ + " but is missing. Add this segment to the message"@,
        EdifactError::QualifierMismatch { actual, expected, tag, .. } => "Segment "@ + tag@ + " has qualifier '"@ + actual@ + "' but expected '"@ + expected@ + "'. Check the segment's first component"@,
        EdifactError::ConditionalRequirementNotMet { condition, element_index, tag, .. } => "In segment "@ + tag@ + ", element "@ + decimal(element_index as nat) + " is conditionally required when: "@ + condition@ + ". Check if the condition is met"@,
        EdifactError::SegmentTooLong { limit, offset } => "Segment starting at byte offset "@ + decimal(offset as nat) + " exceeds the "@ + decimal(limit as nat) + "-byte limit. Use ReaderConfig::max_segment_bytes to adjust the limit if needed, or verify the input for a missing segment terminator"@,
        EdifactError::InterchangeTooLarge { count } => "Interchange contains "@ + decimal(count as nat) + " items which exceeds the u32::MAX limit. This is an extremely unusual input; verify the message is not corrupted."@,
        EdifactError::InvalidEventSequence { message } => "Event sequence violation: "@ + message@ + ". Check that StartSegment is emitted before Element, and Element before ComponentElement."@,
        EdifactError::InvalidElementPosition => "Element positions must be >= 1 (one-based). Ensure no OwnedElementRef is constructed with position == 0"@,
        EdifactError::IncompatibleReleaseScopes { current, incoming } => "Release scope "@ + debug_str_text(current@) + " and "@ + debug_str_text(incoming@) + " are incompatible. Only compose ProfileRulePack values that share the same release scope, or where at most one carries a release scope"@,
        EdifactError::InvalidFieldValue { element_index, tag, value } => "Segment "@ + tag@ + " element "@ + decimal(element_index as nat) + " has invalid value '"@ + value@ + "'. Check the expected format or range for this field"@,
        EdifactError::UnexpectedDataToken { offset } => "Data element at offset "@ + decimal(offset as nat) + " appeared before any segment tag. Check for partial writes or encoding corruption"@,
        EdifactError::ValidationErrors { error_count, .. } => "Validation found "@ + decimal(error_count as nat) + " error(s). Inspect the ValidationReport for details"@,
        EdifactError::UnrecognisedSyntaxIdentifier(id) => "Syntax identifier '"@ + id@ + "' is not defined in ISO 9735-1. Valid values are UNOA through UNOK, UNOX, UNOY (or KECA for KEC-A profile)"@,
        EdifactError::DuplicateReference { reference, tag, .. } => "Reference '"@ + reference@ + "' is used by more than one "@ + tag@ + " in this interchange; each must be unique so receivers can address messages unambiguously"@,
        EdifactError::UnknownDataElement { data_element, tag } => "Segment "@ + tag@ + " does not define data element "@ + data_element@ + ". Check the identifier against the directory definition for "@ + tag@,
        EdifactError::AmbiguousDataElement { data_element, tag } => "Segment "@ + tag@ + " defines data element "@ + data_element@ + " at more than one position, so code-addressed access cannot pick one; use a positional accessor"@,
        EdifactError::SegmentLayoutMismatch { actual, expected } => "The supplied layout describes segment "@ + expected@ + " but was applied to "@ + actual@ + ". Look up the definition by the segment's own tag"@,
        EdifactError::RepetitionSeparatorNotDeclared => "UNA position 7 holds the space \"not used\" sentinel, so repeating data elements cannot be expressed. Use Writer::with_una with a repetition_sep"@,
        EdifactError::CharacterNotInRepertoire { character, charset, offset } => "The character "@ + debug_char_text(character) + " at offset "@ + decimal(offset as nat) + " has no representation in "@ + charset@ + ". Transliterate it, or declare a wider repertoire in UNB S001 DE 0001"@,
        EdifactError::UnsupportedCharset { syntax_identifier } => "'"@ + syntax_identifier@ + "' is stateful or multi-byte, so byte-level delimiter scanning would be unsound. Transcode the interchange to UNOC or UNOY before parsing"@,
        EdifactError::CharacterRepertoireMismatch { declared, writer } => "The UNB declares "@ + declared@ + " but the writer encodes "@ + writer@ + ". The receiver would decode the body with the wrong table"@,
        EdifactError::NonFiniteNumber { value } => "The value "@ + value@ + " is not finite. EDIFACT numeric data elements have no representation for NaN or infinity"@,
        EdifactError::LimitExceeded { limit, max } => "The input exceeds the configured "@ + limit@ + " limit of "@ + decimal(max as nat) + ". Raise it via ReaderConfig if the input is legitimate, or reject the input"@,
        EdifactError::EmptyInterchange { control_ref } => "Interchange "@ + control_ref@ + " carries no message and no group. ISO 9735-1 §7.1 requires at least one; send nothing rather than an empty envelope"@,
        EdifactError::EmptyMessage { message_ref, .. } => "Message "@ + message_ref@ + " has nothing between UNH and UNT. ISO 9735-1 §7.3 requires at least one additional segment"@,
        EdifactError::PackageNotSupported { tag, .. } => tag@ + " opens or closes a package, whose object is arbitrary binary data rather than EDIFACT. Split it out using the length in UNO S022 DE 0810, then parse the remaining segments"@,
        EdifactError::BlankDataElementValue { component_index, element_index, tag, .. } => "Segment "@ + tag@ + " element "@ + decimal(element_index as nat) + " component "@ + decimal(component_index as nat) + " holds only spaces. ISO 9735-1 §9.3 forbids that — omit the element instead"@,
        EdifactError::SegmentWithoutDataElements { tag, .. } => "Segment "@ + tag@ + " carries only its tag. ISO 9735-1 §7.5 requires at least one data element; §8.5 says a conditional segment with no data is omitted entirely"@,
        EdifactError::TooManyRepetitions { actual, element_index, max, tag, .. } => "Segment "@ + tag@ + " element "@ + decimal(element_index as nat) + " occurs "@ + decimal(actual as nat) + " times but its definition allows at most "@ + decimal(max as nat),
        EdifactError::InvalidCharacterType { repr, tag, value, .. } => "Segment "@ + tag@ + ": "@ + debug_str_text(value@) + " is not a valid "@ + repr@ + " value. ISO 9735-1 §10 admits digits, an optional minus sign, a decimal mark and an exponent — the space character and the plus sign are not allowed"@,
        EdifactError::DataElementTooLong { actual, repr, tag, .. } => "Segment "@ + tag@ + ": the value is "@ + decimal(actual as nat) + " characters, but the directory declares "@ + repr@ + ". Length is counted in characters rather than bytes"@,
        EdifactError::DataElementTooShort { actual, repr, tag, .. } => "Segment "@ + tag@ + ": the value is "@ + decimal(actual as nat) + " characters, but the directory declares the fixed length "@ + repr@,
        EdifactError::GroupsAndMessagesMixed { .. } => "ISO 9735-1 §7.1 lists what an interchange may contain, and the entries are exclusive: groups containing messages, or bare messages — never both, because a message outside every group cannot be counted in UNZ DE 0036"@,
        EdifactError::InsignificantCharacters { kind, tag, .. } => "Segment "@ + tag@ + ": "@ + insignificant_text(kind) + ". ISO 9735-1 §9.1 requires insignificant characters to be suppressed before transfer"@,
        EdifactError::TrailingSeparator { tag, element_index, .. } => match element_index {
            Some(index) => "Segment "@ + tag@ + " element "@ + decimal(index as nat) + " ends in a component separator with no value after it. ISO 9735-1 §8.7.2 requires trailing component separators to be omitted"@,
            None => "Segment "@ + tag@ + " ends in a data element separator with no value after it. ISO 9735-1 §8.7.1 requires trailing data element separators to be omitted"@,
        },
    }
}

impl EdifactError {
    /// The help text: what went wrong, with the values involved, and what to
    /// do about it.
    pub fn help(&self) -> (r: String)
        ensures
            match *self {
                EdifactError::Io(_) => help_text(*self).is_prefix_of(r@),
                _ => r@ == help_text(*self),
            },
    {
        match self {
            EdifactError::InvalidUna => own("UNA segment must be exactly 9 bytes: 'UNA' + 6 service characters. See EDIFACT spec"),
            EdifactError::InvalidUtf8 => own("Internal error: serialized output contains invalid UTF-8. Please report this as a bug"),
            EdifactError::UnexpectedEof { offset } => {
                let mut out = own("Check that all segments are terminated with the segment terminator (usually '). Reached end at offset ");
                let t = decimal_string(*offset as u128);
                string_push_str(&mut out, t.as_str());
                out
            },
            EdifactError::InvalidDelimiter { byte, offset } => {
                let mut out = own("The byte 0x");
                let t = hex2_string(*byte);
                string_push_str(&mut out, t.as_str());
                string_push_str(&mut out, " at offset ");
                let t = decimal_string(*offset as u128);
                string_push_str(&mut out, t.as_str());
                string_push_str(&mut out, " is not a valid delimiter. Check UNA configuration");
                out
            },
            EdifactError::InvalidText { offset } => {
                let mut out = own("The byte sequence at offset ");
                let t = decimal_string(*offset as u128);
                string_push_str(&mut out, t.as_str());
                string_push_str(&mut out, " contains invalid UTF-8. Ensure input is valid UTF-8");
                out
            },
            EdifactError::InvalidReleaseSequence { offset } => {
                let mut out = own("Release character at offset ");
                let t = decimal_string(*offset as u128);
                string_push_str(&mut out, t.as_str());
                string_push_str(&mut out, " is dangling. Ensure '?' is followed by an escaped byte");
                out
            },
            EdifactError::MessageCountMismatch { actual, expected } => {
                let mut out = own("UNZ declares ");
                let t = decimal_string(*expected as u128);
                string_push_str(&mut out, t.as_str());
                string_push_str(&mut out, " message(s) but ");
                let t = decimal_string(*actual as u128);
                string_push_str(&mut out, t.as_str());
                string_push_str(&mut out, " UNH/UNT pair(s) were found. Check the UNZ message count");
                out
            },
            EdifactError::SegmentCountMismatch { actual, expected, message_ref, .. } => {
                let mut out = own("UNT for message ");
                string_push_str(&mut out, message_ref.as_str());
                string_push_str(&mut out, " declares ");
                let t = decimal_string(*expected as u128);
                string_push_str(&mut out, t.as_str());
                string_push_str(&mut out, " segment(s) but ");
                let t = decimal_string(*actual as u128);
                string_push_str(&mut out, t.as_str());
                string_push_str(&mut out, " were found. Check the UNT segment count");
                out
            },
            EdifactError::InvalidSegmentTag(tag) => {
                let mut out = own("Segment tag '");
                string_push_str(&mut out, tag.as_str());
                string_push_str(&mut out, "' must be exactly 3 ASCII uppercase letters");
                out
            },
            EdifactError::MissingRequiredElement { element_index, tag } => {
                let mut out = own("Segment ");
                string_push_str(&mut out, tag.as_str());
                string_push_str(&mut out, " requires element at index ");
                let t = decimal_string(*element_index as u128);
                string_push_str(&mut out, t.as_str());
                out
            },
            EdifactError::MissingRequiredComponent { component_index, element_index, tag } => {
                let mut out = own("Segment ");
                string_push_str(&mut out, tag.as_str());
                string_push_str(&mut out, " element ");
                let t = decimal_string(*element_index as u128);
                string_push_str(&mut out, t.as_str());
                string_push_str(&mut out, " requires component at index ");
                let t = decimal_string(*component_index as u128);
                string_push_str(&mut out, t.as_str());
                out
            },
            EdifactError::Io(e) => {
                let mut out = own("I/O error: ");
                let t = io_text(e);
                string_push_str(&mut out, t.as_str());
                out
            },
            EdifactError::InvalidSegmentForMessage { message_type, tag, .. } => {
                let mut out = own("Segment ");
                string_push_str(&mut out, tag.as_str());
                string_push_str(&mut out, " should not appear in a ");
                string_push_str(&mut out, message_type.as_str());
                string_push_str(&mut out, " message. Check the directory definition");
                out
            },
            EdifactError::InvalidElementCount { actual, max, min, tag, .. } => {
                let mut out = own("Segment ");
                string_push_str(&mut out, tag.as_str());
                string_push_str(&mut out, " should have between ");
                let t = decimal_string(*min as u128);
                string_push_str(&mut out, t.as_str());
                string_push_str(&mut out, " and ");
                let t = decimal_string(*max as u128);
                string_push_str(&mut out, t.as_str());
                string_push_str(&mut out, " elements, but has ");
                let t = decimal_string(*actual as u128);
                string_push_str(&mut out, t.as_str());
                string_push_str(&mut out, ". Check segment structure");
                out
            },
            EdifactError::InvalidComponentCount { actual, element_index, expected, tag, .. } => {
                let mut out = own("In segment ");
                string_push_str(&mut out, tag.as_str());
                string_push_str(&mut out, ", element ");
                let t = decimal_string(*element_index as u128);
                string_push_str(&mut out, t.as_str());
                string_push_str(&mut out, " should have ");
                let t = decimal_string(*expected as u128);
                string_push_str(&mut out, t.as_str());
                string_push_str(&mut out, " components but has ");
                let t = decimal_string(*actual as u128);
                string_push_str(&mut out, t.as_str());
                string_push_str(&mut out, ". Check element structure");
                out
            },
            EdifactError::InvalidCodeValue { code_list, element_index, tag, value, .. } => {
                let mut out = own("Value '");
                string_push_str(&mut out, value.as_str());
                string_push_str(&mut out, "' in segment ");
                string_push_str(&mut out, tag.as_str());
                string_push_str(&mut out, " element ");
                let t = decimal_string(*element_index as u128);
                string_push_str(&mut out, t.as_str());
                string_push_str(&mut out, " is not in the ");
                string_push_str(&mut out, code_list.as_str());
                string_push_str(&mut out, " code list. Check the directory for valid codes");
                out
            },
            EdifactError::MissingSegment { expected_position, tag } => {
                let mut out = own("Segment ");
                string_push_str(&mut out, tag.as_str());
                string_push_str(&mut out, " is required at position ");
                string_push_str(&mut out, expected_position.as_str());
                string_push_str(&mut out, " but is missing. Add this segment to the message");
                out
            },
            EdifactError::QualifierMismatch { actual, expected, tag, .. } => {
                let mut out = own("Segment ");
                string_push_str(&mut out, tag.as_str());
                string_push_str(&mut out, " has qualifier '");
                string_push_str(&mut out, actual.as_str());
                string_push_str(&mut out, "' but expected '");
                string_push_str(&mut out, expected.as_str());
                string_push_str(&mut out, "'. Check the segment's first component");
                out
            },
            EdifactError::ConditionalRequirementNotMet { condition, element_index, tag, .. } => {
                let mut out = own("In segment ");
                string_push_str(&mut out, tag.as_str());
                string_push_str(&mut out, ", element ");
                let t = decimal_string(*element_index as u128);
                string_push_str(&mut out, t.as_str());
                string_push_str(&mut out, " is conditionally required when: ");
                string_push_str(&mut out, condition.as_str());
                string_push_str(&mut out, ". Check if the condition is met");
                out
            },
            EdifactError::SegmentTooLong { limit, offset } => {
                let mut out = own("Segment starting at byte offset ");
                let t = decimal_string(*offset as u128);
                string_push_str(&mut out, t.as_str());
                string_push_str(&mut out, " exceeds the ");
                let t = decimal_string(*limit as u128);
                string_push_str(&mut out, t.as_str());
                string_push_str(&mut out, "-byte limit. Use ReaderConfig::max_segment_bytes to adjust the limit if needed, or verify the input for a missing segment terminator");
                out
            },
            EdifactError::InterchangeTooLarge { count } => {
                let mut out = own("Interchange contains ");
                let t = decimal_string(*count as u128);
                string_push_str(&mut out, t.as_str());
                string_push_str(&mut out, " items which exceeds the u32::MAX limit. This is an extremely unusual input; verify the message is not corrupted.");
                out
            },
            EdifactError::InvalidEventSequence { message } => {
                let mut out = own("Event sequence violation: ");
                string_push_str(&mut out, *message);
                string_push_str(&mut out, ". Check that StartSegment is emitted before Element, and Element before ComponentElement.");
                out
            },
            EdifactError::InvalidElementPosition => own("Element positions must be >= 1 (one-based). Ensure no OwnedElementRef is constructed with position == 0"),
            EdifactError::IncompatibleReleaseScopes { current, incoming } => {
                let mut out = own("Release scope ");
                let t = debug_str(current.as_str());
                string_push_str(&mut out, t.as_str());
                string_push_str(&mut out, " and ");
                let t = debug_str(incoming.as_str());
                string_push_str(&mut out, t.as_str());
                string_push_str(&mut out, " are incompatible. Only compose ProfileRulePack values that share the same release scope, or where at most one carries a release scope");
                out
            },
            EdifactError::InvalidFieldValue { element_index, tag, value } => {
                let mut out = own("Segment ");
                string_push_str(&mut out, tag.as_str());
                string_push_str(&mut out, " element ");
                let t = decimal_string(*element_index as u128);
                string_push_str(&mut out, t.as_str());
                string_push_str(&mut out, " has invalid value '");
                string_push_str(&mut out, value.as_str());
                string_push_str(&mut out, "'. Check the expected format or range for this field");
                out
            },
            EdifactError::UnexpectedDataToken { offset } => {
                let mut out = own("Data element at offset ");
                let t = decimal_string(*offset as u128);
                string_push_str(&mut out, t.as_str());
                string_push_str(&mut out, " appeared before any segment tag. Check for partial writes or encoding corruption");
                out
            },
            EdifactError::ValidationErrors { error_count, .. } => {
                let mut out = own("Validation found ");
                let t = decimal_string(*error_count as u128);
                string_push_str(&mut out, t.as_str());
                string_push_str(&mut out, " error(s). Inspect the ValidationReport for details");
                out
            },
            EdifactError::UnrecognisedSyntaxIdentifier(id) => {
                let mut out = own("Syntax identifier '");
                string_push_str(&mut out, id.as_str());
                string_push_str(&mut out, "' is not defined in ISO 9735-1. Valid values are UNOA through UNOK, UNOX, UNOY (or KECA for KEC-A profile)");
                out
            },
            EdifactError::DuplicateReference { reference, tag, .. } => {
                let mut out = own("Reference '");
                string_push_str(&mut out, reference.as_str());
                string_push_str(&mut out, "' is used by more than one ");
                string_push_str(&mut out, tag.as_str());
                string_push_str(&mut out, " in this interchange; each must be unique so receivers can address messages unambiguously");
                out
            },
            EdifactError::UnknownDataElement { data_element, tag } => {
                let mut out = own("Segment ");
                string_push_str(&mut out, tag.as_str());
                string_push_str(&mut out, " does not define data element ");
                string_push_str(&mut out, data_element.as_str());
                string_push_str(&mut out, ". Check the identifier against the directory definition for ");
                string_push_str(&mut out, tag.as_str());
                out
            },
            EdifactError::AmbiguousDataElement { data_element, tag } => {
                let mut out = own("Segment ");
                string_push_str(&mut out, tag.as_str());
                string_push_str(&mut out, " defines data element ");
                string_push_str(&mut out, data_element.as_str());
                string_push_str(&mut out, " at more than one position, so code-addressed access cannot pick one; use a positional accessor");
                out
            },
            EdifactError::SegmentLayoutMismatch { actual, expected } => {
                let mut out = own("The supplied layout describes segment ");
                string_push_str(&mut out, expected.as_str());
                string_push_str(&mut out, " but was applied to ");
                string_push_str(&mut out, actual.as_str());
                string_push_str(&mut out, ". Look up the definition by the segment's own tag");
                out
            },
            EdifactError::RepetitionSeparatorNotDeclared => own("UNA position 7 holds the space \"not used\" sentinel, so repeating data elements cannot be expressed. Use Writer::with_una with a repetition_sep"),
            EdifactError::CharacterNotInRepertoire { character, charset, offset } => {
                let mut out = own("The character ");
                let t = debug_char(*character);
                string_push_str(&mut out, t.as_str());
                string_push_str(&mut out, " at offset ");
                let t = decimal_string(*offset as u128);
                string_push_str(&mut out, t.as_str());
                string_push_str(&mut out, " has no representation in ");
                string_push_str(&mut out, *charset);
                string_push_str(&mut out, ". Transliterate it, or declare a wider repertoire in UNB S001 DE 0001");
                out
            },
            EdifactError::UnsupportedCharset { syntax_identifier } => {
                let mut out = own("'");
                string_push_str(&mut out, syntax_identifier.as_str());
                string_push_str(&mut out, "' is stateful or multi-byte, so byte-level delimiter scanning would be unsound. Transcode the interchange to UNOC or UNOY before parsing");
                out
            },
            EdifactError::CharacterRepertoireMismatch { declared, writer } => {
                let mut out = own("The UNB declares ");
                string_push_str(&mut out, declared.as_str());
                string_push_str(&mut out, " but the writer encodes ");
                string_push_str(&mut out, *writer);
                string_push_str(&mut out, ". The receiver would decode the body with the wrong table");
                out
            },
            EdifactError::NonFiniteNumber { value } => {
                let mut out = own("The value ");
                string_push_str(&mut out, value.as_str());
                string_push_str(&mut out, " is not finite. EDIFACT numeric data elements have no representation for NaN or infinity");
                out
            },
            EdifactError::LimitExceeded { limit, max } => {
                let mut out = own("The input exceeds the configured ");
                string_push_str(&mut out, *limit);
                string_push_str(&mut out, " limit of ");
                let t = decimal_string(*max as u128);
                string_push_str(&mut out, t.as_str());
                string_push_str(&mut out, ". Raise it via ReaderConfig if the input is legitimate, or reject the input");
                out
            },
            EdifactError::EmptyInterchange { control_ref } => {
                let mut out = own("Interchange ");
                string_push_str(&mut out, control_ref.as_str());
                string_push_str(&mut out, " carries no message and no group. ISO 9735-1 §7.1 requires at least one; send nothing rather than an empty envelope");
                out
            },
            EdifactError::EmptyMessage { message_ref, .. } => {
                let mut out = own("Message ");
                string_push_str(&mut out, message_ref.as_str());
                string_push_str(&mut out, " has nothing between UNH and UNT. ISO 9735-1 §7.3 requires at least one additional segment");
                out
            },
            EdifactError::PackageNotSupported { tag, .. } => {
                let mut out = own(tag.as_str());
                string_push_str(&mut out, " opens or closes a package, whose object is arbitrary binary data rather than EDIFACT. Split it out using the length in UNO S022 DE 0810, then parse the remaining segments");
                out
            },
            EdifactError::BlankDataElementValue { component_index, element_index, tag, .. } => {
                let mut out = own("Segment ");
                string_push_str(&mut out, tag.as_str());
                string_push_str(&mut out, " element ");
                let t = decimal_string(*element_index as u128);
                string_push_str(&mut out, t.as_str());
                string_push_str(&mut out, " component ");
                let t = decimal_string(*component_index as u128);
                string_push_str(&mut out, t.as_str());
                string_push_str(&mut out, " holds only spaces. ISO 9735-1 §9.3 forbids that — omit the element instead");
                out
            },
            EdifactError::SegmentWithoutDataElements { tag, .. } => {
                let mut out = own("Segment ");
                string_push_str(&mut out, tag.as_str());
                string_push_str(&mut out, " carries only its tag. ISO 9735-1 §7.5 requires at least one data element; §8.5 says a conditional segment with no data is omitted entirely");
                out
            },
            EdifactError::TooManyRepetitions { actual, element_index, max, tag, .. } => {
                let mut out = own("Segment ");
                string_push_str(&mut out, tag.as_str());
                string_push_str(&mut out, " element ");
                let t = decimal_string(*element_index as u128);
                string_push_str(&mut out, t.as_str());
                string_push_str(&mut out, " occurs ");
                let t = decimal_string(*actual as u128);
                string_push_str(&mut out, t.as_str());
                string_push_str(&mut out, " times but its definition allows at most ");
                let t = decimal_string(*max as u128);
                string_push_str(&mut out, t.as_str());
                out
            },
            EdifactError::InvalidCharacterType { repr, tag, value, .. } => {
                let mut out = own("Segment ");
                string_push_str(&mut out, tag.as_str());
                string_push_str(&mut out, ": ");
                let t = debug_str(value.as_str());
                string_push_str(&mut out, t.as_str());
                string_push_str(&mut out, " is not a valid ");
                string_push_str(&mut out, repr.as_str());
                string_push_str(&mut out, " value. ISO 9735-1 §10 admits digits, an optional minus sign, a decimal mark and an exponent — the space character and the plus sign are not allowed");
                out
            },
            EdifactError::DataElementTooLong { actual, repr, tag, .. } => {
                let mut out = own("Segment ");
                string_push_str(&mut out, tag.as_str());
                string_push_str(&mut out, ": the value is ");
                let t = decimal_string(*actual as u128);
                string_push_str(&mut out, t.as_str());
                string_push_str(&mut out, " characters, but the directory declares ");
                string_push_str(&mut out, repr.as_str());
                string_push_str(&mut out, ". Length is counted in characters rather than bytes");
                out
            },
            EdifactError::DataElementTooShort { actual, repr, tag, .. } => {
                let mut out = own("Segment ");
                string_push_str(&mut out, tag.as_str());
                string_push_str(&mut out, ": the value is ");
                let t = decimal_string(*actual as u128);
                string_push_str(&mut out, t.as_str());
                string_push_str(&mut out, " characters, but the directory declares the fixed length ");
                string_push_str(&mut out, repr.as_str());
                out
            },
            EdifactError::GroupsAndMessagesMixed { .. } => own("ISO 9735-1 §7.1 lists what an interchange may contain, and the entries are exclusive: groups containing messages, or bare messages — never both, because a message outside every group cannot be counted in UNZ DE 0036"),
            EdifactError::InsignificantCharacters { kind, tag, .. } => {
                let mut out = own("Segment ");
                string_push_str(&mut out, tag.as_str());
                string_push_str(&mut out, ": ");
                string_push_str(&mut out, kind.describe());
                string_push_str(&mut out, ". ISO 9735-1 §9.1 requires insignificant characters to be suppressed before transfer");
                out
            },
            EdifactError::TrailingSeparator { tag, element_index, .. } => match element_index {
                Some(index) => {
                    let mut out = own("Segment ");
                    string_push_str(&mut out, tag.as_str());
                    string_push_str(&mut out, " element ");
                    let t = decimal_string(*index as u128);
                    string_push_str(&mut out, t.as_str());
                    string_push_str(&mut out, " ends in a component separator with no value after it. ISO 9735-1 §8.7.2 requires trailing component separators to be omitted");
                    out
                },
                None => {
                    let mut out = own("Segment ");
                    string_push_str(&mut out, tag.as_str());
                    string_push_str(&mut out, " ends in a data element separator with no value after it. ISO 9735-1 §8.7.1 requires trailing data element separators to be omitted");
                    out
                },
            },
        }
    }
}

} // verus!
