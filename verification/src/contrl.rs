//! The CONTRL syntax and service report message (ISO 9735-4): action codes,
//! reporting levels, syntax error codes and the Annex A table of where each
//! code may be reported.

use vstd::prelude::*;

use crate::error::{stable_code_of, EdifactError};
use crate::envelope::{FunctionalGroupEnvelope, InterchangeEnvelope, MessageEnvelope, ValidatedInterchange};
use crate::report::{ValidationIssue, ValidationReport};
use crate::model::{component_items, pair, quad, single, texts, Element, Segment};
use crate::text::{decimal, decimal_string};
use crate::parser::bytes_into_string;
use crate::syntax::default_ssa;
use crate::writer::{
    has_repeats, lemma_all_by_texts, line_bytes, line_of, lines_bytes, lines_of, render_all, segment_encodable,
    segments_to_bytes, unb_line, unz_line, Line, Writer,
};
use vstd::utf8::{decode_utf8, valid_utf8};
use crate::text::{own, str_eq, string_push_str};

verus! {

/// The action taken on a subject (DE 0083).
#[derive(Debug, Clone, Copy, PartialEq, Eq, Structural, Hash)]
#[non_exhaustive]
pub enum Action {
    /// Code 4: the subject is rejected.
    Rejected,
    /// Code 7: the subject is acknowledged.
    Acknowledged,
    /// Code 8: the interchange was received; its content was not checked.
    Received,
}

impl Action {
    /// The DE 0083 code.
    pub fn code(self) -> (r: &'static str)
        ensures
            r@ == action_code(self),
    {
        match self {
            Action::Rejected => "4",
            Action::Acknowledged => "7",
            Action::Received => "8",
        }
    }
}

/// The DE 0083 code of an action.
pub open spec fn action_code(a: Action) -> Seq<char> {
    match a {
        Action::Rejected => "4"@,
        Action::Acknowledged => "7"@,
        Action::Received => "8"@,
    }
}

/// The level a CONTRL finding is reported at, and the segment that carries it.
#[derive(Debug, Clone, Copy, PartialEq, Eq, Structural, Hash)]
#[non_exhaustive]
pub enum ReportingLevel {
    /// UCI: the interchange.
    Interchange,
    /// UCF: a functional group.
    Group,
    /// UCM: a message.
    Message,
    /// UCS: a segment.
    Segment,
    /// UCD: a data element.
    DataElement,
}

impl ReportingLevel {
    /// The tag of the segment that reports at this level.
    pub fn tag(self) -> (r: &'static str)
        ensures
            r@ == level_tag(self),
    {
        match self {
            ReportingLevel::Interchange => "UCI",
            ReportingLevel::Group => "UCF",
            ReportingLevel::Message => "UCM",
            ReportingLevel::Segment => "UCS",
            ReportingLevel::DataElement => "UCD",
        }
    }
}

/// The reporting segment tag of a level.
pub open spec fn level_tag(l: ReportingLevel) -> Seq<char> {
    match l {
        ReportingLevel::Interchange => "UCI"@,
        ReportingLevel::Group => "UCF"@,
        ReportingLevel::Message => "UCM"@,
        ReportingLevel::Segment => "UCS"@,
        ReportingLevel::DataElement => "UCD"@,
    }
}

/// A syntax error code (DE 0085).
#[derive(Debug, Clone, Copy, PartialEq, Eq, Structural, Hash)]
#[non_exhaustive]
pub enum SyntaxError {
    /// Code 2: syntax version or level not supported.
    SyntaxVersionNotSupported,
    /// Code 7: the interchange recipient is not the actual recipient.
    NotActualRecipient,
    /// Code 12: invalid value.
    InvalidValue,
    /// Code 13: missing.
    Missing,
    /// Code 14: value not supported in this position.
    ValueNotSupportedHere,
    /// Code 15: not supported in this position.
    NotSupportedHere,
    /// Code 16: too many constituents.
    TooManyConstituents,
    /// Code 17: no agreement.
    NoAgreement,
    /// Code 18: unspecified error.
    Unspecified,
    /// Code 20: character invalid as service character.
    InvalidAsServiceCharacter,
    /// Code 21: invalid characters.
    InvalidCharacters,
    /// Code 22: invalid service characters.
    InvalidServiceCharacters,
    /// Code 23: unknown interchange sender.
    UnknownSender,
    /// Code 24: too old.
    TooOld,
    /// Code 25: test indicator not supported.
    TestIndicatorNotSupported,
    /// Code 26: duplicate detected.
    DuplicateDetected,
    /// Code 28: references do not match.
    ReferencesDoNotMatch,
    /// Code 29: control count does not match.
    ControlCountMismatch,
    /// Code 30: groups and messages mixed.
    GroupsAndMessagesMixed,
    /// Code 32: lower level empty.
    LowerLevelEmpty,
    /// Code 33: invalid occurrence outside message, package or group.
    InvalidOccurrenceOutsideMessage,
    /// Code 35: too many repetitions.
    TooManyRepetitions,
    /// Code 36: too many segment group repetitions.
    TooManyGroupRepetitions,
    /// Code 37: invalid type of characters.
    InvalidCharacterType,
    /// Code 39: data element too long.
    DataElementTooLong,
    /// Code 40: data element too short.
    DataElementTooShort,
    /// Code 45: trailing separator.
    TrailingSeparator,
    /// Code 46: character set not supported.
    CharacterSetNotSupported,
    /// Code 47: envelope functionality not supported.
    EnvelopeFunctionalityNotSupported,
}

/// The DE 0085 code of a syntax error.
pub open spec fn syntax_code(e: SyntaxError) -> Seq<char> {
    match e {
        SyntaxError::SyntaxVersionNotSupported => "2"@,
        SyntaxError::NotActualRecipient => "7"@,
        SyntaxError::InvalidValue => "12"@,
        SyntaxError::Missing => "13"@,
        SyntaxError::ValueNotSupportedHere => "14"@,
        SyntaxError::NotSupportedHere => "15"@,
        SyntaxError::TooManyConstituents => "16"@,
        SyntaxError::NoAgreement => "17"@,
        SyntaxError::Unspecified => "18"@,
        SyntaxError::InvalidAsServiceCharacter => "20"@,
        SyntaxError::InvalidCharacters => "21"@,
        SyntaxError::InvalidServiceCharacters => "22"@,
        SyntaxError::UnknownSender => "23"@,
        SyntaxError::TooOld => "24"@,
        SyntaxError::TestIndicatorNotSupported => "25"@,
        SyntaxError::DuplicateDetected => "26"@,
        SyntaxError::ReferencesDoNotMatch => "28"@,
        SyntaxError::ControlCountMismatch => "29"@,
        SyntaxError::GroupsAndMessagesMixed => "30"@,
        SyntaxError::LowerLevelEmpty => "32"@,
        SyntaxError::InvalidOccurrenceOutsideMessage => "33"@,
        SyntaxError::TooManyRepetitions => "35"@,
        SyntaxError::TooManyGroupRepetitions => "36"@,
        SyntaxError::InvalidCharacterType => "37"@,
        SyntaxError::DataElementTooLong => "39"@,
        SyntaxError::DataElementTooShort => "40"@,
        SyntaxError::TrailingSeparator => "45"@,
        SyntaxError::CharacterSetNotSupported => "46"@,
        SyntaxError::EnvelopeFunctionalityNotSupported => "47"@,
    }
}

/// The ISO 9735-4 description of a syntax error.
pub open spec fn syntax_description(e: SyntaxError) -> Seq<char> {
    match e {
        SyntaxError::SyntaxVersionNotSupported => "syntax version or level not supported"@,
        SyntaxError::NotActualRecipient => "interchange recipient not actual recipient"@,
        SyntaxError::InvalidValue => "invalid value"@,
        SyntaxError::Missing => "missing"@,
        SyntaxError::ValueNotSupportedHere => "value not supported in this position"@,
        SyntaxError::NotSupportedHere => "not supported in this position"@,
        SyntaxError::TooManyConstituents => "too many constituents"@,
        SyntaxError::NoAgreement => "no agreement"@,
        SyntaxError::Unspecified => "unspecified error"@,
        SyntaxError::InvalidAsServiceCharacter => "character invalid as service character"@,
        SyntaxError::InvalidCharacters => "invalid character(s)"@,
        SyntaxError::InvalidServiceCharacters => "invalid service character(s)"@,
        SyntaxError::UnknownSender => "unknown interchange sender"@,
        SyntaxError::TooOld => "too old"@,
        SyntaxError::TestIndicatorNotSupported => "test indicator not supported"@,
        SyntaxError::DuplicateDetected => "duplicate detected"@,
        SyntaxError::ReferencesDoNotMatch => "references do not match"@,
        SyntaxError::ControlCountMismatch => "control or octet count does not match number of instances received"@,
        SyntaxError::GroupsAndMessagesMixed => "groups and messages/packages mixed"@,
        SyntaxError::LowerLevelEmpty => "lower level empty"@,
        SyntaxError::InvalidOccurrenceOutsideMessage => "invalid occurrence outside message, package or group"@,
        SyntaxError::TooManyRepetitions => "too many repetitions"@,
        SyntaxError::TooManyGroupRepetitions => "too many segment group repetitions"@,
        SyntaxError::InvalidCharacterType => "invalid type of character(s)"@,
        SyntaxError::DataElementTooLong => "data element too long"@,
        SyntaxError::DataElementTooShort => "data element too short"@,
        SyntaxError::TrailingSeparator => "trailing separator"@,
        SyntaxError::CharacterSetNotSupported => "character set not supported"@,
        SyntaxError::EnvelopeFunctionalityNotSupported => "envelope functionality not supported"@,
    }
}

/// ISO 9735-4 Annex A: whether code `e` may be reported at level `l`.
pub open spec fn annex_a_permits(e: SyntaxError, l: ReportingLevel) -> bool {
    match e {
        SyntaxError::SyntaxVersionNotSupported | SyntaxError::NotActualRecipient
        | SyntaxError::InvalidAsServiceCharacter | SyntaxError::UnknownSender
        | SyntaxError::CharacterSetNotSupported => l == ReportingLevel::Interchange,
        SyntaxError::InvalidValue | SyntaxError::Missing | SyntaxError::ValueNotSupportedHere
        | SyntaxError::NotSupportedHere | SyntaxError::TooManyConstituents | SyntaxError::Unspecified
        | SyntaxError::InvalidCharacters | SyntaxError::InvalidServiceCharacters => true,
        SyntaxError::NoAgreement | SyntaxError::TestIndicatorNotSupported
        | SyntaxError::TrailingSeparator => l != ReportingLevel::DataElement,
        SyntaxError::TooOld | SyntaxError::LowerLevelEmpty
        | SyntaxError::InvalidOccurrenceOutsideMessage =>
            l == ReportingLevel::Interchange || l == ReportingLevel::Group,
        SyntaxError::DuplicateDetected | SyntaxError::ReferencesDoNotMatch
        | SyntaxError::ControlCountMismatch | SyntaxError::GroupsAndMessagesMixed =>
            l == ReportingLevel::Interchange || l == ReportingLevel::Group || l == ReportingLevel::Message,
        SyntaxError::TooManyRepetitions =>
            l == ReportingLevel::Message || l == ReportingLevel::Segment || l == ReportingLevel::DataElement,
        SyntaxError::TooManyGroupRepetitions => l == ReportingLevel::Segment,
        SyntaxError::InvalidCharacterType | SyntaxError::DataElementTooLong
        | SyntaxError::DataElementTooShort => l != ReportingLevel::Segment,
        SyntaxError::EnvelopeFunctionalityNotSupported =>
            l == ReportingLevel::Group || l == ReportingLevel::Message,
    }
}

/// The CONTRL code an [`EdifactError`] is reported with.
pub open spec fn syntax_error_for(e: &EdifactError) -> SyntaxError {
    match e {
        EdifactError::MessageCountMismatch { .. } | EdifactError::SegmentCountMismatch { .. } => SyntaxError::ControlCountMismatch,
        EdifactError::QualifierMismatch { .. } => SyntaxError::ReferencesDoNotMatch,
        EdifactError::DuplicateReference { .. } => SyntaxError::DuplicateDetected,
        EdifactError::MissingRequiredElement { .. } | EdifactError::MissingRequiredComponent { .. }
        | EdifactError::MissingSegment { .. } | EdifactError::SegmentWithoutDataElements { .. } => SyntaxError::Missing,
        EdifactError::InvalidCodeValue { .. } | EdifactError::InvalidFieldValue { .. }
        | EdifactError::BlankDataElementValue { .. } | EdifactError::InsignificantCharacters { .. } => SyntaxError::InvalidValue,
        EdifactError::InvalidSegmentForMessage { .. } | EdifactError::ConditionalRequirementNotMet { .. } => SyntaxError::NotSupportedHere,
        EdifactError::InvalidElementCount { .. } | EdifactError::InvalidComponentCount { .. } => SyntaxError::TooManyConstituents,
        EdifactError::UnrecognisedSyntaxIdentifier(_) | EdifactError::UnsupportedCharset { .. } => SyntaxError::CharacterSetNotSupported,
        EdifactError::CharacterNotInRepertoire { .. } | EdifactError::InvalidText { .. } => SyntaxError::InvalidCharacters,
        EdifactError::InvalidUna | EdifactError::InvalidDelimiter { .. } | EdifactError::InvalidReleaseSequence { .. } => SyntaxError::InvalidServiceCharacters,
        EdifactError::EmptyInterchange { .. } | EdifactError::EmptyMessage { .. } => SyntaxError::LowerLevelEmpty,
        EdifactError::PackageNotSupported { .. } => SyntaxError::EnvelopeFunctionalityNotSupported,
        EdifactError::SegmentTooLong { .. } | EdifactError::DataElementTooLong { .. } => SyntaxError::DataElementTooLong,
        EdifactError::DataElementTooShort { .. } => SyntaxError::DataElementTooShort,
        EdifactError::InvalidCharacterType { .. } => SyntaxError::InvalidCharacterType,
        EdifactError::TooManyRepetitions { .. } => SyntaxError::TooManyRepetitions,
        EdifactError::TrailingSeparator { .. } => SyntaxError::TrailingSeparator,
        EdifactError::GroupsAndMessagesMixed { .. } => SyntaxError::GroupsAndMessagesMixed,
        EdifactError::UnexpectedDataToken { .. } | EdifactError::InvalidSegmentTag(_) => SyntaxError::InvalidOccurrenceOutsideMessage,
        _ => SyntaxError::Unspecified,
    }
}

/// The CONTRL code for a stable error code.
pub open spec fn syntax_error_for_code(code: Seq<char>) -> SyntaxError {
    if code == "E004"@ || code == "E005"@ {
        SyntaxError::ControlCountMismatch
    }
    else if code == "E016"@ {
        SyntaxError::ReferencesDoNotMatch
    }
    else if code == "E032"@ {
        SyntaxError::DuplicateDetected
    }
    else if code == "E008"@ || code == "E015"@ || code == "E021"@ || code == "E046"@ {
        SyntaxError::Missing
    }
    else if code == "E014"@ || code == "E027"@ || code == "E045"@ {
        SyntaxError::InvalidValue
    }
    else if code == "E011"@ || code == "E017"@ {
        SyntaxError::NotSupportedHere
    }
    else if code == "E012"@ || code == "E013"@ {
        SyntaxError::TooManyConstituents
    }
    else if code == "E031"@ || code == "E039"@ {
        SyntaxError::CharacterSetNotSupported
    }
    else if code == "E003"@ || code == "E038"@ {
        SyntaxError::InvalidCharacters
    }
    else if code == "E002"@ || code == "E007"@ || code == "E019"@ {
        SyntaxError::InvalidServiceCharacters
    }
    else if code == "E042"@ || code == "E043"@ {
        SyntaxError::LowerLevelEmpty
    }
    else if code == "E044"@ {
        SyntaxError::EnvelopeFunctionalityNotSupported
    }
    else if code == "E020"@ || code == "E049"@ {
        SyntaxError::DataElementTooLong
    }
    else if code == "E050"@ {
        SyntaxError::DataElementTooShort
    }
    else if code == "E048"@ {
        SyntaxError::InvalidCharacterType
    }
    else if code == "E047"@ {
        SyntaxError::TooManyRepetitions
    }
    else if code == "E051"@ {
        SyntaxError::TrailingSeparator
    }
    else if code == "E052"@ {
        SyntaxError::GroupsAndMessagesMixed
    }
    else if code == "E053"@ {
        SyntaxError::InvalidValue
    }
    else if code == "E006"@ || code == "E028"@ {
        SyntaxError::InvalidOccurrenceOutsideMessage
    }
    else {
        SyntaxError::Unspecified
    }
}

/// The CONTRL code for an issue: by its stable error code, `Unspecified` without one.
pub open spec fn syntax_error_for_issue(i: ValidationIssue) -> SyntaxError {
    match i.error_code {
        Some(c) => syntax_error_for_code(c@),
        None => SyntaxError::Unspecified,
    }
}

impl SyntaxError {
    /// The DE 0085 code.
    pub fn code(self) -> (r: &'static str)
        ensures
            r@ == syntax_code(self),
    {
        match self {
            SyntaxError::SyntaxVersionNotSupported => "2",
            SyntaxError::NotActualRecipient => "7",
            SyntaxError::InvalidValue => "12",
            SyntaxError::Missing => "13",
            SyntaxError::ValueNotSupportedHere => "14",
            SyntaxError::NotSupportedHere => "15",
            SyntaxError::TooManyConstituents => "16",
            SyntaxError::NoAgreement => "17",
            SyntaxError::Unspecified => "18",
            SyntaxError::InvalidAsServiceCharacter => "20",
            SyntaxError::InvalidCharacters => "21",
            SyntaxError::InvalidServiceCharacters => "22",
            SyntaxError::UnknownSender => "23",
            SyntaxError::TooOld => "24",
            SyntaxError::TestIndicatorNotSupported => "25",
            SyntaxError::DuplicateDetected => "26",
            SyntaxError::ReferencesDoNotMatch => "28",
            SyntaxError::ControlCountMismatch => "29",
            SyntaxError::GroupsAndMessagesMixed => "30",
            SyntaxError::LowerLevelEmpty => "32",
            SyntaxError::InvalidOccurrenceOutsideMessage => "33",
            SyntaxError::TooManyRepetitions => "35",
            SyntaxError::TooManyGroupRepetitions => "36",
            SyntaxError::InvalidCharacterType => "37",
            SyntaxError::DataElementTooLong => "39",
            SyntaxError::DataElementTooShort => "40",
            SyntaxError::TrailingSeparator => "45",
            SyntaxError::CharacterSetNotSupported => "46",
            SyntaxError::EnvelopeFunctionalityNotSupported => "47",
        }
    }

    /// The ISO 9735-4 description of the code.
    pub fn description(self) -> (r: &'static str)
        ensures
            r@ == syntax_description(self),
    {
        match self {
            SyntaxError::SyntaxVersionNotSupported => "syntax version or level not supported",
            SyntaxError::NotActualRecipient => "interchange recipient not actual recipient",
            SyntaxError::InvalidValue => "invalid value",
            SyntaxError::Missing => "missing",
            SyntaxError::ValueNotSupportedHere => "value not supported in this position",
            SyntaxError::NotSupportedHere => "not supported in this position",
            SyntaxError::TooManyConstituents => "too many constituents",
            SyntaxError::NoAgreement => "no agreement",
            SyntaxError::Unspecified => "unspecified error",
            SyntaxError::InvalidAsServiceCharacter => "character invalid as service character",
            SyntaxError::InvalidCharacters => "invalid character(s)",
            SyntaxError::InvalidServiceCharacters => "invalid service character(s)",
            SyntaxError::UnknownSender => "unknown interchange sender",
            SyntaxError::TooOld => "too old",
            SyntaxError::TestIndicatorNotSupported => "test indicator not supported",
            SyntaxError::DuplicateDetected => "duplicate detected",
            SyntaxError::ReferencesDoNotMatch => "references do not match",
            SyntaxError::ControlCountMismatch => "control or octet count does not match number of instances received",
            SyntaxError::GroupsAndMessagesMixed => "groups and messages/packages mixed",
            SyntaxError::LowerLevelEmpty => "lower level empty",
            SyntaxError::InvalidOccurrenceOutsideMessage => "invalid occurrence outside message, package or group",
            SyntaxError::TooManyRepetitions => "too many repetitions",
            SyntaxError::TooManyGroupRepetitions => "too many segment group repetitions",
            SyntaxError::InvalidCharacterType => "invalid type of character(s)",
            SyntaxError::DataElementTooLong => "data element too long",
            SyntaxError::DataElementTooShort => "data element too short",
            SyntaxError::TrailingSeparator => "trailing separator",
            SyntaxError::CharacterSetNotSupported => "character set not supported",
            SyntaxError::EnvelopeFunctionalityNotSupported => "envelope functionality not supported",
        }
    }

    /// The display form: the code, then the description in brackets.
    pub fn to_string(self) -> (r: String)
        ensures
            r@ == syntax_code(self) + " ("@ + syntax_description(self) + ")"@,
    {
        let mut out = String::new();
        string_push_str(&mut out, self.code());
        string_push_str(&mut out, " (");
        string_push_str(&mut out, self.description());
        string_push_str(&mut out, ")");
        out
    }

    /// Whether Annex A of ISO 9735-4 allows this code at `level`.
    pub fn permitted_at(self, level: ReportingLevel) -> (r: bool)
        ensures
            r == annex_a_permits(self, level),
    {
        let l = level;
        match self {
            SyntaxError::SyntaxVersionNotSupported | SyntaxError::NotActualRecipient
            | SyntaxError::InvalidAsServiceCharacter | SyntaxError::UnknownSender
            | SyntaxError::CharacterSetNotSupported => matches!(l, ReportingLevel::Interchange),
            SyntaxError::InvalidValue | SyntaxError::Missing | SyntaxError::ValueNotSupportedHere
            | SyntaxError::NotSupportedHere | SyntaxError::TooManyConstituents | SyntaxError::Unspecified
            | SyntaxError::InvalidCharacters => true,
            SyntaxError::NoAgreement | SyntaxError::TestIndicatorNotSupported => matches!(
                l,
                ReportingLevel::Interchange | ReportingLevel::Group | ReportingLevel::Message | ReportingLevel::Segment
            ),
            SyntaxError::InvalidServiceCharacters => true,
            SyntaxError::TooOld => matches!(l, ReportingLevel::Interchange | ReportingLevel::Group),
            SyntaxError::DuplicateDetected | SyntaxError::ReferencesDoNotMatch
            | SyntaxError::ControlCountMismatch | SyntaxError::GroupsAndMessagesMixed => matches!(
                l,
                ReportingLevel::Interchange | ReportingLevel::Group | ReportingLevel::Message
            ),
            SyntaxError::LowerLevelEmpty | SyntaxError::InvalidOccurrenceOutsideMessage =>
                matches!(l, ReportingLevel::Interchange | ReportingLevel::Group),
            SyntaxError::TooManyRepetitions => matches!(
                l,
                ReportingLevel::Message | ReportingLevel::Segment | ReportingLevel::DataElement
            ),
            SyntaxError::TooManyGroupRepetitions => matches!(l, ReportingLevel::Segment),
            SyntaxError::InvalidCharacterType | SyntaxError::DataElementTooLong
            | SyntaxError::DataElementTooShort => matches!(
                l,
                ReportingLevel::Interchange | ReportingLevel::Group | ReportingLevel::Message | ReportingLevel::DataElement
            ),
            SyntaxError::TrailingSeparator => matches!(
                l,
                ReportingLevel::Interchange | ReportingLevel::Group | ReportingLevel::Message | ReportingLevel::Segment
            ),
            SyntaxError::EnvelopeFunctionalityNotSupported =>
                matches!(l, ReportingLevel::Group | ReportingLevel::Message),
        }
    }

    /// The narrowest Annex A code for an error.
    pub fn for_error(error: &EdifactError) -> (r: SyntaxError)
        ensures
            r == syntax_error_for(error),
    {
        match error {
            EdifactError::MessageCountMismatch { .. } | EdifactError::SegmentCountMismatch { .. } => SyntaxError::ControlCountMismatch,
            EdifactError::QualifierMismatch { .. } => SyntaxError::ReferencesDoNotMatch,
            EdifactError::DuplicateReference { .. } => SyntaxError::DuplicateDetected,
            EdifactError::MissingRequiredElement { .. } | EdifactError::MissingRequiredComponent { .. }
            | EdifactError::MissingSegment { .. } => SyntaxError::Missing,
            EdifactError::InvalidCodeValue { .. } | EdifactError::InvalidFieldValue { .. } => SyntaxError::InvalidValue,
            EdifactError::InvalidSegmentForMessage { .. } | EdifactError::ConditionalRequirementNotMet { .. } => SyntaxError::NotSupportedHere,
            EdifactError::InvalidElementCount { .. } | EdifactError::InvalidComponentCount { .. } => SyntaxError::TooManyConstituents,
            EdifactError::UnrecognisedSyntaxIdentifier(_) | EdifactError::UnsupportedCharset { .. } => SyntaxError::CharacterSetNotSupported,
            EdifactError::CharacterNotInRepertoire { .. } | EdifactError::InvalidText { .. } => SyntaxError::InvalidCharacters,
            EdifactError::InvalidUna | EdifactError::InvalidDelimiter { .. } | EdifactError::InvalidReleaseSequence { .. } => SyntaxError::InvalidServiceCharacters,
            EdifactError::EmptyInterchange { .. } | EdifactError::EmptyMessage { .. } => SyntaxError::LowerLevelEmpty,
            EdifactError::SegmentWithoutDataElements { .. } => SyntaxError::Missing,
            EdifactError::BlankDataElementValue { .. } => SyntaxError::InvalidValue,
            EdifactError::PackageNotSupported { .. } => SyntaxError::EnvelopeFunctionalityNotSupported,
            EdifactError::SegmentTooLong { .. } | EdifactError::DataElementTooLong { .. } => SyntaxError::DataElementTooLong,
            EdifactError::DataElementTooShort { .. } => SyntaxError::DataElementTooShort,
            EdifactError::InvalidCharacterType { .. } => SyntaxError::InvalidCharacterType,
            EdifactError::TooManyRepetitions { .. } => SyntaxError::TooManyRepetitions,
            EdifactError::TrailingSeparator { .. } => SyntaxError::TrailingSeparator,
            EdifactError::GroupsAndMessagesMixed { .. } => SyntaxError::GroupsAndMessagesMixed,
            EdifactError::InsignificantCharacters { .. } => SyntaxError::InvalidValue,
            EdifactError::UnexpectedDataToken { .. } | EdifactError::InvalidSegmentTag(_) => SyntaxError::InvalidOccurrenceOutsideMessage,
            _ => SyntaxError::Unspecified,
        }
    }

    /// The Annex A code for an issue, by its stable error code.
    pub fn for_issue(issue: &ValidationIssue) -> (r: SyntaxError)
        ensures
            r == syntax_error_for_issue(*issue),
    {
        match issue.error_code() {
            Some(c) => syntax_error_for_code_exec(c),
            None => SyntaxError::Unspecified,
        }
    }
}

fn syntax_error_for_code_exec(code: &str) -> (r: SyntaxError)
    ensures
        r == syntax_error_for_code(code@),
{
    if str_eq(code, "E004") || str_eq(code, "E005") {
        SyntaxError::ControlCountMismatch
    }
    else if str_eq(code, "E016") {
        SyntaxError::ReferencesDoNotMatch
    }
    else if str_eq(code, "E032") {
        SyntaxError::DuplicateDetected
    }
    else if str_eq(code, "E008") || str_eq(code, "E015") || str_eq(code, "E021") || str_eq(code, "E046") {
        SyntaxError::Missing
    }
    else if str_eq(code, "E014") || str_eq(code, "E027") || str_eq(code, "E045") {
        SyntaxError::InvalidValue
    }
    else if str_eq(code, "E011") || str_eq(code, "E017") {
        SyntaxError::NotSupportedHere
    }
    else if str_eq(code, "E012") || str_eq(code, "E013") {
        SyntaxError::TooManyConstituents
    }
    else if str_eq(code, "E031") || str_eq(code, "E039") {
        SyntaxError::CharacterSetNotSupported
    }
    else if str_eq(code, "E003") || str_eq(code, "E038") {
        SyntaxError::InvalidCharacters
    }
    else if str_eq(code, "E002") || str_eq(code, "E007") || str_eq(code, "E019") {
        SyntaxError::InvalidServiceCharacters
    }
    else if str_eq(code, "E042") || str_eq(code, "E043") {
        SyntaxError::LowerLevelEmpty
    }
    else if str_eq(code, "E044") {
        SyntaxError::EnvelopeFunctionalityNotSupported
    }
    else if str_eq(code, "E020") || str_eq(code, "E049") {
        SyntaxError::DataElementTooLong
    }
    else if str_eq(code, "E050") {
        SyntaxError::DataElementTooShort
    }
    else if str_eq(code, "E048") {
        SyntaxError::InvalidCharacterType
    }
    else if str_eq(code, "E047") {
        SyntaxError::TooManyRepetitions
    }
    else if str_eq(code, "E051") {
        SyntaxError::TrailingSeparator
    }
    else if str_eq(code, "E052") {
        SyntaxError::GroupsAndMessagesMixed
    }
    else if str_eq(code, "E053") {
        SyntaxError::InvalidValue
    }
    else if str_eq(code, "E006") || str_eq(code, "E028") {
        SyntaxError::InvalidOccurrenceOutsideMessage
    }
    else {
        SyntaxError::Unspecified
    }
}

/// Every syntax error code may be reported at some level: no code is
/// unreachable under Annex A.
pub proof fn law_every_code_is_permitted_somewhere(e: SyntaxError)
    ensures
        exists|l: ReportingLevel| #[trigger] annex_a_permits(e, l),
{
    if annex_a_permits(e, ReportingLevel::Interchange) {
    } else if annex_a_permits(e, ReportingLevel::Group) {
    } else {
        assert(annex_a_permits(e, ReportingLevel::Segment));
    }
}

/// The number a short code of decimal digits spells, after an optional letter.
pub open spec fn code_number(s: Seq<char>) -> int {
    if s.len() == 1 {
        s[0] as int - 48
    } else if s.len() == 2 {
        (s[0] as int - 48) * 10 + (s[1] as int - 48)
    } else {
        (s[1] as int - 48) * 100 + (s[2] as int - 48) * 10 + (s[3] as int - 48)
    }
}

/// No two syntax errors share a DE 0085 code.
pub proof fn law_codes_are_unique(a: SyntaxError, b: SyntaxError)
    ensures
        syntax_code(a) == syntax_code(b) ==> a == b,
{
    reveal_strlit("2");
    assert(code_number("2"@) == 2);
    reveal_strlit("7");
    assert(code_number("7"@) == 7);
    reveal_strlit("12");
    assert(code_number("12"@) == 12);
    reveal_strlit("13");
    assert(code_number("13"@) == 13);
    reveal_strlit("14");
    assert(code_number("14"@) == 14);
    reveal_strlit("15");
    assert(code_number("15"@) == 15);
    reveal_strlit("16");
    assert(code_number("16"@) == 16);
    reveal_strlit("17");
    assert(code_number("17"@) == 17);
    reveal_strlit("18");
    assert(code_number("18"@) == 18);
    reveal_strlit("20");
    assert(code_number("20"@) == 20);
    reveal_strlit("21");
    assert(code_number("21"@) == 21);
    reveal_strlit("22");
    assert(code_number("22"@) == 22);
    reveal_strlit("23");
    assert(code_number("23"@) == 23);
    reveal_strlit("24");
    assert(code_number("24"@) == 24);
    reveal_strlit("25");
    assert(code_number("25"@) == 25);
    reveal_strlit("26");
    assert(code_number("26"@) == 26);
    reveal_strlit("28");
    assert(code_number("28"@) == 28);
    reveal_strlit("29");
    assert(code_number("29"@) == 29);
    reveal_strlit("30");
    assert(code_number("30"@) == 30);
    reveal_strlit("32");
    assert(code_number("32"@) == 32);
    reveal_strlit("33");
    assert(code_number("33"@) == 33);
    reveal_strlit("35");
    assert(code_number("35"@) == 35);
    reveal_strlit("36");
    assert(code_number("36"@) == 36);
    reveal_strlit("37");
    assert(code_number("37"@) == 37);
    reveal_strlit("39");
    assert(code_number("39"@) == 39);
    reveal_strlit("40");
    assert(code_number("40"@) == 40);
    reveal_strlit("45");
    assert(code_number("45"@) == 45);
    reveal_strlit("46");
    assert(code_number("46"@) == 46);
    reveal_strlit("47");
    assert(code_number("47"@) == 47);
}

/// An issue that carries an error's stable code is reported with the same
/// CONTRL code as the error itself.
pub proof fn law_issue_code_maps_like_its_error(e: &EdifactError)
    ensures
        syntax_error_for_code(stable_code_of(e)) == syntax_error_for(e),
{
    reveal_strlit("E001");
    assert(code_number("E001"@) == 1);
    reveal_strlit("E002");
    assert(code_number("E002"@) == 2);
    reveal_strlit("E003");
    assert(code_number("E003"@) == 3);
    reveal_strlit("E004");
    assert(code_number("E004"@) == 4);
    reveal_strlit("E005");
    assert(code_number("E005"@) == 5);
    reveal_strlit("E006");
    assert(code_number("E006"@) == 6);
    reveal_strlit("E007");
    assert(code_number("E007"@) == 7);
    reveal_strlit("E008");
    assert(code_number("E008"@) == 8);
    reveal_strlit("E009");
    assert(code_number("E009"@) == 9);
    reveal_strlit("E010");
    assert(code_number("E010"@) == 10);
    reveal_strlit("E011");
    assert(code_number("E011"@) == 11);
    reveal_strlit("E012");
    assert(code_number("E012"@) == 12);
    reveal_strlit("E013");
    assert(code_number("E013"@) == 13);
    reveal_strlit("E014");
    assert(code_number("E014"@) == 14);
    reveal_strlit("E015");
    assert(code_number("E015"@) == 15);
    reveal_strlit("E016");
    assert(code_number("E016"@) == 16);
    reveal_strlit("E017");
    assert(code_number("E017"@) == 17);
    reveal_strlit("E019");
    assert(code_number("E019"@) == 19);
    reveal_strlit("E020");
    assert(code_number("E020"@) == 20);
    reveal_strlit("E021");
    assert(code_number("E021"@) == 21);
    reveal_strlit("E023");
    assert(code_number("E023"@) == 23);
    reveal_strlit("E024");
    assert(code_number("E024"@) == 24);
    reveal_strlit("E025");
    assert(code_number("E025"@) == 25);
    reveal_strlit("E026");
    assert(code_number("E026"@) == 26);
    reveal_strlit("E027");
    assert(code_number("E027"@) == 27);
    reveal_strlit("E028");
    assert(code_number("E028"@) == 28);
    reveal_strlit("E030");
    assert(code_number("E030"@) == 30);
    reveal_strlit("E031");
    assert(code_number("E031"@) == 31);
    reveal_strlit("E032");
    assert(code_number("E032"@) == 32);
    reveal_strlit("E033");
    assert(code_number("E033"@) == 33);
    reveal_strlit("E034");
    assert(code_number("E034"@) == 34);
    reveal_strlit("E035");
    assert(code_number("E035"@) == 35);
    reveal_strlit("E036");
    assert(code_number("E036"@) == 36);
    reveal_strlit("E037");
    assert(code_number("E037"@) == 37);
    reveal_strlit("E038");
    assert(code_number("E038"@) == 38);
    reveal_strlit("E039");
    assert(code_number("E039"@) == 39);
    reveal_strlit("E040");
    assert(code_number("E040"@) == 40);
    reveal_strlit("E041");
    assert(code_number("E041"@) == 41);
    reveal_strlit("E042");
    assert(code_number("E042"@) == 42);
    reveal_strlit("E043");
    assert(code_number("E043"@) == 43);
    reveal_strlit("E044");
    assert(code_number("E044"@) == 44);
    reveal_strlit("E045");
    assert(code_number("E045"@) == 45);
    reveal_strlit("E046");
    assert(code_number("E046"@) == 46);
    reveal_strlit("E047");
    assert(code_number("E047"@) == 47);
    reveal_strlit("E048");
    assert(code_number("E048"@) == 48);
    reveal_strlit("E049");
    assert(code_number("E049"@) == 49);
    reveal_strlit("E050");
    assert(code_number("E050"@) == 50);
    reveal_strlit("E051");
    assert(code_number("E051"@) == 51);
    reveal_strlit("E052");
    assert(code_number("E052"@) == 52);
    reveal_strlit("E053");
    assert(code_number("E053"@) == 53);
}

// ── placing findings ───────────────────────────────────────────────────────

/// What part of the subject interchange a finding was traced to.  Messages
/// and groups are keyed by position, not by their references, which may
/// repeat.
#[derive(Debug, Clone, Copy, PartialEq, Eq, Structural)]
pub enum Scope {
    /// The UNG/UNE envelope of the group at this index.
    Group(usize),
    /// A segment inside the message at this index across the interchange.
    Message {
        /// The message's index.
        index: usize,
        /// The segment's position in the message, UNH being 1.
        segment_position: u32,
    },
}

/// One finding placed at a CONTRL reporting level.
#[derive(Debug, Clone, Copy, PartialEq, Eq, Structural)]
pub struct Finding {
    /// Where it lies.
    pub scope: Scope,
    /// The data element's position in the segment, the tag being 1.
    pub element_position: Option<u32>,
    /// The component's position in the data element, from 1.
    pub component_position: Option<u32>,
    /// Whether it rejects its level rather than annotating it.
    pub rejects: bool,
    /// Its code.
    pub error: SyntaxError,
}

/// The lowest level that can both locate a finding and carry its code.
pub open spec fn finding_level(f: Finding) -> ReportingLevel {
    if f.scope is Group {
        ReportingLevel::Group
    } else if f.element_position is Some && annex_a_permits(f.error, ReportingLevel::DataElement) {
        ReportingLevel::DataElement
    } else if annex_a_permits(f.error, ReportingLevel::Segment) {
        ReportingLevel::Segment
    } else {
        ReportingLevel::Message
    }
}

/// The finding lies inside the message at `index`.
pub open spec fn on_message(f: Finding, index: int) -> bool {
    f.scope matches Scope::Message { index: i, .. } && i == index
}

impl Finding {
    /// The lowest level that can both locate this finding and carry its code.
    pub fn level(&self) -> (r: ReportingLevel)
        ensures
            r == finding_level(*self),
    {
        if let Scope::Group(_) = self.scope {
            return ReportingLevel::Group;
        }
        if self.element_position.is_some() && self.error.permitted_at(ReportingLevel::DataElement) {
            return ReportingLevel::DataElement;
        }
        if self.error.permitted_at(ReportingLevel::Segment) {
            return ReportingLevel::Segment;
        }
        ReportingLevel::Message
    }

    /// The index of the message this finding lies in, if it lies in one.
    pub fn message_index(&self) -> (r: Option<usize>)
        ensures
            match self.scope {
                Scope::Message { index, .. } => r == Some(index),
                Scope::Group(_) => r is None,
            },
    {
        match self.scope {
            Scope::Message { index, .. } => Some(index),
            Scope::Group(_) => None,
        }
    }
}

/// The state of pairing `open` and `close` tags over the first `n` segments:
/// the pairs closed so far, and the open one.
pub open spec fn pairing(tags: Seq<Seq<char>>, open: Seq<char>, close: Seq<char>, n: int) -> (Seq<(usize, usize)>, Option<usize>)
    decreases n,
{
    if n <= 0 {
        (Seq::empty(), None)
    } else {
        let (out, start) = pairing(tags, open, close, n - 1);
        if tags[n - 1] == open {
            (out, Some((n - 1) as usize))
        } else if tags[n - 1] == close {
            match start {
                Some(f) => (out.push((f, (n - 1) as usize)), None),
                None => (out, None),
            }
        } else {
            (out, start)
        }
    }
}

/// The tags of the segments.
pub open spec fn tags_of(segs: Seq<Segment>) -> Seq<Seq<char>> {
    segs.map_values(|s: Segment| s.tag@)
}

/// The index ranges of each `open`..`close` pair, both ends included.
pub open spec fn spans_between_spec(segs: Seq<Segment>, open: Seq<char>, close: Seq<char>) -> Seq<(usize, usize)> {
    pairing(tags_of(segs), open, close, segs.len() as int).0
}

fn spans_between(segments: &[Segment], open: &str, close: &str) -> (r: Vec<(usize, usize)>)
    ensures
        r@ == spans_between_spec(segments@, open@, close@),
{
    let ghost tags = tags_of(segments@);
    let mut out: Vec<(usize, usize)> = Vec::new();
    let mut start: Option<usize> = None;
    let mut i: usize = 0;
    while i < segments.len()
        invariant
            i <= segments@.len(),
            tags == tags_of(segments@),
            (out@, start) == pairing(tags, open@, close@, i as int),
        decreases segments@.len() - i,
    {
        assert(tags[i as int] == segments@[i as int].tag@);
        if str_eq(segments[i].tag.as_str(), open) {
            start = Some(i);
        } else if str_eq(segments[i].tag.as_str(), close) {
            if let Some(from) = start {
                out.push((from, i));
                start = None;
            }
        }
        i = i + 1;
    }
    out
}

/// The index of the last segment that starts at or before `offset`, or -1.
pub open spec fn last_starting_by(segs: Seq<Segment>, offset: usize) -> int
    decreases segs.len(),
{
    if segs.len() == 0 {
        -1
    } else if segs.last().span.start <= offset {
        segs.len() - 1
    } else {
        last_starting_by(segs.drop_last(), offset)
    }
}

/// The first range of `ranges` that holds `index`, or -1.
pub open spec fn first_holding(ranges: Seq<(usize, usize)>, index: int) -> int
    decreases ranges.len(),
{
    if ranges.len() == 0 {
        -1
    } else {
        let k = first_holding(ranges.drop_last(), index);
        if k >= 0 {
            k
        } else if ranges.last().0 <= index <= ranges.last().1 {
            ranges.len() - 1
        } else {
            -1
        }
    }
}

/// Where a byte offset lies: in a message (and at which segment of it),
/// else in a group's envelope, else in neither.  A segment position beyond
/// `u32::MAX` places it nowhere.
pub open spec fn locate_spec(segs: Seq<Segment>, messages: Seq<(usize, usize)>, groups: Seq<(usize, usize)>, offset: usize) -> Option<Scope> {
    let index = last_starting_by(segs, offset);
    if index < 0 {
        None
    } else {
        let m = first_holding(messages, index);
        if m >= 0 {
            let position = index - messages[m].0 + 1;
            if position <= u32::MAX { Some(Scope::Message { index: m as usize, segment_position: position as u32 }) } else { None }
        } else {
            let g = first_holding(groups, index);
            if g >= 0 { Some(Scope::Group(g as usize)) } else { None }
        }
    }
}

fn last_starting_by_exec(segments: &[Segment], offset: usize) -> (r: Option<usize>)
    ensures
        match r {
            Some(i) => i == last_starting_by(segments@, offset) && i < segments@.len(),
            None => last_starting_by(segments@, offset) == -1,
        },
{
    let mut i: usize = segments.len();
    assert(segments@.take(i as int) =~= segments@);
    while i > 0
        invariant
            i <= segments@.len(),
            last_starting_by(segments@, offset) == last_starting_by(segments@.take(i as int), offset),
        decreases i,
    {
        let ghost pre = segments@.take(i as int);
        assert(pre.last() == segments@[i - 1]);
        if segments[i - 1].span.start <= offset {
            return Some(i - 1);
        }
        assert(pre.drop_last() =~= segments@.take(i - 1));
        i = i - 1;
    }
    None
}

fn first_holding_exec(ranges: &[(usize, usize)], index: usize) -> (r: Option<usize>)
    ensures
        match r {
            Some(k) => k == first_holding(ranges@, index as int) && k < ranges@.len()
                && ranges@[k as int].0 <= index <= ranges@[k as int].1,
            None => first_holding(ranges@, index as int) == -1,
        },
{
    let mut k: usize = 0;
    while k < ranges.len()
        invariant
            k <= ranges@.len(),
            first_holding(ranges@.take(k as int), index as int) == -1,
        decreases ranges@.len() - k,
    {
        assert(ranges@.take(k + 1).drop_last() =~= ranges@.take(k as int));
        if ranges[k].0 <= index && index <= ranges[k].1 {
            proof { lemma_first_holding_extends(ranges@, index as int, k as int); }
            return Some(k);
        }
        k = k + 1;
    }
    assert(ranges@.take(ranges@.len() as int) =~= ranges@);
    None
}

proof fn lemma_first_holding_extends(ranges: Seq<(usize, usize)>, index: int, k: int)
    requires
        0 <= k < ranges.len(),
        first_holding(ranges.take(k), index) == -1,
        ranges[k].0 <= index <= ranges[k].1,
    ensures
        first_holding(ranges, index) == k,
    decreases ranges.len() - k,
{
    if k + 1 == ranges.len() {
        assert(ranges.drop_last() =~= ranges.take(k));
    } else {
        assert(ranges.drop_last().take(k) =~= ranges.take(k));
        lemma_first_holding_extends(ranges.drop_last(), index, k);
    }
}

fn locate(segments: &[Segment], messages: &[(usize, usize)], groups: &[(usize, usize)], offset: usize) -> (r: Option<Scope>)
    ensures
        r == locate_spec(segments@, messages@, groups@, offset),
{
    let index = match last_starting_by_exec(segments, offset) {
        Some(i) => i,
        None => return None,
    };
    if let Some(m) = first_holding_exec(messages, index) {
        let start = messages[m].0;
        if index - start < 0xffff_ffffusize {
            return Some(Scope::Message { index: m, segment_position: (index - start + 1) as u32 });
        }
        return None;
    }
    match first_holding_exec(groups, index) {
        Some(g) => Some(Scope::Group(g)),
        None => None,
    }
}

// ── the CONTRL message ──────────────────────────────────────────────────────

/// A reported message: its index in the subject interchange, its envelope and
/// the verdict on it.
pub type MessageReport = (usize, MessageEnvelope, Action);

/// One UCF and the UCMs beneath it.
#[derive(Debug)]
pub struct GroupReport {
    /// UNG DE 0048.
    pub group_ref: String,
    /// UNG S006 DE 0040.
    pub app_sender: String,
    /// UNG S006 DE 0007.
    pub app_sender_qualifier: String,
    /// UNG S007 DE 0044.
    pub app_recipient: String,
    /// UNG S007 DE 0007.
    pub app_recipient_qualifier: String,
    /// The verdict on the group.
    pub action: Action,
    /// The code the UCF carries, if any.
    pub error: Option<SyntaxError>,
    /// The reported messages of the group.
    pub messages: Vec<MessageReport>,
}

/// A CONTRL message under construction.
#[derive(Debug)]
pub struct Contrl {
    control_ref: String,
    sender: String,
    sender_qualifier: String,
    recipient: String,
    recipient_qualifier: String,
    action: Action,
    interchange_error: Option<SyntaxError>,
    message_ref: Option<String>,
    messages: Vec<MessageReport>,
    groups: Vec<GroupReport>,
    findings: Vec<Finding>,
}

/// The content of a CONTRL message.
pub struct ContrlView {
    /// The subject's control reference (UNB DE 0020).
    pub control_ref: Seq<char>,
    /// The subject's sender.
    pub sender: Seq<char>,
    /// The subject's sender qualifier.
    pub sender_qualifier: Seq<char>,
    /// The subject's recipient.
    pub recipient: Seq<char>,
    /// The subject's recipient qualifier.
    pub recipient_qualifier: Seq<char>,
    /// The verdict on the interchange.
    pub action: Action,
    /// The code the UCI carries, if any.
    pub interchange_error: Option<SyntaxError>,
    /// The message reference chosen for the CONTRL itself, if any.
    pub message_ref: Option<Seq<char>>,
    /// The reported messages of an interchange without groups.
    pub messages: Seq<MessageReport>,
    /// The reported groups of an interchange with groups.
    pub groups: Seq<GroupReport>,
    /// The findings placed in messages and groups.
    pub findings: Seq<Finding>,
}

impl View for Contrl {
    type V = ContrlView;

    closed spec fn view(&self) -> ContrlView {
        ContrlView {
            control_ref: self.control_ref@,
            sender: self.sender@,
            sender_qualifier: self.sender_qualifier@,
            recipient: self.recipient@,
            recipient_qualifier: self.recipient_qualifier@,
            action: self.action,
            interchange_error: self.interchange_error,
            message_ref: match self.message_ref { Some(r) => Some(r@), None => None },
            messages: self.messages@,
            groups: self.groups@,
            findings: self.findings@,
        }
    }
}

/// A CONTRL about `ic` with verdict `a` and nothing else.
pub open spec fn base_view(ic: InterchangeEnvelope, a: Action) -> ContrlView {
    ContrlView {
        control_ref: ic.control_ref@,
        sender: ic.sender_id@,
        sender_qualifier: ic.sender_qualifier@,
        recipient: ic.recipient_id@,
        recipient_qualifier: ic.recipient_qualifier@,
        action: a,
        interchange_error: None,
        message_ref: None,
        messages: Seq::empty(),
        groups: Seq::empty(),
        findings: Seq::empty(),
    }
}

/// The message reference a CONTRL carries: the chosen one, else the
/// subject's control reference.
pub open spec fn reference_of(v: ContrlView) -> Seq<char> {
    match v.message_ref {
        Some(r) => r,
        None => v.control_ref,
    }
}

/// What the CONTRL holds after absorbing one issue (`rejects`: it is an
/// error rather than a warning): a finding where the issue can be placed
/// inside a message or group; otherwise, an error rejects the interchange,
/// and the first code Annex A permits on the UCI is recorded there.
pub open spec fn absorb(segs: Seq<Segment>, messages: Seq<(usize, usize)>, groups: Seq<(usize, usize)>,
    st: (Action, Option<SyntaxError>, Seq<Finding>), issue: ValidationIssue, rejects: bool) -> (Action, Option<SyntaxError>, Seq<Finding>) {
    let error = syntax_error_for_issue(issue);
    let located = match issue.span {
        Some(sp) => locate_spec(segs, messages, groups, sp.start),
        None => None,
    };
    match located {
        None => (
            if rejects { Action::Rejected } else { st.0 },
            if st.1 is None && annex_a_permits(error, ReportingLevel::Interchange) { Some(error) } else { st.1 },
            st.2,
        ),
        Some(scope) => (st.0, st.1, st.2.push(Finding {
            scope,
            element_position: match issue.element_index { Some(i) => Some((i + 2) as u32), None => None },
            component_position: match issue.component_index { Some(i) => Some((i + 1) as u32), None => None },
            rejects,
            error,
        })),
    }
}

/// The issues of a report as a CONTRL absorbs them: errors first, then warnings.
pub open spec fn issue_stream(report: ValidationReport) -> Seq<(ValidationIssue, bool)> {
    report.errors@.map_values(|i: ValidationIssue| (i, true)) + report.warnings@.map_values(|i: ValidationIssue| (i, false))
}

/// The CONTRL state after absorbing the issues in order.
pub open spec fn absorb_all(segs: Seq<Segment>, messages: Seq<(usize, usize)>, groups: Seq<(usize, usize)>,
    st: (Action, Option<SyntaxError>, Seq<Finding>), issues: Seq<(ValidationIssue, bool)>) -> (Action, Option<SyntaxError>, Seq<Finding>)
    decreases issues.len(),
{
    if issues.len() == 0 {
        st
    } else {
        let prev = absorb_all(segs, messages, groups, st, issues.drop_last());
        absorb(segs, messages, groups, prev, issues.last().0, issues.last().1)
    }
}

/// Some finding lies in the message at `index`.
pub open spec fn has_finding(fs: Seq<Finding>, index: int) -> bool {
    exists|k: int| 0 <= k < fs.len() && on_message(#[trigger] fs[k], index)
}

/// Some finding in the message at `index` rejects it.
pub open spec fn has_rejection(fs: Seq<Finding>, index: int) -> bool {
    exists|k: int| 0 <= k < fs.len() && on_message(#[trigger] fs[k], index) && fs[k].rejects
}

/// The messages of `ms`, numbered from `start`, that need a UCM: those with
/// a finding, rejected when a finding rejects them and acknowledged otherwise.
pub open spec fn reported(fs: Seq<Finding>, ms: Seq<MessageEnvelope>, start: int) -> Seq<MessageReport>
    decreases ms.len(),
{
    if ms.len() == 0 {
        Seq::empty()
    } else {
        let prev = reported(fs, ms.drop_last(), start);
        let index = start + ms.len() - 1;
        if has_finding(fs, index) {
            prev.push((index as usize, ms.last(), if has_rejection(fs, index) { Action::Rejected } else { Action::Acknowledged }))
        } else {
            prev
        }
    }
}

/// The number of messages in the groups.
pub open spec fn message_total(gs: Seq<FunctionalGroupEnvelope>) -> int
    decreases gs.len(),
{
    if gs.len() == 0 { 0 } else { message_total(gs.drop_last()) + gs.last().messages@.len() }
}

/// The first finding on the envelope of the group at `g`.
pub open spec fn group_fault(fs: Seq<Finding>, g: int) -> Option<Finding>
    decreases fs.len(),
{
    if fs.len() == 0 {
        None
    } else {
        match group_fault(fs.drop_last(), g) {
            Some(f) => Some(f),
            None => if fs.last().scope == Scope::Group(g as usize) { Some(fs.last()) } else { None },
        }
    }
}

/// The report on one group, if it needs a UCF: its envelope fault decides its
/// verdict, and a rejected group reports no message.
pub open spec fn group_report_is(r: GroupReport, g: FunctionalGroupEnvelope, fault: Option<Finding>, ms: Seq<MessageReport>) -> bool {
    &&& r.group_ref@ == g.group_ref@
    &&& r.app_sender@ == g.app_sender@
    &&& r.app_sender_qualifier@ == g.app_sender_qualifier@
    &&& r.app_recipient@ == g.app_recipient@
    &&& r.app_recipient_qualifier@ == g.app_recipient_qualifier@
    &&& r.action == (if fault matches Some(f) && f.rejects { Action::Rejected } else { Action::Acknowledged })
    &&& r.error == (match fault { Some(f) => if annex_a_permits(f.error, ReportingLevel::Group) { Some(f.error) } else { None }, None => None })
    &&& r.messages@ == ms
}

/// The messages a group reports.
pub open spec fn group_messages_reported(fs: Seq<Finding>, gs: Seq<FunctionalGroupEnvelope>, g: int) -> Seq<MessageReport> {
    let fault = group_fault(fs, g);
    if fault matches Some(f) && f.rejects { Seq::empty() } else { reported(fs, gs[g].messages@, message_total(gs.take(g))) }
}

/// The groups that need a UCF: those with an envelope fault or a reported message.
pub open spec fn reported_groups(fs: Seq<Finding>, gs: Seq<FunctionalGroupEnvelope>) -> Seq<int>
    decreases gs.len(),
{
    if gs.len() == 0 {
        Seq::empty()
    } else {
        let g = gs.len() - 1;
        let prev = reported_groups(fs, gs.drop_last());
        if group_fault(fs, g) is Some || group_messages_reported(fs, gs, g).len() > 0 { prev.push(g) } else { prev }
    }
}

/// The group reports of `rs` are those the findings call for.
pub open spec fn groups_reported(rs: Seq<GroupReport>, fs: Seq<Finding>, gs: Seq<FunctionalGroupEnvelope>) -> bool {
    let which = reported_groups(fs, gs);
    &&& rs.len() == which.len()
    &&& forall|k: int| 0 <= k < rs.len() ==> group_report_is(#[trigger] rs[k], gs[which[k]], group_fault(fs, which[k]),
        group_messages_reported(fs, gs, which[k]))
}

/// The CONTRL that reports `report` on `subject`, given as `segs`.
pub open spec fn from_report_is(v: ContrlView, subject: ValidatedInterchange, segs: Seq<Segment>, report: ValidationReport) -> bool {
    let messages = spans_between_spec(segs, "UNH"@, "UNT"@);
    let groups = spans_between_spec(segs, "UNG"@, "UNE"@);
    let st = absorb_all(segs, messages, groups, (Action::Acknowledged, None, Seq::empty()), issue_stream(report));
    let b = base_view(subject.interchange, st.0);
    &&& v.control_ref == b.control_ref
    &&& v.sender == b.sender
    &&& v.sender_qualifier == b.sender_qualifier
    &&& v.recipient == b.recipient
    &&& v.recipient_qualifier == b.recipient_qualifier
    &&& v.action == st.0
    &&& v.interchange_error == st.1
    &&& v.message_ref is None
    &&& if st.0 == Action::Rejected {
        v.findings.len() == 0 && v.messages.len() == 0 && v.groups.len() == 0
    } else {
        &&& v.findings == st.2
        &&& if subject.functional_groups@.len() == 0 {
            v.messages == reported(st.2, subject.messages@, 0) && v.groups.len() == 0
        } else {
            v.messages.len() == 0 && groups_reported(v.groups, st.2, subject.functional_groups@)
        }
    }
}

fn absorb_issue(
    segs: &[Segment],
    messages: &[(usize, usize)],
    groups: &[(usize, usize)],
    action: &mut Action,
    interchange_error: &mut Option<SyntaxError>,
    findings: &mut Vec<Finding>,
    issue: &ValidationIssue,
    rejects: bool,
)
    ensures
        (*final(action), *final(interchange_error), final(findings)@)
            == absorb(segs@, messages@, groups@, (*old(action), *old(interchange_error), old(findings)@), *issue, rejects),
{
    let error = SyntaxError::for_issue(issue);
    let located = match issue.span {
        Some(sp) => locate(segs, messages, groups, sp.start),
        None => None,
    };
    match located {
        None => {
            if rejects {
                *action = Action::Rejected;
            }
            if interchange_error.is_none() && error.permitted_at(ReportingLevel::Interchange) {
                *interchange_error = Some(error);
            }
        },
        Some(scope) => {
            findings.push(Finding {
                scope,
                element_position: match issue.element_index { Some(i) => Some(i as u32 + 2), None => None },
                component_position: match issue.component_index { Some(i) => Some(i as u32 + 1), None => None },
                rejects,
                error,
            });
        },
    }
}

fn reported_messages(findings: &Vec<Finding>, ms: &Vec<MessageEnvelope>, start: usize) -> (r: Vec<MessageReport>)
    requires
        start + ms@.len() <= usize::MAX,
    ensures
        r@ == reported(findings@, ms@, start as int),
{
    let mut out: Vec<MessageReport> = Vec::new();
    let mut i: usize = 0;
    while i < ms.len()
        invariant
            i <= ms@.len(),
            start + ms@.len() <= usize::MAX,
            out@ == reported(findings@, ms@.take(i as int), start as int),
        decreases ms@.len() - i,
    {
        let index = start + i;
        let mut has_finding = false;
        let mut rejected = false;
        let mut k: usize = 0;
        while k < findings.len()
            invariant
                k <= findings@.len(),
                has_finding == exists|j: int| 0 <= j < k && on_message(#[trigger] findings@[j], index as int),
                rejected == exists|j: int| 0 <= j < k && on_message(#[trigger] findings@[j], index as int) && findings@[j].rejects,
            decreases findings@.len() - k,
        {
            if findings[k].message_index() == Some(index) {
                has_finding = true;
                if findings[k].rejects {
                    rejected = true;
                }
            }
            k = k + 1;
        }
        proof {
            assert(ms@.take(i + 1).drop_last() =~= ms@.take(i as int));
            assert(ms@.take(i + 1).last() == ms@[i as int]);
        }
        if has_finding {
            let m = ms[i].clone();
            out.push((index, m, if rejected { Action::Rejected } else { Action::Acknowledged }));
        }
        i = i + 1;
    }
    proof { assert(ms@.take(ms@.len() as int) =~= ms@); }
    out
}

fn first_group_fault(findings: &Vec<Finding>, g: usize) -> (r: Option<Finding>)
    ensures
        r == group_fault(findings@, g as int),
{
    let mut k: usize = 0;
    while k < findings.len()
        invariant
            k <= findings@.len(),
            group_fault(findings@.take(k as int), g as int) is None,
        decreases findings@.len() - k,
    {
        proof { assert(findings@.take(k + 1).drop_last() =~= findings@.take(k as int)); }
        if findings[k].scope == Scope::Group(g) {
            proof { lemma_group_fault_found(findings@, g as int, k as int); }
            return Some(findings[k]);
        }
        k = k + 1;
    }
    proof { assert(findings@.take(findings@.len() as int) =~= findings@); }
    None
}

proof fn lemma_group_fault_found(fs: Seq<Finding>, g: int, k: int)
    requires
        0 <= k < fs.len(),
        group_fault(fs.take(k), g) is None,
        fs[k].scope == Scope::Group(g as usize),
    ensures
        group_fault(fs, g) == Some(fs[k]),
    decreases fs.len() - k,
{
    if k + 1 == fs.len() {
        assert(fs.drop_last() =~= fs.take(k));
    } else {
        assert(fs.drop_last().take(k) =~= fs.take(k));
        lemma_group_fault_found(fs.drop_last(), g, k);
    }
}

proof fn lemma_message_total_step(gs: Seq<FunctionalGroupEnvelope>, g: int)
    requires
        0 <= g < gs.len(),
    ensures
        message_total(gs.take(g + 1)) == message_total(gs.take(g)) + gs[g].messages@.len(),
        message_total(gs.take(g)) >= 0,
{
    assert(gs.take(g + 1).drop_last() =~= gs.take(g));
    lemma_message_total_nonneg(gs.take(g));
}

proof fn lemma_message_total_nonneg(gs: Seq<FunctionalGroupEnvelope>)
    ensures
        message_total(gs) >= 0,
    decreases gs.len(),
{
    if gs.len() > 0 { lemma_message_total_nonneg(gs.drop_last()); }
}

proof fn lemma_message_total_mono(gs: Seq<FunctionalGroupEnvelope>, g: int)
    requires
        0 <= g <= gs.len(),
    ensures
        message_total(gs.take(g)) <= message_total(gs),
    decreases gs.len() - g,
{
    if g < gs.len() {
        lemma_message_total_step(gs, g);
        lemma_message_total_mono(gs, g + 1);
    } else {
        assert(gs.take(g) =~= gs);
    }
}

fn build_group_reports(findings: &Vec<Finding>, groups: &Vec<FunctionalGroupEnvelope>) -> (r: Vec<GroupReport>)
    requires
        message_total(groups@) <= usize::MAX,
    ensures
        groups_reported(r@, findings@, groups@),
{
    let mut out: Vec<GroupReport> = Vec::new();
    let mut flat: usize = 0;
    let mut g: usize = 0;
    while g < groups.len()
        invariant
            g <= groups@.len(),
            message_total(groups@) <= usize::MAX,
            flat == message_total(groups@.take(g as int)),
            groups_reported(out@, findings@, groups@.take(g as int)),
        decreases groups@.len() - g,
    {
        let group = &groups[g];
        proof {
            lemma_message_total_step(groups@, g as int);
            lemma_message_total_mono(groups@, g + 1);
        }
        let start = flat;
        flat = flat + group.messages.len();
        let fault = first_group_fault(findings, g);
        let rejected = match fault { Some(f) => f.rejects, None => false };
        let messages = if rejected { Vec::new() } else { reported_messages(findings, &group.messages, start) };
        let ghost gs1 = groups@.take(g + 1);
        proof {
            assert(gs1.drop_last() =~= groups@.take(g as int));
            assert(gs1.take(g as int) =~= groups@.take(g as int));
            assert(gs1[g as int] == groups@[g as int]);
            assert(messages@ == group_messages_reported(findings@, gs1, g as int));
            assert forall|k: int| 0 <= k < g implies
                #[trigger] group_messages_reported(findings@, gs1, k) == group_messages_reported(findings@, groups@.take(g as int), k) by {
                assert(gs1.take(k) =~= groups@.take(g as int).take(k));
            }
        }
        if fault.is_some() || messages.len() > 0 {
            let error = match fault {
                Some(f) => if f.error.permitted_at(ReportingLevel::Group) { Some(f.error) } else { None },
                None => None,
            };
            out.push(GroupReport {
                group_ref: group.group_ref.clone(),
                app_sender: group.app_sender.clone(),
                app_sender_qualifier: group.app_sender_qualifier.clone(),
                app_recipient: group.app_recipient.clone(),
                app_recipient_qualifier: group.app_recipient_qualifier.clone(),
                action: if rejected { Action::Rejected } else { Action::Acknowledged },
                error,
                messages,
            });
        }
        proof {
            let which = reported_groups(findings@, gs1);
            let prev = reported_groups(findings@, groups@.take(g as int));
            assert(forall|k: int| 0 <= k < prev.len() ==> 0 <= #[trigger] prev[k] < g) by {
                lemma_reported_groups_range(findings@, groups@.take(g as int));
            }
            assert forall|k: int| 0 <= k < out@.len() implies group_report_is(#[trigger] out@[k], gs1[which[k]], group_fault(findings@, which[k]),
                group_messages_reported(findings@, gs1, which[k])) by {
                if k < prev.len() {
                    assert(gs1[prev[k]] == groups@.take(g as int)[prev[k]]);
                }
            }
        }
        g = g + 1;
    }
    proof { assert(groups@.take(groups@.len() as int) =~= groups@); }
    out
}

proof fn lemma_reported_groups_range(fs: Seq<Finding>, gs: Seq<FunctionalGroupEnvelope>)
    ensures
        forall|k: int| 0 <= k < reported_groups(fs, gs).len() ==> 0 <= #[trigger] reported_groups(fs, gs)[k] < gs.len(),
    decreases gs.len(),
{
    if gs.len() > 0 {
        let prev = reported_groups(fs, gs.drop_last());
        lemma_reported_groups_range(fs, gs.drop_last());
        let r = reported_groups(fs, gs);
        assert forall|k: int| 0 <= k < r.len() implies 0 <= #[trigger] r[k] < gs.len() by {
            if k < prev.len() { assert(r[k] == prev[k]); }
        }
    }
}

impl Contrl {
    fn base(interchange: &InterchangeEnvelope, action: Action) -> (r: Contrl)
        ensures
            r@ == base_view(*interchange, action),
    {
        let r = Contrl {
            control_ref: interchange.control_ref.clone(),
            sender: interchange.sender_id.clone(),
            sender_qualifier: interchange.sender_qualifier.clone(),
            recipient: interchange.recipient_id.clone(),
            recipient_qualifier: interchange.recipient_qualifier.clone(),
            action,
            interchange_error: None,
            message_ref: None,
            messages: Vec::new(),
            groups: Vec::new(),
            findings: Vec::new(),
        };
        assert(r@ =~= base_view(*interchange, action));
        r
    }

    /// The receipt (action code 8): the interchange arrived, nothing more.
    pub fn receipt(interchange: &InterchangeEnvelope) -> (r: Contrl)
        ensures
            r@ == base_view(*interchange, Action::Received),
    {
        Self::base(interchange, Action::Received)
    }

    /// The acknowledgement of a clean interchange (action code 7 on the UCI).
    pub fn acknowledgement(subject: &ValidatedInterchange) -> (r: Contrl)
        ensures
            r@ == base_view(subject.interchange, Action::Acknowledged),
    {
        Self::base(&subject.interchange, Action::Acknowledged)
    }

    /// The report of a validation run over `segments`, the subject as parsed:
    /// each issue lands at the lowest level that can locate it (a message's
    /// segment, else a group's envelope); an error that lands nowhere rejects
    /// the interchange, and then nothing below the UCI is reported.
    pub fn from_report(subject: &ValidatedInterchange, segments: &[Segment], report: &ValidationReport) -> (r: Contrl)
        requires
            message_total(subject.functional_groups@) <= usize::MAX,
        ensures
            from_report_is(r@, *subject, segments@, *report),
    {
        let messages = spans_between(segments, "UNH", "UNT");
        let groups = spans_between(segments, "UNG", "UNE");
        let mut action = Action::Acknowledged;
        let mut interchange_error: Option<SyntaxError> = None;
        let mut findings: Vec<Finding> = Vec::new();
        let ghost st0 = (Action::Acknowledged, None::<SyntaxError>, Seq::<Finding>::empty());
        let ghost stream = issue_stream(*report);
        let ghost ne = report.errors@.len();
        let mut i: usize = 0;
        while i < report.errors.len()
            invariant
                i <= report.errors@.len(),
                stream == issue_stream(*report),
                ne == report.errors@.len(),
                (action, interchange_error, findings@) == absorb_all(segments@, messages@, groups@, st0, stream.take(i as int)),
            decreases report.errors@.len() - i,
        {
            proof {
                assert(stream.take(i + 1).drop_last() =~= stream.take(i as int));
                assert(stream.take(i + 1).last() == (report.errors@[i as int], true));
            }
            absorb_issue(segments, messages.as_slice(), groups.as_slice(), &mut action, &mut interchange_error, &mut findings, &report.errors[i], true);
            i = i + 1;
        }
        let mut j: usize = 0;
        while j < report.warnings.len()
            invariant
                j <= report.warnings@.len(),
                stream == issue_stream(*report),
                ne == report.errors@.len(),
                (action, interchange_error, findings@) == absorb_all(segments@, messages@, groups@, st0, stream.take(ne + j)),
            decreases report.warnings@.len() - j,
        {
            proof {
                assert(stream.take(ne + j + 1).drop_last() =~= stream.take(ne + j));
                assert(stream.take(ne + j + 1).last() == (report.warnings@[j as int], false));
            }
            absorb_issue(segments, messages.as_slice(), groups.as_slice(), &mut action, &mut interchange_error, &mut findings, &report.warnings[j], false);
            j = j + 1;
        }
        proof { assert(stream.take((ne + report.warnings@.len()) as int) =~= stream); }
        let mut contrl = Self::base(&subject.interchange, action);
        contrl.interchange_error = interchange_error;
        if action == Action::Rejected {
            return contrl;
        }
        if subject.functional_groups.len() == 0 {
            let count = subject.messages.len();
            assert(count == subject.messages@.len());
            contrl.messages = reported_messages(&findings, &subject.messages, 0);
        } else {
            contrl.groups = build_group_reports(&findings, &subject.functional_groups);
        }
        contrl.findings = findings;
        contrl
    }

    /// This CONTRL with its own message reference (UNH DE 0062) set to `reference`.
    pub fn with_message_reference(self, reference: &str) -> (r: Contrl)
        ensures
            r@ == (ContrlView { message_ref: Some(reference@), ..self@ }),
    {
        let mut c = self;
        c.message_ref = Some(own(reference));
        c
    }

    /// This CONTRL with `error` on the UCI; a code Annex A does not permit at
    /// the interchange level leaves it unchanged.
    pub fn with_interchange_error(self, error: SyntaxError) -> (r: Contrl)
        ensures
            r@ == (if annex_a_permits(error, ReportingLevel::Interchange) {
                ContrlView { interchange_error: Some(error), ..self@ }
            } else {
                self@
            }),
    {
        let mut c = self;
        if error.permitted_at(ReportingLevel::Interchange) {
            c.interchange_error = Some(error);
        }
        c
    }

    /// The verdict on the interchange.
    pub fn action(&self) -> (r: Action)
        ensures
            r == self@.action,
    {
        self.action
    }

    /// The message reference the CONTRL carries.
    pub fn message_reference(&self) -> (r: &str)
        ensures
            r@ == reference_of(self@),
    {
        match &self.message_ref {
            Some(m) => m.as_str(),
            None => self.control_ref.as_str(),
        }
    }
}

// ── rendering ───────────────────────────────────────────────────────────────

/// The texts of an element.
pub open spec fn element_texts(e: Element) -> Seq<Seq<char>> {
    texts(component_items(e.components))
}

/// An S002/S003-shaped party: the identification, and the qualifier when it is not empty.
pub open spec fn party_texts(id: Seq<char>, qualifier: Seq<char>) -> Seq<Seq<char>> {
    if qualifier.len() == 0 { seq![id] } else { seq![id, qualifier] }
}

/// An optional code as trailing elements: one element, or none.
pub open spec fn code_elements(e: Option<SyntaxError>) -> Seq<Seq<Seq<char>>> {
    match e {
        Some(x) => seq![seq![syntax_code(x)]],
        None => Seq::empty(),
    }
}

/// The UNH of a CONTRL.
pub open spec fn unh_line(reference: Seq<char>) -> Line {
    ("UNH"@, seq![seq![reference], seq!["CONTRL"@, "4"@, "1"@, "UN"@]])
}

/// The UCI of a CONTRL.
pub open spec fn uci_line(v: ContrlView) -> Line {
    ("UCI"@, seq![seq![v.control_ref], party_texts(v.sender, v.sender_qualifier),
        party_texts(v.recipient, v.recipient_qualifier), seq![action_code(v.action)]] + code_elements(v.interchange_error))
}

/// The first finding in the message at `index` that only the UCM can carry.
pub open spec fn message_level_finding(fs: Seq<Finding>, index: int) -> Option<Finding>
    decreases fs.len(),
{
    if fs.len() == 0 {
        None
    } else {
        match message_level_finding(fs.drop_last(), index) {
            Some(f) => Some(f),
            None => if on_message(fs.last(), index) && finding_level(fs.last()) == ReportingLevel::Message {
                Some(fs.last())
            } else {
                None
            },
        }
    }
}

/// The UCM of a reported message.
pub open spec fn ucm_line(fs: Seq<Finding>, r: MessageReport) -> Line {
    let m = r.1;
    ("UCM"@, seq![seq![m.message_ref@], seq![m.message_type@, m.version@, m.release@, m.controlling_agency@],
        seq![action_code(r.2)]] + code_elements(match message_level_finding(fs, r.0 as int) { Some(f) => Some(f.error), None => None }))
}

/// The UCS of a segment position; it names the code when the segment is
/// the level that carries it.
pub open spec fn ucs_line(position: u32, level: ReportingLevel, e: SyntaxError) -> Line {
    ("UCS"@, seq![seq![decimal(position as nat)]] + (if level == ReportingLevel::Segment { seq![seq![syntax_code(e)]] } else { Seq::empty() }))
}

/// The UCD of a finding at the data element level.
pub open spec fn ucd_line(f: Finding) -> Line {
    ("UCD"@, seq![seq![syntax_code(f.error)],
        seq![decimal(f.element_position.unwrap() as nat)]
            + (match f.component_position { Some(c) => seq![decimal(c as nat)], None => Seq::empty() })])
}

/// The segment positions reported so far and the UCS/UCD segments for the
/// findings in the message at `index`: one UCS per position, and a UCD for
/// each finding at the data element level.
pub open spec fn seg_reports(fs: Seq<Finding>, index: int) -> (Seq<u32>, Seq<Line>)
    decreases fs.len(),
{
    if fs.len() == 0 {
        (Seq::empty(), Seq::empty())
    } else {
        let (pos, ls) = seg_reports(fs.drop_last(), index);
        let f = fs.last();
        let level = finding_level(f);
        match f.scope {
            Scope::Message { index: i, segment_position: p } => {
                if i != index || level == ReportingLevel::Message {
                    (pos, ls)
                } else {
                    let (pos2, ls2) = if pos.contains(p) { (pos, ls) } else { (pos.push(p), ls.push(ucs_line(p, level, f.error))) };
                    if level == ReportingLevel::DataElement { (pos2, ls2.push(ucd_line(f))) } else { (pos2, ls2) }
                }
            },
            Scope::Group(_) => (pos, ls),
        }
    }
}

/// The segments reporting one message: its UCM, then its UCS/UCD segments.
pub open spec fn message_lines(fs: Seq<Finding>, r: MessageReport) -> Seq<Line> {
    seq![ucm_line(fs, r)] + seg_reports(fs, r.0 as int).1
}

/// The segments reporting each message, in order.
pub open spec fn reports_lines(fs: Seq<Finding>, rs: Seq<MessageReport>) -> Seq<Line>
    decreases rs.len(),
{
    if rs.len() == 0 { Seq::empty() } else { reports_lines(fs, rs.drop_last()) + message_lines(fs, rs.last()) }
}

/// The UCF of a reported group.
pub open spec fn ucf_line(g: GroupReport) -> Line {
    ("UCF"@, seq![seq![g.group_ref@], party_texts(g.app_sender@, g.app_sender_qualifier@),
        party_texts(g.app_recipient@, g.app_recipient_qualifier@), seq![action_code(g.action)]] + code_elements(g.error))
}

/// The segments reporting each group, in order: its UCF, then its messages.
pub open spec fn groups_lines(fs: Seq<Finding>, gs: Seq<GroupReport>) -> Seq<Line>
    decreases gs.len(),
{
    if gs.len() == 0 {
        Seq::empty()
    } else {
        groups_lines(fs, gs.drop_last()) + (seq![ucf_line(gs.last())] + reports_lines(fs, gs.last().messages@))
    }
}

/// The segments of a CONTRL from UNH up to UNT, UNT excluded.
pub open spec fn body_lines(v: ContrlView) -> Seq<Line> {
    seq![unh_line(reference_of(v)), uci_line(v)] + reports_lines(v.findings, v.messages) + groups_lines(v.findings, v.groups)
}

/// The segments of a CONTRL, UNH through UNT, whose count UNT states.
pub open spec fn contrl_lines(v: ContrlView) -> Seq<Line> {
    let body = body_lines(v);
    body.push(("UNT"@, seq![seq![decimal((body.len() + 1) as nat)], seq![reference_of(v)]]))
}

/// No segment repeats an element.
pub open spec fn no_repeats(segs: Seq<Segment>) -> bool {
    forall|i: int| 0 <= i < segs.len() ==> !has_repeats(#[trigger] segs[i])
}

fn make_line(tag: &str, elements: Vec<Element>) -> (r: Segment)
    requires
        forall|i: int| 0 <= i < elements@.len() ==> (#[trigger] elements@[i]).repeats@.len() == 0,
    ensures
        line_of(r) == (tag@, elements@.map_values(|e: Element| element_texts(e))),
        !has_repeats(r),
{
    let r = Segment::new(tag, elements);
    assert(elements@.map_values(|e: Element| element_texts(e)) =~= r.elements@.map_values(|e: Element| texts(component_items(e.components))));
    r
}

fn party(id: &str, qualifier: &str) -> (r: Element)
    ensures
        element_texts(r) == party_texts(id@, qualifier@),
        r.repeats@.len() == 0,
{
    proof { reveal_strlit(""); }
    if str_eq(qualifier, "") {
        single(id)
    } else {
        assert(qualifier@.len() != 0) by {
            if qualifier@.len() == 0 { assert(qualifier@ =~= ""@); }
        }
        pair(id, qualifier)
    }
}

fn code_element_push(elements: &mut Vec<Element>, e: Option<SyntaxError>)
    ensures
        final(elements)@.map_values(|x: Element| element_texts(x))
            == old(elements)@.map_values(|x: Element| element_texts(x)) + code_elements(e),
        forall|i: int| 0 <= i < old(elements)@.len() ==> final(elements)@[i] == old(elements)@[i],
        forall|i: int| old(elements)@.len() <= i < final(elements)@.len() ==> (#[trigger] final(elements)@[i]).repeats@.len() == 0,
{
    let ghost before = elements@.map_values(|x: Element| element_texts(x));
    if let Some(x) = e {
        elements.push(single(x.code()));
        assert(elements@.map_values(|x: Element| element_texts(x)) =~= before + code_elements(e));
    } else {
        assert(elements@.map_values(|x: Element| element_texts(x)) =~= before + code_elements(e));
    }
}

fn contains_position(v: &Vec<u32>, p: u32) -> (r: bool)
    ensures
        r == v@.contains(p),
{
    let mut i: usize = 0;
    while i < v.len()
        invariant
            i <= v@.len(),
            forall|k: int| 0 <= k < i ==> v@[k] != p,
        decreases v@.len() - i,
    {
        if v[i] == p {
            return true;
        }
        i = i + 1;
    }
    false
}

fn append_lines(out: &mut Vec<Segment>, more: Vec<Segment>)
    requires
        no_repeats(more@),
        no_repeats(old(out)@),
    ensures
        final(out)@ == old(out)@ + more@,
        lines_of(final(out)@) == lines_of(old(out)@) + lines_of(more@),
        no_repeats(final(out)@),
{
    let ghost added = more@;
    let mut more = more;
    out.append(&mut more);
    assert(lines_of(out@) =~= lines_of(old(out)@) + lines_of(added));
}

fn find_message_level(findings: &Vec<Finding>, index: usize) -> (r: Option<Finding>)
    ensures
        r == message_level_finding(findings@, index as int),
{
    let mut k: usize = 0;
    while k < findings.len()
        invariant
            k <= findings@.len(),
            message_level_finding(findings@.take(k as int), index as int) is None,
        decreases findings@.len() - k,
    {
        proof { assert(findings@.take(k + 1).drop_last() =~= findings@.take(k as int)); }
        let f = findings[k];
        if f.message_index() == Some(index) && f.level() == ReportingLevel::Message {
            proof { lemma_message_level_found(findings@, index as int, k as int); }
            return Some(f);
        }
        k = k + 1;
    }
    proof { assert(findings@.take(findings@.len() as int) =~= findings@); }
    None
}

proof fn lemma_message_level_found(fs: Seq<Finding>, index: int, k: int)
    requires
        0 <= k < fs.len(),
        message_level_finding(fs.take(k), index) is None,
        on_message(fs[k], index) && finding_level(fs[k]) == ReportingLevel::Message,
    ensures
        message_level_finding(fs, index) == Some(fs[k]),
    decreases fs.len() - k,
{
    if k + 1 == fs.len() {
        assert(fs.drop_last() =~= fs.take(k));
    } else {
        assert(fs.drop_last().take(k) =~= fs.take(k));
        lemma_message_level_found(fs.drop_last(), index, k);
    }
}

fn segment_reports(findings: &Vec<Finding>, index: usize) -> (r: Vec<Segment>)
    ensures
        lines_of(r@) == seg_reports(findings@, index as int).1,
        no_repeats(r@),
{
    let mut out: Vec<Segment> = Vec::new();
    let mut positions: Vec<u32> = Vec::new();
    let mut k: usize = 0;
    while k < findings.len()
        invariant
            k <= findings@.len(),
            (positions@, lines_of(out@)) == seg_reports(findings@.take(k as int), index as int),
            no_repeats(out@),
        decreases findings@.len() - k,
    {
        proof { assert(findings@.take(k + 1).drop_last() =~= findings@.take(k as int)); }
        let f = findings[k];
        let level = f.level();
        if let Scope::Message { index: i, segment_position: p } = f.scope {
            if i == index && level != ReportingLevel::Message {
                if !contains_position(&positions, p) {
                    positions.push(p);
                    let text = decimal_string(p as u128);
                    let mut elements = vec![single(text.as_str())];
                    if level == ReportingLevel::Segment {
                        elements.push(single(f.error.code()));
                    }
                    let ucs = make_line("UCS", elements);
                    proof {
                        assert(elements@.map_values(|e: Element| element_texts(e)) =~= ucs_line(p, level, f.error).1);
                    }
                    let ghost before = lines_of(out@);
                    out.push(ucs);
                    proof { assert(lines_of(out@) =~= before.push(ucs_line(p, level, f.error))); }
                }
                if level == ReportingLevel::DataElement {
                    let ep = match f.element_position { Some(e) => e, None => 0 };
                    let ep_text = decimal_string(ep as u128);
                    let code = single(f.error.code());
                    assert(f.element_position is Some);
                    let ident = match f.component_position {
                        Some(c) => {
                            let c_text = decimal_string(c as u128);
                            let e2 = pair(ep_text.as_str(), c_text.as_str());
                            assert(element_texts(e2) =~= ucd_line(f).1[1]);
                            e2
                        },
                        None => {
                            let e1 = single(ep_text.as_str());
                            assert(element_texts(e1) =~= ucd_line(f).1[1]);
                            e1
                        },
                    };
                    let elements = vec![code, ident];
                    let ucd = make_line("UCD", elements);
                    proof {
                        assert(elements@.map_values(|e: Element| element_texts(e)) =~= ucd_line(f).1);
                    }
                    let ghost before = lines_of(out@);
                    out.push(ucd);
                    proof { assert(lines_of(out@) =~= before.push(ucd_line(f))); }
                }
            }
        }
        k = k + 1;
    }
    proof { assert(findings@.take(findings@.len() as int) =~= findings@); }
    out
}

fn message_report(findings: &Vec<Finding>, r: &MessageReport) -> (out: Vec<Segment>)
    ensures
        lines_of(out@) == message_lines(findings@, *r),
        no_repeats(out@),
{
    let m = &r.1;
    let mut elements = vec![
        single(m.message_ref.as_str()),
        quad(m.message_type.as_str(), m.version.as_str(), m.release.as_str(), m.controlling_agency.as_str()),
        single(r.2.code()),
    ];
    let code = match find_message_level(findings, r.0) { Some(f) => Some(f.error), None => None };
    code_element_push(&mut elements, code);
    let ucm = make_line("UCM", elements);
    proof { assert(elements@.map_values(|e: Element| element_texts(e)) =~= ucm_line(findings@, *r).1); }
    let mut out = vec![ucm];
    proof { assert(lines_of(out@) =~= seq![ucm_line(findings@, *r)]); }
    let rest = segment_reports(findings, r.0);
    append_lines(&mut out, rest);
    out
}

impl Contrl {
    /// The message as segments, UNH through UNT; UNT counts what was emitted.
    pub fn segments(&self) -> (r: Vec<Segment>)
        ensures
            lines_of(r@) == contrl_lines(self@),
            no_repeats(r@),
    {
        let reference = own(self.message_reference());
        let unh = make_line("UNH", vec![single(reference.as_str()), quad("CONTRL", "4", "1", "UN")]);
        let mut uci_elements = vec![
            single(self.control_ref.as_str()),
            party(self.sender.as_str(), self.sender_qualifier.as_str()),
            party(self.recipient.as_str(), self.recipient_qualifier.as_str()),
            single(self.action.code()),
        ];
        code_element_push(&mut uci_elements, self.interchange_error);
        let uci = make_line("UCI", uci_elements);
        proof {
            assert(uci_elements@.map_values(|e: Element| element_texts(e)) =~= uci_line(self@).1);
        }
        let mut out = vec![unh, uci];
        proof {
            assert(line_of(unh) =~= unh_line(reference_of(self@)));
            assert(lines_of(out@) =~= seq![unh_line(reference_of(self@)), uci_line(self@)]);
        }
        let ghost head = lines_of(out@);
        let mut i: usize = 0;
        while i < self.messages.len()
            invariant
                i <= self.messages@.len(),
                lines_of(out@) == head + reports_lines(self@.findings, self@.messages.take(i as int)),
                no_repeats(out@),
            decreases self.messages@.len() - i,
        {
            proof {
                assert(self@.messages.take(i + 1).drop_last() =~= self@.messages.take(i as int));
                assert(self@.messages.take(i + 1).last() == self.messages@[i as int]);
            }
            let more = message_report(&self.findings, &self.messages[i]);
            append_lines(&mut out, more);
            i = i + 1;
        }
        proof { assert(self@.messages.take(self@.messages.len() as int) =~= self@.messages); }
        let ghost mid = lines_of(out@);
        let mut g: usize = 0;
        while g < self.groups.len()
            invariant
                g <= self.groups@.len(),
                lines_of(out@) == mid + groups_lines(self@.findings, self@.groups.take(g as int)),
                no_repeats(out@),
            decreases self.groups@.len() - g,
        {
            let group = &self.groups[g];
            let mut ucf_elements = vec![
                single(group.group_ref.as_str()),
                party(group.app_sender.as_str(), group.app_sender_qualifier.as_str()),
                party(group.app_recipient.as_str(), group.app_recipient_qualifier.as_str()),
                single(group.action.code()),
            ];
            code_element_push(&mut ucf_elements, group.error);
            let ucf = make_line("UCF", ucf_elements);
            proof {
                assert(ucf_elements@.map_values(|e: Element| element_texts(e)) =~= ucf_line(*group).1);
            }
            let ghost before = lines_of(out@);
            out.push(ucf);
            proof { assert(lines_of(out@) =~= before.push(ucf_line(*group))); }
            let mut i: usize = 0;
            while i < group.messages.len()
                invariant
                    i <= group.messages@.len(),
                    lines_of(out@) == before.push(ucf_line(*group)) + reports_lines(self@.findings, group.messages@.take(i as int)),
                    no_repeats(out@),
                decreases group.messages@.len() - i,
            {
                proof {
                    assert(group.messages@.take(i + 1).drop_last() =~= group.messages@.take(i as int));
                    assert(group.messages@.take(i + 1).last() == group.messages@[i as int]);
                }
                let more = message_report(&self.findings, &group.messages[i]);
                append_lines(&mut out, more);
                i = i + 1;
            }
            proof {
                assert(group.messages@.take(group.messages@.len() as int) =~= group.messages@);
                assert(self@.groups.take(g + 1).drop_last() =~= self@.groups.take(g as int));
                assert(self@.groups.take(g + 1).last() == *group);
                assert(lines_of(out@) =~= mid + groups_lines(self@.findings, self@.groups.take(g + 1)));
            }
            g = g + 1;
        }
        proof {
            assert(self@.groups.take(self@.groups.len() as int) =~= self@.groups);
            assert(lines_of(out@) =~= body_lines(self@));
        }
        let count = decimal_string(out.len() as u128 + 1);
        let unt = make_line("UNT", vec![single(count.as_str()), single(reference.as_str())]);
        let ghost body = lines_of(out@);
        proof {
            assert(body.len() == out@.len());
            assert(line_of(unt) =~= contrl_lines(self@).last());
        }
        out.push(unt);
        proof { assert(lines_of(out@) =~= body.push(line_of(unt))); }
        out
    }
}

/// The bytes of a CONTRL, written with the default service characters in UTF-8.
pub open spec fn contrl_bytes(v: ContrlView) -> Seq<u8> {
    lines_bytes(default_ssa(), None, contrl_lines(v))
}

/// The bytes of a CONTRL in an interchange of its own, addressed back to the
/// subject's sender.
pub open spec fn contrl_interchange_bytes(v: ContrlView, id: Seq<char>, version: Seq<char>, date: Seq<char>,
    time: Seq<char>, reference: Seq<char>) -> Seq<u8> {
    line_bytes(default_ssa(), None, unb_line(id, version, v.recipient, v.sender, date, time, reference))
        + contrl_bytes(v)
        + line_bytes(default_ssa(), None, unz_line(1, reference))
}

impl Contrl {
    /// The message as bytes, without an interchange envelope.
    pub fn to_bytes(&self) -> (r: Result<Vec<u8>, EdifactError>)
        ensures
            r matches Ok(b) && b@ == contrl_bytes(self@),
    {
        let segs = self.segments();
        let r = segments_to_bytes(segs.as_slice());
        proof { lemma_all_by_texts(default_ssa(), None, segs@); }
        r
    }

    /// The message as text, without an interchange envelope; bytes that are
    /// not UTF-8 are `InvalidUtf8`.
    pub fn to_edifact_string(&self) -> (r: Result<String, EdifactError>)
        ensures
            match r {
                Ok(s) => valid_utf8(contrl_bytes(self@)) && s@ == decode_utf8(contrl_bytes(self@)),
                Err(e) => !valid_utf8(contrl_bytes(self@)) && e is InvalidUtf8,
            },
    {
        match self.to_bytes() {
            Ok(b) => match bytes_into_string(b) {
                Some(s) => Ok(s),
                None => Err(EdifactError::InvalidUtf8),
            },
            Err(e) => Err(e),
        }
    }

    /// The message in an interchange of its own: the header and trailer swap
    /// sender and recipient, as the reply goes back the way it came.
    pub fn to_interchange_bytes(
        &self,
        syntax_identifier: &str,
        syntax_version: &str,
        date: &str,
        time: &str,
        control_reference: &str,
    ) -> (r: Result<Vec<u8>, EdifactError>)
        ensures
            r matches Ok(b) && b@ == contrl_interchange_bytes(self@, syntax_identifier@, syntax_version@, date@, time@, control_reference@),
    {
        let mut w = Writer::new();
        match w.begin_interchange(syntax_identifier, syntax_version, self.recipient.as_str(), self.sender.as_str(), date, time, control_reference) {
            Ok(_) => {},
            Err(e) => {
                proof { assert(false); }
                return Err(e);
            },
        }
        let ghost head = w.bytes();
        let segs = self.segments();
        let mut i: usize = 0;
        while i < segs.len()
            invariant
                i <= segs@.len(),
                no_repeats(segs@),
                w.ssa_of() == default_ssa(),
                w.charset_of() is None,
                w.bytes() == head + render_all(default_ssa(), None, segs@.take(i as int)),
            decreases segs@.len() - i,
        {
            proof {
                assert(segs@.take(i + 1).drop_last() =~= segs@.take(i as int));
                assert(segment_encodable(None, segs@[i as int]));
                assert(!has_repeats(segs@[i as int]));
            }
            match w.write_segment(&segs[i]) {
                Ok(_) => {},
                Err(e) => {
                    proof { assert(false); }
                    return Err(e);
                },
            }
            proof { assert(w.bytes() =~= head + render_all(default_ssa(), None, segs@.take(i + 1))); }
            i = i + 1;
        }
        proof {
            assert(segs@.take(segs@.len() as int) =~= segs@);
            lemma_all_by_texts(default_ssa(), None, segs@);
        }
        let ghost body = w.bytes();
        match w.end_interchange(1, control_reference) {
            Ok(_) => {},
            Err(e) => {
                proof { assert(false); }
                return Err(e);
            },
        }
        proof {
            assert(w.bytes() =~= contrl_interchange_bytes(self@, syntax_identifier@, syntax_version@, date@, time@, control_reference@));
        }
        w.finish()
    }

    /// The message in an interchange of its own, as text; bytes that are not
    /// UTF-8 are `InvalidUtf8`.
    pub fn to_interchange_string(
        &self,
        syntax_identifier: &str,
        syntax_version: &str,
        date: &str,
        time: &str,
        control_reference: &str,
    ) -> (r: Result<String, EdifactError>)
        ensures
            ({
                let b = contrl_interchange_bytes(self@, syntax_identifier@, syntax_version@, date@, time@, control_reference@);
                match r {
                    Ok(s) => valid_utf8(b) && s@ == decode_utf8(b),
                    Err(e) => !valid_utf8(b) && e is InvalidUtf8,
                }
            }),
    {
        match self.to_interchange_bytes(syntax_identifier, syntax_version, date, time, control_reference) {
            Ok(b) => match bytes_into_string(b) {
                Some(s) => Ok(s),
                None => Err(EdifactError::InvalidUtf8),
            },
            Err(e) => Err(e),
        }
    }
}

// ── laws ────────────────────────────────────────────────────────────────────

/// A CONTRL opens with a UNH that carries the message reference and
/// `CONTRL:4:1:UN`, then the UCI, and ends with a UNT that counts exactly
/// the segments of the message, UNH and UNT included, and repeats the
/// message reference of the UNH.
pub proof fn law_unt_counts_the_message(v: ContrlView)
    ensures
        contrl_lines(v).len() >= 3,
        contrl_lines(v)[0] == unh_line(reference_of(v)),
        contrl_lines(v)[0].0 == "UNH"@,
        contrl_lines(v)[0].1 == seq![seq![reference_of(v)], seq!["CONTRL"@, "4"@, "1"@, "UN"@]],
        contrl_lines(v)[1] == uci_line(v),
        contrl_lines(v)[1].0 == "UCI"@,
        contrl_lines(v).last().0 == "UNT"@,
        contrl_lines(v).last().1 == seq![seq![decimal(contrl_lines(v).len() as nat)], seq![reference_of(v)]],
{
    let body = body_lines(v);
    assert(body[0] == unh_line(reference_of(v)));
    assert(body[1] == uci_line(v));
}

/// A report that rejects the interchange reports nothing below the UCI: the
/// message is UNH, UCI and UNT alone.
pub proof fn law_a_rejected_interchange_reports_nothing_below(v: ContrlView, subject: ValidatedInterchange,
    segs: Seq<Segment>, report: ValidationReport)
    requires
        from_report_is(v, subject, segs, report),
        v.action == Action::Rejected,
    ensures
        contrl_lines(v).len() == 3,
        contrl_lines(v)[1] == uci_line(v),
{
    assert(reports_lines(v.findings, v.messages) =~= Seq::<Line>::empty());
    assert(groups_lines(v.findings, v.groups) =~= Seq::<Line>::empty());
}

/// A report never uses both message reports (segment group 1) and group
/// reports (segment group 3).
pub proof fn law_messages_and_groups_are_exclusive(v: ContrlView, subject: ValidatedInterchange,
    segs: Seq<Segment>, report: ValidationReport)
    requires
        from_report_is(v, subject, segs, report),
    ensures
        v.messages.len() == 0 || v.groups.len() == 0,
{
}

/// Every reported message carries a finding, and its verdict is a rejection
/// exactly when one of its findings rejects: a clean message gets no UCM.
pub proof fn law_only_messages_with_findings_are_reported(fs: Seq<Finding>, ms: Seq<MessageEnvelope>, start: int, k: int)
    requires
        0 <= start,
        start + ms.len() <= usize::MAX,
        0 <= k < reported(fs, ms, start).len(),
    ensures
        has_finding(fs, reported(fs, ms, start)[k].0 as int),
        (reported(fs, ms, start)[k].2 == Action::Rejected) == has_rejection(fs, reported(fs, ms, start)[k].0 as int),
    decreases ms.len(),
{
    let prev = reported(fs, ms.drop_last(), start);
    if k < prev.len() {
        law_only_messages_with_findings_are_reported(fs, ms.drop_last(), start, k);
    }
}


/// Absorbing issues one list after another is absorbing them all in turn.
proof fn lemma_absorb_all_concat(segs: Seq<Segment>, messages: Seq<(usize, usize)>, groups: Seq<(usize, usize)>,
    st: (Action, Option<SyntaxError>, Seq<Finding>), a: Seq<(ValidationIssue, bool)>, b: Seq<(ValidationIssue, bool)>)
    ensures
        absorb_all(segs, messages, groups, st, a + b)
            == absorb_all(segs, messages, groups, absorb_all(segs, messages, groups, st, a), b),
    decreases b.len(),
{
    if b.len() > 0 {
        assert((a + b).drop_last() =~= a + b.drop_last());
        assert((a + b).last() == b.last());
        lemma_absorb_all_concat(segs, messages, groups, st, a, b.drop_last());
    } else {
        assert(a + b =~= a);
    }
}

/// Issues that do not reject leave the verdict as it was, and every finding
/// they add annotates rather than rejects.
proof fn lemma_absorb_quiet(segs: Seq<Segment>, messages: Seq<(usize, usize)>, groups: Seq<(usize, usize)>,
    st: (Action, Option<SyntaxError>, Seq<Finding>), issues: Seq<(ValidationIssue, bool)>)
    requires
        forall|k: int| 0 <= k < issues.len() ==> !(#[trigger] issues[k]).1,
    ensures
        absorb_all(segs, messages, groups, st, issues).0 == st.0,
        absorb_all(segs, messages, groups, st, issues).2.len() >= st.2.len(),
        forall|k: int| 0 <= k < st.2.len() ==> #[trigger] absorb_all(segs, messages, groups, st, issues).2[k] == st.2[k],
        forall|k: int| st.2.len() <= k < absorb_all(segs, messages, groups, st, issues).2.len()
            ==> !(#[trigger] absorb_all(segs, messages, groups, st, issues).2[k]).rejects,
    decreases issues.len(),
{
    if issues.len() > 0 {
        assert(!issues[issues.len() - 1].1);
        lemma_absorb_quiet(segs, messages, groups, st, issues.drop_last());
    }
}

/// Warnings never reject: the verdict on the interchange depends on the
/// errors of the report alone (two reports with the same errors and any
/// warnings get the same verdict), a report without errors is acknowledged,
/// and no finding made from a warning rejects its level.
pub proof fn law_warnings_never_reject(v1: ContrlView, v2: ContrlView, subject: ValidatedInterchange, segs: Seq<Segment>,
    r1: ValidationReport, r2: ValidationReport)
    requires
        from_report_is(v1, subject, segs, r1),
        from_report_is(v2, subject, segs, r2),
        r1.errors@ == r2.errors@,
    ensures
        v1.action == v2.action,
        r1.errors@.len() == 0 ==> v1.action == Action::Acknowledged,
        r1.errors@.len() == 0 ==> forall|k: int| 0 <= k < v1.findings.len() ==> !(#[trigger] v1.findings[k]).rejects,
        r2.warnings@.len() == 0 && v1.action != Action::Rejected ==> {
            &&& v2.findings.len() <= v1.findings.len()
            &&& forall|k: int| 0 <= k < v2.findings.len() ==> #[trigger] v1.findings[k] == v2.findings[k]
            &&& forall|k: int| v2.findings.len() <= k < v1.findings.len() ==> !(#[trigger] v1.findings[k]).rejects
        },
{
    let messages = spans_between_spec(segs, "UNH"@, "UNT"@);
    let groups = spans_between_spec(segs, "UNG"@, "UNE"@);
    let st0 = (Action::Acknowledged, None::<SyntaxError>, Seq::<Finding>::empty());
    let e1 = r1.errors@.map_values(|i: ValidationIssue| (i, true));
    let w1 = r1.warnings@.map_values(|i: ValidationIssue| (i, false));
    let w2 = r2.warnings@.map_values(|i: ValidationIssue| (i, false));
    assert(e1 =~= r2.errors@.map_values(|i: ValidationIssue| (i, true)));
    lemma_absorb_all_concat(segs, messages, groups, st0, e1, w1);
    lemma_absorb_all_concat(segs, messages, groups, st0, e1, w2);
    let mid = absorb_all(segs, messages, groups, st0, e1);
    lemma_absorb_quiet(segs, messages, groups, mid, w1);
    lemma_absorb_quiet(segs, messages, groups, mid, w2);
    if r1.errors@.len() == 0 {
        assert(e1 =~= Seq::<(ValidationIssue, bool)>::empty());
        assert(mid == st0);
    }
    if r2.warnings@.len() == 0 {
        assert(w2 =~= Seq::<(ValidationIssue, bool)>::empty());
        assert(e1 + w2 =~= e1);
    }
}


/// Once rejected, absorbing more issues keeps the interchange rejected.
proof fn lemma_absorb_keeps_rejection(segs: Seq<Segment>, messages: Seq<(usize, usize)>, groups: Seq<(usize, usize)>,
    st: (Action, Option<SyntaxError>, Seq<Finding>), issues: Seq<(ValidationIssue, bool)>)
    requires
        st.0 == Action::Rejected,
    ensures
        absorb_all(segs, messages, groups, st, issues).0 == Action::Rejected,
    decreases issues.len(),
{
    if issues.len() > 0 {
        lemma_absorb_keeps_rejection(segs, messages, groups, st, issues.drop_last());
    }
}

/// An error that points nowhere in the interchange rejects it: where some
/// error of the report carries no position, the interchange is rejected and
/// nothing below it is reported.
pub proof fn law_unlocated_error_rejects(v: ContrlView, subject: ValidatedInterchange, segs: Seq<Segment>,
    report: ValidationReport, i: int)
    requires
        from_report_is(v, subject, segs, report),
        0 <= i < report.errors@.len(),
        report.errors@[i].span is None,
    ensures
        v.action == Action::Rejected,
        v.findings.len() == 0,
        v.messages.len() == 0,
        v.groups.len() == 0,
{
    let messages = spans_between_spec(segs, "UNH"@, "UNT"@);
    let groups = spans_between_spec(segs, "UNG"@, "UNE"@);
    let st0 = (Action::Acknowledged, None::<SyntaxError>, Seq::<Finding>::empty());
    let stream = issue_stream(report);
    let a = stream.take(i + 1);
    let b = stream.skip(i + 1);
    assert(stream =~= a + b);
    assert(a.last() == (report.errors@[i], true));
    assert(a.drop_last() =~= stream.take(i));
    lemma_absorb_all_concat(segs, messages, groups, st0, a, b);
    lemma_absorb_keeps_rejection(segs, messages, groups, absorb_all(segs, messages, groups, st0, a), b);
}

} // verus!
