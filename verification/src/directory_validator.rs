//! UN/EDIFACT directory definitions: segment layouts with their data
//! elements, components, statuses and representations; resolution of data
//! element identifiers to positions; and the audit of a layout against a
//! corpus of real segments.

use vstd::prelude::*;

use crate::error::{EdifactError, Insignificant};
use crate::model::{component_items, occurrences, seg_component, span_text, Element, Segment, Span};
use crate::report::{opt_view, ValidationIssue, ValidationSeverity};
use crate::text::{decimal, decimal_string, own, parse_u32, parse_u32_spec, str_eq, string_push_str, to_chars};

verus! {

/// Mandatory/conditional status of a data element within a segment.
#[derive(Debug, Clone, Copy, PartialEq, Eq, Structural)]
#[non_exhaustive]
pub enum Status {
    /// The element must be present.
    Mandatory,
    /// The element is optional unless other rules require it.
    Conditional,
}

/// The character class of a value: `a`, `n` or `an`.
#[derive(Debug, Clone, Copy, PartialEq, Eq, Structural, Hash)]
#[non_exhaustive]
pub enum ReprKind {
    /// `a`: no digits.
    Alphabetic,
    /// `n`: the numeric forms of ISO 9735-1 §10.
    Numeric,
    /// `an`: any character of the repertoire.
    Alphanumeric,
}

/// The directory's abbreviation of a class.
pub open spec fn kind_text(k: ReprKind) -> Seq<char> {
    match k {
        ReprKind::Alphabetic => "a"@,
        ReprKind::Numeric => "n"@,
        ReprKind::Alphanumeric => "an"@,
    }
}

impl ReprKind {
    /// The directory's abbreviation of this class.
    pub fn as_str(self) -> (r: &'static str)
        ensures
            r@ == kind_text(self),
    {
        match self {
            ReprKind::Alphabetic => "a",
            ReprKind::Numeric => "n",
            ReprKind::Alphanumeric => "an",
        }
    }
}

/// A data element's representation: `an..35`, `n8`, `a1` and the like.
#[derive(Debug, Clone, Copy, PartialEq, Eq, Structural, Hash)]
pub struct Repr {
    kind: ReprKind,
    max: u16,
    fixed: bool,
}

/// What a representation states: its class, its maximum length and whether
/// the length is fixed.
pub struct ReprView {
    /// The character class.
    pub kind: ReprKind,
    /// The maximum number of characters.
    pub max: u16,
    /// The length is fixed.
    pub fixed: bool,
}

impl View for Repr {
    type V = ReprView;

    closed spec fn view(&self) -> ReprView {
        ReprView { kind: self.kind, max: self.max, fixed: self.fixed }
    }
}

/// The position of the first `E` or `e`, or the length when there is none.
pub open spec fn exponent_at(s: Seq<char>) -> int
    decreases s.len(),
{
    if s.len() == 0 {
        0
    } else if exponent_at(s.drop_last()) < s.len() - 1 {
        exponent_at(s.drop_last())
    } else if s.last() == 'E' || s.last() == 'e' {
        s.len() - 1
    } else {
        s.len() as int
    }
}

/// The number of characters that are not `-`, `.` or `,`.
pub open spec fn counted(s: Seq<char>) -> nat
    decreases s.len(),
{
    if s.len() == 0 {
        0
    } else {
        counted(s.drop_last()) + (if s.last() == '-' || s.last() == '.' || s.last() == ',' { 0nat } else { 1nat })
    }
}

/// Whether a character is an ASCII digit.
pub open spec fn is_digit(c: char) -> bool {
    '0' <= c <= '9'
}

/// Every character is an ASCII digit.
pub open spec fn all_digits(s: Seq<char>) -> bool {
    forall|i: int| 0 <= i < s.len() ==> is_digit(#[trigger] s[i])
}

/// The text without one leading minus sign.
pub open spec fn unsigned_part(s: Seq<char>) -> Seq<char> {
    if s.len() > 0 && s[0] == '-' { s.drop_first() } else { s }
}

/// The position of the first `.` or `,`, or the length when there is none.
pub open spec fn mark_at(s: Seq<char>) -> int
    decreases s.len(),
{
    if s.len() == 0 {
        0
    } else if mark_at(s.drop_last()) < s.len() - 1 {
        mark_at(s.drop_last())
    } else if s.last() == '.' || s.last() == ',' {
        s.len() - 1
    } else {
        s.len() as int
    }
}

/// One of the numeric forms ISO 9735-1 §10 admits: an optional minus sign,
/// digits with at most one decimal mark followed by at least one digit, and
/// an optional exponent of digits with an optional minus sign.
pub open spec fn iso6093_numeric(s: Seq<char>) -> bool {
    let x = exponent_at(s);
    let mantissa = s.take(x);
    let exponent_ok = x == s.len() || {
        let digits = unsigned_part(s.skip(x + 1));
        digits.len() > 0 && all_digits(digits)
    };
    let digits = unsigned_part(mantissa);
    let m = mark_at(digits);
    exponent_ok && digits.len() > 0 && if m < digits.len() {
        digits.skip(m + 1).len() > 0 && all_digits(digits.skip(m + 1)) && all_digits(digits.take(m))
    } else {
        all_digits(digits)
    }
}

/// The length a value counts for under a representation: for a numeric
/// value, the characters before the exponent other than sign and decimal
/// mark; otherwise every character.
pub open spec fn measure_spec(r: ReprView, s: Seq<char>) -> nat {
    match r.kind {
        ReprKind::Numeric => counted(s.take(exponent_at(s))),
        _ => s.len(),
    }
}

/// Whether every character of a value belongs to the representation's class.
pub open spec fn permits_spec(r: ReprView, s: Seq<char>) -> bool {
    match r.kind {
        ReprKind::Alphanumeric => true,
        ReprKind::Alphabetic => forall|i: int| 0 <= i < s.len() ==> !is_digit(#[trigger] s[i]),
        ReprKind::Numeric => iso6093_numeric(s),
    }
}

/// The shortest length a representation admits: its maximum when fixed, else 1.
pub open spec fn min_length_spec(r: ReprView) -> u16 {
    if r.fixed { r.max } else { 1 }
}

/// A representation as the directory writes it: `an..35`, `n8`.
pub open spec fn repr_text(r: ReprView) -> Seq<char> {
    kind_text(r.kind) + (if r.fixed { Seq::<char>::empty() } else { ".."@ }) + decimal(r.max as nat)
}

proof fn lemma_exponent_at_range(s: Seq<char>)
    ensures
        0 <= exponent_at(s) <= s.len(),
        exponent_at(s) < s.len() ==> (s[exponent_at(s)] == 'E' || s[exponent_at(s)] == 'e'),
        forall|i: int| 0 <= i < exponent_at(s) ==> s[i] != 'E' && s[i] != 'e',
    decreases s.len(),
{
    if s.len() > 0 {
        lemma_exponent_at_range(s.drop_last());
        assert forall|i: int| 0 <= i < exponent_at(s) implies s[i] != 'E' && s[i] != 'e' by {
            if i < s.len() - 1 { assert(s.drop_last()[i] == s[i]); }
        }
    }
}

proof fn lemma_mark_at_range(s: Seq<char>)
    ensures
        0 <= mark_at(s) <= s.len(),
        mark_at(s) < s.len() ==> (s[mark_at(s)] == '.' || s[mark_at(s)] == ','),
        forall|i: int| 0 <= i < mark_at(s) ==> s[i] != '.' && s[i] != ',',
    decreases s.len(),
{
    if s.len() > 0 {
        lemma_mark_at_range(s.drop_last());
        assert forall|i: int| 0 <= i < mark_at(s) implies s[i] != '.' && s[i] != ',' by {
            if i < s.len() - 1 { assert(s.drop_last()[i] == s[i]); }
        }
    }
}

fn find_exponent(cs: &Vec<char>) -> (r: usize)
    ensures
        r == exponent_at(cs@),
{
    let mut i: usize = 0;
    while i < cs.len()
        invariant
            i <= cs@.len(),
            exponent_at(cs@.take(i as int)) == i,
        decreases cs@.len() - i,
    {
        proof { assert(cs@.take(i + 1).drop_last() =~= cs@.take(i as int)); }
        if cs[i] == 'E' || cs[i] == 'e' {
            proof { lemma_prefix_exponent(cs@, i as int); }
            return i;
        }
        i = i + 1;
    }
    proof { assert(cs@.take(cs@.len() as int) =~= cs@); }
    i
}

proof fn lemma_prefix_exponent(s: Seq<char>, i: int)
    requires
        0 <= i < s.len(),
        exponent_at(s.take(i)) == i,
        s[i] == 'E' || s[i] == 'e',
    ensures
        exponent_at(s) == i,
    decreases s.len() - i,
{
    if i + 1 == s.len() {
        assert(s.drop_last() =~= s.take(i));
    } else {
        assert(s.drop_last().take(i) =~= s.take(i));
        lemma_prefix_exponent(s.drop_last(), i);
    }
}

fn find_mark(cs: &Vec<char>, from: usize, to: usize) -> (r: usize)
    requires
        from <= to <= cs@.len(),
    ensures
        r - from == mark_at(cs@.subrange(from as int, to as int)),
        from <= r <= to,
{
    let ghost t = cs@.subrange(from as int, to as int);
    let mut i: usize = from;
    while i < to
        invariant
            from <= i <= to <= cs@.len(),
            t == cs@.subrange(from as int, to as int),
            mark_at(t.take(i - from)) == i - from,
        decreases to - i,
    {
        proof {
            assert(t.take(i - from + 1).drop_last() =~= t.take(i - from));
            assert(t[i - from] == cs@[i as int]);
        }
        if cs[i] == '.' || cs[i] == ',' {
            proof { lemma_prefix_mark(t, i - from); }
            return i;
        }
        i = i + 1;
    }
    proof { assert(t.take(t.len() as int) =~= t); }
    i
}

proof fn lemma_prefix_mark(s: Seq<char>, i: int)
    requires
        0 <= i < s.len(),
        mark_at(s.take(i)) == i,
        s[i] == '.' || s[i] == ',',
    ensures
        mark_at(s) == i,
    decreases s.len() - i,
{
    if i + 1 == s.len() {
        assert(s.drop_last() =~= s.take(i));
    } else {
        assert(s.drop_last().take(i) =~= s.take(i));
        lemma_prefix_mark(s.drop_last(), i);
    }
}

fn digits_between(cs: &Vec<char>, from: usize, to: usize) -> (r: bool)
    requires
        from <= to <= cs@.len(),
    ensures
        r == all_digits(cs@.subrange(from as int, to as int)),
{
    let mut i: usize = from;
    while i < to
        invariant
            from <= i <= to <= cs@.len(),
            forall|k: int| from <= k < i ==> is_digit(#[trigger] cs@[k]),
        decreases to - i,
    {
        if !('0' <= cs[i] && cs[i] <= '9') {
            proof { assert(!is_digit(cs@.subrange(from as int, to as int)[i - from])); }
            return false;
        }
        i = i + 1;
    }
    proof {
        assert forall|k: int| 0 <= k < to - from implies is_digit(#[trigger] cs@.subrange(from as int, to as int)[k]) by {
            assert(cs@.subrange(from as int, to as int)[k] == cs@[from + k]);
        }
    }
    true
}

fn is_iso6093_numeric(value: &str) -> (r: bool)
    ensures
        r == iso6093_numeric(value@),
{
    let cs = to_chars(value);
    let n = cs.len();
    let x = find_exponent(&cs);
    proof { lemma_exponent_at_range(cs@); }
    if x < n {
        let start = if x + 1 < n && cs[x + 1] == '-' { x + 2 } else { x + 1 };
        proof {
            assert(cs@.subrange(start as int, n as int) =~= unsigned_part(cs@.skip(x + 1)));
        }
        if start >= n || !digits_between(&cs, start, n) {
            return false;
        }
    }
    let from = if x > 0 && cs[0] == '-' { 1usize } else { 0usize };
    let ghost digits = unsigned_part(cs@.take(x as int));
    proof { assert(cs@.subrange(from as int, x as int) =~= digits); }
    if from >= x {
        return false;
    }
    let m = find_mark(&cs, from, x);
    proof {
        lemma_mark_at_range(digits);
        assert(mark_at(digits) == m - from);
    }
    if m < x {
        proof {
            assert(cs@.subrange(m + 1, x as int) =~= digits.skip(m - from + 1));
            assert(cs@.subrange(from as int, m as int) =~= digits.take(m - from));
        }
        m + 1 < x && digits_between(&cs, m + 1, x) && digits_between(&cs, from, m)
    } else {
        digits_between(&cs, from, x)
    }
}

impl Repr {
    /// `an{max}`: exactly `max` alphanumeric characters.
    pub fn an(max: u16) -> (r: Repr)
        ensures
            r@ == (ReprView { kind: ReprKind::Alphanumeric, max, fixed: true }),
    {
        Repr { kind: ReprKind::Alphanumeric, max, fixed: true }
    }

    /// `an..{max}`: up to `max` alphanumeric characters.
    pub fn an_up_to(max: u16) -> (r: Repr)
        ensures
            r@ == (ReprView { kind: ReprKind::Alphanumeric, max, fixed: false }),
    {
        Repr { kind: ReprKind::Alphanumeric, max, fixed: false }
    }

    /// `a{max}`: exactly `max` alphabetic characters.
    pub fn a(max: u16) -> (r: Repr)
        ensures
            r@ == (ReprView { kind: ReprKind::Alphabetic, max, fixed: true }),
    {
        Repr { kind: ReprKind::Alphabetic, max, fixed: true }
    }

    /// `a..{max}`: up to `max` alphabetic characters.
    pub fn a_up_to(max: u16) -> (r: Repr)
        ensures
            r@ == (ReprView { kind: ReprKind::Alphabetic, max, fixed: false }),
    {
        Repr { kind: ReprKind::Alphabetic, max, fixed: false }
    }

    /// `n{max}`: exactly `max` numeric characters.
    pub fn n(max: u16) -> (r: Repr)
        ensures
            r@ == (ReprView { kind: ReprKind::Numeric, max, fixed: true }),
    {
        Repr { kind: ReprKind::Numeric, max, fixed: true }
    }

    /// `n..{max}`: up to `max` numeric characters.
    pub fn n_up_to(max: u16) -> (r: Repr)
        ensures
            r@ == (ReprView { kind: ReprKind::Numeric, max, fixed: false }),
    {
        Repr { kind: ReprKind::Numeric, max, fixed: false }
    }

    /// The character class.
    pub fn kind(self) -> (r: ReprKind)
        ensures
            r == self@.kind,
    {
        self.kind
    }

    /// The maximum number of characters.
    pub fn max_length(self) -> (r: u16)
        ensures
            r == self@.max,
    {
        self.max
    }

    /// The minimum number of characters: the maximum when fixed, else 1.
    pub fn min_length(self) -> (r: u16)
        ensures
            r == min_length_spec(self@),
    {
        if self.fixed { self.max } else { 1 }
    }

    /// The length is fixed (`an3`) rather than variable (`an..3`).
    pub fn is_fixed(self) -> (r: bool)
        ensures
            r == self@.fixed,
    {
        self.fixed
    }

    /// The number of characters `value` counts for against the length limit.
    pub fn measure(self, value: &str) -> (r: usize)
        ensures
            r == measure_spec(self@, value@),
    {
        let cs = to_chars(value);
        match self.kind {
            ReprKind::Numeric => {
                let x = find_exponent(&cs);
                proof { lemma_exponent_at_range(cs@); }
                let mut count: usize = 0;
                let mut i: usize = 0;
                while i < x
                    invariant
                        i <= x <= cs@.len(),
                        count == counted(cs@.take(i as int)),
                        count <= i,
                    decreases x - i,
                {
                    proof { assert(cs@.take(i + 1).drop_last() =~= cs@.take(i as int)); }
                    if !(cs[i] == '-' || cs[i] == '.' || cs[i] == ',') {
                        count = count + 1;
                    }
                    i = i + 1;
                }
                count
            },
            _ => cs.len(),
        }
    }

    /// Whether every character of `value` belongs to this class.
    pub fn permits_characters(self, value: &str) -> (r: bool)
        ensures
            r == permits_spec(self@, value@),
    {
        match self.kind {
            ReprKind::Alphanumeric => true,
            ReprKind::Alphabetic => {
                let cs = to_chars(value);
                let mut i: usize = 0;
                while i < cs.len()
                    invariant
                        i <= cs@.len(),
                        cs@ == value@,
                        self.kind == ReprKind::Alphabetic,
                        forall|k: int| 0 <= k < i ==> !is_digit(#[trigger] cs@[k]),
                    decreases cs@.len() - i,
                {
                    if '0' <= cs[i] && cs[i] <= '9' {
                        assert(is_digit(value@[i as int]));
                        return false;
                    }
                    i = i + 1;
                }
                true
            },
            ReprKind::Numeric => is_iso6093_numeric(value),
        }
    }

    /// The representation as the directory writes it.
    pub fn to_string(self) -> (r: String)
        ensures
            r@ == repr_text(self@),
    {
        let mut out = own(self.kind.as_str());
        if !self.fixed {
            string_push_str(&mut out, "..");
        }
        let n = decimal_string(self.max as u128);
        string_push_str(&mut out, n.as_str());
        proof {
            if self.fixed {
                assert(out@ =~= repr_text(self@));
            }
        }
        out
    }
}

/// What a value must satisfy at one position: one representation, or two
/// where syntax versions disagree and the version is not known.
#[derive(Debug, Clone, Copy, PartialEq, Eq, Structural)]
pub struct ReprRequirement {
    /// The representation that applies.
    pub primary: Repr,
    /// Another one accepted as well.
    pub alternative: Option<Repr>,
}

/// Whether a length fits a representation.
pub open spec fn fits_spec(r: ReprView, s: Seq<char>) -> bool {
    min_length_spec(r) <= measure_spec(r, s) <= r.max
}

impl ReprRequirement {
    /// Whether `value` has the class of an accepted representation.
    pub fn permits_characters(&self, value: &str) -> (r: bool)
        ensures
            r == (permits_spec(self.primary@, value@) || (self.alternative matches Some(a) && permits_spec(a@, value@))),
    {
        self.primary.permits_characters(value) || match self.alternative {
            Some(a) => a.permits_characters(value),
            None => false,
        }
    }

    /// Whether `value`'s length fits an accepted representation.
    pub fn permits_length(&self, value: &str) -> (r: bool)
        ensures
            r == (fits_spec(self.primary@, value@) || (self.alternative matches Some(a) && fits_spec(a@, value@))),
    {
        let p = self.primary.measure(value);
        let fits_primary = p >= self.primary.min_length() as usize && p <= self.primary.max_length() as usize;
        fits_primary || match self.alternative {
            Some(a) => {
                let m = a.measure(value);
                m >= a.min_length() as usize && m <= a.max_length() as usize
            },
            None => false,
        }
    }

    /// Whether `value` is shorter than every accepted representation allows.
    pub fn is_too_short(&self, value: &str) -> (r: bool)
        ensures
            r == (measure_spec(self.primary@, value@) < min_length_spec(self.primary@)
                && match self.alternative { Some(a) => measure_spec(a@, value@) < min_length_spec(a@), None => true }),
    {
        let short_primary = self.primary.measure(value) < self.primary.min_length() as usize;
        short_primary && match self.alternative {
            Some(a) => a.measure(value) < a.min_length() as usize,
            None => true,
        }
    }

    /// The length under the primary representation.
    pub fn measure(&self, value: &str) -> (r: usize)
        ensures
            r == measure_spec(self.primary@, value@),
    {
        self.primary.measure(value)
    }

    /// `primary`, or `primary or alternative`.
    pub fn to_string(&self) -> (r: String)
        ensures
            r@ == repr_text(self.primary@) + match self.alternative { Some(a) => " or "@ + repr_text(a@), None => Seq::empty() },
    {
        let mut out = self.primary.to_string();
        if let Some(a) = self.alternative {
            string_push_str(&mut out, " or ");
            let t = a.to_string();
            string_push_str(&mut out, t.as_str());
        } else {
            assert(out@ =~= repr_text(self.primary@) + Seq::<char>::empty());
        }
        out
    }
}

// ── references to data elements and components ──────────────────────────────

/// What a component reference states.
pub struct CompSpec {
    /// One-based position of its first slot.
    pub position: u8,
    /// The component data element identifier.
    pub data_element: Seq<char>,
    /// Its status.
    pub status: Status,
    /// How many consecutive slots it occupies.
    pub repeat_count: u8,
    /// Its representation, if stated.
    pub repr: Option<Repr>,
    /// Its representation from syntax version 4 on, where it differs.
    pub repr_from_v4: Option<Repr>,
}

/// What an element reference states.
pub struct ElemSpec {
    /// One-based position in the segment.
    pub position: u8,
    /// The data element identifier.
    pub data_element: Seq<char>,
    /// Its status.
    pub status: Status,
    /// The most occurrences allowed.
    pub max_repeat: u8,
    /// Its representation (a simple element), if stated.
    pub repr: Option<Repr>,
    /// Its representation from syntax version 4 on, where it differs.
    pub repr_from_v4: Option<Repr>,
    /// Its components (a composite); empty for a simple element.
    pub components: Seq<CompSpec>,
}

/// A component of a composite, in a compile-time directory table.
#[derive(Debug, Clone, Copy)]
pub struct ComponentRef {
    position: u8,
    data_element: &'static str,
    status: Status,
    repeat_count: u8,
    repr: Option<Repr>,
    repr_from_v4: Option<Repr>,
}

impl ComponentRef {
    /// Positions are one-based and a component occupies at least one slot.
    #[verifier::type_invariant]
    spec fn positioned(self) -> bool {
        self.position != 0 && self.repeat_count != 0
    }
}

impl View for ComponentRef {
    type V = CompSpec;

    closed spec fn view(&self) -> CompSpec {
        CompSpec {
            position: self.position,
            data_element: self.data_element@,
            status: self.status,
            repeat_count: self.repeat_count,
            repr: self.repr,
            repr_from_v4: self.repr_from_v4,
        }
    }
}

impl ComponentRef {
    /// A component at one-based `position`.
    pub fn new(position: u8, data_element: &'static str, status: Status) -> (r: ComponentRef)
        requires
            position != 0,
        ensures
            r@ == (CompSpec { position, data_element: data_element@, status, repeat_count: 1, repr: None, repr_from_v4: None }),
    {
        ComponentRef { position, data_element, status, repeat_count: 1, repr: None, repr_from_v4: None }
    }

    /// A component the composite repeats by design: `repeat_count` slots from
    /// `position`, addressed as one.
    pub fn repeated(position: u8, data_element: &'static str, status: Status, repeat_count: u8) -> (r: ComponentRef)
        requires
            position != 0,
            repeat_count != 0,
        ensures
            r@ == (CompSpec { position, data_element: data_element@, status, repeat_count, repr: None, repr_from_v4: None }),
    {
        ComponentRef { position, data_element, status, repeat_count, repr: None, repr_from_v4: None }
    }

    /// How many consecutive slots the component occupies.
    pub fn repeat_count(&self) -> (r: u8)
        ensures
            r == self@.repeat_count,
    {
        self.repeat_count
    }

    /// One-based position of its first slot.
    pub fn position(&self) -> (r: u8)
        ensures
            r == self@.position,
            r != 0,
    {
        proof { use_type_invariant(self); }
        self.position
    }

    /// The component data element identifier.
    pub fn data_element(&self) -> (r: &'static str)
        ensures
            r@ == self@.data_element,
    {
        self.data_element
    }

    /// Its status.
    pub fn status(&self) -> (r: Status)
        ensures
            r == self@.status,
    {
        self.status
    }

    /// This component with a representation.
    pub fn with_repr(self, repr: Repr) -> (r: ComponentRef)
        ensures
            r@ == (CompSpec { repr: Some(repr), ..self@ }),
    {
        proof { use_type_invariant(&self); }
        ComponentRef { repr: Some(repr), ..self }
    }

    /// The representation, if stated.
    pub fn repr(&self) -> (r: Option<Repr>)
        ensures
            r == self@.repr,
    {
        self.repr
    }

    /// This component with one representation up to syntax version 3 and
    /// another from version 4 on.
    pub fn with_repr_by_syntax_version(self, up_to_v3: Repr, from_v4: Repr) -> (r: ComponentRef)
        ensures
            r@ == (CompSpec { repr: Some(up_to_v3), repr_from_v4: Some(from_v4), ..self@ }),
    {
        proof { use_type_invariant(&self); }
        ComponentRef { repr: Some(up_to_v3), repr_from_v4: Some(from_v4), ..self }
    }

    /// The representation from syntax version 4 on, where it differs.
    pub fn repr_from_v4(&self) -> (r: Option<Repr>)
        ensures
            r == self@.repr_from_v4,
    {
        self.repr_from_v4
    }
}

/// A data element of a segment, in a compile-time directory table.
#[derive(Debug, Clone, Copy)]
pub struct ElementRef {
    position: u8,
    data_element: &'static str,
    status: Status,
    max_repeat: u8,
    components: &'static [ComponentRef],
    repr: Option<Repr>,
    repr_from_v4: Option<Repr>,
}

impl ElementRef {
    /// Positions are one-based.
    #[verifier::type_invariant]
    spec fn positioned(self) -> bool {
        self.position != 0
    }
}

impl View for ElementRef {
    type V = ElemSpec;

    closed spec fn view(&self) -> ElemSpec {
        ElemSpec {
            position: self.position,
            data_element: self.data_element@,
            status: self.status,
            max_repeat: self.max_repeat,
            repr: self.repr,
            repr_from_v4: self.repr_from_v4,
            components: self.components@.map_values(|c: ComponentRef| c@),
        }
    }
}

impl ElementRef {
    /// A simple data element at one-based `position`.
    pub fn new(position: u8, data_element: &'static str, status: Status, max_repeat: u8) -> (r: ElementRef)
        requires
            position != 0,
        ensures
            r@ == (ElemSpec { position, data_element: data_element@, status, max_repeat, repr: None, repr_from_v4: None,
                components: Seq::empty() }),
    {
        let r = ElementRef { position, data_element, status, max_repeat, components: &[], repr: None, repr_from_v4: None };
        assert(r@.components =~= Seq::<CompSpec>::empty());
        r
    }

    /// A composite data element at one-based `position` with named components.
    pub fn composite(position: u8, data_element: &'static str, status: Status, max_repeat: u8,
        components: &'static [ComponentRef]) -> (r: ElementRef)
        requires
            position != 0,
        ensures
            r@ == (ElemSpec { position, data_element: data_element@, status, max_repeat, repr: None, repr_from_v4: None,
                components: components@.map_values(|c: ComponentRef| c@) }),
    {
        ElementRef { position, data_element, status, max_repeat, components, repr: None, repr_from_v4: None }
    }

    /// One-based position in the segment.
    pub fn position(&self) -> (r: u8)
        ensures
            r == self@.position,
            r != 0,
    {
        proof { use_type_invariant(self); }
        self.position
    }

    /// The data element identifier.
    pub fn data_element(&self) -> (r: &'static str)
        ensures
            r@ == self@.data_element,
    {
        self.data_element
    }

    /// Its status.
    pub fn status(&self) -> (r: Status)
        ensures
            r == self@.status,
    {
        self.status
    }

    /// The most occurrences allowed.
    pub fn max_repeat(&self) -> (r: u8)
        ensures
            r == self@.max_repeat,
    {
        self.max_repeat
    }

    /// Its components; empty for a simple element.
    pub fn components(&self) -> (r: &'static [ComponentRef])
        ensures
            r@.map_values(|c: ComponentRef| c@) == self@.components,
    {
        self.components
    }

    /// This element with a representation (for a simple element).
    pub fn with_repr(self, repr: Repr) -> (r: ElementRef)
        ensures
            r@ == (ElemSpec { repr: Some(repr), ..self@ }),
    {
        proof { use_type_invariant(&self); }
        ElementRef { repr: Some(repr), ..self }
    }

    /// The representation, if stated.
    pub fn repr(&self) -> (r: Option<Repr>)
        ensures
            r == self@.repr,
    {
        self.repr
    }

    /// This element with one representation up to syntax version 3 and
    /// another from version 4 on.
    pub fn with_repr_by_syntax_version(self, up_to_v3: Repr, from_v4: Repr) -> (r: ElementRef)
        ensures
            r@ == (ElemSpec { repr: Some(up_to_v3), repr_from_v4: Some(from_v4), ..self@ }),
    {
        proof { use_type_invariant(&self); }
        ElementRef { repr: Some(up_to_v3), repr_from_v4: Some(from_v4), ..self }
    }

    /// The representation from syntax version 4 on, where it differs.
    pub fn repr_from_v4(&self) -> (r: Option<Repr>)
        ensures
            r == self@.repr_from_v4,
    {
        self.repr_from_v4
    }
}

// ── segment layouts and resolution ─────────────────────────────────────────

/// A segment definition in a compile-time directory table.
#[derive(Debug)]
#[non_exhaustive]
pub struct SegmentDefinition {
    /// The segment tag.
    pub tag: &'static str,
    /// Its name.
    pub name: &'static str,
    /// Its data elements, in order.
    pub elements: &'static [ElementRef],
}

/// The resolved position of a data element: zero-based element index, and
/// zero-based component index when the identifier names a component.
#[derive(Debug, Clone, Copy, PartialEq, Eq, Structural)]
pub struct ElementPath {
    /// The element index.
    pub element: usize,
    /// The component index, or `None` for the element as a whole.
    pub component: Option<usize>,
}

impl ElementPath {
    /// The path of a whole element.
    pub fn element(element: usize) -> (r: ElementPath)
        ensures
            r == (ElementPath { element, component: None }),
    {
        ElementPath { element, component: None }
    }

    /// The path of a component.
    pub fn component(element: usize, component: usize) -> (r: ElementPath)
        ensures
            r == (ElementPath { element, component: Some(component) }),
    {
        ElementPath { element, component: Some(component) }
    }

    /// The component index, a whole element counting as component 0.
    pub fn component_index(&self) -> (r: usize)
        ensures
            r == (match self.component { Some(c) => c, None => 0 }),
    {
        match self.component {
            Some(c) => c,
            None => 0,
        }
    }
}

/// The number of components that carry `de`.
pub open spec fn comp_hits(cs: Seq<CompSpec>, de: Seq<char>) -> nat
    decreases cs.len(),
{
    if cs.len() == 0 { 0 } else { comp_hits(cs.drop_last(), de) + (if cs.last().data_element == de { 1nat } else { 0nat }) }
}

/// The number of positions of an element (itself and its components) that carry `de`.
pub open spec fn elem_hits(e: ElemSpec, de: Seq<char>) -> nat {
    (if e.data_element == de { 1nat } else { 0nat }) + comp_hits(e.components, de)
}

/// The number of positions of a layout that carry `de`.
pub open spec fn code_hits(l: Seq<ElemSpec>, de: Seq<char>) -> nat
    decreases l.len(),
{
    if l.len() == 0 { 0 } else { code_hits(l.drop_last(), de) + elem_hits(l.last(), de) }
}

/// The index of the first component that carries `de`, or -1.
pub open spec fn first_comp(cs: Seq<CompSpec>, de: Seq<char>) -> int
    decreases cs.len(),
{
    if cs.len() == 0 {
        -1
    } else if first_comp(cs.drop_last(), de) >= 0 {
        first_comp(cs.drop_last(), de)
    } else if cs.last().data_element == de {
        cs.len() - 1
    } else {
        -1
    }
}

/// The zero-based index of a one-based position.
pub open spec fn index_of(position: u8) -> usize {
    (position - 1) as usize
}

/// Where `de` first occurs in an element: the element itself, else its first
/// component that carries it.
pub open spec fn elem_path(e: ElemSpec, de: Seq<char>) -> Option<ElementPath> {
    if e.data_element == de {
        Some(ElementPath { element: index_of(e.position), component: None })
    } else if first_comp(e.components, de) >= 0 {
        Some(ElementPath { element: index_of(e.position), component: Some(index_of(e.components[first_comp(e.components, de)].position)) })
    } else {
        None
    }
}

/// Where `de` first occurs in a layout.
pub open spec fn first_path(l: Seq<ElemSpec>, de: Seq<char>) -> Option<ElementPath>
    decreases l.len(),
{
    if l.len() == 0 {
        None
    } else {
        match first_path(l.drop_last(), de) {
            Some(p) => Some(p),
            None => elem_path(l.last(), de),
        }
    }
}

/// Resolution of `de` in a layout: its position when it occurs exactly once;
/// `UnknownDataElement` when it does not occur; `AmbiguousDataElement` when
/// it occurs more than once.
pub open spec fn resolved(tag: Seq<char>, l: Seq<ElemSpec>, de: Seq<char>, r: Result<ElementPath, EdifactError>) -> bool {
    let hits = code_hits(l, de);
    match r {
        Ok(p) => hits == 1 && first_path(l, de) == Some(p),
        Err(e) => if hits == 0 {
            e matches EdifactError::UnknownDataElement { tag: t, data_element: d } && t@ == tag && d@ == de
        } else {
            hits > 1 && (e matches EdifactError::AmbiguousDataElement { tag: t, data_element: d } && t@ == tag && d@ == de)
        },
    }
}

/// Resolving an identifier follows the number of places that carry it:
/// exactly one resolves; none is `UnknownDataElement`; more than one is
/// `AmbiguousDataElement`, each naming the tag and the identifier.
pub proof fn law_resolution_follows_hits(tag: Seq<char>, l: Seq<ElemSpec>, de: Seq<char>, r: Result<ElementPath, EdifactError>)
    requires
        resolved(tag, l, de, r),
    ensures
        (r is Ok) == (code_hits(l, de) == 1),
        (code_hits(l, de) == 0) == (r matches Err(EdifactError::UnknownDataElement { tag: t, data_element: d }) && t@ == tag && d@ == de),
        (code_hits(l, de) > 1) == (r matches Err(EdifactError::AmbiguousDataElement { tag: t, data_element: d }) && t@ == tag && d@ == de),
{
}

/// Where an identifier resolves, the path is that of its one place: the
/// element and component that `element_slot` and `component_slot` give.
pub proof fn law_slots_follow_resolution(tag: Seq<char>, l: Seq<ElemSpec>, de: Seq<char>, p: ElementPath)
    requires
        resolved(tag, l, de, Ok(p)),
    ensures
        code_hits(l, de) == 1,
        first_path(l, de) == Some(p),
        first_path(l, de).unwrap().element == p.element,
        (match first_path(l, de).unwrap().component { Some(c) => c, None => 0 }) == (match p.component { Some(c) => c, None => 0 }),
{
}

/// Some component of the layout carries `de`.
pub open spec fn is_component_code(l: Seq<ElemSpec>, de: Seq<char>) -> bool {
    exists|i: int, k: int| 0 <= i < l.len() && 0 <= k < l[i].components.len() && (#[trigger] l[i].components[k]).data_element == de
}

/// What a layout slot states.
pub struct SlotSpec {
    /// Zero-based element index.
    pub element: usize,
    /// Zero-based component index, or `None` for a simple element.
    pub component: Option<usize>,
    /// The identifier declared there.
    pub data_element: Seq<char>,
    /// Its status.
    pub status: Status,
    /// The status of the enclosing element.
    pub element_status: Status,
}

/// The slots of one element: itself when simple, else each component.
pub open spec fn elem_slots(e: ElemSpec) -> Seq<SlotSpec> {
    if e.components.len() == 0 {
        seq![SlotSpec { element: index_of(e.position), component: None, data_element: e.data_element, status: e.status, element_status: e.status }]
    } else {
        e.components.map_values(|c: CompSpec| SlotSpec {
            element: index_of(e.position),
            component: Some(index_of(c.position)),
            data_element: c.data_element,
            status: c.status,
            element_status: e.status,
        })
    }
}

/// Every slot of a layout, in order.
pub open spec fn layout_slots(l: Seq<ElemSpec>) -> Seq<SlotSpec>
    decreases l.len(),
{
    if l.len() == 0 { Seq::empty() } else { layout_slots(l.drop_last()) + elem_slots(l.last()) }
}

/// One declared position of a layout, flattened.
#[derive(Debug, PartialEq, Eq)]
pub struct LayoutSlot {
    /// Zero-based element index.
    pub element: usize,
    /// Zero-based component index, or `None` for a simple element.
    pub component: Option<usize>,
    /// The identifier declared there.
    pub data_element: String,
    /// Whether the layout calls it mandatory.
    pub status: Status,
    /// The status of the enclosing element.
    pub element_status: Status,
}

impl View for LayoutSlot {
    type V = SlotSpec;

    open spec fn view(&self) -> SlotSpec {
        SlotSpec {
            element: self.element,
            component: self.component,
            data_element: self.data_element@,
            status: self.status,
            element_status: self.element_status,
        }
    }
}

impl Clone for LayoutSlot {
    fn clone(&self) -> (r: Self)
        ensures
            r == *self,
    {
        LayoutSlot {
            element: self.element,
            component: self.component,
            data_element: self.data_element.clone(),
            status: self.status,
            element_status: self.element_status,
        }
    }
}

impl LayoutSlot {
    /// The component index, a simple element counting as component 0.
    pub fn component_index(&self) -> (r: usize)
        ensures
            r == (match self.component { Some(c) => c, None => 0 }),
    {
        match self.component {
            Some(c) => c,
            None => 0,
        }
    }
}

/// The views of slots.
pub open spec fn slot_views(v: Seq<LayoutSlot>) -> Seq<SlotSpec> {
    v.map_values(|s: LayoutSlot| s@)
}

/// `n`, at most `cap`.
pub open spec fn capped(n: int, cap: int) -> int {
    if n < cap { n } else { cap }
}

proof fn lemma_comp_prefix(cs: Seq<CompSpec>, de: Seq<char>, k: int)
    requires
        0 <= k < cs.len(),
    ensures
        comp_hits(cs.take(k + 1), de) == comp_hits(cs.take(k), de) + (if cs[k].data_element == de { 1nat } else { 0nat }),
        first_comp(cs.take(k + 1), de) == (if first_comp(cs.take(k), de) >= 0 { first_comp(cs.take(k), de) }
            else if cs[k].data_element == de { k } else { -1 }),
{
    assert(cs.take(k + 1).drop_last() =~= cs.take(k));
}

proof fn lemma_first_comp_range(cs: Seq<CompSpec>, de: Seq<char>)
    ensures
        -1 <= first_comp(cs, de) < cs.len(),
        first_comp(cs, de) >= 0 ==> cs[first_comp(cs, de)].data_element == de,
    decreases cs.len(),
{
    if cs.len() > 0 { lemma_first_comp_range(cs.drop_last(), de); }
}

/// The positions of one element that carry `de` (capped at `cap`), and where
/// `de` first occurs in it.
fn elem_scan(el: &ElementRef, de: &str, cap: usize) -> (r: (usize, Option<ElementPath>))
    ensures
        r.0 == capped(elem_hits(el@, de@) as int, cap as int),
        r.1 == elem_path(el@, de@),
{
    proof { use_type_invariant(el); }
    let position = el.position;
    let mut count: usize = 0;
    let mut found: Option<ElementPath> = None;
    let whole = str_eq(el.data_element, de);
    if whole {
        if cap > 0 { count = 1; }
        found = Some(ElementPath::element(position as usize - 1));
    }
    let ghost cs = el@.components;
    let ghost base: nat = if whole { 1nat } else { 0nat };
    let mut k: usize = 0;
    while k < el.components.len()
        invariant
            k <= el.components@.len(),
            cs == el@.components,
            cs == el.components@.map_values(|c: ComponentRef| c@),
            position == el@.position,
            position != 0,
            whole == (el@.data_element == de@),
            base == (if whole { 1nat } else { 0nat }),
            count == capped((base + comp_hits(cs.take(k as int), de@)) as int, cap as int),
            found == (if whole { Some(ElementPath { element: index_of(position), component: None }) }
                else if first_comp(cs.take(k as int), de@) >= 0 {
                    Some(ElementPath { element: index_of(position), component: Some(index_of(cs[first_comp(cs.take(k as int), de@)].position)) })
                } else { None }),
        decreases el.components@.len() - k,
    {
        let c = &el.components[k];
        proof {
            use_type_invariant(c);
            lemma_comp_prefix(cs, de@, k as int);
            assert(cs[k as int] == c@);
        }
        if str_eq(c.data_element, de) {
            if count < cap { count = count + 1; }
            if found.is_none() {
                found = Some(ElementPath::component(position as usize - 1, c.position as usize - 1));
            }
        }
        k = k + 1;
    }
    proof { assert(cs.take(cs.len() as int) =~= cs); }
    (count, found)
}

/// The positions of a layout that carry `de` (capped at `cap`), and where
/// `de` first occurs.
fn layout_scan(elements: &[ElementRef], de: &str, cap: usize) -> (r: (usize, Option<ElementPath>))
    ensures
        r.0 == capped(code_hits(elements@.map_values(|e: ElementRef| e@), de@) as int, cap as int),
        r.1 == first_path(elements@.map_values(|e: ElementRef| e@), de@),
{
    let ghost l = elements@.map_values(|e: ElementRef| e@);
    let mut count: usize = 0;
    let mut found: Option<ElementPath> = None;
    let mut i: usize = 0;
    while i < elements.len()
        invariant
            i <= elements@.len(),
            l == elements@.map_values(|e: ElementRef| e@),
            count == capped(code_hits(l.take(i as int), de@) as int, cap as int),
            found == first_path(l.take(i as int), de@),
        decreases elements@.len() - i,
    {
        let (c, p) = elem_scan(&elements[i], de, cap);
        proof {
            assert(l.take(i + 1).drop_last() =~= l.take(i as int));
            assert(l.take(i + 1).last() == elements@[i as int]@);
        }
        count = if cap - count < c { cap } else { count + c };
        if found.is_none() {
            found = p;
        }
        i = i + 1;
    }
    proof { assert(l.take(l.len() as int) =~= l); }
    (count, found)
}

fn resolve_outcome(tag: &str, data_element: &str, hits: usize, found: Option<ElementPath>) -> (r: Result<ElementPath, EdifactError>)
    requires
        hits == 1 ==> found is Some,
    ensures
        hits == 1 ==> r == Ok::<ElementPath, EdifactError>(found.unwrap()),
        hits == 0 ==> (r matches Err(EdifactError::UnknownDataElement { tag: t, data_element: d }) && t@ == tag@ && d@ == data_element@),
        hits > 1 ==> (r matches Err(EdifactError::AmbiguousDataElement { tag: t, data_element: d }) && t@ == tag@ && d@ == data_element@),
{
    if hits == 1 {
        match found {
            Some(p) => Ok(p),
            None => Err(EdifactError::UnknownDataElement { tag: own(tag), data_element: own(data_element) }),
        }
    } else if hits == 0 {
        Err(EdifactError::UnknownDataElement { tag: own(tag), data_element: own(data_element) })
    } else {
        Err(EdifactError::AmbiguousDataElement { tag: own(tag), data_element: own(data_element) })
    }
}

proof fn lemma_one_hit_has_path(l: Seq<ElemSpec>, de: Seq<char>)
    ensures
        code_hits(l, de) > 0 <==> first_path(l, de) is Some,
    decreases l.len(),
{
    if l.len() > 0 {
        lemma_one_hit_has_path(l.drop_last(), de);
        let e = l.last();
        lemma_comp_hits_first(e.components, de);
    }
}

proof fn lemma_comp_hits_first(cs: Seq<CompSpec>, de: Seq<char>)
    ensures
        comp_hits(cs, de) > 0 <==> first_comp(cs, de) >= 0,
    decreases cs.len(),
{
    if cs.len() > 0 { lemma_comp_hits_first(cs.drop_last(), de); }
}

impl SegmentDefinition {
    /// A segment definition.
    pub fn new(tag: &'static str, name: &'static str, elements: &'static [ElementRef]) -> (r: SegmentDefinition)
        ensures
            r.tag == tag,
            r.name == name,
            r.elements == elements,
    {
        SegmentDefinition { tag, name, elements }
    }

    /// What the definition states of its elements.
    pub open spec fn layout(&self) -> Seq<ElemSpec> {
        self.elements@.map_values(|e: ElementRef| e@)
    }

    /// The number of positions that carry `data_element`: 0 unknown, 1
    /// addressable, more ambiguous.
    pub fn code_positions(&self, data_element: &str) -> (r: usize)
        requires
            code_hits(self.layout(), data_element@) <= usize::MAX,
        ensures
            r == code_hits(self.layout(), data_element@),
    {
        layout_scan(self.elements, data_element, usize::MAX).0
    }

    /// The element index of `data_element`, which must occur exactly once.
    pub fn element_slot(&self, data_element: &str) -> (r: usize)
        requires
            code_hits(self.layout(), data_element@) == 1,
        ensures
            r == first_path(self.layout(), data_element@).unwrap().element,
    {
        proof { lemma_one_hit_has_path(self.layout(), data_element@); }
        match layout_scan(self.elements, data_element, 2).1 {
            Some(p) => p.element,
            None => 0,
        }
    }

    /// The component index of `data_element` (0 when it names an element),
    /// which must occur exactly once.
    pub fn component_slot(&self, data_element: &str) -> (r: usize)
        requires
            code_hits(self.layout(), data_element@) == 1,
        ensures
            r == (match first_path(self.layout(), data_element@).unwrap().component { Some(c) => c, None => 0 }),
    {
        proof { lemma_one_hit_has_path(self.layout(), data_element@); }
        match layout_scan(self.elements, data_element, 2).1 {
            Some(p) => p.component_index(),
            None => 0,
        }
    }

    /// Whether `data_element` names a component inside a composite.
    pub fn code_is_component(&self, data_element: &str) -> (r: bool)
        ensures
            r == is_component_code(self.layout(), data_element@),
    {
        let ghost l = self.layout();
        let mut i: usize = 0;
        while i < self.elements.len()
            invariant
                i <= self.elements@.len(),
                l == self.layout(),
                forall|a: int, k: int| 0 <= a < i && 0 <= k < l[a].components.len() ==> (#[trigger] l[a].components[k]).data_element != data_element@,
            decreases self.elements@.len() - i,
        {
            let el = &self.elements[i];
            assert(l[i as int] == el@);
            let mut k: usize = 0;
            while k < el.components.len()
                invariant
                    k <= el.components@.len(),
                    i < self.elements@.len(),
                    l == self.layout(),
                    l[i as int] == el@,
                    el@.components == el.components@.map_values(|c: ComponentRef| c@),
                    forall|m: int| 0 <= m < k ==> (#[trigger] l[i as int].components[m]).data_element != data_element@,
                decreases el.components@.len() - k,
            {
                assert(l[i as int].components[k as int] == el.components@[k as int]@);
                if str_eq(el.components[k].data_element, data_element) {
                    assert(l[i as int].components[k as int].data_element == data_element@);
                    return true;
                }
                k = k + 1;
            }
            i = i + 1;
        }
        false
    }
}

fn static_slots(elements: &[ElementRef]) -> (r: Vec<LayoutSlot>)
    ensures
        slot_views(r@) == layout_slots(elements@.map_values(|e: ElementRef| e@)),
        slots_fit(slot_views(r@)),
{
    let ghost l = elements@.map_values(|e: ElementRef| e@);
    let mut out: Vec<LayoutSlot> = Vec::new();
    let mut i: usize = 0;
    while i < elements.len()
        invariant
            i <= elements@.len(),
            l == elements@.map_values(|e: ElementRef| e@),
            slot_views(out@) == layout_slots(l.take(i as int)),
            slots_fit(slot_views(out@)),
        decreases elements@.len() - i,
    {
        let el = &elements[i];
        proof {
            use_type_invariant(el);
            assert(l.take(i + 1).drop_last() =~= l.take(i as int));
            assert(l.take(i + 1).last() == el@);
        }
        let ghost before = slot_views(out@);
        let index = el.position as usize - 1;
        if el.components.len() == 0 {
            out.push(LayoutSlot { element: index, component: None, data_element: own(el.data_element), status: el.status, element_status: el.status });
            proof { assert(slot_views(out@) =~= before + elem_slots(el@)); }
        } else {
            let mut k: usize = 0;
            while k < el.components.len()
                invariant
                    k <= el.components@.len(),
                    el.components@.len() > 0,
                    index == index_of(el@.position),
                    index < 255,
                    el@.components == el.components@.map_values(|c: ComponentRef| c@),
                    slot_views(out@) == before + elem_slots(el@).take(k as int),
                    slots_fit(slot_views(out@)),
                decreases el.components@.len() - k,
            {
                let c = &el.components[k];
                proof {
                    use_type_invariant(c);
                    assert(el@.components[k as int] == c@);
                }
                let ghost prev = out@;
                out.push(LayoutSlot {
                    element: index,
                    component: Some(c.position as usize - 1),
                    data_element: own(c.data_element),
                    status: c.status,
                    element_status: el.status,
                });
                proof {
                    assert(out@.last()@ == elem_slots(el@)[k as int]);
                    assert(slot_views(out@) =~= slot_views(prev).push(out@.last()@));
                    assert(elem_slots(el@).take(k + 1) =~= elem_slots(el@).take(k as int).push(elem_slots(el@)[k as int]));
                    let v = slot_views(out@);
                    assert forall|j: int| 0 <= j < v.len() implies (#[trigger] v[j]).element < 255 && slot_component(v[j]) < 255 by {
                        if j < prev.len() { assert(v[j] == slot_views(prev)[j]); }
                    }
                }
                k = k + 1;
            }
            proof { assert(elem_slots(el@).take(el.components@.len() as int) =~= elem_slots(el@)); }
        }
        i = i + 1;
    }
    proof { assert(l.take(l.len() as int) =~= l); }
    out
}

// ── owned definitions ──────────────────────────────────────────────────────

/// A component of a composite, defined at run time.
#[derive(Debug)]
pub struct OwnedComponentRef {
    position: u8,
    data_element: String,
    status: Status,
    repr: Option<Repr>,
    repr_from_v4: Option<Repr>,
    repeat_count: u8,
}

impl OwnedComponentRef {
    /// Positions are one-based and a component occupies at least one slot.
    #[verifier::type_invariant]
    spec fn positioned(self) -> bool {
        self.position != 0 && self.repeat_count != 0
    }
}

impl View for OwnedComponentRef {
    type V = CompSpec;

    closed spec fn view(&self) -> CompSpec {
        CompSpec {
            position: self.position,
            data_element: self.data_element@,
            status: self.status,
            repeat_count: self.repeat_count,
            repr: self.repr,
            repr_from_v4: self.repr_from_v4,
        }
    }
}

impl OwnedComponentRef {
    /// A component at one-based `position`.
    pub fn new_unchecked(position: u8, data_element: String, status: Status) -> (r: OwnedComponentRef)
        requires
            position != 0,
        ensures
            r@ == (CompSpec { position, data_element: data_element@, status, repeat_count: 1, repr: None, repr_from_v4: None }),
    {
        OwnedComponentRef { position, data_element, status, repr: None, repr_from_v4: None, repeat_count: 1 }
    }

    /// A component the composite repeats by design.
    pub fn repeated(position: u8, data_element: String, status: Status, repeat_count: u8) -> (r: OwnedComponentRef)
        requires
            position != 0,
            repeat_count != 0,
        ensures
            r@ == (CompSpec { position, data_element: data_element@, status, repeat_count, repr: None, repr_from_v4: None }),
    {
        OwnedComponentRef { position, data_element, status, repr: None, repr_from_v4: None, repeat_count }
    }

    /// How many consecutive slots the component occupies.
    pub fn repeat_count(&self) -> (r: u8)
        ensures
            r == self@.repeat_count,
    {
        self.repeat_count
    }

    /// A component at one-based `position`; position 0 is `InvalidElementPosition`.
    pub fn try_new(position: u8, data_element: String, status: Status) -> (r: Result<OwnedComponentRef, EdifactError>)
        ensures
            match r {
                Ok(c) => position != 0 && c@ == (CompSpec { position, data_element: data_element@, status, repeat_count: 1, repr: None, repr_from_v4: None }),
                Err(e) => position == 0 && e is InvalidElementPosition,
            },
    {
        if position == 0 {
            return Err(EdifactError::InvalidElementPosition);
        }
        Ok(OwnedComponentRef::new_unchecked(position, data_element, status))
    }

    /// One-based position of its first slot.
    pub fn position(&self) -> (r: u8)
        ensures
            r == self@.position,
            r != 0,
    {
        proof { use_type_invariant(self); }
        self.position
    }

    /// The component data element identifier.
    pub fn data_element(&self) -> (r: &str)
        ensures
            r@ == self@.data_element,
    {
        self.data_element.as_str()
    }

    /// Its status.
    pub fn status(&self) -> (r: Status)
        ensures
            r == self@.status,
    {
        self.status
    }

    /// This component with a representation.
    pub fn with_repr(self, repr: Repr) -> (r: OwnedComponentRef)
        ensures
            r@ == (CompSpec { repr: Some(repr), ..self@ }),
    {
        proof { use_type_invariant(&self); }
        OwnedComponentRef { repr: Some(repr), ..self }
    }

    /// The representation, if stated.
    pub fn repr(&self) -> (r: Option<Repr>)
        ensures
            r == self@.repr,
    {
        self.repr
    }

    /// This component with one representation up to syntax version 3 and
    /// another from version 4 on.
    pub fn with_repr_by_syntax_version(self, up_to_v3: Repr, from_v4: Repr) -> (r: OwnedComponentRef)
        ensures
            r@ == (CompSpec { repr: Some(up_to_v3), repr_from_v4: Some(from_v4), ..self@ }),
    {
        proof { use_type_invariant(&self); }
        OwnedComponentRef { repr: Some(up_to_v3), repr_from_v4: Some(from_v4), ..self }
    }

    /// The representation from syntax version 4 on, where it differs.
    pub fn repr_from_v4(&self) -> (r: Option<Repr>)
        ensures
            r == self@.repr_from_v4,
    {
        self.repr_from_v4
    }
}

/// A data element of a segment, defined at run time.
#[derive(Debug)]
pub struct OwnedElementRef {
    position: u8,
    data_element: String,
    status: Status,
    max_repeat: u8,
    repr: Option<Repr>,
    repr_from_v4: Option<Repr>,
    components: Vec<OwnedComponentRef>,
}

impl OwnedElementRef {
    /// Positions are one-based.
    #[verifier::type_invariant]
    spec fn positioned(self) -> bool {
        self.position != 0
    }
}

impl View for OwnedElementRef {
    type V = ElemSpec;

    closed spec fn view(&self) -> ElemSpec {
        ElemSpec {
            position: self.position,
            data_element: self.data_element@,
            status: self.status,
            max_repeat: self.max_repeat,
            repr: self.repr,
            repr_from_v4: self.repr_from_v4,
            components: self.components@.map_values(|c: OwnedComponentRef| c@),
        }
    }
}

impl OwnedElementRef {
    /// A simple data element at one-based `position`.
    pub fn new_unchecked(position: u8, data_element: String, status: Status, max_repeat: u8) -> (r: OwnedElementRef)
        requires
            position != 0,
        ensures
            r@ == (ElemSpec { position, data_element: data_element@, status, max_repeat, repr: None, repr_from_v4: None,
                components: Seq::empty() }),
    {
        let r = OwnedElementRef { position, data_element, status, max_repeat, repr: None, repr_from_v4: None, components: Vec::new() };
        assert(r@.components =~= Seq::<CompSpec>::empty());
        r
    }

    /// A simple data element at one-based `position`; position 0 is `InvalidElementPosition`.
    pub fn try_new(position: u8, data_element: String, status: Status, max_repeat: u8) -> (r: Result<OwnedElementRef, EdifactError>)
        ensures
            match r {
                Ok(e) => position != 0 && e@ == (ElemSpec { position, data_element: data_element@, status, max_repeat,
                    repr: None, repr_from_v4: None, components: Seq::empty() }),
                Err(e) => position == 0 && e is InvalidElementPosition,
            },
    {
        if position == 0 {
            return Err(EdifactError::InvalidElementPosition);
        }
        Ok(OwnedElementRef::new_unchecked(position, data_element, status, max_repeat))
    }

    /// This element as a composite with the given components.
    pub fn with_components(self, components: Vec<OwnedComponentRef>) -> (r: OwnedElementRef)
        ensures
            r@ == (ElemSpec { components: components@.map_values(|c: OwnedComponentRef| c@), ..self@ }),
    {
        proof { use_type_invariant(&self); }
        OwnedElementRef { components, ..self }
    }

    /// Its components; empty for a simple element.
    pub fn components(&self) -> (r: &[OwnedComponentRef])
        ensures
            r@.map_values(|c: OwnedComponentRef| c@) == self@.components,
    {
        self.components.as_slice()
    }

    /// One-based position in the segment.
    pub fn position(&self) -> (r: u8)
        ensures
            r == self@.position,
            r != 0,
    {
        proof { use_type_invariant(self); }
        self.position
    }

    /// The data element identifier.
    pub fn data_element(&self) -> (r: &str)
        ensures
            r@ == self@.data_element,
    {
        self.data_element.as_str()
    }

    /// Its status.
    pub fn status(&self) -> (r: Status)
        ensures
            r == self@.status,
    {
        self.status
    }

    /// The most occurrences allowed.
    pub fn max_repeat(&self) -> (r: u8)
        ensures
            r == self@.max_repeat,
    {
        self.max_repeat
    }

    /// This element with a representation (for a simple element).
    pub fn with_repr(self, repr: Repr) -> (r: OwnedElementRef)
        ensures
            r@ == (ElemSpec { repr: Some(repr), ..self@ }),
    {
        proof { use_type_invariant(&self); }
        OwnedElementRef { repr: Some(repr), ..self }
    }

    /// The representation, if stated.
    pub fn repr(&self) -> (r: Option<Repr>)
        ensures
            r == self@.repr,
    {
        self.repr
    }

    /// This element with one representation up to syntax version 3 and
    /// another from version 4 on.
    pub fn with_repr_by_syntax_version(self, up_to_v3: Repr, from_v4: Repr) -> (r: OwnedElementRef)
        ensures
            r@ == (ElemSpec { repr: Some(up_to_v3), repr_from_v4: Some(from_v4), ..self@ }),
    {
        proof { use_type_invariant(&self); }
        OwnedElementRef { repr: Some(up_to_v3), repr_from_v4: Some(from_v4), ..self }
    }

    /// The representation from syntax version 4 on, where it differs.
    pub fn repr_from_v4(&self) -> (r: Option<Repr>)
        ensures
            r == self@.repr_from_v4,
    {
        self.repr_from_v4
    }
}

/// A tag of exactly three ASCII capital letters.
pub open spec fn valid_tag(t: Seq<char>) -> bool {
    t.len() == 3 && forall|i: int| 0 <= i < 3 ==> 'A' <= #[trigger] t[i] <= 'Z'
}

fn is_valid_tag(t: &str) -> (r: bool)
    ensures
        r == valid_tag(t@),
{
    let cs = to_chars(t);
    if cs.len() != 3 {
        return false;
    }
    let r = 'A' <= cs[0] && cs[0] <= 'Z' && 'A' <= cs[1] && cs[1] <= 'Z' && 'A' <= cs[2] && cs[2] <= 'Z';
    proof {
        if !r {
            if !('A' <= cs@[0] && cs@[0] <= 'Z') { assert(!('A' <= t@[0] <= 'Z')); }
            else if !('A' <= cs@[1] && cs@[1] <= 'Z') { assert(!('A' <= t@[1] <= 'Z')); }
            else { assert(!('A' <= t@[2] <= 'Z')); }
        }
    }
    r
}

/// A segment definition, defined at run time.
#[derive(Debug)]
pub struct OwnedSegmentDef {
    tag: String,
    name: String,
    elements: Vec<OwnedElementRef>,
}

impl OwnedSegmentDef {
    /// Its tag.
    pub closed spec fn tag_of(&self) -> Seq<char> {
        self.tag@
    }

    /// Its name.
    pub closed spec fn name_of(&self) -> Seq<char> {
        self.name@
    }

    /// What the definition states of its elements.
    pub closed spec fn layout(&self) -> Seq<ElemSpec> {
        self.elements@.map_values(|e: OwnedElementRef| e@)
    }

    /// A definition whose tag is three ASCII capital letters.
    pub fn new_unchecked(tag: String, name: String, elements: Vec<OwnedElementRef>) -> (r: OwnedSegmentDef)
        requires
            valid_tag(tag@),
        ensures
            r.tag_of() == tag@,
            r.name_of() == name@,
            r.layout() == elements@.map_values(|e: OwnedElementRef| e@),
    {
        OwnedSegmentDef { tag, name, elements }
    }

    /// A definition; a tag that is not three ASCII capital letters is `InvalidSegmentTag`.
    pub fn try_new(tag: String, name: String, elements: Vec<OwnedElementRef>) -> (r: Result<OwnedSegmentDef, EdifactError>)
        ensures
            match r {
                Ok(d) => valid_tag(tag@) && d.tag_of() == tag@ && d.name_of() == name@
                    && d.layout() == elements@.map_values(|e: OwnedElementRef| e@),
                Err(e) => !valid_tag(tag@) && (e matches EdifactError::InvalidSegmentTag(t) && t@ == tag@),
            },
    {
        if !is_valid_tag(tag.as_str()) {
            return Err(EdifactError::InvalidSegmentTag(tag));
        }
        Ok(OwnedSegmentDef { tag, name, elements })
    }

    /// Its tag.
    pub fn tag(&self) -> (r: &str)
        ensures
            r@ == self.tag_of(),
    {
        self.tag.as_str()
    }

    /// Its name.
    pub fn name(&self) -> (r: &str)
        ensures
            r@ == self.name_of(),
    {
        self.name.as_str()
    }

    /// Its element definitions.
    pub fn elements(&self) -> (r: &[OwnedElementRef])
        ensures
            r@.map_values(|e: OwnedElementRef| e@) == self.layout(),
    {
        self.elements.as_slice()
    }

    /// The number of positions that carry `data_element`.
    pub fn code_positions(&self, data_element: &str) -> (r: usize)
        requires
            code_hits(self.layout(), data_element@) <= usize::MAX,
        ensures
            r == code_hits(self.layout(), data_element@),
    {
        owned_layout_scan(self.elements.as_slice(), data_element, usize::MAX).0
    }
}

fn owned_elem_scan(el: &OwnedElementRef, de: &str, cap: usize) -> (r: (usize, Option<ElementPath>))
    ensures
        r.0 == capped(elem_hits(el@, de@) as int, cap as int),
        r.1 == elem_path(el@, de@),
{
    proof { use_type_invariant(el); }
    let position = el.position;
    let mut count: usize = 0;
    let mut found: Option<ElementPath> = None;
    let whole = str_eq(el.data_element.as_str(), de);
    if whole {
        if cap > 0 { count = 1; }
        found = Some(ElementPath::element(position as usize - 1));
    }
    let ghost cs = el@.components;
    let ghost base: nat = if whole { 1nat } else { 0nat };
    let mut k: usize = 0;
    while k < el.components.len()
        invariant
            k <= el.components@.len(),
            cs == el@.components,
            cs == el.components@.map_values(|c: OwnedComponentRef| c@),
            position == el@.position,
            position != 0,
            whole == (el@.data_element == de@),
            base == (if whole { 1nat } else { 0nat }),
            count == capped((base + comp_hits(cs.take(k as int), de@)) as int, cap as int),
            found == (if whole { Some(ElementPath { element: index_of(position), component: None }) }
                else if first_comp(cs.take(k as int), de@) >= 0 {
                    Some(ElementPath { element: index_of(position), component: Some(index_of(cs[first_comp(cs.take(k as int), de@)].position)) })
                } else { None }),
        decreases el.components@.len() - k,
    {
        let c = &el.components[k];
        proof {
            use_type_invariant(c);
            lemma_comp_prefix(cs, de@, k as int);
            assert(cs[k as int] == c@);
        }
        if str_eq(c.data_element.as_str(), de) {
            if count < cap { count = count + 1; }
            if found.is_none() {
                found = Some(ElementPath::component(position as usize - 1, c.position as usize - 1));
            }
        }
        k = k + 1;
    }
    proof { assert(cs.take(cs.len() as int) =~= cs); }
    (count, found)
}

fn owned_layout_scan(elements: &[OwnedElementRef], de: &str, cap: usize) -> (r: (usize, Option<ElementPath>))
    ensures
        r.0 == capped(code_hits(elements@.map_values(|e: OwnedElementRef| e@), de@) as int, cap as int),
        r.1 == first_path(elements@.map_values(|e: OwnedElementRef| e@), de@),
{
    let ghost l = elements@.map_values(|e: OwnedElementRef| e@);
    let mut count: usize = 0;
    let mut found: Option<ElementPath> = None;
    let mut i: usize = 0;
    while i < elements.len()
        invariant
            i <= elements@.len(),
            l == elements@.map_values(|e: OwnedElementRef| e@),
            count == capped(code_hits(l.take(i as int), de@) as int, cap as int),
            found == first_path(l.take(i as int), de@),
        decreases elements@.len() - i,
    {
        let (c, p) = owned_elem_scan(&elements[i], de, cap);
        proof {
            assert(l.take(i + 1).drop_last() =~= l.take(i as int));
            assert(l.take(i + 1).last() == elements@[i as int]@);
        }
        count = if cap - count < c { cap } else { count + c };
        if found.is_none() {
            found = p;
        }
        i = i + 1;
    }
    proof { assert(l.take(l.len() as int) =~= l); }
    (count, found)
}

fn owned_slots(elements: &[OwnedElementRef]) -> (r: Vec<LayoutSlot>)
    ensures
        slot_views(r@) == layout_slots(elements@.map_values(|e: OwnedElementRef| e@)),
        slots_fit(slot_views(r@)),
{
    let ghost l = elements@.map_values(|e: OwnedElementRef| e@);
    let mut out: Vec<LayoutSlot> = Vec::new();
    let mut i: usize = 0;
    while i < elements.len()
        invariant
            i <= elements@.len(),
            l == elements@.map_values(|e: OwnedElementRef| e@),
            slot_views(out@) == layout_slots(l.take(i as int)),
            slots_fit(slot_views(out@)),
        decreases elements@.len() - i,
    {
        let el = &elements[i];
        proof {
            use_type_invariant(el);
            assert(l.take(i + 1).drop_last() =~= l.take(i as int));
            assert(l.take(i + 1).last() == el@);
        }
        let ghost before = slot_views(out@);
        let index = el.position as usize - 1;
        if el.components.len() == 0 {
            out.push(LayoutSlot { element: index, component: None, data_element: el.data_element.clone(), status: el.status, element_status: el.status });
            proof { assert(slot_views(out@) =~= before + elem_slots(el@)); }
        } else {
            let mut k: usize = 0;
            while k < el.components.len()
                invariant
                    k <= el.components@.len(),
                    el.components@.len() > 0,
                    index == index_of(el@.position),
                    index < 255,
                    el@.components == el.components@.map_values(|c: OwnedComponentRef| c@),
                    slot_views(out@) == before + elem_slots(el@).take(k as int),
                    slots_fit(slot_views(out@)),
                decreases el.components@.len() - k,
            {
                let c = &el.components[k];
                proof {
                    use_type_invariant(c);
                    assert(el@.components[k as int] == c@);
                }
                let ghost prev = out@;
                out.push(LayoutSlot {
                    element: index,
                    component: Some(c.position as usize - 1),
                    data_element: c.data_element.clone(),
                    status: c.status,
                    element_status: el.status,
                });
                proof {
                    assert(out@.last()@ == elem_slots(el@)[k as int]);
                    assert(slot_views(out@) =~= slot_views(prev).push(out@.last()@));
                    assert(elem_slots(el@).take(k + 1) =~= elem_slots(el@).take(k as int).push(elem_slots(el@)[k as int]));
                    let v = slot_views(out@);
                    assert forall|j: int| 0 <= j < v.len() implies (#[trigger] v[j]).element < 255 && slot_component(v[j]) < 255 by {
                        if j < prev.len() { assert(v[j] == slot_views(prev)[j]); }
                    }
                }
                k = k + 1;
            }
            proof { assert(elem_slots(el@).take(el.components@.len() as int) =~= elem_slots(el@)); }
        }
        i = i + 1;
    }
    proof { assert(l.take(l.len() as int) =~= l); }
    out
}

impl Clone for OwnedComponentRef {
    fn clone(&self) -> (r: Self)
        ensures
            r@ == self@,
    {
        proof { use_type_invariant(self); }
        OwnedComponentRef {
            position: self.position,
            data_element: self.data_element.clone(),
            status: self.status,
            repr: self.repr,
            repr_from_v4: self.repr_from_v4,
            repeat_count: self.repeat_count,
        }
    }
}

impl Clone for OwnedElementRef {
    fn clone(&self) -> (r: Self)
        ensures
            r@ == self@,
    {
        proof { use_type_invariant(self); }
        let mut components: Vec<OwnedComponentRef> = Vec::new();
        let mut k: usize = 0;
        while k < self.components.len()
            invariant
                k <= self.components@.len(),
                components@.map_values(|c: OwnedComponentRef| c@) == self.components@.take(k as int).map_values(|c: OwnedComponentRef| c@),
            decreases self.components@.len() - k,
        {
            let c = self.components[k].clone();
            assert(c@ == self.components@[k as int]@);
            let ghost prev = components@;
            components.push(c);
            proof {
                assert(components@.map_values(|c: OwnedComponentRef| c@) =~= prev.map_values(|c: OwnedComponentRef| c@).push(c@));
                assert(self.components@.take(k + 1).map_values(|c: OwnedComponentRef| c@)
                    =~= self.components@.take(k as int).map_values(|c: OwnedComponentRef| c@).push(self.components@[k as int]@));
                assert(components@.map_values(|c: OwnedComponentRef| c@)
                    =~= self.components@.take(k + 1).map_values(|c: OwnedComponentRef| c@));
            }
            k = k + 1;
        }
        proof { assert(self.components@.take(self.components@.len() as int) =~= self.components@); }
        OwnedElementRef {
            position: self.position,
            data_element: self.data_element.clone(),
            status: self.status,
            max_repeat: self.max_repeat,
            repr: self.repr,
            repr_from_v4: self.repr_from_v4,
            components,
        }
    }
}

impl Clone for OwnedSegmentDef {
    fn clone(&self) -> (r: Self)
        ensures
            r.tag_of() == self.tag_of(),
            r.name_of() == self.name_of(),
            r.layout() == self.layout(),
    {
        let mut elements: Vec<OwnedElementRef> = Vec::new();
        let mut i: usize = 0;
        while i < self.elements.len()
            invariant
                i <= self.elements@.len(),
                elements@.map_values(|e: OwnedElementRef| e@) == self.elements@.take(i as int).map_values(|e: OwnedElementRef| e@),
            decreases self.elements@.len() - i,
        {
            let e = self.elements[i].clone();
            assert(e@ == self.elements@[i as int]@);
            let ghost prev = elements@;
            elements.push(e);
            proof {
                assert(elements@.map_values(|e: OwnedElementRef| e@) =~= prev.map_values(|e: OwnedElementRef| e@).push(e@));
                assert(self.elements@.take(i + 1).map_values(|e: OwnedElementRef| e@)
                    =~= self.elements@.take(i as int).map_values(|e: OwnedElementRef| e@).push(self.elements@[i as int]@));
                assert(elements@.map_values(|e: OwnedElementRef| e@)
                    =~= self.elements@.take(i + 1).map_values(|e: OwnedElementRef| e@));
            }
            i = i + 1;
        }
        proof { assert(self.elements@.take(self.elements@.len() as int) =~= self.elements@); }
        OwnedSegmentDef { tag: self.tag.clone(), name: self.name.clone(), elements }
    }
}

// ── auditing a layout against a corpus ─────────────────────────────────────

/// One way a layout and a corpus disagree, or fail to inform each other.
#[derive(Debug, PartialEq, Eq)]
#[non_exhaustive]
pub enum LayoutFinding {
    /// A populated data element beyond the last one declared.
    UndeclaredElement {
        /// Its index.
        element: usize,
        /// The span of the segment that carried it.
        span: Span,
    },
    /// A populated component beyond the last one declared for its element.
    UndeclaredComponent {
        /// The element index.
        element: usize,
        /// The component index.
        component: usize,
        /// The span of the segment that carried it.
        span: Span,
    },
    /// A position declared mandatory that no segment populated.
    MandatoryNeverPopulated {
        /// The position.
        slot: LayoutSlot,
    },
    /// A position no segment populated: the corpus cannot confirm it.
    NeverObserved {
        /// The position.
        slot: LayoutSlot,
    },
}

/// What a finding states.
pub enum FindingView {
    /// See [`LayoutFinding::UndeclaredElement`].
    UndeclaredElement { element: usize, span: Span },
    /// See [`LayoutFinding::UndeclaredComponent`].
    UndeclaredComponent { element: usize, component: usize, span: Span },
    /// See [`LayoutFinding::MandatoryNeverPopulated`].
    MandatoryNeverPopulated { slot: SlotSpec },
    /// See [`LayoutFinding::NeverObserved`].
    NeverObserved { slot: SlotSpec },
}

impl View for LayoutFinding {
    type V = FindingView;

    open spec fn view(&self) -> FindingView {
        match self {
            LayoutFinding::UndeclaredElement { element, span } => FindingView::UndeclaredElement { element: *element, span: *span },
            LayoutFinding::UndeclaredComponent { element, component, span } =>
                FindingView::UndeclaredComponent { element: *element, component: *component, span: *span },
            LayoutFinding::MandatoryNeverPopulated { slot } => FindingView::MandatoryNeverPopulated { slot: slot@ },
            LayoutFinding::NeverObserved { slot } => FindingView::NeverObserved { slot: slot@ },
        }
    }
}

/// The views of findings.
pub open spec fn finding_views(fs: Seq<LayoutFinding>) -> Seq<FindingView> {
    fs.map_values(|f: LayoutFinding| f@)
}

/// Two findings report the same undeclared position.
pub open spec fn same_position(a: FindingView, b: FindingView) -> bool {
    match (a, b) {
        (FindingView::UndeclaredElement { element: x, .. }, FindingView::UndeclaredElement { element: y, .. }) => x == y,
        (FindingView::UndeclaredComponent { element: x, component: c, .. },
            FindingView::UndeclaredComponent { element: y, component: d, .. }) => x == y && c == d,
        _ => false,
    }
}

/// `fs` with `f` added, unless a finding on the same position is there already.
pub open spec fn push_once_spec(fs: Seq<FindingView>, f: FindingView) -> Seq<FindingView> {
    if exists|k: int| 0 <= k < fs.len() && same_position(#[trigger] fs[k], f) { fs } else { fs.push(f) }
}

/// The number of elements the slots declare: one past the highest index.
pub open spec fn declared_elements(slots: Seq<SlotSpec>) -> int
    decreases slots.len(),
{
    if slots.len() == 0 {
        0
    } else {
        let m = declared_elements(slots.drop_last());
        if slots.last().element + 1 > m { slots.last().element + 1 } else { m }
    }
}

/// The component index of a slot, a simple element counting as 0.
pub open spec fn slot_component(s: SlotSpec) -> int {
    match s.component { Some(c) => c as int, None => 0 }
}

/// The number of components the slots declare for element `e`.
pub open spec fn declared_components(slots: Seq<SlotSpec>, e: int) -> int
    decreases slots.len(),
{
    if slots.len() == 0 {
        0
    } else {
        let m = declared_components(slots.drop_last(), e);
        if slots.last().element == e && slot_component(slots.last()) + 1 > m { slot_component(slots.last()) + 1 } else { m }
    }
}

/// The width of the populated table: every declared component index is below it.
pub const WIDTH: usize = 256;

/// The state of an audit: findings so far, which declared positions were
/// populated (by `element * WIDTH + component`), and segments examined.
pub type AuditState = (Seq<FindingView>, Seq<bool>, nat);

/// One value of a segment examined: empty values are absence and say nothing;
/// a value beyond the declared elements or components is a contradiction,
/// reported once per position; any other marks its position populated.
pub open spec fn value_step(slots: Seq<SlotSpec>, st: AuditState, e: int, c: int, empty: bool, span: Span) -> AuditState {
    if empty {
        st
    } else if e >= declared_elements(slots) {
        (push_once_spec(st.0, FindingView::UndeclaredElement { element: e as usize, span }), st.1, st.2)
    } else if c >= declared_components(slots, e) {
        (push_once_spec(st.0, FindingView::UndeclaredComponent { element: e as usize, component: c as usize, span }), st.1, st.2)
    } else {
        (st.0, st.1.update(e * WIDTH + c, true), st.2)
    }
}

/// The values of one occurrence examined in order.
pub open spec fn items_step(slots: Seq<SlotSpec>, st: AuditState, e: int, items: Seq<(String, Span)>, span: Span) -> AuditState
    decreases items.len(),
{
    if items.len() == 0 {
        st
    } else {
        let prev = items_step(slots, st, e, items.drop_last(), span);
        value_step(slots, prev, e, items.len() - 1, items.last().0@.len() == 0, span)
    }
}

/// Every occurrence of one element examined in order.
pub open spec fn occs_step(slots: Seq<SlotSpec>, st: AuditState, e: int, occs: Seq<Seq<(String, Span)>>, span: Span) -> AuditState
    decreases occs.len(),
{
    if occs.len() == 0 {
        st
    } else {
        items_step(slots, occs_step(slots, st, e, occs.drop_last(), span), e, occs.last(), span)
    }
}

/// Every element of a segment examined in order.
pub open spec fn elems_step(slots: Seq<SlotSpec>, st: AuditState, es: Seq<Element>, span: Span) -> AuditState
    decreases es.len(),
{
    if es.len() == 0 {
        st
    } else {
        occs_step(slots, elems_step(slots, st, es.drop_last(), span), es.len() - 1, occurrences(es.last()), span)
    }
}

/// Every segment with the tag examined in order; others are passed over.
pub open spec fn segs_step(slots: Seq<SlotSpec>, st: AuditState, tag: Seq<char>, segs: Seq<Segment>) -> AuditState
    decreases segs.len(),
{
    if segs.len() == 0 {
        st
    } else {
        let prev = segs_step(slots, st, tag, segs.drop_last());
        let seg = segs.last();
        if seg.tag@ == tag {
            let counted = (prev.0, prev.1, prev.2 + 1);
            elems_step(slots, counted, seg.elements@, seg.span)
        } else {
            prev
        }
    }
}

/// Some declared component of element `e` was populated.
pub open spec fn element_populated(slots: Seq<SlotSpec>, pop: Seq<bool>, e: int) -> bool {
    exists|c: int| 0 <= c < declared_components(slots, e) && pop[#[trigger] (e * WIDTH + c)]
}

/// The findings on declared positions nobody populated: mandatory ones that
/// were required (a simple element, a component of a mandatory composite, or
/// of a composite that was present) and the rest as unconfirmed.
pub open spec fn slot_findings(all: Seq<SlotSpec>, slots: Seq<SlotSpec>, pop: Seq<bool>) -> Seq<FindingView>
    decreases slots.len(),
{
    if slots.len() == 0 {
        Seq::empty()
    } else {
        let prev = slot_findings(all, slots.drop_last(), pop);
        let s = slots.last();
        if pop[s.element * WIDTH + slot_component(s)] {
            prev
        } else {
            let required = s.status == Status::Mandatory
                && (s.component is None || s.element_status == Status::Mandatory || element_populated(all, pop, s.element as int));
            prev.push(if required { FindingView::MandatoryNeverPopulated { slot: s } } else { FindingView::NeverObserved { slot: s } })
        }
    }
}

/// The audit of a layout with tag `tag` and slots `slots` against `segs`.
pub open spec fn audit_spec(tag: Seq<char>, slots: Seq<SlotSpec>, segs: Seq<Segment>) -> (Seq<FindingView>, nat) {
    let size = declared_elements(slots) * WIDTH;
    let st = segs_step(slots, (Seq::empty(), Seq::new(size as nat, |i: int| false), 0), tag, segs);
    (st.0 + slot_findings(slots, slots, st.1), st.2)
}

/// Slot indices fit the populated table.
pub open spec fn slots_fit(slots: Seq<SlotSpec>) -> bool {
    forall|i: int| 0 <= i < slots.len() ==> (#[trigger] slots[i]).element < 255 && slot_component(slots[i]) < 255
}

/// The result of checking a layout against a corpus.
#[derive(Debug, Default)]
pub struct LayoutAudit {
    tag: String,
    segments_examined: usize,
    findings: Vec<LayoutFinding>,
}

/// What an audit states.
pub struct AuditView {
    /// The tag audited.
    pub tag: Seq<char>,
    /// How many segments carried it.
    pub segments_examined: nat,
    /// The findings, in the order found.
    pub findings: Seq<FindingView>,
}

impl View for LayoutAudit {
    type V = AuditView;

    closed spec fn view(&self) -> AuditView {
        AuditView { tag: self.tag@, segments_examined: self.segments_examined as nat, findings: finding_views(self.findings@) }
    }
}

/// The audit states what checking a layout against `segs` finds.
pub open spec fn audit_is(a: AuditView, tag: Seq<char>, slots: Seq<SlotSpec>, segs: Seq<Segment>) -> bool {
    let (fs, n) = audit_spec(tag, slots, segs);
    a.tag == tag && a.findings == fs && a.segments_examined == n
}

fn push_once(findings: &mut Vec<LayoutFinding>, finding: LayoutFinding)
    ensures
        finding_views(final(findings)@) == push_once_spec(finding_views(old(findings)@), finding@),
{
    let ghost fs = finding_views(findings@);
    let mut k: usize = 0;
    while k < findings.len()
        invariant
            k <= findings@.len(),
            fs == finding_views(findings@),
            forall|j: int| 0 <= j < k ==> !same_position(#[trigger] fs[j], finding@),
        decreases findings@.len() - k,
    {
        let dup = match (&findings[k], &finding) {
            (LayoutFinding::UndeclaredElement { element: a, .. }, LayoutFinding::UndeclaredElement { element: b, .. }) => *a == *b,
            (LayoutFinding::UndeclaredComponent { element: a, component: c, .. },
                LayoutFinding::UndeclaredComponent { element: b, component: d, .. }) => *a == *b && *c == *d,
            _ => false,
        };
        assert(fs[k as int] == findings@[k as int]@);
        if dup {
            assert(same_position(fs[k as int], finding@));
            return;
        }
        k = k + 1;
    }
    let ghost before = findings@;
    findings.push(finding);
    assert(finding_views(findings@) =~= finding_views(before).push(finding@));
}

fn declared_element_count(slots: &[LayoutSlot]) -> (r: usize)
    requires
        slots_fit(slot_views(slots@)),
    ensures
        r == declared_elements(slot_views(slots@)),
        r <= 255,
{
    let ghost sv = slot_views(slots@);
    let mut m: usize = 0;
    let mut i: usize = 0;
    while i < slots.len()
        invariant
            i <= slots@.len(),
            sv == slot_views(slots@),
            slots_fit(sv),
            m == declared_elements(sv.take(i as int)),
            m <= 255,
        decreases slots@.len() - i,
    {
        proof {
            assert(sv.take(i + 1).drop_last() =~= sv.take(i as int));
            assert(sv[i as int] == slots@[i as int]@);
        }
        if slots[i].element + 1 > m {
            m = slots[i].element + 1;
        }
        i = i + 1;
    }
    proof { assert(sv.take(sv.len() as int) =~= sv); }
    m
}

fn declared_component_counts(slots: &[LayoutSlot], de: usize) -> (r: Vec<usize>)
    requires
        slots_fit(slot_views(slots@)),
        de == declared_elements(slot_views(slots@)),
    ensures
        r@.len() == de,
        forall|e: int| 0 <= e < de ==> #[trigger] r@[e] == declared_components(slot_views(slots@), e) && r@[e] <= 255,
{
    let ghost sv = slot_views(slots@);
    let mut dc: Vec<usize> = vec![0usize; de];
    let mut i: usize = 0;
    while i < slots.len()
        invariant
            i <= slots@.len(),
            sv == slot_views(slots@),
            slots_fit(sv),
            de == declared_elements(sv),
            dc@.len() == de,
            forall|e: int| 0 <= e < de ==> #[trigger] dc@[e] == declared_components(sv.take(i as int), e) && dc@[e] <= 255,
        decreases slots@.len() - i,
    {
        proof {
            assert(sv.take(i + 1).drop_last() =~= sv.take(i as int));
            assert(sv[i as int] == slots@[i as int]@);
            lemma_declared_elements_bound(sv, i as int);
        }
        let e = slots[i].element;
        let width = slots[i].component_index() + 1;
        if width > dc[e] {
            dc.set(e, width);
        }
        i = i + 1;
    }
    proof { assert(sv.take(sv.len() as int) =~= sv); }
    dc
}

proof fn lemma_declared_elements_bound(sv: Seq<SlotSpec>, i: int)
    requires
        0 <= i < sv.len(),
    ensures
        sv[i].element < declared_elements(sv),
    decreases sv.len(),
{
    if i < sv.len() - 1 {
        lemma_declared_elements_bound(sv.drop_last(), i);
    }
}

fn audit_layout(tag: &str, slots: &[LayoutSlot], segments: &[Segment]) -> (r: LayoutAudit)
    requires
        slots_fit(slot_views(slots@)),
    ensures
        audit_is(r@, tag@, slot_views(slots@), segments@),
{
    let ghost sv = slot_views(slots@);
    let de = declared_element_count(slots);
    let dc = declared_component_counts(slots, de);
    let mut pop: Vec<bool> = vec![false; de * WIDTH];
    let mut findings: Vec<LayoutFinding> = Vec::new();
    let mut examined: usize = 0;
    let ghost st0: AuditState = (Seq::empty(), Seq::new((de * WIDTH) as nat, |i: int| false), 0nat);
    proof { assert(pop@ =~= st0.1); }
    let mut s: usize = 0;
    while s < segments.len()
        invariant
            s <= segments@.len(),
            sv == slot_views(slots@),
            de == declared_elements(sv),
            de <= 255,
            dc@.len() == de,
            forall|e: int| 0 <= e < de ==> #[trigger] dc@[e] == declared_components(sv, e) && dc@[e] <= 255,
            pop@.len() == de * WIDTH,
            examined <= s,
            (finding_views(findings@), pop@, examined as nat) == segs_step(sv, st0, tag@, segments@.take(s as int)),
        decreases segments@.len() - s,
    {
        let seg = &segments[s];
        proof {
            assert(segments@.take(s + 1).drop_last() =~= segments@.take(s as int));
            assert(segments@.take(s + 1).last() == *seg);
        }
        if str_eq(seg.tag.as_str(), tag) {
            examined = examined + 1;
            let mut e: usize = 0;
            let ghost st_seg: AuditState = (finding_views(findings@), pop@, examined as nat);
            while e < seg.elements.len()
                invariant
                    e <= seg.elements@.len(),
                    sv == slot_views(slots@),
                    de == declared_elements(sv),
                    de <= 255,
                    dc@.len() == de,
                    forall|x: int| 0 <= x < de ==> #[trigger] dc@[x] == declared_components(sv, x) && dc@[x] <= 255,
                    pop@.len() == de * WIDTH,
                    (finding_views(findings@), pop@, examined as nat) == elems_step(sv, st_seg, seg.elements@.take(e as int), seg.span),
                decreases seg.elements@.len() - e,
            {
                let element = &seg.elements[e];
                let occs = element.repetitions();
                let ghost st_el: AuditState = (finding_views(findings@), pop@, examined as nat);
                let mut o: usize = 0;
                while o < occs.len()
                    invariant
                        o <= occs@.len(),
                        occs@.len() == occurrences(*element).len(),
                        forall|i: int| 0 <= i < occs@.len() ==> (#[trigger] occs@[i])@ == occurrences(*element)[i],
                        sv == slot_views(slots@),
                        de == declared_elements(sv),
                        de <= 255,
                        dc@.len() == de,
                        forall|x: int| 0 <= x < de ==> #[trigger] dc@[x] == declared_components(sv, x) && dc@[x] <= 255,
                        pop@.len() == de * WIDTH,
                        (finding_views(findings@), pop@, examined as nat)
                            == occs_step(sv, st_el, e as int, occurrences(*element).take(o as int), seg.span),
                    decreases occs@.len() - o,
                {
                    let items = occs[o];
                    let ghost st_occ: AuditState = (finding_views(findings@), pop@, examined as nat);
                    let mut c: usize = 0;
                    while c < items.len()
                        invariant
                            c <= items@.len(),
                            sv == slot_views(slots@),
                            de == declared_elements(sv),
                            de <= 255,
                            dc@.len() == de,
                            forall|x: int| 0 <= x < de ==> #[trigger] dc@[x] == declared_components(sv, x) && dc@[x] <= 255,
                            pop@.len() == de * WIDTH,
                            (finding_views(findings@), pop@, examined as nat)
                                == items_step(sv, st_occ, e as int, items@.take(c as int), seg.span),
                        decreases items@.len() - c,
                    {
                        proof { assert(items@.take(c + 1).drop_last() =~= items@.take(c as int)); }
                        proof { reveal_strlit(""); }
                        let empty = str_eq(items[c].0.as_str(), "");
                        proof { if !empty && items@[c as int].0@.len() == 0 { assert(items@[c as int].0@ =~= ""@); } }
                        proof { assert(items@.take(c + 1).last() == items@[c as int]); }
                        if !empty {
                            if e >= de {
                                push_once(&mut findings, LayoutFinding::UndeclaredElement { element: e, span: seg.span });
                            } else if c >= dc[e] {
                                push_once(&mut findings, LayoutFinding::UndeclaredComponent { element: e, component: c, span: seg.span });
                            } else {
                                pop.set(e * WIDTH + c, true);
                            }
                        }
                        c = c + 1;
                    }
                    proof {
                        assert(items@.take(items@.len() as int) =~= items@);
                        assert(occurrences(*element).take(o + 1).drop_last() =~= occurrences(*element).take(o as int));
                        assert(occurrences(*element).take(o + 1).last() == items@);
                    }
                    o = o + 1;
                }
                proof {
                    assert(occurrences(*element).take(occs@.len() as int) =~= occurrences(*element));
                    assert(seg.elements@.take(e + 1).drop_last() =~= seg.elements@.take(e as int));
                    assert(seg.elements@.take(e + 1).last() == *element);
                }
                e = e + 1;
            }
            proof { assert(seg.elements@.take(seg.elements@.len() as int) =~= seg.elements@); }
        }
        s = s + 1;
    }
    proof { assert(segments@.take(segments@.len() as int) =~= segments@); }
    let ghost pop_final = pop@;
    let ghost head = finding_views(findings@);
    let mut i: usize = 0;
    while i < slots.len()
        invariant
            i <= slots@.len(),
            sv == slot_views(slots@),
            slots_fit(sv),
            de == declared_elements(sv),
            de <= 255,
            dc@.len() == de,
            forall|x: int| 0 <= x < de ==> #[trigger] dc@[x] == declared_components(sv, x) && dc@[x] <= 255,
            pop@ == pop_final,
            pop@.len() == de * WIDTH,
            finding_views(findings@) == head + slot_findings(sv, sv.take(i as int), pop_final),
        decreases slots@.len() - i,
    {
        let slot = &slots[i];
        proof {
            assert(sv.take(i + 1).drop_last() =~= sv.take(i as int));
            assert(sv.take(i + 1).last() == slot@);
            lemma_declared_elements_bound(sv, i as int);
            lemma_declared_components_bound(sv, i as int);
        }
        let ci = slot.component_index();
        if !pop[slot.element * WIDTH + ci] {
            let mut element_seen = false;
            let mut k: usize = 0;
            while k < dc[slot.element]
                invariant
                    k <= dc@[slot.element as int],
                    slot.element < de,
                    de <= 255,
                    dc@.len() == de,
                    dc@[slot.element as int] <= 255,
                    pop@.len() == de * WIDTH,
                    element_seen == exists|c: int| 0 <= c < k && pop@[#[trigger] (slot.element * WIDTH + c)],
                decreases dc@[slot.element as int] - k,
            {
                assert(slot.element * WIDTH + k < de * WIDTH) by (nonlinear_arith)
                    requires slot.element < de, k < 256, WIDTH == 256;
                if pop[slot.element * WIDTH + k] {
                    element_seen = true;
                }
                k = k + 1;
            }
            let required = slot.status == Status::Mandatory
                && (slot.component.is_none() || slot.element_status == Status::Mandatory || element_seen);
            let f = if required {
                LayoutFinding::MandatoryNeverPopulated { slot: slot.clone() }
            } else {
                LayoutFinding::NeverObserved { slot: slot.clone() }
            };
            let ghost before = findings@;
            findings.push(f);
            proof { assert(finding_views(findings@) =~= finding_views(before).push(f@)); }
        }
        i = i + 1;
    }
    proof { assert(sv.take(sv.len() as int) =~= sv); }
    LayoutAudit { tag: own(tag), segments_examined: examined, findings }
}

proof fn lemma_declared_components_bound(sv: Seq<SlotSpec>, i: int)
    requires
        0 <= i < sv.len(),
    ensures
        slot_component(sv[i]) < declared_components(sv, sv[i].element as int),
    decreases sv.len(),
{
    if i < sv.len() - 1 {
        lemma_declared_components_bound(sv.drop_last(), i);
    }
}

// ── layouts ────────────────────────────────────────────────────────────────

/// Directory metadata that maps data element identifiers to positions.
pub trait SegmentLayout {
    /// The tag the layout describes.
    spec fn tag_spec(&self) -> Seq<char>;

    /// What the layout states of its elements.
    spec fn layout_spec(&self) -> Seq<ElemSpec>;

    /// The tag the layout describes.
    fn layout_tag(&self) -> (r: &str)
        ensures
            r@ == self.tag_spec();

    /// The position of a data element identifier.
    fn resolve_code(&self, data_element: &str) -> (r: Result<ElementPath, EdifactError>)
        ensures
            resolved(self.tag_spec(), self.layout_spec(), data_element@, r);

    /// Every declared position, flattened, in order.
    fn slots(&self) -> (r: Vec<LayoutSlot>)
        ensures
            slot_views(r@) == layout_slots(self.layout_spec()),
            slots_fit(slot_views(r@));

    /// The layout checked against the segments with its tag.
    fn audit(&self, segments: &[Segment]) -> (r: LayoutAudit)
        ensures
            audit_is(r@, self.tag_spec(), layout_slots(self.layout_spec()), segments@),
    {
        let slots = self.slots();
        audit_layout(self.layout_tag(), slots.as_slice(), segments)
    }
}

impl SegmentLayout for SegmentDefinition {
    open spec fn tag_spec(&self) -> Seq<char> {
        self.tag@
    }

    open spec fn layout_spec(&self) -> Seq<ElemSpec> {
        self.layout()
    }

    fn layout_tag(&self) -> (r: &str) {
        self.tag
    }

    fn resolve_code(&self, data_element: &str) -> (r: Result<ElementPath, EdifactError>) {
        let (hits, found) = layout_scan(self.elements, data_element, 2);
        proof { lemma_one_hit_has_path(self.layout(), data_element@); }
        resolve_outcome(self.tag, data_element, hits, found)
    }

    fn slots(&self) -> (r: Vec<LayoutSlot>) {
        static_slots(self.elements)
    }
}

impl SegmentLayout for OwnedSegmentDef {
    closed spec fn tag_spec(&self) -> Seq<char> {
        self.tag@
    }

    closed spec fn layout_spec(&self) -> Seq<ElemSpec> {
        self.layout()
    }

    fn layout_tag(&self) -> (r: &str) {
        self.tag.as_str()
    }

    fn resolve_code(&self, data_element: &str) -> (r: Result<ElementPath, EdifactError>) {
        let (hits, found) = owned_layout_scan(self.elements.as_slice(), data_element, 2);
        proof { lemma_one_hit_has_path(self.layout(), data_element@); }
        resolve_outcome(self.tag.as_str(), data_element, hits, found)
    }

    fn slots(&self) -> (r: Vec<LayoutSlot>) {
        owned_slots(self.elements.as_slice())
    }
}

/// A finding contradicts the layout (as opposed to leaving a slot unconfirmed).
pub open spec fn is_contradiction(f: FindingView) -> bool {
    !(f is NeverObserved)
}

/// The findings that contradict the layout, in order.
pub open spec fn contradictions_of(fs: Seq<FindingView>) -> Seq<FindingView>
    decreases fs.len(),
{
    if fs.len() == 0 {
        Seq::empty()
    } else if is_contradiction(fs.last()) {
        contradictions_of(fs.drop_last()).push(fs.last())
    } else {
        contradictions_of(fs.drop_last())
    }
}

/// The slots no segment populated, in order.
pub open spec fn unconfirmed_of(fs: Seq<FindingView>) -> Seq<SlotSpec>
    decreases fs.len(),
{
    if fs.len() == 0 {
        Seq::empty()
    } else {
        match fs.last() {
            FindingView::NeverObserved { slot } => unconfirmed_of(fs.drop_last()).push(slot),
            _ => unconfirmed_of(fs.drop_last()),
        }
    }
}

/// An audit's findings split in two: every finding is either a
/// contradiction or an unconfirmed slot, so the two counts add up to all
/// findings, and an audit has contradictions exactly when some finding is
/// not an unconfirmed slot.
pub proof fn law_findings_partition(fs: Seq<FindingView>)
    ensures
        contradictions_of(fs).len() + unconfirmed_of(fs).len() == fs.len(),
        (contradictions_of(fs).len() > 0) == (exists|k: int| 0 <= k < fs.len() && !(#[trigger] fs[k] is NeverObserved)),
    decreases fs.len(),
{
    if fs.len() > 0 {
        let p = fs.drop_last();
        law_findings_partition(p);
        if exists|k: int| 0 <= k < p.len() && !(#[trigger] p[k] is NeverObserved) {
            let k = choose|k: int| 0 <= k < p.len() && !(#[trigger] p[k] is NeverObserved);
            assert(fs[k] == p[k]);
        }
        if exists|k: int| 0 <= k < fs.len() && !(#[trigger] fs[k] is NeverObserved) {
            let k = choose|k: int| 0 <= k < fs.len() && !(#[trigger] fs[k] is NeverObserved);
            if k < p.len() { assert(p[k] == fs[k]); }
        }
    }
}

/// A slot described: `DE id (element e, component c)` or `DE id (element e)`.
pub open spec fn slot_text(s: SlotSpec) -> Seq<char> {
    "DE "@ + s.data_element + " (element "@ + decimal(s.element as nat)
        + (match s.component { Some(c) => ", component "@ + decimal(c as nat), None => Seq::<char>::empty() }) + ")"@
}

/// One line describing a finding.
pub open spec fn finding_text(f: FindingView) -> Seq<char> {
    match f {
        FindingView::UndeclaredElement { element, span } =>
            "  element "@ + decimal(element as nat) + " is populated at bytes "@ + span_text(span)
                + " but the layout declares no such element\n"@,
        FindingView::UndeclaredComponent { element, component, span } =>
            "  element "@ + decimal(element as nat) + " component "@ + decimal(component as nat) + " is populated at bytes "@
                + span_text(span) + " but the layout declares no such component\n"@,
        FindingView::MandatoryNeverPopulated { slot } =>
            "  "@ + slot_text(slot) + " is declared mandatory but is empty in every segment\n"@,
        FindingView::NeverObserved { slot } =>
            "  "@ + slot_text(slot) + " was never populated — this corpus cannot confirm it\n"@,
    }
}

/// The lines describing each finding.
pub open spec fn findings_text(fs: Seq<FindingView>) -> Seq<char>
    decreases fs.len(),
{
    if fs.len() == 0 { Seq::empty() } else { findings_text(fs.drop_last()) + finding_text(fs.last()) }
}

/// An audit described: a summary line, then one line per finding.
pub open spec fn audit_text(a: AuditView) -> Seq<char> {
    a.tag + ": "@ + decimal(a.segments_examined) + " segment(s) examined, "@
        + decimal(contradictions_of(a.findings).len()) + " contradiction(s), "@
        + decimal(unconfirmed_of(a.findings).len()) + " unconfirmed slot(s)\n"@
        + findings_text(a.findings)
}

fn describe_slot(slot: &LayoutSlot) -> (r: String)
    ensures
        r@ == slot_text(slot@),
{
    let mut out = own("DE ");
    string_push_str(&mut out, slot.data_element.as_str());
    string_push_str(&mut out, " (element ");
    let e = decimal_string(slot.element as u128);
    string_push_str(&mut out, e.as_str());
    let ghost mid = out@;
    match slot.component {
        Some(c) => {
            string_push_str(&mut out, ", component ");
            let t = decimal_string(c as u128);
            string_push_str(&mut out, t.as_str());
        },
        None => {
            assert(out@ =~= mid + Seq::<char>::empty());
        },
    }
    string_push_str(&mut out, ")");
    out
}

fn describe_finding(f: &LayoutFinding) -> (r: String)
    ensures
        r@ == finding_text(f@),
{
    match f {
        LayoutFinding::UndeclaredElement { element, span } => {
            let mut out = own("  element ");
            let e = decimal_string(*element as u128);
            string_push_str(&mut out, e.as_str());
            string_push_str(&mut out, " is populated at bytes ");
            let sp = span.to_string();
            string_push_str(&mut out, sp.as_str());
            string_push_str(&mut out, " but the layout declares no such element\n");
            out
        },
        LayoutFinding::UndeclaredComponent { element, component, span } => {
            let mut out = own("  element ");
            let e = decimal_string(*element as u128);
            string_push_str(&mut out, e.as_str());
            string_push_str(&mut out, " component ");
            let c = decimal_string(*component as u128);
            string_push_str(&mut out, c.as_str());
            string_push_str(&mut out, " is populated at bytes ");
            let sp = span.to_string();
            string_push_str(&mut out, sp.as_str());
            string_push_str(&mut out, " but the layout declares no such component\n");
            out
        },
        LayoutFinding::MandatoryNeverPopulated { slot } => {
            let mut out = own("  ");
            let d = describe_slot(slot);
            string_push_str(&mut out, d.as_str());
            string_push_str(&mut out, " is declared mandatory but is empty in every segment\n");
            out
        },
        LayoutFinding::NeverObserved { slot } => {
            let mut out = own("  ");
            let d = describe_slot(slot);
            string_push_str(&mut out, d.as_str());
            string_push_str(&mut out, " was never populated — this corpus cannot confirm it\n");
            out
        },
    }
}

impl LayoutAudit {
    /// The tag audited.
    pub fn tag(&self) -> (r: &str)
        ensures
            r@ == self@.tag,
    {
        self.tag.as_str()
    }

    /// How many segments carried the tag.
    pub fn segments_examined(&self) -> (r: usize)
        ensures
            r == self@.segments_examined,
    {
        self.segments_examined
    }

    /// Every finding, in the order found.
    pub fn findings(&self) -> (r: &[LayoutFinding])
        ensures
            finding_views(r@) == self@.findings,
    {
        self.findings.as_slice()
    }

    /// The findings that contradict the layout, in order.
    pub fn contradictions(&self) -> (r: Vec<&LayoutFinding>)
        ensures
            r@.map_values(|f: &LayoutFinding| f@) == contradictions_of(self@.findings),
    {
        let ghost fs = self@.findings;
        let mut out: Vec<&LayoutFinding> = Vec::new();
        let mut i: usize = 0;
        while i < self.findings.len()
            invariant
                i <= self.findings@.len(),
                fs == finding_views(self.findings@),
                out@.map_values(|f: &LayoutFinding| f@) == contradictions_of(fs.take(i as int)),
            decreases self.findings@.len() - i,
        {
            proof {
                assert(fs.take(i + 1).drop_last() =~= fs.take(i as int));
                assert(fs.take(i + 1).last() == self.findings@[i as int]@);
            }
            let f = &self.findings[i];
            let keep = match f { LayoutFinding::NeverObserved { .. } => false, _ => true };
            if keep {
                let ghost prev = out@;
                out.push(f);
                proof { assert(out@.map_values(|f: &LayoutFinding| f@) =~= prev.map_values(|f: &LayoutFinding| f@).push(f@)); }
            }
            i = i + 1;
        }
        proof { assert(fs.take(fs.len() as int) =~= fs); }
        out
    }

    /// The corpus contradicts the layout.
    pub fn has_contradictions(&self) -> (r: bool)
        ensures
            r == (contradictions_of(self@.findings).len() > 0),
    {
        self.contradictions().len() > 0
    }

    /// The slots no segment populated, in order.
    pub fn unconfirmed(&self) -> (r: Vec<&LayoutSlot>)
        ensures
            r@.map_values(|s: &LayoutSlot| s@) == unconfirmed_of(self@.findings),
    {
        let ghost fs = self@.findings;
        let mut out: Vec<&LayoutSlot> = Vec::new();
        let mut i: usize = 0;
        while i < self.findings.len()
            invariant
                i <= self.findings@.len(),
                fs == finding_views(self.findings@),
                out@.map_values(|s: &LayoutSlot| s@) == unconfirmed_of(fs.take(i as int)),
            decreases self.findings@.len() - i,
        {
            proof {
                assert(fs.take(i + 1).drop_last() =~= fs.take(i as int));
                assert(fs.take(i + 1).last() == self.findings@[i as int]@);
            }
            if let LayoutFinding::NeverObserved { slot } = &self.findings[i] {
                let ghost prev = out@;
                out.push(slot);
                proof { assert(out@.map_values(|s: &LayoutSlot| s@) =~= prev.map_values(|s: &LayoutSlot| s@).push(slot@)); }
            }
            i = i + 1;
        }
        proof { assert(fs.take(fs.len() as int) =~= fs); }
        out
    }

    /// A summary line, then one line per finding.
    pub fn to_string(&self) -> (r: String)
        ensures
            r@ == audit_text(self@),
    {
        let mut out = self.tag.clone();
        string_push_str(&mut out, ": ");
        let n = decimal_string(self.segments_examined as u128);
        string_push_str(&mut out, n.as_str());
        string_push_str(&mut out, " segment(s) examined, ");
        let c = decimal_string(self.contradictions().len() as u128);
        string_push_str(&mut out, c.as_str());
        string_push_str(&mut out, " contradiction(s), ");
        let u = decimal_string(self.unconfirmed().len() as u128);
        string_push_str(&mut out, u.as_str());
        string_push_str(&mut out, " unconfirmed slot(s)\n");
        let ghost head = out@;
        let ghost fs = self@.findings;
        let mut i: usize = 0;
        while i < self.findings.len()
            invariant
                i <= self.findings@.len(),
                fs == finding_views(self.findings@),
                out@ == head + findings_text(fs.take(i as int)),
            decreases self.findings@.len() - i,
        {
            proof {
                assert(fs.take(i + 1).drop_last() =~= fs.take(i as int));
                assert(fs.take(i + 1).last() == self.findings@[i as int]@);
            }
            let line = describe_finding(&self.findings[i]);
            string_push_str(&mut out, line.as_str());
            i = i + 1;
        }
        proof { assert(fs.take(fs.len() as int) =~= fs); }
        out
    }
}

/// The distinct tags of the segments, in order of first appearance.
pub open spec fn distinct_tags(segs: Seq<Segment>) -> Seq<Seq<char>>
    decreases segs.len(),
{
    if segs.len() == 0 {
        Seq::empty()
    } else {
        let prev = distinct_tags(segs.drop_last());
        if prev.contains(segs.last().tag@) { prev } else { prev.push(segs.last().tag@) }
    }
}

/// Audits every layout the corpus exercises: for each distinct tag, in order
/// of first appearance, the layout `lookup` finds for it, if any, audited
/// against all of `segments`.
pub fn audit_directory<'a, L: SegmentLayout + 'a, F: Fn(&str) -> Option<&'a L>>(lookup: F, segments: &[Segment]) -> (r: Vec<LayoutAudit>)
    requires
        forall|t: &str| #[trigger] lookup.requires((t,)),
    ensures
        r@.len() <= distinct_tags(segments@).len(),
        exists|at: Seq<int>| #![trigger at.len()] {
            &&& at.len() == r@.len()
            &&& forall|k: int, m: int| 0 <= k < m < at.len() ==> at[k] < at[m]
            &&& forall|k: int| 0 <= k < at.len() ==> 0 <= #[trigger] at[k] < distinct_tags(segments@).len()
                && exists|t: &str, l: &'a L| t@ == distinct_tags(segments@)[at[k]]
                    && lookup.ensures((t,), Some(l))
                    && audit_is(r@[k]@, l.tag_spec(), layout_slots(l.layout_spec()), segments@)
            &&& forall|i: int| 0 <= i < distinct_tags(segments@).len() ==> #[trigger] at.contains(i)
                || exists|t: &str| t@ == distinct_tags(segments@)[i] && lookup.ensures((t,), None::<&'a L>)
        },
{
    let mut seen: Vec<&str> = Vec::new();
    let mut i: usize = 0;
    while i < segments.len()
        invariant
            i <= segments@.len(),
            seen@.map_values(|t: &str| t@) == distinct_tags(segments@.take(i as int)),
        decreases segments@.len() - i,
    {
        proof { assert(segments@.take(i + 1).drop_last() =~= segments@.take(i as int)); }
        let tag = segments[i].tag.as_str();
        let ghost tv = seen@.map_values(|t: &str| t@);
        let mut known = false;
        let mut k: usize = 0;
        while k < seen.len()
            invariant
                k <= seen@.len(),
                tv == seen@.map_values(|t: &str| t@),
                known == exists|j: int| 0 <= j < k && tv[j] == tag@,
            decreases seen@.len() - k,
        {
            assert(tv[k as int] == seen@[k as int]@);
            if str_eq(seen[k], tag) {
                known = true;
            }
            k = k + 1;
        }
        proof {
            assert(segments@.take(i + 1).last().tag@ == tag@);
            if known {
                let j = choose|j: int| 0 <= j < seen@.len() && tv[j] == tag@;
                assert(tv.contains(tag@));
            } else {
                assert(!tv.contains(tag@));
            }
        }
        if !known {
            seen.push(tag);
            proof { assert(seen@.map_values(|t: &str| t@) =~= tv.push(tag@)); }
        }
        i = i + 1;
    }
    proof { assert(segments@.take(segments@.len() as int) =~= segments@); }
    let ghost tags = distinct_tags(segments@);
    let mut out: Vec<LayoutAudit> = Vec::new();
    let ghost mut at: Seq<int> = Seq::empty();
    let mut j: usize = 0;
    while j < seen.len()
        invariant
            j <= seen@.len(),
            tags == distinct_tags(segments@),
            seen@.map_values(|t: &str| t@) == tags,
            forall|t: &str| #[trigger] lookup.requires((t,)),
            at.len() == out@.len(),
            at.len() <= j,
            forall|k: int, m: int| 0 <= k < m < at.len() ==> at[k] < at[m],
            forall|k: int| 0 <= k < at.len() ==> 0 <= #[trigger] at[k] < j
                && exists|t: &str, l: &'a L| t@ == tags[at[k]]
                    && lookup.ensures((t,), Some(l))
                    && audit_is(out@[k]@, l.tag_spec(), layout_slots(l.layout_spec()), segments@),
            forall|i: int| 0 <= i < j ==> #[trigger] at.contains(i)
                || exists|t: &str| t@ == tags[i] && lookup.ensures((t,), None::<&'a L>),
        decreases seen@.len() - j,
    {
        let t = seen[j];
        match lookup(t) {
            Some(layout) => {
                let a = layout.audit(segments);
                proof { assert(t@ == tags[j as int]); }
                let ghost prev_out = out@;
                out.push(a);
                proof {
                    let old_at = at;
                    at = at.push(j as int);
                    assert forall|i: int| 0 <= i < j + 1 implies #[trigger] at.contains(i)
                        || exists|t: &str| t@ == tags[i] && lookup.ensures((t,), None::<&'a L>) by {
                        if i == j {
                            assert(at[at.len() - 1] == i);
                        } else if old_at.contains(i) {
                            let w = choose|w: int| 0 <= w < old_at.len() && old_at[w] == i;
                            assert(at[w] == i);
                        }
                    }
                    assert forall|k: int| 0 <= k < at.len() implies 0 <= #[trigger] at[k] < j + 1
                        && exists|t: &str, l: &'a L| t@ == tags[at[k]]
                            && lookup.ensures((t,), Some(l))
                            && audit_is(out@[k]@, l.tag_spec(), layout_slots(l.layout_spec()), segments@) by {
                        if k == at.len() - 1 {
                            assert(out@[k] == a);
                        } else {
                            assert(out@[k] == prev_out[k]);
                        }
                    }
                }
            },
            None => {
                proof { assert(t@ == tags[j as int]); }
            },
        }
        j = j + 1;
    }
    out
}

// ── building a validator from owned definitions ────────────────────────────

/// Collects runtime segment definitions for a directory validator.
#[derive(Debug, Default)]
pub struct DirectoryValidatorBuilder {
    directory_id: Option<String>,
    segments: Vec<OwnedSegmentDef>,
}

impl DirectoryValidatorBuilder {
    /// The directory identifier, if set.
    pub closed spec fn directory_id_of(&self) -> Option<Seq<char>> {
        match self.directory_id { Some(d) => Some(d@), None => None }
    }

    /// The tags and layouts of the definitions added, in order.
    pub closed spec fn definitions_of(&self) -> Seq<(Seq<char>, Seq<ElemSpec>)> {
        self.segments@.map_values(|d: OwnedSegmentDef| (d.tag_of(), d.layout()))
    }

    /// A builder for the directory `directory_id`, with no definitions.
    pub fn new(directory_id: &str) -> (r: DirectoryValidatorBuilder)
        ensures
            r.directory_id_of() == Some(directory_id@),
            r.definitions_of().len() == 0,
    {
        let r = DirectoryValidatorBuilder { directory_id: Some(own(directory_id)), segments: Vec::new() };
        assert(r.definitions_of() =~= Seq::<(Seq<char>, Seq<ElemSpec>)>::empty());
        r
    }

    /// This builder with one more definition.
    pub fn add_segment(self, def: OwnedSegmentDef) -> (r: DirectoryValidatorBuilder)
        ensures
            r.directory_id_of() == self.directory_id_of(),
            r.definitions_of() == self.definitions_of().push((def.tag_of(), def.layout())),
    {
        let mut b = self;
        let ghost entry = (def.tag_of(), def.layout());
        b.segments.push(def);
        assert(b.definitions_of() =~= self.definitions_of().push(entry));
        b
    }

    /// This builder with the definitions added, in order.
    pub fn add_segments(self, defs: Vec<OwnedSegmentDef>) -> (r: DirectoryValidatorBuilder)
        ensures
            r.directory_id_of() == self.directory_id_of(),
            r.definitions_of() == self.definitions_of() + defs@.map_values(|d: OwnedSegmentDef| (d.tag_of(), d.layout())),
    {
        let mut b = self;
        let mut defs = defs;
        let ghost added = defs@.map_values(|d: OwnedSegmentDef| (d.tag_of(), d.layout()));
        let ghost base = b.definitions_of();
        b.segments.append(&mut defs);
        assert(b.definitions_of() =~= base + added);
        b
    }
}


// ── Checking segments against their definitions ─────────────────────────────

/// The highest element position a layout declares (0 for none).
pub open spec fn max_position(l: Seq<ElemSpec>) -> int
    decreases l.len(),
{
    if l.len() == 0 {
        0
    } else {
        let m = max_position(l.drop_last());
        if l.last().position as int > m { l.last().position as int } else { m }
    }
}

/// The highest position of a mandatory element (0 for none): the fewest
/// elements a segment may carry.
pub open spec fn last_mandatory(l: Seq<ElemSpec>) -> int
    decreases l.len(),
{
    if l.len() == 0 {
        0
    } else {
        let m = last_mandatory(l.drop_last());
        if l.last().status == Status::Mandatory && l.last().position as int > m { l.last().position as int } else { m }
    }
}

/// The first element declared at one-based position `p`.
pub open spec fn find_elem(l: Seq<ElemSpec>, p: int) -> Option<ElemSpec>
    decreases l.len(),
{
    if l.len() == 0 {
        None
    } else if l[0].position as int == p {
        Some(l[0])
    } else {
        find_elem(l.drop_first(), p)
    }
}

/// The element declared for zero-based index `i`, if the index has a
/// one-based position a `u8` can hold and an element is declared there.
pub open spec fn elem_for(l: Seq<ElemSpec>, i: int) -> Option<ElemSpec> {
    if i + 1 <= 255 { find_elem(l, i + 1) } else { None }
}

/// The declared most occurrences of the element at index `i`.
pub open spec fn max_repeat_for(l: Seq<ElemSpec>, i: int) -> Option<u8> {
    match elem_for(l, i) {
        Some(e) => Some(e.max_repeat),
        None => None,
    }
}

/// The number of component slots the components declare.
pub open spec fn slot_total(cs: Seq<CompSpec>) -> int
    decreases cs.len(),
{
    if cs.len() == 0 { 0 } else { slot_total(cs.drop_last()) + cs.last().repeat_count as int }
}

proof fn lemma_slot_total_grows(cs: Seq<CompSpec>, j: int)
    requires
        0 <= j <= cs.len(),
    ensures
        slot_total(cs.take(j)) <= slot_total(cs),
    decreases cs.len() - j,
{
    if j < cs.len() {
        lemma_slot_total_grows(cs, j + 1);
        assert(cs.take(j + 1).drop_last() =~= cs.take(j));
    } else {
        assert(cs.take(j) =~= cs);
    }
}

/// The declared number of component slots of the element at index `i`:
/// `None` when it is not declared, declares no component slots, or more
/// than a `u8` can count.
pub open spec fn declared_slots(l: Seq<ElemSpec>, i: int) -> Option<u8> {
    match elem_for(l, i) {
        Some(e) => {
            let n = slot_total(e.components);
            if n == 0 || n > 255 { None } else { Some(n as u8) }
        },
        None => None,
    }
}

/// The first component whose slots cover one-based component position `p`.
pub open spec fn find_comp(cs: Seq<CompSpec>, p: int) -> Option<CompSpec>
    decreases cs.len(),
{
    if cs.len() == 0 {
        None
    } else {
        let first = cs[0].position as int;
        let last = if first + cs[0].repeat_count - 1 > 255 { 255 } else { first + cs[0].repeat_count - 1 };
        if first <= p <= last { Some(cs[0]) } else { find_comp(cs.drop_first(), p) }
    }
}

/// The representation that applies under `syntax_version`: the version 4
/// form from version 4 on where one is stated, both forms where the version
/// is unknown.
pub open spec fn choose_repr(base: Option<Repr>, v4: Option<Repr>, syntax_version: Option<u8>) -> Option<ReprRequirement> {
    match (base, v4) {
        (Some(b), None) => Some(ReprRequirement { primary: b, alternative: None }),
        (None, None) => None,
        (None, Some(f)) => Some(ReprRequirement { primary: f, alternative: None }),
        (Some(b), Some(f)) => Some(match syntax_version {
            Some(v) => if v >= 4 { ReprRequirement { primary: f, alternative: None } } else { ReprRequirement { primary: b, alternative: None } },
            None => ReprRequirement { primary: b, alternative: Some(f) },
        }),
    }
}

/// The representation required at zero-based `(element, component)`: a
/// simple element states it on itself and only at component 0, a composite
/// on the component whose slots cover the position.
pub open spec fn repr_for(l: Seq<ElemSpec>, element: int, component: int, syntax_version: Option<u8>) -> Option<ReprRequirement> {
    if component + 1 > 255 {
        None
    } else {
        match elem_for(l, element) {
            None => None,
            Some(e) => if e.components.len() == 0 {
                if component == 0 { choose_repr(e.repr, e.repr_from_v4, syntax_version) } else { None }
            } else {
                match find_comp(e.components, component + 1) {
                    Some(c) => choose_repr(c.repr, c.repr_from_v4, syntax_version),
                    None => None,
                }
            },
        }
    }
}

/// How many components remain once trailing empty ones are dropped.
pub open spec fn trimmed_len(items: Seq<(String, Span)>) -> int
    decreases items.len(),
{
    if items.len() == 0 {
        0
    } else if items.last().0@.len() == 0 {
        trimmed_len(items.drop_last())
    } else {
        items.len() as int
    }
}

/// The component count of element `i` of a segment once trailing empty
/// components are dropped (ISO 9735-1 §8.7.2), if the element exists and the
/// count fits a `u8`.
pub open spec fn effective_count(seg: Segment, i: int) -> Option<u8> {
    if 0 <= i < seg.elements@.len() {
        let n = trimmed_len(component_items(seg.elements@[i].components));
        if n <= 255 { Some(n as u8) } else { None }
    } else {
        None
    }
}

/// The number of components of element `element_index` of `seg`, trailing
/// empty components not counted (ISO 9735-1 §8.7.2 lets a sender omit them).
pub fn effective_component_count(seg: &Segment, element_index: usize) -> (r: Option<u8>)
    ensures
        r == effective_count(*seg, element_index as int),
{
    if element_index >= seg.elements.len() {
        return None;
    }
    let items = seg.elements[element_index].components.as_slice();
    let mut count = items.len();
    proof { reveal_strlit(""); }
    assert(items@.take(count as int) =~= items@);
    loop
        invariant
            count <= items@.len(),
            items@ == component_items(seg.elements@[element_index as int].components),
            trimmed_len(items@) == trimmed_len(items@.take(count as int)),
            ""@.len() == 0,
        ensures
            count <= items@.len(),
            trimmed_len(items@) == trimmed_len(items@.take(count as int)),
            count == 0 || items@[count - 1].0@.len() != 0,
        decreases count,
    {
        if count == 0 {
            break;
        }
        if !str_eq(items[count - 1].0.as_str(), "") {
            proof {
                if items@[count - 1].0@.len() == 0 {
                    assert(items@[count - 1].0@ =~= ""@);
                }
            }
            break;
        }
        proof {
            assert(items@.take(count as int).last() == items@[count - 1]);
            assert(items@.take(count as int).drop_last() =~= items@.take(count - 1));
        }
        count = count - 1;
    }
    proof {
        if count > 0 {
            assert(items@.take(count as int).last() == items@[count - 1]);
        }
        assert(items@.take(count as int).len() == count);
    }
    if count <= 255 { Some(count as u8) } else { None }
}

impl OwnedSegmentDef {
    fn max_element_position(&self) -> (r: usize)
        ensures
            r == max_position(self.layout()),
    {
        let mut m: usize = 0;
        let mut i: usize = 0;
        while i < self.elements.len()
            invariant
                i <= self.elements@.len(),
                m == max_position(self.layout().take(i as int)),
            decreases self.elements@.len() - i,
        {
            proof { assert(self.layout().take(i + 1).drop_last() =~= self.layout().take(i as int)); }
            let p = self.elements[i].position as usize;
            if p > m {
                m = p;
            }
            i = i + 1;
        }
        proof { assert(self.layout().take(i as int) =~= self.layout()); }
        m
    }

    fn last_mandatory_position(&self) -> (r: usize)
        ensures
            r == last_mandatory(self.layout()),
    {
        let mut m: usize = 0;
        let mut i: usize = 0;
        while i < self.elements.len()
            invariant
                i <= self.elements@.len(),
                m == last_mandatory(self.layout().take(i as int)),
            decreases self.elements@.len() - i,
        {
            proof { assert(self.layout().take(i + 1).drop_last() =~= self.layout().take(i as int)); }
            let p = self.elements[i].position as usize;
            if self.elements[i].status == Status::Mandatory && p > m {
                m = p;
            }
            i = i + 1;
        }
        proof { assert(self.layout().take(i as int) =~= self.layout()); }
        m
    }

    /// The index of the element declared for zero-based index `index`.
    fn elem_index_for(&self, index: usize) -> (r: Option<usize>)
        ensures
            match r {
                Some(k) => k < self.elements@.len() && elem_for(self.layout(), index as int) == Some(self.layout()[k as int]),
                None => elem_for(self.layout(), index as int) is None,
            },
    {
        if index >= 255 {
            return None;
        }
        let position = (index + 1) as u8;
        let mut k: usize = 0;
        assert(self.layout().skip(0) =~= self.layout());
        while k < self.elements.len()
            invariant
                k <= self.elements@.len(),
                position as int == index + 1,
                index < 255,
                find_elem(self.layout(), position as int) == find_elem(self.layout().skip(k as int), position as int),
            decreases self.elements@.len() - k,
        {
            assert(self.layout().skip(k as int)[0] == self.layout()[k as int]);
            if self.elements[k].position == position {
                return Some(k);
            }
            assert(self.layout().skip(k as int).drop_first() =~= self.layout().skip(k + 1));
            k = k + 1;
        }
        None
    }

    fn max_repeat_at(&self, index: usize) -> (r: Option<u8>)
        ensures
            r == max_repeat_for(self.layout(), index as int),
    {
        match self.elem_index_for(index) {
            Some(k) => Some(self.elements[k].max_repeat),
            None => None,
        }
    }

    fn declared_component_count(&self, index: usize) -> (r: Option<u8>)
        ensures
            r == declared_slots(self.layout(), index as int),
    {
        match self.elem_index_for(index) {
            None => None,
            Some(k) => {
                let cs = &self.elements[k].components;
                let ghost spec_cs = self.layout()[k as int].components;
                let mut total: u32 = 0;
                let mut j: usize = 0;
                while j < cs.len()
                    invariant
                        j <= cs@.len(),
                        spec_cs == cs@.map_values(|c: OwnedComponentRef| c@),
                        total == slot_total(spec_cs.take(j as int)),
                        total <= 255,
                        k < self.elements@.len(),
                        elem_for(self.layout(), index as int) == Some(self.layout()[k as int]),
                        spec_cs == self.layout()[k as int].components,
                    decreases cs@.len() - j,
                {
                    proof { assert(spec_cs.take(j + 1).drop_last() =~= spec_cs.take(j as int)); }
                    total = total + cs[j].repeat_count as u32;
                    proof {
                        assert(spec_cs.take(j + 1).last() == cs@[j as int]@);
                        assert(total == slot_total(spec_cs.take(j + 1)));
                    }
                    j = j + 1;
                    if total > 255 {
                        proof { lemma_slot_total_grows(spec_cs, j as int); }
                        return None;
                    }
                }
                proof { assert(spec_cs.take(j as int) =~= spec_cs); }
                if total == 0 || total > 255 { None } else { Some(total as u8) }
            },
        }
    }

    fn repr_at(&self, element: usize, component: usize, syntax_version: Option<u8>) -> (r: Option<ReprRequirement>)
        ensures
            r == repr_for(self.layout(), element as int, component as int, syntax_version),
    {
        if component >= 255 {
            return None;
        }
        let k = match self.elem_index_for(element) {
            Some(k) => k,
            None => return None,
        };
        let e = &self.elements[k];
        if e.components.len() == 0 {
            return if component == 0 { select_repr(e.repr, e.repr_from_v4, syntax_version) } else { None };
        }
        let ghost spec_cs = self.layout()[k as int].components;
        assert(self.layout()[k as int] == e@);
        let target = (component + 1) as u8;
        let mut j: usize = 0;
        assert(spec_cs.skip(0) =~= spec_cs);
        while j < e.components.len()
            invariant
                j <= e.components@.len(),
                spec_cs == e.components@.map_values(|c: OwnedComponentRef| c@),
                target as int == component + 1,
                component < 255,
                k < self.elements@.len(),
                e == &self.elements@[k as int],
                elem_for(self.layout(), element as int) == Some(self.layout()[k as int]),
                self.layout()[k as int] == e@,
                spec_cs == e@.components,
                spec_cs.len() > 0,
                find_comp(spec_cs, target as int) == find_comp(spec_cs.skip(j as int), target as int),
            decreases e.components@.len() - j,
        {
            let c = &e.components[j];
            proof { use_type_invariant(c); }
            assert(spec_cs.skip(j as int)[0] == c@);
            let first = c.position;
            let span = c.repeat_count - 1;
            let last: u8 = if first as u16 + span as u16 > 255 { 255 } else { first + span };
            if first <= target && target <= last {
                return select_repr(c.repr, c.repr_from_v4, syntax_version);
            }
            assert(spec_cs.skip(j as int).drop_first() =~= spec_cs.skip(j + 1));
            j = j + 1;
        }
        None
    }
}

fn select_repr(base: Option<Repr>, from_v4: Option<Repr>, syntax_version: Option<u8>) -> (r: Option<ReprRequirement>)
    ensures
        r == choose_repr(base, from_v4, syntax_version),
{
    match (base, from_v4) {
        (Some(b), None) => Some(ReprRequirement { primary: b, alternative: None }),
        (None, None) => None,
        (None, Some(f)) => Some(ReprRequirement { primary: f, alternative: None }),
        (Some(b), Some(f)) => Some(match syntax_version {
            Some(v) => if v >= 4 { ReprRequirement { primary: f, alternative: None } } else { ReprRequirement { primary: b, alternative: None } },
            None => ReprRequirement { primary: b, alternative: Some(f) },
        }),
    }
}


/// A finding of the directory checks, by its data.
pub enum DirFinding {
    /// `InvalidSegmentForMessage`: a tag the directory does not define.
    UnknownSegment { tag: Seq<char>, context: Seq<char>, span: Span },
    /// `InvalidElementCount`.
    ElementCount { tag: Seq<char>, min: int, max: int, actual: int, span: Span },
    /// `MissingRequiredElement`.
    MissingElement { tag: Seq<char>, element: int },
    /// `MissingRequiredComponent`.
    MissingComponent { tag: Seq<char>, element: int, component: int },
    /// `InvalidComponentCount`.
    ComponentCount { tag: Seq<char>, element: int, expected: int, actual: int, span: Span },
    /// `TooManyRepetitions`.
    Repetitions { tag: Seq<char>, element: int, max: int, actual: int, span: Span },
    /// `InvalidCharacterType`.
    CharacterType { tag: Seq<char>, element: int, component: int, repr: Seq<char>, value: Seq<char>, span: Span },
    /// `DataElementTooLong`.
    TooLong { tag: Seq<char>, element: int, component: int, repr: Seq<char>, actual: int, span: Span },
    /// `DataElementTooShort`.
    TooShort { tag: Seq<char>, element: int, component: int, repr: Seq<char>, actual: int, span: Span },
    /// `InsignificantCharacters`.
    Insignificant { tag: Seq<char>, element: int, component: int, kind: Insignificant, span: Span },
    /// `InvalidCodeValue`.
    CodeValue { tag: Seq<char>, element: int, value: Seq<char>, code_list: Seq<char>, span: Span, suggestion: Option<Seq<char>> },
    /// Any other error, as it is.
    Other(EdifactError),
}

/// The data of an error, as far as the directory checks concern it.
pub open spec fn dir_finding(e: EdifactError) -> DirFinding {
    match e {
        EdifactError::InvalidSegmentForMessage { tag, message_type, span } =>
            DirFinding::UnknownSegment { tag: tag@, context: message_type@, span },
        EdifactError::InvalidElementCount { tag, min, max, actual, span } =>
            DirFinding::ElementCount { tag: tag@, min: min as int, max: max as int, actual: actual as int, span },
        EdifactError::MissingRequiredElement { tag, element_index } =>
            DirFinding::MissingElement { tag: tag@, element: element_index as int },
        EdifactError::MissingRequiredComponent { tag, element_index, component_index } =>
            DirFinding::MissingComponent { tag: tag@, element: element_index as int, component: component_index as int },
        EdifactError::InvalidComponentCount { tag, element_index, expected, actual, span } =>
            DirFinding::ComponentCount { tag: tag@, element: element_index as int, expected: expected as int, actual: actual as int, span },
        EdifactError::TooManyRepetitions { tag, element_index, max, actual, span } =>
            DirFinding::Repetitions { tag: tag@, element: element_index as int, max: max as int, actual: actual as int, span },
        EdifactError::InvalidCharacterType { tag, element_index, component_index, repr, value, span } =>
            DirFinding::CharacterType { tag: tag@, element: element_index as int, component: component_index as int, repr: repr@, value: value@, span },
        EdifactError::DataElementTooLong { tag, element_index, component_index, repr, actual, span } =>
            DirFinding::TooLong { tag: tag@, element: element_index as int, component: component_index as int, repr: repr@, actual: actual as int, span },
        EdifactError::DataElementTooShort { tag, element_index, component_index, repr, actual, span } =>
            DirFinding::TooShort { tag: tag@, element: element_index as int, component: component_index as int, repr: repr@, actual: actual as int, span },
        EdifactError::InsignificantCharacters { tag, element_index, component_index, kind, span } =>
            DirFinding::Insignificant { tag: tag@, element: element_index as int, component: component_index as int, kind, span },
        EdifactError::InvalidCodeValue { tag, element_index, value, code_list, span, suggestion } =>
            DirFinding::CodeValue { tag: tag@, element: element_index as int, value: value@, code_list: code_list@, span,
                suggestion: match suggestion { Some(t) => Some(t@), None => None } },
        _ => DirFinding::Other(e),
    }
}

/// The data of a list of errors.
pub open spec fn findings_of(es: Seq<EdifactError>) -> Seq<DirFinding> {
    es.map_values(|e: EdifactError| dir_finding(e))
}

proof fn lemma_findings_push(es: Seq<EdifactError>, e: EdifactError)
    ensures
        findings_of(es.push(e)) == findings_of(es).push(dir_finding(e)),
{
    assert(findings_of(es.push(e)) =~= findings_of(es).push(dir_finding(e)));
}

fn push_finding(out: &mut Vec<EdifactError>, e: EdifactError)
    ensures
        findings_of(final(out)@) == findings_of(old(out)@).push(dir_finding(e)),
{
    let ghost before = out@;
    out.push(e);
    proof { lemma_findings_push(before, e); }
}

/// Zero-based index of a one-based position (0 stays 0).
pub open spec fn slot_index(p: u8) -> int {
    if p == 0 { 0 } else { p - 1 }
}

/// Element `i` of the segment holds some non-empty component.
pub open spec fn element_present(seg: Segment, i: int) -> bool {
    0 <= i < seg.elements@.len() && trimmed_len(component_items(seg.elements@[i].components)) > 0
}

/// The finding for the element count: fewer than the last mandatory position
/// or more than the highest declared one.
pub open spec fn count_findings(seg: Segment, l: Seq<ElemSpec>) -> Seq<DirFinding> {
    let actual = seg.elements@.len() as int;
    if actual < last_mandatory(l) || actual > max_position(l) {
        seq![DirFinding::ElementCount { tag: seg.tag@, min: last_mandatory(l), max: max_position(l), actual, span: seg.span }]
    } else {
        Seq::empty()
    }
}

/// The finding for one declared element: mandatory and absent or empty.
pub open spec fn elem_missing(seg: Segment, e: ElemSpec) -> Seq<DirFinding> {
    if e.status == Status::Mandatory && !element_present(seg, slot_index(e.position)) {
        seq![DirFinding::MissingElement { tag: seg.tag@, element: slot_index(e.position) }]
    } else {
        Seq::empty()
    }
}

/// The findings for every declared element, in declaration order.
pub open spec fn missing_elements(seg: Segment, l: Seq<ElemSpec>) -> Seq<DirFinding>
    decreases l.len(),
{
    if l.len() == 0 { Seq::empty() } else { missing_elements(seg, l.drop_last()) + elem_missing(seg, l.last()) }
}

/// The finding for one declared component of a present element: mandatory
/// and absent or empty.
pub open spec fn comp_missing(seg: Segment, e: ElemSpec, c: CompSpec) -> Seq<DirFinding> {
    let ei = slot_index(e.position);
    let ci = slot_index(c.position);
    if c.status == Status::Mandatory && ei < seg.elements@.len() && !(seg_component(seg, ei, ci) matches Some(v) && v.len() > 0) {
        seq![DirFinding::MissingComponent { tag: seg.tag@, element: ei, component: ci }]
    } else {
        Seq::empty()
    }
}

/// The findings for the declared components of one element.
pub open spec fn comps_missing(seg: Segment, e: ElemSpec, cs: Seq<CompSpec>) -> Seq<DirFinding>
    decreases cs.len(),
{
    if cs.len() == 0 { Seq::empty() } else { comps_missing(seg, e, cs.drop_last()) + comp_missing(seg, e, cs.last()) }
}

/// The findings for the declared components of every element.
pub open spec fn missing_components(seg: Segment, l: Seq<ElemSpec>) -> Seq<DirFinding>
    decreases l.len(),
{
    if l.len() == 0 { Seq::empty() } else { missing_components(seg, l.drop_last()) + comps_missing(seg, l.last(), l.last().components) }
}

proof fn lemma_trimmed_bounds(items: Seq<(String, Span)>)
    ensures
        0 <= trimmed_len(items) <= items.len(),
    decreases items.len(),
{
    if items.len() > 0 {
        lemma_trimmed_bounds(items.drop_last());
    }
}

fn element_is_present(seg: &Segment, i: usize) -> (r: bool)
    ensures
        r == element_present(*seg, i as int),
{
    proof {
        if i < seg.elements@.len() {
            lemma_trimmed_bounds(component_items(seg.elements@[i as int].components));
        }
    }
    match effective_component_count(seg, i) {
        Some(n) => n > 0,
        None => {
            proof {
                if 0 <= i < seg.elements@.len() {
                    assert(trimmed_len(component_items(seg.elements@[i as int].components)) > 255);
                }
            }
            i < seg.elements.len()
        },
    }
}

fn index_exec(p: u8) -> (r: usize)
    ensures
        r == slot_index(p),
{
    if p == 0 { 0 } else { (p - 1) as usize }
}

impl OwnedSegmentDef {
    fn push_count_findings(&self, seg: &Segment, out: &mut Vec<EdifactError>)
        ensures
            findings_of(final(out)@) == findings_of(old(out)@) + count_findings(*seg, self.layout()),
    {
        let max_elements = self.max_element_position();
        let min_elements = self.last_mandatory_position();
        let actual = seg.elements.len();
        if actual < min_elements || actual > max_elements {
            push_finding(out, EdifactError::InvalidElementCount {
                tag: own(seg.tag.as_str()), min: min_elements, max: max_elements, actual, span: seg.span,
            });
        } else {
            assert(findings_of(old(out)@) + count_findings(*seg, self.layout()) =~= findings_of(old(out)@));
        }
    }

    fn push_missing_elements(&self, seg: &Segment, out: &mut Vec<EdifactError>)
        ensures
            findings_of(final(out)@) == findings_of(old(out)@) + missing_elements(*seg, self.layout()),
    {
        let ghost start = findings_of(out@);
        let mut i: usize = 0;
        assert(missing_elements(*seg, self.layout().take(0)) =~= Seq::<DirFinding>::empty());
        assert(start + Seq::<DirFinding>::empty() =~= start);
        while i < self.elements.len()
            invariant
                i <= self.elements@.len(),
                findings_of(out@) == start + missing_elements(*seg, self.layout().take(i as int)),
            decreases self.elements@.len() - i,
        {
            let e = &self.elements[i];
            proof {
                assert(self.layout().take(i + 1).drop_last() =~= self.layout().take(i as int));
                assert(self.layout().take(i + 1).last() == e@);
            }
            let ghost before = findings_of(out@);
            let idx = index_exec(e.position);
            if e.status == Status::Mandatory && !element_is_present(seg, idx) {
                push_finding(out, EdifactError::MissingRequiredElement { tag: own(seg.tag.as_str()), element_index: idx });
                assert(findings_of(out@) =~= start + missing_elements(*seg, self.layout().take(i + 1)));
            } else {
                assert(findings_of(out@) =~= start + missing_elements(*seg, self.layout().take(i + 1)));
            }
            i = i + 1;
        }
        proof { assert(self.layout().take(i as int) =~= self.layout()); }
    }

    fn push_missing_components(&self, seg: &Segment, out: &mut Vec<EdifactError>)
        ensures
            findings_of(final(out)@) == findings_of(old(out)@) + missing_components(*seg, self.layout()),
    {
        let ghost start = findings_of(out@);
        let mut i: usize = 0;
        assert(missing_components(*seg, self.layout().take(0)) =~= Seq::<DirFinding>::empty());
        assert(start + Seq::<DirFinding>::empty() =~= start);
        while i < self.elements.len()
            invariant
                i <= self.elements@.len(),
                findings_of(out@) == start + missing_components(*seg, self.layout().take(i as int)),
            decreases self.elements@.len() - i,
        {
            let e = &self.elements[i];
            proof {
                assert(self.layout().take(i + 1).drop_last() =~= self.layout().take(i as int));
                assert(self.layout().take(i + 1).last() == e@);
            }
            let ghost mid = findings_of(out@);
            let ei = index_exec(e.position);
            let ghost cs = e@.components;
            let mut j: usize = 0;
            assert(comps_missing(*seg, e@, cs.take(0)) =~= Seq::<DirFinding>::empty());
            assert(mid + Seq::<DirFinding>::empty() =~= mid);
            while j < e.components.len()
                invariant
                    j <= e.components@.len(),
                    cs == e.components@.map_values(|c: OwnedComponentRef| c@),
                    cs == e@.components,
                    ei == slot_index(e@.position),
                    findings_of(out@) == mid + comps_missing(*seg, e@, cs.take(j as int)),
                decreases e.components@.len() - j,
            {
                let c = &e.components[j];
                proof {
                    assert(cs.take(j + 1).drop_last() =~= cs.take(j as int));
                    assert(cs.take(j + 1).last() == c@);
                }
                let ci = index_exec(c.position);
                if c.status == Status::Mandatory && ei < seg.elements.len() {
                    let present = match seg.elements[ei].get_component(ci) {
                        Some(v) => !str_eq(v, ""),
                        None => false,
                    };
                    proof {
                        reveal_strlit("");
                        match seg_component(*seg, ei as int, ci as int) {
                            Some(v) => { if v.len() == 0 { assert(v =~= ""@); } },
                            None => {},
                        }
                    }
                    if !present {
                        push_finding(out, EdifactError::MissingRequiredComponent {
                            tag: own(seg.tag.as_str()), element_index: ei, component_index: ci,
                        });
                    }
                }
                assert(findings_of(out@) =~= mid + comps_missing(*seg, e@, cs.take(j + 1)));
                j = j + 1;
            }
            proof { assert(cs.take(j as int) =~= cs); }
            assert(findings_of(out@) =~= start + missing_components(*seg, self.layout().take(i + 1)));
            i = i + 1;
        }
        proof { assert(self.layout().take(i as int) =~= self.layout()); }
    }
}


/// The views of code-list rules.
pub open spec fn rules_view(rs: Seq<(usize, usize, String)>) -> Seq<(usize, usize, Seq<char>)> {
    rs.map_values(|r: (usize, usize, String)| (r.0, r.1, r.2@))
}

/// The texts of a list of static strings.
pub open spec fn texts_of(ts: Seq<String>) -> Seq<Seq<char>> {
    ts.map_values(|t: String| t@)
}

/// An optional static string as text.
pub open spec fn static_opt(o: Option<&'static str>) -> Option<Seq<char>> {
    match o {
        Some(t) => Some(t@),
        None => None,
    }
}

/// What a directory validator asks of its user: whether a code is in a code
/// list and what to suggest instead, fixed component counts, which values to
/// check against code lists, the segments a message type requires, and a
/// further structure rule.
pub trait DirectoryHooks {
    /// Whether `code` is in the code list of `data_element`.
    spec fn code_valid(&self, data_element: Seq<char>, code: Seq<char>) -> bool;
    /// The code to suggest in place of an invalid one.
    spec fn suggestion(&self, data_element: Seq<char>, code: Seq<char>) -> Option<Seq<char>>;
    /// The exact component count element `element_index` of a `tag` segment must have.
    spec fn expected(&self, tag: Seq<char>, element_index: int) -> Option<u8>;
    /// The `(element, component, data element)` positions of a `tag` segment
    /// checked against code lists.
    spec fn code_rules(&self, tag: Seq<char>) -> Seq<(usize, usize, Seq<char>)>;
    /// The tags a message type requires, in their canonical order.
    spec fn required(&self, message_type: Seq<char>) -> Seq<Seq<char>>;
    /// What the further structure rule finds in a segment, if anything.
    spec fn extra(&self, seg: Segment) -> Option<DirFinding>;

    /// Whether `code` is in the code list of `data_element`.
    fn is_code_valid(&self, data_element: &str, code: &str) -> (r: bool)
        ensures
            r == self.code_valid(data_element@, code@);

    /// The code to suggest in place of an invalid one.
    fn suggest_code(&self, data_element: &str, code: &str) -> (r: Option<&'static str>)
        ensures
            static_opt(r) == self.suggestion(data_element@, code@);

    /// The exact component count of an element, where one is required.
    fn expected_components(&self, tag: &str, element_index: usize) -> (r: Option<u8>)
        ensures
            r == self.expected(tag@, element_index as int);

    /// The positions of a segment checked against code lists.
    fn code_list_rules(&self, tag: &str) -> (r: Vec<(usize, usize, String)>)
        ensures
            rules_view(r@) == self.code_rules(tag@);

    /// The tags a message type requires, in their canonical order.
    fn required_segments(&self, message_type: &str) -> (r: Vec<String>)
        ensures
            texts_of(r@) == self.required(message_type@);

    /// A further structure rule a segment must pass.
    fn additional_structure_rule(&self, seg: &Segment) -> (r: Result<(), EdifactError>)
        ensures
            match r {
                Ok(_) => self.extra(*seg) is None,
                Err(e) => self.extra(*seg) == Some(dir_finding(e)),
            };
}

/// The code-list rules common to the UN/EDIFACT directories: the qualifier
/// of `BGM`, `DTM`, `NAD`, `QTY`, `RFF`, `MOA`, `PRI` and `LOC`.
pub open spec fn base_rules(tag: Seq<char>) -> Seq<(usize, usize, Seq<char>)> {
    if tag == "BGM"@ { seq![(0usize, 0usize, "1001"@)] }
    else if tag == "DTM"@ { seq![(0usize, 0usize, "2005"@)] }
    else if tag == "NAD"@ { seq![(0usize, 0usize, "3035"@)] }
    else if tag == "QTY"@ { seq![(0usize, 0usize, "6063"@)] }
    else if tag == "RFF"@ { seq![(0usize, 0usize, "1153"@)] }
    else if tag == "MOA"@ { seq![(0usize, 0usize, "5025"@)] }
    else if tag == "PRI"@ { seq![(0usize, 0usize, "5125"@)] }
    else if tag == "LOC"@ { seq![(0usize, 0usize, "3227"@)] }
    else { Seq::empty() }
}

fn one_rule(de: &str) -> (r: Vec<(usize, usize, String)>)
    ensures
        rules_view(r@) == seq![(0usize, 0usize, de@)],
{
    let v = vec![(0usize, 0usize, own(de))];
    assert(rules_view(v@) =~= seq![(0usize, 0usize, de@)]);
    v
}

/// The rules of [`base_rules`].
pub fn base_code_list_rules(tag: &str) -> (r: Vec<(usize, usize, String)>)
    ensures
        rules_view(r@) == base_rules(tag@),
{
    if str_eq(tag, "BGM") { one_rule("1001") }
    else if str_eq(tag, "DTM") { one_rule("2005") }
    else if str_eq(tag, "NAD") { one_rule("3035") }
    else if str_eq(tag, "QTY") { one_rule("6063") }
    else if str_eq(tag, "RFF") { one_rule("1153") }
    else if str_eq(tag, "MOA") { one_rule("5025") }
    else if str_eq(tag, "PRI") { one_rule("5125") }
    else if str_eq(tag, "LOC") { one_rule("3227") }
    else {
        let v: Vec<(usize, usize, String)> = Vec::new();
        assert(rules_view(v@) =~= Seq::<(usize, usize, Seq<char>)>::empty());
        v
    }
}

/// The hooks of a validator built from definitions alone: every code is
/// valid, nothing is suggested, no component count is fixed, the base
/// code-list rules apply, a message requires `UNH` and `UNT`, and there is
/// no further structure rule.
#[derive(Debug, Clone, Copy)]
pub struct DefaultHooks;

impl DirectoryHooks for DefaultHooks {
    open spec fn code_valid(&self, data_element: Seq<char>, code: Seq<char>) -> bool {
        true
    }

    open spec fn suggestion(&self, data_element: Seq<char>, code: Seq<char>) -> Option<Seq<char>> {
        None
    }

    open spec fn expected(&self, tag: Seq<char>, element_index: int) -> Option<u8> {
        None
    }

    open spec fn code_rules(&self, tag: Seq<char>) -> Seq<(usize, usize, Seq<char>)> {
        base_rules(tag)
    }

    open spec fn required(&self, message_type: Seq<char>) -> Seq<Seq<char>> {
        seq!["UNH"@, "UNT"@]
    }

    open spec fn extra(&self, seg: Segment) -> Option<DirFinding> {
        None
    }

    fn is_code_valid(&self, data_element: &str, code: &str) -> (r: bool) {
        true
    }

    fn suggest_code(&self, data_element: &str, code: &str) -> (r: Option<&'static str>) {
        None
    }

    fn expected_components(&self, tag: &str, element_index: usize) -> (r: Option<u8>) {
        None
    }

    fn code_list_rules(&self, tag: &str) -> (r: Vec<(usize, usize, String)>) {
        base_code_list_rules(tag)
    }

    fn required_segments(&self, message_type: &str) -> (r: Vec<String>) {
        let v = vec![own("UNH"), own("UNT")];
        assert(texts_of(v@) =~= seq!["UNH"@, "UNT"@]);
        v
    }

    fn additional_structure_rule(&self, seg: &Segment) -> (r: Result<(), EdifactError>) {
        Ok(())
    }
}

/// The component-count finding for element `i`: against the hook's exact
/// count where it gives one, else against the declared slots, which fewer
/// components may leave unused.
pub open spec fn count_finding_at(seg: Segment, l: Seq<ElemSpec>, expected: Option<u8>, i: int) -> Seq<DirFinding> {
    let actual: int = match effective_count(seg, i) { Some(n) => n as int, None => 0 };
    match expected {
        Some(x) => if actual != x as int {
            seq![DirFinding::ComponentCount { tag: seg.tag@, element: i, expected: x as int, actual, span: seg.elements@[i].span }]
        } else {
            Seq::empty()
        },
        None => match declared_slots(l, i) {
            Some(d) => if actual > d as int {
                seq![DirFinding::ComponentCount { tag: seg.tag@, element: i, expected: d as int, actual, span: seg.elements@[i].span }]
            } else {
                Seq::empty()
            },
            None => Seq::empty(),
        },
    }
}

/// The component-count findings for the first `n` elements.
pub open spec fn component_count_findings<H: DirectoryHooks>(h: &H, seg: Segment, l: Seq<ElemSpec>, n: int) -> Seq<DirFinding>
    decreases n,
{
    if n <= 0 {
        Seq::empty()
    } else {
        component_count_findings(h, seg, l, n - 1) + count_finding_at(seg, l, h.expected(seg.tag@, n - 1), n - 1)
    }
}

/// The repetition finding for element `i`: more occurrences than a nonzero
/// declared maximum.
pub open spec fn rep_finding_at(seg: Segment, l: Seq<ElemSpec>, i: int) -> Seq<DirFinding> {
    match max_repeat_for(l, i) {
        Some(m) => {
            let actual = occurrences(seg.elements@[i]).len() as int;
            if m != 0 && actual > m as int {
                seq![DirFinding::Repetitions { tag: seg.tag@, element: i, max: m as int, actual, span: seg.elements@[i].span }]
            } else {
                Seq::empty()
            }
        },
        None => Seq::empty(),
    }
}

/// The repetition findings for the first `n` elements.
pub open spec fn repetition_findings(seg: Segment, l: Seq<ElemSpec>, n: int) -> Seq<DirFinding>
    decreases n,
{
    if n <= 0 { Seq::empty() } else { repetition_findings(seg, l, n - 1) + rep_finding_at(seg, l, n - 1) }
}

impl OwnedSegmentDef {
    fn push_component_counts<H: DirectoryHooks>(&self, hooks: &H, seg: &Segment, out: &mut Vec<EdifactError>)
        ensures
            findings_of(final(out)@) == findings_of(old(out)@)
                + component_count_findings(hooks, *seg, self.layout(), seg.elements@.len() as int),
    {
        let ghost start = findings_of(out@);
        let mut idx: usize = 0;
        assert(start + Seq::<DirFinding>::empty() =~= start);
        while idx < seg.elements.len()
            invariant
                idx <= seg.elements@.len(),
                findings_of(out@) == start + component_count_findings(hooks, *seg, self.layout(), idx as int),
            decreases seg.elements@.len() - idx,
        {
            let actual: u8 = match effective_component_count(seg, idx) {
                Some(n) => n,
                None => 0,
            };
            let ghost mid = findings_of(out@);
            match hooks.expected_components(seg.tag.as_str(), idx) {
                Some(expected) => {
                    if actual != expected {
                        push_finding(out, EdifactError::InvalidComponentCount {
                            tag: own(seg.tag.as_str()), element_index: idx, expected, actual, span: seg.elements[idx].span,
                        });
                    }
                },
                None => {
                    match self.declared_component_count(idx) {
                        Some(declared) => {
                            if actual > declared {
                                push_finding(out, EdifactError::InvalidComponentCount {
                                    tag: own(seg.tag.as_str()), element_index: idx, expected: declared, actual,
                                    span: seg.elements[idx].span,
                                });
                            }
                        },
                        None => {},
                    }
                },
            }
            assert(findings_of(out@) =~= start + component_count_findings(hooks, *seg, self.layout(), idx + 1));
            idx = idx + 1;
        }
    }

    fn push_repetitions(&self, seg: &Segment, out: &mut Vec<EdifactError>)
        ensures
            findings_of(final(out)@) == findings_of(old(out)@) + repetition_findings(*seg, self.layout(), seg.elements@.len() as int),
    {
        let ghost start = findings_of(out@);
        let mut idx: usize = 0;
        assert(start + Seq::<DirFinding>::empty() =~= start);
        while idx < seg.elements.len()
            invariant
                idx <= seg.elements@.len(),
                findings_of(out@) == start + repetition_findings(*seg, self.layout(), idx as int),
            decreases seg.elements@.len() - idx,
        {
            match self.max_repeat_at(idx) {
                Some(max) => {
                    let actual = seg.elements[idx].repetitions().len();
                    if max != 0 && actual > max as usize {
                        push_finding(out, EdifactError::TooManyRepetitions {
                            tag: own(seg.tag.as_str()), element_index: idx, max, actual, span: seg.elements[idx].span,
                        });
                    }
                },
                None => {},
            }
            assert(findings_of(out@) =~= start + repetition_findings(*seg, self.layout(), idx + 1));
            idx = idx + 1;
        }
    }
}


/// The insignificant characters a value carries under a variable-length
/// representation (ISO 9735-1 §9.1): leading zeroes in a number (a single
/// zero before the decimal mark is allowed), trailing spaces in text.
pub open spec fn insignificant_kind(r: ReprView, value: Seq<char>) -> Option<Insignificant> {
    if r.fixed {
        None
    } else {
        match r.kind {
            ReprKind::Numeric => {
                let d = if value.len() > 0 && value[0] == '-' { value.drop_first() } else { value };
                if d.len() > 1 && d[0] == '0' && d[1] != '.' && d[1] != ',' { Some(Insignificant::LeadingZeroes) } else { None }
            },
            _ => if value.len() > 0 && value.last() == ' ' { Some(Insignificant::TrailingSpaces) } else { None },
        }
    }
}

/// The text of a requirement: the primary representation, then ` or ` and
/// the alternative where there is one.
pub open spec fn requirement_text(r: ReprRequirement) -> Seq<char> {
    repr_text(r.primary@) + match r.alternative { Some(a) => " or "@ + repr_text(a@), None => Seq::empty() }
}

/// The findings for one non-empty value under its requirement: a wrong
/// character class alone; otherwise insignificant characters, then a length
/// outside what any accepted representation allows.
pub open spec fn value_findings(tag: Seq<char>, ei: int, ci: int, value: Seq<char>, span: Span, req: Option<ReprRequirement>) -> Seq<DirFinding> {
    if value.len() == 0 {
        Seq::empty()
    } else {
        match req {
            None => Seq::empty(),
            Some(r) => {
                let permitted = permits_spec(r.primary@, value) || (r.alternative matches Some(a) && permits_spec(a@, value));
                if !permitted {
                    seq![DirFinding::CharacterType { tag, element: ei, component: ci, repr: requirement_text(r), value, span }]
                } else {
                    let fits = fits_spec(r.primary@, value) || (r.alternative matches Some(a) && fits_spec(a@, value));
                    let short = measure_spec(r.primary@, value) < min_length_spec(r.primary@)
                        && match r.alternative { Some(a) => measure_spec(a@, value) < min_length_spec(a@), None => true };
                    let actual = measure_spec(r.primary@, value) as int;
                    (match insignificant_kind(r.primary@, value) {
                        Some(k) => seq![DirFinding::Insignificant { tag, element: ei, component: ci, kind: k, span }],
                        None => Seq::empty(),
                    }) + (if fits {
                        Seq::empty()
                    } else if short {
                        seq![DirFinding::TooShort { tag, element: ei, component: ci, repr: requirement_text(r), actual, span }]
                    } else {
                        seq![DirFinding::TooLong { tag, element: ei, component: ci, repr: requirement_text(r), actual, span }]
                    })
                }
            },
        }
    }
}

/// The findings for the first `n` components of one occurrence of element `ei`.
pub open spec fn occ_findings(tag: Seq<char>, l: Seq<ElemSpec>, sv: Option<u8>, ei: int, comps: Seq<(String, Span)>, n: int) -> Seq<DirFinding>
    decreases n,
{
    if n <= 0 {
        Seq::empty()
    } else {
        occ_findings(tag, l, sv, ei, comps, n - 1)
            + value_findings(tag, ei, n - 1, comps[n - 1].0@, comps[n - 1].1, repr_for(l, ei, n - 1, sv))
    }
}

/// The findings for the first `n` occurrences of element `ei`.
pub open spec fn elem_repr_findings(tag: Seq<char>, l: Seq<ElemSpec>, sv: Option<u8>, ei: int, occs: Seq<Seq<(String, Span)>>, n: int) -> Seq<DirFinding>
    decreases n,
{
    if n <= 0 {
        Seq::empty()
    } else {
        elem_repr_findings(tag, l, sv, ei, occs, n - 1) + occ_findings(tag, l, sv, ei, occs[n - 1], occs[n - 1].len() as int)
    }
}

/// The representation findings for the first `n` elements of a segment.
pub open spec fn repr_findings(seg: Segment, l: Seq<ElemSpec>, sv: Option<u8>, n: int) -> Seq<DirFinding>
    decreases n,
{
    if n <= 0 {
        Seq::empty()
    } else {
        let occs = occurrences(seg.elements@[n - 1]);
        repr_findings(seg, l, sv, n - 1) + elem_repr_findings(seg.tag@, l, sv, n - 1, occs, occs.len() as int)
    }
}

fn insignificant_in(r: Repr, value: &str) -> (k: Option<Insignificant>)
    ensures
        k == insignificant_kind(r@, value@),
{
    if r.is_fixed() {
        return None;
    }
    let cs = to_chars(value);
    match r.kind() {
        ReprKind::Numeric => {
            let start: usize = if cs.len() > 0 && cs[0] == '-' { 1 } else { 0 };
            let ghost d = if value@.len() > 0 && value@[0] == '-' { value@.drop_first() } else { value@ };
            assert(d =~= cs@.skip(start as int));
            if cs.len() > start + 1 && cs[start] == '0' && cs[start + 1] != '.' && cs[start + 1] != ',' {
                Some(Insignificant::LeadingZeroes)
            } else {
                None
            }
        },
        _ => {
            if cs.len() > 0 && cs[cs.len() - 1] == ' ' { Some(Insignificant::TrailingSpaces) } else { None }
        },
    }
}

fn push_value_findings(out: &mut Vec<EdifactError>, tag: &str, ei: usize, ci: usize, value: &str, span: Span, req: Option<ReprRequirement>)
    ensures
        findings_of(final(out)@) == findings_of(old(out)@) + value_findings(tag@, ei as int, ci as int, value@, span, req),
{
    let ghost start = findings_of(out@);
    proof { reveal_strlit(""); }
    if str_eq(value, "") {
        assert(value@ =~= ""@);
        assert(start + value_findings(tag@, ei as int, ci as int, value@, span, req) =~= start);
        return;
    }
    assert(value@.len() != 0) by {
        if value@.len() == 0 { assert(value@ =~= ""@); }
    }
    let r = match req {
        Some(r) => r,
        None => {
            assert(start + value_findings(tag@, ei as int, ci as int, value@, span, req) =~= start);
            return;
        },
    };
    if !r.permits_characters(value) {
        push_finding(out, EdifactError::InvalidCharacterType {
            tag: own(tag), element_index: ei, component_index: ci, repr: r.to_string(), value: own(value), span,
        });
        return;
    }
    match insignificant_in(r.primary, value) {
        Some(kind) => {
            push_finding(out, EdifactError::InsignificantCharacters { tag: own(tag), element_index: ei, component_index: ci, kind, span });
        },
        None => {},
    }
    let ghost mid = findings_of(out@);
    if r.permits_length(value) {
        assert(findings_of(out@) =~= start + value_findings(tag@, ei as int, ci as int, value@, span, req));
        return;
    }
    let actual = r.measure(value);
    if r.is_too_short(value) {
        push_finding(out, EdifactError::DataElementTooShort {
            tag: own(tag), element_index: ei, component_index: ci, repr: r.to_string(), actual, span,
        });
    } else {
        push_finding(out, EdifactError::DataElementTooLong {
            tag: own(tag), element_index: ei, component_index: ci, repr: r.to_string(), actual, span,
        });
    }
    assert(findings_of(out@) =~= start + value_findings(tag@, ei as int, ci as int, value@, span, req));
}

impl OwnedSegmentDef {
    fn push_repr_findings(&self, seg: &Segment, syntax_version: Option<u8>, out: &mut Vec<EdifactError>)
        ensures
            findings_of(final(out)@) == findings_of(old(out)@)
                + repr_findings(*seg, self.layout(), syntax_version, seg.elements@.len() as int),
    {
        let ghost start = findings_of(out@);
        let ghost l = self.layout();
        let ghost tag = seg.tag@;
        assert(start + Seq::<DirFinding>::empty() =~= start);
        let mut ei: usize = 0;
        while ei < seg.elements.len()
            invariant
                ei <= seg.elements@.len(),
                l == self.layout(),
                tag == seg.tag@,
                findings_of(out@) == start + repr_findings(*seg, l, syntax_version, ei as int),
            decreases seg.elements@.len() - ei,
        {
            let occs = seg.elements[ei].repetitions();
            let ghost occ_spec = occurrences(seg.elements@[ei as int]);
            let ghost e_start = findings_of(out@);
            assert(e_start + Seq::<DirFinding>::empty() =~= e_start);
            let mut k: usize = 0;
            while k < occs.len()
                invariant
                    k <= occs@.len(),
                    occs@.len() == occ_spec.len(),
                    forall|q: int| 0 <= q < occs@.len() ==> (#[trigger] occs@[q])@ == occ_spec[q],
                    l == self.layout(),
                    tag == seg.tag@,
                    findings_of(out@) == e_start + elem_repr_findings(tag, l, syntax_version, ei as int, occ_spec, k as int),
                decreases occs@.len() - k,
            {
                let comps = occs[k];
                let ghost o_start = findings_of(out@);
                assert(o_start + Seq::<DirFinding>::empty() =~= o_start);
                let mut ci: usize = 0;
                while ci < comps.len()
                    invariant
                        ci <= comps@.len(),
                        comps@ == occ_spec[k as int],
                        l == self.layout(),
                        tag == seg.tag@,
                        findings_of(out@) == o_start + occ_findings(tag, l, syntax_version, ei as int, comps@, ci as int),
                    decreases comps@.len() - ci,
                {
                    let value = comps[ci].0.as_str();
                    let span = comps[ci].1;
                    push_value_findings(out, seg.tag.as_str(), ei, ci, value, span, self.repr_at(ei, ci, syntax_version));
                    assert(findings_of(out@) =~= o_start + occ_findings(tag, l, syntax_version, ei as int, comps@, ci + 1));
                    ci = ci + 1;
                }
                assert(findings_of(out@) =~= e_start + elem_repr_findings(tag, l, syntax_version, ei as int, occ_spec, k + 1));
                k = k + 1;
            }
            assert(findings_of(out@) =~= start + repr_findings(*seg, l, syntax_version, ei + 1));
            ei = ei + 1;
        }
    }
}


/// The text a code-list rule reads: the component, or nothing.
pub open spec fn rule_value(seg: Segment, ei: int, ci: int) -> Seq<char> {
    match seg_component(seg, ei, ci) {
        Some(v) => v,
        None => Seq::empty(),
    }
}

/// Where a code-list finding points: the component, else the whole segment.
pub open spec fn rule_span(seg: Segment, ei: int, ci: int) -> Span {
    if 0 <= ei < seg.elements@.len() && 0 <= ci < component_items(seg.elements@[ei].components).len() {
        component_items(seg.elements@[ei].components)[ci].1
    } else {
        seg.span
    }
}

/// The code-list findings for the first `n` rules: a non-empty value the
/// hook does not accept.
pub open spec fn code_findings<H: DirectoryHooks>(h: &H, seg: Segment, rules: Seq<(usize, usize, Seq<char>)>, n: int) -> Seq<DirFinding>
    decreases n,
{
    if n <= 0 {
        Seq::empty()
    } else {
        let rule = rules[n - 1];
        let v = rule_value(seg, rule.0 as int, rule.1 as int);
        code_findings(h, seg, rules, n - 1) + if v.len() > 0 && !h.code_valid(rule.2, v) {
            seq![DirFinding::CodeValue { tag: seg.tag@, element: rule.0 as int, value: v, code_list: rule.2,
                span: rule_span(seg, rule.0 as int, rule.1 as int), suggestion: h.suggestion(rule.2, v) }]
        } else {
            Seq::empty()
        }
    }
}

fn push_code_findings<H: DirectoryHooks>(hooks: &H, seg: &Segment, out: &mut Vec<EdifactError>)
    ensures
        findings_of(final(out)@) == findings_of(old(out)@)
            + code_findings(hooks, *seg, hooks.code_rules(seg.tag@), hooks.code_rules(seg.tag@).len() as int),
{
    let rules = hooks.code_list_rules(seg.tag.as_str());
    let ghost rs = hooks.code_rules(seg.tag@);
    let ghost start = findings_of(out@);
    assert(start + Seq::<DirFinding>::empty() =~= start);
    proof { reveal_strlit(""); }
    let mut k: usize = 0;
    while k < rules.len()
        invariant
            k <= rules@.len(),
            rules_view(rules@) == rs,
            rs == hooks.code_rules(seg.tag@),
            ""@.len() == 0,
            findings_of(out@) == start + code_findings(hooks, *seg, rs, k as int),
        decreases rules@.len() - k,
    {
        let ei = rules[k].0;
        let ci = rules[k].1;
        let de = rules[k].2.as_str();
        assert(rs[k as int] == (ei, ci, de@));
        let value: &str = match seg.get_element(ei) {
            Some(e) => match e.get_component(ci) {
                Some(v) => v,
                None => "",
            },
            None => "",
        };
        assert(value@ == rule_value(*seg, ei as int, ci as int));
        let empty = str_eq(value, "");
        assert(empty == (value@.len() == 0)) by {
            if value@.len() == 0 { assert(value@ =~= ""@); }
        }
        if !empty && !hooks.is_code_valid(de, value) {
            let suggestion = hooks.suggest_code(de, value);
            let span = match seg.get_element(ei) {
                Some(e) => match e.component_span(ci) {
                    Some(s) => s,
                    None => seg.span,
                },
                None => seg.span,
            };
            push_finding(out, EdifactError::InvalidCodeValue {
                tag: own(seg.tag.as_str()), element_index: ei, value: own(value), code_list: own(de), span, suggestion,
            });
        }
        assert(findings_of(out@) =~= start + code_findings(hooks, *seg, rs, k + 1));
        k = k + 1;
    }
}

/// What a directory validator holds: its directory identifier, the tags and
/// layouts of its definitions, the message type it is set to, and which
/// checks it runs.
pub struct ValidatorView {
    /// The directory identifier.
    pub directory_id: Seq<char>,
    /// The definitions' tags and layouts, in order.
    pub definitions: Seq<(Seq<char>, Seq<ElemSpec>)>,
    /// The message type set explicitly, if any.
    pub message_type: Option<Seq<char>>,
    /// Unknown tags are findings.
    pub enforce_known_tags: bool,
    /// Structure checks run.
    pub structure_checks: bool,
    /// Code-list checks run.
    pub code_list_checks: bool,
}

/// The layout a tag resolves to: the last definition with that tag.
pub open spec fn layout_for(defs: Seq<(Seq<char>, Seq<ElemSpec>)>, tag: Seq<char>) -> Option<Seq<ElemSpec>>
    decreases defs.len(),
{
    if defs.len() == 0 {
        None
    } else if defs.last().0 == tag {
        Some(defs.last().1)
    } else {
        layout_for(defs.drop_last(), tag)
    }
}

/// Every finding for one segment: an unknown tag alone; otherwise the
/// structure findings (element count, missing elements and components,
/// component counts, repetitions, representations, the further rule), then
/// the code-list findings, each part only where its checks run.
pub open spec fn segment_findings<H: DirectoryHooks>(v: ValidatorView, h: &H, seg: Segment, sv: Option<u8>) -> Seq<DirFinding> {
    if !v.structure_checks && !v.code_list_checks {
        Seq::empty()
    } else {
        match layout_for(v.definitions, seg.tag@) {
            None => if v.structure_checks && v.enforce_known_tags {
                seq![DirFinding::UnknownSegment {
                    tag: seg.tag@,
                    context: match v.message_type { Some(m) => m, None => v.directory_id },
                    span: seg.tag_span,
                }]
            } else {
                Seq::empty()
            },
            Some(l) => {
                let n = seg.elements@.len() as int;
                (if v.structure_checks {
                    count_findings(seg, l) + missing_elements(seg, l) + missing_components(seg, l)
                        + component_count_findings(h, seg, l, n) + repetition_findings(seg, l, n)
                        + repr_findings(seg, l, sv, n)
                        + match h.extra(seg) { Some(f) => seq![f], None => Seq::empty() }
                } else {
                    Seq::empty()
                }) + (if v.code_list_checks {
                    code_findings(h, seg, h.code_rules(seg.tag@), h.code_rules(seg.tag@).len() as int)
                } else {
                    Seq::empty()
                })
            },
        }
    }
}

/// A validator of segment content against directory definitions: element
/// and component counts, mandatory elements and components, repetitions,
/// representations, insignificant characters and code lists, with the
/// user's hooks for what the definitions do not say.
pub struct DirectoryValidator<H> {
    directory_id: String,
    definitions: Vec<OwnedSegmentDef>,
    hooks: H,
    message_type: Option<String>,
    enforce_known_tags: bool,
    structure_checks: bool,
    code_list_checks: bool,
}

impl<H> View for DirectoryValidator<H> {
    type V = ValidatorView;

    closed spec fn view(&self) -> ValidatorView {
        ValidatorView {
            directory_id: self.directory_id@,
            definitions: self.definitions@.map_values(|d: OwnedSegmentDef| (d.tag_of(), d.layout())),
            message_type: match self.message_type { Some(m) => Some(m@), None => None },
            enforce_known_tags: self.enforce_known_tags,
            structure_checks: self.structure_checks,
            code_list_checks: self.code_list_checks,
        }
    }
}

impl OwnedComponentRef {
    fn from_static(c: &ComponentRef) -> (r: OwnedComponentRef)
        ensures
            r@ == c@,
    {
        proof { use_type_invariant(c); }
        OwnedComponentRef {
            position: c.position, data_element: own(c.data_element), status: c.status, repr: c.repr,
            repr_from_v4: c.repr_from_v4, repeat_count: c.repeat_count,
        }
    }
}

impl OwnedElementRef {
    fn from_static(e: &ElementRef) -> (r: OwnedElementRef)
        ensures
            r@ == e@,
    {
        proof { use_type_invariant(e); }
        let mut comps: Vec<OwnedComponentRef> = Vec::new();
        let mut i: usize = 0;
        while i < e.components.len()
            invariant
                i <= e.components@.len(),
                comps@.len() == i,
                forall|k: int| 0 <= k < i ==> (#[trigger] comps@[k])@ == e.components@[k]@,
            decreases e.components@.len() - i,
        {
            comps.push(OwnedComponentRef::from_static(&e.components[i]));
            i = i + 1;
        }
        assert(comps@.map_values(|c: OwnedComponentRef| c@) =~= e.components@.map_values(|c: ComponentRef| c@));
        let r = OwnedElementRef {
            position: e.position, data_element: own(e.data_element), status: e.status, max_repeat: e.max_repeat,
            repr: e.repr, repr_from_v4: e.repr_from_v4, components: comps,
        };
        assert(r@.components =~= e@.components);
        r
    }
}

impl OwnedSegmentDef {
    /// The run-time form of a compile-time definition.
    pub fn from_definition(d: &SegmentDefinition) -> (r: OwnedSegmentDef)
        ensures
            r.tag_of() == d.tag@,
            r.name_of() == d.name@,
            r.layout() == d.layout_spec(),
    {
        let mut elems: Vec<OwnedElementRef> = Vec::new();
        let mut i: usize = 0;
        while i < d.elements.len()
            invariant
                i <= d.elements@.len(),
                elems@.len() == i,
                forall|k: int| 0 <= k < i ==> (#[trigger] elems@[k])@ == d.elements@[k]@,
            decreases d.elements@.len() - i,
        {
            elems.push(OwnedElementRef::from_static(&d.elements[i]));
            i = i + 1;
        }
        assert(elems@.map_values(|e: OwnedElementRef| e@) =~= d.elements@.map_values(|e: ElementRef| e@));
        let r = OwnedSegmentDef { tag: own(d.tag), name: own(d.name), elements: elems };
        assert(r.layout() =~= d.layout_spec());
        r
    }
}


/// The definitions' tags and layouts.
pub open spec fn defs_view(ds: Seq<OwnedSegmentDef>) -> Seq<(Seq<char>, Seq<ElemSpec>)> {
    ds.map_values(|d: OwnedSegmentDef| (d.tag_of(), d.layout()))
}

/// The index of the first segment with tag `tag`.
pub open spec fn first_with_tag(segs: Seq<Segment>, tag: Seq<char>) -> Option<int>
    decreases segs.len(),
{
    if segs.len() == 0 {
        None
    } else if segs[0].tag@ == tag {
        Some(0)
    } else {
        match first_with_tag(segs.drop_first(), tag) {
            Some(i) => Some(i + 1),
            None => None,
        }
    }
}

/// The syntax version the first `UNB` states in S001 DE 0002, if it is a
/// number a `u8` can hold.
pub open spec fn syntax_version_of(segs: Seq<Segment>) -> Option<u8> {
    match first_with_tag(segs, "UNB"@) {
        Some(i) => match seg_component(segs[i], 0, 1) {
            Some(t) => match parse_u32_spec(t) {
                Some(v) => if v <= 255 { Some(v as u8) } else { None },
                None => None,
            },
            None => None,
        },
        None => None,
    }
}

/// The message type checked against: the one set explicitly, else the one
/// the first `UNH` names.
pub open spec fn message_type_for(v: ValidatorView, segs: Seq<Segment>) -> Option<Seq<char>> {
    match v.message_type {
        Some(m) => Some(m),
        None => match first_with_tag(segs, "UNH"@) {
            Some(i) => seg_component(segs[i], 1, 0),
            None => None,
        },
    }
}

/// The findings for the first `n` segments of a batch.
pub open spec fn batch_findings<H: DirectoryHooks>(v: ValidatorView, h: &H, segs: Seq<Segment>, sv: Option<u8>, n: int) -> Seq<DirFinding>
    decreases n,
{
    if n <= 0 { Seq::empty() } else { batch_findings(v, h, segs, sv, n - 1) + segment_findings(v, h, segs[n - 1], sv) }
}

/// An issue of the message-type check: error severity, the message, the
/// segment tag and the suggestion, nothing else.
pub open spec fn plain_issue(i: ValidationIssue, message: Seq<char>, tag: Seq<char>, suggestion: Seq<char>) -> bool {
    &&& i.severity == ValidationSeverity::Error
    &&& i.message@ == message
    &&& opt_view(i.segment_tag) == Some(tag)
    &&& opt_view(i.suggestion) == Some(suggestion)
    &&& i.error_code is None && i.offset is None && i.span is None && i.rule_id is None
    &&& i.element_index is None && i.component_index is None && i.segment_occurrence is None
    &&& i.message_ref is None && i.segment_group is None && i.context@.len() == 0
}

/// The issues for required tags absent from the batch, in required order.
pub open spec fn missing_required(mt: Seq<char>, req: Seq<Seq<char>>, segs: Seq<Segment>) -> Seq<(Seq<char>, Seq<char>, Seq<char>)>
    decreases req.len(),
{
    if req.len() == 0 {
        Seq::empty()
    } else {
        let tag = req.last();
        missing_required(mt, req.drop_last(), segs) + if first_with_tag(segs, tag) is None {
            seq![("required segment "@ + tag + " missing for message type "@ + mt, tag, "Add the mandatory segment at the correct position"@)]
        } else {
            Seq::empty()
        }
    }
}

/// The issues for required tags whose first occurrence comes before that of
/// the previous present required tag, from position `k` on.
pub open spec fn out_of_order(mt: Seq<char>, req: Seq<Seq<char>>, segs: Seq<Segment>, k: int, last: Option<int>) -> Seq<(Seq<char>, Seq<char>, Seq<char>)>
    decreases req.len() - k,
{
    if k >= req.len() || k < 0 {
        Seq::empty()
    } else {
        let tag = req[k];
        match first_with_tag(segs, tag) {
            Some(idx) => (if last matches Some(p) && idx < p {
                seq![("segment sequence violation for message type "@ + mt + ": '"@ + tag + "' appears out of order"@, tag,
                    "Ensure required segments follow UN/EDIFACT canonical order"@)]
            } else {
                Seq::empty()
            }) + out_of_order(mt, req, segs, k + 1, Some(idx)),
            None => out_of_order(mt, req, segs, k + 1, last),
        }
    }
}

/// The message-type issues of a batch: none without structure checks or a
/// message type; otherwise the missing required tags, then those out of order.
pub open spec fn required_issues<H: DirectoryHooks>(v: ValidatorView, h: &H, segs: Seq<Segment>) -> Seq<(Seq<char>, Seq<char>, Seq<char>)> {
    if !v.structure_checks {
        Seq::empty()
    } else {
        match message_type_for(v, segs) {
            Some(mt) => missing_required(mt, h.required(mt), segs) + out_of_order(mt, h.required(mt), segs, 0, None),
            None => Seq::empty(),
        }
    }
}

fn find_first_with_tag(segments: &[Segment], tag: &str) -> (r: Option<usize>)
    ensures
        match r {
            Some(i) => i < segments@.len() && first_with_tag(segments@, tag@) == Some(i as int),
            None => first_with_tag(segments@, tag@) is None,
        },
{
    let mut i: usize = 0;
    assert(segments@.skip(0) =~= segments@);
    while i < segments.len()
        invariant
            i <= segments@.len(),
            first_with_tag(segments@, tag@) == (match first_with_tag(segments@.skip(i as int), tag@) {
                Some(j) => Some(j + i),
                None => None,
            }),
        decreases segments@.len() - i,
    {
        assert(segments@.skip(i as int)[0] == segments@[i as int]);
        if str_eq(segments[i].tag.as_str(), tag) {
            return Some(i);
        }
        assert(segments@.skip(i as int).drop_first() =~= segments@.skip(i + 1));
        i = i + 1;
    }
    None
}

/// The syntax version the first `UNB` states, if it is a number a `u8` holds.
fn detect_syntax_version(segments: &[Segment]) -> (r: Option<u8>)
    ensures
        r == syntax_version_of(segments@),
{
    match find_first_with_tag(segments, "UNB") {
        Some(i) => match segments[i].component_str(0, 1) {
            Some(t) => match parse_u32(t) {
                Some(v) => if v <= 255 { Some(v as u8) } else { None },
                None => None,
            },
            None => None,
        },
        None => None,
    }
}

fn push_issue(out: &mut Vec<ValidationIssue>, message: String, tag: &str, suggestion: &str)
    ensures
        final(out)@.len() == old(out)@.len() + 1,
        forall|k: int| 0 <= k < old(out)@.len() ==> final(out)@[k] == old(out)@[k],
        plain_issue(final(out)@[old(out)@.len() as int], message@, tag@, suggestion@),
{
    let issue = ValidationIssue::new(ValidationSeverity::Error, message.as_str()).with_segment(tag).with_suggestion(suggestion);
    out.push(issue);
}

impl<H: DirectoryHooks> DirectoryValidator<H> {
    /// The hooks the validator consults.
    pub closed spec fn hooks_of(&self) -> H {
        self.hooks
    }

    /// A validator for the directory `directory_id` over `definitions`, with
    /// `hooks`; every check runs and unknown tags are findings.
    pub fn new(directory_id: &str, definitions: Vec<OwnedSegmentDef>, hooks: H) -> (r: DirectoryValidator<H>)
        ensures
            r@ == (ValidatorView { directory_id: directory_id@, definitions: defs_view(definitions@), message_type: None,
                enforce_known_tags: true, structure_checks: true, code_list_checks: true }),
            r.hooks_of() == hooks,
    {
        let r = DirectoryValidator {
            directory_id: own(directory_id), definitions, hooks, message_type: None,
            enforce_known_tags: true, structure_checks: true, code_list_checks: true,
        };
        assert(r@.definitions =~= defs_view(definitions@));
        r
    }

    /// This validator with another directory identifier.
    pub fn with_directory_id(self, id: &str) -> (r: DirectoryValidator<H>)
        ensures
            r@ == (ValidatorView { directory_id: id@, ..self@ }),
            r.hooks_of() == self.hooks_of(),
    {
        DirectoryValidator { directory_id: own(id), ..self }
    }

    /// This validator running structure checks only.
    pub fn structure_only(self) -> (r: DirectoryValidator<H>)
        ensures
            r@ == (ValidatorView { structure_checks: true, code_list_checks: false, ..self@ }),
            r.hooks_of() == self.hooks_of(),
    {
        DirectoryValidator { structure_checks: true, code_list_checks: false, ..self }
    }

    /// This validator running code-list checks only.
    pub fn code_list_only(self) -> (r: DirectoryValidator<H>)
        ensures
            r@ == (ValidatorView { structure_checks: false, code_list_checks: true, ..self@ }),
            r.hooks_of() == self.hooks_of(),
    {
        DirectoryValidator { structure_checks: false, code_list_checks: true, ..self }
    }

    /// This validator treating unknown tags as findings or not.
    pub fn enforce_known_tags(self, enforce: bool) -> (r: DirectoryValidator<H>)
        ensures
            r@ == (ValidatorView { enforce_known_tags: enforce, ..self@ }),
            r.hooks_of() == self.hooks_of(),
    {
        DirectoryValidator { enforce_known_tags: enforce, ..self }
    }

    /// This validator consulting other hooks.
    pub fn with_hooks<G: DirectoryHooks>(self, hooks: G) -> (r: DirectoryValidator<G>)
        ensures
            r@ == self@,
            r.hooks_of() == hooks,
    {
        DirectoryValidator {
            directory_id: self.directory_id, definitions: self.definitions, hooks, message_type: self.message_type,
            enforce_known_tags: self.enforce_known_tags, structure_checks: self.structure_checks,
            code_list_checks: self.code_list_checks,
        }
    }

    /// Sets the message type checked against, or clears it.
    pub fn set_message_type(&mut self, message_type: Option<&str>)
        ensures
            final(self)@ == (ValidatorView {
                message_type: match message_type { Some(m) => Some(m@), None => None },
                ..old(self)@
            }),
            final(self).hooks_of() == old(self).hooks_of(),
    {
        self.message_type = match message_type {
            Some(m) => Some(own(m)),
            None => None,
        };
    }

    fn layout_index(&self, tag: &str) -> (r: Option<usize>)
        ensures
            match r {
                Some(k) => k < self.definitions@.len() && layout_for(self@.definitions, tag@) == Some(self.definitions@[k as int].layout()),
                None => layout_for(self@.definitions, tag@) is None,
            },
    {
        let ghost ds = self@.definitions;
        let mut k: usize = self.definitions.len();
        assert(ds.take(k as int) =~= ds);
        while k > 0
            invariant
                k <= self.definitions@.len(),
                ds == self@.definitions,
                ds == defs_view(self.definitions@),
                layout_for(ds, tag@) == layout_for(ds.take(k as int), tag@),
            decreases k,
        {
            assert(ds.take(k as int).last() == (self.definitions@[k - 1].tag_of(), self.definitions@[k - 1].layout()));
            if str_eq(self.definitions[k - 1].tag(), tag) {
                return Some(k - 1);
            }
            assert(ds.take(k as int).drop_last() =~= ds.take(k - 1));
            k = k - 1;
        }
        None
    }

    /// Every finding for one segment, in the order [`segment_findings`] gives.
    pub fn segment_issues(&self, seg: &Segment, syntax_version: Option<u8>) -> (r: Vec<EdifactError>)
        ensures
            findings_of(r@) == segment_findings(self@, &self.hooks_of(), *seg, syntax_version),
    {
        let mut out: Vec<EdifactError> = Vec::new();
        assert(findings_of(out@) =~= Seq::<DirFinding>::empty());
        if !self.structure_checks && !self.code_list_checks {
            return out;
        }
        let k = match self.layout_index(seg.tag.as_str()) {
            Some(k) => k,
            None => {
                if self.structure_checks && self.enforce_known_tags {
                    let context = match &self.message_type {
                        Some(m) => own(m.as_str()),
                        None => own(self.directory_id.as_str()),
                    };
                    push_finding(&mut out, EdifactError::InvalidSegmentForMessage {
                        tag: own(seg.tag.as_str()), message_type: context, span: seg.tag_span,
                    });
                }
                return out;
            },
        };
        let def = &self.definitions[k];
        let ghost l = def.layout();
        let ghost n = seg.elements@.len() as int;
        if self.structure_checks {
            def.push_count_findings(seg, &mut out);
            def.push_missing_elements(seg, &mut out);
            def.push_missing_components(seg, &mut out);
            def.push_component_counts(&self.hooks, seg, &mut out);
            def.push_repetitions(seg, &mut out);
            def.push_repr_findings(seg, syntax_version, &mut out);
            match self.hooks.additional_structure_rule(seg) {
                Ok(_) => {},
                Err(e) => push_finding(&mut out, e),
            }
        }
        let ghost mid = findings_of(out@);
        if self.code_list_checks {
            push_code_findings(&self.hooks, seg, &mut out);
        }
        proof {
            let h = self.hooks_of();
            let structure = if self.structure_checks {
                count_findings(*seg, l) + missing_elements(*seg, l) + missing_components(*seg, l)
                    + component_count_findings(&h, *seg, l, n) + repetition_findings(*seg, l, n)
                    + repr_findings(*seg, l, syntax_version, n)
                    + match h.extra(*seg) { Some(f) => seq![f], None => Seq::empty() }
            } else {
                Seq::empty()
            };
            assert(mid =~= structure);
            assert(findings_of(out@) =~= segment_findings(self@, &self.hooks_of(), *seg, syntax_version));
        }
        out
    }

    /// Every finding for every segment of a batch, in order; representations
    /// are checked under the syntax version the batch's `UNB` states.
    pub fn batch_issues(&self, segments: &[Segment]) -> (r: Vec<EdifactError>)
        ensures
            findings_of(r@) == batch_findings(self@, &self.hooks_of(), segments@, syntax_version_of(segments@), segments@.len() as int),
    {
        let sv = detect_syntax_version(segments);
        let mut out: Vec<EdifactError> = Vec::new();
        assert(findings_of(out@) =~= Seq::<DirFinding>::empty());
        let mut i: usize = 0;
        while i < segments.len()
            invariant
                i <= segments@.len(),
                sv == syntax_version_of(segments@),
                findings_of(out@) == batch_findings(self@, &self.hooks_of(), segments@, sv, i as int),
            decreases segments@.len() - i,
        {
            let mut found = self.segment_issues(&segments[i], sv);
            let ghost before = out@;
            out.append(&mut found);
            assert(findings_of(out@) =~= batch_findings(self@, &self.hooks_of(), segments@, sv, i + 1));
            i = i + 1;
        }
        out
    }

    fn detect_message_type(&self, segments: &[Segment]) -> (r: Option<String>)
        ensures
            match r {
                Some(m) => message_type_for(self@, segments@) == Some(m@),
                None => message_type_for(self@, segments@) is None,
            },
    {
        match &self.message_type {
            Some(m) => Some(own(m.as_str())),
            None => match find_first_with_tag(segments, "UNH") {
                Some(i) => match segments[i].component_str(1, 0) {
                    Some(t) => Some(own(t)),
                    None => None,
                },
                None => None,
            },
        }
    }

    /// The message-type issues of a batch, as [`required_issues`] gives them.
    pub fn required_segment_issues(&self, segments: &[Segment]) -> (r: Vec<ValidationIssue>)
        ensures
            r@.len() == required_issues(self@, &self.hooks_of(), segments@).len(),
            forall|k: int| 0 <= k < r@.len() ==> {
                let t = #[trigger] required_issues(self@, &self.hooks_of(), segments@)[k];
                plain_issue(r@[k], t.0, t.1, t.2)
            },
    {
        let mut out: Vec<ValidationIssue> = Vec::new();
        if !self.structure_checks {
            return out;
        }
        let mt = match self.detect_message_type(segments) {
            Some(m) => m,
            None => return out,
        };
        let required = self.hooks.required_segments(mt.as_str());
        let ghost req = self.hooks_of().required(mt@);
        let ghost total = required_issues(self@, &self.hooks_of(), segments@);
        let ghost miss = missing_required(mt@, req, segments@);
        assert(total == miss + out_of_order(mt@, req, segments@, 0, None));
        let mut i: usize = 0;
        assert(req.take(0) =~= Seq::<Seq<char>>::empty());
        while i < required.len()
            invariant
                i <= required@.len(),
                texts_of(required@) == req,
                out@.len() == missing_required(mt@, req.take(i as int), segments@).len(),
                forall|k: int| 0 <= k < out@.len() ==> {
                    let t = #[trigger] missing_required(mt@, req.take(i as int), segments@)[k];
                    plain_issue(out@[k], t.0, t.1, t.2)
                },
            decreases required@.len() - i,
        {
            let tag = required[i].as_str();
            assert(req[i as int] == tag@);
            assert(req.take(i + 1).drop_last() =~= req.take(i as int));
            let ghost prev = missing_required(mt@, req.take(i as int), segments@);
            if find_first_with_tag(segments, tag).is_none() {
                let mut msg = own("required segment ");
                string_push_str(&mut msg, tag);
                string_push_str(&mut msg, " missing for message type ");
                string_push_str(&mut msg, mt.as_str());
                push_issue(&mut out, msg, tag, "Add the mandatory segment at the correct position");
            }
            assert forall|k: int| 0 <= k < out@.len() implies {
                let t = #[trigger] missing_required(mt@, req.take(i + 1), segments@)[k];
                plain_issue(out@[k], t.0, t.1, t.2)
            } by {
                if k < prev.len() {
                    assert(missing_required(mt@, req.take(i + 1), segments@)[k] == prev[k]);
                }
            }
            i = i + 1;
        }
        assert(req.take(i as int) =~= req);
        let ghost base = out@.len();
        let ghost mut acc: Seq<(Seq<char>, Seq<char>, Seq<char>)> = Seq::empty();
        let mut last: Option<usize> = None;
        let mut j: usize = 0;
        assert(out_of_order(mt@, req, segments@, 0, None) =~= acc + out_of_order(mt@, req, segments@, 0, None));
        while j < required.len()
            invariant
                j <= required@.len(),
                texts_of(required@) == req,
                base == miss.len(),
                out@.len() == base + acc.len(),
                total == miss + out_of_order(mt@, req, segments@, 0, None),
                forall|k: int| 0 <= k < base ==> {
                    let t = #[trigger] miss[k];
                    plain_issue(out@[k], t.0, t.1, t.2)
                },
                out_of_order(mt@, req, segments@, 0, None)
                    == acc + out_of_order(mt@, req, segments@, j as int, match last { Some(p) => Some(p as int), None => None }),
                forall|k: int| 0 <= k < acc.len() ==> {
                    let t = #[trigger] acc[k];
                    plain_issue(out@[base + k], t.0, t.1, t.2)
                },
            decreases required@.len() - j,
        {
            let tag = required[j].as_str();
            assert(req[j as int] == tag@);
            let ghost last_int = match last { Some(p) => Some(p as int), None => None::<int> };
            let ghost out0 = out@;
            match find_first_with_tag(segments, tag) {
                Some(idx) => {
                    match last {
                        Some(prev) => {
                            if idx < prev {
                                let mut msg = own("segment sequence violation for message type ");
                                string_push_str(&mut msg, mt.as_str());
                                string_push_str(&mut msg, ": '");
                                string_push_str(&mut msg, tag);
                                string_push_str(&mut msg, "' appears out of order");
                                push_issue(&mut out, msg, tag, "Ensure required segments follow UN/EDIFACT canonical order");
                                proof {
                                    let t = ("segment sequence violation for message type "@ + mt@ + ": '"@ + tag@ + "' appears out of order"@, tag@,
                                        "Ensure required segments follow UN/EDIFACT canonical order"@);
                                    assert(acc.push(t) + out_of_order(mt@, req, segments@, j + 1, Some(idx as int))
                                        =~= acc + out_of_order(mt@, req, segments@, j as int, last_int));
                                    acc = acc.push(t);
                                }
                            } else {
                                proof {
                                    assert(acc + out_of_order(mt@, req, segments@, j + 1, Some(idx as int))
                                        =~= acc + out_of_order(mt@, req, segments@, j as int, last_int));
                                }
                            }
                        },
                        None => {
                            proof {
                                assert(acc + out_of_order(mt@, req, segments@, j + 1, Some(idx as int))
                                    =~= acc + out_of_order(mt@, req, segments@, j as int, last_int));
                            }
                        },
                    }
                    last = Some(idx);
                },
                None => {},
            }
            j = j + 1;
        }
        assert(acc + out_of_order(mt@, req, segments@, j as int, match last { Some(p) => Some(p as int), None => None }) =~= acc);
        assert forall|k: int| 0 <= k < out@.len() implies {
            let t = #[trigger] required_issues(self@, &self.hooks_of(), segments@)[k];
            plain_issue(out@[k], t.0, t.1, t.2)
        } by {
            if k < base {
                assert(total[k] == miss[k]);
            } else {
                assert(total[k] == acc[k - base]);
            }
        }
        out
    }
}


impl DirectoryValidator<TableHooks> {
    /// This validator with `rules` in place of the base code-list rules:
    /// each rule names a tag, an element, a component and the data element
    /// whose code list the value there is checked against.
    pub fn with_code_list_rules(self, rules: Vec<(String, usize, usize, String)>) -> (r: DirectoryValidator<TableHooks>)
        ensures
            r@ == self@,
            r.hooks_of() == (TableHooks { code_rules: Some(rules), ..self.hooks_of() }),
    {
        let mut v = self;
        v.hooks.code_rules = Some(rules);
        v
    }

    /// This validator with `required` in place of the base required
    /// segments: each entry names a message type and the tags it requires,
    /// in order.
    pub fn with_required_segments(self, required: Vec<(String, Vec<String>)>) -> (r: DirectoryValidator<TableHooks>)
        ensures
            r@ == self@,
            r.hooks_of() == (TableHooks { required: Some(required), ..self.hooks_of() }),
    {
        let mut v = self;
        v.hooks.required = Some(required);
        v
    }
}

impl DirectoryValidator<DefaultHooks> {
    /// A validator over compile-time definitions with the default hooks:
    /// structure checks run, code-list checks do not.
    pub fn from_definitions(definitions: &'static [SegmentDefinition]) -> (r: DirectoryValidator<DefaultHooks>)
        ensures
            r@ == (ValidatorView {
                directory_id: "custom"@,
                definitions: definitions@.map_values(|d: SegmentDefinition| (d.tag@, d.layout())),
                message_type: None,
                enforce_known_tags: true,
                structure_checks: true,
                code_list_checks: false,
            }),
    {
        let mut owned: Vec<OwnedSegmentDef> = Vec::new();
        let mut i: usize = 0;
        while i < definitions.len()
            invariant
                i <= definitions@.len(),
                owned@.len() == i,
                forall|k: int| 0 <= k < i ==> (#[trigger] owned@[k]).tag_of() == definitions@[k].tag@
                    && owned@[k].layout() == definitions@[k].layout(),
            decreases definitions@.len() - i,
        {
            owned.push(OwnedSegmentDef::from_definition(&definitions[i]));
            i = i + 1;
        }
        let r = DirectoryValidator {
            directory_id: own("custom"), definitions: owned, hooks: DefaultHooks, message_type: None,
            enforce_known_tags: true, structure_checks: true, code_list_checks: false,
        };
        assert(r@.definitions =~= definitions@.map_values(|d: SegmentDefinition| (d.tag@, d.layout())));
        r
    }

    /// A validator over run-time definitions with the default hooks:
    /// structure checks run, code-list checks do not.
    pub fn from_owned_definitions(definitions: Vec<OwnedSegmentDef>) -> (r: DirectoryValidator<DefaultHooks>)
        ensures
            r@ == (ValidatorView {
                directory_id: "custom"@,
                definitions: defs_view(definitions@),
                message_type: None,
                enforce_known_tags: true,
                structure_checks: true,
                code_list_checks: false,
            }),
    {
        let r = DirectoryValidator {
            directory_id: own("custom"), definitions, hooks: DefaultHooks, message_type: None,
            enforce_known_tags: true, structure_checks: true, code_list_checks: false,
        };
        assert(r@.definitions =~= defs_view(definitions@));
        r
    }
}

impl DirectoryValidatorBuilder {
    /// The validator over the definitions added, named by the builder's
    /// directory identifier.
    pub fn build(self) -> (r: DirectoryValidator<DefaultHooks>)
        ensures
            r@ == (ValidatorView {
                directory_id: match self.directory_id_of() { Some(d) => d, None => "custom"@ },
                definitions: self.definitions_of(),
                message_type: None,
                enforce_known_tags: true,
                structure_checks: true,
                code_list_checks: false,
            }),
    {
        let ghost defs = self.definitions_of();
        let id = self.directory_id;
        let v = DirectoryValidator::from_owned_definitions(self.segments);
        match id {
            Some(d) => DirectoryValidator { directory_id: d, ..v },
            None => v,
        }
    }
}


/// Hooks given as tables: the code list of each data element that has one,
/// suggested replacements, exact component counts, the code-list rules of
/// each tag (the base rules when none are given) and the required tags of
/// each message type (`UNH` and `UNT` when none are given).
pub struct TableHooks {
    /// Data element and its valid codes; a data element without an entry
    /// accepts every code.
    pub code_lists: Vec<(String, Vec<String>)>,
    /// Data element, invalid code and the code to suggest instead.
    pub suggestions: Vec<(String, String, &'static str)>,
    /// Tag, element index and the exact component count it must have.
    pub component_counts: Vec<(String, usize, u8)>,
    /// Tag, element index, component index and data element of each value
    /// checked against a code list; `None` for the base rules.
    pub code_rules: Option<Vec<(String, usize, usize, String)>>,
    /// Message type and the tags it requires, in order; `None` for `UNH`
    /// and `UNT` for every type.
    pub required: Option<Vec<(String, Vec<String>)>>,
}

/// The code list of the first entry for `de`.
pub open spec fn list_for(t: Seq<(String, Vec<String>)>, de: Seq<char>) -> Option<Seq<Seq<char>>>
    decreases t.len(),
{
    if t.len() == 0 { None } else if t[0].0@ == de { Some(texts_of(t[0].1@)) } else { list_for(t.drop_first(), de) }
}

/// The suggestion of the first entry for `de` and `code`.
pub open spec fn suggestion_for(t: Seq<(String, String, &'static str)>, de: Seq<char>, code: Seq<char>) -> Option<Seq<char>>
    decreases t.len(),
{
    if t.len() == 0 { None } else if t[0].0@ == de && t[0].1@ == code { Some(t[0].2@) } else { suggestion_for(t.drop_first(), de, code) }
}

/// The count of the first entry for `tag` and element `i`.
pub open spec fn count_for(t: Seq<(String, usize, u8)>, tag: Seq<char>, i: int) -> Option<u8>
    decreases t.len(),
{
    if t.len() == 0 { None } else if t[0].0@ == tag && t[0].1 as int == i { Some(t[0].2) } else { count_for(t.drop_first(), tag, i) }
}

/// The rules of the entries for `tag`, in order.
pub open spec fn rules_for(t: Seq<(String, usize, usize, String)>, tag: Seq<char>) -> Seq<(usize, usize, Seq<char>)>
    decreases t.len(),
{
    if t.len() == 0 {
        Seq::empty()
    } else {
        rules_for(t.drop_last(), tag) + if t.last().0@ == tag { seq![(t.last().1, t.last().2, t.last().3@)] } else { Seq::empty() }
    }
}

/// The tags of the first entry for `mt`, or none.
pub open spec fn required_for(t: Seq<(String, Vec<String>)>, mt: Seq<char>) -> Seq<Seq<char>>
    decreases t.len(),
{
    if t.len() == 0 { Seq::empty() } else if t[0].0@ == mt { texts_of(t[0].1@) } else { required_for(t.drop_first(), mt) }
}

fn contains_text(v: &Vec<String>, x: &str) -> (r: bool)
    ensures
        r == texts_of(v@).contains(x@),
{
    let mut i: usize = 0;
    while i < v.len()
        invariant
            i <= v@.len(),
            forall|k: int| 0 <= k < i ==> v@[k]@ != x@,
        decreases v@.len() - i,
    {
        if str_eq(v[i].as_str(), x) {
            assert(texts_of(v@)[i as int] == x@);
            return true;
        }
        i = i + 1;
    }
    proof {
        if texts_of(v@).contains(x@) {
            let k = choose|k: int| 0 <= k < texts_of(v@).len() && texts_of(v@)[k] == x@;
            assert(v@[k]@ == x@);
        }
    }
    false
}

fn clone_texts(v: &Vec<String>) -> (r: Vec<String>)
    ensures
        texts_of(r@) == texts_of(v@),
{
    let mut out: Vec<String> = Vec::new();
    let mut i: usize = 0;
    while i < v.len()
        invariant
            i <= v@.len(),
            out@.len() == i,
            forall|k: int| 0 <= k < i ==> (#[trigger] out@[k])@ == v@[k]@,
        decreases v@.len() - i,
    {
        out.push(own(v[i].as_str()));
        i = i + 1;
    }
    assert(texts_of(out@) =~= texts_of(v@));
    out
}

impl DirectoryHooks for TableHooks {
    open spec fn code_valid(&self, data_element: Seq<char>, code: Seq<char>) -> bool {
        match list_for(self.code_lists@, data_element) {
            Some(codes) => codes.contains(code),
            None => true,
        }
    }

    open spec fn suggestion(&self, data_element: Seq<char>, code: Seq<char>) -> Option<Seq<char>> {
        suggestion_for(self.suggestions@, data_element, code)
    }

    open spec fn expected(&self, tag: Seq<char>, element_index: int) -> Option<u8> {
        count_for(self.component_counts@, tag, element_index)
    }

    open spec fn code_rules(&self, tag: Seq<char>) -> Seq<(usize, usize, Seq<char>)> {
        match self.code_rules {
            Some(t) => rules_for(t@, tag),
            None => base_rules(tag),
        }
    }

    open spec fn required(&self, message_type: Seq<char>) -> Seq<Seq<char>> {
        match self.required {
            Some(t) => required_for(t@, message_type),
            None => seq!["UNH"@, "UNT"@],
        }
    }

    open spec fn extra(&self, seg: Segment) -> Option<DirFinding> {
        None
    }

    fn is_code_valid(&self, data_element: &str, code: &str) -> (r: bool) {
        let t = &self.code_lists;
        let mut i: usize = 0;
        assert(t@.skip(0) =~= t@);
        while i < t.len()
            invariant
                i <= t@.len(),
                list_for(t@, data_element@) == list_for(t@.skip(i as int), data_element@),
                t@ == self.code_lists@,
            decreases t@.len() - i,
        {
            assert(t@.skip(i as int)[0] == t@[i as int]);
            if str_eq(t[i].0.as_str(), data_element) {
                return contains_text(&t[i].1, code);
            }
            assert(t@.skip(i as int).drop_first() =~= t@.skip(i + 1));
            i = i + 1;
        }
        true
    }

    fn suggest_code(&self, data_element: &str, code: &str) -> (r: Option<&'static str>) {
        let t = &self.suggestions;
        let mut i: usize = 0;
        assert(t@.skip(0) =~= t@);
        while i < t.len()
            invariant
                i <= t@.len(),
                suggestion_for(t@, data_element@, code@) == suggestion_for(t@.skip(i as int), data_element@, code@),
                t@ == self.suggestions@,
            decreases t@.len() - i,
        {
            assert(t@.skip(i as int)[0] == t@[i as int]);
            if str_eq(t[i].0.as_str(), data_element) && str_eq(t[i].1.as_str(), code) {
                return Some(t[i].2);
            }
            assert(t@.skip(i as int).drop_first() =~= t@.skip(i + 1));
            i = i + 1;
        }
        None
    }

    fn expected_components(&self, tag: &str, element_index: usize) -> (r: Option<u8>) {
        let t = &self.component_counts;
        let mut i: usize = 0;
        assert(t@.skip(0) =~= t@);
        while i < t.len()
            invariant
                i <= t@.len(),
                count_for(t@, tag@, element_index as int) == count_for(t@.skip(i as int), tag@, element_index as int),
                t@ == self.component_counts@,
            decreases t@.len() - i,
        {
            assert(t@.skip(i as int)[0] == t@[i as int]);
            if str_eq(t[i].0.as_str(), tag) && t[i].1 == element_index {
                return Some(t[i].2);
            }
            assert(t@.skip(i as int).drop_first() =~= t@.skip(i + 1));
            i = i + 1;
        }
        None
    }

    fn code_list_rules(&self, tag: &str) -> (r: Vec<(usize, usize, String)>) {
        match &self.code_rules {
            None => base_code_list_rules(tag),
            Some(t) => {
                let mut out: Vec<(usize, usize, String)> = Vec::new();
                let mut i: usize = 0;
                assert(rules_view(out@) =~= rules_for(t@.take(0), tag@));
                while i < t.len()
                    invariant
                        i <= t@.len(),
                        rules_view(out@) == rules_for(t@.take(i as int), tag@),
                        self.code_rules matches Some(v) && v@ == t@,
                    decreases t@.len() - i,
                {
                    assert(t@.take(i + 1).drop_last() =~= t@.take(i as int));
                    assert(t@.take(i + 1).last() == t@[i as int]);
                    let ghost before = out@;
                    if str_eq(t[i].0.as_str(), tag) {
                        out.push((t[i].1, t[i].2, own(t[i].3.as_str())));
                    }
                    assert(rules_view(out@) =~= rules_for(t@.take(i + 1), tag@));
                    i = i + 1;
                }
                assert(t@.take(i as int) =~= t@);
                out
            },
        }
    }

    fn required_segments(&self, message_type: &str) -> (r: Vec<String>) {
        match &self.required {
            None => {
                let v = vec![own("UNH"), own("UNT")];
                assert(texts_of(v@) =~= seq!["UNH"@, "UNT"@]);
                v
            },
            Some(t) => {
                let mut i: usize = 0;
                assert(t@.skip(0) =~= t@);
                while i < t.len()
                    invariant
                        i <= t@.len(),
                        required_for(t@, message_type@) == required_for(t@.skip(i as int), message_type@),
                        self.required matches Some(v) && v@ == t@,
                    decreases t@.len() - i,
                {
                    assert(t@.skip(i as int)[0] == t@[i as int]);
                    if str_eq(t[i].0.as_str(), message_type) {
                        return clone_texts(&t[i].1);
                    }
                    assert(t@.skip(i as int).drop_first() =~= t@.skip(i + 1));
                    i = i + 1;
                }
                let v: Vec<String> = Vec::new();
                assert(texts_of(v@) =~= Seq::<Seq<char>>::empty());
                v
            },
        }
    }

    fn additional_structure_rule(&self, seg: &Segment) -> (r: Result<(), EdifactError>) {
        Ok(())
    }
}


/// No character of `s` starts an exponent.
pub open spec fn no_exponent(s: Seq<char>) -> bool {
    forall|i: int| 0 <= i < s.len() ==> (#[trigger] s[i]) != 'E' && s[i] != 'e'
}

proof fn lemma_exponent_absent(s: Seq<char>)
    requires
        no_exponent(s),
    ensures
        exponent_at(s) == s.len(),
    decreases s.len(),
{
    if s.len() > 0 {
        lemma_exponent_absent(s.drop_last());
        assert(s.last() == s[s.len() - 1]);
    }
}

proof fn lemma_exponent_first(s: Seq<char>, t: Seq<char>)
    requires
        no_exponent(s),
    ensures
        exponent_at(s + seq!['E'] + t) == s.len(),
    decreases t.len(),
{
    let u = s + seq!['E'] + t;
    if t.len() == 0 {
        assert(u.drop_last() =~= s);
        lemma_exponent_absent(s);
    } else {
        assert(u.drop_last() =~= s + seq!['E'] + t.drop_last());
        lemma_exponent_first(s, t.drop_last());
    }
}

proof fn lemma_counted_concat(a: Seq<char>, b: Seq<char>)
    ensures
        counted(a + b) == counted(a) + counted(b),
    decreases b.len(),
{
    if b.len() == 0 {
        assert(a + b =~= a);
    } else {
        assert((a + b).drop_last() =~= a + b.drop_last());
        lemma_counted_concat(a, b.drop_last());
    }
}

/// How a numeric value is measured: the empty value counts nothing; in the
/// mantissa a sign or decimal mark (`-`, `.`, `,`) adds nothing to the
/// length, wherever it stands, and a digit adds one; an exponent (from `E`
/// on) adds nothing.  So `12.5` measures as `125` does.
pub proof fn law_numeric_measure(r: ReprView, s: Seq<char>, t: Seq<char>, c: char)
    requires
        r.kind == ReprKind::Numeric,
        no_exponent(s),
        no_exponent(t),
    ensures
        measure_spec(r, Seq::empty()) == 0,
        (c == '-' || c == '.' || c == ',') ==> measure_spec(r, s + seq![c] + t) == measure_spec(r, s + t),
        is_digit(c) ==> measure_spec(r, s + seq![c] + t) == measure_spec(r, s + t) + 1,
        measure_spec(r, s + seq!['E'] + t) == measure_spec(r, s),
{
    lemma_exponent_absent(Seq::<char>::empty());
    assert(Seq::<char>::empty().take(0) =~= Seq::<char>::empty());
    if c == '-' || c == '.' || c == ',' || is_digit(c) {
        let u = s + seq![c] + t;
        assert(no_exponent(u)) by {
            assert forall|i: int| 0 <= i < u.len() implies (#[trigger] u[i]) != 'E' && u[i] != 'e' by {
                if i < s.len() { assert(u[i] == s[i]); }
                else if i > s.len() { assert(u[i] == t[i - s.len() - 1]); }
            }
        }
        assert(no_exponent(s + t)) by {
            assert forall|i: int| 0 <= i < (s + t).len() implies (#[trigger] (s + t)[i]) != 'E' && (s + t)[i] != 'e' by {
                if i < s.len() { assert((s + t)[i] == s[i]); }
                else { assert((s + t)[i] == t[i - s.len()]); }
            }
        }
        lemma_exponent_absent(u);
        lemma_exponent_absent(s + t);
        assert(u.take(u.len() as int) =~= u);
        assert((s + t).take((s + t).len() as int) =~= s + t);
        lemma_counted_concat(s + seq![c], t);
        lemma_counted_concat(s, seq![c]);
        lemma_counted_concat(s, t);
        assert(seq![c].drop_last() =~= Seq::<char>::empty());
    }
    lemma_exponent_first(s, t);
    assert((s + seq!['E'] + t).take(s.len() as int) =~= s);
    lemma_exponent_absent(s);
    assert(s.take(s.len() as int) =~= s);
}


/// A value measured as text (not numeric) counts every character: one more
/// character, whatever it is, measures one more.
pub proof fn law_text_measure(r: ReprView, s: Seq<char>, t: Seq<char>, c: char)
    requires
        r.kind != ReprKind::Numeric,
    ensures
        measure_spec(r, Seq::empty()) == 0,
        measure_spec(r, s + seq![c] + t) == measure_spec(r, s + t) + 1,
{
}

} // verus!
