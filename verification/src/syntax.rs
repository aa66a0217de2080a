//! The service string advice (`UNA`) and the byte-level scanning of segments:
//! where a segment ends, and how its bytes split into a tag and data pieces.

use vstd::prelude::*;

use crate::error::EdifactError;

verus! {

/// The six service characters of an interchange.
#[derive(Debug, Clone, Copy, PartialEq, Eq, Structural)]
pub struct ServiceStringAdvice {
    /// Separates the components of a composite (UNA position 1).
    pub component_sep: u8,
    /// Separates data elements (UNA position 2).
    pub element_sep: u8,
    /// The decimal mark (UNA position 3).
    pub decimal_mark: u8,
    /// Escapes the byte that follows it (UNA position 4).
    pub release_char: u8,
    /// Separates occurrences of a repeating data element (UNA position 5); a
    /// space means repetition is not used.
    pub repetition_sep: u8,
    /// Ends a segment (UNA position 6).
    pub segment_term: u8,
}

/// ASCII whitespace as skipped between segments.
pub open spec fn is_ws(b: u8) -> bool {
    b == 32u8 || b == 9u8 || b == 13u8 || b == 10u8
}

/// The service string advice of an interchange without `UNA`: `:+.? '`.
pub open spec fn default_ssa() -> ServiceStringAdvice {
    ServiceStringAdvice {
        component_sep: 58u8,
        element_sep: 43u8,
        decimal_mark: 46u8,
        release_char: 63u8,
        repetition_sep: 32u8,
        segment_term: 39u8,
    }
}

/// Five pairwise distinct values.
pub open spec fn distinct5(a: u8, b: u8, c: u8, d: u8, e: u8) -> bool {
    a != b && a != c && a != d && a != e && b != c && b != d && b != e && c != d && c != e && d != e
}

impl ServiceStringAdvice {
    /// Whether a repetition separator is declared (position 5 is not a space).
    pub open spec fn repetition_active(self) -> bool {
        self.repetition_sep != 32u8
    }

    /// The rule a `UNA` must satisfy: the component and element separators,
    /// decimal mark, release character and segment terminator are distinct and
    /// not whitespace, and a declared repetition separator is distinct from them.
    pub open spec fn valid(self) -> bool {
        &&& distinct5(self.component_sep, self.element_sep, self.decimal_mark, self.release_char, self.segment_term)
        &&& !is_ws(self.component_sep) && !is_ws(self.element_sep) && !is_ws(self.decimal_mark)
        &&& !is_ws(self.release_char) && !is_ws(self.segment_term)
        &&& self.repetition_active() ==> (
            self.repetition_sep != self.component_sep && self.repetition_sep != self.element_sep
            && self.repetition_sep != self.decimal_mark && self.repetition_sep != self.release_char
            && self.repetition_sep != self.segment_term && !is_ws(self.repetition_sep))
    }

    /// The default service characters `:+.? '`.
    pub fn new() -> (r: ServiceStringAdvice)
        ensures
            r == default_ssa(),
    {
        ServiceStringAdvice {
            component_sep: 58u8,
            element_sep: 43u8,
            decimal_mark: 46u8,
            release_char: 63u8,
            repetition_sep: 32u8,
            segment_term: 39u8,
        }
    }

    /// Whether a repetition separator is declared.
    pub fn is_repetition_active(&self) -> (r: bool)
        ensures
            r == self.repetition_active(),
    {
        self.repetition_sep != 32u8
    }

    /// Whether these service characters satisfy the `UNA` rule.
    pub fn is_valid(&self) -> (r: bool)
        ensures
            r == self.valid(),
    {
        let (c, e, d, rl, rp, t) = (self.component_sep, self.element_sep, self.decimal_mark, self.release_char, self.repetition_sep, self.segment_term);
        let distinct = c != e && c != d && c != rl && c != t && e != d && e != rl && e != t && d != rl && d != t && rl != t;
        let not_ws = !ws_byte(c) && !ws_byte(e) && !ws_byte(d) && !ws_byte(rl) && !ws_byte(t);
        let rep_ok = rp == 32u8 || (rp != c && rp != e && rp != d && rp != rl && rp != t && !ws_byte(rp));
        distinct && not_ws && rep_ok
    }

    /// The service characters an input declares: those of its `UNA` header
    /// when it starts with `UNA`, the defaults otherwise.  A `UNA` shorter than
    /// nine bytes, or one that breaks the `UNA` rule, is `InvalidUna`.
    pub fn from_bytes(input: &[u8]) -> (r: Result<ServiceStringAdvice, EdifactError>)
        ensures
            match declared_ssa(input@) {
                Some(Some(s)) => r == Ok::<ServiceStringAdvice, EdifactError>(s),
                Some(None) => r matches Err(EdifactError::InvalidUna),
                None => r == Ok::<ServiceStringAdvice, EdifactError>(default_ssa()),
            },
    {
        if starts_with_una(input) {
            if input.len() < 9 {
                return Err(EdifactError::InvalidUna);
            }
            let ssa = ServiceStringAdvice {
                component_sep: input[3],
                element_sep: input[4],
                decimal_mark: input[5],
                release_char: input[6],
                repetition_sep: input[7],
                segment_term: input[8],
            };
            if ssa.is_valid() { Ok(ssa) } else { Err(EdifactError::InvalidUna) }
        } else {
            Ok(ServiceStringAdvice::new())
        }
    }

    /// The nine-byte `UNA` header declaring these service characters.
    pub fn una_bytes(&self) -> (r: Vec<u8>)
        ensures
            r@ == una_header(*self),
    {
        let mut v: Vec<u8> = Vec::new();
        v.push(85u8);
        v.push(78u8);
        v.push(65u8);
        v.push(self.component_sep);
        v.push(self.element_sep);
        v.push(self.decimal_mark);
        v.push(self.release_char);
        v.push(self.repetition_sep);
        v.push(self.segment_term);
        v
    }
}

impl Default for ServiceStringAdvice {
    fn default() -> (r: ServiceStringAdvice)
        ensures
            r == default_ssa(),
    {
        ServiceStringAdvice::new()
    }
}

/// The bytes `UNA` followed by the six service characters.
pub open spec fn una_header(s: ServiceStringAdvice) -> Seq<u8> {
    seq![85u8, 78u8, 65u8, s.component_sep, s.element_sep, s.decimal_mark, s.release_char, s.repetition_sep, s.segment_term]
}

/// Whether the input begins with the letters `UNA`.
pub open spec fn has_una_prefix(input: Seq<u8>) -> bool {
    input.len() >= 3 && input[0] == 85u8 && input[1] == 78u8 && input[2] == 65u8
}

/// The service characters an input declares: `None` without a `UNA`,
/// `Some(None)` for a malformed one, `Some(Some(s))` for a valid one.
pub open spec fn declared_ssa(input: Seq<u8>) -> Option<Option<ServiceStringAdvice>> {
    if has_una_prefix(input) {
        if input.len() < 9 {
            Some(None)
        } else {
            let s = ServiceStringAdvice {
                component_sep: input[3],
                element_sep: input[4],
                decimal_mark: input[5],
                release_char: input[6],
                repetition_sep: input[7],
                segment_term: input[8],
            };
            if s.valid() { Some(Some(s)) } else { Some(None) }
        }
    } else {
        None
    }
}

/// Where parsing begins: after the `UNA` header when there is one.
pub open spec fn body_start(input: Seq<u8>) -> int {
    if has_una_prefix(input) { 9 } else { 0 }
}

pub(crate) fn starts_with_una(input: &[u8]) -> (r: bool)
    ensures
        r == has_una_prefix(input@),
{
    input.len() >= 3 && input[0] == 85u8 && input[1] == 78u8 && input[2] == 65u8
}

/// Whether `b` is ASCII whitespace.
pub fn ws_byte(b: u8) -> (r: bool)
    ensures
        r == is_ws(b),
{
    b == 32u8 || b == 9u8 || b == 13u8 || b == 10u8
}

// ── pieces ──────────────────────────────────────────────────────────────────

/// What precedes a piece of a segment: nothing (the tag) or a separator.
#[derive(Debug, Clone, Copy, PartialEq, Eq, Structural)]
pub enum PieceKind {
    /// The segment tag, first piece of a segment.
    Tag,
    /// A piece after an element separator: a new data element.
    Element,
    /// A piece after a component separator: a further component.
    Component,
    /// A piece after a repetition separator: a further occurrence.
    Repetition,
}

/// A raw, still escaped, run of bytes `[start, end)` of the input.
#[derive(Debug, Clone, Copy, PartialEq, Eq, Structural)]
pub struct Piece {
    /// What precedes the piece.
    pub kind: PieceKind,
    /// First byte of the piece.
    pub start: usize,
    /// One past the last byte of the piece.
    pub end: usize,
}

/// The piece kind a separator byte starts, if it is a separator.
pub open spec fn sep_kind(s: ServiceStringAdvice, b: u8) -> Option<PieceKind> {
    if b == s.element_sep {
        Some(PieceKind::Element)
    } else if b == s.component_sep {
        Some(PieceKind::Component)
    } else if s.repetition_active() && b == s.repetition_sep {
        Some(PieceKind::Repetition)
    } else {
        None
    }
}

/// The scanner state after the bytes `[start, end)`: the pieces closed so
/// far, the kind and start of the open piece, and whether the next byte is
/// escaped by a release character.
pub open spec fn scan(s: ServiceStringAdvice, input: Seq<u8>, start: int, end: int) -> (Seq<Piece>, PieceKind, int, bool)
    decreases end - start,
{
    if end <= start {
        (Seq::empty(), PieceKind::Tag, start, false)
    } else {
        let (ps, k, from, esc) = scan(s, input, start, end - 1);
        let b = input[end - 1];
        if esc {
            (ps, k, from, false)
        } else if b == s.release_char {
            (ps, k, from, true)
        } else {
            match sep_kind(s, b) {
                Some(nk) => (ps.push(Piece { kind: k, start: from as usize, end: (end - 1) as usize }), nk, end, false),
                None => (ps, k, from, false),
            }
        }
    }
}

/// Whether byte `k` ends the segment that starts at `start`: an unescaped terminator.
pub open spec fn ends_segment(s: ServiceStringAdvice, input: Seq<u8>, start: int, k: int) -> bool {
    0 <= k < input.len() && input[k] == s.segment_term && !scan(s, input, start, k).3
}

/// The pieces of the segment bytes `[start, end)`: all closed pieces and the last one.
pub open spec fn pieces_of(s: ServiceStringAdvice, input: Seq<u8>, start: int, end: int) -> Seq<Piece> {
    let (ps, k, from, _e) = scan(s, input, start, end);
    ps.push(Piece { kind: k, start: from as usize, end: end as usize })
}

/// The outcome of scanning from `start`: the pieces up to the terminator at
/// `term`, or, without one, whether the input ends in a dangling release.
pub struct SegmentScan {
    /// The pieces, when a terminator was found.
    pub pieces: Vec<Piece>,
    /// The position of the terminator, if any.
    pub term: Option<usize>,
    /// Without a terminator: whether the last byte is an unescaped release character.
    pub dangling: bool,
}

pub proof fn lemma_scan_bounds(s: ServiceStringAdvice, input: Seq<u8>, start: int, end: int)
    requires
        0 <= start <= end <= usize::MAX,
    ensures
        ({
            let (ps, k, from, e) = scan(s, input, start, end);
            &&& start <= from <= end
            &&& forall|i: int| 0 <= i < ps.len() ==> start <= (#[trigger] ps[i]).start <= ps[i].end < from
        }),
    decreases end - start,
{
    if end > start {
        lemma_scan_bounds(s, input, start, end - 1);
    }
}

/// Scans the segment that starts at `start`: finds its terminator and splits
/// its bytes into pieces at the unescaped separators.
pub fn scan_segment(input: &[u8], start: usize, s: ServiceStringAdvice) -> (r: SegmentScan)
    requires
        start <= input@.len(),
    ensures
        match r.term {
            Some(j) => start <= j < input@.len()
                && ends_segment(s, input@, start as int, j as int)
                && (forall|k: int| start <= k < j ==> !#[trigger] ends_segment(s, input@, start as int, k))
                && r.pieces@ == pieces_of(s, input@, start as int, j as int),
            None => (forall|k: int| start <= k < input@.len() ==> !#[trigger] ends_segment(s, input@, start as int, k))
                && r.dangling == scan(s, input@, start as int, input@.len() as int).3,
        },
{
    let mut pieces: Vec<Piece> = Vec::new();
    let mut kind = PieceKind::Tag;
    let mut from: usize = start;
    let mut escaped = false;
    let mut i: usize = start;
    while i < input.len()
        invariant
            start <= from <= i <= input@.len(),
            (pieces@, kind, from as int, escaped) == scan(s, input@, start as int, i as int),
            forall|k: int| start <= k < i ==> !#[trigger] ends_segment(s, input@, start as int, k),
        decreases input@.len() - i,
    {
        let b = input[i];
        if !escaped && b == s.segment_term {
            pieces.push(Piece { kind, start: from, end: i });
            return SegmentScan { pieces, term: Some(i), dangling: false };
        }
        if escaped {
            escaped = false;
        } else if b == s.release_char {
            escaped = true;
        } else if b == s.element_sep {
            pieces.push(Piece { kind, start: from, end: i });
            kind = PieceKind::Element;
            from = i + 1;
        } else if b == s.component_sep {
            pieces.push(Piece { kind, start: from, end: i });
            kind = PieceKind::Component;
            from = i + 1;
        } else if b != 32u8 && b == s.repetition_sep {
            pieces.push(Piece { kind, start: from, end: i });
            kind = PieceKind::Repetition;
            from = i + 1;
        }
        i = i + 1;
    }
    SegmentScan { pieces, term: None, dangling: escaped }
}

} // verus!
