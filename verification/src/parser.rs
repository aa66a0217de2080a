//! The segment parser: from bytes to [`Segment`]s.
//!
//! A segment is read in three steps, each with its own specification:
//! [`scan_segment`] finds the terminator and splits the bytes into pieces at
//! the unescaped separators; every piece is unescaped and decoded as UTF-8;
//! the pieces after the tag are assembled into data elements, components and
//! repetitions.

use vstd::prelude::*;
use vstd::utf8::*;

use crate::charset::{decode_failure, decode_interchange, decode_ok, sniff_is, Charset};
use crate::error::EdifactError;
pub use crate::stream::{ChunkedReader, ReadStep};
use crate::model::{component_items, occurrences, seg_component, Components, Element, Segment, Span};
use crate::syntax::{body_start, declared_ssa, default_ssa, has_una_prefix, ends_segment, is_ws, pieces_of, scan, scan_segment, ws_byte, Piece, PieceKind, ServiceStringAdvice};

verus! {

/// The bytes `b` with every release character removed and the byte after it
/// kept as it is, and whether the last byte is a dangling release character.
pub open spec fn unescape(b: Seq<u8>, rel: u8) -> (Seq<u8>, bool)
    decreases b.len(),
{
    if b.len() == 0 {
        (Seq::empty(), false)
    } else {
        let (out, esc) = unescape(b.drop_last(), rel);
        let x = b.last();
        if esc {
            (out.push(x), false)
        } else if x == rel {
            (out, true)
        } else {
            (out.push(x), false)
        }
    }
}

/// The unescaped bytes of a piece.
pub open spec fn piece_bytes(s: ServiceStringAdvice, input: Seq<u8>, p: Piece) -> Seq<u8> {
    unescape(input.subrange(p.start as int, p.end as int), s.release_char).0
}

/// The text of a piece: its unescaped bytes decoded as UTF-8, if they are valid.
pub open spec fn piece_text(s: ServiceStringAdvice, input: Seq<u8>, p: Piece) -> Option<Seq<char>> {
    let b = piece_bytes(s, input, p);
    if valid_utf8(b) { Some(decode_utf8(b)) } else { None }
}

/// The span of a piece.
pub open spec fn piece_span(p: Piece) -> Span {
    Span { start: p.start, end: p.end }
}

/// `String::from_utf8`: the string the bytes encode, when they are valid UTF-8.
#[verifier::external_body]
fn utf8_to_string(v: Vec<u8>) -> (r: Option<String>)
    ensures
        r is Some <==> valid_utf8(v@),
        r matches Some(s) ==> s@ == decode_utf8(v@),
{
    String::from_utf8(v).ok()
}

/// The string the bytes encode, when they are valid UTF-8.
pub fn bytes_into_string(v: Vec<u8>) -> (r: Option<String>)
    ensures
        r is Some <==> valid_utf8(v@),
        r matches Some(s) ==> s@ == decode_utf8(v@),
{
    utf8_to_string(v)
}

fn unescape_piece(input: &[u8], p: Piece, rel: u8) -> (r: Vec<u8>)
    requires
        p.start <= p.end <= input@.len(),
    ensures
        r@ == unescape(input@.subrange(p.start as int, p.end as int), rel).0,
{
    let mut out: Vec<u8> = Vec::new();
    let mut esc = false;
    let mut i = p.start;
    while i < p.end
        invariant
            p.start <= i <= p.end <= input@.len(),
            (out@, esc) == unescape(input@.subrange(p.start as int, i as int), rel),
        decreases p.end - i,
    {
        let x = input[i];
        proof {
            assert(input@.subrange(p.start as int, i + 1).drop_last() =~= input@.subrange(p.start as int, i as int));
        }
        if esc {
            out.push(x);
            esc = false;
        } else if x == rel {
            esc = true;
        } else {
            out.push(x);
        }
        i = i + 1;
    }
    out
}

/// The texts of all pieces, or the index of the first piece that is not valid UTF-8.
fn decode_pieces(input: &[u8], ps: &Vec<Piece>, s: ServiceStringAdvice) -> (r: Result<Vec<String>, usize>)
    requires
        forall|i: int| 0 <= i < ps@.len() ==> (#[trigger] ps@[i]).start <= ps@[i].end <= input@.len(),
    ensures
        match r {
            Ok(v) => v@.len() == ps@.len()
                && forall|i: int| 0 <= i < ps@.len() ==> piece_text(s, input@, #[trigger] ps@[i]) == Some(v@[i]@),
            Err(k) => k < ps@.len() && piece_text(s, input@, ps@[k as int]) is None
                && forall|i: int| 0 <= i < k ==> (#[trigger] piece_text(s, input@, ps@[i])) is Some,
        },
{
    let mut out: Vec<String> = Vec::new();
    let mut i: usize = 0;
    while i < ps.len()
        invariant
            i <= ps@.len(),
            out@.len() == i,
            forall|j: int| 0 <= j < ps@.len() ==> (#[trigger] ps@[j]).start <= ps@[j].end <= input@.len(),
            forall|j: int| 0 <= j < i ==> piece_text(s, input@, #[trigger] ps@[j]) == Some(out@[j]@),
        decreases ps@.len() - i,
    {
        let bytes = unescape_piece(input, ps[i], s.release_char);
        match utf8_to_string(bytes) {
            Some(t) => out.push(t),
            None => return Err(i),
        }
        i = i + 1;
    }
    Ok(out)
}

// ── assembling pieces into elements ─────────────────────────────────────────

/// How the pieces `1..n` (the tag is piece 0) group into data elements: per
/// element its occurrences, per occurrence the indices of its components.
/// An element separator opens an element, a repetition separator an
/// occurrence, a component separator a component; a component or repetition
/// with no element open yet opens one.
pub open spec fn assemble(ps: Seq<Piece>, n: int) -> Seq<Seq<Seq<int>>>
    decreases n,
{
    if n <= 1 {
        Seq::empty()
    } else {
        let acc = assemble(ps, n - 1);
        let i = n - 1;
        if acc.len() == 0 || ps[i].kind == PieceKind::Element || ps[i].kind == PieceKind::Tag {
            acc.push(seq![seq![i]])
        } else if ps[i].kind == PieceKind::Component {
            let e = acc.last();
            acc.update(acc.len() - 1, e.update(e.len() - 1, e.last().push(i)))
        } else {
            acc.update(acc.len() - 1, acc.last().push(seq![i]))
        }
    }
}

/// `items` holds, in order, the texts and spans of the pieces `idx`.
pub open spec fn comps_are(s: ServiceStringAdvice, input: Seq<u8>, ps: Seq<Piece>, items: Seq<(String, Span)>, idx: Seq<int>) -> bool {
    &&& items.len() == idx.len()
    &&& forall|c: int| 0 <= c < idx.len() ==>
            Some((#[trigger] items[c]).0@) == piece_text(s, input, ps[idx[c]])
            && items[c].1 == piece_span(ps[idx[c]])
}

/// `e` is the element made of the pieces of `shape`: one occurrence per
/// entry, spanning from its first piece to its last.
pub open spec fn element_is(s: ServiceStringAdvice, input: Seq<u8>, ps: Seq<Piece>, e: Element, shape: Seq<Seq<int>>) -> bool {
    &&& occurrences(e).len() == shape.len()
    &&& forall|o: int| 0 <= o < shape.len() ==> comps_are(s, input, ps, #[trigger] occurrences(e)[o], shape[o])
    &&& e.span == Span { start: ps[shape[0][0]].start, end: ps[shape.last().last()].end }
}

/// `seg` is the segment made of the pieces `ps` of the bytes from `start` to
/// the terminator at `term`.
pub open spec fn segment_is(s: ServiceStringAdvice, input: Seq<u8>, seg: Segment, start: int, term: int) -> bool {
    let ps = pieces_of(s, input, start, term);
    let shapes = assemble(ps, ps.len() as int);
    &&& Some(seg.tag@) == piece_text(s, input, ps[0])
    &&& seg.tag_span == piece_span(ps[0])
    &&& seg.span == Span { start: start as usize, end: (term + 1) as usize }
    &&& seg.elements@.len() == shapes.len()
    &&& forall|k: int| 0 <= k < shapes.len() ==> element_is(s, input, ps, #[trigger] seg.elements@[k], shapes[k])
}

pub(crate) proof fn lemma_assemble_wf(ps: Seq<Piece>, n: int)
    requires
        n <= ps.len(),
    ensures
        forall|k: int| 0 <= k < assemble(ps, n).len() ==> {
            let e = #[trigger] assemble(ps, n)[k];
            &&& e.len() > 0
            &&& forall|o: int| 0 <= o < e.len() ==> (#[trigger] e[o]).len() > 0
                && forall|c: int| 0 <= c < e[o].len() ==> 1 <= #[trigger] e[o][c] < n
        },
    decreases n,
{
    if n > 1 {
        lemma_assemble_wf(ps, n - 1);
        let acc = assemble(ps, n - 1);
        let i = n - 1;
        let r = assemble(ps, n);
        if acc.len() == 0 || ps[i].kind == PieceKind::Element || ps[i].kind == PieceKind::Tag {
            assert(r == acc.push(seq![seq![i]]));
            assert forall|k: int| 0 <= k < r.len() implies {
                let e = #[trigger] r[k];
                &&& e.len() > 0
                &&& forall|o: int| 0 <= o < e.len() ==> (#[trigger] e[o]).len() > 0
                    && forall|c: int| 0 <= c < e[o].len() ==> 1 <= #[trigger] e[o][c] < n
            } by {
                if k < acc.len() { assert(r[k] == acc[k]); }
            }
        } else if ps[i].kind == PieceKind::Component {
            let e = acc.last();
            let ne = e.update(e.len() - 1, e.last().push(i));
            assert(r == acc.update(acc.len() - 1, ne));
            assert forall|k: int| 0 <= k < r.len() implies {
                let e = #[trigger] r[k];
                &&& e.len() > 0
                &&& forall|o: int| 0 <= o < e.len() ==> (#[trigger] e[o]).len() > 0
                    && forall|c: int| 0 <= c < e[o].len() ==> 1 <= #[trigger] e[o][c] < n
            } by {
                if k < acc.len() - 1 { assert(r[k] == acc[k]); } else {
                    assert forall|o: int| 0 <= o < ne.len() implies (#[trigger] ne[o]).len() > 0
                        && forall|c: int| 0 <= c < ne[o].len() ==> 1 <= #[trigger] ne[o][c] < n by {
                        if o < ne.len() - 1 { assert(ne[o] == e[o]); } else {
                            assert forall|c: int| 0 <= c < ne[o].len() implies 1 <= #[trigger] ne[o][c] < n by {
                                if c < e.last().len() { assert(ne[o][c] == e.last()[c]); }
                            }
                        }
                    }
                }
            }
        } else {
            let e = acc.last();
            let ne = e.push(seq![i]);
            assert(r == acc.update(acc.len() - 1, ne));
            assert forall|k: int| 0 <= k < r.len() implies {
                let e = #[trigger] r[k];
                &&& e.len() > 0
                &&& forall|o: int| 0 <= o < e.len() ==> (#[trigger] e[o]).len() > 0
                    && forall|c: int| 0 <= c < e[o].len() ==> 1 <= #[trigger] e[o][c] < n
            } by {
                if k < acc.len() - 1 { assert(r[k] == acc[k]); } else {
                    assert forall|o: int| 0 <= o < ne.len() implies (#[trigger] ne[o]).len() > 0
                        && forall|c: int| 0 <= c < ne[o].len() ==> 1 <= #[trigger] ne[o][c] < n by {
                        if o < ne.len() - 1 { assert(ne[o] == e[o]); }
                    }
                }
            }
        }
    }
}

fn clone_items(v: &Vec<(String, Span)>) -> (r: Vec<(String, Span)>)
    ensures
        r@ == v@,
{
    let mut out: Vec<(String, Span)> = Vec::new();
    let mut i: usize = 0;
    while i < v.len()
        invariant
            i <= v@.len(),
            out@ == v@.take(i as int),
        decreases v@.len() - i,
    {
        out.push((v[i].0.clone(), v[i].1));
        proof { assert(out@ =~= v@.take(i + 1)); }
        i = i + 1;
    }
    proof { assert(v@.take(v@.len() as int) =~= v@); }
    out
}

fn finish_element(occs: Vec<Components>, last: Vec<(String, Span)>, start: usize, end: usize) -> (r: Element)
    ensures
        occurrences(r) == occs@.map_values(|c: Components| component_items(c)).push(last@),
        r.span == (Span { start, end }),
{
    let mut all = occs;
    all.push(Components::from_vec(last));
    let first = all.remove(0);
    let r = Element { span: Span { start, end }, components: first, repeats: all };
    proof {
        assert(occurrences(r) =~= occs@.map_values(|c: Components| component_items(c)).push(last@));
    }
    r
}

/// The open element while assembling: its closed occurrences, the open
/// occurrence's components, and the start and end of its bytes.
pub open spec fn open_element_is(s: ServiceStringAdvice, input: Seq<u8>, ps: Seq<Piece>, occs: Seq<Components>,
    comps: Seq<(String, Span)>, start: usize, end: usize, shape: Seq<Seq<int>>) -> bool {
    &&& shape.len() == occs.len() + 1
    &&& forall|o: int| 0 <= o < occs.len() ==> comps_are(s, input, ps, component_items(#[trigger] occs[o]), shape[o])
    &&& comps_are(s, input, ps, comps, shape.last())
    &&& start == ps[shape[0][0]].start
    &&& end == ps[shape.last().last()].end
}

fn build_elements(ps: &Vec<Piece>, texts: &Vec<String>, Ghost(s): Ghost<ServiceStringAdvice>, Ghost(input): Ghost<Seq<u8>>) -> (r: Vec<Element>)
    requires
        texts@.len() == ps@.len(),
        forall|i: int| 0 <= i < ps@.len() ==> piece_text(s, input, #[trigger] ps@[i]) == Some(texts@[i]@),
    ensures
        r@.len() == assemble(ps@, ps@.len() as int).len(),
        forall|k: int| 0 <= k < r@.len() ==> element_is(s, input, ps@, #[trigger] r@[k], assemble(ps@, ps@.len() as int)[k]),
{
    let mut elems: Vec<Element> = Vec::new();
    let mut occs: Vec<Components> = Vec::new();
    let mut comps: Vec<(String, Span)> = Vec::new();
    let mut have = false;
    let mut start: usize = 0;
    let mut end: usize = 0;
    let mut i: usize = 1;
    while i < ps.len()
        invariant
            1 <= i <= ps@.len() || (i == 1 && ps@.len() == 0),
            texts@.len() == ps@.len(),
            forall|j: int| 0 <= j < ps@.len() ==> piece_text(s, input, #[trigger] ps@[j]) == Some(texts@[j]@),
            have == (assemble(ps@, i as int).len() > 0),
            elems@.len() == assemble(ps@, i as int).len() - (if have { 1int } else { 0int }),
            forall|k: int| 0 <= k < elems@.len() ==> element_is(s, input, ps@, #[trigger] elems@[k], assemble(ps@, i as int)[k]),
            have ==> open_element_is(s, input, ps@, occs@, comps@, start, end, assemble(ps@, i as int).last()),
        decreases ps@.len() - i,
    {
        let ghost acc = assemble(ps@, i as int);
        let p = ps[i];
        let item = (texts[i].clone(), Span { start: p.start, end: p.end });
        proof { lemma_assemble_wf(ps@, i as int); }
        if !have || p.kind == PieceKind::Element || p.kind == PieceKind::Tag {
            if have {
                let ghost shape = acc.last();
                let e = finish_element(occs, comps, start, end);
                proof {
                    assert forall|o: int| 0 <= o < shape.len() implies comps_are(s, input, ps@, #[trigger] occurrences(e)[o], shape[o]) by {
                        if o < shape.len() - 1 {
                            assert(occurrences(e)[o] == component_items(occs@[o]));
                        }
                    }
                }
                elems.push(e);
            }
            occs = Vec::new();
            comps = Vec::new();
            comps.push(item);
            start = p.start;
            end = p.end;
            have = true;
            proof {
                let nacc = assemble(ps@, i + 1);
                assert(nacc == acc.push(seq![seq![i as int]]));
                assert forall|k: int| 0 <= k < elems@.len() implies element_is(s, input, ps@, #[trigger] elems@[k], nacc[k]) by {
                    assert(nacc[k] == acc[k]);
                }
                assert(open_element_is(s, input, ps@, occs@, comps@, start, end, nacc.last()));
            }
        } else if p.kind == PieceKind::Component {
            comps.push(item);
            end = p.end;
            proof {
                let nacc = assemble(ps@, i + 1);
                let e = acc.last();
                let ne = e.update(e.len() - 1, e.last().push(i as int));
                assert(nacc == acc.update(acc.len() - 1, ne));
                assert forall|k: int| 0 <= k < elems@.len() implies element_is(s, input, ps@, #[trigger] elems@[k], nacc[k]) by {
                    assert(nacc[k] == acc[k]);
                }
                assert(nacc.last() == ne);
                assert forall|o: int| 0 <= o < occs@.len() implies comps_are(s, input, ps@, component_items(#[trigger] occs@[o]), ne[o]) by {
                    assert(ne[o] == e[o]);
                }
                assert(comps_are(s, input, ps@, comps@, ne.last()));
            }
        } else {
            let ghost old_comps = comps@;
            let mut closed: Vec<(String, Span)> = Vec::new();
            std::mem::swap(&mut closed, &mut comps);
            occs.push(Components::from_vec(closed));
            comps.push(item);
            end = p.end;
            proof {
                let nacc = assemble(ps@, i + 1);
                let e = acc.last();
                let ne = e.push(seq![i as int]);
                assert(nacc == acc.update(acc.len() - 1, ne));
                assert forall|k: int| 0 <= k < elems@.len() implies element_is(s, input, ps@, #[trigger] elems@[k], nacc[k]) by {
                    assert(nacc[k] == acc[k]);
                }
                assert(nacc.last() == ne);
                assert forall|o: int| 0 <= o < occs@.len() implies comps_are(s, input, ps@, component_items(#[trigger] occs@[o]), ne[o]) by {
                    assert(ne[o] == e[o]);
                }
            }
        }
        i = i + 1;
    }
    if have {
        let ghost acc = assemble(ps@, i as int);
        let ghost shape = acc.last();
        proof { lemma_assemble_wf(ps@, i as int); }
        let e = finish_element(occs, comps, start, end);
        proof {
            assert forall|o: int| 0 <= o < shape.len() implies comps_are(s, input, ps@, #[trigger] occurrences(e)[o], shape[o]) by {
                if o < shape.len() - 1 {
                    assert(occurrences(e)[o] == component_items(occs@[o]));
                }
            }
        }
        elems.push(e);
    }
    proof {
        if ps@.len() == 0 { assert(assemble(ps@, 0).len() == 0); }
    }
    elems
}

// ── locating and reading one segment ────────────────────────────────────────

/// The first position at or after `pos` that is not whitespace.
pub open spec fn skip_ws(input: Seq<u8>, pos: int) -> int
    decreases input.len() - pos,
{
    if pos >= input.len() || !is_ws(input[pos]) { pos } else { skip_ws(input, pos + 1) }
}

/// The first terminator at or after `k` of the segment starting at `q`, or -1.
pub open spec fn term_from(s: ServiceStringAdvice, input: Seq<u8>, q: int, k: int) -> int
    decreases input.len() - k,
{
    if k >= input.len() {
        -1
    } else if ends_segment(s, input, q, k) {
        k
    } else {
        term_from(s, input, q, k + 1)
    }
}

/// What lies at `pos`: the end of the input, a stray terminator, a segment
/// from `q` to the terminator at `j`, or a malformed tail.
pub enum Found {
    /// Only whitespace is left.
    End,
    /// A terminator with nothing before it, at this position.
    Stray(int),
    /// A segment from the first position to the terminator at the second.
    Seg(int, int),
    /// A segment starting here is longer than the limit.
    TooLong(int),
    /// The input ends in a dangling release character.
    Dangling,
    /// The input ends inside a segment.
    Eof,
}

/// What lies at `pos` in `input`, for segments of at most `max` bytes.
pub open spec fn locate(s: ServiceStringAdvice, input: Seq<u8>, pos: int, max: int) -> Found {
    let q = skip_ws(input, pos);
    if q >= input.len() {
        Found::End
    } else {
        let j = term_from(s, input, q, q);
        if j < 0 {
            if input.len() - q > max {
                Found::TooLong(q)
            } else if scan(s, input, q, input.len() as int).3 {
                Found::Dangling
            } else {
                Found::Eof
            }
        } else if j - q > max {
            Found::TooLong(q)
        } else if j == q {
            Found::Stray(j)
        } else {
            Found::Seg(q, j)
        }
    }
}

/// The index of the first piece that is not valid UTF-8, or -1.
pub open spec fn first_undecodable(s: ServiceStringAdvice, input: Seq<u8>, ps: Seq<Piece>, k: int) -> int
    decreases ps.len() - k,
{
    if k >= ps.len() {
        -1
    } else if piece_text(s, input, ps[k]) is None {
        k
    } else {
        first_undecodable(s, input, ps, k + 1)
    }
}

/// The result of reading at `pos`.
pub enum Step {
    /// Nothing is left.
    End,
    /// A stray terminator was skipped; reading goes on after it.
    Stray(usize),
    /// A segment, and where the next one starts.
    Parsed(Segment, usize),
    /// The input is malformed here.
    Failed(EdifactError),
}

/// The error a segment from `q` to `j` fails with, if it fails.
pub open spec fn segment_error(s: ServiceStringAdvice, input: Seq<u8>, q: int, j: int, e: EdifactError) -> bool {
    let ps = pieces_of(s, input, q, j);
    if ps[0].start == ps[0].end {
        e == EdifactError::UnexpectedDataToken { offset: (if ps.len() > 1 { ps[1].start } else { q as usize }) }
    } else {
        let k = first_undecodable(s, input, ps, 0);
        k >= 0 && e == EdifactError::InvalidText { offset: ps[k].start }
    }
}

/// Whether the segment from `q` to `j` decodes: its tag is not empty and
/// every piece is valid UTF-8.
pub open spec fn segment_decodes(s: ServiceStringAdvice, input: Seq<u8>, q: int, j: int) -> bool {
    let ps = pieces_of(s, input, q, j);
    ps[0].start != ps[0].end && first_undecodable(s, input, ps, 0) < 0
}

/// The step that reading at `pos` takes.
pub open spec fn step_is(s: ServiceStringAdvice, input: Seq<u8>, pos: int, max: int, r: Step) -> bool {
    match locate(s, input, pos, max) {
        Found::End => r is End,
        Found::Stray(j) => r == Step::Stray((j + 1) as usize),
        Found::TooLong(q) => r == Step::Failed(EdifactError::SegmentTooLong { offset: q as usize, limit: max as usize }),
        Found::Dangling => r == Step::Failed(EdifactError::InvalidReleaseSequence { offset: (input.len() - 1) as usize }),
        Found::Eof => r == Step::Failed(EdifactError::UnexpectedEof { offset: input.len() as usize }),
        Found::Seg(q, j) => if segment_decodes(s, input, q, j) {
            r matches Step::Parsed(seg, next) && next == j + 1 && segment_is(s, input, seg, q, j)
        } else {
            r matches Step::Failed(e) && segment_error(s, input, q, j, e)
        },
    }
}

/// The first position at or after `pos` that is not whitespace.
pub fn skip_whitespace_from(input: &[u8], pos: usize) -> (r: usize)
    requires
        pos <= input@.len(),
    ensures
        r == skip_ws(input@, pos as int),
        pos <= r <= input@.len(),
{
    skip_whitespace(input, pos)
}

fn skip_whitespace(input: &[u8], pos: usize) -> (r: usize)
    requires
        pos <= input@.len(),
    ensures
        r == skip_ws(input@, pos as int),
        pos <= r <= input@.len(),
{
    let mut q = pos;
    while q < input.len() && ws_byte(input[q])
        invariant
            pos <= q <= input@.len(),
            skip_ws(input@, q as int) == skip_ws(input@, pos as int),
        decreases input@.len() - q,
    {
        q = q + 1;
    }
    q
}

proof fn lemma_term_from(s: ServiceStringAdvice, input: Seq<u8>, q: int, k: int, j: int)
    requires
        q <= k <= j,
        forall|m: int| k <= m < j ==> !#[trigger] ends_segment(s, input, q, m),
    ensures
        j < input.len() && ends_segment(s, input, q, j) ==> term_from(s, input, q, k) == j,
        j == input.len() ==> term_from(s, input, q, k) == -1,
    decreases j - k,
{
    if k < j {
        lemma_term_from(s, input, q, k + 1, j);
    }
}

proof fn lemma_first_undecodable(s: ServiceStringAdvice, input: Seq<u8>, ps: Seq<Piece>, k: int, m: int)
    requires
        0 <= k <= m <= ps.len(),
        forall|i: int| k <= i < m ==> (#[trigger] piece_text(s, input, ps[i])) is Some,
    ensures
        m < ps.len() && piece_text(s, input, ps[m]) is None ==> first_undecodable(s, input, ps, k) == m,
        m == ps.len() ==> first_undecodable(s, input, ps, k) == -1,
    decreases m - k,
{
    if k < m {
        lemma_first_undecodable(s, input, ps, k + 1, m);
    }
}

/// Reads what lies at `pos`: a segment, a stray terminator to skip, the end
/// of the input, or the error that stops reading.
pub fn read_step(input: &[u8], pos: usize, s: ServiceStringAdvice, max: usize) -> (r: Step)
    requires
        pos <= input@.len(),
    ensures
        step_is(s, input@, pos as int, max as int, r),
{
    let q = skip_whitespace(input, pos);
    if q >= input.len() {
        return Step::End;
    }
    let sc = scan_segment(input, q, s);
    match sc.term {
        None => {
            proof { lemma_term_from(s, input@, q as int, q as int, input@.len() as int); }
            if input.len() - q > max {
                Step::Failed(EdifactError::SegmentTooLong { offset: q, limit: max })
            } else if sc.dangling {
                Step::Failed(EdifactError::InvalidReleaseSequence { offset: input.len() - 1 })
            } else {
                Step::Failed(EdifactError::UnexpectedEof { offset: input.len() })
            }
        },
        Some(j) => {
            proof { lemma_term_from(s, input@, q as int, q as int, j as int); }
            if j - q > max {
                return Step::Failed(EdifactError::SegmentTooLong { offset: q, limit: max });
            }
            if j == q {
                return Step::Stray(j + 1);
            }
            let ps = sc.pieces;
            proof {
                crate::syntax::lemma_scan_bounds(s, input@, q as int, j as int);
            }
            if ps[0].start == ps[0].end {
                let off = if ps.len() > 1 { ps[1].start } else { q };
                return Step::Failed(EdifactError::UnexpectedDataToken { offset: off });
            }
            match decode_pieces(input, &ps, s) {
                Err(k) => {
                    proof { lemma_first_undecodable(s, input@, ps@, 0, k as int); }
                    Step::Failed(EdifactError::InvalidText { offset: ps[k].start })
                },
                Ok(texts) => {
                    proof { lemma_first_undecodable(s, input@, ps@, 0, ps@.len() as int); }
                    let elements = build_elements(&ps, &texts, Ghost(s), Ghost(input@));
                    let seg = Segment {
                        tag: texts[0].clone(),
                        span: Span { start: q, end: j + 1 },
                        tag_span: Span { start: ps[0].start, end: ps[0].end },
                        elements,
                    };
                    Step::Parsed(seg, j + 1)
                },
            }
        },
    }
}

// ── the segment iterator ────────────────────────────────────────────────────

/// Limits on what a reader accepts.
#[derive(Debug, Clone, Copy)]
pub struct ReaderConfig {
    /// Longest segment, in bytes, terminator excluded.
    pub max_segment_bytes: usize,
    /// Most segments read, if limited.
    pub max_segments: Option<usize>,
    /// Most input bytes read, if limited.
    pub max_input_bytes: Option<u64>,
    /// Most messages (UNH) read, if limited.
    pub max_messages: Option<usize>,
    /// Service characters to use in place of the input's own, if any.
    pub service_string_advice: Option<ServiceStringAdvice>,
}

impl ReaderConfig {
    /// The defaults: segments of at most 65536 bytes and no other limit.
    pub open spec fn new_spec() -> ReaderConfig {
        ReaderConfig {
            max_segment_bytes: 65536,
            max_segments: None,
            max_input_bytes: None,
            max_messages: None,
            service_string_advice: None,
        }
    }

    /// The defaults: segments of at most 65536 bytes and no other limit.
    pub fn new() -> (r: ReaderConfig)
        ensures
            r == ReaderConfig::new_spec(),
    {
        ReaderConfig {
            max_segment_bytes: 65536,
            max_segments: None,
            max_input_bytes: None,
            max_messages: None,
            service_string_advice: None,
        }
    }

    /// This configuration with another segment length limit.
    pub fn max_segment_bytes(self, limit: usize) -> (r: ReaderConfig)
        ensures
            r == (ReaderConfig { max_segment_bytes: limit, ..self }),
    {
        ReaderConfig { max_segment_bytes: limit, ..self }
    }

    /// This configuration with a segment count limit.
    pub fn max_segments(self, limit: usize) -> (r: ReaderConfig)
        ensures
            r == (ReaderConfig { max_segments: Some(limit), ..self }),
    {
        ReaderConfig { max_segments: Some(limit), ..self }
    }

    /// This configuration with an input size limit.
    pub fn max_input_bytes(self, limit: u64) -> (r: ReaderConfig)
        ensures
            r == (ReaderConfig { max_input_bytes: Some(limit), ..self }),
    {
        ReaderConfig { max_input_bytes: Some(limit), ..self }
    }

    /// This configuration with a message count limit.
    pub fn max_messages(self, limit: usize) -> (r: ReaderConfig)
        ensures
            r == (ReaderConfig { max_messages: Some(limit), ..self }),
    {
        ReaderConfig { max_messages: Some(limit), ..self }
    }
}

impl Default for ReaderConfig {
    fn default() -> (r: ReaderConfig)
        ensures
            r.max_segment_bytes == 65536,
            r.max_segments is None,
            r.max_input_bytes is None,
            r.max_messages is None,
            r.service_string_advice is None,
    {
        ReaderConfig::new()
    }
}

pub(crate) proof fn lemma_skip_ws_ge(input: Seq<u8>, pos: int)
    ensures
        skip_ws(input, pos) >= pos,
    decreases input.len() - pos,
{
    if pos < input.len() && is_ws(input[pos]) {
        lemma_skip_ws_ge(input, pos + 1);
    }
}

pub(crate) proof fn lemma_term_from_ge(s: ServiceStringAdvice, input: Seq<u8>, q: int, k: int)
    ensures
        term_from(s, input, q, k) == -1 || (k <= term_from(s, input, q, k) < input.len()),
    decreases input.len() - k,
{
    if k < input.len() && !ends_segment(s, input, q, k) {
        lemma_term_from_ge(s, input, q, k + 1);
    }
}

/// A stray terminator or a segment found at `pos` lies at or after `pos`.
pub(crate) proof fn lemma_locate_advances(s: ServiceStringAdvice, input: Seq<u8>, pos: int, max: int)
    ensures
        locate(s, input, pos, max) matches Found::Stray(j) ==> pos <= j < input.len(),
        locate(s, input, pos, max) matches Found::Seg(q, j) ==> pos <= q <= j < input.len(),
{
    lemma_skip_ws_ge(input, pos);
    lemma_term_from_ge(s, input, skip_ws(input, pos), skip_ws(input, pos));
}

/// The position reading really starts from at `pos`: past any stray terminators.
pub open spec fn skip_strays(s: ServiceStringAdvice, input: Seq<u8>, pos: int, max: int) -> int
    decreases input.len() - pos,
{
    match locate(s, input, pos, max) {
        Found::Stray(j) => if j + 1 > pos { skip_strays(s, input, j + 1, max) } else { pos },
        _ => pos,
    }
}

/// The tag `UNH`.
pub open spec fn is_unh(t: Seq<char>) -> bool {
    t == seq!['U', 'N', 'H']
}

/// The tag `UNT`.
pub open spec fn is_unt(t: Seq<char>) -> bool {
    t == seq!['U', 'N', 'T']
}

/// A lazy reader of segments from a byte slice.
pub struct FromBytesIter<'a> {
    /// The input being read.
    pub input: &'a [u8],
    /// Where the next segment is read from.
    pub pos: usize,
    /// The service characters in force.
    pub ssa: ServiceStringAdvice,
    /// The error to report before anything else, if any.
    pub pending: Option<EdifactError>,
    /// Whether reading has stopped.
    pub done: bool,
    /// The limits in force.
    pub config: ReaderConfig,
    /// The number of segments handed out so far.
    pub segments_yielded: usize,
    /// The number of messages (UNH ... UNT) completed so far.
    pub messages_yielded: usize,
    /// Whether a UNH has been read that no UNT closed yet.
    pub in_message: bool,
}

/// Whether the tag is `UNH` (or `UNT`).
pub(crate) fn tag_is(t: &str, unh: bool) -> (r: bool)
    ensures
        r == (if unh { is_unh(t@) } else { is_unt(t@) }),
{
    let c = crate::text::to_chars(t);
    if c.len() != 3 { return false; }
    let third = if unh { 'H' } else { 'T' };
    let r = c[0] == 'U' && c[1] == 'N' && c[2] == third;
    proof {
        if r { assert(t@ =~= seq!['U', 'N', third]); }
        else if t@ == seq!['U', 'N', third] { assert(c@[0] == 'U' && c@[1] == 'N' && c@[2] == third); }
    }
    r
}

impl<'a> FromBytesIter<'a> {
    /// The reader's bookkeeping is consistent: counts never exceed the bytes read.
    pub open spec fn wf(&self) -> bool {
        &&& self.pos <= self.input@.len() <= usize::MAX
        &&& self.segments_yielded <= self.pos
        &&& self.messages_yielded <= self.segments_yielded
    }

    fn stop(&mut self, e: EdifactError) -> (r: Option<Result<Segment, EdifactError>>)
        ensures
            r == Some(Err::<Segment, EdifactError>(e)),
            *final(self) == (FromBytesIter { done: true, ..*old(self) }),
    {
        self.done = true;
        Some(Err(e))
    }

    /// The next segment, or the error that stops reading, or `None` at the end.
    ///
    /// A pending error (a malformed `UNA`) comes first.  Stray terminators are
    /// skipped.  A segment that would pass `max_segments`, a `UNH` that would
    /// pass `max_messages`, and a segment that ends past `max_input_bytes` are
    /// `LimitExceeded`.  After an error or the end, every call returns `None`.
    pub fn next(&mut self) -> (r: Option<Result<Segment, EdifactError>>)
        requires
            old(self).wf(),
        ensures
            final(self).wf(),
            final(self).input == old(self).input,
            final(self).ssa == old(self).ssa,
            final(self).config == old(self).config,
            final(self).pos >= old(self).pos,
            !final(self).done ==> final(self).pos > old(self).pos,
            old(self).pending is None ==> final(self).pending is None,
            old(self).done ==> r is None && final(self).done,
            !old(self).done && old(self).pending is Some ==> r == Some(Err::<Segment, EdifactError>(old(self).pending.unwrap())) && final(self).done,
            !old(self).done && old(self).pending is None ==> ({
                let s = old(self).ssa;
                let input = old(self).input@;
                let max = old(self).config.max_segment_bytes as int;
                let p = skip_strays(s, input, old(self).pos as int, max);
                match locate(s, input, p, max) {
                    Found::End => r is None && final(self).done,
                    Found::Seg(q, j) => if !segment_decodes(s, input, q, j) {
                        r matches Some(Err(e)) && segment_error(s, input, q, j, e) && final(self).done
                    } else {
                        r matches Some(res) && final(self).pos == j + 1 && (match res {
                            Ok(seg) => segment_is(s, input, seg, q, j) && !final(self).done
                                && !limit_hit(old(self).config, old(self).segments_yielded as int, old(self).messages_yielded as int, seg)
                                && final(self).segments_yielded == old(self).segments_yielded + 1
                                && final(self).in_message == (if is_unt(seg.tag@) { false } else if is_unh(seg.tag@) { true } else { old(self).in_message })
                                && final(self).messages_yielded == old(self).messages_yielded + (if is_unt(seg.tag@) && old(self).in_message { 1int } else { 0int }),
                            Err(e) => final(self).done && exists|seg: Segment| segment_is(s, input, seg, q, j) && limit_error(old(self).config, old(self).segments_yielded as int, old(self).messages_yielded as int, seg, e),
                        })
                    },
                    Found::Stray(_) => false,
                    _ => r matches Some(Err(e)) && step_is(s, input, p, max, Step::Failed(e)) && final(self).done,
                }
            }),
    {
        if self.done {
            return None;
        }
        if let Some(e) = self.pending.take() {
            return self.stop(e);
        }
        let max = self.config.max_segment_bytes;
        let ghost p0 = self.pos as int;
        loop
            invariant
                self.wf(),
                !self.done,
                self.pending is None,
                self.input == old(self).input,
                self.ssa == old(self).ssa,
                self.config == old(self).config,
                max == self.config.max_segment_bytes,
                self.segments_yielded == old(self).segments_yielded,
                self.messages_yielded == old(self).messages_yielded,
                self.in_message == old(self).in_message,
                skip_strays(self.ssa, self.input@, self.pos as int, max as int) == skip_strays(self.ssa, self.input@, p0, max as int),
                p0 == old(self).pos,
                self.pos >= p0,
                old(self).pending is None,
                !old(self).done,
            decreases self.input@.len() - self.pos,
        {
            let step = read_step(self.input, self.pos, self.ssa, max);
            match step {
                Step::End => {
                    self.done = true;
                    return None;
                },
                Step::Failed(e) => {
                    return self.stop(e);
                },
                Step::Stray(next) => {
                    proof {
                        lemma_locate_advances(self.ssa, self.input@, self.pos as int, max as int);
                        let f = locate(self.ssa, self.input@, self.pos as int, max as int);
                        assert(f is Stray);
                        let j0 = f->Stray_0;
                        assert(j0 + 1 == next as int);
                        assert(skip_strays(self.ssa, self.input@, self.pos as int, max as int)
                            == skip_strays(self.ssa, self.input@, next as int, max as int));
                    }
                    self.pos = next;
                },
                Step::Parsed(seg, next) => {
                    proof { lemma_locate_advances(self.ssa, self.input@, self.pos as int, max as int); }
                    self.pos = next;
                    if let Some(m) = self.config.max_segments {
                        if self.segments_yielded >= m {
                            return self.stop(EdifactError::LimitExceeded { limit: "max_segments", max: m as u64 });
                        }
                    }
                    let unh = tag_is(seg.tag.as_str(), true);
                    let unt = tag_is(seg.tag.as_str(), false);
                    if let Some(m) = self.config.max_messages {
                        if unh && self.messages_yielded >= m {
                            return self.stop(EdifactError::LimitExceeded { limit: "max_messages", max: m as u64 });
                        }
                    }
                    if let Some(m) = self.config.max_input_bytes {
                        if seg.span.end as u64 > m {
                            return self.stop(EdifactError::LimitExceeded { limit: "max_input_bytes", max: m });
                        }
                    }
                    self.segments_yielded = self.segments_yielded + 1;
                    if unt {
                        if self.in_message {
                            self.messages_yielded = self.messages_yielded + 1;
                        }
                        self.in_message = false;
                    } else if unh {
                        self.in_message = true;
                    }
                    return Some(Ok(seg));
                },
            }
        }
    }

    /// Reads every remaining segment: the segments read, and the error that
    /// ended reading, if one did.
    pub fn drain(self) -> (r: (Vec<Segment>, Option<EdifactError>))
        requires
            self.wf(),
        ensures
            self.done ==> r.0@.len() == 0 && r.1 is None,
            !self.done && self.pending is Some ==> r.0@.len() == 0 && r.1 == self.pending,
            !self.done && self.pending is None ==>
                drained(self.ssa, self.input@, self.config.max_segment_bytes as int, !unlimited(self.config), self.pos as int, r.0@, r.1),
    {
        if self.done {
            return (Vec::new(), None);
        }
        if let Some(e) = self.pending {
            return (Vec::new(), Some(e));
        }
        let ghost s = self.ssa;
        let ghost input = self.input@;
        let ghost max = self.config.max_segment_bytes as int;
        let ghost pos0 = self.pos as int;
        let mut it = self;
        let mut out: Vec<Segment> = Vec::new();
        loop
            invariant
                !self.done,
                self.pending is None,
                self.ssa == s,
                self.input@ == input,
                self.config.max_segment_bytes == max,
                self.pos == pos0,
                it.config == self.config,
                it.wf(),
                !it.done,
                it.pending is None,
                it.ssa == s,
                it.input@ == input,
                it.config.max_segment_bytes == max,
                reads_all(s, input, max, pos0, out@),
                it.pos == end_of(pos0, out@),
            decreases it.input@.len() - it.pos,
        {
            let ghost before = out@;
            match it.next() {
                None => return (out, None),
                Some(Err(e)) => {
                    proof {
                        let p = skip_strays(s, input, end_of(pos0, before), max);
                        if let Found::Seg(q, j) = locate(s, input, p, max) {
                            if segment_decodes(s, input, q, j) {
                                let seg = choose|seg: Segment| segment_is(s, input, seg, q, j) && limit_error(it.config, it.segments_yielded as int, it.messages_yielded as int, seg, e);
                                assert(!unlimited(it.config));
                            }
                        }
                    }
                    return (out, Some(e));
                },
                Some(Ok(seg)) => {
                    out.push(seg);
                    proof { lemma_reads_all_push(s, input, max, pos0, before, seg); }
                },
            }
        }
    }

    /// Reads every remaining segment; the first error ends reading and is returned.
    pub fn collect_segments(self) -> (r: Result<Vec<Segment>, EdifactError>)
        requires
            self.wf(),
        ensures
            self.done ==> (r matches Ok(v) && v@.len() == 0),
            !self.done && self.pending is Some ==> r == Err::<Vec<Segment>, EdifactError>(self.pending.unwrap()),
            !self.done && self.pending is None ==>
                collected(self.ssa, self.input@, self.config.max_segment_bytes as int, !unlimited(self.config), self.pos as int, r),
    {
        let (v, end) = self.drain();
        match end {
            None => Ok(v),
            Some(e) => Err(e),
        }
    }
}

/// What reading from `from` yields: the segments `v`, each in turn, then
/// the end of the input (`end` is `None`) or the error `end` that stops
/// reading.
pub open spec fn drained(s: ServiceStringAdvice, input: Seq<u8>, max: int, limited: bool, from: int, v: Seq<Segment>, end: Option<EdifactError>) -> bool {
    &&& reads_all(s, input, max, from, v)
    &&& match end {
        None => locate(s, input, skip_strays(s, input, end_of(from, v), max), max) is End,
        Some(e) => stops_with(s, input, max, limited, end_of(from, v), e),
    }
}

/// What reading everything from `from` gives: every segment in turn up to
/// the end of the input, or the error that stops reading after some of them.
pub open spec fn collected(s: ServiceStringAdvice, input: Seq<u8>, max: int, limited: bool, from: int, r: Result<Vec<Segment>, EdifactError>) -> bool {
    match r {
        Ok(v) => reads_all(s, input, max, from, v@)
            && locate(s, input, skip_strays(s, input, end_of(from, v@), max), max) is End,
        Err(e) => exists|v: Seq<Segment>| #[trigger] reads_all(s, input, max, from, v)
            && stops_with(s, input, max, limited, end_of(from, v), e),
    }
}

/// What parsing `input` whole with `config` gives: a malformed `UNA` is
/// refused; otherwise reading starts after the `UNA` (if any) with the
/// service characters the configuration names, else those of the `UNA`,
/// else the defaults.
pub open spec fn parsed_from(input: Seq<u8>, config: ReaderConfig, r: Result<Vec<Segment>, EdifactError>) -> bool {
    let max = config.max_segment_bytes as int;
    match declared_ssa(input) {
        Some(None) => r == Err::<Vec<Segment>, EdifactError>(EdifactError::InvalidUna),
        Some(Some(d)) => collected(match config.service_string_advice { Some(o) => o, None => d }, input, max, !unlimited(config), 9, r),
        None => collected(match config.service_string_advice { Some(o) => o, None => default_ssa() }, input, max, !unlimited(config), 0, r),
    }
}

/// Every segment of `input`, read with `config`.
pub(crate) fn parse_segments(input: &[u8], config: ReaderConfig) -> (r: Result<Vec<Segment>, EdifactError>)
    ensures
        parsed_from(input@, config, r),
{
    from_bytes_with_config(input, config).collect_segments()
}

/// The segment read from position `at`: past the stray terminators there,
/// a segment that decodes to `seg`.
pub open spec fn read_at(s: ServiceStringAdvice, input: Seq<u8>, max: int, at: int, seg: Segment) -> bool {
    let p = skip_strays(s, input, at, max);
    locate(s, input, p, max) matches Found::Seg(q, j) && segment_decodes(s, input, q, j) && segment_is(s, input, seg, q, j)
}

/// Where reading goes on after the segments `v`, read from `from`.
pub open spec fn end_of(from: int, v: Seq<Segment>) -> int {
    if v.len() == 0 { from } else { v.last().span.end as int }
}

/// `v` is what reading from `from` yields, one segment after the other.
pub open spec fn reads_all(s: ServiceStringAdvice, input: Seq<u8>, max: int, from: int, v: Seq<Segment>) -> bool {
    forall|k: int| 0 <= k < v.len() ==> read_at(s, input, max, end_of(from, v.take(k)), #[trigger] v[k])
}

/// Reading from `at` stops with `e`: a segment that does not decode, a limit
/// that the segment would pass (only where limits are set), or a malformed
/// stretch of input.
pub open spec fn stops_with(s: ServiceStringAdvice, input: Seq<u8>, max: int, limited: bool, at: int, e: EdifactError) -> bool {
    let p = skip_strays(s, input, at, max);
    match locate(s, input, p, max) {
        Found::End => false,
        Found::Stray(_) => false,
        Found::Seg(q, j) => if segment_decodes(s, input, q, j) {
            limited && e is LimitExceeded
        } else {
            segment_error(s, input, q, j, e)
        },
        _ => step_is(s, input, p, max, Step::Failed(e)),
    }
}

/// Two readings of the same bytes from the same place agree on where each
/// segment lies, as far as both go.
proof fn lemma_reads_line_up(s: ServiceStringAdvice, input: Seq<u8>, max: int, from: int, v: Seq<Segment>, w: Seq<Segment>, k: int)
    requires
        reads_all(s, input, max, from, v),
        reads_all(s, input, max, from, w),
        0 <= k <= v.len(),
        k <= w.len(),
    ensures
        end_of(from, v.take(k)) == end_of(from, w.take(k)),
        forall|i: int| 0 <= i < k ==> (#[trigger] v[i]).span == w[i].span,
    decreases k,
{
    if k > 0 {
        lemma_reads_line_up(s, input, max, from, v, w, k - 1);
        assert(v.take(k).last() == v[k - 1]);
        assert(w.take(k).last() == w[k - 1]);
        assert(read_at(s, input, max, end_of(from, v.take(k - 1)), v[k - 1]));
        assert(read_at(s, input, max, end_of(from, w.take(k - 1)), w[k - 1]));
    }
}

/// Two segments that look the same: the same tag, spans and number of
/// elements, and the same text in every component of every element's first
/// occurrence.
pub open spec fn reads_alike(a: Segment, b: Segment) -> bool {
    &&& a.tag@ == b.tag@
    &&& a.span == b.span
    &&& a.elements@.len() == b.elements@.len()
    &&& forall|e: int, c: int| #![trigger seg_component(a, e, c)] seg_component(a, e, c) == seg_component(b, e, c)
}

proof fn lemma_segment_is_alike(s: ServiceStringAdvice, input: Seq<u8>, a: Segment, b: Segment, q: int, j: int)
    requires
        segment_is(s, input, a, q, j),
        segment_is(s, input, b, q, j),
    ensures
        reads_alike(a, b),
{
    let ps = pieces_of(s, input, q, j);
    let shapes = assemble(ps, ps.len() as int);
    lemma_assemble_wf(ps, ps.len() as int);
    assert forall|e: int, c: int| #![trigger seg_component(a, e, c)] seg_component(a, e, c) == seg_component(b, e, c) by {
        if 0 <= e < shapes.len() {
            let ea = a.elements@[e];
            let eb = b.elements@[e];
            assert(element_is(s, input, ps, ea, shapes[e]));
            assert(element_is(s, input, ps, eb, shapes[e]));
            assert(shapes[e].len() > 0);
            assert(occurrences(ea)[0] == component_items(ea.components));
            assert(occurrences(eb)[0] == component_items(eb.components));
            assert(comps_are(s, input, ps, occurrences(ea)[0], shapes[e][0]));
            assert(comps_are(s, input, ps, occurrences(eb)[0], shapes[e][0]));
            if 0 <= c < component_items(ea.components).len() {
                assert(Some(component_items(ea.components)[c].0@) == piece_text(s, input, ps[shapes[e][0][c]]));
                assert(Some(component_items(eb.components)[c].0@) == piece_text(s, input, ps[shapes[e][0][c]]));
            }
        }
    }
}

/// Reading the same bytes from the same place with the same service
/// characters and no budget, twice: the same number of segments, each pair
/// alike, and the same error or end.
pub proof fn lemma_drained_agree(s: ServiceStringAdvice, input: Seq<u8>, max: int, from: int,
    v1: Seq<Segment>, e1: Option<EdifactError>, v2: Seq<Segment>, e2: Option<EdifactError>)
    requires
        drained(s, input, max, false, from, v1, e1),
        drained(s, input, max, false, from, v2, e2),
    ensures
        v1.len() == v2.len(),
        e1 == e2,
        forall|k: int| 0 <= k < v1.len() ==> reads_alike(#[trigger] v1[k], v2[k]),
{
    match (e1, e2) {
        (None, None) => {
            lemma_ok_ok(s, input, max, from, v1, v2);
        },
        (None, Some(e)) => {
            lemma_readers_ok_err(s, input, max, from, v1, v2, e);
        },
        (Some(e), None) => {
            lemma_readers_ok_err(s, input, max, from, v2, v1, e);
        },
        (Some(x), Some(y)) => {
            lemma_err_err(s, input, max, from, v1, v2, x, y);
        },
    }
    assert forall|k: int| 0 <= k < v1.len() implies reads_alike(#[trigger] v1[k], v2[k]) by {
        lemma_reads_line_up(s, input, max, from, v1, v2, k);
        let at = end_of(from, v1.take(k));
        assert(read_at(s, input, max, at, v1[k]));
        assert(read_at(s, input, max, end_of(from, v2.take(k)), v2[k]));
        let p = skip_strays(s, input, at, max);
        if let Found::Seg(q, j) = locate(s, input, p, max) {
            lemma_segment_is_alike(s, input, v1[k], v2[k], q, j);
        }
    }
}

/// Reading the same bytes from the same place with the same service
/// characters and no budget has one outcome, whichever reader does it: both
/// succeed or both fail with the same error, and on success they yield as
/// many segments, each decoded from the same bytes.
pub proof fn law_readers_agree(s: ServiceStringAdvice, input: Seq<u8>, max: int, from: int,
    r1: Result<Vec<Segment>, EdifactError>, r2: Result<Vec<Segment>, EdifactError>)
    requires
        collected(s, input, max, false, from, r1),
        collected(s, input, max, false, from, r2),
    ensures
        (r1 is Ok) == (r2 is Ok),
        match (r1, r2) {
            (Err(e1), Err(e2)) => e1 == e2,
            (Ok(a), Ok(b)) => a@.len() == b@.len() && forall|k: int| 0 <= k < a@.len() ==>
                (#[trigger] a@[k]).span == b@[k].span
                && read_at(s, input, max, end_of(from, a@.take(k)), a@[k])
                && read_at(s, input, max, end_of(from, a@.take(k)), b@[k]),
            _ => true,
        },
{
    match (r1, r2) {
        (Ok(a), Ok(b)) => {
            lemma_ok_ok(s, input, max, from, a@, b@);
        },
        (Ok(a), Err(e)) => {
            let w = choose|w: Seq<Segment>| #[trigger] reads_all(s, input, max, from, w) && stops_with(s, input, max, false, end_of(from, w), e);
            lemma_readers_ok_err(s, input, max, from, a@, w, e);
        },
        (Err(e), Ok(b)) => {
            let w = choose|w: Seq<Segment>| #[trigger] reads_all(s, input, max, from, w) && stops_with(s, input, max, false, end_of(from, w), e);
            lemma_readers_ok_err(s, input, max, from, b@, w, e);
        },
        (Err(e1), Err(e2)) => {
            let w1 = choose|w: Seq<Segment>| #[trigger] reads_all(s, input, max, from, w) && stops_with(s, input, max, false, end_of(from, w), e1);
            let w2 = choose|w: Seq<Segment>| #[trigger] reads_all(s, input, max, from, w) && stops_with(s, input, max, false, end_of(from, w), e2);
            lemma_err_err(s, input, max, from, w1, w2, e1, e2);
        },
    }
}

proof fn lemma_ok_ok(s: ServiceStringAdvice, input: Seq<u8>, max: int, from: int, x: Seq<Segment>, y: Seq<Segment>)
    requires
        reads_all(s, input, max, from, x),
        locate(s, input, skip_strays(s, input, end_of(from, x), max), max) is End,
        reads_all(s, input, max, from, y),
        locate(s, input, skip_strays(s, input, end_of(from, y), max), max) is End,
    ensures
        x.len() == y.len(),
        forall|k: int| 0 <= k < x.len() ==>
            (#[trigger] x[k]).span == y[k].span
            && read_at(s, input, max, end_of(from, x.take(k)), x[k])
            && read_at(s, input, max, end_of(from, x.take(k)), y[k]),
{
    if x.len() < y.len() {
        lemma_reads_line_up(s, input, max, from, x, y, x.len() as int);
        assert(x.take(x.len() as int) =~= x);
        assert(read_at(s, input, max, end_of(from, y.take(x.len() as int)), y[x.len() as int]));
    } else if y.len() < x.len() {
        lemma_reads_line_up(s, input, max, from, x, y, y.len() as int);
        assert(y.take(y.len() as int) =~= y);
        assert(read_at(s, input, max, end_of(from, x.take(y.len() as int)), x[y.len() as int]));
    } else {
        assert forall|k: int| 0 <= k < x.len() implies
            (#[trigger] x[k]).span == y[k].span
            && read_at(s, input, max, end_of(from, x.take(k)), x[k])
            && read_at(s, input, max, end_of(from, x.take(k)), y[k]) by {
            lemma_reads_line_up(s, input, max, from, x, y, k);
            lemma_reads_line_up(s, input, max, from, x, y, k + 1);
        }
    }
}

#[verifier::spinoff_prover]
#[verifier::rlimit(40)]
proof fn lemma_err_err(s: ServiceStringAdvice, input: Seq<u8>, max: int, from: int, w1: Seq<Segment>, w2: Seq<Segment>,
    e1: EdifactError, e2: EdifactError)
    requires
        reads_all(s, input, max, from, w1),
        stops_with(s, input, max, false, end_of(from, w1), e1),
        reads_all(s, input, max, from, w2),
        stops_with(s, input, max, false, end_of(from, w2), e2),
    ensures
        e1 == e2,
        w1.len() == w2.len(),
{
    if w1.len() < w2.len() {
        lemma_reads_line_up(s, input, max, from, w1, w2, w1.len() as int);
        assert(w1.take(w1.len() as int) =~= w1);
        assert(read_at(s, input, max, end_of(from, w2.take(w1.len() as int)), w2[w1.len() as int]));
    } else if w2.len() < w1.len() {
        lemma_reads_line_up(s, input, max, from, w1, w2, w2.len() as int);
        assert(w2.take(w2.len() as int) =~= w2);
        assert(read_at(s, input, max, end_of(from, w1.take(w2.len() as int)), w1[w2.len() as int]));
    } else {
        lemma_reads_line_up(s, input, max, from, w1, w2, w1.len() as int);
        assert(w1.take(w1.len() as int) =~= w1);
        assert(w2.take(w2.len() as int) =~= w2);
    }
}

#[verifier::spinoff_prover]
proof fn lemma_readers_ok_err(s: ServiceStringAdvice, input: Seq<u8>, max: int, from: int, x: Seq<Segment>, w: Seq<Segment>, e: EdifactError)
    requires
        reads_all(s, input, max, from, x),
        locate(s, input, skip_strays(s, input, end_of(from, x), max), max) is End,
        reads_all(s, input, max, from, w),
    ensures
        !stops_with(s, input, max, false, end_of(from, w), e),
{
    if w.len() <= x.len() {
        lemma_reads_line_up(s, input, max, from, x, w, w.len() as int);
        assert(w.take(w.len() as int) =~= w);
        if w.len() < x.len() {
            assert(read_at(s, input, max, end_of(from, x.take(w.len() as int)), x[w.len() as int]));
        } else {
            assert(x.take(x.len() as int) =~= x);
        }
    } else {
        lemma_reads_line_up(s, input, max, from, x, w, x.len() as int);
        assert(x.take(x.len() as int) =~= x);
        assert(read_at(s, input, max, end_of(from, w.take(x.len() as int)), w[x.len() as int]));
    }
}

pub(crate) proof fn lemma_reads_all_push(s: ServiceStringAdvice, input: Seq<u8>, max: int, from: int, v: Seq<Segment>, seg: Segment)
    requires
        reads_all(s, input, max, from, v),
        read_at(s, input, max, end_of(from, v), seg),
    ensures
        reads_all(s, input, max, from, v.push(seg)),
{
    let w = v.push(seg);
    assert forall|k: int| 0 <= k < w.len() implies read_at(s, input, max, end_of(from, w.take(k)), #[trigger] w[k]) by {
        if k < v.len() {
            assert(w.take(k) =~= v.take(k));
        } else {
            assert(w.take(k) =~= v);
        }
    }
}

/// Whether reading `seg` trips a limit of `c`, given what `it` has read so far.
pub open spec fn limit_hit(c: ReaderConfig, segments: int, messages: int, seg: Segment) -> bool {
    ||| (c.max_segments matches Some(m) && segments >= m)
    ||| (c.max_messages matches Some(m) && is_unh(seg.tag@) && messages >= m)
    ||| (c.max_input_bytes matches Some(m) && seg.span.end > m)
}

/// The limit error reading `seg` raises: the first limit it trips, in the
/// order segments, messages, input bytes.
pub open spec fn limit_error(c: ReaderConfig, segments: int, messages: int, seg: Segment, e: EdifactError) -> bool {
    let seg_hit = c.max_segments matches Some(m) && segments >= m;
    let msg_hit = c.max_messages matches Some(m) && is_unh(seg.tag@) && messages >= m;
    if seg_hit {
        e == EdifactError::LimitExceeded { limit: "max_segments", max: c.max_segments.unwrap() as u64 }
    } else if msg_hit {
        e == EdifactError::LimitExceeded { limit: "max_messages", max: c.max_messages.unwrap() as u64 }
    } else {
        c.max_input_bytes matches Some(m) && seg.span.end > m
            && e == EdifactError::LimitExceeded { limit: "max_input_bytes", max: c.max_input_bytes.unwrap() }
    }
}

/// A reader over `input` with the given limits.  The service characters are
/// those of the configuration when it names some, else those of the input's
/// own `UNA`, else the defaults; reading starts after a `UNA` header.  A
/// malformed `UNA` is reported by the first call of `next`, whatever the
/// configuration says.
pub fn from_bytes_with_config(input: &[u8], config: ReaderConfig) -> (r: FromBytesIter)
    ensures
        r.wf(),
        r.input == input,
        r.config == config,
        !r.done,
        r.segments_yielded == 0,
        r.messages_yielded == 0,
        !r.in_message,
        match declared_ssa(input@) {
            Some(None) => r.pending matches Some(EdifactError::InvalidUna),
            Some(Some(d)) => r.pending is None && r.pos == 9
                && r.ssa == (match config.service_string_advice { Some(o) => o, None => d }),
            None => r.pending is None && r.pos == 0
                && r.ssa == (match config.service_string_advice { Some(o) => o, None => default_ssa() }),
        },
{
    let n = input.len();
    match ServiceStringAdvice::from_bytes(input) {
        Err(e) => FromBytesIter {
            input,
            pos: 0,
            ssa: ServiceStringAdvice::new(),
            pending: Some(e),
            done: false,
            config,
            segments_yielded: 0,
            messages_yielded: 0,
            in_message: false,
        },
        Ok(found) => {
            let ssa = match config.service_string_advice {
                Some(o) => o,
                None => found,
            };
            let pos: usize = if n >= 9 && input[0] == 85u8 && input[1] == 78u8 && input[2] == 65u8 { 9 } else { 0 };
            FromBytesIter {
                input,
                pos,
                ssa,
                pending: None,
                done: false,
                config,
                segments_yielded: 0,
                messages_yielded: 0,
                in_message: false,
            }
        },
    }
}

/// A reader over `input` with the default limits.
pub fn from_bytes(input: &[u8]) -> (r: FromBytesIter)
    ensures
        r.wf(),
        r.input == input,
        r.config.max_segment_bytes == 65536,
        r.config.max_segments is None,
        r.config.max_input_bytes is None,
        r.config.max_messages is None,
        !r.done,
        r.segments_yielded == 0,
        r.messages_yielded == 0,
        !r.in_message,
        match declared_ssa(input@) {
            Some(None) => r.pending matches Some(EdifactError::InvalidUna),
            Some(Some(d)) => r.pending is None && r.pos == 9 && r.ssa == d,
            None => r.pending is None && r.pos == 0 && r.ssa == default_ssa(),
        },
{
    from_bytes_with_config(input, ReaderConfig::new())
}

// ── the reader stream ───────────────────────────────────────────────────────

/// A stream of owned segments over the bytes a reader delivers.  Its limits
/// work as those of [`FromBytesIter`]: a segment that would pass one is
/// `LimitExceeded`.  An error met while the bytes were read is reported
/// after the last segment.
pub struct OwnedSegmentStream {
    input: Vec<u8>,
    pos: usize,
    ssa: ServiceStringAdvice,
    pending: Option<EdifactError>,
    trailing: Option<EdifactError>,
    done: bool,
    config: ReaderConfig,
    segments_yielded: usize,
    messages_yielded: usize,
    in_message: bool,
}

/// What a reader stream holds: its bytes, position, service characters,
/// the errors still to report, whether it has stopped, its limits and counts.
pub struct StreamView {
    /// The bytes delivered.
    pub input: Seq<u8>,
    /// Where the next segment is read from; every byte before it is consumed.
    pub pos: int,
    /// The service characters in force.
    pub ssa: ServiceStringAdvice,
    /// The error to report before anything else (a malformed `UNA`).
    pub pending: Option<EdifactError>,
    /// The error to report once the bytes run out (a failed read).
    pub trailing: Option<EdifactError>,
    /// Whether the stream has stopped.
    pub done: bool,
    /// Its limits.
    pub config: ReaderConfig,
    /// Segments handed out so far.
    pub segments_yielded: int,
    /// Messages (UNH ... UNT) completed so far.
    pub messages_yielded: int,
    /// A UNH is open.
    pub in_message: bool,
}

impl View for OwnedSegmentStream {
    type V = StreamView;

    closed spec fn view(&self) -> StreamView {
        StreamView {
            input: self.input@,
            pos: self.pos as int,
            ssa: self.ssa,
            pending: self.pending,
            trailing: self.trailing,
            done: self.done,
            config: self.config,
            segments_yielded: self.segments_yielded as int,
            messages_yielded: self.messages_yielded as int,
            in_message: self.in_message,
        }
    }
}

impl OwnedSegmentStream {
    /// The stream's bookkeeping is consistent.
    pub closed spec fn wf(&self) -> bool {
        &&& self.pos <= self.input@.len() <= usize::MAX
        &&& self.segments_yielded <= self.pos
        &&& self.messages_yielded <= self.segments_yielded
    }

    /// A stream over `input` with the given limits, reporting `trailing` (a
    /// read error) after the last segment.
    pub fn over(input: Vec<u8>, config: ReaderConfig, trailing: Option<EdifactError>) -> (r: OwnedSegmentStream)
        ensures
            r.wf(),
            r@.input == input@,
            r@.config == config,
            r@.trailing == trailing,
            !r@.done,
            r@.segments_yielded == 0,
            r@.messages_yielded == 0,
            !r@.in_message,
            match declared_ssa(input@) {
                Some(None) => r@.pending matches Some(EdifactError::InvalidUna),
                Some(Some(d)) => r@.pending is None && r@.pos == 9
                    && r@.ssa == (match config.service_string_advice { Some(o) => o, None => d }),
                None => r@.pending is None && r@.pos == 0
                    && r@.ssa == (match config.service_string_advice { Some(o) => o, None => default_ssa() }),
            },
    {
        let it = from_bytes_with_config(input.as_slice(), config);
        let (pos, ssa, pending) = (it.pos, it.ssa, it.pending);
        OwnedSegmentStream {
            input,
            pos,
            ssa,
            pending,
            trailing,
            done: false,
            config,
            segments_yielded: 0,
            messages_yielded: 0,
            in_message: false,
        }
    }

    fn stop(&mut self, e: EdifactError) -> (r: Option<Result<Segment, EdifactError>>)
        ensures
            r == Some(Err::<Segment, EdifactError>(e)),
            final(self)@ == (StreamView { done: true, ..old(self)@ }),
            final(self).wf() == old(self).wf(),
    {
        self.done = true;
        Some(Err(e))
    }

    /// The next segment, or the error that stops the stream, or `None` at its
    /// end.  A pending error comes first; stray terminators are skipped; a
    /// segment that would pass `max_segments`, a `UNH` that would pass
    /// `max_messages`, and a segment that ends past `max_input_bytes` are
    /// `LimitExceeded`, as for [`FromBytesIter::next`]; at the end of the
    /// bytes a trailing error is reported.  After an error or the end, every
    /// call is `None`.
    pub fn next(&mut self) -> (r: Option<Result<Segment, EdifactError>>)
        requires
            old(self).wf(),
        ensures
            final(self).wf(),
            final(self)@.input == old(self)@.input,
            final(self)@.ssa == old(self)@.ssa,
            final(self)@.config == old(self)@.config,
            final(self)@.pos >= old(self)@.pos,
            !final(self)@.done ==> final(self)@.pos > old(self)@.pos,
            old(self)@.pending is None ==> final(self)@.pending is None,
            r matches Some(Ok(_)) ==> final(self)@.trailing == old(self)@.trailing,
            old(self)@.done ==> r is None && final(self)@.done,
            !old(self)@.done && old(self)@.pending is Some ==> r == Some(Err::<Segment, EdifactError>(old(self)@.pending.unwrap())) && final(self)@.done,
            !old(self)@.done && old(self)@.pending is None ==> ({
                let s = old(self)@.ssa;
                let input = old(self)@.input;
                let max = old(self)@.config.max_segment_bytes as int;
                let p = skip_strays(s, input, old(self)@.pos, max);
                match locate(s, input, p, max) {
                    Found::End => final(self)@.done && match old(self)@.trailing {
                        Some(e) => r == Some(Err::<Segment, EdifactError>(e)),
                        None => r is None,
                    },
                    Found::Seg(q, j) => if !segment_decodes(s, input, q, j) {
                        r matches Some(Err(e)) && segment_error(s, input, q, j, e) && final(self)@.done
                    } else {
                        r matches Some(res) && final(self)@.pos == j + 1 && (match res {
                            Ok(seg) => segment_is(s, input, seg, q, j) && !final(self)@.done
                                && !limit_hit(old(self)@.config, old(self)@.segments_yielded, old(self)@.messages_yielded, seg)
                                && final(self)@.segments_yielded == old(self)@.segments_yielded + 1
                                && final(self)@.in_message == (if is_unt(seg.tag@) { false } else if is_unh(seg.tag@) { true } else { old(self)@.in_message })
                                && final(self)@.messages_yielded == old(self)@.messages_yielded + (if is_unt(seg.tag@) && old(self)@.in_message { 1int } else { 0int }),
                            Err(e) => final(self)@.done && exists|seg: Segment| segment_is(s, input, seg, q, j)
                                && limit_error(old(self)@.config, old(self)@.segments_yielded, old(self)@.messages_yielded, seg, e),
                        })
                    },
                    Found::Stray(_) => false,
                    _ => r matches Some(Err(e)) && step_is(s, input, p, max, Step::Failed(e)) && final(self)@.done,
                }
            }),
    {
        if self.done {
            return None;
        }
        if let Some(e) = self.pending.take() {
            return self.stop(e);
        }
        let max = self.config.max_segment_bytes;
        let ghost p0 = self.pos as int;
        loop
            invariant
                self.wf(),
                !self.done,
                self.pending is None,
                self.input@ == old(self)@.input,
                self.ssa == old(self)@.ssa,
                self.config == old(self)@.config,
                self.trailing == old(self)@.trailing,
                max == self.config.max_segment_bytes,
                self.segments_yielded == old(self)@.segments_yielded,
                self.messages_yielded == old(self)@.messages_yielded,
                self.in_message == old(self)@.in_message,
                skip_strays(self.ssa, self.input@, self.pos as int, max as int) == skip_strays(self.ssa, self.input@, p0, max as int),
                p0 == old(self)@.pos,
                self.pos >= p0,
                old(self)@.pending is None,
                !old(self)@.done,
            decreases self.input@.len() - self.pos,
        {
            let step = read_step(self.input.as_slice(), self.pos, self.ssa, max);
            match step {
                Step::End => {
                    self.done = true;
                    return match self.trailing.take() {
                        Some(e) => Some(Err(e)),
                        None => None,
                    };
                },
                Step::Failed(e) => {
                    return self.stop(e);
                },
                Step::Stray(next) => {
                    proof {
                        lemma_locate_advances(self.ssa, self.input@, self.pos as int, max as int);
                        let f = locate(self.ssa, self.input@, self.pos as int, max as int);
                        assert(f is Stray);
                        let j0 = f->Stray_0;
                        assert(j0 + 1 == next as int);
                        assert(skip_strays(self.ssa, self.input@, self.pos as int, max as int)
                            == skip_strays(self.ssa, self.input@, next as int, max as int));
                    }
                    self.pos = next;
                },
                Step::Parsed(seg, next) => {
                    proof { lemma_locate_advances(self.ssa, self.input@, self.pos as int, max as int); }
                    self.pos = next;
                    if let Some(m) = self.config.max_segments {
                        if self.segments_yielded >= m {
                            return self.stop(EdifactError::LimitExceeded { limit: "max_segments", max: m as u64 });
                        }
                    }
                    let unh = tag_is(seg.tag.as_str(), true);
                    let unt = tag_is(seg.tag.as_str(), false);
                    if let Some(m) = self.config.max_messages {
                        if unh && self.messages_yielded >= m {
                            return self.stop(EdifactError::LimitExceeded { limit: "max_messages", max: m as u64 });
                        }
                    }
                    if let Some(m) = self.config.max_input_bytes {
                        if seg.span.end as u64 > m {
                            return self.stop(EdifactError::LimitExceeded { limit: "max_input_bytes", max: m });
                        }
                    }
                    self.segments_yielded = self.segments_yielded + 1;
                    if unt {
                        if self.in_message {
                            self.messages_yielded = self.messages_yielded + 1;
                        }
                        self.in_message = false;
                    } else if unh {
                        self.in_message = true;
                    }
                    return Some(Ok(seg));
                },
            }
        }
    }
}

impl OwnedSegmentStream {
    /// Reads the stream to its end: the segments read, and the error that
    /// ended reading, if one did.
    #[verifier::rlimit(40)]
    pub fn drain(self) -> (r: (Vec<Segment>, Option<EdifactError>))
        requires
            self.wf(),
        ensures
            self@.done ==> r.0@.len() == 0 && r.1 is None,
            !self@.done && self@.pending is Some ==> r.0@.len() == 0 && r.1 == self@.pending,
            !self@.done && self@.pending is None ==> stream_drained(self@, r.0@, r.1),
    {
        let ghost v0 = self@;
        let mut it = self;
        let mut out: Vec<Segment> = Vec::new();
        if it.done {
            return (out, None);
        }
        if let Some(e) = it.pending.take() {
            return (out, Some(e));
        }
        let ghost s = v0.ssa;
        let ghost input = v0.input;
        let ghost max = v0.config.max_segment_bytes as int;
        let ghost pos0 = v0.pos;
        loop
            invariant
                v0 == self@,
                !v0.done,
                v0.pending is None,
                s == v0.ssa,
                input == v0.input,
                max == v0.config.max_segment_bytes as int,
                pos0 == v0.pos,
                it.wf(),
                it@.pending is None,
                it@.ssa == s,
                it@.input == input,
                it@.config == v0.config,
                it@.trailing == v0.trailing,
                reads_all(s, input, max, pos0, out@),
                it@.pos == end_of(pos0, out@),
                !it@.done,
            decreases it@.input.len() - it@.pos,
        {
            let ghost before = out@;
            match it.next() {
                None => return (out, None),
                Some(Err(e)) => {
                    proof {
                        let p = skip_strays(s, input, end_of(pos0, before), max);
                        if let Found::Seg(q, j) = locate(s, input, p, max) {
                            if segment_decodes(s, input, q, j) && v0.trailing != Some(e) {
                                let seg = choose|seg: Segment| segment_is(s, input, seg, q, j)
                                    && limit_error(it@.config, it@.segments_yielded, it@.messages_yielded, seg, e);
                                assert(!unlimited(v0.config));
                            }
                        }
                    }
                    return (out, Some(e));
                },
                Some(Ok(seg)) => {
                    out.push(seg);
                    proof { lemma_reads_all_push(s, input, max, pos0, before, seg); }
                },
            }
        }
    }

    /// Reads the stream to its end; the first error ends reading and is returned.
    pub fn collect_segments(self) -> (r: Result<Vec<Segment>, EdifactError>)
        requires
            self.wf(),
        ensures
            self@.done ==> (r matches Ok(v) && v@.len() == 0),
            !self@.done && self@.pending is Some ==> r == Err::<Vec<Segment>, EdifactError>(self@.pending.unwrap()),
            !self@.done && self@.pending is None ==> ({
                let s = self@.ssa;
                let input = self@.input;
                let max = self@.config.max_segment_bytes as int;
                match r {
                    Ok(v) => reads_all(s, input, max, self@.pos, v@)
                        && locate(s, input, skip_strays(s, input, end_of(self@.pos, v@), max), max) is End
                        && self@.trailing is None,
                    Err(e) => self@.trailing == Some(e) || exists|v: Seq<Segment>| #[trigger] reads_all(s, input, max, self@.pos, v)
                        && stops_with(s, input, max, !unlimited(self@.config), end_of(self@.pos, v), e),
                }
            }),
            !self@.done && self@.pending is None && unlimited(self@.config) && self@.trailing is None ==>
                collected(self@.ssa, self@.input, self@.config.max_segment_bytes as int, false, self@.pos, r),
    {
        let (v, end) = self.drain();
        match end {
            None => Ok(v),
            Some(e) => Err(e),
        }
    }
}

/// What reading a stream through gives: the segments `v`, each in turn,
/// then the end (the end of its bytes, with no read error) or the error
/// `end`: the read error it carries, or one met in its bytes or its limits.
pub open spec fn stream_drained(v0: StreamView, v: Seq<Segment>, end: Option<EdifactError>) -> bool {
    let s = v0.ssa;
    let max = v0.config.max_segment_bytes as int;
    &&& reads_all(s, v0.input, max, v0.pos, v)
    &&& match end {
        None => locate(s, v0.input, skip_strays(s, v0.input, end_of(v0.pos, v), max), max) is End
            && v0.trailing is None,
        Some(e) => v0.trailing == Some(e) || stops_with(s, v0.input, max, !unlimited(v0.config), end_of(v0.pos, v), e),
    }
}

/// The stream has no segment, byte or message budget.
pub open spec fn unlimited(c: ReaderConfig) -> bool {
    c.max_segments is None && c.max_input_bytes is None && c.max_messages is None
}

/// A stream over the bytes a buffered reader delivers, with the default limits.
pub fn from_bufread_stream(input: Vec<u8>) -> (r: OwnedSegmentStream)
    ensures
        r.wf(),
        r@.input == input@,
        r@.config == ReaderConfig::new_spec(),
        r@.trailing is None,
        !r@.done,
        r@.segments_yielded == 0,
        r@.messages_yielded == 0,
        !r@.in_message,
        match declared_ssa(input@) {
            Some(None) => r@.pending matches Some(EdifactError::InvalidUna),
            Some(Some(d)) => r@.pending is None && r@.pos == 9 && r@.ssa == d,
            None => r@.pending is None && r@.pos == 0 && r@.ssa == default_ssa(),
        },
{
    OwnedSegmentStream::over(input, ReaderConfig::new(), None)
}

/// A stream over the bytes a buffered reader delivers, with the given limits.
pub fn from_bufread_stream_with_config(input: Vec<u8>, config: ReaderConfig) -> (r: OwnedSegmentStream)
    ensures
        r.wf(),
        r@.input == input@,
        r@.config == config,
        r@.trailing is None,
        !r@.done,
        r@.segments_yielded == 0,
        r@.messages_yielded == 0,
        !r@.in_message,
        match declared_ssa(input@) {
            Some(None) => r@.pending matches Some(EdifactError::InvalidUna),
            Some(Some(d)) => r@.pending is None && r@.pos == 9
                && r@.ssa == (match config.service_string_advice { Some(o) => o, None => d }),
            None => r@.pending is None && r@.pos == 0
                && r@.ssa == (match config.service_string_advice { Some(o) => o, None => default_ssa() }),
        },
{
    OwnedSegmentStream::over(input, config, None)
}


/// Parses `input` after decoding it from the repertoire its own `UNB`
/// declares, with the given limits.  Input that declares no repertoire is
/// parsed as it is.
pub fn from_bytes_decoded_with_config(input: &[u8], config: ReaderConfig) -> (r: Result<Vec<Segment>, EdifactError>)
    ensures
        sniff_is(input@, Ok(None)) ==> parsed_from(input@, config, r),
        forall|c: Charset| sniff_is(input@, Ok(Some(c))) ==> (match decode_failure(c, input@) {
            None => exists|t: String| #[trigger] decode_ok(c, input@, t@) && parsed_from(encode_utf8(t@), config, r),
            Some(offset) => r == Err::<Vec<Segment>, EdifactError>(EdifactError::InvalidText { offset }),
        }),
        forall|x: Result<Option<Charset>, EdifactError>| #[trigger] sniff_is(input@, x) && x is Err ==>
            (r matches Err(e) && sniff_is(input@, Err(e))),
{
    match decode_interchange(input) {
        Ok(decoded) => parse_segments(decoded.as_slice(), config),
        Err(e) => Err(e),
    }
}

/// [`from_bytes_decoded_with_config`] with the default limits.
pub fn from_bytes_decoded(input: &[u8]) -> (r: Result<Vec<Segment>, EdifactError>)
    ensures
        sniff_is(input@, Ok(None)) ==> parsed_from(input@, ReaderConfig::new_spec(), r),
        forall|c: Charset| sniff_is(input@, Ok(Some(c))) ==> (match decode_failure(c, input@) {
            None => exists|t: String| #[trigger] decode_ok(c, input@, t@) && parsed_from(encode_utf8(t@), ReaderConfig::new_spec(), r),
            Some(offset) => r == Err::<Vec<Segment>, EdifactError>(EdifactError::InvalidText { offset }),
        }),
        forall|x: Result<Option<Charset>, EdifactError>| #[trigger] sniff_is(input@, x) && x is Err ==>
            (r matches Err(e) && sniff_is(input@, Err(e))),
{
    from_bytes_decoded_with_config(input, ReaderConfig::new())
}

} // verus!
