//! Reading segments from input that arrives in chunks, keeping no more than
//! one segment's bytes at a time.

use vstd::prelude::*;

use crate::error::EdifactError;
use crate::model::{occurrences, shifted, Segment};
use crate::parser::{
    assemble, comps_are, drained, element_is, end_of, first_undecodable, locate, piece_span, piece_text, read_at, read_step,
    reads_all, segment_decodes, segment_error, segment_is, skip_strays, skip_whitespace_from, skip_ws, step_is, stops_with,
    term_from, Found, ReaderConfig, Step,
};
use crate::syntax::{body_start, declared_ssa, default_ssa, ends_segment, is_ws, pieces_of, scan, Piece, ServiceStringAdvice};

verus! {

// ── reading through a window ────────────────────────────────────────────────

/// `a` is the bytes of `f` from `d` on, as far as `a` goes.
pub open spec fn window(a: Seq<u8>, f: Seq<u8>, d: int) -> bool {
    &&& 0 <= d
    &&& d + a.len() <= f.len()
    &&& forall|i: int| 0 <= i < a.len() ==> #[trigger] a[i] == f[d + i]
}

/// A piece moved right by `d` bytes.
pub open spec fn shift_piece(p: Piece, d: int) -> Piece {
    Piece { kind: p.kind, start: (p.start + d) as usize, end: (p.end + d) as usize }
}

/// The pieces moved right by `d` bytes.
pub open spec fn shift_pieces(ps: Seq<Piece>, d: int) -> Seq<Piece> {
    ps.map_values(|p: Piece| shift_piece(p, d))
}

proof fn lemma_scan_window(s: ServiceStringAdvice, a: Seq<u8>, f: Seq<u8>, d: int, st: int, e: int)
    requires
        window(a, f, d),
        0 <= st <= e <= a.len(),
        d + a.len() <= usize::MAX,
    ensures
        ({
            let (pa, ka, fa, ea) = scan(s, a, st, e);
            let (pf, kf, ff, ef) = scan(s, f, d + st, d + e);
            &&& pf == shift_pieces(pa, d)
            &&& kf == ka
            &&& ff == fa + d
            &&& ef == ea
        }),
    decreases e - st,
{
    if e > st {
        lemma_scan_window(s, a, f, d, st, e - 1);
        crate::syntax::lemma_scan_bounds(s, a, st, e - 1);
        assert(f[d + e - 1] == a[e - 1]);
        let (pa, ka, fa, ea) = scan(s, a, st, e - 1);
        let np = Piece { kind: ka, start: fa as usize, end: (e - 1) as usize };
        assert(shift_pieces(pa.push(np), d) =~= shift_pieces(pa, d).push(shift_piece(np, d)));
    } else {
        assert(shift_pieces(Seq::<Piece>::empty(), d) =~= Seq::<Piece>::empty());
    }
}

proof fn lemma_ends_window(s: ServiceStringAdvice, a: Seq<u8>, f: Seq<u8>, d: int, st: int, k: int)
    requires
        window(a, f, d),
        0 <= st <= k < a.len(),
        d + a.len() <= usize::MAX,
    ensures
        ends_segment(s, f, d + st, d + k) == ends_segment(s, a, st, k),
{
    lemma_scan_window(s, a, f, d, st, k);
    assert(f[d + k] == a[k]);
}

proof fn lemma_term_window(s: ServiceStringAdvice, a: Seq<u8>, f: Seq<u8>, d: int, q: int, k: int)
    requires
        window(a, f, d),
        0 <= q <= k <= a.len(),
        d + a.len() <= usize::MAX,
    ensures
        term_from(s, a, q, k) >= 0 ==> term_from(s, f, d + q, d + k) == term_from(s, a, q, k) + d,
        term_from(s, a, q, k) < 0 ==> term_from(s, f, d + q, d + k) == term_from(s, f, d + q, d + a.len()),
    decreases a.len() - k,
{
    if k < a.len() {
        lemma_ends_window(s, a, f, d, q, k);
        lemma_term_window(s, a, f, d, q, k + 1);
    }
}

proof fn lemma_ws_window(a: Seq<u8>, f: Seq<u8>, d: int, p: int)
    requires
        window(a, f, d),
        0 <= p <= a.len(),
    ensures
        skip_ws(a, p) < a.len() ==> skip_ws(f, d + p) == d + skip_ws(a, p),
        skip_ws(a, p) >= a.len() ==> skip_ws(f, d + p) == skip_ws(f, d + a.len()),
    decreases a.len() - p,
{
    if p < a.len() {
        assert(f[d + p] == a[p]);
        lemma_ws_window(a, f, d, p + 1);
    }
}

/// What lies at a position, moved right by `d` bytes.
pub open spec fn shift_found(x: Found, d: int) -> Found {
    match x {
        Found::Stray(j) => Found::Stray(j + d),
        Found::Seg(q, j) => Found::Seg(q + d, j + d),
        Found::TooLong(q) => Found::TooLong(q + d),
        _ => x,
    }
}

/// Reading at `p` in `a` has an answer that no further byte can change.
pub open spec fn settled(x: Found) -> bool {
    x is Seg || x is Stray || x is TooLong
}

proof fn lemma_locate_window(s: ServiceStringAdvice, a: Seq<u8>, f: Seq<u8>, d: int, p: int, max: int)
    requires
        window(a, f, d),
        0 <= p <= a.len(),
        d + a.len() <= usize::MAX,
        settled(locate(s, a, p, max)) || f.len() == d + a.len(),
    ensures
        locate(s, f, d + p, max) == shift_found(locate(s, a, p, max), d),
{
    lemma_ws_window(a, f, d, p);
    crate::parser::lemma_skip_ws_ge(a, p);
    let q = skip_ws(a, p);
    if q < a.len() {
        lemma_term_window(s, a, f, d, q, q);
        crate::parser::lemma_term_from_ge(s, a, q, q);
        crate::parser::lemma_term_from_ge(s, f, d + q, d + a.len());
        let j = term_from(s, a, q, q);
        if j < 0 {
            if f.len() == d + a.len() {
                assert(term_from(s, f, d + q, d + a.len()) == -1);
                lemma_scan_window(s, a, f, d, q, a.len() as int);
            }
        }
    } else {
        crate::parser::lemma_skip_ws_ge(f, d + a.len());
    }
}

/// `r` is `seg` with every span moved right by `d` bytes.
pub open spec fn moved(seg: Segment, r: Segment, d: usize) -> bool {
    &&& r.tag == seg.tag
    &&& r.span == seg.span.offset_spec(d)
    &&& r.tag_span == seg.tag_span.offset_spec(d)
    &&& r.elements@.len() == seg.elements@.len()
    &&& forall|i: int| 0 <= i < seg.elements@.len() ==>
        (#[trigger] r.elements@[i]).span == seg.elements@[i].span.offset_spec(d)
        && occurrences(r.elements@[i]).len() == occurrences(seg.elements@[i]).len()
        && forall|k: int| 0 <= k < occurrences(seg.elements@[i]).len() ==>
            shifted(#[trigger] occurrences(seg.elements@[i])[k], occurrences(r.elements@[i])[k], d)
}

proof fn lemma_assemble_kinds(p1: Seq<Piece>, p2: Seq<Piece>, n: int)
    requires
        p1.len() == p2.len(),
        n <= p1.len(),
        forall|i: int| 0 <= i < p1.len() ==> #[trigger] p1[i].kind == p2[i].kind,
    ensures
        assemble(p1, n) == assemble(p2, n),
    decreases n,
{
    if n > 1 {
        lemma_assemble_kinds(p1, p2, n - 1);
        assert(p1[n - 1].kind == p2[n - 1].kind);
    }
}

proof fn lemma_text_window(s: ServiceStringAdvice, a: Seq<u8>, f: Seq<u8>, d: int, p: Piece)
    requires
        window(a, f, d),
        p.start <= p.end <= a.len(),
        d + a.len() <= usize::MAX,
    ensures
        piece_text(s, f, shift_piece(p, d)) == piece_text(s, a, p),
        piece_span(shift_piece(p, d)) == piece_span(p).offset_spec(d as usize),
{
    assert(f.subrange(p.start + d, p.end + d) =~= a.subrange(p.start as int, p.end as int)) by {
        assert forall|i: int| 0 <= i < p.end - p.start implies f.subrange(p.start + d, p.end + d)[i] == a.subrange(p.start as int, p.end as int)[i] by {
            assert(a[p.start + i] == f[d + (p.start + i)]);
        }
    }
}

proof fn lemma_pieces_window(s: ServiceStringAdvice, a: Seq<u8>, f: Seq<u8>, d: int, q: int, j: int)
    requires
        window(a, f, d),
        0 <= q <= j < a.len(),
        d + a.len() <= usize::MAX,
    ensures
        crate::syntax::pieces_of(s, f, d + q, d + j) == shift_pieces(crate::syntax::pieces_of(s, a, q, j), d),
        forall|i: int| 0 <= i < crate::syntax::pieces_of(s, a, q, j).len() ==>
            q <= (#[trigger] crate::syntax::pieces_of(s, a, q, j)[i]).start <= crate::syntax::pieces_of(s, a, q, j)[i].end <= j,
        crate::syntax::pieces_of(s, a, q, j).len() >= 1,
{
    lemma_scan_window(s, a, f, d, q, j);
    crate::syntax::lemma_scan_bounds(s, a, q, j);
    let (pa, ka, fa, ea) = scan(s, a, q, j);
    let last = Piece { kind: ka, start: fa as usize, end: j as usize };
    assert(shift_pieces(pa.push(last), d) =~= shift_pieces(pa, d).push(shift_piece(last, d)));
}

proof fn lemma_undecodable_window(s: ServiceStringAdvice, a: Seq<u8>, f: Seq<u8>, d: int, ps: Seq<Piece>, k: int)
    requires
        window(a, f, d),
        d + a.len() <= usize::MAX,
        0 <= k,
        forall|i: int| 0 <= i < ps.len() ==> (#[trigger] ps[i]).start <= ps[i].end <= a.len(),
    ensures
        first_undecodable(s, f, shift_pieces(ps, d), k) == first_undecodable(s, a, ps, k),
    decreases ps.len() - k,
{
    if k < ps.len() {
        lemma_text_window(s, a, f, d, ps[k]);
        lemma_undecodable_window(s, a, f, d, ps, k + 1);
    }
}

/// An error moved right by `d` bytes, where it carries a position in a segment.
pub open spec fn shift_error(e: crate::error::EdifactError, d: int) -> crate::error::EdifactError {
    match e {
        crate::error::EdifactError::UnexpectedDataToken { offset } => crate::error::EdifactError::UnexpectedDataToken { offset: (offset + d) as usize },
        crate::error::EdifactError::InvalidText { offset } => crate::error::EdifactError::InvalidText { offset: (offset + d) as usize },
        crate::error::EdifactError::SegmentTooLong { offset, limit } => crate::error::EdifactError::SegmentTooLong { offset: (offset + d) as usize, limit },
        crate::error::EdifactError::InvalidReleaseSequence { offset } => crate::error::EdifactError::InvalidReleaseSequence { offset: (offset + d) as usize },
        crate::error::EdifactError::UnexpectedEof { offset } => crate::error::EdifactError::UnexpectedEof { offset: (offset + d) as usize },
        _ => e,
    }
}

proof fn lemma_segment_window(s: ServiceStringAdvice, a: Seq<u8>, f: Seq<u8>, d: int, q: int, j: int)
    requires
        window(a, f, d),
        0 <= q <= j < a.len(),
        d + a.len() <= usize::MAX,
    ensures
        segment_decodes(s, f, d + q, d + j) == segment_decodes(s, a, q, j),
        forall|e: crate::error::EdifactError| segment_error(s, a, q, j, e) ==> #[trigger] segment_error(s, f, d + q, d + j, shift_error(e, d)),
        forall|seg: Segment, r: Segment| segment_is(s, a, seg, q, j) && #[trigger] moved(seg, r, d as usize) ==> segment_is(s, f, r, d + q, d + j),
{
    let pa = crate::syntax::pieces_of(s, a, q, j);
    let pf = crate::syntax::pieces_of(s, f, d + q, d + j);
    lemma_pieces_window(s, a, f, d, q, j);
    lemma_undecodable_window(s, a, f, d, pa, 0);
    assert forall|i: int| 0 <= i < pa.len() implies #[trigger] pa[i].kind == pf[i].kind by {}
    lemma_assemble_kinds(pa, pf, pa.len() as int);
    lemma_text_window(s, a, f, d, pa[0]);
    assert forall|e: crate::error::EdifactError| segment_error(s, a, q, j, e) implies #[trigger] segment_error(s, f, d + q, d + j, shift_error(e, d)) by {
        if pa[0].start != pa[0].end {
            let k = first_undecodable(s, a, pa, 0);
            if k >= 0 {
                lemma_undecodable_bounds(s, a, pa, 0);
            }
        }
    }
    assert forall|seg: Segment, r: Segment| segment_is(s, a, seg, q, j) && #[trigger] moved(seg, r, d as usize) implies segment_is(s, f, r, d + q, d + j) by {
        let shapes = assemble(pa, pa.len() as int);
        crate::parser::lemma_assemble_wf(pa, pa.len() as int);
        assert forall|k: int| 0 <= k < shapes.len() implies element_is(s, f, pf, #[trigger] r.elements@[k], shapes[k]) by {
            let ea = seg.elements@[k];
            let er = r.elements@[k];
            assert(element_is(s, a, pa, ea, shapes[k]));
            assert forall|o: int| 0 <= o < shapes[k].len() implies comps_are(s, f, pf, #[trigger] occurrences(er)[o], shapes[k][o]) by {
                assert(comps_are(s, a, pa, occurrences(ea)[o], shapes[k][o]));
                assert(shifted(occurrences(ea)[o], occurrences(er)[o], d as usize));
                assert forall|c: int| 0 <= c < shapes[k][o].len() implies
                    Some((#[trigger] occurrences(er)[o][c]).0@) == piece_text(s, f, pf[shapes[k][o][c]])
                    && occurrences(er)[o][c].1 == piece_span(pf[shapes[k][o][c]]) by {
                    let x = shapes[k][o][c];
                    assert(0 <= x < pa.len());
                    lemma_text_window(s, a, f, d, pa[x]);
                    assert(occurrences(er)[o][c].0 == occurrences(ea)[o][c].0);
                }
            }
            let first = shapes[k][0][0];
            let last = shapes[k].last().last();
            assert(0 <= first < pa.len());
            assert(0 <= last < pa.len());
        }
    }
}

proof fn lemma_undecodable_bounds(s: ServiceStringAdvice, input: Seq<u8>, ps: Seq<Piece>, k: int)
    requires
        0 <= k,
    ensures
        first_undecodable(s, input, ps, k) == -1 || k <= first_undecodable(s, input, ps, k) < ps.len(),
    decreases ps.len() - k,
{
    if k < ps.len() {
        lemma_undecodable_bounds(s, input, ps, k + 1);
    }
}

/// A step read at `0` in a window, as read at the window's start in the whole.
proof fn lemma_step_window(s: ServiceStringAdvice, a: Seq<u8>, f: Seq<u8>, d: int, max: int, r: Step)
    requires
        window(a, f, d),
        d + a.len() <= usize::MAX,
        0 <= max <= usize::MAX,
        step_is(s, a, 0, max, r),
        settled(locate(s, a, 0, max)) || f.len() == d + a.len(),
    ensures
        match r {
            Step::Parsed(seg, next) => forall|r2: Segment| #[trigger] moved(seg, r2, d as usize)
                ==> step_is(s, f, d, max, Step::Parsed(r2, (next + d) as usize)),
            Step::Stray(next) => step_is(s, f, d, max, Step::Stray((next + d) as usize)),
            Step::Failed(e) => step_is(s, f, d, max, Step::Failed(shift_error(e, d))),
            Step::End => step_is(s, f, d, max, Step::End),
        },
{
    lemma_locate_window(s, a, f, d, 0, max);
    crate::parser::lemma_locate_advances(s, a, 0, max);
    match locate(s, a, 0, max) {
        Found::Seg(q, j) => {
            lemma_segment_window(s, a, f, d, q, j);
            if let Step::Parsed(seg, next) = r {
                assert forall|r2: Segment| #[trigger] moved(seg, r2, d as usize)
                    implies step_is(s, f, d, max, Step::Parsed(r2, (next + d) as usize)) by {
                    assert(segment_decodes(s, a, q, j));
                    assert(segment_is(s, a, seg, q, j));
                    assert(segment_is(s, f, r2, d + q, d + j));
                    assert(locate(s, f, d, max) == Found::Seg(q + d, j + d));
                }
            }
            if let Step::Failed(e) = r {
                assert(segment_error(s, a, q, j, e));
                assert(segment_error(s, f, d + q, d + j, shift_error(e, d)));
            }
        },
        Found::TooLong(q) => {
            crate::parser::lemma_skip_ws_ge(a, 0);
            assert(0 <= q < a.len());
        },
        _ => {},
    }
}

/// `f` goes on from `fed`: it starts with it, and where the input has ended
/// it is all of it.
pub open spec fn extends(f: Seq<u8>, fed: Seq<u8>, closed: bool) -> bool {
    &&& fed.len() <= f.len()
    &&& f.subrange(0, fed.len() as int) == fed
    &&& closed ==> f.len() == fed.len()
    &&& f.len() <= usize::MAX
}

proof fn lemma_extends_window(f: Seq<u8>, fed: Seq<u8>, closed: bool, base: int, a: Seq<u8>)
    requires
        extends(f, fed, closed),
        0 <= base <= fed.len(),
        a == fed.subrange(base, fed.len() as int),
    ensures
        window(a, f, base),
        closed ==> f.len() == base + a.len(),
{
    assert forall|i: int| 0 <= i < a.len() implies #[trigger] a[i] == f[base + i] by {
        assert(f.subrange(0, fed.len() as int)[base + i] == f[base + i]);
    }
}

proof fn lemma_declared_prefix(f: Seq<u8>, fed: Seq<u8>, closed: bool)
    requires
        extends(f, fed, closed),
        fed.len() >= 9 || closed,
    ensures
        crate::syntax::declared_ssa(f) == crate::syntax::declared_ssa(fed),
        crate::syntax::body_start(f) == crate::syntax::body_start(fed),
{
    if fed.len() >= 9 {
        assert forall|i: int| 0 <= i < 9 implies f[i] == fed[i] by {
            assert(f.subrange(0, fed.len() as int)[i] == f[i]);
        }
    } else {
        assert(f =~= fed) by {
            assert forall|i: int| 0 <= i < f.len() implies f[i] == fed[i] by {
                assert(f.subrange(0, fed.len() as int)[i] == f[i]);
            }
        }
    }
}

/// Reading from `a` and from `b` meets the same thing next.
pub open spec fn same_spot(s: ServiceStringAdvice, f: Seq<u8>, max: int, a: int, b: int) -> bool {
    locate(s, f, skip_strays(s, f, a, max), max) == locate(s, f, skip_strays(s, f, b, max), max)
}

proof fn lemma_same_locate(s: ServiceStringAdvice, f: Seq<u8>, max: int, a: int, b: int)
    requires
        locate(s, f, a, max) == locate(s, f, b, max),
    ensures
        same_spot(s, f, max, a, b),
{
    crate::parser::lemma_locate_advances(s, f, a, max);
    crate::parser::lemma_locate_advances(s, f, b, max);
}

/// What reading has settled so far: for every input that goes on from `fed`,
/// the segments `v` are read in turn from `origin`, and reading goes on from
/// `base` as it would from where they end.
pub open spec fn on_track(s: ServiceStringAdvice, fed: Seq<u8>, closed: bool, max: int, origin: int, v: Seq<Segment>, base: int) -> bool {
    forall|f: Seq<u8>| #[trigger] extends(f, fed, closed) ==>
        reads_all(s, f, max, origin, v) && same_spot(s, f, max, end_of(origin, v), base)
}

proof fn lemma_extends_prefix(f: Seq<u8>, fed: Seq<u8>, closed: bool, fed2: Seq<u8>, closed2: bool)
    requires
        extends(f, fed2, closed2),
        fed.len() <= fed2.len(),
        fed2.subrange(0, fed.len() as int) == fed,
        closed ==> fed2 == fed && closed2,
    ensures
        extends(f, fed, closed),
{
    assert(f.subrange(0, fed.len() as int) =~= fed) by {
        assert forall|i: int| 0 <= i < fed.len() implies f.subrange(0, fed.len() as int)[i] == fed[i] by {
            assert(f.subrange(0, fed2.len() as int)[i] == f[i]);
            assert(fed2.subrange(0, fed.len() as int)[i] == fed2[i]);
        }
    }
}

/// More input keeps what was settled.
proof fn lemma_track_grow(s: ServiceStringAdvice, fed: Seq<u8>, closed: bool, fed2: Seq<u8>, closed2: bool,
    max: int, origin: int, v: Seq<Segment>, base: int)
    requires
        on_track(s, fed, closed, max, origin, v, base),
        fed.len() <= fed2.len(),
        fed2.subrange(0, fed.len() as int) == fed,
        closed ==> fed2 == fed && closed2,
    ensures
        on_track(s, fed2, closed2, max, origin, v, base),
{
    assert forall|f: Seq<u8>| #[trigger] extends(f, fed2, closed2) implies
        reads_all(s, f, max, origin, v) && same_spot(s, f, max, end_of(origin, v), base) by {
        lemma_extends_prefix(f, fed, closed, fed2, closed2);
    }
}

/// Whitespace at the front of what is held is skipped.
proof fn lemma_track_ws(s: ServiceStringAdvice, fed: Seq<u8>, closed: bool, max: int, origin: int, v: Seq<Segment>, base: int)
    requires
        on_track(s, fed, closed, max, origin, v, base),
        0 <= base <= fed.len(),
    ensures
        on_track(s, fed, closed, max, origin, v, base + skip_ws(fed.subrange(base, fed.len() as int), 0)),
        0 <= skip_ws(fed.subrange(base, fed.len() as int), 0) <= fed.len() - base,
{
    let a = fed.subrange(base, fed.len() as int);
    let q = skip_ws(a, 0);
    crate::parser::lemma_skip_ws_ge(a, 0);
    lemma_skip_ws_le(a, 0);
    assert forall|f: Seq<u8>| #[trigger] extends(f, fed, closed) implies
        reads_all(s, f, max, origin, v) && same_spot(s, f, max, end_of(origin, v), base + q) by {
        lemma_extends_window(f, fed, closed, base, a);
        lemma_ws_front(s, a, f, base, max);
    }
}

proof fn lemma_ws_front(s: ServiceStringAdvice, a: Seq<u8>, f: Seq<u8>, d: int, max: int)
    requires
        window(a, f, d),
    ensures
        same_spot(s, f, max, d, d + skip_ws(a, 0)),
{
    crate::parser::lemma_skip_ws_ge(a, 0);
    lemma_skip_ws_le(a, 0);
    let q = skip_ws(a, 0);
    lemma_ws_window(a, f, d, 0);
    lemma_ws_window(a, f, d, q);
    lemma_skip_ws_stops(a, 0);
    assert(skip_ws(f, d) == skip_ws(f, d + q));
    lemma_same_locate(s, f, max, d, d + q);
}

proof fn lemma_skip_ws_stops(input: Seq<u8>, pos: int)
    requires
        0 <= pos,
    ensures
        skip_ws(input, pos) < input.len() ==> skip_ws(input, skip_ws(input, pos)) == skip_ws(input, pos),
    decreases input.len() - pos,
{
    if pos < input.len() && is_ws(input[pos]) {
        lemma_skip_ws_stops(input, pos + 1);
    }
}

proof fn lemma_skip_ws_le(input: Seq<u8>, pos: int)
    requires
        pos <= input.len(),
    ensures
        skip_ws(input, pos) <= input.len(),
    decreases input.len() - pos,
{
    if pos < input.len() && is_ws(input[pos]) {
        lemma_skip_ws_le(input, pos + 1);
    }
}


/// A segment read from what is held is the next segment of the whole input.
proof fn lemma_parsed_whole(s: ServiceStringAdvice, f: Seq<u8>, d: int, max: int, origin: int, v: Seq<Segment>, r2: Segment, next: int)
    requires
        0 <= d,
        0 <= next,
        d + next <= usize::MAX,
        f.len() <= usize::MAX,
        step_is(s, f, d, max, Step::Parsed(r2, (next + d) as usize)),
        reads_all(s, f, max, origin, v),
        same_spot(s, f, max, end_of(origin, v), d),
    ensures
        read_at(s, f, max, end_of(origin, v), r2),
        reads_all(s, f, max, origin, v.push(r2)),
        same_spot(s, f, max, end_of(origin, v.push(r2)), d + next),
        forall|e: crate::error::EdifactError| e is LimitExceeded ==> #[trigger] stops_with(s, f, max, true, end_of(origin, v), e),
{
    let e0 = end_of(origin, v);
    crate::parser::lemma_locate_advances(s, f, d, max);
    assert(skip_strays(s, f, d, max) == d) by {
        assert(locate(s, f, d, max) is Seg);
    }
    assert(read_at(s, f, max, e0, r2));
    crate::parser::lemma_reads_all_push(s, f, max, origin, v, r2);
    assert(v.push(r2).last() == r2);
    let q = locate(s, f, d, max)->Seg_0;
    let j = locate(s, f, d, max)->Seg_1;
    assert(d <= q <= j < f.len());
    assert(segment_is(s, f, r2, q, j));
    assert(r2.span.end == j + 1);
    assert(r2.span.end == d + next);
}

/// A stray terminator skipped in what is held is skipped in the whole input.
proof fn lemma_stray_whole(s: ServiceStringAdvice, f: Seq<u8>, d: int, max: int, at: int, next: int)
    requires
        0 <= d,
        0 <= next,
        d + next <= usize::MAX,
        f.len() <= usize::MAX,
        step_is(s, f, d, max, Step::Stray((next + d) as usize)),
        same_spot(s, f, max, at, d),
    ensures
        same_spot(s, f, max, at, d + next),
{
    crate::parser::lemma_locate_advances(s, f, d, max);
    assert(locate(s, f, d, max) is Stray);
    let j = locate(s, f, d, max)->Stray_0;
    assert(d <= j < f.len());
    assert(j + 1 == d + next);
    assert(skip_strays(s, f, d, max) == skip_strays(s, f, j + 1, max));
}

/// Where reading stops in what is held, reading the whole input stops.
proof fn lemma_failed_whole(s: ServiceStringAdvice, f: Seq<u8>, d: int, max: int, at: int, e: crate::error::EdifactError)
    requires
        step_is(s, f, d, max, Step::Failed(e)),
        same_spot(s, f, max, at, d),
    ensures
        forall|limited: bool| #[trigger] stops_with(s, f, max, limited, at, e),
{
    assert(skip_strays(s, f, d, max) == d);
}

/// Where nothing is left in what is held of a closed input, nothing is left.
proof fn lemma_end_whole(s: ServiceStringAdvice, f: Seq<u8>, d: int, max: int, at: int)
    requires
        step_is(s, f, d, max, Step::End),
        same_spot(s, f, max, at, d),
    ensures
        locate(s, f, skip_strays(s, f, at, max), max) is End,
{
    assert(skip_strays(s, f, d, max) == d);
}


/// `held` is what was taken from `base` on.
pub open spec fn track_held(fed: Seq<u8>, base: int, held: Seq<u8>) -> bool {
    &&& 0 <= base <= fed.len() <= usize::MAX
    &&& held == fed.subrange(base, fed.len() as int)
}

proof fn lemma_track_stray(s: ServiceStringAdvice, fed: Seq<u8>, closed: bool, max: int, origin: int, v: Seq<Segment>,
    base: int, held: Seq<u8>, next: usize)
    requires
        on_track(s, fed, closed, max, origin, v, base),
        track_held(fed, base, held),
        0 <= max <= usize::MAX,
        step_is(s, held, 0, max, Step::Stray(next)),
    ensures
        on_track(s, fed, closed, max, origin, v, base + next),
        1 <= next <= held.len(),
{
    crate::parser::lemma_locate_advances(s, held, 0, max);
    assert forall|f: Seq<u8>| #[trigger] extends(f, fed, closed) implies
        reads_all(s, f, max, origin, v) && same_spot(s, f, max, end_of(origin, v), base + next) by {
        lemma_extends_window(f, fed, closed, base, held);
        lemma_step_window(s, held, f, base, max, Step::Stray(next));
        lemma_stray_whole(s, f, base, max, end_of(origin, v), next as int);
    }
}

proof fn lemma_track_parsed(s: ServiceStringAdvice, fed: Seq<u8>, closed: bool, max: int, origin: int, v: Seq<Segment>,
    base: int, held: Seq<u8>, seg: Segment, next: usize, r2: Segment)
    requires
        on_track(s, fed, closed, max, origin, v, base),
        track_held(fed, base, held),
        0 <= max <= usize::MAX,
        step_is(s, held, 0, max, Step::Parsed(seg, next)),
        moved(seg, r2, base as usize),
    ensures
        on_track(s, fed, closed, max, origin, v.push(r2), base + next),
        1 <= next <= held.len(),
        forall|f: Seq<u8>| #[trigger] extends(f, fed, closed) ==> read_at(s, f, max, end_of(origin, v), r2),
        forall|f: Seq<u8>, e: crate::error::EdifactError| extends(f, fed, closed) && e is LimitExceeded
            ==> #[trigger] stops_with(s, f, max, true, end_of(origin, v), e),
{
    crate::parser::lemma_locate_advances(s, held, 0, max);
    assert forall|f: Seq<u8>| #[trigger] extends(f, fed, closed) implies
        reads_all(s, f, max, origin, v.push(r2)) && same_spot(s, f, max, end_of(origin, v.push(r2)), base + next)
        && read_at(s, f, max, end_of(origin, v), r2)
        && forall|e: crate::error::EdifactError| e is LimitExceeded ==> #[trigger] stops_with(s, f, max, true, end_of(origin, v), e) by {
        lemma_extends_window(f, fed, closed, base, held);
        lemma_step_window(s, held, f, base, max, Step::Parsed(seg, next));
        lemma_parsed_whole(s, f, base, max, origin, v, r2, next as int);
    }
    assert forall|f: Seq<u8>, e: crate::error::EdifactError| extends(f, fed, closed) && e is LimitExceeded
        implies #[trigger] stops_with(s, f, max, true, end_of(origin, v), e) by {
        assert(extends(f, fed, closed));
    }
}

proof fn lemma_track_failed(s: ServiceStringAdvice, fed: Seq<u8>, closed: bool, max: int, origin: int, v: Seq<Segment>,
    base: int, held: Seq<u8>, e: crate::error::EdifactError)
    requires
        on_track(s, fed, closed, max, origin, v, base),
        track_held(fed, base, held),
        0 <= max <= usize::MAX,
        step_is(s, held, 0, max, Step::Failed(e)),
        settled(locate(s, held, 0, max)) || closed,
    ensures
        forall|f: Seq<u8>, limited: bool| extends(f, fed, closed)
            ==> #[trigger] stops_with(s, f, max, limited, end_of(origin, v), shift_error(e, base)),
{
    assert forall|f: Seq<u8>, limited: bool| extends(f, fed, closed)
        implies #[trigger] stops_with(s, f, max, limited, end_of(origin, v), shift_error(e, base)) by {
        assert(extends(f, fed, closed));
        lemma_extends_window(f, fed, closed, base, held);
        lemma_step_window(s, held, f, base, max, Step::Failed(e));
        lemma_failed_whole(s, f, base, max, end_of(origin, v), shift_error(e, base));
    }
}

proof fn lemma_track_end(s: ServiceStringAdvice, fed: Seq<u8>, closed: bool, max: int, origin: int, v: Seq<Segment>,
    base: int, held: Seq<u8>)
    requires
        on_track(s, fed, closed, max, origin, v, base),
        track_held(fed, base, held),
        0 <= max <= usize::MAX,
        step_is(s, held, 0, max, Step::End),
        closed,
    ensures
        forall|f: Seq<u8>| #[trigger] extends(f, fed, closed)
            ==> locate(s, f, skip_strays(s, f, end_of(origin, v), max), max) is End,
{
    assert forall|f: Seq<u8>| #[trigger] extends(f, fed, closed)
        implies locate(s, f, skip_strays(s, f, end_of(origin, v), max), max) is End by {
        lemma_extends_window(f, fed, closed, base, held);
        lemma_step_window(s, held, f, base, max, Step::End);
        lemma_end_whole(s, f, base, max, end_of(origin, v));
    }
}


// ── feeding a reader chunk by chunk ─────────────────────────────────────────

/// The service characters a reader uses on `input`: those the configuration
/// names, else those of the input's own `UNA`, else the defaults.
pub open spec fn reading_ssa(config: ReaderConfig, input: Seq<u8>) -> ServiceStringAdvice {
    match config.service_string_advice {
        Some(o) => o,
        None => match declared_ssa(input) {
            Some(Some(d)) => d,
            _ => default_ssa(),
        },
    }
}

/// The segments `v` are, in turn, the first segments read from `input` with `config`.
pub open spec fn read_so_far(input: Seq<u8>, config: ReaderConfig, v: Seq<Segment>) -> bool {
    match declared_ssa(input) {
        Some(None) => v.len() == 0,
        _ => reads_all(reading_ssa(config, input), input, config.max_segment_bytes as int, body_start(input), v),
    }
}

/// The most bytes a chunked reader holds: one segment and its terminator, or
/// the nine bytes of a `UNA` header where that is more.
pub open spec fn hold_limit(config: ReaderConfig) -> int {
    if config.max_segment_bytes + 1 > 9 { config.max_segment_bytes + 1 } else { 9 }
}

/// The position an error carries lies at or before `n`.
pub open spec fn offset_within(e: EdifactError, n: int) -> bool {
    match e {
        EdifactError::UnexpectedDataToken { offset } => offset <= n,
        EdifactError::InvalidText { offset } => offset <= n,
        EdifactError::SegmentTooLong { offset, limit } => offset <= n,
        EdifactError::InvalidReleaseSequence { offset } => offset <= n,
        EdifactError::UnexpectedEof { offset } => offset <= n,
        _ => true,
    }
}

proof fn lemma_failed_offset(s: ServiceStringAdvice, a: Seq<u8>, max: int, e: EdifactError)
    requires
        step_is(s, a, 0, max, Step::Failed(e)),
        a.len() <= usize::MAX,
    ensures
        offset_within(e, a.len() as int),
{
    crate::parser::lemma_skip_ws_ge(a, 0);
    crate::parser::lemma_locate_advances(s, a, 0, max);
    match locate(s, a, 0, max) {
        Found::Seg(q, j) => {
            crate::syntax::lemma_scan_bounds(s, a, q, j);
            let ps = pieces_of(s, a, q, j);
            lemma_pieces_window(s, a, a, 0, q, j);
            lemma_undecodable_bounds(s, a, ps, 0);
        },
        _ => {},
    }
}

/// An error moved right by `d` bytes.
fn shift_err(e: EdifactError, d: usize) -> (r: EdifactError)
    requires
        offset_within(e, usize::MAX - d),
    ensures
        r == shift_error(e, d as int),
{
    match e {
        EdifactError::UnexpectedDataToken { offset } => EdifactError::UnexpectedDataToken { offset: offset + d },
        EdifactError::InvalidText { offset } => EdifactError::InvalidText { offset: offset + d },
        EdifactError::SegmentTooLong { offset, limit } => EdifactError::SegmentTooLong { offset: offset + d, limit },
        EdifactError::InvalidReleaseSequence { offset } => EdifactError::InvalidReleaseSequence { offset: offset + d },
        EdifactError::UnexpectedEof { offset } => EdifactError::UnexpectedEof { offset: offset + d },
        other => other,
    }
}


/// Once the header is settled, what is read on the bytes fed so far is
/// read on every input that goes on from them.
proof fn lemma_so_far(config: ReaderConfig, fed: Seq<u8>, closed: bool, v: Seq<Segment>, base: int)
    requires
        fed.len() >= 9 || closed,
        !(declared_ssa(fed) matches Some(None)),
        on_track(reading_ssa(config, fed), fed, closed, config.max_segment_bytes as int, body_start(fed), v, base),
    ensures
        forall|f: Seq<u8>| #[trigger] extends(f, fed, closed) ==> read_so_far(f, config, v),
{
    assert forall|f: Seq<u8>| #[trigger] extends(f, fed, closed) implies read_so_far(f, config, v) by {
        lemma_declared_prefix(f, fed, closed);
    }
}

/// Once the header is settled and reading has ended on every input that
/// goes on from `fed`, that is what reading each of them whole gives.
proof fn lemma_through(config: ReaderConfig, fed: Seq<u8>, closed: bool, v: Seq<Segment>, end: Option<EdifactError>)
    requires
        fed.len() >= 9 || closed,
        !(declared_ssa(fed) matches Some(None)),
        forall|f: Seq<u8>| #[trigger] extends(f, fed, closed) ==> drained(reading_ssa(config, fed), f,
            config.max_segment_bytes as int, !crate::parser::unlimited(config), body_start(fed), v, end),
    ensures
        forall|f: Seq<u8>| #[trigger] extends(f, fed, closed) ==> crate::de::read_through(f, config, v, end),
{
    assert forall|f: Seq<u8>| #[trigger] extends(f, fed, closed) implies crate::de::read_through(f, config, v, end) by {
        lemma_declared_prefix(f, fed, closed);
    }
}


/// What feeding a chunk to a [`ChunkedReader`] gives.
#[derive(Debug)]
pub enum ReadStep {
    /// No complete segment is held and the input has not ended: more is needed.
    NeedInput,
    /// The next segment.
    Yield(Segment),
    /// The error that stops reading.
    Fail(EdifactError),
    /// Reading has ended.
    Done,
}

/// A segment reader fed its input chunk by chunk.  It takes from each chunk
/// only what it needs, and holds no more than one segment and its terminator
/// (or a `UNA` header), so its memory stays bounded whatever the input's
/// length.  Fed any chunking of an input, it yields what
/// [`crate::parser::from_bytes_with_config`] yields on the whole input.
pub struct ChunkedReader {
    config: ReaderConfig,
    held: Vec<u8>,
    base: usize,
    ssa: ServiceStringAdvice,
    started: bool,
    closed: bool,
    done: bool,
    segments_yielded: usize,
    messages_yielded: usize,
    in_message: bool,
    fed: Ghost<Seq<u8>>,
    yielded: Ghost<Seq<Segment>>,
    end: Ghost<Option<EdifactError>>,
}

/// What a chunked reader has seen and done.
pub struct ChunkedView {
    /// Every byte taken so far.
    pub fed: Seq<u8>,
    /// The input has ended: nothing follows the bytes taken.
    pub closed: bool,
    /// The bytes held, not yet read.
    pub held: Seq<u8>,
    /// The position in the input of the first byte held.
    pub base: int,
    /// The service characters in force, once the header is settled.
    pub ssa: ServiceStringAdvice,
    /// The header (`UNA` or not) is settled.
    pub started: bool,
    /// Reading has ended.
    pub done: bool,
    /// Its limits.
    pub config: ReaderConfig,
    /// The segments yielded so far.
    pub yielded: Seq<Segment>,
    /// The error reading ended with, if it did.
    pub end: Option<EdifactError>,
    /// Messages (UNH ... UNT) completed so far.
    pub messages_yielded: int,
    /// A UNH is open.
    pub in_message: bool,
}

impl View for ChunkedReader {
    type V = ChunkedView;

    closed spec fn view(&self) -> ChunkedView {
        ChunkedView {
            fed: self.fed@,
            closed: self.closed,
            held: self.held@,
            base: self.base as int,
            ssa: self.ssa,
            started: self.started,
            done: self.done,
            config: self.config,
            yielded: self.yielded@,
            end: self.end@,
            messages_yielded: self.messages_yielded as int,
            in_message: self.in_message,
        }
    }
}

/// What a chunked reader keeps true: the bytes held are those taken from
/// `base` on, within the bound; before the header is settled nothing is
/// read; while reading goes on, the segments yielded are read in turn on
/// every input that goes on from the bytes taken; once it has ended, they
/// and the end are what reading any such input whole gives.
pub open spec fn chunked_wf(v: ChunkedView) -> bool {
    &&& v.fed.len() <= usize::MAX
    &&& track_held(v.fed, v.base, v.held)
    &&& v.held.len() <= hold_limit(v.config)
    &&& v.messages_yielded <= v.yielded.len() <= v.base
    &&& !v.done ==> v.end is None
    &&& !v.started ==> v.base == 0 && v.yielded.len() == 0 && !v.done && !v.closed && v.fed.len() < 9
    &&& v.started ==> (v.fed.len() >= 9 || v.closed)
    &&& v.started && !v.done ==> {
        &&& !(declared_ssa(v.fed) matches Some(None))
        &&& v.ssa == reading_ssa(v.config, v.fed)
        &&& on_track(v.ssa, v.fed, v.closed, v.config.max_segment_bytes as int, body_start(v.fed), v.yielded, v.base)
    }
    &&& v.done ==> forall|f: Seq<u8>| #[trigger] extends(f, v.fed, v.closed) ==> crate::de::read_through(f, v.config, v.yielded, v.end)
}

impl ChunkedReader {
    /// The reader's state is consistent.
    pub closed spec fn wf(&self) -> bool {
        &&& chunked_wf(self@)
        &&& self.segments_yielded == self.yielded@.len()
    }

    /// A reader with the given limits that has taken nothing yet.
    pub fn new(config: ReaderConfig) -> (r: ChunkedReader)
        ensures
            r.wf(),
            r@.fed.len() == 0,
            !r@.closed,
            !r@.started,
            !r@.done,
            r@.config == config,
            r@.yielded.len() == 0,
            r@.messages_yielded == 0,
            !r@.in_message,
    {
        let r = ChunkedReader {
            config,
            held: Vec::new(),
            base: 0,
            ssa: ServiceStringAdvice::new(),
            started: false,
            closed: false,
            done: false,
            segments_yielded: 0,
            messages_yielded: 0,
            in_message: false,
            fed: Ghost(Seq::empty()),
            yielded: Ghost(Seq::empty()),
            end: Ghost(None),
        };
        proof { assert(r.held@ =~= r.fed@.subrange(0, 0)); }
        r
    }
}


impl ChunkedReader {
    /// Takes bytes of `chunk` from `taken` on, up to `avail`, while fewer than
    /// `cap` are held; returns where taking stopped.
    fn take(&mut self, chunk: &[u8], taken: usize, avail: usize, cap: usize) -> (t: usize)
        requires
            taken <= avail <= chunk@.len(),
            old(self).base + old(self).held@.len() == old(self).fed@.len(),
            old(self).held@ == old(self).fed@.subrange(old(self).base as int, old(self).fed@.len() as int),
            old(self).fed@.len() + (avail - taken) <= usize::MAX,
        ensures
            taken <= t <= avail,
            t == avail || final(self).held@.len() >= cap,
            old(self).held@.len() < cap ==> final(self).held@.len() <= cap,
            t > taken || old(self).held@.len() >= cap || taken == avail,
            final(self).fed@ == old(self).fed@ + chunk@.subrange(taken as int, t as int),
            final(self).held@ == old(self).held@ + chunk@.subrange(taken as int, t as int),
            final(self).base == old(self).base,
            final(self).base + final(self).held@.len() == final(self).fed@.len(),
            final(self).held@ == final(self).fed@.subrange(final(self).base as int, final(self).fed@.len() as int),
            final(self).config == old(self).config,
            final(self).ssa == old(self).ssa,
            final(self).started == old(self).started,
            final(self).closed == old(self).closed,
            final(self).done == old(self).done,
            final(self).segments_yielded == old(self).segments_yielded,
            final(self).messages_yielded == old(self).messages_yielded,
            final(self).in_message == old(self).in_message,
            final(self).yielded == old(self).yielded,
            final(self).end == old(self).end,
    {
        let mut t = taken;
        while t < avail && self.held.len() < cap
            invariant
                taken <= t <= avail <= chunk@.len(),
                old(self).fed@.len() + (avail - taken) <= usize::MAX,
                self.fed@ == old(self).fed@ + chunk@.subrange(taken as int, t as int),
                self.held@ == old(self).held@ + chunk@.subrange(taken as int, t as int),
                self.base == old(self).base,
                old(self).base + old(self).held@.len() == old(self).fed@.len(),
                old(self).held@ == old(self).fed@.subrange(old(self).base as int, old(self).fed@.len() as int),
                old(self).held@.len() < cap ==> self.held@.len() <= cap,
                self.config == old(self).config,
                self.ssa == old(self).ssa,
                self.started == old(self).started,
                self.closed == old(self).closed,
                self.done == old(self).done,
                self.segments_yielded == old(self).segments_yielded,
                self.messages_yielded == old(self).messages_yielded,
                self.in_message == old(self).in_message,
                self.yielded == old(self).yielded,
                self.end == old(self).end,
            decreases avail - t,
        {
            let b = chunk[t];
            self.held.push(b);
            self.fed = Ghost(self.fed@.push(b));
            proof {
                assert(chunk@.subrange(taken as int, t + 1) =~= chunk@.subrange(taken as int, t as int).push(b));
            }
            t = t + 1;
        }
        proof {
            assert(self.held@ =~= self.fed@.subrange(self.base as int, self.fed@.len() as int));
        }
        t
    }

    /// Drops the first `k` bytes held: reading goes on `k` bytes further.
    fn drop_front(&mut self, k: usize)
        requires
            k <= old(self).held@.len(),
            old(self).base + old(self).held@.len() == old(self).fed@.len(),
            old(self).fed@.len() <= usize::MAX,
            old(self).held@ == old(self).fed@.subrange(old(self).base as int, old(self).fed@.len() as int),
        ensures
            final(self).held@ == old(self).held@.subrange(k as int, old(self).held@.len() as int),
            final(self).base == old(self).base + k,
            final(self).base + final(self).held@.len() == final(self).fed@.len(),
            final(self).held@ == final(self).fed@.subrange(final(self).base as int, final(self).fed@.len() as int),
            final(self).fed == old(self).fed,
            final(self).config == old(self).config,
            final(self).ssa == old(self).ssa,
            final(self).started == old(self).started,
            final(self).closed == old(self).closed,
            final(self).done == old(self).done,
            final(self).segments_yielded == old(self).segments_yielded,
            final(self).messages_yielded == old(self).messages_yielded,
            final(self).in_message == old(self).in_message,
            final(self).yielded == old(self).yielded,
            final(self).end == old(self).end,
    {
        let rest = self.held.split_off(k);
        self.held = rest;
        self.base = self.base + k;
        proof {
            assert(self.held@ =~= self.fed@.subrange(self.base as int, self.fed@.len() as int));
        }
    }
}


impl ChunkedReader {
    /// Settles the header from the bytes taken: a malformed `UNA` stops
    /// reading; otherwise the service characters are chosen and a `UNA`
    /// header is dropped.
    fn start(&mut self) -> (r: Option<EdifactError>)
        requires
            !old(self).started,
            !old(self).done,
            old(self).base == 0,
            old(self).yielded@.len() == 0,
            old(self).end@ is None,
            old(self).segments_yielded == 0,
            old(self).messages_yielded == 0,
            old(self).fed@.len() <= usize::MAX,
            track_held(old(self).fed@, 0, old(self).held@),
            old(self).held@.len() <= 9,
            old(self).fed@.len() >= 9 || old(self).closed,
        ensures
            final(self).wf(),
            final(self).started,
            final(self).done == r is Some,
            final(self).end@ == r,
            r is Some ==> r == Some(EdifactError::InvalidUna),
            final(self).fed == old(self).fed,
            final(self).closed == old(self).closed,
            final(self).config == old(self).config,
            final(self).yielded == old(self).yielded,
            final(self).messages_yielded == old(self).messages_yielded,
            final(self).in_message == old(self).in_message,
    {
        let ghost fed = self.fed@;
        proof {
            assert(self.held@ =~= fed);
        }
        match ServiceStringAdvice::from_bytes(self.held.as_slice()) {
            Err(_) => {
                self.started = true;
                self.done = true;
                self.end = Ghost(Some(EdifactError::InvalidUna));
                proof {
                    assert forall|f: Seq<u8>| #[trigger] extends(f, fed, self.closed)
                        implies crate::de::read_through(f, self.config, self.yielded@, self.end@) by {
                        lemma_declared_prefix(f, fed, self.closed);
                    }
                }
                Some(EdifactError::InvalidUna)
            },
            Ok(found) => {
                self.ssa = match self.config.service_string_advice {
                    Some(o) => o,
                    None => found,
                };
                if crate::syntax::starts_with_una(self.held.as_slice()) {
                    self.drop_front(9);
                }
                self.started = true;
                proof {
                    let max = self.config.max_segment_bytes as int;
                    let origin = body_start(fed);
                    assert(self.base == origin);
                    assert forall|f: Seq<u8>| #[trigger] extends(f, fed, self.closed) implies
                        reads_all(self.ssa, f, max, origin, self.yielded@)
                        && same_spot(self.ssa, f, max, end_of(origin, self.yielded@), self.base as int) by {
                        assert(self.yielded@.len() == 0);
                    }
                }
                None
            },
        }
    }
}


proof fn lemma_locate_after_ws(s: ServiceStringAdvice, a: Seq<u8>, max: int)
    requires
        a.len() <= usize::MAX,
    ensures
        0 <= skip_ws(a, 0) <= a.len(),
        settled(locate(s, a.subrange(skip_ws(a, 0), a.len() as int), 0, max)) == settled(locate(s, a, 0, max)),
{
    crate::parser::lemma_skip_ws_ge(a, 0);
    lemma_skip_ws_le(a, 0);
    let q = skip_ws(a, 0);
    let sub = a.subrange(q, a.len() as int);
    if q < a.len() {
        lemma_skip_ws_stops(a, 0);
        assert(window(sub, a, q));
        lemma_locate_window(s, sub, a, q, 0, max);
        assert(locate(s, a, q, max) == locate(s, a, 0, max));
    } else {
        assert(sub.len() == 0);
    }
}

impl ChunkedReader {
    /// Feeds the next chunk of input; `at_end` says that no input follows it.
    /// Returns what reading gives and how many bytes of the chunk were taken:
    /// the rest must be fed again.  Bytes are taken only while no complete
    /// segment is held, so at most one segment and its terminator (or a `UNA`
    /// header) is ever held.  A segment is yielded, or reading stops with an
    /// error or at the end, as soon as no further byte can change it; where
    /// more input could, and the chunk is used up, more is asked for.
    /// Whatever input follows, the segments yielded are the first segments
    /// that reading it whole yields, and once reading has ended they and the
    /// end are all of it.  Limits work as for
    /// [`crate::parser::FromBytesIter::next`].  After the end, or after
    /// input has been declared ended, nothing more is taken.
    #[verifier::rlimit(60)]
    pub fn feed(&mut self, chunk: &[u8], at_end: bool) -> (r: (ReadStep, usize))
        requires
            old(self).wf(),
            old(self)@.fed.len() + chunk@.len() <= usize::MAX,
        ensures
            final(self).wf(),
            final(self)@.config == old(self)@.config,
            r.1 <= chunk@.len(),
            old(self)@.closed ==> r.1 == 0,
            final(self)@.fed == old(self)@.fed + chunk@.subrange(0, r.1 as int),
            final(self)@.held.len() <= hold_limit(final(self)@.config),
            old(self)@.done ==> r.0 is Done && r.1 == 0 && final(self)@ == old(self)@,
            !old(self)@.done ==> final(self)@.closed == (old(self)@.closed || (at_end && r.1 == chunk@.len())),
            !old(self)@.done ==> match r.0 {
                ReadStep::NeedInput => !final(self)@.done && !final(self)@.closed && !at_end && r.1 == chunk@.len()
                    && final(self)@.yielded == old(self)@.yielded
                    && (final(self)@.started ==> !settled(locate(final(self)@.ssa, final(self)@.held, 0, final(self)@.config.max_segment_bytes as int)))
                    && (!final(self)@.started ==> final(self)@.held.len() < 9),
                ReadStep::Yield(seg) => !final(self)@.done
                    && final(self)@.yielded == old(self)@.yielded.push(seg)
                    && !crate::parser::limit_hit(old(self)@.config, old(self)@.yielded.len() as int, old(self)@.messages_yielded, seg)
                    && final(self)@.in_message == (if crate::parser::is_unt(seg.tag@) { false } else if crate::parser::is_unh(seg.tag@) { true } else { old(self)@.in_message })
                    && final(self)@.messages_yielded == old(self)@.messages_yielded + (if crate::parser::is_unt(seg.tag@) && old(self)@.in_message { 1int } else { 0int }),
                ReadStep::Fail(e) => final(self)@.done && final(self)@.end == Some(e)
                    && final(self)@.yielded == old(self)@.yielded
                    && (e is LimitExceeded ==> exists|seg: Segment|
                        #[trigger] crate::parser::limit_error(old(self)@.config, old(self)@.yielded.len() as int, old(self)@.messages_yielded, seg, e)
                        && forall|f: Seq<u8>| #[trigger] extends(f, final(self)@.fed, final(self)@.closed) ==>
                            read_at(reading_ssa(final(self)@.config, f), f, final(self)@.config.max_segment_bytes as int,
                                end_of(body_start(f), old(self)@.yielded), seg)),
                ReadStep::Done => final(self)@.done && final(self)@.end is None && final(self)@.closed
                    && final(self)@.yielded == old(self)@.yielded,
            },
            forall|f: Seq<u8>| #[trigger] extends(f, final(self)@.fed, final(self)@.closed) ==>
                read_so_far(f, final(self)@.config, final(self)@.yielded),
            final(self)@.done ==> forall|f: Seq<u8>| #[trigger] extends(f, final(self)@.fed, final(self)@.closed) ==>
                crate::de::read_through(f, final(self)@.config, final(self)@.yielded, final(self)@.end),
    {
        if self.done {
            proof { lemma_done_so_far(self@); }
            return (ReadStep::Done, 0);
        }
        let avail: usize = if self.closed { 0 } else { chunk.len() };
        let ghost fed0 = self.fed@;
        let closed0 = self.closed;
        let ghost v0 = self.yielded@;
        let mut taken: usize = 0;
        if !self.started {
            taken = self.take(chunk, 0, avail, 9);
            self.closed = self.closed || (at_end && taken == avail);
            if self.held.len() < 9 && !self.closed {
                proof { assert(self.yielded@.len() == 0); }
                return (ReadStep::NeedInput, taken);
            }
            if let Some(e) = self.start() {
                proof { lemma_done_so_far(self@); }
                return (ReadStep::Fail(e), taken);
            }
        }
        let ghost closed_now = self.closed;
        self.closed = closed0 || (at_end && taken == avail);
        proof {
            assert(self.fed@.subrange(0, self.fed@.len() as int) =~= self.fed@);
            lemma_track_grow(self.ssa, self.fed@, closed_now, self.fed@, self.closed,
                self.config.max_segment_bytes as int, body_start(self.fed@), self.yielded@, self.base as int);
        }
        let max = self.config.max_segment_bytes;
        loop
            invariant
                self.wf(),
                self.started,
                !self.done,
                taken <= avail,
                avail == (if closed0 { 0 } else { chunk@.len() }),
                avail <= chunk@.len(),
                fed0.len() + chunk@.len() <= usize::MAX,
                self.fed@ == fed0 + chunk@.subrange(0, taken as int),
                self.closed == (closed0 || (at_end && taken == avail)),
                self.config == old(self).config,
                max == self.config.max_segment_bytes,
                self.yielded@ == v0,
                v0 == old(self).yielded@,
                fed0 == old(self).fed@,
                closed0 == old(self).closed,
                !old(self).done,
                self.messages_yielded == old(self).messages_yielded,
                self.in_message == old(self).in_message,
            decreases 2 * (avail - taken) + self.held@.len(),
        {
            let step = read_step(self.held.as_slice(), 0, self.ssa, max);
            let firm = match &step {
                Step::Parsed(_, _) => true,
                Step::Stray(_) => true,
                Step::Failed(e) => match e {
                    EdifactError::InvalidReleaseSequence { .. } => false,
                    EdifactError::UnexpectedEof { .. } => false,
                    _ => true,
                },
                Step::End => false,
            };
            let ghost fed = self.fed@;
            let ghost origin = body_start(fed);
            let ghost held = self.held@;
            proof {
                assert(firm == settled(locate(self.ssa, held, 0, max as int)));
            }
            if firm || self.closed {
                match step {
                    Step::Stray(next) => {
                        proof {
                            lemma_track_stray(self.ssa, fed, self.closed, max as int, origin, v0, self.base as int, held, next);
                        }
                        self.drop_front(next);
                    },
                    Step::Parsed(seg, next) => {
                        let ghost seg0 = seg;
                        let seg2 = seg.offset(self.base);
                        proof {
                            lemma_track_parsed(self.ssa, fed, self.closed, max as int, origin, v0, self.base as int, held, seg0, next, seg2);
                        }
                        let r = self.accept(seg2, next);
                        proof {
                            if r is Fail {
                                let e = r->Fail_0;
                                assert(crate::parser::limit_error(self.config, v0.len() as int, old(self).messages_yielded as int, seg2, e));
                                assert(forall|f: Seq<u8>| #[trigger] extends(f, self@.fed, self@.closed) ==>
                                    read_at(reading_ssa(self@.config, f), f, self@.config.max_segment_bytes as int,
                                        end_of(body_start(f), old(self)@.yielded), seg2));
                                assert(crate::parser::limit_error(old(self)@.config, old(self)@.yielded.len() as int, old(self)@.messages_yielded, seg2, e));
                                assert(exists|seg: Segment|
                                    #[trigger] crate::parser::limit_error(old(self)@.config, old(self)@.yielded.len() as int, old(self)@.messages_yielded, seg, e)
                                    && forall|f: Seq<u8>| #[trigger] extends(f, self@.fed, self@.closed) ==>
                                        read_at(reading_ssa(self@.config, f), f, self@.config.max_segment_bytes as int,
                                            end_of(body_start(f), old(self)@.yielded), seg));
                            }
                        }
                        return (r, taken);
                    },
                    Step::Failed(e) => {
                        proof {
                            lemma_failed_offset(self.ssa, held, max as int, e);
                            lemma_track_failed(self.ssa, fed, self.closed, max as int, origin, v0, self.base as int, held, e);
                        }
                        let e2 = shift_err(e, self.base);
                        self.done = true;
                        self.end = Ghost(Some(e2));
                        proof {
                            lemma_through(self.config, fed, self.closed, v0, Some(e2));
                            lemma_done_so_far(self@);
                        }
                        return (ReadStep::Fail(e2), taken);
                    },
                    Step::End => {
                        proof {
                            lemma_track_end(self.ssa, fed, self.closed, max as int, origin, v0, self.base as int, held);
                        }
                        self.done = true;
                        proof {
                            lemma_through(self.config, fed, self.closed, v0, None);
                            lemma_done_so_far(self@);
                        }
                        return (ReadStep::Done, taken);
                    },
                }
            } else {
                let q = skip_whitespace_from(self.held.as_slice(), 0);
                proof {
                    lemma_track_ws(self.ssa, fed, self.closed, max as int, origin, v0, self.base as int);
                    lemma_locate_after_ws(self.ssa, held, max as int);
                }
                self.drop_front(q);
                if taken == avail {
                    proof { lemma_so_far(self.config, fed, self.closed, v0, self.base as int); }
                    return (ReadStep::NeedInput, taken);
                }
                let cap: usize = if max < usize::MAX { max + 1 } else { max };
                let t = self.take(chunk, taken, avail, cap);
                let ghost closed_before = self.closed;
                proof {
                    assert(chunk@.subrange(0, t as int) =~= chunk@.subrange(0, taken as int) + chunk@.subrange(taken as int, t as int));
                    assert(self.fed@ =~= fed0 + chunk@.subrange(0, t as int));
                    assert(self.fed@.subrange(0, fed.len() as int) =~= fed);
                }
                taken = t;
                self.closed = closed0 || (at_end && taken == avail);
                proof {
                    lemma_track_grow(self.ssa, fed, closed_before, self.fed@, self.closed, max as int, origin, v0, self.base as int);
                }
            }
        }
    }
}


/// Once reading has ended, what was yielded is read on every input that goes
/// on from the bytes taken.
proof fn lemma_done_so_far(v: ChunkedView)
    requires
        chunked_wf(v),
        v.done,
    ensures
        forall|f: Seq<u8>| #[trigger] extends(f, v.fed, v.closed) ==> read_so_far(f, v.config, v.yielded),
{
    assert forall|f: Seq<u8>| #[trigger] extends(f, v.fed, v.closed) implies read_so_far(f, v.config, v.yielded) by {
        assert(crate::de::read_through(f, v.config, v.yielded, v.end));
    }
}


impl ChunkedReader {
    /// Hands out the segment read next, or stops reading where it would pass
    /// a limit.
    fn accept(&mut self, seg2: Segment, next: usize) -> (r: ReadStep)
        requires
            old(self).wf(),
            old(self).started,
            !old(self).done,
            1 <= next <= old(self).held@.len(),
            ({
                let s = old(self).ssa;
                let fed = old(self).fed@;
                let closed = old(self).closed;
                let max = old(self).config.max_segment_bytes as int;
                let origin = body_start(fed);
                let v = old(self).yielded@;
                &&& on_track(s, fed, closed, max, origin, v.push(seg2), old(self).base + next)
                &&& forall|f: Seq<u8>| #[trigger] extends(f, fed, closed) ==> read_at(s, f, max, end_of(origin, v), seg2)
                &&& forall|f: Seq<u8>, e: EdifactError| extends(f, fed, closed) && e is LimitExceeded
                    ==> #[trigger] stops_with(s, f, max, true, end_of(origin, v), e)
            }),
        ensures
            final(self).wf(),
            final(self).config == old(self).config,
            final(self).fed == old(self).fed,
            final(self).closed == old(self).closed,
            final(self).started,
            match r {
                ReadStep::Yield(seg) => seg == seg2 && !final(self).done
                    && final(self).yielded@ == old(self).yielded@.push(seg)
                    && !crate::parser::limit_hit(old(self).config, old(self).yielded@.len() as int, old(self).messages_yielded as int, seg)
                    && final(self).in_message == (if crate::parser::is_unt(seg.tag@) { false } else if crate::parser::is_unh(seg.tag@) { true } else { old(self).in_message })
                    && final(self).messages_yielded == old(self).messages_yielded + (if crate::parser::is_unt(seg.tag@) && old(self).in_message { 1int } else { 0int }),
                ReadStep::Fail(e) => final(self).done && final(self).end@ == Some(e)
                    && final(self).yielded == old(self).yielded
                    && e is LimitExceeded
                    && crate::parser::limit_error(old(self).config, old(self).yielded@.len() as int, old(self).messages_yielded as int, seg2, e)
                    && forall|f: Seq<u8>| #[trigger] extends(f, old(self).fed@, old(self).closed) ==>
                        read_at(reading_ssa(old(self).config, f), f, old(self).config.max_segment_bytes as int,
                            end_of(body_start(f), old(self).yielded@), seg2),
                _ => false,
            },
            forall|f: Seq<u8>| #[trigger] extends(f, final(self)@.fed, final(self)@.closed) ==>
                read_so_far(f, final(self)@.config, final(self)@.yielded),
            final(self)@.done ==> forall|f: Seq<u8>| #[trigger] extends(f, final(self)@.fed, final(self)@.closed) ==>
                crate::de::read_through(f, final(self)@.config, final(self)@.yielded, final(self)@.end),
    {
        let ghost fed = self.fed@;
        let ghost origin = body_start(fed);
        let ghost v0 = self.yielded@;
        let max = self.config.max_segment_bytes;
        let segs = self.segments_yielded;
        let msgs = self.messages_yielded;
        let unh = crate::parser::tag_is(seg2.tag.as_str(), true);
        let unt = crate::parser::tag_is(seg2.tag.as_str(), false);
        let mut hit: Option<EdifactError> = None;
        if let Some(m) = self.config.max_segments {
            if segs >= m {
                hit = Some(EdifactError::LimitExceeded { limit: "max_segments", max: m as u64 });
            }
        }
        if hit.is_none() {
            if let Some(m) = self.config.max_messages {
                if unh && msgs >= m {
                    hit = Some(EdifactError::LimitExceeded { limit: "max_messages", max: m as u64 });
                }
            }
        }
        if hit.is_none() {
            if let Some(m) = self.config.max_input_bytes {
                if seg2.span.end as u64 > m {
                    hit = Some(EdifactError::LimitExceeded { limit: "max_input_bytes", max: m });
                }
            }
        }
        match hit {
            Some(e) => {
                self.done = true;
                self.end = Ghost(Some(e));
                proof {
                    assert(crate::parser::limit_error(self.config, v0.len() as int, msgs as int, seg2, e));
                    assert(!crate::parser::unlimited(self.config));
                    assert forall|f: Seq<u8>| #[trigger] extends(f, fed, self.closed) implies
                        drained(self.ssa, f, max as int, !crate::parser::unlimited(self.config), origin, v0, Some(e))
                        && read_at(reading_ssa(self.config, f), f, max as int, end_of(body_start(f), v0), seg2) by {
                        assert(extends(f, fed, self.closed));
                        lemma_declared_prefix(f, fed, self.closed);
                    }
                    lemma_through(self.config, fed, self.closed, v0, Some(e));
                    lemma_done_so_far(self@);
                    assert(forall|f: Seq<u8>| #[trigger] extends(f, self.fed@, self.closed) ==>
                        read_at(reading_ssa(self.config, f), f, max as int, end_of(body_start(f), v0), seg2));
                }
                return ReadStep::Fail(e);
            },
            None => {
                self.drop_front(next);
                self.segments_yielded = segs + 1;
                self.yielded = Ghost(v0.push(seg2));
                if unt {
                    if self.in_message {
                        self.messages_yielded = msgs + 1;
                    }
                    self.in_message = false;
                } else if unh {
                    self.in_message = true;
                }
                proof {
                    lemma_so_far(self.config, fed, self.closed, self.yielded@, self.base as int);
                }
                return ReadStep::Yield(seg2);
            },
        }
    }
}


/// Reading in chunks keeps pace with reading whole: at every point, for
/// every input that goes on from the bytes fed so far (however they were cut
/// into chunks), the segments yielded are the first segments that reading
/// that input whole yields; once reading has ended, they and the end (the
/// error, or none) are all that reading it whole yields.
pub proof fn law_chunks_read_as_whole(r: &ChunkedReader, f: Seq<u8>)
    requires
        r.wf(),
        extends(f, r@.fed, r@.closed),
    ensures
        read_so_far(f, r@.config, r@.yielded),
        r@.done ==> crate::de::read_through(f, r@.config, r@.yielded, r@.end),
{
    if r@.done {
        lemma_done_so_far(r@);
    } else if r@.started {
        lemma_so_far(r@.config, r@.fed, r@.closed, r@.yielded, r@.base);
    }
}

/// Without budgets, reading in chunks gives exactly what reading whole
/// gives: where a reader fed `f` in any chunks has ended, and reading `f`
/// whole yields `v` and then `end` (as [`crate::parser::FromBytesIter::drain`]
/// does), the reader yielded as many segments, each read from the same bytes,
/// and ended the same way.
pub proof fn law_chunks_agree_with_whole(r: &ChunkedReader, f: Seq<u8>, v: Seq<Segment>, end: Option<EdifactError>)
    requires
        r.wf(),
        r@.done,
        extends(f, r@.fed, r@.closed),
        crate::parser::unlimited(r@.config),
        crate::de::read_through(f, r@.config, v, end),
    ensures
        r@.yielded.len() == v.len(),
        r@.end == end,
        forall|k: int| 0 <= k < v.len() ==> crate::parser::reads_alike(#[trigger] r@.yielded[k], v[k]),
{
    law_chunks_read_as_whole(r, f);
    let max = r@.config.max_segment_bytes as int;
    match declared_ssa(f) {
        Some(None) => {},
        _ => {
            crate::parser::lemma_drained_agree(reading_ssa(r@.config, f), f, max, body_start(f), r@.yielded, r@.end, v, end);
        },
    }
}

} // verus!
