//! Reading typed values out of segments: qualifier patterns, segment
//! lookup, and per-message windows of a segment stream.

use vstd::prelude::*;

use crate::error::EdifactError;
use crate::model::{non_empty, opt_str_text, seg_component, Segment, Span};
use crate::parser::{
    drained, from_bytes_with_config, is_unh, is_unt, lemma_drained_agree, reads_alike, stream_drained, tag_is,
    unlimited, OwnedSegmentStream, ReaderConfig, StreamView,
};
use crate::syntax::{declared_ssa, default_ssa};
use crate::text::{own, str_eq, to_chars};

verus! {

/// The pieces of a pattern between its `*`s, in order (one more than the
/// number of `*`s).
pub open spec fn split_star(p: Seq<char>) -> Seq<Seq<char>>
    decreases p.len(),
{
    if p.len() == 0 {
        seq![Seq::empty()]
    } else {
        let r = split_star(p.drop_last());
        if p.last() == '*' {
            r.push(Seq::empty())
        } else {
            r.update(r.len() - 1, r.last().push(p.last()))
        }
    }
}

/// `ps` occur in `s` one after the other, without overlapping, each anywhere
/// after the end of the one before.
pub open spec fn occurs_in_order(s: Seq<char>, ps: Seq<Seq<char>>) -> bool
    decreases ps.len(),
{
    if ps.len() == 0 {
        true
    } else {
        exists|i: int| #![trigger s.subrange(i, i + ps[0].len())]
            0 <= i && i + ps[0].len() <= s.len() && s.subrange(i, i + ps[0].len()) == ps[0]
            && occurs_in_order(s.skip(i + ps[0].len()), ps.drop_first())
    }
}

/// Whether `v` matches the glob pieces `parts` (at least two): the first
/// piece starts it, the last one ends it without overlapping the first, and
/// the pieces between occur in order in what lies between.
pub open spec fn glob_matches(v: Seq<char>, parts: Seq<Seq<char>>) -> bool {
    let first = parts[0];
    let last = parts.last();
    &&& v.len() >= first.len() + last.len()
    &&& v.take(first.len() as int) == first
    &&& v.skip(v.len() - last.len()) == last
    &&& occurs_in_order(v.subrange(first.len() as int, v.len() - last.len()), parts.subrange(1, parts.len() - 1))
}

/// Whether a qualifier matches a pattern: an empty pattern matches only the
/// empty value, a pattern without `*` only itself, and a pattern with `*`s
/// as a glob, where each `*` stands for any text; a pattern with more than
/// three `*`s matches nothing.
pub open spec fn pattern_matches(v: Seq<char>, p: Seq<char>) -> bool {
    if p.len() == 0 {
        v.len() == 0
    } else if !p.contains('*') {
        v == p
    } else {
        let parts = split_star(p);
        parts.len() <= 4 && glob_matches(v, parts)
    }
}

proof fn lemma_split_star_len(p: Seq<char>)
    ensures
        split_star(p).len() >= 1,
        p.contains('*') ==> split_star(p).len() >= 2,
    decreases p.len(),
{
    if p.len() > 0 {
        lemma_split_star_len(p.drop_last());
        if p.drop_last().contains('*') {
        } else if p.contains('*') {
            let k = choose|k: int| 0 <= k < p.len() && p[k] == '*';
            if k < p.len() - 1 {
                assert(p.drop_last()[k] == '*');
            }
        }
    }
}

/// The pieces of a pattern between its `*`s.
fn split_pattern(p: &Vec<char>) -> (r: Vec<Vec<char>>)
    ensures
        r@.len() == split_star(p@).len(),
        forall|k: int| 0 <= k < r@.len() ==> (#[trigger] r@[k])@ == split_star(p@)[k],
{
    let mut out: Vec<Vec<char>> = Vec::new();
    out.push(Vec::new());
    let mut i: usize = 0;
    assert(p@.take(0) =~= Seq::<char>::empty());
    while i < p.len()
        invariant
            i <= p@.len(),
            out@.len() == split_star(p@.take(i as int)).len(),
            out@.len() >= 1,
            forall|k: int| 0 <= k < out@.len() ==> (#[trigger] out@[k])@ == split_star(p@.take(i as int))[k],
        decreases p@.len() - i,
    {
        let c = p[i];
        proof {
            assert(p@.take(i + 1).drop_last() =~= p@.take(i as int));
            assert(p@.take(i + 1).last() == c);
        }
        if c == '*' {
            out.push(Vec::new());
        } else {
            let n = out.len();
            let mut last = out.pop().unwrap();
            last.push(c);
            out.push(last);
            proof {
                assert forall|k: int| 0 <= k < out@.len() implies (#[trigger] out@[k])@ == split_star(p@.take(i + 1))[k] by {
                    if k < n - 1 {
                    } else {
                        assert(out@[k]@ == split_star(p@.take(i as int))[k].push(c));
                    }
                }
            }
        }
        i = i + 1;
    }
    proof { assert(p@.take(i as int) =~= p@); }
    out
}

/// Whether `part` occurs in `s` at `i`.
fn occurs_at(s: &Vec<char>, i: usize, part: &Vec<char>) -> (r: bool)
    requires
        i + part@.len() <= s@.len(),
    ensures
        r == (s@.subrange(i as int, i + part@.len()) == part@),
{
    let n = s.len();
    let mut j: usize = 0;
    while j < part.len()
        invariant
            n == s@.len(),
            j <= part@.len(),
            i + part@.len() <= s@.len(),
            forall|q: int| 0 <= q < j ==> s@[i + q] == part@[q],
        decreases part@.len() - j,
    {
        assert(i + j < s@.len());
        if s[i + j] != part[j] {
            assert(s@.subrange(i as int, i + part@.len())[j as int] != part@[j as int]);
            return false;
        }
        j = j + 1;
    }
    assert(s@.subrange(i as int, i + part@.len()) =~= part@);
    true
}

proof fn lemma_in_order_extends(t: Seq<char>, ps: Seq<Seq<char>>, d: int)
    requires
        0 <= d <= t.len(),
        occurs_in_order(t.skip(d), ps),
    ensures
        occurs_in_order(t, ps),
{
    if ps.len() > 0 {
        let u = t.skip(d);
        let i = choose|i: int| #![trigger u.subrange(i, i + ps[0].len())]
            0 <= i && i + ps[0].len() <= u.len() && u.subrange(i, i + ps[0].len()) == ps[0]
            && occurs_in_order(u.skip(i + ps[0].len()), ps.drop_first());
        assert(t.subrange(i + d, i + d + ps[0].len()) =~= u.subrange(i, i + ps[0].len()));
        assert(t.skip(i + d + ps[0].len()) =~= u.skip(i + ps[0].len()));
    }
}

/// Looks for the pieces in order from offset `from`, each at its leftmost
/// place: whether they all occur.
fn greedy_in_order(s: &Vec<char>, parts: &Vec<Vec<char>>, first: usize, end: usize) -> (r: bool)
    requires
        first <= end <= parts@.len(),
    ensures
        r == occurs_in_order(s@, parts@.subrange(first as int, end as int).map_values(|v: Vec<char>| v@)),
{
    let ghost ps = parts@.subrange(first as int, end as int).map_values(|v: Vec<char>| v@);
    let mut r: usize = 0;
    let mut k: usize = first;
    assert(s@.skip(0) =~= s@);
    assert(ps.skip(0) =~= ps);
    while k < end
        invariant
            first <= k <= end <= parts@.len(),
            r <= s@.len(),
            ps == parts@.subrange(first as int, end as int).map_values(|v: Vec<char>| v@),
            occurs_in_order(s@, ps) == occurs_in_order(s@.skip(r as int), ps.skip(k - first)),
        decreases end - k,
    {
        let part = &parts[k];
        let ghost t = s@.skip(r as int);
        let ghost rest = ps.skip(k - first);
        assert(rest[0] == part@);
        assert(rest.drop_first() =~= ps.skip(k + 1 - first));
        if part.len() > s.len() - r {
            proof {
                if occurs_in_order(t, rest) {
                    let i = choose|i: int| #![trigger t.subrange(i, i + rest[0].len())]
                        0 <= i && i + rest[0].len() <= t.len() && t.subrange(i, i + rest[0].len()) == rest[0]
                        && occurs_in_order(t.skip(i + rest[0].len()), rest.drop_first());
                }
            }
            return false;
        }
        let lim = s.len() - part.len();
        let mut i: usize = r;
        let mut found = false;
        loop
            invariant_except_break
                r <= i <= lim,
                !found,
                forall|q: int| #![trigger s@.subrange(q, q + part@.len())] r <= q < i ==> s@.subrange(q, q + part@.len()) != part@,
            invariant
                lim + part@.len() == s@.len(),
            ensures
                found ==> r <= i <= lim && s@.subrange(i as int, i + part@.len()) == part@,
                found ==> forall|q: int| #![trigger s@.subrange(q, q + part@.len())] r <= q < i ==> s@.subrange(q, q + part@.len()) != part@,
                !found ==> forall|q: int| #![trigger s@.subrange(q, q + part@.len())] r <= q <= lim ==> s@.subrange(q, q + part@.len()) != part@,
            decreases lim - i,
        {
            if occurs_at(s, i, part) {
                found = true;
                break;
            }
            if i == lim {
                break;
            }
            i = i + 1;
        }
        if !found {
            proof {
                if occurs_in_order(t, rest) {
                    let w = choose|w: int| #![trigger t.subrange(w, w + rest[0].len())]
                        0 <= w && w + rest[0].len() <= t.len() && t.subrange(w, w + rest[0].len()) == rest[0]
                        && occurs_in_order(t.skip(w + rest[0].len()), rest.drop_first());
                    assert(t.subrange(w, w + rest[0].len()) =~= s@.subrange(r + w, r + w + part@.len()));
                }
            }
            return false;
        }
        proof {
            let w0 = i - r;
            assert(t.subrange(w0, w0 + rest[0].len()) =~= s@.subrange(i as int, i + part@.len()));
            assert(t.skip(w0 + rest[0].len()) =~= s@.skip(i + part@.len()));
            if occurs_in_order(t, rest) {
                let w = choose|w: int| #![trigger t.subrange(w, w + rest[0].len())]
                    0 <= w && w + rest[0].len() <= t.len() && t.subrange(w, w + rest[0].len()) == rest[0]
                    && occurs_in_order(t.skip(w + rest[0].len()), rest.drop_first());
                assert(t.subrange(w, w + rest[0].len()) =~= s@.subrange(r + w, r + w + part@.len()));
                assert(w >= w0);
                let big = s@.skip(i + part@.len());
                assert(big.skip(w - w0) =~= t.skip(w + rest[0].len()));
                lemma_in_order_extends(big, rest.drop_first(), w - w0);
            }
        }
        r = i + part.len();
        k = k + 1;
    }
    assert(ps.skip(k - first).len() == 0);
    r <= s.len()
}

/// Whether a qualifier value matches a pattern, exactly or with `*`
/// wildcards; see [`pattern_matches`].
pub fn qualifier_matches_pattern(value: &str, pattern: &str) -> (r: bool)
    ensures
        r == pattern_matches(value@, pattern@),
{
    let p = to_chars(pattern);
    let v = to_chars(value);
    if p.len() == 0 {
        return v.len() == 0;
    }
    let mut has_star = false;
    let mut i: usize = 0;
    while i < p.len()
        invariant
            i <= p@.len(),
            has_star == (exists|k: int| 0 <= k < i && p@[k] == '*'),
        decreases p@.len() - i,
    {
        if p[i] == '*' {
            has_star = true;
        }
        i = i + 1;
    }
    if !has_star {
        assert(!pattern@.contains('*'));
        return str_eq(value, pattern);
    }
    assert(pattern@.contains('*'));
    proof { lemma_split_star_len(pattern@); }
    let parts = split_pattern(&p);
    let ghost sp = split_star(pattern@);
    if parts.len() > 4 {
        return false;
    }
    let n = parts.len();
    let first = &parts[0];
    let last = &parts[n - 1];
    if first.len() > v.len() || last.len() > v.len() - first.len() {
        return false;
    }
    let start = first.len();
    let end = v.len() - last.len();
    if !occurs_at(&v, 0, first) {
        assert(v@.subrange(0, first@.len() as int) =~= v@.take(first@.len() as int));
        return false;
    }
    assert(v@.subrange(0, first@.len() as int) =~= v@.take(first@.len() as int));
    if !occurs_at(&v, end, last) {
        assert(v@.subrange(end as int, end + last@.len()) =~= v@.skip(end as int));
        return false;
    }
    assert(v@.subrange(end as int, end + last@.len()) =~= v@.skip(end as int));
    let mut mid: Vec<char> = Vec::new();
    let mut j: usize = start;
    while j < end
        invariant
            start <= j <= end <= v@.len(),
            mid@ =~= v@.subrange(start as int, j as int),
        decreases end - j,
    {
        mid.push(v[j]);
        j = j + 1;
    }
    let r = greedy_in_order(&mid, &parts, 1, n - 1);
    proof {
        assert(parts@.subrange(1, n - 1).map_values(|x: Vec<char>| x@) =~= sp.subrange(1, sp.len() - 1));
    }
    r
}

/// The first segment with tag `tag`.
pub fn find_segment<'s>(segments: &'s [Segment], tag: &str) -> (r: Option<&'s Segment>)
    ensures
        match r {
            Some(s) => exists|i: int| 0 <= i < segments@.len() && segments@[i] == *s && s.tag@ == tag@
                && forall|k: int| 0 <= k < i ==> (#[trigger] segments@[k]).tag@ != tag@,
            None => forall|k: int| 0 <= k < segments@.len() ==> (#[trigger] segments@[k]).tag@ != tag@,
        },
{
    let mut i: usize = 0;
    while i < segments.len()
        invariant
            i <= segments@.len(),
            forall|k: int| 0 <= k < i ==> (#[trigger] segments@[k]).tag@ != tag@,
        decreases segments@.len() - i,
    {
        if str_eq(segments[i].tag.as_str(), tag) {
            return Some(&segments[i]);
        }
        i = i + 1;
    }
    None
}

/// The segments with tag `tag`, in order.
pub fn find_segments<'s>(segments: &'s [Segment], tag: &str) -> (r: Vec<&'s Segment>)
    ensures
        r@.len() == segments@.filter(|s: Segment| s.tag@ == tag@).len(),
        forall|k: int| 0 <= k < r@.len() ==> *(#[trigger] r@[k]) == segments@.filter(|s: Segment| s.tag@ == tag@)[k],
{
    let ghost f = |s: Segment| s.tag@ == tag@;
    let mut out: Vec<&'s Segment> = Vec::new();
    let mut i: usize = 0;
    assert(segments@.take(0).filter(f) =~= Seq::<Segment>::empty());
    while i < segments.len()
        invariant
            i <= segments@.len(),
            f == (|s: Segment| s.tag@ == tag@),
            out@.len() == segments@.take(i as int).filter(f).len(),
            forall|k: int| 0 <= k < out@.len() ==> *(#[trigger] out@[k]) == segments@.take(i as int).filter(f)[k],
        decreases segments@.len() - i,
    {
        proof {
            assert(segments@.take(i + 1).drop_last() =~= segments@.take(i as int));
            segments@.take(i as int).lemma_filter_push(segments@[i as int], f);
            assert(segments@.take(i + 1) =~= segments@.take(i as int).push(segments@[i as int]));
        }
        if str_eq(segments[i].tag.as_str(), tag) {
            out.push(&segments[i]);
        }
        i = i + 1;
    }
    assert(segments@.take(i as int) =~= segments@);
    out
}

/// The first segment with tag `tag` whose element 0 is `qualifier` (an
/// absent element 0 counting as empty).
pub fn find_qualified_segment<'s>(segments: &'s [Segment], tag: &str, qualifier: &str) -> (r: Option<&'s Segment>)
    ensures
        match r {
            Some(s) => exists|i: int| 0 <= i < segments@.len() && segments@[i] == *s && qualified(*s, tag@, qualifier@)
                && forall|k: int| 0 <= k < i ==> !qualified(#[trigger] segments@[k], tag@, qualifier@),
            None => forall|k: int| 0 <= k < segments@.len() ==> !qualified(#[trigger] segments@[k], tag@, qualifier@),
        },
{
    proof { reveal_strlit(""); }
    let mut i: usize = 0;
    while i < segments.len()
        invariant
            i <= segments@.len(),
            ""@.len() == 0,
            forall|k: int| 0 <= k < i ==> !qualified(#[trigger] segments@[k], tag@, qualifier@),
        decreases segments@.len() - i,
    {
        let s = &segments[i];
        if str_eq(s.tag.as_str(), tag) {
            let q = match s.element_str(0) {
                Some(e) => e,
                None => "",
            };
            proof { assert(""@ =~= Seq::<char>::empty()); }
            if str_eq(q, qualifier) {
                assert(qualified(segments@[i as int], tag@, qualifier@));
                return Some(s);
            }
        }
        i = i + 1;
    }
    None
}

/// The segment has tag `tag` and element 0 `qualifier` (absent counting as empty).
pub open spec fn qualified(s: Segment, tag: Seq<char>, qualifier: Seq<char>) -> bool {
    s.tag@ == tag && (match seg_component(s, 0, 0) { Some(v) => v, None => Seq::empty() }) == qualifier
}

// ── message windows ─────────────────────────────────────────────────────────

/// A complete `UNH`..`UNT` message lifted out of an interchange: every
/// segment of it, `UNH` and `UNT` included, with the message type and the
/// association-assigned code read off the `UNH`.
#[derive(Debug)]
pub struct MessageWindow {
    /// The message type: `UNH` element 1, component 0, when present and not empty.
    pub message_type: Option<String>,
    /// The association-assigned code: `UNH` element 1, component 4, when present and not empty.
    pub association_code: Option<String>,
    /// The segments of the window, from `UNH` through `UNT`.
    pub segments: Vec<Segment>,
}

/// An optional string as text.
pub open spec fn opt_string_text(o: Option<String>) -> Option<Seq<char>> {
    match o {
        Some(s) => Some(s@),
        None => None,
    }
}

/// Component `c` of element 1 of the first segment, when that segment is a
/// `UNH` and the component is present and not empty.
pub open spec fn unh_component(segs: Seq<Segment>, c: int) -> Option<Seq<char>> {
    if segs.len() > 0 && is_unh(segs[0].tag@) { non_empty(seg_component(segs[0], 1, c)) } else { None }
}

/// `w` is the window made of `segs`.
pub open spec fn is_window_of(w: MessageWindow, segs: Seq<Segment>) -> bool {
    &&& w.segments@ == segs
    &&& opt_string_text(w.message_type) == unh_component(segs, 0)
    &&& opt_string_text(w.association_code) == unh_component(segs, 4)
}

/// The segments between a leading `UNH` and a trailing `UNT`, either of
/// which may be missing; nothing where they would overlap.
pub open spec fn body_of(segs: Seq<Segment>) -> Seq<Segment> {
    let start: int = if segs.len() > 0 && is_unh(segs[0].tag@) { 1 } else { 0 };
    let end: int = segs.len() - (if segs.len() > 0 && is_unt(segs.last().tag@) { 1int } else { 0int });
    if start <= end { segs.subrange(start, end) } else { Seq::empty() }
}

/// A present string that is not empty, as an owned string.
fn owned_non_empty(o: Option<&str>) -> (r: Option<String>)
    ensures
        opt_string_text(r) == non_empty(opt_str_text(o)),
{
    proof { reveal_strlit(""); }
    match o {
        Some(t) => {
            proof { assert(""@ =~= Seq::<char>::empty()); }
            if str_eq(t, "") {
                None
            } else {
                proof { if t@.len() == 0 { assert(t@ =~= ""@); } }
                Some(own(t))
            }
        },
        None => None,
    }
}

impl MessageWindow {
    /// The window made of `segments`, with the `UNH` details read off its first segment.
    fn from_segments(segments: Vec<Segment>) -> (r: MessageWindow)
        ensures
            is_window_of(r, segments@),
    {
        if segments.len() > 0 && tag_is(segments[0].tag.as_str(), true) {
            let t = segments[0].component_str(1, 0);
            let a = segments[0].component_str(1, 4);
            let message_type = owned_non_empty(t);
            let association_code = owned_non_empty(a);
            MessageWindow { message_type, association_code, segments }
        } else {
            MessageWindow { message_type: None, association_code: None, segments }
        }
    }

    /// The message body: the segments between `UNH` and `UNT`.  A missing
    /// `UNH` or `UNT` is tolerated: what there is comes back.
    pub fn body(&self) -> (r: &[Segment])
        ensures
            r@ == body_of(self.segments@),
    {
        let n = self.segments.len();
        let start: usize = if n > 0 && tag_is(self.segments[0].tag.as_str(), true) { 1 } else { 0 };
        let end: usize = if n > 0 && tag_is(self.segments[n - 1].tag.as_str(), false) { n - 1 } else { n };
        if start <= end {
            vstd::slice::slice_subrange(self.segments.as_slice(), start, end)
        } else {
            let e: &[Segment] = &[];
            proof { assert(e@ =~= Seq::<Segment>::empty()); }
            e
        }
    }
}

/// What one step of grouping yields.
pub enum WindowOutcome {
    /// A window made of these segments.
    Window(Seq<Segment>),
    /// An error from the segment source, passed on.
    Forwarded(EdifactError),
    /// A `UNH` (at this span) while a window was still open.
    Nested(Span),
    /// The input ended with a window open; the offset is the end of its last segment.
    Truncated(usize),
}

/// `r` is what the outcome `o` stands for.
pub open spec fn outcome_is(r: Result<MessageWindow, EdifactError>, o: WindowOutcome) -> bool {
    match o {
        WindowOutcome::Window(segs) => r matches Ok(w) && is_window_of(w, segs),
        WindowOutcome::Forwarded(e) => r == Err::<MessageWindow, EdifactError>(e),
        WindowOutcome::Nested(span) => r matches Err(EdifactError::InvalidSegmentForMessage { tag, message_type, span: at })
            && tag@ == seq!['U', 'N', 'H'] && message_type@ == seq!['E', 'N', 'V', 'E', 'L', 'O', 'P', 'E'] && at == span,
        WindowOutcome::Truncated(offset) => r == Err::<MessageWindow, EdifactError>(EdifactError::UnexpectedEof { offset }),
    }
}

/// Each result is what the outcome at its place stands for.
pub open spec fn results_are(rs: Seq<Result<MessageWindow, EdifactError>>, os: Seq<WindowOutcome>) -> bool {
    rs.len() == os.len() && forall|k: int| 0 <= k < rs.len() ==> outcome_is(#[trigger] rs[k], os[k])
}

/// One step of grouping, from the segments buffered so far and whether a
/// window is open, on the next item of the source (`None` at its end): the
/// new buffer, whether a window is open, whether grouping has ended, and
/// what the step yields.
pub open spec fn window_step(buf: Seq<Segment>, open: bool, item: Option<Result<Segment, EdifactError>>)
    -> (Seq<Segment>, bool, bool, Option<WindowOutcome>)
{
    match item {
        None => if open && buf.len() > 0 {
            (buf, false, true, Some(WindowOutcome::Truncated(buf.last().span.end)))
        } else {
            (buf, open, true, None)
        },
        Some(Err(e)) => (buf, open, true, Some(WindowOutcome::Forwarded(e))),
        Some(Ok(s)) => if is_unh(s.tag@) {
            if open {
                (Seq::empty(), false, true, Some(WindowOutcome::Nested(s.span)))
            } else {
                (seq![s], true, false, None)
            }
        } else if open && is_unt(s.tag@) {
            (Seq::empty(), false, false, Some(WindowOutcome::Window(buf.push(s))))
        } else if open {
            (buf.push(s), true, false, None)
        } else {
            (buf, false, false, None)
        },
    }
}

/// What grouping yields over the segments `segs` followed by `end` (the
/// error that ended the source, or `None` at its end), from the buffer
/// `buf` and whether a window is open.
pub open spec fn windows_from(segs: Seq<Segment>, end: Option<EdifactError>, buf: Seq<Segment>, open: bool) -> Seq<WindowOutcome>
    decreases segs.len(),
{
    if segs.len() == 0 {
        let st = window_step(buf, open, match end { Some(e) => Some(Err(e)), None => None });
        match st.3 { Some(o) => seq![o], None => Seq::empty() }
    } else {
        let st = window_step(buf, open, Some(Ok(segs[0])));
        let here = match st.3 { Some(o) => seq![o], None => Seq::<WindowOutcome>::empty() };
        if st.2 { here } else { here + windows_from(segs.drop_first(), end, st.0, st.1) }
    }
}

/// Groups a stream of segments into `UNH`..`UNT` windows, one item at a
/// time.  Segments outside a window are skipped; a source error is passed
/// on; a `UNH` inside an open window, or the end with a window open, is an
/// error; grouping ends at the first error or at the end.
pub struct MessageWindows {
    buf: Vec<Segment>,
    in_message: bool,
    done: bool,
}

impl MessageWindows {
    /// The segments of the open window so far.
    pub closed spec fn buffered(&self) -> Seq<Segment> {
        self.buf@
    }

    /// Whether a window is open.
    pub closed spec fn is_open(&self) -> bool {
        self.in_message
    }

    /// Whether grouping has ended.
    pub closed spec fn is_done(&self) -> bool {
        self.done
    }

    /// Grouping at its start: nothing buffered, no window open.
    pub fn new() -> (r: MessageWindows)
        ensures
            r.buffered() == Seq::<Segment>::empty(),
            !r.is_open(),
            !r.is_done(),
    {
        MessageWindows { buf: Vec::new(), in_message: false, done: false }
    }

    /// Whether grouping has ended.
    pub fn finished(&self) -> (r: bool)
        ensures
            r == self.is_done(),
    {
        self.done
    }

    /// Takes the next item of the source (`None` at its end) and returns
    /// what it completes, as [`window_step`] says; once grouping has ended,
    /// nothing changes and nothing comes back.
    pub fn feed(&mut self, item: Option<Result<Segment, EdifactError>>) -> (r: Option<Result<MessageWindow, EdifactError>>)
        ensures
            old(self).is_done() ==> r is None && final(self).is_done()
                && final(self).buffered() == old(self).buffered() && final(self).is_open() == old(self).is_open(),
            !old(self).is_done() ==> ({
                let st = window_step(old(self).buffered(), old(self).is_open(), item);
                &&& final(self).buffered() == st.0
                &&& final(self).is_open() == st.1
                &&& final(self).is_done() == st.2
                &&& match st.3 {
                    None => r is None,
                    Some(o) => r matches Some(x) && outcome_is(x, o),
                }
            }),
    {
        if self.done {
            return None;
        }
        match item {
            None => {
                self.done = true;
                if self.in_message && self.buf.len() > 0 {
                    self.in_message = false;
                    let offset = self.buf[self.buf.len() - 1].span.end;
                    return Some(Err(EdifactError::UnexpectedEof { offset }));
                }
                None
            },
            Some(Err(e)) => {
                self.done = true;
                Some(Err(e))
            },
            Some(Ok(segment)) => {
                if tag_is(segment.tag.as_str(), true) {
                    if self.in_message {
                        self.buf = Vec::new();
                        self.in_message = false;
                        self.done = true;
                        let tag = own("UNH");
                        let message_type = own("ENVELOPE");
                        proof {
                            reveal_strlit("UNH");
                            reveal_strlit("ENVELOPE");
                            assert(tag@ =~= seq!['U', 'N', 'H']);
                            assert(message_type@ =~= seq!['E', 'N', 'V', 'E', 'L', 'O', 'P', 'E']);
                            assert(self.buf@ =~= Seq::<Segment>::empty());
                        }
                        return Some(Err(EdifactError::InvalidSegmentForMessage { tag, message_type, span: segment.span }));
                    }
                    let mut fresh: Vec<Segment> = Vec::new();
                    fresh.push(segment);
                    self.buf = fresh;
                    self.in_message = true;
                    proof { assert(self.buf@ =~= seq![segment]); }
                    None
                } else if self.in_message && tag_is(segment.tag.as_str(), false) {
                    let mut segments = Vec::new();
                    std::mem::swap(&mut segments, &mut self.buf);
                    segments.push(segment);
                    self.in_message = false;
                    Some(Ok(MessageWindow::from_segments(segments)))
                } else if self.in_message {
                    self.buf.push(segment);
                    None
                } else {
                    None
                }
            },
        }
    }
}

/// Groups `segments`, then `end` (the error that ended their source, or
/// `None` at its end), into windows, as [`windows_from`] says.
pub fn windows_of_segments(segments: Vec<Segment>, end: Option<EdifactError>) -> (r: Vec<Result<MessageWindow, EdifactError>>)
    ensures
        results_are(r@, windows_from(segments@, end, Seq::empty(), false)),
{
    let ghost all = segments@;
    let n = segments.len();
    let mut rest = segments;
    let mut rev: Vec<Segment> = Vec::new();
    while rest.len() > 0
        invariant
            rest@.len() + rev@.len() == n,
            n == all.len(),
            rest@ == all.take(rest@.len() as int),
            forall|k: int| 0 <= k < rev@.len() ==> #[trigger] rev@[k] == all[n - 1 - k],
        decreases rest@.len(),
    {
        let ghost before = rest@;
        let s = rest.pop().unwrap();
        proof { assert(rest@ =~= all.take(rest@.len() as int)); }
        rev.push(s);
    }
    let mut m = MessageWindows::new();
    let mut out: Vec<Result<MessageWindow, EdifactError>> = Vec::new();
    let ghost mut got: Seq<WindowOutcome> = Seq::empty();
    let ghost total = windows_from(all, end, Seq::empty(), false);
    let mut i: usize = 0;
    assert(all.skip(0) =~= all);
    while i < n
        invariant
            i <= n,
            n == all.len(),
            rev@.len() == n - i,
            forall|k: int| 0 <= k < rev@.len() ==> #[trigger] rev@[k] == all[n - 1 - k],
            !m.is_done(),
            all == segments@,
            results_are(out@, got),
            total == windows_from(all, end, Seq::empty(), false),
            got + windows_from(all.skip(i as int), end, m.buffered(), m.is_open()) == total,
        decreases n - i,
    {
        let s = rev.pop().unwrap();
        let ghost sg = s;
        let ghost t = all.skip(i as int);
        proof {
            assert(sg == all[i as int]);
            assert(t[0] == sg);
            assert(t.drop_first() =~= all.skip(i + 1));
        }
        let ghost b0 = m.buffered();
        let ghost o0 = m.is_open();
        let ghost st = window_step(b0, o0, Some(Ok(sg)));
        let ghost here = match st.3 { Some(o) => seq![o], None => Seq::<WindowOutcome>::empty() };
        let r = m.feed(Some(Ok(s)));
        match r {
            Some(x) => {
                out.push(x);
            },
            None => {},
        }
        proof {
            assert(results_are(out@, got + here));
            assert(windows_from(t, end, b0, o0) == if st.2 { here } else { here + windows_from(t.drop_first(), end, st.0, st.1) });
            if st.2 {
                assert(got + here == total);
            } else {
                assert((got + here) + windows_from(all.skip(i + 1), end, st.0, st.1) =~= got + (here + windows_from(t.drop_first(), end, st.0, st.1)));
            }
            got = got + here;
        }
        if m.finished() {
            assert(results_are(out@, total));
            return out;
        }
        i = i + 1;
    }
    let ghost ge = end;
    let item = match end {
        Some(e) => Some(Err(e)),
        None => None,
    };
    let ghost st = window_step(m.buffered(), m.is_open(), item);
    proof {
        assert(all.skip(i as int).len() == 0);
    }
    let r = m.feed(item);
    match r {
        Some(x) => {
            out.push(x);
        },
        None => {},
    }
    proof {
        let here = match st.3 { Some(o) => seq![o], None => Seq::<WindowOutcome>::empty() };
        assert(results_are(out@, got + here));
        assert(got + here =~= total);
    }
    out
}

/// What reading `input` through with `config` gives: the segments `v`,
/// then `end`, the error that stopped reading (`None` at the end of the
/// input).  A malformed `UNA` stops it before any segment.
pub open spec fn read_through(input: Seq<u8>, config: ReaderConfig, v: Seq<Segment>, end: Option<EdifactError>) -> bool {
    let max = config.max_segment_bytes as int;
    let limited = !unlimited(config);
    match declared_ssa(input) {
        Some(None) => v.len() == 0 && end == Some(EdifactError::InvalidUna),
        Some(Some(d)) => drained(match config.service_string_advice { Some(o) => o, None => d }, input, max, limited, 9, v, end),
        None => drained(match config.service_string_advice { Some(o) => o, None => default_ssa() }, input, max, limited, 0, v, end),
    }
}

/// What reading a stream through gives: the segments `v`, then `end`.
pub open spec fn stream_read_through(v0: StreamView, v: Seq<Segment>, end: Option<EdifactError>) -> bool {
    if v0.done {
        v.len() == 0 && end is None
    } else if v0.pending is Some {
        v.len() == 0 && end == v0.pending
    } else {
        stream_drained(v0, v, end)
    }
}

/// One window per `UNH`..`UNT` pair in `input`, read with the default
/// limits; envelope segments outside a window are skipped, and an error
/// ends the list.
pub fn message_windows(input: &[u8]) -> (r: Vec<Result<MessageWindow, EdifactError>>)
    ensures
        exists|v: Seq<Segment>, end: Option<EdifactError>|
            read_through(input@, ReaderConfig::new_spec(), v, end) && results_are(r@, windows_from(v, end, Seq::empty(), false)),
{
    let it = from_bytes_with_config(input, ReaderConfig::new());
    let (v, end) = it.drain();
    let ghost gv = v@;
    let ghost ge = end;
    proof { assert(read_through(input@, ReaderConfig::new_spec(), gv, ge)); }
    windows_of_segments(v, end)
}

/// One window per `UNH`..`UNT` pair in what a stream reads.
pub fn message_windows_from_stream(stream: OwnedSegmentStream) -> (r: Vec<Result<MessageWindow, EdifactError>>)
    requires
        stream.wf(),
    ensures
        exists|v: Seq<Segment>, end: Option<EdifactError>|
            stream_read_through(stream@, v, end) && results_are(r@, windows_from(v, end, Seq::empty(), false)),
{
    let ghost v0 = stream@;
    let (v, end) = stream.drain();
    let ghost gv = v@;
    let ghost ge = end;
    proof { assert(stream_read_through(v0, gv, ge)); }
    windows_of_segments(v, end)
}

/// Two sequences of segments, alike pair by pair.
pub open spec fn all_alike(a: Seq<Segment>, b: Seq<Segment>) -> bool {
    a.len() == b.len() && forall|k: int| 0 <= k < a.len() ==> reads_alike(#[trigger] a[k], b[k])
}

/// Two outcomes of grouping that agree: windows of alike segments, or the
/// same error.
pub open spec fn outcomes_alike(x: WindowOutcome, y: WindowOutcome) -> bool {
    match (x, y) {
        (WindowOutcome::Window(a), WindowOutcome::Window(b)) => all_alike(a, b),
        (WindowOutcome::Forwarded(a), WindowOutcome::Forwarded(b)) => a == b,
        (WindowOutcome::Nested(a), WindowOutcome::Nested(b)) => a == b,
        (WindowOutcome::Truncated(a), WindowOutcome::Truncated(b)) => a == b,
        _ => false,
    }
}

proof fn lemma_windows_alike(v1: Seq<Segment>, v2: Seq<Segment>, end: Option<EdifactError>, b1: Seq<Segment>, b2: Seq<Segment>, open: bool)
    requires
        all_alike(v1, v2),
        all_alike(b1, b2),
    ensures
        windows_from(v1, end, b1, open).len() == windows_from(v2, end, b2, open).len(),
        forall|k: int| 0 <= k < windows_from(v1, end, b1, open).len() ==>
            outcomes_alike(#[trigger] windows_from(v1, end, b1, open)[k], windows_from(v2, end, b2, open)[k]),
    decreases v1.len(),
{
    if v1.len() == 0 {
        if open && b1.len() > 0 {
            assert(reads_alike(b1[b1.len() - 1], b2[b2.len() - 1]));
        }
    } else {
        let x = v1[0];
        let y = v2[0];
        assert(reads_alike(x, y));
        let s1 = window_step(b1, open, Some(Ok(x)));
        let s2 = window_step(b2, open, Some(Ok(y)));
        assert(all_alike(s1.0, s2.0)) by {
            if open && !is_unh(x.tag@) {
                assert(all_alike(b1.push(x), b2.push(y))) by {
                    assert forall|k: int| 0 <= k < b1.push(x).len() implies reads_alike(#[trigger] b1.push(x)[k], b2.push(y)[k]) by {
                        if k < b1.len() { assert(reads_alike(b1[k], b2[k])); }
                    }
                }
            }
            if !open && is_unh(x.tag@) {
                assert(all_alike(seq![x], seq![y])) by {
                    assert forall|k: int| 0 <= k < 1 implies reads_alike(#[trigger] seq![x][k], seq![y][k]) by {}
                }
            }
        }
        assert(v1.drop_first().len() == v2.drop_first().len());
        assert(all_alike(v1.drop_first(), v2.drop_first())) by {
            assert forall|k: int| 0 <= k < v1.drop_first().len() implies reads_alike(#[trigger] v1.drop_first()[k], v2.drop_first()[k]) by {
                assert(reads_alike(v1[k + 1], v2[k + 1]));
            }
        }
        lemma_windows_alike(v1.drop_first(), v2.drop_first(), end, s1.0, s2.0, s1.1);
        let w1 = windows_from(v1, end, b1, open);
        let w2 = windows_from(v2, end, b2, open);
        let r1 = windows_from(v1.drop_first(), end, s1.0, s1.1);
        let r2 = windows_from(v2.drop_first(), end, s2.0, s2.1);
        match s1.3 {
            Some(o1) => {
                let o2 = s2.3.unwrap();
                assert(outcomes_alike(o1, o2));
                if !s1.2 {
                    assert forall|k: int| 0 <= k < w1.len() implies outcomes_alike(#[trigger] w1[k], w2[k]) by {
                        if k > 0 {
                            assert(w1[k] == r1[k - 1]);
                            assert(w2[k] == r2[k - 1]);
                        }
                    }
                }
            },
            None => {
                if !s1.2 {
                    assert(w1 =~= r1);
                    assert(w2 =~= r2);
                }
            },
        }
    }
}

/// Whether two results of grouping agree: windows with the same message
/// type and association code and alike segments, or the same error (a
/// nested `UNH` by its span).
pub open spec fn results_alike(x: Result<MessageWindow, EdifactError>, y: Result<MessageWindow, EdifactError>) -> bool {
    match (x, y) {
        (Ok(a), Ok(b)) => {
            &&& opt_string_text(a.message_type) == opt_string_text(b.message_type)
            &&& opt_string_text(a.association_code) == opt_string_text(b.association_code)
            &&& all_alike(a.segments@, b.segments@)
            &&& body_of(a.segments@).len() == body_of(b.segments@).len()
        },
        (Err(a), Err(b)) => a == b || (a matches EdifactError::InvalidSegmentForMessage { span: s1, .. }
            && b matches EdifactError::InvalidSegmentForMessage { span: s2, .. } && s1 == s2),
        _ => false,
    }
}

proof fn lemma_results_alike(r1: Seq<Result<MessageWindow, EdifactError>>, r2: Seq<Result<MessageWindow, EdifactError>>,
    o1: Seq<WindowOutcome>, o2: Seq<WindowOutcome>)
    requires
        results_are(r1, o1),
        results_are(r2, o2),
        o1.len() == o2.len(),
        forall|k: int| 0 <= k < o1.len() ==> outcomes_alike(#[trigger] o1[k], o2[k]),
    ensures
        r1.len() == r2.len(),
        forall|k: int| 0 <= k < r1.len() ==> results_alike(#[trigger] r1[k], r2[k]),
{
    assert forall|k: int| 0 <= k < r1.len() implies results_alike(#[trigger] r1[k], r2[k]) by {
        assert(outcome_is(r1[k], o1[k]));
        assert(outcome_is(r2[k], o2[k]));
        assert(outcomes_alike(o1[k], o2[k]));
        if let WindowOutcome::Window(a) = o1[k] {
            let b = o2[k]->Window_0;
            if a.len() > 0 {
                assert(reads_alike(a[0], b[0]));
                assert(reads_alike(a[a.len() - 1], b[b.len() - 1]));
            }
        }
    }
}

/// Grouping what the slice reader and the stream reader read from the same
/// bytes, with the same configuration and no budget (and no read error on
/// the stream's side), gives results that agree one for one.
pub proof fn law_windows_agree(input: Seq<u8>, config: ReaderConfig, sv: StreamView,
    r1: Seq<Result<MessageWindow, EdifactError>>, r2: Seq<Result<MessageWindow, EdifactError>>)
    requires
        unlimited(config),
        sv.input == input,
        sv.config == config,
        sv.trailing is None,
        !sv.done,
        match declared_ssa(input) {
            Some(None) => sv.pending == Some(EdifactError::InvalidUna),
            Some(Some(d)) => sv.pending is None && sv.pos == 9
                && sv.ssa == (match config.service_string_advice { Some(o) => o, None => d }),
            None => sv.pending is None && sv.pos == 0
                && sv.ssa == (match config.service_string_advice { Some(o) => o, None => default_ssa() }),
        },
        exists|v: Seq<Segment>, end: Option<EdifactError>|
            read_through(input, config, v, end) && results_are(r1, windows_from(v, end, Seq::empty(), false)),
        exists|v: Seq<Segment>, end: Option<EdifactError>|
            stream_read_through(sv, v, end) && results_are(r2, windows_from(v, end, Seq::empty(), false)),
    ensures
        r1.len() == r2.len(),
        forall|k: int| 0 <= k < r1.len() ==> results_alike(#[trigger] r1[k], r2[k]),
{
    let (v1, e1) = choose|v: Seq<Segment>, end: Option<EdifactError>|
        read_through(input, config, v, end) && results_are(r1, windows_from(v, end, Seq::empty(), false));
    let (v2, e2) = choose|v: Seq<Segment>, end: Option<EdifactError>|
        stream_read_through(sv, v, end) && results_are(r2, windows_from(v, end, Seq::empty(), false));
    let max = config.max_segment_bytes as int;
    match declared_ssa(input) {
        Some(None) => {
            assert(v1 =~= v2);
        },
        Some(Some(d)) => {
            lemma_drained_agree(sv.ssa, input, max, 9, v1, e1, v2, e2);
        },
        None => {
            lemma_drained_agree(sv.ssa, input, max, 0, v1, e1, v2, e2);
        },
    }
    assert(all_alike(v1, v2));
    assert(all_alike(Seq::<Segment>::empty(), Seq::<Segment>::empty()));
    lemma_windows_alike(v1, v2, e1, Seq::empty(), Seq::empty(), false);
    lemma_results_alike(r1, r2, windows_from(v1, e1, Seq::empty(), false), windows_from(v2, e2, Seq::empty(), false));
}

/// A `UNH` followed by segments that are neither `UNH` nor `UNT`.
pub open spec fn opened(buf: Seq<Segment>) -> bool {
    &&& buf.len() >= 1
    &&& is_unh(buf[0].tag@)
    &&& forall|i: int| 1 <= i < buf.len() ==> !is_unh((#[trigger] buf[i]).tag@) && !is_unt(buf[i].tag@)
}

/// One whole message: a `UNH`, segments that are neither `UNH` nor `UNT`,
/// and a `UNT`.
pub open spec fn is_message(w: Seq<Segment>) -> bool {
    &&& w.len() >= 2
    &&& opened(w.drop_last())
    &&& is_unt(w.last().tag@)
}

proof fn lemma_windows_are_messages(segs: Seq<Segment>, end: Option<EdifactError>, buf: Seq<Segment>, open: bool)
    requires
        open ==> opened(buf),
    ensures
        forall|k: int| 0 <= k < windows_from(segs, end, buf, open).len() ==>
            ((#[trigger] windows_from(segs, end, buf, open)[k]) matches WindowOutcome::Window(w) ==> is_message(w)),
        forall|k: int| 0 <= k < windows_from(segs, end, buf, open).len() - 1 ==>
            (#[trigger] windows_from(segs, end, buf, open)[k]) is Window,
    decreases segs.len(),
{
    if segs.len() > 0 {
        let x = segs[0];
        let st = window_step(buf, open, Some(Ok(x)));
        if open && !is_unh(x.tag@) && !is_unt(x.tag@) {
            assert(opened(buf.push(x))) by {
                assert forall|i: int| 1 <= i < buf.push(x).len() implies
                    !is_unh((#[trigger] buf.push(x)[i]).tag@) && !is_unt(buf.push(x)[i].tag@) by {
                    if i < buf.len() { assert(buf.push(x)[i] == buf[i]); }
                }
            }
        }
        if open && is_unt(x.tag@) && !is_unh(x.tag@) {
            assert(buf.push(x).drop_last() =~= buf);
        }
        if !open && is_unh(x.tag@) {
            assert(opened(seq![x]));
        }
        lemma_windows_are_messages(segs.drop_first(), end, st.0, st.1);
        let w = windows_from(segs, end, buf, open);
        let r = windows_from(segs.drop_first(), end, st.0, st.1);
        if !st.2 {
            match st.3 {
                Some(o) => {
                    assert forall|k: int| 0 <= k < w.len() implies
                        ((#[trigger] w[k]) matches WindowOutcome::Window(m) ==> is_message(m)) by {
                        if k > 0 { assert(w[k] == r[k - 1]); }
                    }
                    assert forall|k: int| 0 <= k < w.len() - 1 implies (#[trigger] w[k]) is Window by {
                        if k > 0 { assert(w[k] == r[k - 1]); }
                    }
                },
                None => {
                    assert(w =~= r);
                },
            }
        }
    }
}

/// What grouping yields: every window is one whole message, from its `UNH`
/// to its `UNT` with neither in between, and only the last result can be
/// an error.
pub proof fn law_windows_are_messages(segs: Seq<Segment>, end: Option<EdifactError>, r: Seq<Result<MessageWindow, EdifactError>>)
    requires
        results_are(r, windows_from(segs, end, Seq::empty(), false)),
    ensures
        forall|k: int| 0 <= k < r.len() ==> ((#[trigger] r[k]) matches Ok(w) ==> is_message(w.segments@)),
        forall|k: int| 0 <= k < r.len() - 1 ==> (#[trigger] r[k]) is Ok,
{
    let o = windows_from(segs, end, Seq::empty(), false);
    lemma_windows_are_messages(segs, end, Seq::empty(), false);
    assert forall|k: int| 0 <= k < r.len() implies ((#[trigger] r[k]) matches Ok(w) ==> is_message(w.segments@)) by {
        assert(outcome_is(r[k], o[k]));
        assert(o[k] matches WindowOutcome::Window(m) ==> is_message(m));
    }
    assert forall|k: int| 0 <= k < r.len() - 1 implies (#[trigger] r[k]) is Ok by {
        assert(outcome_is(r[k], o[k]));
        assert(o[k] is Window);
    }
}

} // verus!
