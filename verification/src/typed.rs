//! Typed reading: values that build themselves from segments, the segment
//! tag (and qualifier pattern) a type maps to, and the lookups built on it.

use vstd::prelude::*;

use crate::de::{pattern_matches, qualifier_matches_pattern};
use crate::error::EdifactError;
use crate::model::{component_items, opt_str_text, seg_component, texts, Element, Segment};
use crate::parser::{parse_segments, parsed_from, ReaderConfig};
use crate::text::str_eq;
use vstd::utf8::encode_utf8;

verus! {

/// A value that builds itself from a slice of segments.  The slice may hold
/// any number of segments; an implementation picks the ones it needs.
pub trait EdifactDeserialize: Sized {
    /// Builds the value from `segments`.
    fn edifact_deserialize(segments: &[Segment]) -> Result<Self, EdifactError>;
}

/// A value that builds itself from one composite element.
pub trait EdifactCompositeDeserialize: Sized {
    /// Builds the value from the components of `composite`.
    fn edifact_deserialize_composite(composite: CompositeElement) -> Result<Self, EdifactError>;
}

/// The segment tag a type maps to, and the pattern its qualifier (element 0)
/// must match, if any.
pub trait EdifactSegmentTag {
    /// The three-letter segment tag, such as `"BGM"`.
    fn segment_tag() -> &'static str;

    /// The pattern the qualifier must match, exactly or with `*` wildcards
    /// (see [`qualifier_matches_pattern`]); `None` admits every qualifier.
    fn qualifier_pattern() -> Option<&'static str> {
        None
    }

    /// Whether `seg`'s qualifier matches this type's pattern.
    fn matches_qualifier(seg: &Segment) -> bool {
        match Self::qualifier_pattern() {
            Some(p) => qualifier_matches_pattern(qualifier_str(seg), p),
            None => true,
        }
    }

    /// Whether `seg` is a segment this type maps to: its tag, and its
    /// qualifier where a pattern is declared.
    fn matches_segment(seg: &Segment) -> bool {
        str_eq(seg.tag.as_str(), Self::segment_tag()) && Self::matches_qualifier(seg)
    }
}

/// The qualifier of a segment: element 0, empty where it is absent.
pub open spec fn qualifier_of(s: Segment) -> Seq<char> {
    match seg_component(s, 0, 0) {
        Some(v) => v,
        None => Seq::empty(),
    }
}

/// The qualifier of `seg`: element 0, or `""` where it is absent.
pub fn qualifier_str(seg: &Segment) -> (r: &str)
    ensures
        r@ == qualifier_of(*seg),
{
    proof { reveal_strlit(""); assert(""@ =~= Seq::<char>::empty()); }
    match seg.element_str(0) {
        Some(q) => q,
        None => "",
    }
}

/// Whether `s` has tag `tag` and, where a pattern is given, a qualifier that
/// matches it.
pub open spec fn segment_matches(s: Segment, tag: Seq<char>, pattern: Option<Seq<char>>) -> bool {
    &&& s.tag@ == tag
    &&& match pattern {
        Some(p) => pattern_matches(qualifier_of(s), p),
        None => true,
    }
}

/// Whether `seg` has tag `tag` and, where a pattern is given, a qualifier
/// that matches it.
pub fn matches_tag_and_pattern(seg: &Segment, tag: &str, pattern: Option<&str>) -> (r: bool)
    ensures
        r == segment_matches(*seg, tag@, opt_str_text(pattern)),
{
    if !str_eq(seg.tag.as_str(), tag) {
        return false;
    }
    match pattern {
        Some(p) => qualifier_matches_pattern(qualifier_str(seg), p),
        None => true,
    }
}

// ── picking and grouping by a per-segment verdict ──────────────────────────

/// The segments of `s` whose verdict in `keep` is `true`, in order.
pub open spec fn picked(s: Seq<Segment>, keep: Seq<bool>) -> Seq<Segment>
    decreases s.len(),
{
    if s.len() == 0 || keep.len() != s.len() {
        Seq::empty()
    } else {
        let rest = picked(s.drop_last(), keep.drop_last());
        if keep.last() { rest.push(s.last()) } else { rest }
    }
}

/// The maximal runs of `true` in `m`, in order, each as a start and an end
/// (exclusive).
pub open spec fn runs(m: Seq<bool>) -> Seq<(int, int)>
    decreases m.len(),
{
    if m.len() == 0 {
        Seq::empty()
    } else {
        let r = runs(m.drop_last());
        let i = m.len() - 1;
        if !m.last() {
            r
        } else if i > 0 && m[i - 1] && r.len() > 0 {
            r.update(r.len() - 1, (r.last().0, i + 1))
        } else {
            r.push((i, i + 1))
        }
    }
}

proof fn lemma_runs_last(m: Seq<bool>)
    requires
        m.len() > 0,
        m.last(),
    ensures
        runs(m).len() > 0,
        runs(m).last().1 == m.len(),
{
}

proof fn lemma_runs_bounded(m: Seq<bool>)
    ensures
        forall|k: int| 0 <= k < runs(m).len() ==> 0 <= (#[trigger] runs(m)[k]).0 < runs(m)[k].1 <= m.len(),
    decreases m.len(),
{
    if m.len() > 0 {
        lemma_runs_bounded(m.drop_last());
        let r = runs(m.drop_last());
        let i = m.len() - 1;
        if m.last() && i > 0 && m[i - 1] && r.len() > 0 {
            assert(r.last().0 < r.last().1);
        }
    }
}

fn pick<'s>(segments: &'s [Segment], keep: &Vec<bool>) -> (r: Vec<&'s Segment>)
    requires
        keep@.len() == segments@.len(),
    ensures
        r@.len() == picked(segments@, keep@).len(),
        forall|k: int| 0 <= k < r@.len() ==> *(#[trigger] r@[k]) == picked(segments@, keep@)[k],
{
    let mut out: Vec<&'s Segment> = Vec::new();
    let mut i: usize = 0;
    while i < segments.len()
        invariant
            i <= segments@.len(),
            keep@.len() == segments@.len(),
            out@.len() == picked(segments@.take(i as int), keep@.take(i as int)).len(),
            forall|k: int| 0 <= k < out@.len() ==> *(#[trigger] out@[k]) == picked(segments@.take(i as int), keep@.take(i as int))[k],
        decreases segments@.len() - i,
    {
        proof {
            assert(segments@.take(i + 1).drop_last() =~= segments@.take(i as int));
            assert(keep@.take(i + 1).drop_last() =~= keep@.take(i as int));
        }
        if keep[i] {
            out.push(&segments[i]);
        }
        i = i + 1;
    }
    proof {
        assert(segments@.take(i as int) =~= segments@);
        assert(keep@.take(i as int) =~= keep@);
    }
    out
}

fn run_slices<'s>(segments: &'s [Segment], keep: &Vec<bool>) -> (r: Vec<&'s [Segment]>)
    requires
        keep@.len() == segments@.len(),
    ensures
        r@.len() == runs(keep@).len(),
        forall|k: int| 0 <= k < r@.len() ==>
            (#[trigger] r@[k])@ == segments@.subrange(runs(keep@)[k].0, runs(keep@)[k].1),
{
    let mut bounds: Vec<(usize, usize)> = Vec::new();
    let mut i: usize = 0;
    while i < keep.len()
        invariant
            i <= keep@.len(),
            keep@.len() == segments@.len(),
            bounds@.len() == runs(keep@.take(i as int)).len(),
            forall|k: int| 0 <= k < bounds@.len() ==> (#[trigger] bounds@[k]).0 == runs(keep@.take(i as int))[k].0
                && bounds@[k].1 == runs(keep@.take(i as int))[k].1,
        decreases keep@.len() - i,
    {
        let ghost m = keep@.take(i + 1);
        proof {
            assert(m.drop_last() =~= keep@.take(i as int));
            if i > 0 && keep@[i - 1] {
                assert(keep@.take(i as int).last() == keep@[i - 1]);
                lemma_runs_last(keep@.take(i as int));
            }
        }
        if keep[i] {
            if i > 0 && keep[i - 1] && bounds.len() > 0 {
                let n = bounds.len();
                let start = bounds[n - 1].0;
                bounds.set(n - 1, (start, i + 1));
            } else {
                bounds.push((i, i + 1));
            }
        }
        i = i + 1;
    }
    proof {
        assert(keep@.take(i as int) =~= keep@);
        lemma_runs_bounded(keep@);
    }
    let mut out: Vec<&'s [Segment]> = Vec::new();
    let mut k: usize = 0;
    while k < bounds.len()
        invariant
            k <= bounds@.len(),
            keep@.len() == segments@.len(),
            bounds@.len() == runs(keep@).len(),
            forall|j: int| 0 <= j < bounds@.len() ==> (#[trigger] bounds@[j]).0 == runs(keep@)[j].0
                && bounds@[j].1 == runs(keep@)[j].1,
            forall|j: int| 0 <= j < runs(keep@).len() ==> 0 <= (#[trigger] runs(keep@)[j]).0 < runs(keep@)[j].1 <= keep@.len(),
            out@.len() == k,
            forall|j: int| 0 <= j < k ==> (#[trigger] out@[j])@ == segments@.subrange(runs(keep@)[j].0, runs(keep@)[j].1),
        decreases bounds@.len() - k,
    {
        let (a, b) = bounds[k];
        proof { assert(runs(keep@)[k as int].0 == a && runs(keep@)[k as int].1 == b); }
        out.push(vstd::slice::slice_subrange(segments, a, b));
        k = k + 1;
    }
    out
}

/// The verdict of `matches_tag_and_pattern` on each segment.
pub open spec fn tag_verdicts(s: Seq<Segment>, tag: Seq<char>, pattern: Option<Seq<char>>) -> Seq<bool> {
    Seq::new(s.len(), |i: int| segment_matches(s[i], tag, pattern))
}

fn verdicts(segments: &[Segment], tag: &str, pattern: Option<&str>) -> (r: Vec<bool>)
    ensures
        r@ == tag_verdicts(segments@, tag@, opt_str_text(pattern)),
{
    let mut out: Vec<bool> = Vec::new();
    let mut i: usize = 0;
    while i < segments.len()
        invariant
            i <= segments@.len(),
            out@ == tag_verdicts(segments@, tag@, opt_str_text(pattern)).take(i as int),
        decreases segments@.len() - i,
    {
        let v = matches_tag_and_pattern(&segments[i], tag, pattern);
        out.push(v);
        proof {
            assert(out@ =~= tag_verdicts(segments@, tag@, opt_str_text(pattern)).take(i + 1));
        }
        i = i + 1;
    }
    proof { assert(out@ =~= tag_verdicts(segments@, tag@, opt_str_text(pattern))); }
    out
}

/// The segments with tag `tag` whose qualifier matches `pattern` (every
/// qualifier, where none is given), in order.
pub fn find_segments_matching<'s>(segments: &'s [Segment], tag: &str, pattern: Option<&str>) -> (r: Vec<&'s Segment>)
    ensures
        r@.len() == picked(segments@, tag_verdicts(segments@, tag@, opt_str_text(pattern))).len(),
        forall|k: int| 0 <= k < r@.len() ==>
            *(#[trigger] r@[k]) == picked(segments@, tag_verdicts(segments@, tag@, opt_str_text(pattern)))[k],
{
    let keep = verdicts(segments, tag, pattern);
    pick(segments, &keep)
}

/// The uninterrupted runs of segments with tag `tag` whose qualifier
/// matches `pattern`, in order; each run is as long as it can be.
pub fn contiguous_runs<'s>(segments: &'s [Segment], tag: &str, pattern: Option<&str>) -> (r: Vec<&'s [Segment]>)
    ensures
        ({
            let m = tag_verdicts(segments@, tag@, opt_str_text(pattern));
            &&& r@.len() == runs(m).len()
            &&& forall|k: int| 0 <= k < r@.len() ==> (#[trigger] r@[k])@ == segments@.subrange(runs(m)[k].0, runs(m)[k].1)
        }),
{
    let keep = verdicts(segments, tag, pattern);
    run_slices(segments, &keep)
}

fn type_verdicts<T: EdifactSegmentTag>(segments: &[Segment]) -> (r: Vec<bool>)
    ensures
        r@.len() == segments@.len(),
{
    let mut out: Vec<bool> = Vec::new();
    let mut i: usize = 0;
    while i < segments.len()
        invariant
            i <= segments@.len(),
            out@.len() == i,
        decreases segments@.len() - i,
    {
        out.push(T::matches_segment(&segments[i]));
        i = i + 1;
    }
    out
}

/// Every segment the type `T` maps to, in order.  Which ones those are is
/// `T`'s to say (through [`EdifactSegmentTag::matches_segment`]); what comes
/// back is those segments, in the order they stand.
pub fn find_segments_typed<'s, T: EdifactSegmentTag>(segments: &'s [Segment]) -> (r: Vec<&'s Segment>)
    ensures
        exists|keep: Seq<bool>| #![trigger picked(segments@, keep)]
            keep.len() == segments@.len()
            && r@.len() == picked(segments@, keep).len()
            && forall|k: int| 0 <= k < r@.len() ==> *(#[trigger] r@[k]) == picked(segments@, keep)[k],
{
    let keep = type_verdicts::<T>(segments);
    let r = pick(segments, &keep);
    proof { assert(keep@.len() == segments@.len()); let _ = picked(segments@, keep@); }
    r
}

/// The uninterrupted runs of segments that `T` maps to, in order, each as
/// long as it can be: the shape a repeating segment group has on the wire.
pub fn contiguous_groups<'s, T: EdifactSegmentTag>(segments: &'s [Segment]) -> (r: Vec<&'s [Segment]>)
    ensures
        exists|keep: Seq<bool>| #![trigger runs(keep)]
            keep.len() == segments@.len()
            && r@.len() == runs(keep).len()
            && forall|k: int| 0 <= k < r@.len() ==> (#[trigger] r@[k])@ == segments@.subrange(runs(keep)[k].0, runs(keep)[k].1),
{
    let keep = type_verdicts::<T>(segments);
    let r = run_slices(segments, &keep);
    proof { let _ = runs(keep@); }
    r
}

// ── entry points ────────────────────────────────────────────────────────────

/// A value of type `T` read from EDIFACT bytes: every segment is parsed with
/// the default limits, and `T` is built from all of them.  A parse error is
/// returned as it is; otherwise `T` decides.
pub fn deserialize<T: EdifactDeserialize>(input: &[u8]) -> (r: Result<T, EdifactError>)
    ensures
        forall|p: Result<Vec<Segment>, EdifactError>| #[trigger] parsed_from(input@, ReaderConfig::new_spec(), p) && p is Err ==>
            (r matches Err(e) && parsed_from(input@, ReaderConfig::new_spec(), Err(e))),
{
    match parse_segments(input, ReaderConfig::new()) {
        Ok(segments) => {
            let ghost v = segments;
            proof { lemma_parse_kind(input@, Ok(v)); }
            T::edifact_deserialize(segments.as_slice())
        },
        Err(e) => Err(e),
    }
}

proof fn lemma_parse_kind(input: Seq<u8>, ok: Result<Vec<Segment>, EdifactError>)
    requires
        ok is Ok,
        parsed_from(input, ReaderConfig::new_spec(), ok),
    ensures
        forall|p: Result<Vec<Segment>, EdifactError>| #[trigger] parsed_from(input, ReaderConfig::new_spec(), p) ==> p is Ok,
{
    assert forall|p: Result<Vec<Segment>, EdifactError>| #[trigger] parsed_from(input, ReaderConfig::new_spec(), p) implies p is Ok by {
        if let (Ok(v), Err(e)) = (ok, p) {
            let max = ReaderConfig::new_spec().max_segment_bytes as int;
            match crate::syntax::declared_ssa(input) {
                Some(None) => {},
                Some(Some(d)) => { crate::parser::law_readers_agree(d, input, max, 9, ok, p); },
                None => { crate::parser::law_readers_agree(crate::syntax::default_ssa(), input, max, 0, ok, p); },
            }
        }
    }
}

/// A value of type `T` read from EDIFACT text, as [`deserialize`] reads its bytes.
pub fn deserialize_str<T: EdifactDeserialize>(input: &str) -> (r: Result<T, EdifactError>)
    ensures
        forall|p: Result<Vec<Segment>, EdifactError>| #[trigger] parsed_from(encode_utf8(input@), ReaderConfig::new_spec(), p) && p is Err ==>
            (r matches Err(e) && parsed_from(encode_utf8(input@), ReaderConfig::new_spec(), Err(e))),
{
    deserialize(input.as_bytes())
}

/// Every segment of `input` that `T` maps to, each read as a `T` on its own,
/// in order; a parse error ends the list.  Which segments `T` maps to is
/// `T`'s to say; the rest are skipped.
pub fn deserialize_each<T: EdifactDeserialize + EdifactSegmentTag>(input: &[u8]) -> (r: Vec<Result<T, EdifactError>>)
    ensures
        exists|v: Seq<Segment>, end: Option<EdifactError>, keep: Seq<bool>|
            crate::de::read_through(input@, ReaderConfig::new_spec(), v, end) && keep.len() == v.len()
            && r@.len() == picked(v, keep).len() + (if end is Some { 1int } else { 0int })
            && (end matches Some(e) ==> r@.last() == Err::<T, EdifactError>(e)),
{
    let it = crate::parser::from_bytes_with_config(input, ReaderConfig::new());
    let (segments, end) = it.drain();
    let ghost gv = segments@;
    let ghost ge = end;
    let keep = type_verdicts::<T>(segments.as_slice());
    let mut out: Vec<Result<T, EdifactError>> = Vec::new();
    let mut i: usize = 0;
    while i < segments.len()
        invariant
            i <= segments@.len(),
            keep@.len() == segments@.len(),
            out@.len() == picked(segments@.take(i as int), keep@.take(i as int)).len(),
        decreases segments@.len() - i,
    {
        proof {
            assert(segments@.take(i + 1).drop_last() =~= segments@.take(i as int));
            assert(keep@.take(i + 1).drop_last() =~= keep@.take(i as int));
        }
        if keep[i] {
            let one = vstd::slice::slice_subrange(segments.as_slice(), i, i + 1);
            out.push(T::edifact_deserialize(one));
        }
        i = i + 1;
    }
    proof {
        assert(segments@.take(i as int) =~= segments@);
        assert(keep@.take(i as int) =~= keep@);
        assert(crate::de::read_through(input@, ReaderConfig::new_spec(), gv, ge));
    }
    match end {
        Some(e) => out.push(Err(e)),
        None => {},
    }
    proof { let _ = picked(gv, keep@); }
    out
}

/// One `T` per `UNH`..`UNT` message of `input`, each built from the whole
/// window (`UNH` and `UNT` included), in order; an error of the grouping is
/// passed on in its place.  What a window gives is `T`'s to say.
pub fn deserialize_messages<T: EdifactDeserialize>(input: &[u8]) -> (r: Vec<Result<T, EdifactError>>)
    ensures
        exists|v: Seq<Segment>, end: Option<EdifactError>|
            crate::de::read_through(input@, ReaderConfig::new_spec(), v, end)
            && r@.len() == crate::de::windows_from(v, end, Seq::empty(), false).len()
            && forall|k: int| 0 <= k < r@.len() ==>
                ((#[trigger] crate::de::windows_from(v, end, Seq::empty(), false)[k]) is Window
                    || (r@[k] matches Err(e)
                        && crate::de::outcome_is(Err(e), crate::de::windows_from(v, end, Seq::empty(), false)[k]))),
{
    let windows = crate::de::message_windows(input);
    let ghost ws = windows@;
    let n = windows.len();
    let mut rest = windows;
    let mut rev: Vec<Result<crate::de::MessageWindow, EdifactError>> = Vec::new();
    while rest.len() > 0
        invariant
            rest@.len() + rev@.len() == n,
            n == ws.len(),
            rest@ == ws.take(rest@.len() as int),
            forall|k: int| 0 <= k < rev@.len() ==> #[trigger] rev@[k] == ws[n - 1 - k],
        decreases rest@.len(),
    {
        let x = rest.pop().unwrap();
        proof { assert(rest@ =~= ws.take(rest@.len() as int)); }
        rev.push(x);
    }
    let mut out: Vec<Result<T, EdifactError>> = Vec::new();
    let mut i: usize = 0;
    while i < n
        invariant
            i <= n,
            n == ws.len(),
            rev@.len() == n - i,
            forall|k: int| 0 <= k < rev@.len() ==> #[trigger] rev@[k] == ws[n - 1 - k],
            out@.len() == i,
            forall|k: int| 0 <= k < i ==> (#[trigger] ws[k] matches Err(e) ==> out@[k] == Err::<T, EdifactError>(e)),
        decreases n - i,
    {
        let x = rev.pop().unwrap();
        proof { assert(x == ws[i as int]); }
        match x {
            Ok(w) => out.push(T::edifact_deserialize(w.segments.as_slice())),
            Err(e) => out.push(Err(e)),
        }
        i = i + 1;
    }
    proof {
        let (v, end) = choose|v: Seq<Segment>, end: Option<EdifactError>|
            crate::de::read_through(input@, ReaderConfig::new_spec(), v, end)
            && crate::de::results_are(ws, crate::de::windows_from(v, end, Seq::empty(), false));
        let os = crate::de::windows_from(v, end, Seq::empty(), false);
        assert forall|k: int| 0 <= k < out@.len() implies
            ((#[trigger] os[k]) is Window
                || (out@[k] matches Err(e) && crate::de::outcome_is(Err(e), os[k]))) by {
            assert(crate::de::outcome_is(ws[k], os[k]));
        }
    }
    out
}

// ── composite elements ──────────────────────────────────────────────────────

/// A composite data element, flattened to its component strings (those of
/// its first occurrence).
pub struct CompositeElement<'a> {
    components: Vec<&'a str>,
}

impl<'a> CompositeElement<'a> {
    /// The texts of the components, in order.
    pub closed spec fn texts(&self) -> Seq<Seq<char>> {
        self.components@.map_values(|s: &str| s@)
    }

    /// A composite over the given component values.
    pub fn from_slice(components: &'a [String]) -> (r: CompositeElement<'a>)
        ensures
            r.texts() == components@.map_values(|s: String| s@),
    {
        let mut out: Vec<&'a str> = Vec::new();
        let mut i: usize = 0;
        while i < components.len()
            invariant
                i <= components@.len(),
                out@.len() == i,
                forall|j: int| 0 <= j < i ==> (#[trigger] out@[j])@ == components@[j]@,
            decreases components@.len() - i,
        {
            out.push(components[i].as_str());
            i = i + 1;
        }
        proof { assert(out@.map_values(|s: &str| s@) =~= components@.map_values(|s: String| s@)); }
        CompositeElement { components: out }
    }

    /// Component `i`, if there is one.
    pub fn get(&self, i: usize) -> (r: Option<&'a str>)
        ensures
            match r {
                Some(s) => i < self.texts().len() && s@ == self.texts()[i as int],
                None => i >= self.texts().len(),
            },
    {
        if i < self.components.len() { Some(self.components[i]) } else { None }
    }

    /// Component `i`, or `""` where there is none.
    pub fn get_or_empty(&self, i: usize) -> (r: &'a str)
        ensures
            r@ == (if i < self.texts().len() { self.texts()[i as int] } else { Seq::empty() }),
    {
        proof { reveal_strlit(""); assert(""@ =~= Seq::<char>::empty()); }
        match self.get(i) {
            Some(s) => s,
            None => "",
        }
    }

    /// The number of components.
    pub fn len(&self) -> (r: usize)
        ensures
            r == self.texts().len(),
    {
        self.components.len()
    }

    /// Whether there are no components.
    pub fn is_empty(&self) -> (r: bool)
        ensures
            r == (self.texts().len() == 0),
    {
        self.components.len() == 0
    }

    /// The components, in order.
    pub fn iter(&self) -> (r: Vec<&'a str>)
        ensures
            r@.map_values(|s: &str| s@) == self.texts(),
    {
        let mut out: Vec<&'a str> = Vec::new();
        let mut i: usize = 0;
        while i < self.components.len()
            invariant
                i <= self.components@.len(),
                out@ == self.components@.take(i as int),
            decreases self.components@.len() - i,
        {
            out.push(self.components[i]);
            proof { assert(out@ =~= self.components@.take(i + 1)); }
            i = i + 1;
        }
        proof { assert(out@ =~= self.components@); }
        out
    }
}

impl EdifactCompositeDeserialize for Vec<String> {
    /// Every component, as owned strings, in order.
    fn edifact_deserialize_composite(composite: CompositeElement) -> (r: Result<Vec<String>, EdifactError>)
        ensures
            r matches Ok(v) && v@.map_values(|s: String| s@) == composite.texts(),
    {
        let items = composite.iter();
        let mut out: Vec<String> = Vec::new();
        let mut i: usize = 0;
        while i < items.len()
            invariant
                i <= items@.len(),
                items@.map_values(|s: &str| s@) == composite.texts(),
                out@.len() == i,
                forall|j: int| 0 <= j < i ==> (#[trigger] out@[j])@ == items@[j]@,
            decreases items@.len() - i,
        {
            out.push(crate::text::own(items[i]));
            i = i + 1;
        }
        proof {
            assert forall|j: int| 0 <= j < out@.len() implies out@.map_values(|s: String| s@)[j] == composite.texts()[j] by {
                assert(items@.map_values(|s: &str| s@)[j] == items@[j]@);
            }
            assert(out@.map_values(|s: String| s@) =~= composite.texts());
        }
        Ok(out)
    }
}

/// Element `idx` of `seg` as a composite, if the segment has that element.
pub fn composite_element<'a>(seg: &'a Segment, idx: usize) -> (r: Option<CompositeElement<'a>>)
    ensures
        match r {
            Some(c) => idx < seg.elements@.len() && c.texts() == texts(component_items(seg.elements@[idx as int].components)),
            None => idx >= seg.elements@.len(),
        },
{
    match seg.get_element(idx) {
        Some(e) => Some(CompositeElement { components: e.components() }),
        None => None,
    }
}

} // verus!
