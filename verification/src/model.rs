//! The EDIFACT data model: [`Span`], [`Element`] and [`Segment`].
//!
//! Segments own their text, so one segment type serves both the byte-slice
//! parser and the streaming reader; [`OwnedSegment`] names the same type.

use vstd::prelude::*;
use smallvec::SmallVec;

use crate::error::EdifactError;
use crate::directory_validator::{code_hits, first_path, resolved, ElemSpec, ElementPath, SegmentLayout};
use crate::text::{decimal, decimal_string, own, str_eq, string_push_str};

verus! {

/// A half-open byte range `[start, end)` in the source.
#[derive(Debug, Clone, Copy, PartialEq, Eq, Structural, Hash, Default)]
pub struct Span {
    /// First byte of the range.
    pub start: usize,
    /// One past the last byte of the range.
    pub end: usize,
}

/// A span as text: `start..end`.
pub open spec fn span_text(s: Span) -> Seq<char> {
    decimal(s.start as nat) + ".."@ + decimal(s.end as nat)
}

/// `a + b`, or `usize::MAX` where the sum does not fit.
pub open spec fn saturating_add_spec(a: usize, b: usize) -> usize {
    if a + b > usize::MAX { usize::MAX } else { (a + b) as usize }
}

impl Span {
    /// A span from `start` to `end`.
    pub fn new(start: usize, end: usize) -> (r: Span)
        ensures
            r == (Span { start, end }),
    {
        Span { start, end }
    }

    /// `start..end`.
    pub fn to_string(self) -> (r: String)
        ensures
            r@ == span_text(self),
    {
        let mut out = decimal_string(self.start as u128);
        string_push_str(&mut out, "..");
        let end = decimal_string(self.end as u128);
        string_push_str(&mut out, end.as_str());
        out
    }

    /// This span moved right by `delta` bytes, saturating at `usize::MAX`.
    pub fn offset(self, delta: usize) -> (r: Span)
        ensures
            r.start == saturating_add_spec(self.start, delta),
            r.end == saturating_add_spec(self.end, delta),
    {
        Span { start: self.start.saturating_add(delta), end: self.end.saturating_add(delta) }
    }

    /// The number of bytes covered, or 0 for an inverted span.
    pub fn len(self) -> (r: usize)
        ensures
            r == (if self.end >= self.start { (self.end - self.start) as usize } else { 0usize }),
    {
        self.end.saturating_sub(self.start)
    }

    /// Whether the span covers no byte.
    pub fn is_empty(self) -> (r: bool)
        ensures
            r == (self.start == self.end),
    {
        self.start == self.end
    }
}

/// The components of one occurrence of a data element, each with its span.
#[verifier::external_body]
#[derive(Debug, PartialEq, Eq)]
pub struct Components {
    inner: SmallVec<[(String, Span); 4]>,
}

/// What a [`Components`] value holds, in order.
pub uninterp spec fn component_items(c: Components) -> Seq<(String, Span)>;

impl Components {
    /// An empty list (`SmallVec::new`).
    #[verifier::external_body]
    pub fn new() -> (r: Components)
        ensures
            component_items(r) == Seq::<(String, Span)>::empty(),
    {
        Components { inner: SmallVec::new() }
    }

    /// Appends one component (`SmallVec::push`).
    #[verifier::external_body]
    pub fn push(&mut self, item: (String, Span))
        ensures
            component_items(*final(self)) == component_items(*old(self)).push(item),
    {
        self.inner.push(item)
    }

    /// The list built from `v`, in the same order (`SmallVec::from_vec`).
    #[verifier::external_body]
    pub fn from_vec(v: Vec<(String, Span)>) -> (r: Components)
        ensures
            component_items(r) == v@,
    {
        Components { inner: SmallVec::from_vec(v) }
    }

    /// The components as a slice (`SmallVec::as_slice`).
    #[verifier::external_body]
    pub fn as_slice(&self) -> (r: &[(String, Span)])
        ensures
            r@ == component_items(*self),
    {
        self.inner.as_slice()
    }

    /// A copy holding the same components (`SmallVec::clone`).
    #[verifier::external_body]
    pub fn duplicate(&self) -> (r: Components)
        ensures
            component_items(r) == component_items(*self),
    {
        Components { inner: self.inner.clone() }
    }

    /// The number of components.
    pub fn len(&self) -> (r: usize)
        ensures
            r == component_items(*self).len(),
    {
        self.as_slice().len()
    }
}

impl Clone for Components {
    fn clone(&self) -> (r: Self)
        ensures
            component_items(r) == component_items(*self),
    {
        self.duplicate()
    }
}

/// The texts of a component list.
pub open spec fn texts(items: Seq<(String, Span)>) -> Seq<Seq<char>> {
    items.map_values(|p: (String, Span)| p.0@)
}

/// One data element: its first occurrence and any repetitions.
#[derive(Debug, PartialEq, Eq)]
#[non_exhaustive]
pub struct Element {
    /// Byte range of the element in the source.
    pub span: Span,
    /// Components of the first occurrence.
    pub components: Components,
    /// Components of each further occurrence, in order.
    pub repeats: Vec<Components>,
}

/// The owned form of an element (the same type).
pub type OwnedElement = Element;

/// The components of every occurrence of an element, first occurrence first.
pub open spec fn occurrences(e: Element) -> Seq<Seq<(String, Span)>> {
    seq![component_items(e.components)] + e.repeats@.map_values(|c: Components| component_items(c))
}

/// The text of component `n` of an element's first occurrence, if it exists.
pub open spec fn component_text(e: Element, n: int) -> Option<Seq<char>> {
    if 0 <= n < component_items(e.components).len() {
        Some(component_items(e.components)[n].0@)
    } else {
        None
    }
}

/// Two elements with the same span and the same components in every occurrence.
pub open spec fn same_element(a: Element, b: Element) -> bool {
    a.span == b.span && occurrences(a) == occurrences(b)
}

fn components_from_strs(values: &[&str]) -> (r: Components)
    ensures
        component_items(r).len() == values@.len(),
        forall|i: int| 0 <= i < values@.len() ==>
            (#[trigger] component_items(r)[i]).0@ == values@[i]@
            && component_items(r)[i].1 == Span::new_spec(0, 0),
{
    let mut v: Vec<(String, Span)> = Vec::new();
    let mut i: usize = 0;
    while i < values.len()
        invariant
            i <= values@.len(),
            v@.len() == i,
            forall|j: int| 0 <= j < i ==>
                (#[trigger] v@[j]).0@ == values@[j]@ && v@[j].1 == Span::new_spec(0, 0),
        decreases values@.len() - i,
    {
        v.push((own(values[i]), Span { start: 0, end: 0 }));
        i = i + 1;
    }
    Components::from_vec(v)
}

impl Span {
    /// The span `[start, end)` as a spec value.
    pub open spec fn new_spec(start: usize, end: usize) -> Span {
        Span { start, end }
    }
}

fn clone_occurrences(reps: &Vec<Components>) -> (r: Vec<Components>)
    ensures
        r@.len() == reps@.len(),
        forall|i: int| 0 <= i < reps@.len() ==> component_items(#[trigger] r@[i]) == component_items(reps@[i]),
{
    let mut out: Vec<Components> = Vec::new();
    let mut i: usize = 0;
    while i < reps.len()
        invariant
            i <= reps@.len(),
            out@.len() == i,
            forall|j: int| 0 <= j < i ==> component_items(#[trigger] out@[j]) == component_items(reps@[j]),
        decreases reps@.len() - i,
    {
        out.push(reps[i].duplicate());
        i = i + 1;
    }
    out
}

impl Clone for Element {
    fn clone(&self) -> (r: Self)
        ensures
            same_element(r, *self),
    {
        let r = Element { span: self.span, components: self.components.duplicate(), repeats: clone_occurrences(&self.repeats) };
        assert(occurrences(r) =~= occurrences(*self));
        r
    }
}

impl Element {
    /// An element whose single occurrence holds `components`, with empty spans.
    pub fn of(components: &[&str]) -> (r: Element)
        ensures
            r.span == Span::new_spec(0, 0),
            r.repeats@.len() == 0,
            texts(component_items(r.components)) == components@.map_values(|s: &str| s@),
    {
        let c = components_from_strs(components);
        let r = Element { span: Span { start: 0, end: 0 }, components: c, repeats: Vec::new() };
        assert(texts(component_items(r.components)) =~= components@.map_values(|s: &str| s@));
        r
    }

    /// The text of component `n` of the first occurrence.
    pub fn get_component(&self, n: usize) -> (r: Option<&str>)
        ensures
            match (r, component_text(*self, n as int)) {
                (Some(s), Some(t)) => s@ == t,
                (None, None) => true,
                _ => false,
            },
    {
        let items = self.components.as_slice();
        if n < items.len() {
            Some(items[n].0.as_str())
        } else {
            None
        }
    }

    /// The text of component `n`, or `""` where it does not exist.
    pub fn component_or_empty(&self, n: usize) -> (r: &str)
        ensures
            r@ == (match component_text(*self, n as int) {
                Some(t) => t,
                None => Seq::<char>::empty(),
            }),
    {
        match self.get_component(n) {
            Some(s) => s,
            None => {
                proof { reveal_strlit(""); }
                ""
            },
        }
    }

    /// The span of component `n` of the first occurrence.
    pub fn component_span(&self, n: usize) -> (r: Option<Span>)
        ensures
            r == (if n < component_items(self.components).len() {
                Some(component_items(self.components)[n as int].1)
            } else {
                None::<Span>
            }),
    {
        let items = self.components.as_slice();
        if n < items.len() {
            Some(items[n].1)
        } else {
            None
        }
    }

    /// The texts of the components of the first occurrence.
    pub fn components(&self) -> (r: Vec<&str>)
        ensures
            r@.map_values(|s: &str| s@) == texts(component_items(self.components)),
    {
        let items = self.components.as_slice();
        let mut out: Vec<&str> = Vec::new();
        let mut i: usize = 0;
        while i < items.len()
            invariant
                items@ == component_items(self.components),
                i <= items@.len(),
                out@.len() == i,
                forall|j: int| 0 <= j < i ==> (#[trigger] out@[j])@ == items@[j].0@,
            decreases items@.len() - i,
        {
            out.push(items[i].0.as_str());
            i = i + 1;
        }
        assert(out@.map_values(|s: &str| s@) =~= texts(component_items(self.components)));
        out
    }

    /// How many times the element occurs: one plus the number of repetitions.
    pub fn repeat_count(&self) -> (r: usize)
        requires
            self.repeats@.len() < usize::MAX,
        ensures
            r == occurrences(*self).len(),
    {
        1 + self.repeats.len()
    }

    /// The components of occurrence `n` (0 is the first occurrence).
    pub fn repetition(&self, n: usize) -> (r: Option<&[(String, Span)]>)
        ensures
            match r {
                Some(s) => n < occurrences(*self).len() && s@ == occurrences(*self)[n as int],
                None => n >= occurrences(*self).len(),
            },
    {
        if n == 0 {
            Some(self.components.as_slice())
        } else if n - 1 < self.repeats.len() {
            Some(self.repeats[n - 1].as_slice())
        } else {
            None
        }
    }

    /// The components of every occurrence, first occurrence first.
    pub fn repetitions(&self) -> (r: Vec<&[(String, Span)]>)
        ensures
            r@.len() == occurrences(*self).len(),
            forall|i: int| 0 <= i < r@.len() ==> (#[trigger] r@[i])@ == occurrences(*self)[i],
    {
        let mut out: Vec<&[(String, Span)]> = Vec::new();
        out.push(self.components.as_slice());
        let mut i: usize = 0;
        while i < self.repeats.len()
            invariant
                i <= self.repeats@.len(),
                out@.len() == i + 1,
                forall|j: int| 0 <= j <= i ==> (#[trigger] out@[j])@ == occurrences(*self)[j],
            decreases self.repeats@.len() - i,
        {
            out.push(self.repeats[i].as_slice());
            i = i + 1;
        }
        out
    }

    /// Component `n` of every occurrence, `""` where an occurrence lacks it.
    pub fn repeated_component(&self, n: usize) -> (r: Vec<&str>)
        ensures
            r@.len() == occurrences(*self).len(),
            forall|i: int| 0 <= i < r@.len() ==> (#[trigger] r@[i])@ == (
                if n < occurrences(*self)[i].len() { occurrences(*self)[i][n as int].0@ } else { Seq::<char>::empty() }),
    {
        let reps = self.repetitions();
        let mut out: Vec<&str> = Vec::new();
        let mut i: usize = 0;
        while i < reps.len()
            invariant
                reps@.len() == occurrences(*self).len(),
                forall|j: int| 0 <= j < reps@.len() ==> (#[trigger] reps@[j])@ == occurrences(*self)[j],
                i <= reps@.len(),
                out@.len() == i,
                forall|j: int| 0 <= j < i ==> (#[trigger] out@[j])@ == (
                    if n < occurrences(*self)[j].len() { occurrences(*self)[j][n as int].0@ } else { Seq::<char>::empty() }),
            decreases reps@.len() - i,
        {
            let occ: &[(String, Span)] = reps[i];
            if n < occ.len() {
                out.push(occ[n].0.as_str());
            } else {
                out.push("");
                proof { reveal_strlit(""); }
            }
            i = i + 1;
        }
        out
    }

    /// This element with its span replaced.
    pub fn with_span(self, span: Span) -> (r: Element)
        ensures
            r.span == span,
            occurrences(r) == occurrences(self),
    {
        let mut e = self;
        e.span = span;
        e
    }

    /// This element with one more occurrence holding `components`.
    pub fn and_repeat(self, components: &[&str]) -> (r: Element)
        ensures
            r.span == self.span,
            occurrences(r).len() == occurrences(self).len() + 1,
            occurrences(r).subrange(0, occurrences(self).len() as int) == occurrences(self),
            texts(occurrences(r).last()) == components@.map_values(|s: &str| s@),
    {
        let c = components_from_strs(components);
        let mut e = self;
        e.repeats.push(c);
        assert(occurrences(e).subrange(0, occurrences(self).len() as int) =~= occurrences(self));
        assert(texts(occurrences(e).last()) =~= components@.map_values(|s: &str| s@));
        e
    }

    /// Moves every span of this element right by `delta` bytes.
    pub fn offset_in_place(&mut self, delta: usize)
        ensures
            final(self).span == old(self).span.offset_spec(delta),
            occurrences(*final(self)).len() == occurrences(*old(self)).len(),
            forall|i: int| 0 <= i < occurrences(*old(self)).len() ==>
                shifted(#[trigger] occurrences(*old(self))[i], occurrences(*final(self))[i], delta),
    {
        let ghost before = occurrences(*self);
        self.span = self.span.offset(delta);
        self.components = shift_components(&self.components, delta);
        let mut reps: Vec<Components> = Vec::new();
        let mut i: usize = 0;
        while i < self.repeats.len()
            invariant
                i <= self.repeats@.len(),
                reps@.len() == i,
                before == occurrences(*old(self)),
                self.repeats == old(self).repeats,
                forall|j: int| 0 <= j < i ==>
                    shifted(component_items(old(self).repeats@[j]), component_items(#[trigger] reps@[j]), delta),
            decreases self.repeats@.len() - i,
        {
            reps.push(shift_components(&self.repeats[i], delta));
            i = i + 1;
        }
        self.repeats = reps;
    }

    /// The same element (elements always own their text).
    pub fn into_owned(self) -> (r: OwnedElement)
        ensures
            r == self,
    {
        self
    }
}

impl Span {
    /// The spec counterpart of [`Span::offset`].
    pub open spec fn offset_spec(self, delta: usize) -> Span {
        Span { start: saturating_add_spec(self.start, delta), end: saturating_add_spec(self.end, delta) }
    }
}

/// `str::parse`: what `T`'s `FromStr` makes of `s`, if it accepts it.
/// Nothing is stated of the value: it is whatever `T`'s own impl returns.
#[verifier::external_body]
fn parse_value<T: std::str::FromStr>(s: &str) -> (r: Option<T>)
{
    s.parse::<T>().ok()
}

/// `b` holds the texts of `a`, each span moved right by `delta`.
pub open spec fn shifted(a: Seq<(String, Span)>, b: Seq<(String, Span)>, delta: usize) -> bool {
    a.len() == b.len() && forall|k: int| 0 <= k < a.len() ==>
        (#[trigger] b[k]).0 == a[k].0 && b[k].1 == a[k].1.offset_spec(delta)
}

fn shift_components(c: &Components, delta: usize) -> (r: Components)
    ensures
        shifted(component_items(*c), component_items(r), delta),
{
    let items = c.as_slice();
    let mut v: Vec<(String, Span)> = Vec::new();
    let mut i: usize = 0;
    while i < items.len()
        invariant
            items@ == component_items(*c),
            i <= items@.len(),
            v@.len() == i,
            forall|k: int| 0 <= k < i ==> (#[trigger] v@[k]).0 == items@[k].0 && v@[k].1 == items@[k].1.offset_spec(delta),
        decreases items@.len() - i,
    {
        v.push((items[i].0.clone(), items[i].1.offset(delta)));
        i = i + 1;
    }
    Components::from_vec(v)
}

/// One segment: its tag and its data elements.
#[derive(Debug, PartialEq, Eq)]
#[non_exhaustive]
pub struct Segment {
    /// The segment tag, such as `"BGM"`.
    pub tag: String,
    /// Byte range of the whole segment, up to and including its terminator.
    pub span: Span,
    /// Byte range of the tag.
    pub tag_span: Span,
    /// The data elements, in order.
    pub elements: Vec<Element>,
}

/// The owned form of a segment (the same type).
pub type OwnedSegment = Segment;

/// The text of component `c` of the first occurrence of element `e`, if both exist.
pub open spec fn seg_component(s: Segment, e: int, c: int) -> Option<Seq<char>> {
    if 0 <= e < s.elements@.len() { component_text(s.elements@[e], c) } else { None }
}

/// A value that is present and not empty.
pub open spec fn non_empty(v: Option<Seq<char>>) -> Option<Seq<char>> {
    match v {
        Some(t) => if t.len() > 0 { Some(t) } else { None },
        None => None,
    }
}

/// `r` holds exactly the text `v`, or both are absent.
pub open spec fn opt_str_is(r: Option<&str>, v: Option<Seq<char>>) -> bool {
    match (r, v) {
        (Some(s), Some(t)) => s@ == t,
        (None, None) => true,
        _ => false,
    }
}

/// Two segments with the same tag, spans and elements.
pub open spec fn same_segment(a: Segment, b: Segment) -> bool {
    &&& a.tag@ == b.tag@
    &&& a.span == b.span
    &&& a.tag_span == b.tag_span
    &&& a.elements@.len() == b.elements@.len()
    &&& forall|i: int| 0 <= i < a.elements@.len() ==> same_element(#[trigger] a.elements@[i], b.elements@[i])
}

impl Clone for Segment {
    fn clone(&self) -> (r: Self)
        ensures
            same_segment(r, *self),
    {
        let mut elements: Vec<Element> = Vec::new();
        let mut i: usize = 0;
        while i < self.elements.len()
            invariant
                i <= self.elements@.len(),
                elements@.len() == i,
                forall|j: int| 0 <= j < i ==> same_element(#[trigger] elements@[j], self.elements@[j]),
            decreases self.elements@.len() - i,
        {
            elements.push(self.elements[i].clone());
            i = i + 1;
        }
        Segment { tag: self.tag.clone(), span: self.span, tag_span: self.tag_span, elements }
    }
}

impl Segment {
    /// A segment with the given tag and elements and empty spans.
    pub fn new(tag: &str, elements: Vec<Element>) -> (r: Segment)
        ensures
            r.tag@ == tag@,
            r.elements == elements,
            r.span == Span::new_spec(0, 0),
            r.tag_span == Span::new_spec(0, 0),
    {
        Segment { tag: own(tag), span: Span { start: 0, end: 0 }, tag_span: Span { start: 0, end: 0 }, elements }
    }

    /// The owned form of this segment: segments always own their text, so
    /// it is the segment itself.
    pub fn into_owned(self) -> (r: Segment)
        ensures
            r == self,
    {
        self
    }

    /// This segment with its spans replaced.
    pub fn with_spans(self, span: Span, tag_span: Span) -> (r: Segment)
        ensures
            r.span == span,
            r.tag_span == tag_span,
            r.tag == self.tag,
            r.elements == self.elements,
    {
        let mut s = self;
        s.span = span;
        s.tag_span = tag_span;
        s
    }

    /// The segment tag.
    pub fn tag(&self) -> (r: &str)
        ensures
            r@ == self.tag@,
    {
        self.tag.as_str()
    }

    /// Element `n`, if it exists.
    pub fn get_element(&self, n: usize) -> (r: Option<&Element>)
        ensures
            r == (if n < self.elements@.len() { Some(&self.elements@[n as int]) } else { None::<&Element> }),
    {
        if n < self.elements.len() {
            Some(&self.elements[n])
        } else {
            None
        }
    }

    /// The first component of element `n`, if it exists.
    pub fn element_str(&self, n: usize) -> (r: Option<&str>)
        ensures
            opt_str_is(r, seg_component(*self, n as int, 0)),
    {
        match self.get_element(n) {
            Some(e) => e.get_component(0),
            None => None,
        }
    }

    /// Component `comp` of element `elem`, if both exist.
    pub fn component_str(&self, elem: usize, comp: usize) -> (r: Option<&str>)
        ensures
            opt_str_is(r, seg_component(*self, elem as int, comp as int)),
    {
        match self.get_element(elem) {
            Some(e) => e.get_component(comp),
            None => None,
        }
    }

    /// The span of element `n`, if it exists.
    pub fn element_span(&self, n: usize) -> (r: Option<Span>)
        ensures
            r == (if n < self.elements@.len() { Some(self.elements@[n as int].span) } else { None::<Span> }),
    {
        match self.get_element(n) {
            Some(e) => Some(e.span),
            None => None,
        }
    }

    /// Component `component` of every occurrence of element `element`;
    /// empty when the element does not exist.
    pub fn repeated_component(&self, element: usize, component: usize) -> (r: Vec<&str>)
        ensures
            element >= self.elements@.len() ==> r@.len() == 0,
            element < self.elements@.len() ==> {
                let occ = occurrences(self.elements@[element as int]);
                &&& r@.len() == occ.len()
                &&& forall|i: int| 0 <= i < r@.len() ==> (#[trigger] r@[i])@ == (
                    if component < occ[i].len() { occ[i][component as int].0@ } else { Seq::<char>::empty() })
            },
    {
        match self.get_element(element) {
            Some(e) => e.repeated_component(component),
            None => Vec::new(),
        }
    }


    /// The first component of element `idx`, when it is present and not empty.
    pub fn optional_element(&self, idx: usize) -> (r: Option<&str>)
        ensures
            opt_str_is(r, non_empty(seg_component(*self, idx as int, 0))),
    {
        match self.element_str(idx) {
            Some(v) => if v.is_empty() { None } else { Some(v) },
            None => None,
        }
    }

    /// The first component of element `idx`; an absent or empty value is an error.
    pub fn required_element(&self, idx: usize) -> (r: Result<&str, EdifactError>)
        ensures
            match r {
                Ok(v) => non_empty(seg_component(*self, idx as int, 0)) == Some(v@),
                Err(e) => non_empty(seg_component(*self, idx as int, 0)) is None
                    && (e matches EdifactError::MissingRequiredElement { tag, element_index }
                    && tag@ == self.tag@ && element_index == idx),
            },
    {
        match self.optional_element(idx) {
            Some(v) => Ok(v),
            None => Err(EdifactError::MissingRequiredElement { tag: self.tag.clone(), element_index: idx }),
        }
    }

    /// Component `comp` of element `elem`, when it is present and not empty.
    pub fn optional_component(&self, elem: usize, comp: usize) -> (r: Option<&str>)
        ensures
            opt_str_is(r, non_empty(seg_component(*self, elem as int, comp as int))),
    {
        match self.component_str(elem, comp) {
            Some(v) => if v.is_empty() { None } else { Some(v) },
            None => None,
        }
    }

    /// Component `comp` of element `elem`: a missing element and a missing
    /// or empty component are distinct errors.
    pub fn required_component(&self, elem: usize, comp: usize) -> (r: Result<&str, EdifactError>)
        ensures
            match r {
                Ok(v) => non_empty(seg_component(*self, elem as int, comp as int)) == Some(v@),
                Err(e) => non_empty(seg_component(*self, elem as int, comp as int)) is None && (
                    if elem < self.elements@.len() {
                        (e matches EdifactError::MissingRequiredComponent { tag, element_index, component_index }
                        && tag@ == self.tag@ && element_index == elem && component_index == comp)
                    } else {
                        (e matches EdifactError::MissingRequiredElement { tag, element_index }
                        && tag@ == self.tag@ && element_index == elem)
                    }),
            },
    {
        if elem >= self.elements.len() {
            return Err(EdifactError::MissingRequiredElement { tag: self.tag.clone(), element_index: elem });
        }
        match self.optional_component(elem, comp) {
            Some(v) => Ok(v),
            None => Err(EdifactError::MissingRequiredComponent {
                tag: self.tag.clone(),
                element_index: elem,
                component_index: comp,
            }),
        }
    }

    /// Element `idx` parsed with `T`'s `FromStr`: the element must be present
    /// and not empty, and a value `T` rejects is `InvalidText` at the element.
    pub fn parsed_element<T: std::str::FromStr>(&self, idx: usize) -> (r: Result<T, EdifactError>)
        ensures
            non_empty(seg_component(*self, idx as int, 0)) is None ==> (r matches Err(
                EdifactError::MissingRequiredElement { tag, element_index })
                && tag@ == self.tag@ && element_index == idx),
            non_empty(seg_component(*self, idx as int, 0)) is Some ==> (r is Ok || (r matches Err(
                EdifactError::InvalidText { offset }) && offset == self.elements@[idx as int].span.start)),
    {
        let raw = match self.required_element(idx) {
            Ok(v) => v,
            Err(e) => return Err(e),
        };
        match parse_value::<T>(raw) {
            Some(v) => Ok(v),
            None => Err(EdifactError::InvalidText { offset: self.elements[idx].span.start }),
        }
    }

    /// This segment with every span moved right by `delta` bytes.
    pub fn offset(self, delta: usize) -> (r: Segment)
        ensures
            r.tag == self.tag,
            r.span == self.span.offset_spec(delta),
            r.tag_span == self.tag_span.offset_spec(delta),
            r.elements@.len() == self.elements@.len(),
            forall|i: int| 0 <= i < self.elements@.len() ==>
                (#[trigger] r.elements@[i]).span == self.elements@[i].span.offset_spec(delta)
                && occurrences(r.elements@[i]).len() == occurrences(self.elements@[i]).len()
                && forall|k: int| 0 <= k < occurrences(self.elements@[i]).len() ==>
                    shifted(#[trigger] occurrences(self.elements@[i])[k], occurrences(r.elements@[i])[k], delta),
    {
        let Segment { tag, span, tag_span, elements } = self;
        let mut elements = elements;
        let mut i: usize = 0;
        while i < elements.len()
            invariant
                i <= elements@.len(),
                elements@.len() == self.elements@.len(),
                forall|j: int| i <= j < elements@.len() ==> #[trigger] elements@[j] == self.elements@[j],
                forall|j: int| 0 <= j < i ==>
                    (#[trigger] elements@[j]).span == self.elements@[j].span.offset_spec(delta)
                    && occurrences(elements@[j]).len() == occurrences(self.elements@[j]).len()
                    && forall|k: int| 0 <= k < occurrences(self.elements@[j]).len() ==>
                        shifted(#[trigger] occurrences(self.elements@[j])[k], occurrences(elements@[j])[k], delta),
            decreases elements@.len() - i,
        {
            elements[i].offset_in_place(delta);
            i = i + 1;
        }
        Segment { tag, span: span.offset(delta), tag_span: tag_span.offset(delta), elements }
    }
}

/// An element of one component.
pub(crate) fn single(a: &str) -> (r: Element)
    ensures
        texts(component_items(r.components)) == seq![a@],
        r.repeats@.len() == 0,
{
    let v = [a];
    let r = Element::of(&v);
    assert(v@.map_values(|s: &str| s@) =~= seq![a@]);
    r
}

/// An element of two components.
pub(crate) fn pair(a: &str, b: &str) -> (r: Element)
    ensures
        texts(component_items(r.components)) == seq![a@, b@],
        r.repeats@.len() == 0,
{
    let v = [a, b];
    let r = Element::of(&v);
    assert(v@.map_values(|s: &str| s@) =~= seq![a@, b@]);
    r
}

/// An element of four components.
pub(crate) fn quad(a: &str, b: &str, c: &str, d: &str) -> (r: Element)
    ensures
        texts(component_items(r.components)) == seq![a@, b@, c@, d@],
        r.repeats@.len() == 0,
{
    let v = [a, b, c, d];
    let r = Element::of(&v);
    assert(v@.map_values(|s: &str| s@) =~= seq![a@, b@, c@, d@]);
    r
}


/// The text at a resolved path of a segment: the component of the element at
/// `path.element` (a whole element counting as component 0), if both exist.
pub open spec fn text_at(seg: Segment, path: ElementPath) -> Option<Seq<char>> {
    if path.element < seg.elements@.len() {
        component_text(seg.elements@[path.element as int], match path.component { Some(c) => c as int, None => 0 })
    } else {
        None
    }
}

/// The span at a resolved path of a segment: the component's span, or the
/// whole element's for an element path, if they exist.
pub open spec fn span_at_spec(seg: Segment, path: ElementPath) -> Option<Span> {
    if path.element < seg.elements@.len() {
        let e = seg.elements@[path.element as int];
        match path.component {
            Some(c) => if c < component_items(e.components).len() {
                Some(component_items(e.components)[c as int].1)
            } else {
                None
            },
            None => Some(e.span),
        }
    } else {
        None
    }
}

/// An optional string slice as text.
pub open spec fn opt_str_text(o: Option<&str>) -> Option<Seq<char>> {
    match o {
        Some(s) => Some(s@),
        None => None,
    }
}

/// What a code-addressed read returns: a layout for another tag is refused;
/// otherwise the identifier resolves as [`resolved`] says, and a resolved one
/// reads `found` at its path.
pub open spec fn read_by_code<T>(seg: Segment, tag: Seq<char>, l: Seq<ElemSpec>, de: Seq<char>,
    r: Result<T, EdifactError>, found: spec_fn(ElementPath, T) -> bool) -> bool {
    if seg.tag@ != tag {
        (r matches Err(EdifactError::SegmentLayoutMismatch { expected, actual }) && expected@ == tag && actual@ == seg.tag@)
    } else {
        match r {
            Ok(v) => code_hits(l, de) == 1 && found(first_path(l, de)->0, v),
            Err(e) => resolved(tag, l, de, Err(e)),
        }
    }
}

fn check_layout_tag<L: SegmentLayout + ?Sized>(layout: &L, segment_tag: &str) -> (r: Result<(), EdifactError>)
    ensures
        match r {
            Ok(_) => layout.tag_spec() == segment_tag@,
            Err(e) => layout.tag_spec() != segment_tag@
                && (e matches EdifactError::SegmentLayoutMismatch { expected, actual }
                && expected@ == layout.tag_spec() && actual@ == segment_tag@),
        },
{
    if !str_eq(layout.layout_tag(), segment_tag) {
        return Err(EdifactError::SegmentLayoutMismatch { expected: own(layout.layout_tag()), actual: own(segment_tag) });
    }
    Ok(())
}

impl Segment {
    /// The value at an already-resolved path.
    pub fn value_at(&self, path: ElementPath) -> (r: Option<&str>)
        ensures
            opt_str_text(r) == text_at(*self, path),
    {
        if path.element < self.elements.len() {
            self.elements[path.element].get_component(path.component_index())
        } else {
            None
        }
    }

    /// The byte span of the value at an already-resolved path.
    pub fn span_at(&self, path: ElementPath) -> (r: Option<Span>)
        ensures
            r == span_at_spec(*self, path),
    {
        if path.element < self.elements.len() {
            let element = &self.elements[path.element];
            match path.component {
                Some(c) => element.component_span(c),
                None => Some(element.span),
            }
        } else {
            None
        }
    }

    /// The value of a data element named by its identifier in `layout`.
    pub fn value_by_code<L: SegmentLayout + ?Sized>(&self, layout: &L, data_element: &str) -> (r: Result<Option<&str>, EdifactError>)
        ensures
            read_by_code(*self, layout.tag_spec(), layout.layout_spec(), data_element@, r,
                |p: ElementPath, v: Option<&str>| opt_str_text(v) == text_at(*self, p)),
    {
        match check_layout_tag(layout, self.tag.as_str()) {
            Ok(_) => {},
            Err(e) => return Err(e),
        }
        match layout.resolve_code(data_element) {
            Ok(path) => Ok(self.value_at(path)),
            Err(e) => Err(e),
        }
    }

    /// The byte span of a data element named by its identifier in `layout`.
    pub fn span_by_code<L: SegmentLayout + ?Sized>(&self, layout: &L, data_element: &str) -> (r: Result<Option<Span>, EdifactError>)
        ensures
            read_by_code(*self, layout.tag_spec(), layout.layout_spec(), data_element@, r,
                |p: ElementPath, v: Option<Span>| v == span_at_spec(*self, p)),
    {
        match check_layout_tag(layout, self.tag.as_str()) {
            Ok(_) => {},
            Err(e) => return Err(e),
        }
        match layout.resolve_code(data_element) {
            Ok(path) => Ok(self.span_at(path)),
            Err(e) => Err(e),
        }
    }

    /// The whole element holding a data element named by its identifier in
    /// `layout` (the enclosing composite for a component).
    pub fn element_by_code<L: SegmentLayout + ?Sized>(&self, layout: &L, data_element: &str) -> (r: Result<Option<&Element>, EdifactError>)
        ensures
            read_by_code(*self, layout.tag_spec(), layout.layout_spec(), data_element@, r,
                |p: ElementPath, v: Option<&Element>| v == (if p.element < self.elements@.len() {
                    Some(&self.elements@[p.element as int])
                } else {
                    None::<&Element>
                })),
    {
        match check_layout_tag(layout, self.tag.as_str()) {
            Ok(_) => {},
            Err(e) => return Err(e),
        }
        match layout.resolve_code(data_element) {
            Ok(path) => Ok(self.get_element(path.element)),
            Err(e) => Err(e),
        }
    }
}

} // verus!
