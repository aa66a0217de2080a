//! Typed serialization: values that write themselves as events, and the
//! sparse writer that places values at element and component positions.

use vstd::prelude::*;

use crate::error::EdifactError;
use crate::event::{event_view, events_to_bytes, events_view, write_events, EdifactEvent, EmitterState, EventEmitter, VecEmitter};
use vstd::utf8::{decode_utf8, valid_utf8};
use crate::text::{decimal, decimal_string, signed_decimal, signed_decimal_string};

verus! {

/// A value that writes itself as events.
pub trait EdifactSerialize {
    /// Emits the events for this value.
    fn edifact_serialize<E: EventEmitter>(&self, emitter: &mut E) -> Result<(), EdifactError>;
}

/// A composite value that writes itself as one element and its components.
pub trait EdifactCompositeSerialize {
    /// Emits the element and component events for this value.
    fn edifact_serialize_composite<E: EventEmitter>(&self, emitter: &mut E) -> Result<(), EdifactError>;
}

/// What `e` writes for the events `vs`, in turn.
pub open spec fn bytes_of<E: EventEmitter>(e: E, vs: Seq<(int, Seq<char>)>) -> Seq<u8>
    decreases vs.len(),
{
    if vs.len() == 0 { Seq::empty() } else { bytes_of(e, vs.drop_last()) + e.bytes_for(vs.last()) }
}

/// `after` writes every event as `before` does.
pub open spec fn same_bytes<E: EventEmitter>(before: E, after: E) -> bool {
    forall|v: (int, Seq<char>)| #[trigger] after.bytes_for(v) == before.bytes_for(v)
}

proof fn lemma_bytes_of_push<E: EventEmitter>(e: E, p: Seq<(int, Seq<char>)>, v: (int, Seq<char>))
    ensures
        bytes_of(e, p.push(v)) == bytes_of(e, p) + e.bytes_for(v),
{
    assert(p.push(v).drop_last() =~= p);
}

/// `after` is `before` having taken the one event `v`, or having refused
/// it: the emitter decides; a taken event adds its bytes to what was
/// written, a refusal adds nothing.
pub open spec fn emitted_one<E: EventEmitter>(before: E, after: E, v: (int, Seq<char>), r: Result<(), EdifactError>) -> bool {
    &&& (r is Ok) == before.takes(v)
    &&& r is Ok ==> events_view(after.emitted()) == events_view(before.emitted()).push(v)
        && after.written() == before.written() + before.bytes_for(v)
    &&& r is Err ==> after.emitted() == before.emitted() && after.written() == before.written() && !after.takes(v)
    &&& same_bytes(before, after)
}

/// `after` is `before` having taken the events `vs` in turn: all of them,
/// or the first few, then refused the next; what was written grows by the
/// bytes of the events taken.
pub open spec fn emitted_all<E: EventEmitter>(before: E, after: E, vs: Seq<(int, Seq<char>)>, r: Result<(), EdifactError>) -> bool {
    &&& same_bytes(before, after)
    &&& match r {
        Ok(_) => events_view(after.emitted()) == events_view(before.emitted()) + vs
            && after.written() == before.written() + bytes_of(before, vs),
        Err(_) => exists|k: int| #![trigger vs[k]] 0 <= k < vs.len()
            && events_view(after.emitted()) == events_view(before.emitted()) + vs.take(k)
            && after.written() == before.written() + bytes_of(before, vs.take(k))
            && !after.takes(vs[k]),
    }
}

fn emit_element<E: EventEmitter>(emitter: &mut E, value: String) -> (r: Result<(), EdifactError>)
    ensures
        emitted_one(*old(emitter), *final(emitter), (1, value@), r),
{
    let ghost v = value@;
    let ev = EdifactEvent::Element { value };
    let r = emitter.emit(ev);
    proof {
        if r is Ok {
            assert(events_view(final(emitter).emitted()) =~= events_view(old(emitter).emitted()).push((1, v)));
        }
    }
    r
}

impl EdifactSerialize for String {
    /// One element holding the string.
    fn edifact_serialize<E: EventEmitter>(&self, emitter: &mut E) -> (r: Result<(), EdifactError>)
        ensures
            emitted_one(*old(emitter), *final(emitter), (1, self@), r),
    {
        emit_element(emitter, self.clone())
    }
}

impl EdifactSerialize for str {
    /// One element holding the text.
    fn edifact_serialize<E: EventEmitter>(&self, emitter: &mut E) -> (r: Result<(), EdifactError>)
        ensures
            emitted_one(*old(emitter), *final(emitter), (1, self@), r),
    {
        emit_element(emitter, crate::text::own(self))
    }
}

impl<T: EdifactSerialize> EdifactSerialize for Option<T> {
    /// The value's own events, or one empty element for `None`.
    fn edifact_serialize<E: EventEmitter>(&self, emitter: &mut E) -> (r: Result<(), EdifactError>)
        ensures
            self is None ==> emitted_one(*old(emitter), *final(emitter), (1, Seq::<char>::empty()), r),
    {
        match self {
            Some(v) => v.edifact_serialize(emitter),
            None => emit_element(emitter, String::new()),
        }
    }
}

impl<T: EdifactSerialize> EdifactSerialize for Vec<T> {
    /// Each item's events, in order; the first refusal stops.  An empty
    /// list emits nothing.
    fn edifact_serialize<E: EventEmitter>(&self, emitter: &mut E) -> (r: Result<(), EdifactError>)
        ensures
            self@.len() == 0 ==> r is Ok && final(emitter).emitted() == old(emitter).emitted(),
    {
        let mut i: usize = 0;
        while i < self.len()
            invariant
                i <= self@.len(),
                self@.len() == 0 ==> emitter.emitted() == old(emitter).emitted(),
            decreases self@.len() - i,
        {
            match self[i].edifact_serialize(emitter) {
                Ok(_) => {},
                Err(e) => return Err(e),
            }
            i = i + 1;
        }
        Ok(())
    }
}

impl EdifactCompositeSerialize for Vec<String> {
    /// One element with the first string and a component for each further
    /// one; an empty list is one empty element.
    fn edifact_serialize_composite<E: EventEmitter>(&self, emitter: &mut E) -> (r: Result<(), EdifactError>)
        ensures
            emitted_all(*old(emitter), *final(emitter), composite_view(self@), r),
    {
        let ghost full = composite_view(self@);
        let ghost o = *old(emitter);
        proof { assert(bytes_of(o, full.take(0)) =~= Seq::<u8>::empty()); assert(full.take(0) =~= Seq::<(int, Seq<char>)>::empty()); }
        if self.len() == 0 {
            let r = emit_element(emitter, String::new());
            proof {
                assert(full =~= seq![(1int, Seq::<char>::empty())]);
                lemma_bytes_of_push(o, Seq::empty(), full[0]);
                assert(Seq::<(int, Seq<char>)>::empty().push(full[0]) =~= full);
                if r is Ok {
                    assert(events_view(emitter.emitted()) =~= events_view(o.emitted()) + full);
                    assert(emitter.written() =~= o.written() + bytes_of(o, full));
                } else {
                    assert(events_view(emitter.emitted()) =~= events_view(o.emitted()) + full.take(0));
                    assert(emitter.written() =~= o.written() + bytes_of(o, full.take(0)));
                    assert(!emitter.takes(full[0]));
                }
            }
            return r;
        }
        let ghost start = events_view(emitter.emitted());
        match emit_element(emitter, self[0].clone()) {
            Ok(_) => {},
            Err(e) => {
                proof {
                    assert(events_view(emitter.emitted()) =~= events_view(o.emitted()) + full.take(0));
                    assert(emitter.written() =~= o.written() + bytes_of(o, full.take(0)));
                    assert(!emitter.takes(full[0]));
                }
                return Err(e);
            },
        }
        proof {
            assert(composite_view(self@.take(1)) =~= Seq::<(int, Seq<char>)>::empty().push(full[0]));
            lemma_bytes_of_push(o, Seq::empty(), full[0]);
            assert(emitter.written() =~= o.written() + bytes_of(o, composite_view(self@.take(1))));
        }
        let mut i: usize = 1;
        while i < self.len()
            invariant
                1 <= i <= self@.len(),
                full == composite_view(self@),
                o == *old(emitter),
                start == events_view(o.emitted()),
                same_bytes(o, *emitter),
                events_view(emitter.emitted()) == start + composite_view(self@.take(i as int)),
                emitter.written() == o.written() + bytes_of(o, composite_view(self@.take(i as int))),
            decreases self@.len() - i,
        {
            let ghost before = events_view(emitter.emitted());
            let ghost v = self@[i as int]@;
            let ev = EdifactEvent::ComponentElement { value: self[i].clone() };
            proof {
                assert(composite_view(self@.take(i as int)) =~= full.take(i as int));
                assert(full[i as int] == (2int, v));
            }
            match emitter.emit(ev) {
                Ok(_) => {},
                Err(e) => {
                    proof {
                        assert(!emitter.takes(full[i as int]));
                    }
                    return Err(e);
                },
            }
            proof {
                assert(events_view(emitter.emitted()) =~= before.push((2, v)));
                assert(composite_view(self@.take(i + 1)) =~= composite_view(self@.take(i as int)).push((2int, v)));
                lemma_bytes_of_push(o, composite_view(self@.take(i as int)), (2int, v));
            }
            i = i + 1;
        }
        proof { assert(self@.take(self@.len() as int) =~= self@); }
        Ok(())
    }
}

/// The events of a composite: the first string as element, the rest as components.
pub open spec fn composite_view(v: Seq<String>) -> Seq<(int, Seq<char>)> {
    if v.len() == 0 {
        seq![(1int, Seq::<char>::empty())]
    } else {
        Seq::new(v.len(), |i: int| (if i == 0 { 1int } else { 2int }, v[i]@))
    }
}

impl EdifactSerialize for u8 {
    /// One element holding the number in decimal.
    fn edifact_serialize<E: EventEmitter>(&self, emitter: &mut E) -> (r: Result<(), EdifactError>)
        ensures
            emitted_one(*old(emitter), *final(emitter), (1, decimal(*self as nat)), r),
    {
        emit_element(emitter, decimal_string(*self as u128))
    }
}

impl EdifactSerialize for u16 {
    /// One element holding the number in decimal.
    fn edifact_serialize<E: EventEmitter>(&self, emitter: &mut E) -> (r: Result<(), EdifactError>)
        ensures
            emitted_one(*old(emitter), *final(emitter), (1, decimal(*self as nat)), r),
    {
        emit_element(emitter, decimal_string(*self as u128))
    }
}

impl EdifactSerialize for u32 {
    /// One element holding the number in decimal.
    fn edifact_serialize<E: EventEmitter>(&self, emitter: &mut E) -> (r: Result<(), EdifactError>)
        ensures
            emitted_one(*old(emitter), *final(emitter), (1, decimal(*self as nat)), r),
    {
        emit_element(emitter, decimal_string(*self as u128))
    }
}

impl EdifactSerialize for u64 {
    /// One element holding the number in decimal.
    fn edifact_serialize<E: EventEmitter>(&self, emitter: &mut E) -> (r: Result<(), EdifactError>)
        ensures
            emitted_one(*old(emitter), *final(emitter), (1, decimal(*self as nat)), r),
    {
        emit_element(emitter, decimal_string(*self as u128))
    }
}

impl EdifactSerialize for u128 {
    /// One element holding the number in decimal.
    fn edifact_serialize<E: EventEmitter>(&self, emitter: &mut E) -> (r: Result<(), EdifactError>)
        ensures
            emitted_one(*old(emitter), *final(emitter), (1, decimal(*self as nat)), r),
    {
        emit_element(emitter, decimal_string(*self as u128))
    }
}

impl EdifactSerialize for usize {
    /// One element holding the number in decimal.
    fn edifact_serialize<E: EventEmitter>(&self, emitter: &mut E) -> (r: Result<(), EdifactError>)
        ensures
            emitted_one(*old(emitter), *final(emitter), (1, decimal(*self as nat)), r),
    {
        emit_element(emitter, decimal_string(*self as u128))
    }
}

impl EdifactSerialize for i8 {
    /// One element holding the number in decimal, with a minus sign when negative.
    fn edifact_serialize<E: EventEmitter>(&self, emitter: &mut E) -> (r: Result<(), EdifactError>)
        ensures
            emitted_one(*old(emitter), *final(emitter), (1, signed_decimal(*self as int)), r),
    {
        emit_element(emitter, signed_decimal_string(*self as i128))
    }
}

impl EdifactSerialize for i16 {
    /// One element holding the number in decimal, with a minus sign when negative.
    fn edifact_serialize<E: EventEmitter>(&self, emitter: &mut E) -> (r: Result<(), EdifactError>)
        ensures
            emitted_one(*old(emitter), *final(emitter), (1, signed_decimal(*self as int)), r),
    {
        emit_element(emitter, signed_decimal_string(*self as i128))
    }
}

impl EdifactSerialize for i32 {
    /// One element holding the number in decimal, with a minus sign when negative.
    fn edifact_serialize<E: EventEmitter>(&self, emitter: &mut E) -> (r: Result<(), EdifactError>)
        ensures
            emitted_one(*old(emitter), *final(emitter), (1, signed_decimal(*self as int)), r),
    {
        emit_element(emitter, signed_decimal_string(*self as i128))
    }
}

impl EdifactSerialize for i64 {
    /// One element holding the number in decimal, with a minus sign when negative.
    fn edifact_serialize<E: EventEmitter>(&self, emitter: &mut E) -> (r: Result<(), EdifactError>)
        ensures
            emitted_one(*old(emitter), *final(emitter), (1, signed_decimal(*self as int)), r),
    {
        emit_element(emitter, signed_decimal_string(*self as i128))
    }
}

impl EdifactSerialize for i128 {
    /// One element holding the number in decimal, with a minus sign when negative.
    fn edifact_serialize<E: EventEmitter>(&self, emitter: &mut E) -> (r: Result<(), EdifactError>)
        ensures
            emitted_one(*old(emitter), *final(emitter), (1, signed_decimal(*self as int)), r),
    {
        emit_element(emitter, signed_decimal_string(*self as i128))
    }
}

impl EdifactSerialize for isize {
    /// One element holding the number in decimal, with a minus sign when negative.
    fn edifact_serialize<E: EventEmitter>(&self, emitter: &mut E) -> (r: Result<(), EdifactError>)
        ensures
            emitted_one(*old(emitter), *final(emitter), (1, signed_decimal(*self as int)), r),
    {
        emit_element(emitter, signed_decimal_string(*self as i128))
    }
}

impl EdifactSerialize for bool {
    /// One element holding `true` or `false`.
    fn edifact_serialize<E: EventEmitter>(&self, emitter: &mut E) -> (r: Result<(), EdifactError>)
        ensures
            emitted_one(*old(emitter), *final(emitter), (1, if *self { "true"@ } else { "false"@ }), r),
    {
        emit_element(emitter, crate::text::own(if *self { "true" } else { "false" }))
    }
}

/// One more than the highest element index among the parts (0 for none).
pub open spec fn element_count(parts: Seq<(usize, usize, String)>) -> int
    decreases parts.len(),
{
    if parts.len() == 0 {
        0
    } else {
        let m = element_count(parts.drop_last());
        let e = parts.last().0 + 1;
        if e > m { e } else { m }
    }
}

/// One more than the highest component index among the parts of element `e` (0 for none).
pub open spec fn component_count(parts: Seq<(usize, usize, String)>, e: int) -> int
    decreases parts.len(),
{
    if parts.len() == 0 {
        0
    } else {
        let m = component_count(parts.drop_last(), e);
        let c = if parts.last().0 == e { parts.last().1 + 1 } else { 0 };
        if c > m { c } else { m }
    }
}

/// The text of the first part at element `e`, component `c`; empty when none is there.
pub open spec fn slot_text(parts: Seq<(usize, usize, String)>, e: int, c: int) -> Seq<char>
    decreases parts.len(),
{
    if parts.len() == 0 {
        Seq::empty()
    } else if parts[0].0 == e && parts[0].1 == c {
        parts[0].2@
    } else {
        slot_text(parts.drop_first(), e, c)
    }
}

/// The events of element `e`: one per component slot up to the highest one
/// filled, each with its first value or empty; one empty element when no
/// part is at `e`.
pub open spec fn element_events(parts: Seq<(usize, usize, String)>, e: int) -> Seq<(int, Seq<char>)> {
    let n = component_count(parts, e);
    if n == 0 {
        seq![(1int, Seq::<char>::empty())]
    } else {
        Seq::new(n as nat, |c: int| (if c == 0 { 1int } else { 2int }, slot_text(parts, e, c)))
    }
}

/// The events of elements `0..k`.
pub open spec fn elements_events(parts: Seq<(usize, usize, String)>, k: int) -> Seq<(int, Seq<char>)>
    decreases k,
{
    if k <= 0 { Seq::empty() } else { elements_events(parts, k - 1) + element_events(parts, k - 1) }
}

/// The events of a sparse segment: the tag, every element up to the highest
/// one with a value, and the end.
pub open spec fn sparse_events(tag: Seq<char>, parts: Seq<(usize, usize, String)>) -> Seq<(int, Seq<char>)> {
    seq![(0int, tag)] + elements_events(parts, element_count(parts)) + seq![(4int, Seq::<char>::empty())]
}

fn count_elements(parts: &[(usize, usize, String)]) -> (r: usize)
    requires
        forall|i: int| 0 <= i < parts@.len() ==> (#[trigger] parts@[i]).0 < usize::MAX,
    ensures
        r == element_count(parts@),
{
    let mut m: usize = 0;
    let mut i: usize = 0;
    while i < parts.len()
        invariant
            i <= parts@.len(),
            m == element_count(parts@.take(i as int)),
            forall|j: int| 0 <= j < parts@.len() ==> (#[trigger] parts@[j]).0 < usize::MAX,
        decreases parts@.len() - i,
    {
        proof { assert(parts@.take(i + 1).drop_last() =~= parts@.take(i as int)); }
        let e = parts[i].0 + 1;
        if e > m { m = e; }
        i = i + 1;
    }
    proof { assert(parts@.take(parts@.len() as int) =~= parts@); }
    m
}

fn count_components(parts: &[(usize, usize, String)], e: usize) -> (r: usize)
    requires
        forall|i: int| 0 <= i < parts@.len() ==> (#[trigger] parts@[i]).1 < usize::MAX,
    ensures
        r == component_count(parts@, e as int),
{
    let mut m: usize = 0;
    let mut i: usize = 0;
    while i < parts.len()
        invariant
            i <= parts@.len(),
            m == component_count(parts@.take(i as int), e as int),
            forall|j: int| 0 <= j < parts@.len() ==> (#[trigger] parts@[j]).1 < usize::MAX,
        decreases parts@.len() - i,
    {
        proof { assert(parts@.take(i + 1).drop_last() =~= parts@.take(i as int)); }
        if parts[i].0 == e {
            let c = parts[i].1 + 1;
            if c > m { m = c; }
        }
        i = i + 1;
    }
    proof { assert(parts@.take(parts@.len() as int) =~= parts@); }
    m
}

fn find_slot(parts: &[(usize, usize, String)], e: usize, c: usize) -> (r: String)
    ensures
        r@ == slot_text(parts@, e as int, c as int),
{
    let mut i: usize = 0;
    proof { assert(parts@.skip(0) =~= parts@); }
    while i < parts.len()
        invariant
            i <= parts@.len(),
            slot_text(parts@, e as int, c as int) == slot_text(parts@.skip(i as int), e as int, c as int),
        decreases parts@.len() - i,
    {
        proof { assert(parts@.skip(i as int).drop_first() =~= parts@.skip(i + 1)); }
        if parts[i].0 == e && parts[i].1 == c {
            return parts[i].2.clone();
        }
        i = i + 1;
    }
    String::new()
}

fn emit_viewed<E: EventEmitter>(emitter: &mut E, kind: u8, value: String) -> (r: Result<(), EdifactError>)
    requires
        kind <= 4,
    ensures
        emitted_one(*old(emitter), *final(emitter), (kind as int, if kind == 4 { Seq::<char>::empty() } else { value@ }), r),
{
    let ghost v = value@;
    let ev = if kind == 0 {
        EdifactEvent::StartSegment { tag: value }
    } else if kind == 1 {
        EdifactEvent::Element { value }
    } else if kind == 2 {
        EdifactEvent::ComponentElement { value }
    } else if kind == 3 {
        EdifactEvent::RepeatElement { value }
    } else {
        EdifactEvent::EndSegment
    };
    let r = emitter.emit(ev);
    proof {
        if r is Ok {
            assert(events_view(final(emitter).emitted()) =~= events_view(old(emitter).emitted()).push((kind as int,
                if kind == 4 { Seq::<char>::empty() } else { v })));
        }
    }
    r
}

proof fn lemma_elements_prefix(parts: Seq<(usize, usize, String)>, a: int, b: int)
    requires
        0 <= a <= b,
    ensures
        elements_events(parts, a).len() <= elements_events(parts, b).len(),
        elements_events(parts, b).take(elements_events(parts, a).len() as int) == elements_events(parts, a),
    decreases b,
{
    if a < b {
        lemma_elements_prefix(parts, a, b - 1);
        let x = elements_events(parts, b - 1);
        let n = elements_events(parts, a).len() as int;
        assert(elements_events(parts, b) == x + element_events(parts, b - 1));
        assert((x + element_events(parts, b - 1)).take(n) =~= x.take(n));
    } else {
        assert(elements_events(parts, b).take(elements_events(parts, a).len() as int) =~= elements_events(parts, a));
    }
}

/// Where in a sparse segment's events slot `c` of element `e` stands.
proof fn lemma_sparse_position(tag: Seq<char>, parts: Seq<(usize, usize, String)>, e: int, c: int)
    requires
        0 <= e < element_count(parts),
        0 <= c < element_events(parts, e).len(),
    ensures
        ({
            let full = sparse_events(tag, parts);
            let k = 1 + elements_events(parts, e).len() + c;
            &&& k < full.len()
            &&& full.take(k) == seq![(0int, tag)] + elements_events(parts, e) + element_events(parts, e).take(c)
            &&& full[k] == element_events(parts, e)[c]
        }),
{
    let full = sparse_events(tag, parts);
    let all = elements_events(parts, element_count(parts));
    let here = elements_events(parts, e + 1);
    let k = 1 + elements_events(parts, e).len() + c;
    lemma_elements_prefix(parts, e + 1, element_count(parts));
    assert(here == elements_events(parts, e) + element_events(parts, e));
    let m = elements_events(parts, e).len() + c;
    assert(all[m] == here[m]);
    assert(full[k] == all[m]);
    assert(full.take(k) =~= seq![(0int, tag)] + all.take(m));
    assert(all.take(m) =~= here.take(m));
    assert(here.take(m) =~= elements_events(parts, e) + element_events(parts, e).take(c));
}

fn emit_sparse_events<E: EventEmitter>(emitter: &mut E, tag: &str, parts: &[(usize, usize, String)]) -> (r: Result<(), EdifactError>)
    requires
        forall|i: int| 0 <= i < parts@.len() ==> (#[trigger] parts@[i]).0 < usize::MAX && parts@[i].1 < usize::MAX,
    ensures
        emitted_all(*old(emitter), *final(emitter), sparse_events(tag@, parts@), r),
{
    let ghost start = events_view(emitter.emitted());
    let ghost full = sparse_events(tag@, parts@);
    let ghost o = *old(emitter);
    proof { assert(full.take(0) =~= Seq::<(int, Seq<char>)>::empty()); }
    match emit_viewed(emitter, 0, crate::text::own(tag)) {
        Ok(_) => {},
        Err(e) => {
            proof {
                assert(events_view(emitter.emitted()) =~= events_view(old(emitter).emitted()) + full.take(0));
                assert(emitter.written() =~= o.written() + bytes_of(o, full.take(0)));
                assert(!emitter.takes(full[0]));
            }
            return Err(e);
        },
    }
    proof {
        lemma_bytes_of_push(o, Seq::empty(), (0int, tag@));
        assert(Seq::<(int, Seq<char>)>::empty().push((0int, tag@)) =~= seq![(0int, tag@)] + elements_events(parts@, 0));
    }
    let count = count_elements(parts);
    let mut e: usize = 0;
    while e < count
        invariant
            e <= count,
            count == element_count(parts@),
            forall|i: int| 0 <= i < parts@.len() ==> (#[trigger] parts@[i]).0 < usize::MAX && parts@[i].1 < usize::MAX,
            start == events_view(old(emitter).emitted()),
            full == sparse_events(tag@, parts@),
            o == *old(emitter),
            same_bytes(o, *emitter),
            events_view(emitter.emitted()) == start + seq![(0int, tag@)] + elements_events(parts@, e as int),
            emitter.written() == o.written() + bytes_of(o, seq![(0int, tag@)] + elements_events(parts@, e as int)),
        decreases count - e,
    {
        let ghost before = events_view(emitter.emitted());
        let ghost pre = seq![(0int, tag@)] + elements_events(parts@, e as int);
        proof { assert(elements_events(parts@, e + 1) == elements_events(parts@, e as int) + element_events(parts@, e as int)); }
        let n = count_components(parts, e);
        if n == 0 {
            proof {
                assert(element_events(parts@, e as int) =~= seq![(1int, Seq::<char>::empty())]);
                lemma_sparse_position(tag@, parts@, e as int, 0);
            }
            match emit_viewed(emitter, 1, String::new()) {
                Ok(_) => {},
                Err(err) => {
                    proof {
                        let k: int = 1int + elements_events(parts@, e as int).len();
                        assert(events_view(emitter.emitted()) =~= start + full.take(k));
                        assert(full.take(k) =~= pre);
                        assert(!emitter.takes(full[k]));
                    }
                    return Err(err);
                },
            }
            proof {
                assert(element_events(parts@, e as int) =~= seq![(1int, Seq::<char>::empty())]);
                assert(events_view(emitter.emitted()) =~= start + seq![(0int, tag@)] + elements_events(parts@, e + 1));
                lemma_bytes_of_push(o, pre, (1int, Seq::<char>::empty()));
                assert(pre.push((1int, Seq::<char>::empty())) =~= seq![(0int, tag@)] + elements_events(parts@, e + 1));
            }
        } else {
            let mut c: usize = 0;
            while c < n
                invariant
                    c <= n,
                    n == component_count(parts@, e as int),
                    n > 0,
                    e < count,
                    count == element_count(parts@),
                    start == events_view(old(emitter).emitted()),
                    full == sparse_events(tag@, parts@),
                    before == start + seq![(0int, tag@)] + elements_events(parts@, e as int),
                    events_view(emitter.emitted()) == before + element_events(parts@, e as int).take(c as int),
                    o == *old(emitter),
                    same_bytes(o, *emitter),
                    pre == seq![(0int, tag@)] + elements_events(parts@, e as int),
                    emitter.written() == o.written() + bytes_of(o, pre + element_events(parts@, e as int).take(c as int)),
                decreases n - c,
            {
                let v = find_slot(parts, e, c);
                let kind: u8 = if c == 0 { 1 } else { 2 };
                let ghost bc = events_view(emitter.emitted());
                proof { lemma_sparse_position(tag@, parts@, e as int, c as int); }
                match emit_viewed(emitter, kind, v) {
                    Ok(_) => {},
                    Err(err) => {
                        proof {
                            let k: int = 1int + elements_events(parts@, e as int).len() + c;
                            assert(events_view(emitter.emitted()) =~= start + full.take(k));
                            assert(full.take(k) =~= pre + element_events(parts@, e as int).take(c as int));
                            assert(!emitter.takes(full[k]));
                        }
                        return Err(err);
                    },
                }
                proof {
                    let ee = element_events(parts@, e as int);
                    assert(ee.take(c + 1) =~= ee.take(c as int).push(ee[c as int]));
                    lemma_bytes_of_push(o, pre + ee.take(c as int), ee[c as int]);
                    assert((pre + ee.take(c as int)).push(ee[c as int]) =~= pre + ee.take(c + 1));
                }
                c = c + 1;
            }
            proof {
                assert(element_events(parts@, e as int).take(n as int) =~= element_events(parts@, e as int));
                assert(events_view(emitter.emitted()) =~= start + seq![(0int, tag@)] + elements_events(parts@, e + 1));
                assert(pre + element_events(parts@, e as int) =~= seq![(0int, tag@)] + elements_events(parts@, e + 1));
            }
        }
        e = e + 1;
    }
    let ghost mid = *emitter;
    let r = emit_viewed(emitter, 4, String::new());
    proof {
        let k: int = 1int + elements_events(parts@, count as int).len();
        assert(full[k] == (4int, Seq::<char>::empty()));
        let pre = seq![(0int, tag@)] + elements_events(parts@, count as int);
        lemma_bytes_of_push(o, pre, (4int, Seq::<char>::empty()));
        assert(pre.push((4int, Seq::<char>::empty())) =~= full);
        assert(same_bytes(o, *emitter)) by {
            assert forall|v: (int, Seq<char>)| #[trigger] emitter.bytes_for(v) == o.bytes_for(v) by {
                assert(mid.bytes_for(v) == o.bytes_for(v));
            }
        }
        if r is Ok {
            assert(events_view(emitter.emitted()) =~= start + sparse_events(tag@, parts@));
            assert(emitter.written() =~= o.written() + bytes_of(o, full));
        } else {
            assert(full.take(k) =~= seq![(0int, tag@)] + elements_events(parts@, count as int));
            assert(events_view(emitter.emitted()) =~= start + full.take(k));
            assert(emitter.written() =~= o.written() + bytes_of(o, full.take(k)));
            assert(!emitter.takes(full[k]));
        }
    }
    r
}

/// Writes a segment from values at (element, component) positions: every
/// element up to the highest one with a value is written, every component
/// slot up to the highest one filled; empty slots hold their position, and
/// where two values share a slot the first one given wins.
pub fn emit_sparse_segment<E: EventEmitter>(emitter: &mut E, tag: &str, parts: &mut Vec<(usize, usize, String)>) -> (r: Result<(), EdifactError>)
    requires
        forall|i: int| 0 <= i < old(parts)@.len() ==> (#[trigger] old(parts)@[i]).0 < usize::MAX && old(parts)@[i].1 < usize::MAX,
    ensures
        emitted_all(*old(emitter), *final(emitter), sparse_events(tag@, old(parts)@), r),
        final(parts)@ == sorted_parts(old(parts)@),
{
    let r = emit_sparse_events(emitter, tag, parts.as_slice());
    let sorted = sort_parts(parts);
    *parts = sorted;
    r
}

/// Whether part `a` comes no later than part `b`: by element, then component.
pub open spec fn slot_le(a: (usize, usize, String), b: (usize, usize, String)) -> bool {
    a.0 < b.0 || (a.0 == b.0 && a.1 <= b.1)
}

/// Where `x` goes among the ordered parts `s`: after every part that comes
/// no later than it.
pub open spec fn slot_insert_pos(s: Seq<(usize, usize, String)>, x: (usize, usize, String)) -> int
    decreases s.len(),
{
    if s.len() == 0 {
        0
    } else if !slot_le(s.last(), x) {
        slot_insert_pos(s.drop_last(), x)
    } else {
        s.len() as int
    }
}

/// The parts of `s` ordered by element, then component; parts at the same
/// slot keep their order.
pub open spec fn sorted_parts(s: Seq<(usize, usize, String)>) -> Seq<(usize, usize, String)>
    decreases s.len(),
{
    if s.len() == 0 {
        s
    } else {
        let r = sorted_parts(s.drop_last());
        r.insert(slot_insert_pos(r, s.last()), s.last())
    }
}

fn sort_parts(parts: &Vec<(usize, usize, String)>) -> (r: Vec<(usize, usize, String)>)
    ensures
        r@ == sorted_parts(parts@),
{
    let mut out: Vec<(usize, usize, String)> = Vec::new();
    let mut i: usize = 0;
    assert(parts@.take(0) =~= Seq::<(usize, usize, String)>::empty());
    while i < parts.len()
        invariant
            i <= parts@.len(),
            out@ == sorted_parts(parts@.take(i as int)),
        decreases parts@.len() - i,
    {
        let ghost cur = out@;
        let ghost x = parts@[i as int];
        let mut j: usize = out.len();
        assert(cur.take(j as int) =~= cur);
        loop
            invariant
                i < parts@.len(),
                x == parts@[i as int],
                cur == out@,
                j <= out@.len(),
                slot_insert_pos(cur, x) == slot_insert_pos(cur.take(j as int), x),
            ensures
                j <= out@.len(),
                slot_insert_pos(cur, x) == j,
            decreases j,
        {
            if j == 0 {
                break;
            }
            assert(cur.take(j as int).last() == cur[j - 1]);
            if out[j - 1].0 < parts[i].0 || (out[j - 1].0 == parts[i].0 && out[j - 1].1 <= parts[i].1) {
                break;
            }
            assert(cur.take(j as int).drop_last() =~= cur.take(j - 1));
            j = j - 1;
        }
        let item = (parts[i].0, parts[i].1, parts[i].2.clone());
        proof { assert(item == x); }
        out.insert(j, item);
        proof {
            assert(parts@.take(i + 1).drop_last() =~= parts@.take(i as int));
            assert(parts@.take(i + 1).last() == x);
        }
        i = i + 1;
    }
    assert(parts@.take(parts@.len() as int) =~= parts@);
    out
}

/// The bytes a value serializes to: the events it emits, written in turn
/// through a new emitter with the default service characters.  An error
/// of the value's own, or the first event the emitter refuses, ends it.
pub fn to_bytes<T: EdifactSerialize>(value: &T) -> (r: Result<Vec<u8>, EdifactError>)
    ensures
        r matches Ok(v) ==> exists|evs: Seq<EdifactEvent>|
            write_events(crate::syntax::default_ssa(), None, EmitterState::Idle, evs) == Ok::<Seq<u8>, (EmitterState, EdifactEvent)>(v@),
{
    let mut recorded = VecEmitter::new();
    match value.edifact_serialize(&mut recorded) {
        Ok(_) => {},
        Err(e) => return Err(e),
    }
    let r = events_to_bytes(recorded.events.as_slice());
    proof {
        let evs = recorded.events@;
        if r is Ok {
            assert(write_events(crate::syntax::default_ssa(), None, EmitterState::Idle, evs) is Ok);
        }
    }
    r
}

/// The text a value serializes to, as [`to_bytes`] writes it; output that
/// is not UTF-8 is `InvalidUtf8`.
pub fn to_edifact_string<T: EdifactSerialize>(value: &T) -> (r: Result<String, EdifactError>)
    ensures
        r matches Ok(t) ==> exists|evs: Seq<EdifactEvent>, b: Seq<u8>|
            write_events(crate::syntax::default_ssa(), None, EmitterState::Idle, evs) == Ok::<Seq<u8>, (EmitterState, EdifactEvent)>(b)
            && valid_utf8(b) && t@ == decode_utf8(b),
{
    match to_bytes(value) {
        Ok(b) => {
            let ghost bytes = b@;
            match crate::parser::bytes_into_string(b) {
                Some(s) => {
                    proof {
                        let evs = choose|evs: Seq<EdifactEvent>|
                            write_events(crate::syntax::default_ssa(), None, EmitterState::Idle, evs) == Ok::<Seq<u8>, (EmitterState, EdifactEvent)>(bytes);
                        assert(write_events(crate::syntax::default_ssa(), None, EmitterState::Idle, evs) == Ok::<Seq<u8>, (EmitterState, EdifactEvent)>(bytes) && valid_utf8(bytes) && s@ == decode_utf8(bytes));
                    }
                    Ok(s)
                },
                None => Err(EdifactError::InvalidUtf8),
            }
        },
        Err(e) => Err(e),
    }
}

/// The text with every `.` replaced by the character of `mark`.
pub open spec fn with_mark(t: Seq<char>, mark: u8) -> Seq<char> {
    t.map_values(|c: char| if c == '.' { mark as char } else { c })
}

/// Emits `text`, a number written with `.` as its decimal point, as one
/// element written with the emitter's own decimal mark.
pub fn emit_decimal_text<E: EventEmitter>(emitter: &mut E, text: &str) -> (r: Result<(), EdifactError>)
    ensures
        emitted_one(*old(emitter), *final(emitter), (1, with_mark(text@, old(emitter).mark_of())), r),
{
    let mark = emitter.decimal_mark();
    let m = mark as char;
    let cs = crate::text::to_chars(text);
    let mut out = String::new();
    let mut i: usize = 0;
    while i < cs.len()
        invariant
            i <= cs@.len(),
            cs@ == text@,
            m == mark as char,
            out@ == with_mark(text@.take(i as int), mark),
        decreases cs@.len() - i,
    {
        let c = cs[i];
        let d = if c == '.' { m } else { c };
        crate::text::string_push(&mut out, d);
        proof {
            assert(text@.take(i + 1) =~= text@.take(i as int).push(c));
            assert(with_mark(text@.take(i + 1), mark) =~= with_mark(text@.take(i as int), mark).push(d));
        }
        i = i + 1;
    }
    proof { assert(text@.take(cs@.len() as int) =~= text@); }
    emit_element(emitter, out)
}

} // verus!
