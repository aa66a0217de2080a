//! Writing through events: a segment is a `StartSegment`, its elements,
//! components and repetitions, and an `EndSegment`.

use vstd::prelude::*;

use crate::charset::Charset;
use crate::error::EdifactError;
use crate::syntax::ServiceStringAdvice;
use crate::text::own;
use crate::writer::{encodable, enc_text, escape, Writer};

verus! {

/// One step of writing a segment.
#[derive(Debug, PartialEq, Eq)]
#[non_exhaustive]
pub enum EdifactEvent {
    /// Opens a segment with this tag.
    StartSegment { tag: String },
    /// Opens a data element whose first component is this value.
    Element { value: String },
    /// A further component of the open data element.
    ComponentElement { value: String },
    /// The first component of a further occurrence of the open data element.
    RepeatElement { value: String },
    /// Closes the segment.
    EndSegment,
}

/// The text an event carries (empty for `EndSegment`).
pub open spec fn event_text(e: EdifactEvent) -> Seq<char> {
    match e {
        EdifactEvent::StartSegment { tag } => tag@,
        EdifactEvent::Element { value } => value@,
        EdifactEvent::ComponentElement { value } => value@,
        EdifactEvent::RepeatElement { value } => value@,
        EdifactEvent::EndSegment => Seq::empty(),
    }
}

impl EdifactEvent {
    /// A `StartSegment` event.
    pub fn start(tag: &str) -> (r: EdifactEvent)
        ensures
            r is StartSegment && event_text(r) == tag@,
    {
        EdifactEvent::StartSegment { tag: own(tag) }
    }

    /// An `Element` event.
    pub fn element(value: &str) -> (r: EdifactEvent)
        ensures
            r is Element && event_text(r) == value@,
    {
        EdifactEvent::Element { value: own(value) }
    }

    /// A `ComponentElement` event.
    pub fn component(value: &str) -> (r: EdifactEvent)
        ensures
            r is ComponentElement && event_text(r) == value@,
    {
        EdifactEvent::ComponentElement { value: own(value) }
    }

    /// A `RepeatElement` event.
    pub fn repeat(value: &str) -> (r: EdifactEvent)
        ensures
            r is RepeatElement && event_text(r) == value@,
    {
        EdifactEvent::RepeatElement { value: own(value) }
    }

    /// The same event (events always own their text).
    pub fn into_owned(self) -> (r: EdifactEvent)
        ensures
            r == self,
    {
        self
    }
}

impl Clone for EdifactEvent {
    fn clone(&self) -> (r: EdifactEvent)
        ensures
            r == *self,
    {
        match self {
            EdifactEvent::StartSegment { tag } => EdifactEvent::StartSegment { tag: tag.clone() },
            EdifactEvent::Element { value } => EdifactEvent::Element { value: value.clone() },
            EdifactEvent::ComponentElement { value } => EdifactEvent::ComponentElement { value: value.clone() },
            EdifactEvent::RepeatElement { value } => EdifactEvent::RepeatElement { value: value.clone() },
            EdifactEvent::EndSegment => EdifactEvent::EndSegment,
        }
    }
}

/// What an event is, with its text: 0 start, 1 element, 2 component,
/// 3 repetition, 4 end.
pub open spec fn event_view(e: EdifactEvent) -> (int, Seq<char>) {
    match e {
        EdifactEvent::StartSegment { tag } => (0, tag@),
        EdifactEvent::Element { value } => (1, value@),
        EdifactEvent::ComponentElement { value } => (2, value@),
        EdifactEvent::RepeatElement { value } => (3, value@),
        EdifactEvent::EndSegment => (4, Seq::empty()),
    }
}

/// The views of a sequence of events.
pub open spec fn events_view(es: Seq<EdifactEvent>) -> Seq<(int, Seq<char>)> {
    es.map_values(|e: EdifactEvent| event_view(e))
}

/// A sink for events.
pub trait EventEmitter {
    /// The events this emitter has accepted so far, in order.
    spec fn emitted(&self) -> Seq<EdifactEvent>;

    /// Whether the emitter, as it stands, takes an event of this kind and
    /// text (as [`event_view`] gives them).
    spec fn takes(&self, ev: (int, Seq<char>)) -> bool;

    /// The bytes this emitter has written so far (none, for one that only
    /// records events).
    spec fn written(&self) -> Seq<u8>;

    /// The bytes an event of this kind and text writes.
    spec fn bytes_for(&self, ev: (int, Seq<char>)) -> Seq<u8>;

    /// Takes one event: an event the emitter takes is appended to what was
    /// emitted and its bytes to what was written; a refused one leaves both
    /// as they were, and the emitter still refuses it.  What each event
    /// would write stays as it was.
    fn emit(&mut self, event: EdifactEvent) -> (r: Result<(), EdifactError>)
        ensures
            (r is Ok) == old(self).takes(event_view(event)),
            r is Ok ==> final(self).emitted() == old(self).emitted().push(event)
                && final(self).written() == old(self).written() + old(self).bytes_for(event_view(event)),
            r is Err ==> final(self).emitted() == old(self).emitted() && final(self).written() == old(self).written()
                && !final(self).takes(event_view(event)),
            forall|v: (int, Seq<char>)| #[trigger] final(self).bytes_for(v) == old(self).bytes_for(v);

    /// The decimal mark this emitter writes numbers with.
    spec fn mark_of(&self) -> u8;

    /// The decimal mark numbers are written with.
    fn decimal_mark(&self) -> (r: u8)
        ensures
            r == self.mark_of();
}

/// An emitter that records every event.
#[derive(Debug)]
pub struct VecEmitter {
    /// The events taken so far, in order.
    pub events: Vec<EdifactEvent>,
}

impl VecEmitter {
    /// An emitter with no events yet.
    pub fn new() -> (r: VecEmitter)
        ensures
            r.events@.len() == 0,
    {
        VecEmitter { events: Vec::new() }
    }
}

impl Default for VecEmitter {
    fn default() -> (r: VecEmitter)
        ensures
            r.events@.len() == 0,
    {
        VecEmitter::new()
    }
}

impl EventEmitter for VecEmitter {
    open spec fn emitted(&self) -> Seq<EdifactEvent> {
        self.events@
    }

    open spec fn takes(&self, ev: (int, Seq<char>)) -> bool {
        true
    }

    open spec fn written(&self) -> Seq<u8> {
        Seq::empty()
    }

    open spec fn bytes_for(&self, ev: (int, Seq<char>)) -> Seq<u8> {
        Seq::empty()
    }

    /// Records the event; never fails.
    fn emit(&mut self, event: EdifactEvent) -> (r: Result<(), EdifactError>)
        ensures
            r is Ok,
            final(self).events@ == old(self).events@.push(event),
    {
        self.events.push(event);
        Ok(())
    }

    open spec fn mark_of(&self) -> u8 {
        46u8
    }

    /// The default decimal mark, `.`.
    fn decimal_mark(&self) -> (r: u8)
        ensures
            r == 46u8,
    {
        46u8
    }
}

/// Where a writing emitter stands in a segment.
#[derive(Debug, Clone, Copy, PartialEq, Eq, Structural)]
pub enum EmitterState {
    /// No segment is open.
    Idle,
    /// A segment is open and has no element yet.
    InSegment,
    /// A segment is open and has an element.
    InElement,
}

/// An emitter that writes EDIFACT through a [`Writer`], checking that the
/// events form segments.
pub struct WriterEmitter {
    /// The writer the events go to.
    pub writer: Writer,
    /// Where the emitter stands.
    pub state: EmitterState,
    /// The events accepted so far.
    pub history: Ghost<Seq<EdifactEvent>>,
}

/// The emitter state after an accepted event.
pub open spec fn next_state(st: EmitterState, e: EdifactEvent) -> EmitterState {
    match e {
        EdifactEvent::StartSegment { .. } => EmitterState::InSegment,
        EdifactEvent::EndSegment => EmitterState::Idle,
        _ => EmitterState::InElement,
    }
}

/// Whether an event may follow in state `st`: a segment opens only when none
/// is, an element or the end only inside one, a component or a repetition
/// only after an element.
pub open spec fn event_allowed(st: EmitterState, e: EdifactEvent) -> bool {
    match e {
        EdifactEvent::StartSegment { .. } => st == EmitterState::Idle,
        EdifactEvent::Element { .. } => st != EmitterState::Idle,
        EdifactEvent::ComponentElement { .. } => st == EmitterState::InElement,
        EdifactEvent::RepeatElement { .. } => st == EmitterState::InElement,
        EdifactEvent::EndSegment => st != EmitterState::Idle,
    }
}

/// The bytes an accepted event writes.
pub open spec fn event_bytes(s: ServiceStringAdvice, cs: Option<Charset>, e: EdifactEvent) -> Seq<u8> {
    match e {
        EdifactEvent::StartSegment { tag } => enc_text(cs, tag@),
        EdifactEvent::Element { value } => seq![s.element_sep] + escape(s, enc_text(cs, value@)),
        EdifactEvent::ComponentElement { value } => seq![s.component_sep] + escape(s, enc_text(cs, value@)),
        EdifactEvent::RepeatElement { value } => seq![s.repetition_sep] + escape(s, enc_text(cs, value@)),
        EdifactEvent::EndSegment => seq![s.segment_term],
    }
}

/// Whether an emitter in state `st`, writing with `s` and `cs`, takes `e`:
/// the event is in place, a repetition has its separator, and the text fits
/// the repertoire.
pub open spec fn accepts(s: ServiceStringAdvice, cs: Option<Charset>, st: EmitterState, e: EdifactEvent) -> bool {
    &&& event_allowed(st, e)
    &&& !(e is RepeatElement && !s.repetition_active())
    &&& encodable(cs, event_text(e))
}

/// Whether an event of kind `k` may follow in state `st` (kinds as
/// [`event_view`] numbers them).
pub open spec fn kind_allowed(st: EmitterState, k: int) -> bool {
    if k == 0 {
        st == EmitterState::Idle
    } else if k == 1 || k == 4 {
        st != EmitterState::Idle
    } else {
        st == EmitterState::InElement
    }
}

/// [`event_bytes`], on an event's kind and text.
pub open spec fn view_bytes(s: ServiceStringAdvice, cs: Option<Charset>, v: (int, Seq<char>)) -> Seq<u8> {
    if v.0 == 0 {
        enc_text(cs, v.1)
    } else if v.0 == 1 {
        seq![s.element_sep] + escape(s, enc_text(cs, v.1))
    } else if v.0 == 2 {
        seq![s.component_sep] + escape(s, enc_text(cs, v.1))
    } else if v.0 == 3 {
        seq![s.repetition_sep] + escape(s, enc_text(cs, v.1))
    } else {
        seq![s.segment_term]
    }
}

/// [`accepts`], on an event's kind and text.
pub open spec fn takes_view(s: ServiceStringAdvice, cs: Option<Charset>, st: EmitterState, v: (int, Seq<char>)) -> bool {
    &&& kind_allowed(st, v.0)
    &&& !(v.0 == 3 && !s.repetition_active())
    &&& encodable(cs, v.1)
}

/// The error such an emitter refuses `e` with, by its kind.
pub open spec fn refusal_is(s: ServiceStringAdvice, cs: Option<Charset>, st: EmitterState, e: EdifactEvent, err: EdifactError) -> bool {
    if !event_allowed(st, e) {
        err is InvalidEventSequence
    } else if e is RepeatElement && !s.repetition_active() {
        err is RepetitionSeparatorNotDeclared
    } else {
        err is CharacterNotInRepertoire
    }
}

/// What writing `evs` in turn from state `st` gives: the bytes of every
/// event, or the first event refused and the state it met.
pub open spec fn write_events(s: ServiceStringAdvice, cs: Option<Charset>, st: EmitterState, evs: Seq<EdifactEvent>)
    -> Result<Seq<u8>, (EmitterState, EdifactEvent)>
    decreases evs.len(),
{
    if evs.len() == 0 {
        Ok(Seq::empty())
    } else if !accepts(s, cs, st, evs[0]) {
        Err((st, evs[0]))
    } else {
        match write_events(s, cs, next_state(st, evs[0]), evs.drop_first()) {
            Ok(b) => Ok(event_bytes(s, cs, evs[0]) + b),
            Err(x) => Err(x),
        }
    }
}

impl WriterEmitter {
    /// An emitter over a new writer with the default service characters.
    pub fn new() -> (r: WriterEmitter)
        ensures
            r.writer.bytes().len() == 0,
            r.writer.ssa_of() == crate::syntax::default_ssa(),
            r.writer.charset_of() is None,
            r.writer.count_of() == 0,
            r.state == EmitterState::Idle,
            r.history@.len() == 0,
    {
        WriterEmitter { writer: Writer::new(), state: EmitterState::Idle, history: Ghost(Seq::empty()) }
    }

    /// An emitter over a writer for the given service characters, whose
    /// output starts with their `UNA` header.
    pub fn with_una(ssa: ServiceStringAdvice) -> (r: Result<WriterEmitter, EdifactError>)
        ensures
            match r {
                Ok(w) => ssa.valid() && w.writer.bytes() == crate::syntax::una_header(ssa)
                    && w.writer.ssa_of() == ssa && w.writer.charset_of() is None && w.writer.count_of() == 0 && w.state == EmitterState::Idle
                    && w.history@.len() == 0,
                Err(e) => !ssa.valid() && e is InvalidUna,
            },
    {
        match Writer::with_una(ssa) {
            Ok(w) => Ok(WriterEmitter { writer: w, state: EmitterState::Idle, history: Ghost(Seq::empty()) }),
            Err(e) => Err(e),
        }
    }

    /// This emitter encoding text in `charset`.
    pub fn with_charset(self, charset: Charset) -> (r: WriterEmitter)
        ensures
            r.writer.bytes() == self.writer.bytes(),
            r.writer.ssa_of() == self.writer.ssa_of(),
            r.writer.count_of() == self.writer.count_of(),
            r.writer.charset_of() == Some(charset),
            r.state == self.state,
            r.history == self.history,
    {
        WriterEmitter { writer: self.writer.with_charset(charset), state: self.state, history: self.history }
    }

    /// The output written so far.
    pub fn finish(self) -> (r: Result<Vec<u8>, EdifactError>)
        ensures
            r matches Ok(v) && v@ == self.writer.bytes(),
    {
        self.writer.finish()
    }

    /// The number of segments written.
    pub fn segment_count(&self) -> (r: u64)
        ensures
            r == self.writer.count_of(),
    {
        self.writer.segment_count()
    }

    /// The service characters in force.
    pub fn service_string_advice(&self) -> (r: ServiceStringAdvice)
        ensures
            r == self.writer.ssa_of(),
    {
        self.writer.service_string_advice()
    }
}

impl WriterEmitter {
    fn write_after(&mut self, sep: u8, value: &str) -> (r: Result<(), EdifactError>)
        ensures
            final(self).state == old(self).state,
            final(self).history == old(self).history,
            final(self).writer.ssa_of() == old(self).writer.ssa_of(),
            final(self).writer.charset_of() == old(self).writer.charset_of(),
            final(self).writer.count_of() == old(self).writer.count_of(),
            match r {
                Ok(_) => encodable(old(self).writer.charset_of(), value@)
                    && final(self).writer.bytes() == old(self).writer.bytes() + (seq![sep] + escape(old(self).writer.ssa_of(), enc_text(old(self).writer.charset_of(), value@))),
                Err(e) => !encodable(old(self).writer.charset_of(), value@) && e is CharacterNotInRepertoire
                    && final(self).writer.bytes() == old(self).writer.bytes(),
            },
    {
        self.writer.write_separated(sep, value)
    }
}

impl EventEmitter for WriterEmitter {
    open spec fn emitted(&self) -> Seq<EdifactEvent> {
        self.history@
    }

    open spec fn takes(&self, ev: (int, Seq<char>)) -> bool {
        takes_view(self.writer.ssa_of(), self.writer.charset_of(), self.state, ev)
    }

    open spec fn written(&self) -> Seq<u8> {
        self.writer.bytes()
    }

    open spec fn bytes_for(&self, ev: (int, Seq<char>)) -> Seq<u8> {
        view_bytes(self.writer.ssa_of(), self.writer.charset_of(), ev)
    }

    /// Writes one event.  An event out of place is `InvalidEventSequence`; a
    /// repetition without a declared separator is
    /// `RepetitionSeparatorNotDeclared`; a value the repertoire cannot hold
    /// is `CharacterNotInRepertoire`.  A refused event writes nothing.
    fn emit(&mut self, event: EdifactEvent) -> (r: Result<(), EdifactError>)
        ensures
            final(self).writer.ssa_of() == old(self).writer.ssa_of(),
            final(self).writer.charset_of() == old(self).writer.charset_of(),
            match r {
                Ok(_) => accepts(old(self).writer.ssa_of(), old(self).writer.charset_of(), old(self).state, event)
                    && final(self).state == next_state(old(self).state, event)
                    && final(self).writer.bytes() == old(self).writer.bytes() + event_bytes(old(self).writer.ssa_of(), old(self).writer.charset_of(), event)
                    && final(self).writer.count_of() == (if event is EndSegment { crate::writer::saturating_inc(old(self).writer.count_of()) } else { old(self).writer.count_of() }),
                Err(e) => final(self).state == old(self).state && final(self).writer.bytes() == old(self).writer.bytes()
                    && final(self).writer.count_of() == old(self).writer.count_of()
                    && (if !event_allowed(old(self).state, event) {
                        e is InvalidEventSequence
                    } else if event is RepeatElement && !old(self).writer.ssa_of().repetition_active() {
                        e is RepetitionSeparatorNotDeclared
                    } else {
                        !encodable(old(self).writer.charset_of(), event_text(event)) && e is CharacterNotInRepertoire
                    }),
            },
    {
        let ghost ev = event;
        let ghost before = self.history@;
        let r = self.emit_inner(event);
        if r.is_ok() {
            self.history = Ghost(before.push(ev));
        }
        r
    }

    open spec fn mark_of(&self) -> u8 {
        self.writer.ssa_of().decimal_mark
    }

    /// The writer's decimal mark.
    fn decimal_mark(&self) -> (r: u8)
        ensures
            r == self.writer.ssa_of().decimal_mark,
    {
        self.writer.service_string_advice().decimal_mark
    }
}

impl WriterEmitter {
    fn emit_inner(&mut self, event: EdifactEvent) -> (r: Result<(), EdifactError>)
        ensures
            final(self).history == old(self).history,
            final(self).writer.ssa_of() == old(self).writer.ssa_of(),
            final(self).writer.charset_of() == old(self).writer.charset_of(),
            match r {
                Ok(_) => accepts(old(self).writer.ssa_of(), old(self).writer.charset_of(), old(self).state, event)
                    && final(self).state == next_state(old(self).state, event)
                    && final(self).writer.bytes() == old(self).writer.bytes() + event_bytes(old(self).writer.ssa_of(), old(self).writer.charset_of(), event)
                    && final(self).writer.count_of() == (if event is EndSegment { crate::writer::saturating_inc(old(self).writer.count_of()) } else { old(self).writer.count_of() }),
                Err(e) => final(self).state == old(self).state && final(self).writer.bytes() == old(self).writer.bytes()
                    && final(self).writer.count_of() == old(self).writer.count_of()
                    && (if !event_allowed(old(self).state, event) {
                        e is InvalidEventSequence
                    } else if event is RepeatElement && !old(self).writer.ssa_of().repetition_active() {
                        e is RepetitionSeparatorNotDeclared
                    } else {
                        !encodable(old(self).writer.charset_of(), event_text(event)) && e is CharacterNotInRepertoire
                    }),
            },
    {
        match event {
            EdifactEvent::StartSegment { tag } => {
                if self.state != EmitterState::Idle {
                    return Err(EdifactError::InvalidEventSequence {
                        message: "StartSegment emitted while a segment is already open; emit EndSegment first",
                    });
                }
                match self.writer.write_tag_only(tag.as_str()) {
                    Ok(_) => {},
                    Err(e) => return Err(e),
                }
                self.state = EmitterState::InSegment;
            },
            EdifactEvent::Element { value } => {
                if self.state == EmitterState::Idle {
                    return Err(EdifactError::InvalidEventSequence {
                        message: "Element emitted outside of a segment; emit StartSegment first",
                    });
                }
                let sep = self.writer.service_string_advice().element_sep;
                match self.write_after(sep, value.as_str()) {
                    Ok(_) => {},
                    Err(e) => return Err(e),
                }
                self.state = EmitterState::InElement;
            },
            EdifactEvent::ComponentElement { value } => {
                if self.state != EmitterState::InElement {
                    return Err(EdifactError::InvalidEventSequence {
                        message: "ComponentElement emitted without a preceding Element in the same segment",
                    });
                }
                let sep = self.writer.service_string_advice().component_sep;
                match self.write_after(sep, value.as_str()) {
                    Ok(_) => {},
                    Err(e) => return Err(e),
                }
            },
            EdifactEvent::RepeatElement { value } => {
                if self.state != EmitterState::InElement {
                    return Err(EdifactError::InvalidEventSequence {
                        message: "RepeatElement emitted without a preceding Element in the same segment",
                    });
                }
                let ssa = self.writer.service_string_advice();
                if !ssa.is_repetition_active() {
                    return Err(EdifactError::RepetitionSeparatorNotDeclared);
                }
                match self.write_after(ssa.repetition_sep, value.as_str()) {
                    Ok(_) => {},
                    Err(e) => return Err(e),
                }
            },
            EdifactEvent::EndSegment => {
                if self.state == EmitterState::Idle {
                    return Err(EdifactError::InvalidEventSequence {
                        message: "EndSegment emitted while no segment is open; emit StartSegment first",
                    });
                }
                self.writer.write_segment_term_and_count();
                self.state = EmitterState::Idle;
            },
        }
        Ok(())
    }

}

/// The bytes `events` write, in turn, through a new emitter with the
/// default service characters; the first refused event ends writing with
/// its error.
pub fn events_to_bytes(events: &[EdifactEvent]) -> (r: Result<Vec<u8>, EdifactError>)
    ensures
        match write_events(crate::syntax::default_ssa(), None, EmitterState::Idle, events@) {
            Ok(b) => r matches Ok(v) && v@ == b,
            Err((st, e)) => r matches Err(err) && refusal_is(crate::syntax::default_ssa(), None, st, e, err),
        },
{
    let mut em = WriterEmitter::new();
    let ghost s = crate::syntax::default_ssa();
    let ghost all = events@;
    let mut i: usize = 0;
    assert(all.skip(0) =~= all);
    while i < events.len()
        invariant
            i <= events@.len(),
            all == events@,
            s == crate::syntax::default_ssa(),
            em.writer.ssa_of() == s,
            em.writer.charset_of() is None,
            write_events(s, None, EmitterState::Idle, all) == (match write_events(s, None, em.state, all.skip(i as int)) {
                Ok(b) => Ok(em.writer.bytes() + b),
                Err(x) => Err(x),
            }),
        decreases events@.len() - i,
    {
        let ghost st = em.state;
        let ghost before = em.writer.bytes();
        let ghost t = all.skip(i as int);
        proof {
            assert(t[0] == all[i as int]);
            assert(t.drop_first() =~= all.skip(i + 1));
        }
        let ev = events[i].clone();
        match em.emit(ev) {
            Ok(_) => {
                proof {
                    let rest = write_events(s, None, next_state(st, t[0]), t.drop_first());
                    match rest {
                        Ok(b) => { assert(before + (event_bytes(s, None, t[0]) + b) =~= em.writer.bytes() + b); },
                        Err(x) => {},
                    }
                }
            },
            Err(e) => {
                proof {
                    assert(!accepts(s, None, st, t[0]));
                    assert(write_events(s, None, st, t) == Err::<Seq<u8>, (EmitterState, EdifactEvent)>((st, t[0])));
                }
                return Err(e);
            },
        }
        i = i + 1;
    }
    proof {
        assert(all.skip(i as int).len() == 0);
        assert(em.writer.bytes() + Seq::<u8>::empty() =~= em.writer.bytes());
    }
    em.finish()
}

} // verus!
