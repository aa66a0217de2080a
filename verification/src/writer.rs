//! The writer: segments to bytes, escaping what would read as a service
//! character and encoding text in the chosen repertoire.

use vstd::prelude::*;
use vstd::utf8::encode_utf8;

use crate::charset::{charset_id, encode_chars, first_unencodable, Charset};
use crate::error::EdifactError;
use crate::model::{component_items, occurrences, pair, single, texts, Components, Element, Segment, Span};
use crate::syntax::{ends_segment, scan, una_header, ServiceStringAdvice};
use crate::text::{decimal, decimal_string, own, str_eq};

verus! {

/// Whether a byte must be escaped: a separator, the terminator or the release
/// character itself.
pub open spec fn is_special(s: ServiceStringAdvice, b: u8) -> bool {
    b == s.release_char || b == s.element_sep || b == s.component_sep || b == s.segment_term
        || (s.repetition_active() && b == s.repetition_sep)
}

/// The bytes `b` with a release character before every special byte.
pub open spec fn escape(s: ServiceStringAdvice, b: Seq<u8>) -> Seq<u8>
    decreases b.len(),
{
    if b.len() == 0 {
        Seq::empty()
    } else {
        let e = escape(s, b.drop_last());
        if is_special(s, b.last()) { e.push(s.release_char).push(b.last()) } else { e.push(b.last()) }
    }
}

/// Whether a text can be written in the repertoire (`None`: UTF-8).
pub open spec fn encodable(cs: Option<Charset>, t: Seq<char>) -> bool {
    match cs {
        None => true,
        Some(c) => c == Charset::UnoY || first_unencodable(c, t, 0) < 0,
    }
}

/// The bytes of a text in the repertoire (`None`: UTF-8).
pub open spec fn enc_text(cs: Option<Charset>, t: Seq<char>) -> Seq<u8> {
    match cs {
        None => encode_utf8(t),
        Some(c) => if c == Charset::UnoY { encode_utf8(t) } else { encode_chars(c, t) },
    }
}

/// The components of one occurrence, escaped and joined by the component separator.
pub open spec fn render_items(s: ServiceStringAdvice, cs: Option<Charset>, items: Seq<(String, Span)>) -> Seq<u8>
    decreases items.len(),
{
    if items.len() == 0 {
        Seq::empty()
    } else {
        let e = escape(s, enc_text(cs, items.last().0@));
        if items.len() == 1 { e } else { render_items(s, cs, items.drop_last()).push(s.component_sep) + e }
    }
}

/// The occurrences of an element joined by the repetition separator.
pub open spec fn render_occs(s: ServiceStringAdvice, cs: Option<Charset>, occs: Seq<Seq<(String, Span)>>) -> Seq<u8>
    decreases occs.len(),
{
    if occs.len() == 0 {
        Seq::empty()
    } else {
        let e = render_items(s, cs, occs.last());
        if occs.len() == 1 { e } else { render_occs(s, cs, occs.drop_last()).push(s.repetition_sep) + e }
    }
}

/// The elements of a segment, each after an element separator.
pub open spec fn render_elements(s: ServiceStringAdvice, cs: Option<Charset>, es: Seq<Element>) -> Seq<u8>
    decreases es.len(),
{
    if es.len() == 0 {
        Seq::empty()
    } else {
        render_elements(s, cs, es.drop_last()).push(s.element_sep) + render_occs(s, cs, occurrences(es.last()))
    }
}

/// A segment as written: its tag, its elements and the terminator.
pub open spec fn render_segment(s: ServiceStringAdvice, cs: Option<Charset>, seg: Segment) -> Seq<u8> {
    enc_text(cs, seg.tag@) + render_elements(s, cs, seg.elements@) + seq![s.segment_term]
}

/// Whether every text of a segment can be written in the repertoire.
pub open spec fn segment_encodable(cs: Option<Charset>, seg: Segment) -> bool {
    &&& encodable(cs, seg.tag@)
    &&& forall|e: int, o: int, c: int|
        0 <= e < seg.elements@.len() && 0 <= o < occurrences(seg.elements@[e]).len()
        && 0 <= c < occurrences(seg.elements@[e])[o].len()
        ==> encodable(cs, (#[trigger] occurrences(seg.elements@[e])[o][c]).0@)
}

/// Whether some element of the segment repeats.
pub open spec fn has_repeats(seg: Segment) -> bool {
    exists|e: int| 0 <= e < seg.elements@.len() && (#[trigger] seg.elements@[e]).repeats@.len() > 0
}

/// `n + 1`, or `n` at `u64::MAX`.
pub open spec fn saturating_inc(n: u64) -> u64 {
    if n == u64::MAX { n } else { (n + 1) as u64 }
}

/// The writer: its output so far, its service characters, its repertoire
/// (`None` writes UTF-8) and the number of segments written.
pub struct Writer {
    out: Vec<u8>,
    ssa: ServiceStringAdvice,
    charset: Option<Charset>,
    count: u64,
}

fn escape_into(out: &mut Vec<u8>, b: &[u8], s: ServiceStringAdvice)
    ensures
        final(out)@ == old(out)@ + escape(s, b@),
{
    let ghost start = out@;
    let mut i: usize = 0;
    while i < b.len()
        invariant
            i <= b@.len(),
            out@ == start + escape(s, b@.take(i as int)),
        decreases b@.len() - i,
    {
        let x = b[i];
        proof { assert(b@.take(i + 1).drop_last() =~= b@.take(i as int)); }
        let special = x == s.release_char || x == s.element_sep || x == s.component_sep || x == s.segment_term
            || (s.repetition_sep != 32u8 && x == s.repetition_sep);
        if special {
            out.push(s.release_char);
        }
        out.push(x);
        proof { assert(out@ =~= start + escape(s, b@.take(i + 1))); }
        i = i + 1;
    }
    proof { assert(b@.take(b@.len() as int) =~= b@); }
}

fn encode_with(cs: Option<Charset>, text: &str) -> (r: Result<Vec<u8>, EdifactError>)
    ensures
        match r {
            Ok(b) => encodable(cs, text@) && b@ == enc_text(cs, text@),
            Err(e) => !encodable(cs, text@) && e is CharacterNotInRepertoire,
        },
{
    match cs {
        None => Ok(vstd::slice::slice_to_vec(text.as_bytes())),
        Some(c) => c.encode(text),
    }
}

impl Writer {
    /// The bytes written so far.
    pub closed spec fn bytes(&self) -> Seq<u8> {
        self.out@
    }

    /// The service characters in force.
    pub closed spec fn ssa_of(&self) -> ServiceStringAdvice {
        self.ssa
    }

    /// The repertoire text is encoded in; `None` writes UTF-8 unchecked.
    pub closed spec fn charset_of(&self) -> Option<Charset> {
        self.charset
    }

    /// The number of segments terminated so far.
    pub closed spec fn count_of(&self) -> u64 {
        self.count
    }

    /// A writer with the default service characters, writing UTF-8, and no output yet.
    pub fn new() -> (r: Writer)
        ensures
            r.bytes().len() == 0,
            r.ssa_of() == crate::syntax::default_ssa(),
            r.charset_of() is None,
            r.count_of() == 0,
    {
        Writer { out: Vec::new(), ssa: ServiceStringAdvice::new(), charset: None, count: 0 }
    }

    /// A writer for the given service characters, which starts its output
    /// with the `UNA` header declaring them; service characters that break
    /// the `UNA` rule are `InvalidUna`.
    pub fn with_una(ssa: ServiceStringAdvice) -> (r: Result<Writer, EdifactError>)
        ensures
            match r {
                Ok(w) => ssa.valid() && w.bytes() == una_header(ssa) && w.ssa_of() == ssa && w.charset_of() is None && w.count_of() == 0,
                Err(e) => !ssa.valid() && e is InvalidUna,
            },
    {
        if !ssa.is_valid() {
            return Err(EdifactError::InvalidUna);
        }
        Ok(Writer { out: ssa.una_bytes(), ssa, charset: None, count: 0 })
    }

    /// This writer encoding text in `charset`.
    pub fn with_charset(self, charset: Charset) -> (r: Writer)
        ensures
            r.bytes() == self.bytes(),
            r.ssa_of() == self.ssa_of(),
            r.count_of() == self.count_of(),
            r.charset_of() == Some(charset),
    {
        Writer { charset: Some(charset), ..self }
    }

    /// The service characters in force.
    pub fn service_string_advice(&self) -> (r: ServiceStringAdvice)
        ensures
            r == self.ssa_of(),
    {
        self.ssa
    }

    /// The number of segments terminated so far.
    pub fn segment_count(&self) -> (r: u64)
        ensures
            r == self.count_of(),
    {
        self.count
    }

    /// The output.
    pub fn finish(self) -> (r: Result<Vec<u8>, EdifactError>)
        ensures
            r matches Ok(v) && v@ == self.bytes(),
    {
        Ok(self.out)
    }

    /// Writes a segment tag as it is, encoded in the repertoire.
    pub fn write_tag_only(&mut self, tag: &str) -> (r: Result<(), EdifactError>)
        ensures
            final(self).ssa_of() == old(self).ssa_of(),
            final(self).charset_of() == old(self).charset_of(),
            final(self).count_of() == old(self).count_of(),
            match r {
                Ok(_) => encodable(old(self).charset_of(), tag@) && final(self).bytes() == old(self).bytes() + enc_text(old(self).charset_of(), tag@),
                Err(e) => !encodable(old(self).charset_of(), tag@) && e is CharacterNotInRepertoire && final(self).bytes() == old(self).bytes(),
            },
    {
        match encode_with(self.charset, tag) {
            Ok(b) => {
                let mut b = b;
                self.out.append(&mut b);
                Ok(())
            },
            Err(e) => Err(e),
        }
    }

    /// Writes the element separator.
    pub fn write_element_sep(&mut self)
        ensures
            final(self).ssa_of() == old(self).ssa_of(),
            final(self).charset_of() == old(self).charset_of(),
            final(self).count_of() == old(self).count_of(),
            final(self).bytes() == old(self).bytes().push(old(self).ssa_of().element_sep),
    {
        let b = self.ssa.element_sep;
        self.out.push(b);
    }

    /// Writes the component separator.
    pub fn write_component_sep(&mut self)
        ensures
            final(self).ssa_of() == old(self).ssa_of(),
            final(self).charset_of() == old(self).charset_of(),
            final(self).count_of() == old(self).count_of(),
            final(self).bytes() == old(self).bytes().push(old(self).ssa_of().component_sep),
    {
        let b = self.ssa.component_sep;
        self.out.push(b);
    }

    /// Writes the repetition separator; without one declared this is
    /// `RepetitionSeparatorNotDeclared` and nothing is written.
    pub fn write_repetition_sep(&mut self) -> (r: Result<(), EdifactError>)
        ensures
            final(self).ssa_of() == old(self).ssa_of(),
            final(self).charset_of() == old(self).charset_of(),
            final(self).count_of() == old(self).count_of(),
            match r {
                Ok(_) => old(self).ssa_of().repetition_active() && final(self).bytes() == old(self).bytes().push(old(self).ssa_of().repetition_sep),
                Err(e) => !old(self).ssa_of().repetition_active() && e is RepetitionSeparatorNotDeclared && final(self).bytes() == old(self).bytes(),
            },
    {
        if !self.ssa.is_repetition_active() {
            return Err(EdifactError::RepetitionSeparatorNotDeclared);
        }
        let b = self.ssa.repetition_sep;
        self.out.push(b);
        Ok(())
    }

    /// Writes a value, encoded in the repertoire and escaped.
    pub fn write_escaped(&mut self, value: &str) -> (r: Result<(), EdifactError>)
        ensures
            final(self).ssa_of() == old(self).ssa_of(),
            final(self).charset_of() == old(self).charset_of(),
            final(self).count_of() == old(self).count_of(),
            match r {
                Ok(_) => encodable(old(self).charset_of(), value@)
                    && final(self).bytes() == old(self).bytes() + escape(old(self).ssa_of(), enc_text(old(self).charset_of(), value@)),
                Err(e) => !encodable(old(self).charset_of(), value@) && e is CharacterNotInRepertoire && final(self).bytes() == old(self).bytes(),
            },
    {
        match encode_with(self.charset, value) {
            Ok(b) => {
                escape_into(&mut self.out, b.as_slice(), self.ssa);
                Ok(())
            },
            Err(e) => Err(e),
        }
    }

    /// Writes the segment terminator and counts the segment.
    pub fn write_segment_term_and_count(&mut self)
        ensures
            final(self).bytes() == old(self).bytes().push(old(self).ssa_of().segment_term),
            final(self).count_of() == saturating_inc(old(self).count_of()),
            final(self).ssa_of() == old(self).ssa_of(),
            final(self).charset_of() == old(self).charset_of(),
    {
        let b = self.ssa.segment_term;
        self.out.push(b);
        self.count = self.count.saturating_add(1);
    }
}

fn render_items_into(buf: &mut Vec<u8>, items: &[(String, Span)], s: ServiceStringAdvice, cs: Option<Charset>) -> (r: Result<(), EdifactError>)
    ensures
        match r {
            Ok(_) => (forall|c: int| 0 <= c < items@.len() ==> encodable(cs, (#[trigger] items@[c]).0@))
                && final(buf)@ == old(buf)@ + render_items(s, cs, items@),
            Err(e) => (exists|c: int| 0 <= c < items@.len() && !encodable(cs, (#[trigger] items@[c]).0@))
                && e is CharacterNotInRepertoire,
        },
{
    let ghost start = buf@;
    let mut k: usize = 0;
    while k < items.len()
        invariant
            k <= items@.len(),
            forall|c: int| 0 <= c < k ==> encodable(cs, (#[trigger] items@[c]).0@),
            buf@ == start + render_items(s, cs, items@.take(k as int)),
        decreases items@.len() - k,
    {
        proof { assert(items@.take(k + 1).drop_last() =~= items@.take(k as int)); }
        if k > 0 {
            buf.push(s.component_sep);
        }
        match encode_with(cs, items[k].0.as_str()) {
            Ok(b) => {
                escape_into(buf, b.as_slice(), s);
            },
            Err(e) => return Err(e),
        }
        proof {
            assert(items@.take(k + 1).last() == items@[k as int]);
            if k == 0 { assert(start + render_items(s, cs, items@.take(1)) =~= buf@); }
            else { assert(start + render_items(s, cs, items@.take(k + 1)) =~= buf@); }
        }
        k = k + 1;
    }
    proof { assert(items@.take(items@.len() as int) =~= items@); }
    Ok(())
}

fn render_element_into(buf: &mut Vec<u8>, e: &Element, s: ServiceStringAdvice, cs: Option<Charset>) -> (r: Result<(), EdifactError>)
    ensures
        match r {
            Ok(_) => (forall|o: int, c: int| 0 <= o < occurrences(*e).len() && 0 <= c < occurrences(*e)[o].len()
                    ==> encodable(cs, (#[trigger] occurrences(*e)[o][c]).0@))
                && final(buf)@ == old(buf)@.push(s.element_sep) + render_occs(s, cs, occurrences(*e)),
            Err(err) => (exists|o: int, c: int| 0 <= o < occurrences(*e).len() && 0 <= c < occurrences(*e)[o].len()
                    && !encodable(cs, (#[trigger] occurrences(*e)[o][c]).0@))
                && err is CharacterNotInRepertoire,
        },
{
    let ghost occs = occurrences(*e);
    buf.push(s.element_sep);
    let ghost start = buf@;
    let reps = e.repetitions();
    let mut o: usize = 0;
    while o < reps.len()
        invariant
            reps@.len() == occs.len(),
            forall|j: int| 0 <= j < reps@.len() ==> (#[trigger] reps@[j])@ == occs[j],
            occs == occurrences(*e),
            o <= reps@.len(),
            forall|j: int, c: int| 0 <= j < o && 0 <= c < occs[j].len() ==> encodable(cs, (#[trigger] occs[j][c]).0@),
            buf@ == start + render_occs(s, cs, occs.take(o as int)),
        decreases reps@.len() - o,
    {
        proof { assert(occs.take(o + 1).drop_last() =~= occs.take(o as int)); }
        if o > 0 {
            buf.push(s.repetition_sep);
        }
        let items: &[(String, Span)] = reps[o];
        match render_items_into(buf, items, s, cs) {
            Ok(_) => {},
            Err(err) => {
                proof {
                    let c = choose|c: int| 0 <= c < items@.len() && !encodable(cs, (#[trigger] items@[c]).0@);
                    assert(!encodable(cs, occs[o as int][c].0@));
                }
                return Err(err);
            },
        }
        proof {
            assert(occs.take(o + 1).last() == occs[o as int]);
            if o == 0 { assert(start + render_occs(s, cs, occs.take(1)) =~= buf@); }
            else { assert(start + render_occs(s, cs, occs.take(o + 1)) =~= buf@); }
        }
        o = o + 1;
    }
    proof { assert(occs.take(occs.len() as int) =~= occs); }
    Ok(())
}

impl Writer {
    /// Writes a whole segment and counts it.  A repeating element without a
    /// declared repetition separator is `RepetitionSeparatorNotDeclared`, a
    /// text the repertoire cannot hold is `CharacterNotInRepertoire`; either
    /// way nothing is written.
    pub fn write_segment(&mut self, seg: &Segment) -> (r: Result<(), EdifactError>)
        ensures
            final(self).ssa_of() == old(self).ssa_of(),
            final(self).charset_of() == old(self).charset_of(),
            match r {
                Ok(_) => (!has_repeats(*seg) || old(self).ssa_of().repetition_active())
                    && segment_encodable(old(self).charset_of(), *seg)
                    && final(self).bytes() == old(self).bytes() + render_segment(old(self).ssa_of(), old(self).charset_of(), *seg)
                    && final(self).count_of() == saturating_inc(old(self).count_of()),
                Err(e) => final(self).bytes() == old(self).bytes() && final(self).count_of() == old(self).count_of() && (
                    if has_repeats(*seg) && !old(self).ssa_of().repetition_active() {
                        e is RepetitionSeparatorNotDeclared
                    } else {
                        !segment_encodable(old(self).charset_of(), *seg) && e is CharacterNotInRepertoire
                    }),
            },
    {
        let s = self.ssa;
        let cs = self.charset;
        if !s.is_repetition_active() {
            let mut i: usize = 0;
            while i < seg.elements.len()
                invariant
                    i <= seg.elements@.len(),
                    forall|j: int| 0 <= j < i ==> (#[trigger] seg.elements@[j]).repeats@.len() == 0,
                    *self == *old(self),
                    s == old(self).ssa,
                    !s.repetition_active(),
                decreases seg.elements@.len() - i,
            {
                if seg.elements[i].repeats.len() > 0 {
                    proof { assert(has_repeats(*seg)); }
                    return Err(EdifactError::RepetitionSeparatorNotDeclared);
                }
                i = i + 1;
            }
        }
        let mut buf: Vec<u8> = match encode_with(cs, seg.tag.as_str()) {
            Ok(b) => b,
            Err(e) => return Err(e),
        };
        let ghost tagb = buf@;
        let mut i: usize = 0;
        while i < seg.elements.len()
            invariant
                i <= seg.elements@.len(),
                *self == *old(self),
                s == old(self).ssa,
                cs == old(self).charset,
                encodable(cs, seg.tag@),
                tagb == enc_text(cs, seg.tag@),
                buf@ == tagb + render_elements(s, cs, seg.elements@.take(i as int)),
                forall|e: int, o: int, c: int|
                    0 <= e < i && 0 <= o < occurrences(seg.elements@[e]).len()
                    && 0 <= c < occurrences(seg.elements@[e])[o].len()
                    ==> encodable(cs, (#[trigger] occurrences(seg.elements@[e])[o][c]).0@),
                !has_repeats(*seg) || s.repetition_active(),
            decreases seg.elements@.len() - i,
        {
            proof { assert(seg.elements@.take(i + 1).drop_last() =~= seg.elements@.take(i as int)); }
            match render_element_into(&mut buf, &seg.elements[i], s, cs) {
                Ok(_) => {},
                Err(e) => {
                    proof {
                        let (o, c) = choose|o: int, c: int| 0 <= o < occurrences(seg.elements@[i as int]).len()
                            && 0 <= c < occurrences(seg.elements@[i as int])[o].len()
                            && !encodable(cs, (#[trigger] occurrences(seg.elements@[i as int])[o][c]).0@);
                        assert(!encodable(cs, occurrences(seg.elements@[i as int])[o][c].0@));
                    }
                    return Err(e);
                },
            }
            proof {
                assert(seg.elements@.take(i + 1).last() == seg.elements@[i as int]);
                assert(buf@ =~= tagb + render_elements(s, cs, seg.elements@.take(i + 1)));
            }
            i = i + 1;
        }
        proof { assert(seg.elements@.take(seg.elements@.len() as int) =~= seg.elements@); }
        buf.push(s.segment_term);
        self.out.append(&mut buf);
        self.count = self.count.saturating_add(1);
        proof {
            assert(self.out@ =~= old(self).out@ + render_segment(s, cs, *seg));
        }
        Ok(())
    }
}

impl Writer {
    /// Writes a separator and then a value, encoded and escaped; a value the
    /// repertoire cannot hold is `CharacterNotInRepertoire` and writes nothing.
    pub fn write_separated(&mut self, sep: u8, value: &str) -> (r: Result<(), EdifactError>)
        ensures
            final(self).ssa_of() == old(self).ssa_of(),
            final(self).charset_of() == old(self).charset_of(),
            final(self).count_of() == old(self).count_of(),
            match r {
                Ok(_) => encodable(old(self).charset_of(), value@)
                    && final(self).bytes() == old(self).bytes() + (seq![sep] + escape(old(self).ssa_of(), enc_text(old(self).charset_of(), value@))),
                Err(e) => !encodable(old(self).charset_of(), value@) && e is CharacterNotInRepertoire
                    && final(self).bytes() == old(self).bytes(),
            },
    {
        match encode_with(self.charset, value) {
            Ok(b) => {
                let ghost before = self.out@;
                self.out.push(sep);
                escape_into(&mut self.out, b.as_slice(), self.ssa);
                proof { assert(self.out@ =~= before + (seq![sep] + escape(self.ssa, b@))); }
                Ok(())
            },
            Err(e) => Err(e),
        }
    }
}

// ── segments given by their texts ──────────────────────────────────────────

/// A segment by its texts: the tag, and for each element the texts of its
/// components.
pub type Line = (Seq<char>, Seq<Seq<Seq<char>>>);

/// The texts of a segment that does not repeat an element.
pub open spec fn line_of(seg: Segment) -> Line {
    (seg.tag@, seg.elements@.map_values(|e: Element| texts(component_items(e.components))))
}

/// The texts of each segment.
pub open spec fn lines_of(segs: Seq<Segment>) -> Seq<Line> {
    segs.map_values(|s: Segment| line_of(s))
}

/// Component texts, escaped and joined by the component separator.
pub open spec fn texts_bytes(s: ServiceStringAdvice, cs: Option<Charset>, ts: Seq<Seq<char>>) -> Seq<u8>
    decreases ts.len(),
{
    if ts.len() == 0 {
        Seq::empty()
    } else {
        let e = escape(s, enc_text(cs, ts.last()));
        if ts.len() == 1 { e } else { texts_bytes(s, cs, ts.drop_last()).push(s.component_sep) + e }
    }
}

/// Elements, each after an element separator.
pub open spec fn elems_bytes(s: ServiceStringAdvice, cs: Option<Charset>, es: Seq<Seq<Seq<char>>>) -> Seq<u8>
    decreases es.len(),
{
    if es.len() == 0 {
        Seq::empty()
    } else {
        elems_bytes(s, cs, es.drop_last()).push(s.element_sep) + texts_bytes(s, cs, es.last())
    }
}

/// A segment as written, given by its texts.
pub open spec fn line_bytes(s: ServiceStringAdvice, cs: Option<Charset>, l: Line) -> Seq<u8> {
    enc_text(cs, l.0) + elems_bytes(s, cs, l.1) + seq![s.segment_term]
}

/// Segments as written one after another, given by their texts.
pub open spec fn lines_bytes(s: ServiceStringAdvice, cs: Option<Charset>, ls: Seq<Line>) -> Seq<u8>
    decreases ls.len(),
{
    if ls.len() == 0 { Seq::empty() } else { lines_bytes(s, cs, ls.drop_last()) + line_bytes(s, cs, ls.last()) }
}

/// Segments as written one after another.
pub open spec fn render_all(s: ServiceStringAdvice, cs: Option<Charset>, segs: Seq<Segment>) -> Seq<u8>
    decreases segs.len(),
{
    if segs.len() == 0 { Seq::empty() } else { render_all(s, cs, segs.drop_last()) + render_segment(s, cs, segs.last()) }
}

proof fn lemma_items_by_texts(s: ServiceStringAdvice, cs: Option<Charset>, items: Seq<(String, Span)>)
    ensures
        render_items(s, cs, items) == texts_bytes(s, cs, texts(items)),
    decreases items.len(),
{
    if items.len() > 0 {
        assert(texts(items.drop_last()) =~= texts(items).drop_last());
        lemma_items_by_texts(s, cs, items.drop_last());
    }
}

proof fn lemma_elements_by_texts(s: ServiceStringAdvice, cs: Option<Charset>, es: Seq<Element>)
    requires
        forall|i: int| 0 <= i < es.len() ==> (#[trigger] es[i]).repeats@.len() == 0,
    ensures
        render_elements(s, cs, es) == elems_bytes(s, cs, es.map_values(|e: Element| texts(component_items(e.components)))),
    decreases es.len(),
{
    if es.len() > 0 {
        let m = es.map_values(|e: Element| texts(component_items(e.components)));
        assert(es.drop_last().map_values(|e: Element| texts(component_items(e.components))) =~= m.drop_last());
        lemma_elements_by_texts(s, cs, es.drop_last());
        let last = es.last();
        assert(last.repeats@.len() == 0);
        assert(occurrences(last) =~= seq![component_items(last.components)]);
        lemma_items_by_texts(s, cs, component_items(last.components));
    }
}

/// A segment without repeats is written as its texts are.
pub proof fn lemma_segment_by_texts(s: ServiceStringAdvice, cs: Option<Charset>, seg: Segment)
    requires
        !has_repeats(seg),
    ensures
        render_segment(s, cs, seg) == line_bytes(s, cs, line_of(seg)),
{
    assert forall|i: int| 0 <= i < seg.elements@.len() implies (#[trigger] seg.elements@[i]).repeats@.len() == 0 by {
        if seg.elements@[i].repeats@.len() > 0 { assert(has_repeats(seg)); }
    }
    lemma_elements_by_texts(s, cs, seg.elements@);
}

/// Segments without repeats are written as their texts are.
pub proof fn lemma_all_by_texts(s: ServiceStringAdvice, cs: Option<Charset>, segs: Seq<Segment>)
    requires
        forall|i: int| 0 <= i < segs.len() ==> !has_repeats(#[trigger] segs[i]),
    ensures
        render_all(s, cs, segs) == lines_bytes(s, cs, lines_of(segs)),
    decreases segs.len(),
{
    if segs.len() > 0 {
        assert(lines_of(segs.drop_last()) =~= lines_of(segs).drop_last());
        lemma_all_by_texts(s, cs, segs.drop_last());
        lemma_segment_by_texts(s, cs, segs.last());
    }
}

/// Writes `segments` with the default service characters, in UTF-8.  A
/// segment that repeats an element is `RepetitionSeparatorNotDeclared`, as
/// the default service characters declare no repetition separator.
pub fn segments_to_bytes(segments: &[Segment]) -> (r: Result<Vec<u8>, EdifactError>)
    ensures
        match r {
            Ok(b) => (forall|i: int| 0 <= i < segments@.len() ==> !has_repeats(#[trigger] segments@[i]))
                && b@ == render_all(crate::syntax::default_ssa(), None, segments@),
            Err(e) => e is RepetitionSeparatorNotDeclared
                && exists|i: int| 0 <= i < segments@.len() && has_repeats(#[trigger] segments@[i]),
        },
{
    let mut w = Writer::new();
    let mut i: usize = 0;
    while i < segments.len()
        invariant
            i <= segments@.len(),
            w.ssa_of() == crate::syntax::default_ssa(),
            w.charset_of() is None,
            forall|k: int| 0 <= k < i ==> !has_repeats(#[trigger] segments@[k]),
            w.bytes() == render_all(crate::syntax::default_ssa(), None, segments@.take(i as int)),
        decreases segments@.len() - i,
    {
        proof {
            assert(segments@.take(i + 1).drop_last() =~= segments@.take(i as int));
            let seg = segments@[i as int];
            assert(segment_encodable(None, seg));
        }
        match w.write_segment(&segments[i]) {
            Ok(_) => {},
            Err(e) => {
                proof { assert(has_repeats(segments@[i as int])); }
                return Err(e);
            },
        }
        i = i + 1;
    }
    proof { assert(segments@.take(segments@.len() as int) =~= segments@); }
    w.finish()
}

impl Writer {
    /// Writes the interchange header: `UNB+identifier:version+sender+recipient+date:time+reference`.
    /// A writer bound to a repertoire refuses a header that declares another
    /// one (`CharacterRepertoireMismatch`) and writes nothing.
    pub fn begin_interchange(
        &mut self,
        syntax_identifier: &str,
        syntax_version: &str,
        sender: &str,
        recipient: &str,
        date: &str,
        time: &str,
        control_reference: &str,
    ) -> (r: Result<(), EdifactError>)
        ensures
            final(self).ssa_of() == old(self).ssa_of(),
            final(self).charset_of() == old(self).charset_of(),
            match old(self).charset_of() {
                Some(c) if charset_id(c) != syntax_identifier@ => r matches Err(EdifactError::CharacterRepertoireMismatch { declared, writer })
                    && declared@ == syntax_identifier@ && writer@ == charset_id(c) && final(self).bytes() == old(self).bytes(),
                _ => {
                    let l = unb_line(syntax_identifier@, syntax_version@, sender@, recipient@, date@, time@, control_reference@);
                    match r {
                        Ok(_) => line_encodable(old(self).charset_of(), l)
                            && final(self).bytes() == old(self).bytes() + line_bytes(old(self).ssa_of(), old(self).charset_of(), l)
                            && final(self).count_of() == saturating_inc(old(self).count_of()),
                        Err(e) => !line_encodable(old(self).charset_of(), l) && e is CharacterNotInRepertoire
                            && final(self).bytes() == old(self).bytes(),
                    }
                },
            },
    {
        if let Some(c) = self.charset {
            if !str_eq(c.syntax_identifier(), syntax_identifier) {
                return Err(EdifactError::CharacterRepertoireMismatch { declared: own(syntax_identifier), writer: c.syntax_identifier() });
            }
        }
        let seg = Segment::new("UNB", vec![
            pair(syntax_identifier, syntax_version),
            single(sender),
            single(recipient),
            pair(date, time),
            single(control_reference),
        ]);
        proof {
            assert(line_of(seg) =~= unb_line(syntax_identifier@, syntax_version@, sender@, recipient@, date@, time@, control_reference@));
        }
        self.write_line(&seg)
    }

    /// Writes the interchange trailer: `UNZ+count+reference`.
    pub fn end_interchange(&mut self, count: u32, control_reference: &str) -> (r: Result<(), EdifactError>)
        ensures
            final(self).ssa_of() == old(self).ssa_of(),
            final(self).charset_of() == old(self).charset_of(),
            ({
                let l = unz_line(count, control_reference@);
                match r {
                    Ok(_) => line_encodable(old(self).charset_of(), l)
                        && final(self).bytes() == old(self).bytes() + line_bytes(old(self).ssa_of(), old(self).charset_of(), l)
                        && final(self).count_of() == saturating_inc(old(self).count_of()),
                    Err(e) => !line_encodable(old(self).charset_of(), l) && e is CharacterNotInRepertoire
                        && final(self).bytes() == old(self).bytes(),
                }
            }),
    {
        let n = decimal_string(count as u128);
        let seg = Segment::new("UNZ", vec![single(n.as_str()), single(control_reference)]);
        proof { assert(line_of(seg) =~= unz_line(count, control_reference@)); }
        self.write_line(&seg)
    }

    fn write_line(&mut self, seg: &Segment) -> (r: Result<(), EdifactError>)
        requires
            !has_repeats(*seg),
        ensures
            final(self).ssa_of() == old(self).ssa_of(),
            final(self).charset_of() == old(self).charset_of(),
            match r {
                Ok(_) => line_encodable(old(self).charset_of(), line_of(*seg))
                    && final(self).bytes() == old(self).bytes() + line_bytes(old(self).ssa_of(), old(self).charset_of(), line_of(*seg))
                    && final(self).count_of() == saturating_inc(old(self).count_of()),
                Err(e) => !line_encodable(old(self).charset_of(), line_of(*seg)) && e is CharacterNotInRepertoire
                    && final(self).bytes() == old(self).bytes(),
            },
    {
        let r = self.write_segment(seg);
        proof {
            lemma_segment_by_texts(old(self).ssa_of(), old(self).charset_of(), *seg);
            lemma_encodable_by_texts(old(self).charset_of(), *seg);
        }
        r
    }
}

/// Every text of a segment given by its texts can be written in the repertoire.
pub open spec fn line_encodable(cs: Option<Charset>, l: Line) -> bool {
    &&& encodable(cs, l.0)
    &&& forall|e: int, c: int| 0 <= e < l.1.len() && 0 <= c < l.1[e].len() ==> encodable(cs, #[trigger] l.1[e][c])
}

proof fn lemma_encodable_by_texts(cs: Option<Charset>, seg: Segment)
    requires
        !has_repeats(seg),
    ensures
        segment_encodable(cs, seg) == line_encodable(cs, line_of(seg)),
{
    let l = line_of(seg);
    assert forall|i: int| 0 <= i < seg.elements@.len() implies (#[trigger] seg.elements@[i]).repeats@.len() == 0 by {
        if seg.elements@[i].repeats@.len() > 0 { assert(has_repeats(seg)); }
    }
    if segment_encodable(cs, seg) {
        assert forall|e: int, c: int| 0 <= e < l.1.len() && 0 <= c < l.1[e].len() implies encodable(cs, #[trigger] l.1[e][c]) by {
            assert(seg.elements@[e].repeats@.len() == 0);
            assert(occurrences(seg.elements@[e])[0] == component_items(seg.elements@[e].components));
            assert(encodable(cs, occurrences(seg.elements@[e])[0][c].0@));
        }
    }
    if line_encodable(cs, l) {
        assert forall|e: int, o: int, c: int|
            0 <= e < seg.elements@.len() && 0 <= o < occurrences(seg.elements@[e]).len()
            && 0 <= c < occurrences(seg.elements@[e])[o].len()
            implies encodable(cs, (#[trigger] occurrences(seg.elements@[e])[o][c]).0@) by {
            assert(seg.elements@[e].repeats@.len() == 0);
            assert(o == 0);
            assert(occurrences(seg.elements@[e])[0] == component_items(seg.elements@[e].components));
            assert(encodable(cs, l.1[e][c]));
        }
    }
}

/// The texts of an interchange header.
pub open spec fn unb_line(id: Seq<char>, version: Seq<char>, sender: Seq<char>, recipient: Seq<char>,
    date: Seq<char>, time: Seq<char>, reference: Seq<char>) -> Line {
    ("UNB"@, seq![seq![id, version], seq![sender], seq![recipient], seq![date, time], seq![reference]])
}

/// The texts of an interchange trailer.
pub open spec fn unz_line(count: u32, reference: Seq<char>) -> Line {
    ("UNZ"@, seq![seq![decimal(count as nat)], seq![reference]])
}


proof fn lemma_escape_concat(s: ServiceStringAdvice, a: Seq<u8>, c: Seq<u8>)
    ensures
        escape(s, a + c) == escape(s, a) + escape(s, c),
    decreases c.len(),
{
    if c.len() == 0 {
        assert(a + c =~= a);
        assert(escape(s, a) + escape(s, c) =~= escape(s, a));
    } else {
        assert((a + c).drop_last() =~= a + c.drop_last());
        lemma_escape_concat(s, a, c.drop_last());
        let x = c.last();
        if is_special(s, x) {
            assert(escape(s, a) + escape(s, c) =~= (escape(s, a) + escape(s, c.drop_last())).push(s.release_char).push(x));
        } else {
            assert(escape(s, a) + escape(s, c) =~= (escape(s, a) + escape(s, c.drop_last())).push(x));
        }
    }
}

proof fn lemma_unescape_escape(s: ServiceStringAdvice, b: Seq<u8>)
    ensures
        crate::parser::unescape(escape(s, b), s.release_char) == (b, false),
    decreases b.len(),
{
    if b.len() > 0 {
        lemma_unescape_escape(s, b.drop_last());
        let e = escape(s, b.drop_last());
        let x = b.last();
        let bd = b.drop_last();
        if is_special(s, x) {
            assert(e.push(s.release_char).push(x).drop_last() =~= e.push(s.release_char));
            assert(e.push(s.release_char).drop_last() =~= e);
            assert(crate::parser::unescape(e.push(s.release_char), s.release_char) == (bd, true));
            assert(crate::parser::unescape(e.push(s.release_char).push(x), s.release_char) == (bd.push(x), false));
        } else {
            assert(e.push(x).drop_last() =~= e);
            assert(crate::parser::unescape(e.push(x), s.release_char) == (bd.push(x), false));
        }
        assert(bd.push(x) =~= b);
    }
}

/// Scanning the escaped bytes of `b` leaves the scanner as it found them.
proof fn lemma_scan_escaped(s: ServiceStringAdvice, p: Seq<u8>, b: Seq<u8>, start: int, i: int)
    requires
        s.release_char != s.segment_term,
        0 <= start <= p.len(),
        0 <= i <= b.len(),
        !scan(s, p + escape(s, b), start, p.len() as int).3,
    ensures
        scan(s, p + escape(s, b), start, (p.len() + escape(s, b.take(i)).len()) as int)
            == scan(s, p + escape(s, b), start, p.len() as int),
        forall|m: int| p.len() <= m < p.len() + escape(s, b.take(i)).len()
            ==> !#[trigger] ends_segment(s, p + escape(s, b), start, m),
    decreases i,
{
    let u = p + escape(s, b);
    if i == 0 {
        assert(b.take(0) =~= Seq::<u8>::empty());
    } else {
        lemma_scan_escaped(s, p, b, start, i - 1);
        let x = b[i - 1];
        let head = escape(s, b.take(i - 1));
        let q = (p.len() + head.len()) as int;
        assert(b.take(i) =~= b.take(i - 1).push(x));
        assert(b.take(i).drop_last() =~= b.take(i - 1));
        assert(b.take(i).last() == x);
        assert(seq![x].drop_last() =~= Seq::<u8>::empty());
        assert(seq![x].last() == x);
        assert(escape(s, Seq::<u8>::empty()) =~= Seq::<u8>::empty());
        assert(b =~= b.take(i - 1) + b.skip(i - 1));
        lemma_escape_concat(s, b.take(i - 1), b.skip(i - 1));
        assert(b.skip(i - 1) =~= seq![x] + b.skip(i));
        lemma_escape_concat(s, seq![x], b.skip(i));
        assert(seq![x].drop_last() =~= Seq::<u8>::empty());
        assert(u =~= p + head + escape(s, seq![x]) + escape(s, b.skip(i)));
        if is_special(s, x) {
            assert(escape(s, seq![x]) =~= seq![s.release_char, x]);
            assert(u[q] == s.release_char);
            assert(u[q + 1] == x);
            assert(escape(s, b.take(i)).len() == head.len() + 2);
            let r0 = scan(s, u, start, q);
            assert(scan(s, u, start, q + 1) == (r0.0, r0.1, r0.2, true));
            assert(scan(s, u, start, q + 2) == (r0.0, r0.1, r0.2, false));
        } else {
            assert(escape(s, seq![x]) =~= seq![x]);
            assert(u[q] == x);
            assert(escape(s, b.take(i)).len() == head.len() + 1);
            assert(crate::syntax::sep_kind(s, x) is None);
            assert(scan(s, u, start, q + 1) == scan(s, u, start, q));
        }
    }
}

/// What the writer escapes reads back as it was: wherever escaped bytes
/// stand in a segment, the reader sees in them no separator (element,
/// component, or the repetition separator where one is declared) and no
/// terminator, they leave the reader as they found it, and removing the
/// release characters gives back the original bytes.
pub proof fn law_escaped_values_read_back(s: ServiceStringAdvice, p: Seq<u8>, b: Seq<u8>, start: int)
    requires
        s.release_char != s.segment_term,
        0 <= start <= p.len(),
        !scan(s, p + escape(s, b), start, p.len() as int).3,
    ensures
        scan(s, p + escape(s, b), start, (p + escape(s, b)).len() as int) == scan(s, p + escape(s, b), start, p.len() as int),
        forall|m: int| p.len() <= m < (p + escape(s, b)).len() ==> !#[trigger] ends_segment(s, p + escape(s, b), start, m),
        crate::parser::unescape(escape(s, b), s.release_char) == (b, false),
        forall|x: u8| #![trigger escape(s, seq![x])]
            (x == s.release_char || x == s.element_sep || x == s.component_sep || x == s.segment_term
                || (s.repetition_sep != 32u8 && x == s.repetition_sep))
            ==> escape(s, seq![x]) == seq![s.release_char, x],
        forall|x: u8| #![trigger escape(s, seq![x])]
            !(x == s.release_char || x == s.element_sep || x == s.component_sep || x == s.segment_term
                || (s.repetition_sep != 32u8 && x == s.repetition_sep))
            ==> escape(s, seq![x]) == seq![x],
        forall|c: Seq<u8>, d: Seq<u8>| #[trigger] escape(s, c + d) == escape(s, c) + escape(s, d),
{
    assert forall|x: u8| #![trigger escape(s, seq![x])] true implies
        escape(s, seq![x]) == (if is_special(s, x) { seq![s.release_char, x] } else { seq![x] }) by {
        assert(seq![x].drop_last() =~= Seq::<u8>::empty());
        assert(escape(s, Seq::<u8>::empty()) =~= Seq::<u8>::empty());
        if is_special(s, x) {
            assert(escape(s, seq![x]) =~= seq![s.release_char, x]);
        } else {
            assert(escape(s, seq![x]) =~= seq![x]);
        }
    }
    assert forall|c: Seq<u8>, d: Seq<u8>| #[trigger] escape(s, c + d) == escape(s, c) + escape(s, d) by {
        lemma_escape_concat(s, c, d);
    }
    lemma_scan_escaped(s, p, b, start, b.len() as int);
    assert(b.take(b.len() as int) =~= b);
    lemma_unescape_escape(s, b);
}

} // verus!
