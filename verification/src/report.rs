//! Validation report types: [`ValidationSeverity`], [`ValidationIssue`] and
//! [`ValidationReport`].

use vstd::prelude::*;
use vstd::multiset::Multiset;

use crate::model::Span;
use crate::text::{compare_text, decimal, decimal_string, own, starts_with, str_eq, string_push_str, text_order};

verus! {

/// Priority level of a validation finding.
#[non_exhaustive]
#[derive(Debug, Clone, Copy, PartialEq, Eq, Structural, PartialOrd, Ord, Hash)]
pub enum ValidationSeverity {
    /// Structural parse failure; processing cannot continue.
    Critical,
    /// Structural validation failed; the message is invalid.
    Error,
    /// Data validation warning; the message may be usable.
    Warning,
    /// Informational note.
    Info,
}

impl ValidationSeverity {
    /// Lower-case name of the level.
    pub fn as_str(self) -> (r: &'static str)
        ensures
            r@ == (match self {
                ValidationSeverity::Critical => "critical"@,
                ValidationSeverity::Error => "error"@,
                ValidationSeverity::Warning => "warning"@,
                ValidationSeverity::Info => "info"@,
            }),
    {
        match self {
            ValidationSeverity::Critical => "critical",
            ValidationSeverity::Error => "error",
            ValidationSeverity::Warning => "warning",
            ValidationSeverity::Info => "info",
        }
    }

    /// Numeric priority: `Critical = 3`, `Error = 2`, `Warning = 1`, `Info = 0`.
    pub fn numeric_level(self) -> (r: u8)
        ensures
            r == severity_level(self),
    {
        match self {
            ValidationSeverity::Info => 0,
            ValidationSeverity::Warning => 1,
            ValidationSeverity::Error => 2,
            ValidationSeverity::Critical => 3,
        }
    }
}

/// The numeric priority of a level.
pub open spec fn severity_level(s: ValidationSeverity) -> u8 {
    match s {
        ValidationSeverity::Info => 0,
        ValidationSeverity::Warning => 1,
        ValidationSeverity::Error => 2,
        ValidationSeverity::Critical => 3,
    }
}

/// A structured validation finding.
#[derive(Debug, PartialEq)]
#[non_exhaustive]
pub struct ValidationIssue {
    /// Stable error code, if known.
    pub error_code: Option<&'static str>,
    /// The severity of this issue.
    pub severity: ValidationSeverity,
    /// The error or warning message.
    pub message: String,
    /// Byte offset in the source, if known; equal to `span.start` when both are set.
    pub offset: Option<usize>,
    /// Byte range of the relevant segment or element, if known.
    pub span: Option<Span>,
    /// Segment tag involved, if known.
    pub segment_tag: Option<String>,
    /// Profile or MIG rule identifier, if any.
    pub rule_id: Option<String>,
    /// Zero-based element index, if known.
    pub element_index: Option<u8>,
    /// Zero-based component index, if known.
    pub component_index: Option<u8>,
    /// Zero-based occurrence among segments with the same tag, if known.
    pub segment_occurrence: Option<u16>,
    /// Message reference (UNH DE 0062) this issue belongs to, if known.
    pub message_ref: Option<String>,
    /// Suggested remediation, if any.
    pub suggestion: Option<String>,
    /// Segment group (such as `"SG6"`) in which the issue occurred, if known.
    pub segment_group: Option<String>,
    /// Caller-supplied key/value metadata, in insertion order.
    pub context: Vec<(String, String)>,
}

/// The text of an optional string field.
pub open spec fn opt_view(o: Option<String>) -> Option<Seq<char>> {
    match o {
        Some(s) => Some(s@),
        None => None,
    }
}

/// Two issues that agree in every field (the context by its entries).
pub open spec fn same_issue(a: ValidationIssue, b: ValidationIssue) -> bool {
    &&& a.error_code == b.error_code
    &&& a.severity == b.severity
    &&& a.message@ == b.message@
    &&& a.offset == b.offset
    &&& a.span == b.span
    &&& opt_view(a.segment_tag) == opt_view(b.segment_tag)
    &&& opt_view(a.rule_id) == opt_view(b.rule_id)
    &&& a.element_index == b.element_index
    &&& a.component_index == b.component_index
    &&& a.segment_occurrence == b.segment_occurrence
    &&& opt_view(a.message_ref) == opt_view(b.message_ref)
    &&& opt_view(a.suggestion) == opt_view(b.suggestion)
    &&& opt_view(a.segment_group) == opt_view(b.segment_group)
    &&& context_view(a.context@) == context_view(b.context@)
}

/// Two issue lists that agree position by position.
pub open spec fn same_issues(a: Seq<ValidationIssue>, b: Seq<ValidationIssue>) -> bool {
    a.len() == b.len() && forall|i: int| 0 <= i < a.len() ==> same_issue(#[trigger] a[i], b[i])
}

/// The context entries as pairs of texts.
pub open spec fn context_view(c: Seq<(String, String)>) -> Seq<(Seq<char>, Seq<char>)> {
    c.map_values(|p: (String, String)| (p.0@, p.1@))
}

/// The index of the first entry with key `key`, or -1 where there is none.
pub open spec fn first_key_index(c: Seq<(Seq<char>, Seq<char>)>, key: Seq<char>) -> int
    decreases c.len(),
{
    if c.len() == 0 {
        -1
    } else if c[0].0 == key {
        0
    } else {
        let r = first_key_index(c.drop_first(), key);
        if r < 0 { -1 } else { r + 1 }
    }
}

/// The value of the first entry with key `key`, if any.
pub open spec fn context_lookup(c: Seq<(Seq<char>, Seq<char>)>, key: Seq<char>) -> Option<Seq<char>> {
    let i = first_key_index(c, key);
    if i >= 0 { Some(c[i].1) } else { None }
}

/// The context after an upsert of `key` with `value`: the first entry with
/// that key takes the new value in place; otherwise the entry is appended.
pub open spec fn context_upsert(c: Seq<(Seq<char>, Seq<char>)>, key: Seq<char>, value: Seq<char>) -> Seq<(Seq<char>, Seq<char>)> {
    let i = first_key_index(c, key);
    if i >= 0 { c.update(i, (key, value)) } else { c.push((key, value)) }
}

/// `first_key_index` finds the first position holding the key, and only that.
pub proof fn lemma_first_key_index(c: Seq<(Seq<char>, Seq<char>)>, key: Seq<char>, i: int)
    requires
        0 <= i <= c.len(),
        forall|j: int| 0 <= j < i ==> (#[trigger] c[j]).0 != key,
    ensures
        i < c.len() && c[i].0 == key ==> first_key_index(c, key) == i,
        i == c.len() ==> first_key_index(c, key) == -1,
        -1 <= first_key_index(c, key) < c.len(),
        first_key_index(c, key) >= 0 ==> c[first_key_index(c, key)].0 == key,
    decreases c.len(),
{
    if c.len() > 0 && i > 0 {
        assert forall|j: int| 0 <= j < i - 1 implies (#[trigger] c.drop_first()[j]).0 != key by {
            assert(c.drop_first()[j] == c[j + 1]);
        }
        lemma_first_key_index(c.drop_first(), key, i - 1);
    } else if c.len() > 0 {
        lemma_first_key_index(c.drop_first(), key, 0);
    }
}

fn clone_opt(o: &Option<String>) -> (r: Option<String>)
    ensures
        opt_view(r) == opt_view(*o),
{
    match o {
        Some(s) => Some(s.clone()),
        None => None,
    }
}

fn clone_context(c: &Vec<(String, String)>) -> (r: Vec<(String, String)>)
    ensures
        context_view(r@) == context_view(c@),
{
    let mut out: Vec<(String, String)> = Vec::new();
    let mut i: usize = 0;
    while i < c.len()
        invariant
            i <= c@.len(),
            out@.len() == i,
            forall|j: int| 0 <= j < i ==> (#[trigger] out@[j]).0@ == c@[j].0@ && out@[j].1@ == c@[j].1@,
        decreases c@.len() - i,
    {
        out.push((c[i].0.clone(), c[i].1.clone()));
        i = i + 1;
    }
    assert(context_view(out@) =~= context_view(c@));
    out
}

impl Clone for ValidationIssue {
    fn clone(&self) -> (r: Self)
        ensures
            same_issue(r, *self),
    {
        ValidationIssue {
            error_code: self.error_code,
            severity: self.severity,
            message: self.message.clone(),
            offset: self.offset,
            span: self.span,
            segment_tag: clone_opt(&self.segment_tag),
            rule_id: clone_opt(&self.rule_id),
            element_index: self.element_index,
            component_index: self.component_index,
            segment_occurrence: self.segment_occurrence,
            message_ref: clone_opt(&self.message_ref),
            suggestion: clone_opt(&self.suggestion),
            segment_group: clone_opt(&self.segment_group),
            context: clone_context(&self.context),
        }
    }
}

/// `r` is `o` as a string slice.
pub open spec fn opt_str_view(o: Option<&str>) -> Option<Seq<char>> {
    match o {
        Some(s) => Some(s@),
        None => None,
    }
}

fn as_opt_str(o: &Option<String>) -> (r: Option<&str>)
    ensures
        opt_str_view(r) == opt_view(*o),
{
    match o {
        Some(s) => Some(s.as_str()),
        None => None,
    }
}

impl ValidationIssue {
    /// A new issue with the given severity and message and no other metadata.
    pub fn new(severity: ValidationSeverity, message: &str) -> (r: ValidationIssue)
        ensures
            r.severity == severity,
            r.message@ == message@,
            r.error_code is None,
            r.offset is None,
            r.span is None,
            r.segment_tag is None,
            r.rule_id is None,
            r.element_index is None,
            r.component_index is None,
            r.segment_occurrence is None,
            r.message_ref is None,
            r.suggestion is None,
            r.segment_group is None,
            r.context@.len() == 0,
    {
        ValidationIssue {
            error_code: None,
            severity,
            message: own(message),
            offset: None,
            span: None,
            segment_tag: None,
            rule_id: None,
            element_index: None,
            component_index: None,
            segment_occurrence: None,
            message_ref: None,
            suggestion: None,
            segment_group: None,
            context: Vec::new(),
        }
    }

    /// This issue with its stable error code set.
    pub fn with_error_code(self, code: &'static str) -> (r: ValidationIssue)
        ensures
            r == (ValidationIssue { error_code: Some(code), ..self }),
    {
        let mut s = self;
        s.error_code = Some(code);
        s
    }

    /// This issue with its byte offset set.
    pub fn with_offset(self, offset: usize) -> (r: ValidationIssue)
        ensures
            r == (ValidationIssue { offset: Some(offset), ..self }),
    {
        let mut s = self;
        s.offset = Some(offset);
        s
    }

    /// This issue with its span set; the offset becomes the span's start.
    pub fn with_span(self, span: Span) -> (r: ValidationIssue)
        ensures
            r == (ValidationIssue { offset: Some(span.start), span: Some(span), ..self }),
    {
        let mut s = self;
        s.offset = Some(span.start);
        s.span = Some(span);
        s
    }

    /// This issue with its segment tag set.
    pub fn with_segment(self, tag: &str) -> (r: ValidationIssue)
        ensures
            opt_view(r.segment_tag) == Some(tag@),
            r == (ValidationIssue { segment_tag: r.segment_tag, ..self }),
    {
        let mut s = self;
        s.segment_tag = Some(own(tag));
        s
    }

    /// This issue with its rule identifier set.
    pub fn with_rule_id(self, rule_id: &str) -> (r: ValidationIssue)
        ensures
            opt_view(r.rule_id) == Some(rule_id@),
            r == (ValidationIssue { rule_id: r.rule_id, ..self }),
    {
        let mut s = self;
        s.rule_id = Some(own(rule_id));
        s
    }

    /// This issue with its element index set.
    pub fn with_element_index(self, element_index: u8) -> (r: ValidationIssue)
        ensures
            r == (ValidationIssue { element_index: Some(element_index), ..self }),
    {
        let mut s = self;
        s.element_index = Some(element_index);
        s
    }

    /// This issue with its component index set.
    pub fn with_component_index(self, component_index: u8) -> (r: ValidationIssue)
        ensures
            r == (ValidationIssue { component_index: Some(component_index), ..self }),
    {
        let mut s = self;
        s.component_index = Some(component_index);
        s
    }

    /// This issue with a remediation suggestion.
    pub fn with_suggestion(self, suggestion: &str) -> (r: ValidationIssue)
        ensures
            opt_view(r.suggestion) == Some(suggestion@),
            r == (ValidationIssue { suggestion: r.suggestion, ..self }),
    {
        let mut s = self;
        s.suggestion = Some(own(suggestion));
        s
    }

    /// This issue with its same-tag occurrence index set.
    pub fn with_segment_occurrence(self, occurrence: u16) -> (r: ValidationIssue)
        ensures
            r == (ValidationIssue { segment_occurrence: Some(occurrence), ..self }),
    {
        let mut s = self;
        s.segment_occurrence = Some(occurrence);
        s
    }

    /// This issue with its message reference set.
    pub fn with_message_ref(self, message_ref: &str) -> (r: ValidationIssue)
        ensures
            opt_view(r.message_ref) == Some(message_ref@),
            r == (ValidationIssue { message_ref: r.message_ref, ..self }),
    {
        let mut s = self;
        s.message_ref = Some(own(message_ref));
        s
    }

    /// This issue with its segment group set.
    pub fn with_segment_group(self, group: &str) -> (r: ValidationIssue)
        ensures
            opt_view(r.segment_group) == Some(group@),
            r == (ValidationIssue { segment_group: r.segment_group, ..self }),
    {
        let mut s = self;
        s.segment_group = Some(own(group));
        s
    }

    /// This issue with `key` set to `value` in its context: an entry with that
    /// key is updated in place, otherwise the entry is appended.
    pub fn with_context_entry(self, key: &str, value: &str) -> (r: ValidationIssue)
        ensures
            context_view(r.context@) == context_upsert(context_view(self.context@), key@, value@),
            r == (ValidationIssue { context: r.context, ..self }),
    {
        let mut s = self;
        upsert(&mut s.context, key, value);
        s
    }

    /// This issue with each `(key, value)` pair upserted into its context, in order.
    pub fn with_context_entries(self, entries: &[(&str, &str)]) -> (r: ValidationIssue)
        ensures
            context_view(r.context@) == upsert_all(context_view(self.context@), entries@.map_values(|p: (&str, &str)| (p.0@, p.1@))),
            r == (ValidationIssue { context: r.context, ..self }),
    {
        let ghost pairs = entries@.map_values(|p: (&str, &str)| (p.0@, p.1@));
        let mut s = self;
        let mut i: usize = 0;
        while i < entries.len()
            invariant
                i <= entries@.len(),
                pairs == entries@.map_values(|p: (&str, &str)| (p.0@, p.1@)),
                context_view(s.context@) == upsert_all(context_view(self.context@), pairs.take(i as int)),
                s == (ValidationIssue { context: s.context, ..self }),
            decreases entries@.len() - i,
        {
            let (k, v) = entries[i];
            upsert(&mut s.context, k, v);
            assert(pairs.take(i + 1).drop_last() =~= pairs.take(i as int));
            i = i + 1;
        }
        assert(pairs.take(entries@.len() as int) =~= pairs);
        s
    }

    /// The value of the first context entry with key `key`.
    pub fn context_get(&self, key: &str) -> (r: Option<&str>)
        ensures
            opt_str_view(r) == context_lookup(context_view(self.context@), key@),
    {
        let ghost c = context_view(self.context@);
        let mut i: usize = 0;
        while i < self.context.len()
            invariant
                i <= self.context@.len(),
                c == context_view(self.context@),
                forall|j: int| 0 <= j < i ==> (#[trigger] c[j]).0 != key@,
            decreases self.context@.len() - i,
        {
            if str_eq(self.context[i].0.as_str(), key) {
                proof { lemma_first_key_index(c, key@, i as int); }
                return Some(self.context[i].1.as_str());
            }
            i = i + 1;
        }
        proof { lemma_first_key_index(c, key@, i as int); }
        None
    }

    /// Upper-case label of the severity, for display.
    pub fn severity_label(&self) -> (r: &'static str)
        ensures
            r@ == severity_label_of(self.severity),
    {
        match self.severity {
            ValidationSeverity::Critical => "CRITICAL",
            ValidationSeverity::Error => "ERROR",
            ValidationSeverity::Warning => "WARNING",
            ValidationSeverity::Info => "INFO",
        }
    }

    /// The display form: `[LABEL] message`.
    pub fn to_string(&self) -> (r: String)
        ensures
            r@ == "["@ + severity_label_of(self.severity) + "] "@ + self.message@,
    {
        let mut out = String::new();
        string_push_str(&mut out, "[");
        string_push_str(&mut out, self.severity_label());
        string_push_str(&mut out, "] ");
        string_push_str(&mut out, self.message.as_str());
        out
    }

    /// Stable error code, if available.
    pub fn error_code(&self) -> (r: Option<&'static str>)
        ensures
            r == self.error_code,
    {
        self.error_code
    }

    /// Byte offset in the source, if available.
    pub fn offset(&self) -> (r: Option<usize>)
        ensures
            r == self.offset,
    {
        self.offset
    }

    /// Byte range of the relevant source region, if available.
    pub fn span(&self) -> (r: Option<Span>)
        ensures
            r == self.span,
    {
        self.span
    }

    /// Segment tag, if known.
    pub fn segment_tag(&self) -> (r: Option<&str>)
        ensures
            opt_str_view(r) == opt_view(self.segment_tag),
    {
        as_opt_str(&self.segment_tag)
    }

    /// Rule identifier, if any.
    pub fn rule_id(&self) -> (r: Option<&str>)
        ensures
            opt_str_view(r) == opt_view(self.rule_id),
    {
        as_opt_str(&self.rule_id)
    }

    /// Zero-based element index, if known.
    pub fn element_index(&self) -> (r: Option<u8>)
        ensures
            r == self.element_index,
    {
        self.element_index
    }

    /// Zero-based component index, if known.
    pub fn component_index(&self) -> (r: Option<u8>)
        ensures
            r == self.component_index,
    {
        self.component_index
    }

    /// Zero-based same-tag occurrence index, if known.
    pub fn segment_occurrence(&self) -> (r: Option<u16>)
        ensures
            r == self.segment_occurrence,
    {
        self.segment_occurrence
    }

    /// Message reference, if set.
    pub fn message_ref(&self) -> (r: Option<&str>)
        ensures
            opt_str_view(r) == opt_view(self.message_ref),
    {
        as_opt_str(&self.message_ref)
    }

    /// Suggested remediation, if any.
    pub fn suggestion(&self) -> (r: Option<&str>)
        ensures
            opt_str_view(r) == opt_view(self.suggestion),
    {
        as_opt_str(&self.suggestion)
    }

    /// Segment group, if known.
    pub fn segment_group(&self) -> (r: Option<&str>)
        ensures
            opt_str_view(r) == opt_view(self.segment_group),
    {
        as_opt_str(&self.segment_group)
    }
}

/// The upper-case display label of a severity.
pub open spec fn severity_label_of(s: ValidationSeverity) -> Seq<char> {
    match s {
        ValidationSeverity::Critical => "CRITICAL"@,
        ValidationSeverity::Error => "ERROR"@,
        ValidationSeverity::Warning => "WARNING"@,
        ValidationSeverity::Info => "INFO"@,
    }
}

/// The context after upserting each pair of `pairs`, in order.
pub open spec fn upsert_all(c: Seq<(Seq<char>, Seq<char>)>, pairs: Seq<(Seq<char>, Seq<char>)>) -> Seq<(Seq<char>, Seq<char>)>
    decreases pairs.len(),
{
    if pairs.len() == 0 {
        c
    } else {
        context_upsert(upsert_all(c, pairs.drop_last()), pairs.last().0, pairs.last().1)
    }
}

fn upsert(context: &mut Vec<(String, String)>, key: &str, value: &str)
    ensures
        context_view(final(context)@) == context_upsert(context_view(old(context)@), key@, value@),
{
    let ghost c = context_view(context@);
    let mut i: usize = 0;
    while i < context.len()
        invariant
            i <= context@.len(),
            c == context_view(context@),
            context@ == old(context)@,
            forall|j: int| 0 <= j < i ==> (#[trigger] c[j]).0 != key@,
        decreases context@.len() - i,
    {
        if str_eq(context[i].0.as_str(), key) {
            proof { lemma_first_key_index(c, key@, i as int); }
            context[i].1 = own(value);
            assert(context_view(context@) =~= c.update(i as int, (key@, value@)));
            return;
        }
        i = i + 1;
    }
    proof { lemma_first_key_index(c, key@, i as int); }
    context.push((own(key), own(value)));
    assert(context_view(context@) =~= c.push((key@, value@)));
}

/// A collection of validation findings in three buckets: errors (critical and
/// error level), warnings and informational notes.
#[derive(Debug, PartialEq)]
pub struct ValidationReport {
    /// Critical and error-level issues.
    pub errors: Vec<ValidationIssue>,
    /// Warning-level issues.
    pub warnings: Vec<ValidationIssue>,
    /// Informational notes.
    pub infos: Vec<ValidationIssue>,
}

/// Which filter a report projection applies.
#[derive(Clone, Copy)]
pub enum IssueFilter {
    /// The rule identifier equals the argument.
    RuleId,
    /// The rule identifier starts with the argument.
    RulePrefix,
    /// The segment tag equals the argument.
    Segment,
}

/// Whether `issue` passes filter `f` with argument `arg`.
pub open spec fn issue_matches(issue: ValidationIssue, f: IssueFilter, arg: Seq<char>) -> bool {
    match f {
        IssueFilter::RuleId => opt_view(issue.rule_id) == Some(arg),
        IssueFilter::RulePrefix => match opt_view(issue.rule_id) {
            Some(id) => arg.len() <= id.len() && id.subrange(0, arg.len() as int) == arg,
            None => false,
        },
        IssueFilter::Segment => opt_view(issue.segment_tag) == Some(arg),
    }
}

/// The filter `f` with argument `arg` as a predicate.
pub open spec fn filter_pred(f: IssueFilter, arg: Seq<char>) -> spec_fn(ValidationIssue) -> bool {
    |i: ValidationIssue| issue_matches(i, f, arg)
}

/// The bucket an issue of a given severity goes to: 0 errors, 1 warnings, 2 infos.
pub open spec fn bucket_of(s: ValidationSeverity) -> int {
    match s {
        ValidationSeverity::Critical | ValidationSeverity::Error => 0,
        ValidationSeverity::Warning => 1,
        ValidationSeverity::Info => 2,
    }
}

/// The issues of `s` that belong in bucket `b`, in order.
pub open spec fn in_bucket(s: Seq<ValidationIssue>, b: int) -> Seq<ValidationIssue> {
    s.filter(|i: ValidationIssue| bucket_of(i.severity) == b)
}

fn issue_passes(issue: &ValidationIssue, f: IssueFilter, arg: &str) -> (r: bool)
    ensures
        r == issue_matches(*issue, f, arg@),
{
    match f {
        IssueFilter::RuleId => match &issue.rule_id {
            Some(id) => str_eq(id.as_str(), arg),
            None => false,
        },
        IssueFilter::RulePrefix => match &issue.rule_id {
            Some(id) => starts_with(id.as_str(), arg),
            None => false,
        },
        IssueFilter::Segment => match &issue.segment_tag {
            Some(t) => str_eq(t.as_str(), arg),
            None => false,
        },
    }
}

fn filter_issues(src: &Vec<ValidationIssue>, f: IssueFilter, arg: &str) -> (r: Vec<ValidationIssue>)
    ensures
        same_issues(r@, src@.filter(filter_pred(f, arg@))),
{
    let ghost p = filter_pred(f, arg@);
    let mut out: Vec<ValidationIssue> = Vec::new();
    let mut i: usize = 0;
    while i < src.len()
        invariant
            i <= src@.len(),
            p == filter_pred(f, arg@),
            same_issues(out@, src@.take(i as int).filter(p)),
        decreases src@.len() - i,
    {
        proof {
            assert(src@.take(i + 1) =~= src@.take(i as int).push(src@[i as int]));
            src@.take(i as int).lemma_filter_push(src@[i as int], p);
        }
        if issue_passes(&src[i], f, arg) {
            out.push(src[i].clone());
        }
        i = i + 1;
    }
    assert(src@.take(src@.len() as int) =~= src@);
    out
}

fn reversed<T>(v: Vec<T>) -> (r: Vec<T>)
    ensures
        r@.len() == v@.len(),
        forall|j: int| 0 <= j < r@.len() ==> #[trigger] r@[j] == v@[v@.len() - 1 - j],
{
    let ghost src = v@;
    let mut v = v;
    let mut out: Vec<T> = Vec::new();
    while v.len() > 0
        invariant
            v@.len() + out@.len() == src.len(),
            v@ == src.take(v@.len() as int),
            forall|j: int| 0 <= j < out@.len() ==> #[trigger] out@[j] == src[src.len() - 1 - j],
        decreases v@.len(),
    {
        let x = v.pop().unwrap();
        out.push(x);
    }
    out
}

fn clone_issues(src: &Vec<ValidationIssue>) -> (r: Vec<ValidationIssue>)
    ensures
        same_issues(r@, src@),
{
    let mut out: Vec<ValidationIssue> = Vec::new();
    let mut i: usize = 0;
    while i < src.len()
        invariant
            i <= src@.len(),
            same_issues(out@, src@.take(i as int)),
        decreases src@.len() - i,
    {
        out.push(src[i].clone());
        i = i + 1;
    }
    assert(src@.take(src@.len() as int) =~= src@);
    out
}

impl ValidationReport {
    /// An empty report.
    pub fn new() -> (r: ValidationReport)
        ensures
            r.errors@.len() == 0,
            r.warnings@.len() == 0,
            r.infos@.len() == 0,
    {
        ValidationReport { errors: Vec::new(), warnings: Vec::new(), infos: Vec::new() }
    }

    /// A report holding the given buckets as they are.
    pub fn from_issues(errors: Vec<ValidationIssue>, warnings: Vec<ValidationIssue>, infos: Vec<ValidationIssue>) -> (r: ValidationReport)
        ensures
            r == (ValidationReport { errors, warnings, infos }),
    {
        ValidationReport { errors, warnings, infos }
    }

    /// The error-level issues.
    pub fn errors(&self) -> (r: &[ValidationIssue])
        ensures
            r@ == self.errors@,
    {
        self.errors.as_slice()
    }

    /// The error-level issues, mutably.
    pub fn errors_mut(&mut self) -> (r: &mut [ValidationIssue])
        ensures
            r@ == old(self).errors@,
            final(self).errors@ == final(r)@,
            final(self).warnings == old(self).warnings,
            final(self).infos == old(self).infos,
    {
        self.errors.as_mut_slice()
    }

    /// The warning-level issues.
    pub fn warnings(&self) -> (r: &[ValidationIssue])
        ensures
            r@ == self.warnings@,
    {
        self.warnings.as_slice()
    }

    /// The warning-level issues, mutably.
    pub fn warnings_mut(&mut self) -> (r: &mut [ValidationIssue])
        ensures
            r@ == old(self).warnings@,
            final(self).warnings@ == final(r)@,
            final(self).errors == old(self).errors,
            final(self).infos == old(self).infos,
    {
        self.warnings.as_mut_slice()
    }

    /// The informational issues.
    pub fn infos(&self) -> (r: &[ValidationIssue])
        ensures
            r@ == self.infos@,
    {
        self.infos.as_slice()
    }

    /// The informational issues, mutably.
    pub fn infos_mut(&mut self) -> (r: &mut [ValidationIssue])
        ensures
            r@ == old(self).infos@,
            final(self).infos@ == final(r)@,
            final(self).errors == old(self).errors,
            final(self).warnings == old(self).warnings,
    {
        self.infos.as_mut_slice()
    }

    /// Appends an issue to the errors.
    pub fn add_error(&mut self, issue: ValidationIssue)
        ensures
            final(self).errors@ == old(self).errors@.push(issue),
            final(self).warnings == old(self).warnings,
            final(self).infos == old(self).infos,
    {
        self.errors.push(issue);
    }

    /// Appends an issue to the warnings.
    pub fn add_warning(&mut self, issue: ValidationIssue)
        ensures
            final(self).warnings@ == old(self).warnings@.push(issue),
            final(self).errors == old(self).errors,
            final(self).infos == old(self).infos,
    {
        self.warnings.push(issue);
    }

    /// Appends an issue to the informational notes.
    pub fn add_info(&mut self, issue: ValidationIssue)
        ensures
            final(self).infos@ == old(self).infos@.push(issue),
            final(self).errors == old(self).errors,
            final(self).warnings == old(self).warnings,
    {
        self.infos.push(issue);
    }

    /// Whether the report holds an error-level issue.
    pub fn has_errors(&self) -> (r: bool)
        ensures
            r == (self.errors@.len() > 0),
    {
        self.errors.len() > 0
    }

    /// Whether an error-level issue has severity `Critical`.
    pub fn has_critical_errors(&self) -> (r: bool)
        ensures
            r == exists|i: int| 0 <= i < self.errors@.len() && (#[trigger] self.errors@[i]).severity == ValidationSeverity::Critical,
    {
        let mut i: usize = 0;
        while i < self.errors.len()
            invariant
                i <= self.errors@.len(),
                forall|j: int| 0 <= j < i ==> (#[trigger] self.errors@[j]).severity != ValidationSeverity::Critical,
            decreases self.errors@.len() - i,
        {
            if self.errors[i].severity == ValidationSeverity::Critical {
                return true;
            }
            i = i + 1;
        }
        false
    }

    /// Whether the report holds a warning.
    pub fn has_warnings(&self) -> (r: bool)
        ensures
            r == (self.warnings@.len() > 0),
    {
        self.warnings.len() > 0
    }

    /// The number of issues in all three buckets.
    pub fn total_issues(&self) -> (r: usize)
        requires
            self.errors@.len() + self.warnings@.len() + self.infos@.len() <= usize::MAX,
        ensures
            r == self.errors@.len() + self.warnings@.len() + self.infos@.len(),
    {
        self.errors.len() + self.warnings.len() + self.infos.len()
    }

    /// Whether validation passed: no error-level issue (warnings are allowed).
    pub fn is_valid(&self) -> (r: bool)
        ensures
            r == (self.errors@.len() == 0),
    {
        self.errors.len() == 0
    }

    /// `Ok(self)` when the report is valid, `Err(self)` otherwise; either way
    /// the whole report is handed back.
    pub fn result(self) -> (r: Result<ValidationReport, ValidationReport>)
        ensures
            r == (if self.errors@.len() == 0 { Ok::<ValidationReport, ValidationReport>(self) } else { Err(self) }),
    {
        if self.is_valid() { Ok(self) } else { Err(self) }
    }

    /// All issues: errors, then warnings, then infos.
    pub fn iter_issues(&self) -> (r: Vec<&ValidationIssue>)
        ensures
            r@.len() == self.all_issues().len(),
            forall|i: int| 0 <= i < r@.len() ==> *(#[trigger] r@[i]) == self.all_issues()[i],
    {
        let mut out: Vec<&ValidationIssue> = Vec::new();
        let ghost all = self.all_issues();
        let mut i: usize = 0;
        while i < self.errors.len()
            invariant
                all == self.all_issues(),
                i <= self.errors@.len(),
                out@.len() == i,
                forall|j: int| 0 <= j < out@.len() ==> *(#[trigger] out@[j]) == all[j],
            decreases self.errors@.len() - i,
        {
            out.push(&self.errors[i]);
            i = i + 1;
        }
        let mut i: usize = 0;
        while i < self.warnings.len()
            invariant
                all == self.all_issues(),
                i <= self.warnings@.len(),
                out@.len() == self.errors@.len() + i,
                forall|j: int| 0 <= j < out@.len() ==> *(#[trigger] out@[j]) == all[j],
            decreases self.warnings@.len() - i,
        {
            out.push(&self.warnings[i]);
            i = i + 1;
        }
        let mut i: usize = 0;
        while i < self.infos.len()
            invariant
                all == self.all_issues(),
                i <= self.infos@.len(),
                out@.len() == self.errors@.len() + self.warnings@.len() + i,
                forall|j: int| 0 <= j < out@.len() ==> *(#[trigger] out@[j]) == all[j],
            decreases self.infos@.len() - i,
        {
            out.push(&self.infos[i]);
            i = i + 1;
        }
        out
    }

    /// The issues of all three buckets, errors first.
    pub open spec fn all_issues(&self) -> Seq<ValidationIssue> {
        self.errors@ + self.warnings@ + self.infos@
    }

    /// Whether any bucket holds an issue.
    pub fn has_any_issues(&self) -> (r: bool)
        ensures
            r == (self.all_issues().len() > 0),
    {
        self.errors.len() > 0 || self.warnings.len() > 0 || self.infos.len() > 0
    }

    /// Moves every issue of `other` to the end of the matching bucket of `self`.
    pub fn merge(&mut self, other: ValidationReport)
        ensures
            final(self).errors@ == old(self).errors@ + other.errors@,
            final(self).warnings@ == old(self).warnings@ + other.warnings@,
            final(self).infos@ == old(self).infos@ + other.infos@,
    {
        let mut other = other;
        self.errors.append(&mut other.errors);
        self.warnings.append(&mut other.warnings);
        self.infos.append(&mut other.infos);
    }

    /// Appends copies of the issues of `other` to the matching buckets.
    pub fn extend_from(&mut self, other: &ValidationReport)
        ensures
            same_issues(final(self).errors@, old(self).errors@ + other.errors@),
            same_issues(final(self).warnings@, old(self).warnings@ + other.warnings@),
            same_issues(final(self).infos@, old(self).infos@ + other.infos@),
    {
        let mut e = clone_issues(&other.errors);
        let mut w = clone_issues(&other.warnings);
        let mut n = clone_issues(&other.infos);
        let ghost (e0, w0, n0) = (self.errors@, self.warnings@, self.infos@);
        self.errors.append(&mut e);
        self.warnings.append(&mut w);
        self.infos.append(&mut n);
        proof {
            assert forall|i: int| 0 <= i < self.errors@.len() implies same_issue(#[trigger] self.errors@[i], (e0 + other.errors@)[i]) by {
                if i >= e0.len() { assert(same_issue(self.errors@[i], other.errors@[i - e0.len()])); }
            }
            assert forall|i: int| 0 <= i < self.warnings@.len() implies same_issue(#[trigger] self.warnings@[i], (w0 + other.warnings@)[i]) by {
                if i >= w0.len() { assert(same_issue(self.warnings@[i], other.warnings@[i - w0.len()])); }
            }
            assert forall|i: int| 0 <= i < self.infos@.len() implies same_issue(#[trigger] self.infos@[i], (n0 + other.infos@)[i]) by {
                if i >= n0.len() { assert(same_issue(self.infos@[i], other.infos@[i - n0.len()])); }
            }
        }
    }

    /// The issues whose rule identifier is exactly `rule_id`, errors first.
    pub fn issues_for_rule_id(&self, rule_id: &str) -> (r: Vec<&ValidationIssue>)
        ensures
            r@.len() == self.all_issues().filter(filter_pred(IssueFilter::RuleId, rule_id@)).len(),
            forall|i: int| 0 <= i < r@.len() ==>
                *(#[trigger] r@[i]) == self.all_issues().filter(filter_pred(IssueFilter::RuleId, rule_id@))[i],
    {
        let all = self.iter_issues();
        let ghost p = filter_pred(IssueFilter::RuleId, rule_id@);
        let ghost src = self.all_issues();
        let mut out: Vec<&ValidationIssue> = Vec::new();
        let mut i: usize = 0;
        while i < all.len()
            invariant
                i <= all@.len(),
                all@.len() == src.len(),
                forall|j: int| 0 <= j < all@.len() ==> *(#[trigger] all@[j]) == src[j],
                p == filter_pred(IssueFilter::RuleId, rule_id@),
                out@.len() == src.take(i as int).filter(p).len(),
                forall|j: int| 0 <= j < out@.len() ==> *(#[trigger] out@[j]) == src.take(i as int).filter(p)[j],
            decreases all@.len() - i,
        {
            proof {
                assert(src.take(i + 1) =~= src.take(i as int).push(src[i as int]));
                src.take(i as int).lemma_filter_push(src[i as int], p);
            }
            let issue: &ValidationIssue = all[i];
            if issue_passes(issue, IssueFilter::RuleId, rule_id) {
                out.push(issue);
            }
            i = i + 1;
        }
        assert(src.take(src.len() as int) =~= src);
        out
    }

    fn filter_report(&self, f: IssueFilter, arg: &str) -> (r: ValidationReport)
        ensures
            same_issues(r.errors@, self.errors@.filter(filter_pred(f, arg@))),
            same_issues(r.warnings@, self.warnings@.filter(filter_pred(f, arg@))),
            same_issues(r.infos@, self.infos@.filter(filter_pred(f, arg@))),
    {
        ValidationReport {
            errors: filter_issues(&self.errors, f, arg),
            warnings: filter_issues(&self.warnings, f, arg),
            infos: filter_issues(&self.infos, f, arg),
        }
    }

    /// A copy holding only the issues whose rule identifier is exactly `rule_id`.
    pub fn filter_by_rule_id(&self, rule_id: &str) -> (r: ValidationReport)
        ensures
            same_issues(r.errors@, self.errors@.filter(filter_pred(IssueFilter::RuleId, rule_id@))),
            same_issues(r.warnings@, self.warnings@.filter(filter_pred(IssueFilter::RuleId, rule_id@))),
            same_issues(r.infos@, self.infos@.filter(filter_pred(IssueFilter::RuleId, rule_id@))),
    {
        self.filter_report(IssueFilter::RuleId, rule_id)
    }

    /// A copy holding only the issues whose rule identifier starts with `prefix`.
    pub fn filter_by_rule_prefix(&self, prefix: &str) -> (r: ValidationReport)
        ensures
            same_issues(r.errors@, self.errors@.filter(filter_pred(IssueFilter::RulePrefix, prefix@))),
            same_issues(r.warnings@, self.warnings@.filter(filter_pred(IssueFilter::RulePrefix, prefix@))),
            same_issues(r.infos@, self.infos@.filter(filter_pred(IssueFilter::RulePrefix, prefix@))),
    {
        self.filter_report(IssueFilter::RulePrefix, prefix)
    }

    /// A copy holding only the issues that name segment `segment_tag`.
    pub fn for_segment(&self, segment_tag: &str) -> (r: ValidationReport)
        ensures
            same_issues(r.errors@, self.errors@.filter(filter_pred(IssueFilter::Segment, segment_tag@))),
            same_issues(r.warnings@, self.warnings@.filter(filter_pred(IssueFilter::Segment, segment_tag@))),
            same_issues(r.infos@, self.infos@.filter(filter_pred(IssueFilter::Segment, segment_tag@))),
    {
        self.filter_report(IssueFilter::Segment, segment_tag)
    }

    /// Sorts each issue into the bucket of its severity, keeping their order.
    pub fn extend(&mut self, issues: Vec<ValidationIssue>)
        ensures
            final(self).errors@ == old(self).errors@ + in_bucket(issues@, 0),
            final(self).warnings@ == old(self).warnings@ + in_bucket(issues@, 1),
            final(self).infos@ == old(self).infos@ + in_bucket(issues@, 2),
    {
        let ghost src = issues@;
        let n = issues.len();
        let ghost (e0, w0, n0) = (self.errors@, self.warnings@, self.infos@);
        let mut rest = reversed(issues);
        let mut k: usize = 0;
        while rest.len() > 0
            invariant
                k <= src.len(),
                src.len() == n,
                rest@.len() == src.len() - k,
                forall|j: int| 0 <= j < rest@.len() ==> #[trigger] rest@[j] == src[src.len() - 1 - j],
                self.errors@ == e0 + in_bucket(src.take(k as int), 0),
                self.warnings@ == w0 + in_bucket(src.take(k as int), 1),
                self.infos@ == n0 + in_bucket(src.take(k as int), 2),
            decreases rest@.len(),
        {
            let issue = rest.pop().unwrap();
            proof {
                assert(issue == src[k as int]);
                assert(src.take(k + 1) =~= src.take(k as int).push(src[k as int]));
                src.take(k as int).lemma_filter_push(src[k as int], |i: ValidationIssue| bucket_of(i.severity) == 0);
                src.take(k as int).lemma_filter_push(src[k as int], |i: ValidationIssue| bucket_of(i.severity) == 1);
                src.take(k as int).lemma_filter_push(src[k as int], |i: ValidationIssue| bucket_of(i.severity) == 2);
            }
            match issue.severity {
                ValidationSeverity::Critical | ValidationSeverity::Error => {
                    self.add_error(issue);
                    assert(self.errors@ =~= e0 + in_bucket(src.take(k + 1), 0));
                }
                ValidationSeverity::Warning => {
                    self.add_warning(issue);
                    assert(self.warnings@ =~= w0 + in_bucket(src.take(k + 1), 1));
                }
                ValidationSeverity::Info => {
                    self.add_info(issue);
                    assert(self.infos@ =~= n0 + in_bucket(src.take(k + 1), 2));
                }
            }
            k = k + 1;
        }
        assert(src.take(src.len() as int) =~= src);
    }

    /// A report with each issue in the bucket of its severity, in order.
    pub fn from_iter(issues: Vec<ValidationIssue>) -> (r: ValidationReport)
        ensures
            r.errors@ == in_bucket(issues@, 0),
            r.warnings@ == in_bucket(issues@, 1),
            r.infos@ == in_bucket(issues@, 2),
    {
        let mut r = ValidationReport::new();
        r.extend(issues);
        assert(r.errors@ =~= in_bucket(issues@, 0));
        assert(r.warnings@ =~= in_bucket(issues@, 1));
        assert(r.infos@ =~= in_bucket(issues@, 2));
        r
    }
}

impl Default for ValidationReport {
    fn default() -> (r: ValidationReport)
        ensures
            r.errors@.len() == 0,
            r.warnings@.len() == 0,
            r.infos@.len() == 0,
    {
        ValidationReport::new()
    }
}

impl Clone for ValidationReport {
    fn clone(&self) -> (r: ValidationReport)
        ensures
            same_issues(r.errors@, self.errors@),
            same_issues(r.warnings@, self.warnings@),
            same_issues(r.infos@, self.infos@),
    {
        ValidationReport {
            errors: clone_issues(&self.errors),
            warnings: clone_issues(&self.warnings),
            infos: clone_issues(&self.infos),
        }
    }
}

/// Reading a context key back after setting it gives the value just set,
/// whatever the context held before.
pub proof fn law_context_entry_reads_back(c: Seq<(Seq<char>, Seq<char>)>, key: Seq<char>, value: Seq<char>)
    ensures
        context_lookup(context_upsert(c, key, value), key) == Some(value),
{
    lemma_first_key_index(c, key, 0);
    let i = first_key_index(c, key);
    let u = context_upsert(c, key, value);
    if i >= 0 {
        assert forall|j: int| 0 <= j < i implies (#[trigger] u[j]).0 != key by {
            if c[j].0 == key {
                lemma_first_key_before(c, key, j);
            }
        }
        lemma_first_key_index(u, key, i);
    } else {
        assert forall|j: int| 0 <= j < c.len() implies (#[trigger] u[j]).0 != key by {
            if c[j].0 == key {
                lemma_first_key_before(c, key, j);
            }
        }
        lemma_first_key_index(u, key, c.len() as int);
    }
}

/// Setting a key that is already present replaces its value in place: the
/// context keeps its length.
pub proof fn law_context_upsert_keeps_length_of_present_key(c: Seq<(Seq<char>, Seq<char>)>, key: Seq<char>, value: Seq<char>)
    requires
        context_lookup(c, key) is Some,
    ensures
        context_upsert(c, key, value).len() == c.len(),
{
    lemma_first_key_index(c, key, 0);
}

/// No key position lies before the first one.
proof fn lemma_first_key_before(c: Seq<(Seq<char>, Seq<char>)>, key: Seq<char>, j: int)
    requires
        0 <= j < c.len(),
        c[j].0 == key,
    ensures
        0 <= first_key_index(c, key) <= j,
    decreases c.len(),
{
    if j > 0 && c[0].0 != key {
        assert(c.drop_first()[j - 1] == c[j]);
        lemma_first_key_before(c.drop_first(), key, j - 1);
    }
}

/// Every issue sorted into a report lands in exactly one bucket: the three
/// buckets together hold as many issues as were given.
pub proof fn law_buckets_partition_issues(issues: Seq<ValidationIssue>)
    ensures
        in_bucket(issues, 0).len() + in_bucket(issues, 1).len() + in_bucket(issues, 2).len() == issues.len(),
    decreases issues.len(),
{
    if issues.len() > 0 {
        let init = issues.drop_last();
        law_buckets_partition_issues(init);
        assert(issues =~= init.push(issues.last()));
        init.lemma_filter_push(issues.last(), |i: ValidationIssue| bucket_of(i.severity) == 0);
        init.lemma_filter_push(issues.last(), |i: ValidationIssue| bucket_of(i.severity) == 1);
        init.lemma_filter_push(issues.last(), |i: ValidationIssue| bucket_of(i.severity) == 2);
    }
}


// ── Deterministic rendering ─────────────────────────────────────────────────

/// Three-way comparison of two integers.
pub open spec fn num_order(x: int, y: int) -> int {
    if x < y { -1 } else if y < x { 1 } else { 0 }
}

/// The rank of an offset when sorting: an absent offset after every present one.
pub open spec fn offset_rank(o: Option<usize>) -> int {
    match o {
        Some(v) => v as int,
        None => usize::MAX as int,
    }
}

/// The rank of an element or component index: an absent one counts as 255.
pub open spec fn index_rank(o: Option<u8>) -> int {
    match o {
        Some(v) => v as int,
        None => 255,
    }
}

/// The text of an optional string field, empty when absent.
pub open spec fn opt_text(o: Option<String>) -> Seq<char> {
    match o {
        Some(t) => t@,
        None => Seq::empty(),
    }
}

/// The text of the optional error code, empty when absent.
pub open spec fn code_text(o: Option<&'static str>) -> Seq<char> {
    match o {
        Some(t) => t@,
        None => Seq::empty(),
    }
}

/// The order of issues in a rendered report: by offset, segment tag, rule
/// identifier, element index, component index, error code and message, in
/// that order of precedence (`-1`, `0` or `1`).
pub open spec fn issue_order(a: ValidationIssue, b: ValidationIssue) -> int {
    let k1 = num_order(offset_rank(a.offset), offset_rank(b.offset));
    let k2 = text_order(opt_text(a.segment_tag), opt_text(b.segment_tag));
    let k3 = text_order(opt_text(a.rule_id), opt_text(b.rule_id));
    let k4 = num_order(index_rank(a.element_index), index_rank(b.element_index));
    let k5 = num_order(index_rank(a.component_index), index_rank(b.component_index));
    let k6 = text_order(code_text(a.error_code), code_text(b.error_code));
    let k7 = text_order(a.message@, b.message@);
    if k1 != 0 { k1 } else if k2 != 0 { k2 } else if k3 != 0 { k3 } else if k4 != 0 { k4 }
    else if k5 != 0 { k5 } else if k6 != 0 { k6 } else { k7 }
}

/// Where `x` goes into the ordered `s`: after every issue that does not come
/// after it, so that equal issues keep their order.
pub open spec fn insert_pos(s: Seq<ValidationIssue>, x: ValidationIssue) -> int
    decreases s.len(),
{
    if s.len() == 0 {
        0
    } else if issue_order(s.last(), x) > 0 {
        insert_pos(s.drop_last(), x)
    } else {
        s.len() as int
    }
}

/// The issues of `s` in [`issue_order`], equal issues in their original order.
pub open spec fn sorted_issues(s: Seq<ValidationIssue>) -> Seq<ValidationIssue>
    decreases s.len(),
{
    if s.len() == 0 {
        s
    } else {
        let r = sorted_issues(s.drop_last());
        r.insert(insert_pos(r, s.last()), s.last())
    }
}

/// The issues of `s` at the positions listed in `idx`.
pub open spec fn pick(s: Seq<ValidationIssue>, idx: Seq<usize>) -> Seq<ValidationIssue> {
    Seq::new(idx.len(), |k: int| s[idx[k] as int])
}

/// A bracketed detail `label` + value + `]`, or nothing when the value is absent.
pub open spec fn detail(label: Seq<char>, v: Option<Seq<char>>) -> Seq<char> {
    match v {
        Some(t) => label + t + "]"@,
        None => Seq::empty(),
    }
}

/// An optional number written in decimal.
pub open spec fn opt_decimal(v: Option<nat>) -> Option<Seq<char>> {
    match v {
        Some(n) => Some(decimal(n)),
        None => None,
    }
}

/// The optional error code as text.
pub open spec fn code_view(o: Option<&'static str>) -> Option<Seq<char>> {
    match o {
        Some(t) => Some(t@),
        None => None,
    }
}

/// One rendered issue line: the message, then each known detail in brackets.
pub open spec fn issue_line(i: ValidationIssue) -> Seq<char> {
    "    - "@ + i.message@
        + detail(" ["@, code_view(i.error_code))
        + detail(" [segment="@, opt_view(i.segment_tag))
        + detail(" [rule="@, opt_view(i.rule_id))
        + detail(" [element="@, opt_decimal(match i.element_index { Some(e) => Some(e as nat), None => None }))
        + detail(" [component="@, opt_decimal(match i.component_index { Some(c) => Some(c as nat), None => None }))
        + detail(" [offset="@, opt_decimal(match i.offset { Some(o) => Some(o as nat), None => None }))
        + detail(" [hint="@, opt_view(i.suggestion))
}

/// The lines of `s`, each preceded by a line break.
pub open spec fn lines_of(s: Seq<ValidationIssue>) -> Seq<char>
    decreases s.len(),
{
    if s.len() == 0 {
        Seq::empty()
    } else {
        lines_of(s.drop_last()) + "\n"@ + issue_line(s.last())
    }
}

/// A titled section listing `s`, or nothing when `s` is empty.
pub open spec fn section(title: Seq<char>, s: Seq<ValidationIssue>) -> Seq<char> {
    if s.len() == 0 {
        Seq::empty()
    } else {
        "\n  "@ + title + " ("@ + decimal(s.len()) + ")"@ + lines_of(s)
    }
}

/// The deterministic text of a report: a header, then the errors, warnings and
/// notes, each bucket in [`issue_order`].
pub open spec fn report_text(errors: Seq<ValidationIssue>, warnings: Seq<ValidationIssue>, infos: Seq<ValidationIssue>) -> Seq<char> {
    "Validation Report:"@
        + section("Errors"@, sorted_issues(errors))
        + section("Warnings"@, sorted_issues(warnings))
        + section("Info"@, sorted_issues(infos))
}

fn num_order_exec(x: usize, y: usize) -> (r: i8)
    ensures
        r == num_order(x as int, y as int),
{
    if x < y { -1 } else if y < x { 1 } else { 0 }
}

fn opt_str<'a>(o: &'a Option<String>) -> (r: &'a str)
    ensures
        r@ == opt_text(*o),
{
    proof { reveal_strlit(""); }
    match o {
        Some(t) => t.as_str(),
        None => "",
    }
}

fn code_str(o: Option<&'static str>) -> (r: &'static str)
    ensures
        r@ == code_text(o),
{
    proof { reveal_strlit(""); }
    match o {
        Some(t) => t,
        None => "",
    }
}

fn offset_key(o: Option<usize>) -> (r: usize)
    ensures
        r == offset_rank(o),
{
    match o {
        Some(v) => v,
        None => usize::MAX,
    }
}

fn index_key(o: Option<u8>) -> (r: usize)
    ensures
        r == index_rank(o),
{
    match o {
        Some(v) => v as usize,
        None => 255,
    }
}

/// [`issue_order`] computed.
fn order_issues(a: &ValidationIssue, b: &ValidationIssue) -> (r: i8)
    ensures
        r == issue_order(*a, *b),
{
    proof { reveal_strlit(""); }
    let k = num_order_exec(offset_key(a.offset), offset_key(b.offset));
    if k != 0 {
        return k;
    }
    let k = compare_text(opt_str(&a.segment_tag), opt_str(&b.segment_tag));
    if k != 0 {
        return k;
    }
    let k = compare_text(opt_str(&a.rule_id), opt_str(&b.rule_id));
    if k != 0 {
        return k;
    }
    let k = num_order_exec(index_key(a.element_index), index_key(b.element_index));
    if k != 0 {
        return k;
    }
    let k = num_order_exec(index_key(a.component_index), index_key(b.component_index));
    if k != 0 {
        return k;
    }
    let k = compare_text(code_str(a.error_code), code_str(b.error_code));
    if k != 0 {
        return k;
    }
    compare_text(a.message.as_str(), b.message.as_str())
}

/// The positions of `issues` in [`sorted_issues`] order (a stable insertion sort).
fn sorted_positions(issues: &Vec<ValidationIssue>) -> (r: Vec<usize>)
    ensures
        forall|k: int| 0 <= k < r@.len() ==> r@[k] < issues@.len(),
        pick(issues@, r@) == sorted_issues(issues@),
{
    let mut out: Vec<usize> = Vec::new();
    let mut i: usize = 0;
    assert(pick(issues@, out@) =~= sorted_issues(issues@.take(0)));
    while i < issues.len()
        invariant
            i <= issues@.len(),
            forall|k: int| 0 <= k < out@.len() ==> out@[k] < issues@.len(),
            pick(issues@, out@) == sorted_issues(issues@.take(i as int)),
        decreases issues@.len() - i,
    {
        let ghost cur = pick(issues@, out@);
        let ghost x = issues@[i as int];
        let mut j: usize = out.len();
        assert(cur.take(j as int) =~= cur);
        loop
            invariant
                i < issues@.len(),
                x == issues@[i as int],
                cur == pick(issues@, out@),
                j <= out@.len(),
                forall|k: int| 0 <= k < out@.len() ==> out@[k] < issues@.len(),
                insert_pos(cur, x) == insert_pos(cur.take(j as int), x),
            ensures
                j <= out@.len(),
                insert_pos(cur, x) == j,
            decreases j,
        {
            if j == 0 {
                break;
            }
            let c = order_issues(&issues[out[j - 1]], &issues[i]);
            assert(cur.take(j as int).last() == cur[j - 1]);
            if c <= 0 {
                break;
            }
            assert(cur.take(j as int).drop_last() =~= cur.take(j - 1));
            j = j - 1;
        }
        out.insert(j, i);
        proof {
            assert(issues@.take(i + 1).drop_last() =~= issues@.take(i as int));
            assert(issues@.take(i + 1).last() == x);
            assert(pick(issues@, out@) =~= cur.insert(j as int, x));
        }
        i = i + 1;
    }
    assert(issues@.take(issues@.len() as int) =~= issues@);
    out
}

fn push_detail(out: &mut String, label: &str, value: Option<&str>)
    ensures
        final(out)@ == old(out)@ + detail(label@, opt_str_view(value)),
{
    match value {
        Some(v) => {
            string_push_str(out, label);
            string_push_str(out, v);
            string_push_str(out, "]");
        }
        None => {
            assert(old(out)@ + detail(label@, opt_str_view(value)) =~= old(out)@);
        }
    }
}

fn push_number_detail(out: &mut String, label: &str, value: Option<usize>)
    ensures
        final(out)@ == old(out)@ + detail(label@, opt_decimal(match value { Some(n) => Some(n as nat), None => None })),
{
    match value {
        Some(n) => {
            let t = decimal_string(n as u128);
            push_detail(out, label, Some(t.as_str()));
        }
        None => {
            push_detail(out, label, None);
        }
    }
}

spec fn widen_spec(o: Option<u8>) -> Option<usize> {
    match o {
        Some(v) => Some(v as usize),
        None => None,
    }
}

fn widen(o: Option<u8>) -> (r: Option<usize>)
    ensures
        r == widen_spec(o),
{
    match o {
        Some(v) => Some(v as usize),
        None => None,
    }
}

/// Appends [`issue_line`] of `issue`.
fn push_issue_line(out: &mut String, issue: &ValidationIssue)
    ensures
        final(out)@ == old(out)@ + issue_line(*issue),
{
    let ghost start = out@;
    string_push_str(out, "    - ");
    string_push_str(out, issue.message.as_str());
    let ghost p0 = out@;
    push_detail(out, " [", issue.error_code);
    let ghost p1 = out@;
    push_detail(out, " [segment=", as_opt_str(&issue.segment_tag));
    let ghost p2 = out@;
    push_detail(out, " [rule=", as_opt_str(&issue.rule_id));
    let ghost p3 = out@;
    push_number_detail(out, " [element=", widen(issue.element_index));
    let ghost p4 = out@;
    push_number_detail(out, " [component=", widen(issue.component_index));
    let ghost p5 = out@;
    push_number_detail(out, " [offset=", issue.offset);
    let ghost p6 = out@;
    push_detail(out, " [hint=", as_opt_str(&issue.suggestion));
    proof {
        let i = *issue;
        assert(opt_str_view(i.error_code) == code_view(i.error_code));
        assert(opt_decimal(match widen_spec(i.element_index) { Some(n) => Some(n as nat), None => None })
            == opt_decimal(match i.element_index { Some(e) => Some(e as nat), None => None }));
        assert(opt_decimal(match widen_spec(i.component_index) { Some(n) => Some(n as nat), None => None })
            == opt_decimal(match i.component_index { Some(e) => Some(e as nat), None => None }));
        let l0 = "    - "@ + i.message@;
        let l1 = l0 + detail(" ["@, code_view(i.error_code));
        let l2 = l1 + detail(" [segment="@, opt_view(i.segment_tag));
        let l3 = l2 + detail(" [rule="@, opt_view(i.rule_id));
        let l4 = l3 + detail(" [element="@, opt_decimal(match i.element_index { Some(e) => Some(e as nat), None => None }));
        let l5 = l4 + detail(" [component="@, opt_decimal(match i.component_index { Some(c) => Some(c as nat), None => None }));
        let l6 = l5 + detail(" [offset="@, opt_decimal(match i.offset { Some(o) => Some(o as nat), None => None }));
        let l7 = l6 + detail(" [hint="@, opt_view(i.suggestion));
        assert(l7 == issue_line(i));
        lemma_append_assoc(start, "    - "@, i.message@);
        lemma_append_assoc(start, l0, detail(" ["@, code_view(i.error_code)));
        lemma_append_assoc(start, l1, detail(" [segment="@, opt_view(i.segment_tag)));
        lemma_append_assoc(start, l2, detail(" [rule="@, opt_view(i.rule_id)));
        lemma_append_assoc(start, l3, detail(" [element="@, opt_decimal(match i.element_index { Some(e) => Some(e as nat), None => None })));
        lemma_append_assoc(start, l4, detail(" [component="@, opt_decimal(match i.component_index { Some(c) => Some(c as nat), None => None })));
        lemma_append_assoc(start, l5, detail(" [offset="@, opt_decimal(match i.offset { Some(o) => Some(o as nat), None => None })));
        lemma_append_assoc(start, l6, detail(" [hint="@, opt_view(i.suggestion)));
    }
}

proof fn lemma_append_assoc(a: Seq<char>, b: Seq<char>, c: Seq<char>)
    ensures
        (a + b) + c == a + (b + c),
{
    assert((a + b) + c =~= a + (b + c));
}

/// Appends the [`section`] titled `title` of `issues` in sorted order.
fn push_section(out: &mut String, title: &str, issues: &Vec<ValidationIssue>)
    ensures
        final(out)@ == old(out)@ + section(title@, sorted_issues(issues@)),
{
    let order = sorted_positions(issues);
    let ghost sorted = sorted_issues(issues@);
    assert(pick(issues@, order@).len() == order@.len());
    if order.len() == 0 {
        assert(old(out)@ + section(title@, sorted) =~= old(out)@);
        return;
    }
    let ghost start = out@;
    string_push_str(out, "\n  ");
    string_push_str(out, title);
    string_push_str(out, " (");
    let count = decimal_string(order.len() as u128);
    string_push_str(out, count.as_str());
    string_push_str(out, ")");
    let ghost head = out@;
    assert(head =~= start + ("\n  "@ + title@ + " ("@ + decimal(sorted.len()) + ")"@));
    let mut k: usize = 0;
    assert(sorted.take(0) =~= Seq::<ValidationIssue>::empty());
    while k < order.len()
        invariant
            k <= order@.len(),
            sorted.len() == order@.len(),
            sorted == pick(issues@, order@),
            forall|q: int| 0 <= q < order@.len() ==> order@[q] < issues@.len(),
            out@ == head + lines_of(sorted.take(k as int)),
        decreases order@.len() - k,
    {
        let ghost before = out@;
        string_push_str(out, "\n");
        push_issue_line(out, &issues[order[k]]);
        proof {
            assert(sorted.take(k + 1).drop_last() =~= sorted.take(k as int));
            assert(sorted.take(k + 1).last() == issues@[order@[k as int] as int]);
            assert(out@ =~= head + lines_of(sorted.take(k + 1)));
        }
        k = k + 1;
    }
    assert(sorted.take(sorted.len() as int) =~= sorted);
    assert(out@ =~= start + section(title@, sorted));
}

impl ValidationReport {
    /// A stable text rendering for snapshots and logs: the header
    /// `Validation Report:`, then for each non-empty bucket a line with its
    /// title and size and one line per issue, issues in [`issue_order`].
    pub fn render_deterministic(&self) -> (r: String)
        ensures
            r@ == report_text(self.errors@, self.warnings@, self.infos@),
    {
        let mut out = String::new();
        string_push_str(&mut out, "Validation Report:");
        push_section(&mut out, "Errors", &self.errors);
        push_section(&mut out, "Warnings", &self.warnings);
        push_section(&mut out, "Info", &self.infos);
        proof {
            reveal_strlit("");
        }
        assert(out@ =~= report_text(self.errors@, self.warnings@, self.infos@));
        out
    }

    /// The display form of the report: its [`render_deterministic`](Self::render_deterministic) text.
    pub fn to_string(&self) -> (r: String)
        ensures
            r@ == report_text(self.errors@, self.warnings@, self.infos@),
    {
        self.render_deterministic()
    }
}


// ── the rendered order does not depend on the order of the issues ───────────

/// [`issue_order`] is antisymmetric and transitive.
pub proof fn lemma_issue_order(a: ValidationIssue, b: ValidationIssue, c: ValidationIssue)
    ensures
        issue_order(a, b) == -issue_order(b, a),
        issue_order(a, b) <= 0 && issue_order(b, c) <= 0 ==> issue_order(a, c) <= 0,
{
    crate::text::lemma_text_order_basic(opt_text(a.segment_tag), opt_text(b.segment_tag));
    crate::text::lemma_text_order_basic(opt_text(b.segment_tag), opt_text(c.segment_tag));
    crate::text::lemma_text_order_basic(opt_text(a.segment_tag), opt_text(c.segment_tag));
    crate::text::lemma_text_order_basic(opt_text(a.rule_id), opt_text(b.rule_id));
    crate::text::lemma_text_order_basic(opt_text(b.rule_id), opt_text(c.rule_id));
    crate::text::lemma_text_order_basic(opt_text(a.rule_id), opt_text(c.rule_id));
    crate::text::lemma_text_order_basic(code_text(a.error_code), code_text(b.error_code));
    crate::text::lemma_text_order_basic(code_text(b.error_code), code_text(c.error_code));
    crate::text::lemma_text_order_basic(code_text(a.error_code), code_text(c.error_code));
    crate::text::lemma_text_order_basic(a.message@, b.message@);
    crate::text::lemma_text_order_basic(b.message@, c.message@);
    crate::text::lemma_text_order_basic(a.message@, c.message@);
    if issue_order(a, b) <= 0 && issue_order(b, c) <= 0 {
        if text_order(opt_text(a.segment_tag), opt_text(b.segment_tag)) <= 0 && text_order(opt_text(b.segment_tag), opt_text(c.segment_tag)) <= 0 {
            crate::text::lemma_text_order_trans(opt_text(a.segment_tag), opt_text(b.segment_tag), opt_text(c.segment_tag));
        }
        if text_order(opt_text(a.rule_id), opt_text(b.rule_id)) <= 0 && text_order(opt_text(b.rule_id), opt_text(c.rule_id)) <= 0 {
            crate::text::lemma_text_order_trans(opt_text(a.rule_id), opt_text(b.rule_id), opt_text(c.rule_id));
        }
        if text_order(code_text(a.error_code), code_text(b.error_code)) <= 0 && text_order(code_text(b.error_code), code_text(c.error_code)) <= 0 {
            crate::text::lemma_text_order_trans(code_text(a.error_code), code_text(b.error_code), code_text(c.error_code));
        }
        if text_order(a.message@, b.message@) <= 0 && text_order(b.message@, c.message@) <= 0 {
            crate::text::lemma_text_order_trans(a.message@, b.message@, c.message@);
        }
    }
}

/// The issues of `s` are in [`issue_order`].
pub open spec fn ordered(s: Seq<ValidationIssue>) -> bool {
    forall|i: int, j: int| 0 <= i < j < s.len() ==> issue_order(#[trigger] s[i], #[trigger] s[j]) <= 0
}

proof fn lemma_insert_pos(s: Seq<ValidationIssue>, x: ValidationIssue)
    ensures
        0 <= insert_pos(s, x) <= s.len(),
        forall|k: int| insert_pos(s, x) <= k < s.len() ==> issue_order(#[trigger] s[k], x) > 0,
        insert_pos(s, x) > 0 ==> issue_order(s[insert_pos(s, x) - 1], x) <= 0,
    decreases s.len(),
{
    if s.len() > 0 && issue_order(s.last(), x) > 0 {
        lemma_insert_pos(s.drop_last(), x);
        assert forall|k: int| insert_pos(s, x) <= k < s.len() implies issue_order(#[trigger] s[k], x) > 0 by {
            if k < s.len() - 1 {
                assert(s[k] == s.drop_last()[k]);
            }
        }
    }
}

proof fn lemma_sorted_issues(s: Seq<ValidationIssue>)
    ensures
        ordered(sorted_issues(s)),
        sorted_issues(s).to_multiset() == s.to_multiset(),
    decreases s.len(),
{
    broadcast use vstd::seq_lib::to_multiset_build, vstd::seq_lib::to_multiset_insert;
    if s.len() > 0 {
        let r = sorted_issues(s.drop_last());
        let x = s.last();
        lemma_sorted_issues(s.drop_last());
        lemma_insert_pos(r, x);
        let p = insert_pos(r, x);
        let t = r.insert(p, x);
        assert forall|i: int, j: int| 0 <= i < j < t.len() implies issue_order(#[trigger] t[i], #[trigger] t[j]) <= 0 by {
            if j < p {
                assert(t[i] == r[i] && t[j] == r[j]);
            } else if j == p {
                assert(t[i] == r[i] && t[j] == x);
                lemma_issue_order(r[i], r[p - 1], x);
                if i < p - 1 {
                    assert(issue_order(r[i], r[p - 1]) <= 0);
                }
            } else if i == p {
                assert(t[i] == x && t[j] == r[j - 1]);
                lemma_issue_order(x, r[j - 1], x);
            } else if i < p {
                assert(t[i] == r[i] && t[j] == r[j - 1]);
            } else {
                assert(t[i] == r[i - 1] && t[j] == r[j - 1]);
            }
        }
        assert(s =~= s.drop_last().push(x));
    }
}

/// Where the issues of `m` tie in [`issue_order`], they are rendered alike.
pub open spec fn ties_render_alike(m: Multiset<ValidationIssue>) -> bool {
    forall|a: ValidationIssue, b: ValidationIssue| #![trigger m.count(a), m.count(b)]
        m.count(a) > 0 && m.count(b) > 0 && issue_order(a, b) == 0 ==> issue_line(a) == issue_line(b)
}

/// The rendered line of each issue of `s`, in order.
pub open spec fn rendered_lines(s: Seq<ValidationIssue>) -> Seq<Seq<char>> {
    s.map_values(|i: ValidationIssue| issue_line(i))
}

proof fn lemma_lines_of_map(a: Seq<ValidationIssue>, b: Seq<ValidationIssue>)
    requires
        rendered_lines(a) == rendered_lines(b),
    ensures
        lines_of(a) == lines_of(b),
    decreases a.len(),
{
    assert(a.len() == rendered_lines(b).len());
    if a.len() > 0 {
        assert(rendered_lines(a.drop_last()) =~= rendered_lines(b.drop_last())) by {
            assert forall|k: int| 0 <= k < a.len() - 1 implies #[trigger] rendered_lines(a.drop_last())[k] == rendered_lines(b.drop_last())[k] by {
                assert(rendered_lines(a)[k] == rendered_lines(b)[k]);
            }
        }
        lemma_lines_of_map(a.drop_last(), b.drop_last());
        assert(rendered_lines(a)[a.len() - 1] == rendered_lines(b)[a.len() - 1]);
    }
}


proof fn lemma_ordered_lines(r1: Seq<ValidationIssue>, r2: Seq<ValidationIssue>)
    requires
        ordered(r1),
        ordered(r2),
        r1.to_multiset() == r2.to_multiset(),
        ties_render_alike(r1.to_multiset()),
    ensures
        rendered_lines(r1) == rendered_lines(r2),
    decreases r1.len(),
{
    broadcast use vstd::seq_lib::to_multiset_len, vstd::seq_lib::to_multiset_contains, vstd::seq_lib::to_multiset_remove;
    broadcast use vstd::multiset::group_multiset_axioms;
    let m = r1.to_multiset();
    assert(r1.len() == r2.len()) by {
        assert(r1.len() == r1.to_multiset().len());
        assert(r2.len() == r2.to_multiset().len());
    }
    let n = r1.len() as int;
    if n == 0 {
        assert(rendered_lines(r1) =~= rendered_lines(r2));
    } else {
        let x = r1[n - 1];
        let y = r2[n - 1];
        assert(m.count(x) > 0) by { assert(r1.contains(x)); }
        assert(m.count(y) > 0) by { assert(r2.contains(y)); assert(r2.to_multiset().count(y) > 0); }
        assert(r2.contains(x)) by { assert(r2.to_multiset().count(x) > 0); }
        assert(r1.contains(y)) by { assert(r1.to_multiset().count(y) > 0); }
        let j = choose|j: int| 0 <= j < n && r2[j] == x;
        let i = choose|i: int| 0 <= i < n && r1[i] == y;
        lemma_issue_order(x, y, x);
        if i < n - 1 {
            assert(issue_order(r1[i], r1[n - 1]) <= 0);
        }
        if j < n - 1 {
            assert(issue_order(r2[j], r2[n - 1]) <= 0);
        }
        assert(issue_order(x, y) == 0);
        // Everything in r2 from j on ties with x, and so is rendered as x is.
        assert forall|k: int| j <= k < n implies issue_line(#[trigger] r2[k]) == issue_line(x) by {
            lemma_issue_order(r2[k], y, x);
            lemma_issue_order(x, r2[k], y);
            if j < k {
                assert(issue_order(r2[j], r2[k]) <= 0);
            }
            if k < n - 1 {
                assert(issue_order(r2[k], r2[n - 1]) <= 0);
            }
            assert(r2.contains(r2[k]));
            assert(m.count(r2[k]) > 0) by { assert(r2.to_multiset().count(r2[k]) > 0); }
        }
        let a = r1.drop_last();
        let b = r2.remove(j);
        assert(a =~= r1.remove(n - 1));
        assert(a.to_multiset() == m.remove(x));
        assert(b.to_multiset() == m.remove(x));
        assert(ordered(a)) by {
            assert forall|p: int, q: int| 0 <= p < q < a.len() implies issue_order(#[trigger] a[p], #[trigger] a[q]) <= 0 by {
                assert(a[p] == r1[p] && a[q] == r1[q]);
            }
        }
        assert(ordered(b)) by {
            assert forall|p: int, q: int| 0 <= p < q < b.len() implies issue_order(#[trigger] b[p], #[trigger] b[q]) <= 0 by {
                let pp = if p < j { p } else { p + 1 };
                let qq = if q < j { q } else { q + 1 };
                assert(b[p] == r2[pp] && b[q] == r2[qq]);
            }
        }
        assert(ties_render_alike(a.to_multiset())) by {
            assert forall|u: ValidationIssue, w: ValidationIssue| #![trigger a.to_multiset().count(u), a.to_multiset().count(w)]
                a.to_multiset().count(u) > 0 && a.to_multiset().count(w) > 0 && issue_order(u, w) == 0
                implies issue_line(u) == issue_line(w) by {
                assert(m.count(u) >= a.to_multiset().count(u));
                assert(m.count(w) >= a.to_multiset().count(w));
            }
        }
        lemma_ordered_lines(a, b);
        assert forall|k: int| 0 <= k < n implies #[trigger] rendered_lines(r1)[k] == rendered_lines(r2)[k] by {
            if k < j {
                assert(rendered_lines(a)[k] == rendered_lines(b)[k]);
                assert(a[k] == r1[k] && b[k] == r2[k]);
            } else if k < n - 1 {
                assert(rendered_lines(a)[k] == rendered_lines(b)[k]);
                assert(a[k] == r1[k] && b[k] == r2[k + 1]);
                assert(issue_line(r2[k + 1]) == issue_line(x));
                assert(issue_line(r2[k]) == issue_line(x));
            } else {
                assert(issue_line(r2[k]) == issue_line(x));
            }
        }
        assert(rendered_lines(r1) =~= rendered_lines(r2));
    }
}


proof fn lemma_section_alike(title: Seq<char>, a: Seq<ValidationIssue>, b: Seq<ValidationIssue>)
    requires
        a.to_multiset() == b.to_multiset(),
        ties_render_alike(a.to_multiset()),
    ensures
        section(title, sorted_issues(a)) == section(title, sorted_issues(b)),
        ordered(sorted_issues(a)),
        forall|i: int, j: int| 0 <= i < j < sorted_issues(a).len() ==>
            offset_rank((#[trigger] sorted_issues(a)[i]).offset) <= offset_rank((#[trigger] sorted_issues(a)[j]).offset),
{
    broadcast use vstd::seq_lib::to_multiset_len;
    lemma_sorted_issues(a);
    lemma_sorted_issues(b);
    lemma_ordered_lines(sorted_issues(a), sorted_issues(b));
    lemma_lines_of_map(sorted_issues(a), sorted_issues(b));
    assert(sorted_issues(a).len() == sorted_issues(a).to_multiset().len());
    assert(sorted_issues(b).len() == sorted_issues(b).to_multiset().len());
}

/// Rendering does not depend on the order in which the issues were
/// collected: two reports holding the same issues in each bucket, in any
/// order, render the same text, provided issues of a bucket that tie in
/// [`issue_order`] (same offset, segment tag, rule, element, component,
/// code and message) are rendered alike.  Each bucket is rendered in
/// [`issue_order`]: by ascending offset, issues without an offset last.
pub proof fn law_render_ignores_issue_order(e1: Seq<ValidationIssue>, w1: Seq<ValidationIssue>, i1: Seq<ValidationIssue>,
    e2: Seq<ValidationIssue>, w2: Seq<ValidationIssue>, i2: Seq<ValidationIssue>)
    requires
        e1.to_multiset() == e2.to_multiset(),
        w1.to_multiset() == w2.to_multiset(),
        i1.to_multiset() == i2.to_multiset(),
        ties_render_alike(e1.to_multiset()),
        ties_render_alike(w1.to_multiset()),
        ties_render_alike(i1.to_multiset()),
    ensures
        report_text(e1, w1, i1) == report_text(e2, w2, i2),
        ordered(sorted_issues(e1)),
        ordered(sorted_issues(w1)),
        ordered(sorted_issues(i1)),
        forall|i: int, j: int| 0 <= i < j < sorted_issues(e1).len() ==>
            offset_rank((#[trigger] sorted_issues(e1)[i]).offset) <= offset_rank((#[trigger] sorted_issues(e1)[j]).offset),
{
    lemma_section_alike("Errors"@, e1, e2);
    lemma_section_alike("Warnings"@, w1, w2);
    lemma_section_alike("Info"@, i1, i2);
}

} // verus!
