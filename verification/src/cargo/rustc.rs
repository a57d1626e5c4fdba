//! Provides the structs to work with rustc's output

use super::{HandleMessage, SummaryWriter};
use crate::github::{Annotation, AnnotationKind, AnnotationView};
use crate::session::{lemma_nothing_new, lemma_one_new, HandleError, SessionView};
use crate::set::{lemma_rank_bounds, rank_of};
use crate::text::{decimal, decimal_string};
use crate::views::{lemma_views_empty, lemma_views_push, views};
use vstd::prelude::*;
use vstd::std_specs::convert::FromSpecImpl;

verus! {

/// Severity of a [`Diagnostic`]
#[derive(Debug, Clone, Copy, PartialEq, Eq, Hash, Structural)]
pub enum DiagnosticLevel {
    /// A fatal error that prevents compilation
    Error,
    /// A possible error of concern
    Warning,
    /// Additional information or context about the diagnostic
    Note,
    /// A suggestion on how to resolve the diagnostic
    Help,
    /// A note attached to the message for further information
    FailureNote,
    /// Indicates a bug within the compiler
    InternalCompilerError,
}

/// The severity of an annotation for a diagnostic of the level `level`: errors of the
/// compiler and in the compiler are errors, warnings are warnings, and every other level is
/// a notice.
pub open spec fn kind_of(level: DiagnosticLevel) -> AnnotationKind {
    match level {
        DiagnosticLevel::Error | DiagnosticLevel::InternalCompilerError => AnnotationKind::Error,
        DiagnosticLevel::Warning => AnnotationKind::Warning,
        DiagnosticLevel::Note | DiagnosticLevel::Help | DiagnosticLevel::FailureNote => {
            AnnotationKind::Notice
        },
    }
}

impl From<DiagnosticLevel> for AnnotationKind {
    fn from(level: DiagnosticLevel) -> (kind: AnnotationKind) {
        match level {
            DiagnosticLevel::Error | DiagnosticLevel::InternalCompilerError => {
                AnnotationKind::Error
            },
            DiagnosticLevel::Warning => AnnotationKind::Warning,
            DiagnosticLevel::Note | DiagnosticLevel::Help | DiagnosticLevel::FailureNote => {
                AnnotationKind::Notice
            },
        }
    }
}

impl FromSpecImpl<DiagnosticLevel> for AnnotationKind {
    open spec fn obeys_from_spec() -> bool {
        true
    }

    open spec fn from_spec(level: DiagnosticLevel) -> AnnotationKind {
        kind_of(level)
    }
}

/// The location of a diagnostic in the source code
#[derive(Debug, Clone, PartialEq, Eq)]
pub struct DiagnosticSpan {
    /// The file where the span is located
    ///
    /// This path may not exist or may point to the source of an external crate.
    pub file_name: String,
    /// The first line number of the span (1-based, inclusive)
    pub line_start: usize,
    /// The last line number of the span (1-based, inclusive)
    pub line_end: usize,
    /// The first column number of the span (1-based, inclusive)
    pub column_start: usize,
    /// The last column number of the span (1-based, exclusive)
    pub column_end: usize,
    /// This span is the "primary" span
    pub is_primary: bool,
}

/// What a span holds.
pub struct DiagnosticSpanView {
    pub file_name: Seq<char>,
    pub line_start: nat,
    pub line_end: nat,
    pub column_start: nat,
    pub column_end: nat,
    pub is_primary: bool,
}

impl View for DiagnosticSpan {
    type V = DiagnosticSpanView;

    open spec fn view(&self) -> DiagnosticSpanView {
        DiagnosticSpanView {
            file_name: self.file_name@,
            line_start: self.line_start as nat,
            line_end: self.line_end as nat,
            column_start: self.column_start as nat,
            column_end: self.column_end as nat,
            is_primary: self.is_primary,
        }
    }
}

impl DiagnosticSpanView {
    /// The invariant of a span: lines count from 1 and do not run backwards.
    pub open spec fn wf(self) -> bool {
        1 <= self.line_start <= self.line_end
    }
}

/// Message output by rustc
#[derive(Debug, Clone, PartialEq, Eq)]
pub struct Diagnostic {
    /// Primary message
    pub message: String,
    /// Severity of the diagnostic
    pub level: DiagnosticLevel,
    /// Locations in the source code of this diagnostic
    pub spans: Vec<DiagnosticSpan>,
    /// Diagnostic as rendered by rustc
    pub rendered: Option<String>,
}

/// What a diagnostic holds.
pub struct DiagnosticView {
    pub message: Seq<char>,
    pub level: DiagnosticLevel,
    pub spans: Seq<DiagnosticSpanView>,
    pub rendered: Option<Seq<char>>,
}

impl View for Diagnostic {
    type V = DiagnosticView;

    open spec fn view(&self) -> DiagnosticView {
        DiagnosticView {
            message: self.message@,
            level: self.level,
            spans: views(self.spans@),
            rendered: match self.rendered {
                Some(rendered) => Some(rendered@),
                None => None,
            },
        }
    }
}

/// The place of the first primary span among `spans`; their number, if none is primary.
pub open spec fn primary_index(spans: Seq<DiagnosticSpanView>) -> int
    decreases spans.len(),
{
    if spans.len() == 0 {
        0
    } else if spans.first().is_primary {
        0
    } else {
        1 + primary_index(spans.drop_first())
    }
}

impl DiagnosticView {
    /// Whether one of the spans is primary.
    pub open spec fn has_primary(self) -> bool {
        exists|i: int| 0 <= i < self.spans.len() && (#[trigger] self.spans[i]).is_primary
    }

    /// The primary span: the first that is flagged so.
    pub open spec fn primary(self) -> Option<DiagnosticSpanView> {
        if self.has_primary() {
            Some(self.spans[primary_index(self.spans)])
        } else {
            None
        }
    }

    /// The invariant of a diagnostic: exactly one span is primary, and each span is in order.
    pub open spec fn wf(self) -> bool {
        &&& self.has_primary()
        &&& forall|i: int, j: int|
            0 <= i < self.spans.len() && 0 <= j < self.spans.len()
                && (#[trigger] self.spans[i]).is_primary && (#[trigger] self.spans[j]).is_primary
                ==> i == j
        &&& forall|i: int| 0 <= i < self.spans.len() ==> (#[trigger] self.spans[i]).wf()
    }

    /// The summary of the diagnostic: its level, its message, and the file and first line of
    /// its primary span, where it has one.
    pub open spec fn summary(self) -> DiagnosticSummaryView {
        DiagnosticSummaryView {
            level: self.level,
            message: self.message,
            location: match self.primary() {
                Some(span) => Some((span.file_name, span.line_start)),
                None => None,
            },
        }
    }

    /// The annotation of a diagnostic with the primary span `span`: the severity is that of
    /// the level, the place is that of the span, and the text is the rendered diagnostic
    /// under the message as its title, or the message alone where nothing was rendered.
    pub open spec fn annotation(self, span: DiagnosticSpanView) -> AnnotationView {
        AnnotationView {
            kind: kind_of(self.level),
            file: span.file_name,
            line: span.line_start,
            end_line: Some(span.line_end),
            col: Some(span.column_start),
            end_column: Some(span.column_end),
            title: match self.rendered {
                Some(_) => Some(self.message),
                None => None,
            },
            message: match self.rendered {
                Some(rendered) => rendered,
                None => self.message,
            },
        }
    }
}

/// The annotation of a diagnostic obeys the invariant of the data model where its primary
/// span is in order.
pub proof fn lemma_annotation_wf(message: DiagnosticView, span: DiagnosticSpanView)
    requires
        span.wf(),
    ensures
        message.annotation(span).wf(),
{
}

/// A diagnostic in order is complete: its primary span is the one span that is flagged so,
/// and its annotation obeys the invariant of the data model.
pub proof fn lemma_wf_diagnostic(message: DiagnosticView)
    requires
        message.wf(),
    ensures
        message.primary() is Some,
        forall|i: int|
            0 <= i < message.spans.len() && (#[trigger] message.spans[i]).is_primary
                ==> message.primary() == Some(message.spans[i]),
        message.annotation(message.primary()->0).wf(),
{
    lemma_primary_index(message.spans);
    let at = primary_index(message.spans);
    if at >= message.spans.len() {
        let i = choose|i: int|
            0 <= i < message.spans.len() && (#[trigger] message.spans[i]).is_primary;
        assert(!message.spans[i].is_primary);
    }
    assert(message.spans[at].is_primary);
    assert(message.spans[at].wf());
    lemma_annotation_wf(message, message.spans[at]);
}

/// A diagnostic none of whose spans is primary is not complete. To turn it into annotations
/// is ruled out, and a run that is handed it ends in the error: the diagnostic is not
/// dropped in silence, and no annotation is made up for it.
pub proof fn lemma_missing_primary_span<W: SummaryWriter<Summary = DiagnosticSummary>>(
    run: SessionView<W>,
    message: Diagnostic,
)
    requires
        forall|i: int| 0 <= i < message@.spans.len() ==> !(#[trigger] message@.spans[i]).is_primary,
    ensures
        !message.complete(),
        message@.primary() is None,
        run.outcome(
            message.complete(),
            message.annotations(run.base_dir),
            message.summaries(run.base_dir),
        ) == Err::<(SessionView<W>, Seq<Seq<char>>), HandleError>(HandleError::Incomplete),
{
}

/// The first primary span stands at `primary_index`, and no span before it is primary.
pub proof fn lemma_primary_index(spans: Seq<DiagnosticSpanView>)
    ensures
        0 <= primary_index(spans) <= spans.len(),
        forall|i: int| 0 <= i < primary_index(spans) ==> !(#[trigger] spans[i]).is_primary,
        primary_index(spans) < spans.len() ==> spans[primary_index(spans)].is_primary,
    decreases spans.len(),
{
    if spans.len() > 0 && !spans.first().is_primary {
        let rest = spans.drop_first();
        lemma_primary_index(rest);
        assert forall|i: int| 0 <= i < primary_index(spans) implies !(
        #[trigger] spans[i]).is_primary by {
            if i > 0 {
                assert(spans[i] == rest[i - 1]);
            }
        }
    }
}

impl Diagnostic {
    /// The place of the first primary span; the number of spans, if none is primary.
    fn find_primary(&self) -> (at: usize)
        ensures
            at == primary_index(self@.spans),
            at <= self.spans.len(),
            at < self.spans.len() <==> self@.has_primary(),
            at < self.spans.len() ==> self@.primary() == Some(self.spans[at as int]@),
    {
        let mut at: usize = 0;
        while at < self.spans.len() && !self.spans[at].is_primary
            invariant
                at <= self.spans.len(),
                forall|i: int| 0 <= i < at ==> !(#[trigger] self@.spans[i]).is_primary,
            decreases self.spans.len() - at,
        {
            at = at + 1;
        }
        proof {
            let spans = self@.spans;
            lemma_primary_index(spans);
            if at < spans.len() {
                assert(spans[at as int].is_primary);
            }
        }
        at
    }
}

impl HandleMessage for Diagnostic {
    type Summary = DiagnosticSummary;

    open spec fn complete(&self) -> bool {
        self@.has_primary()
    }

    open spec fn annotations(&self, base_dir: Seq<char>) -> Seq<AnnotationView> {
        match self@.primary() {
            Some(span) => seq![self@.annotation(span)],
            None => Seq::empty(),
        }
    }

    open spec fn summaries(&self, base_dir: Seq<char>) -> Seq<DiagnosticSummaryView> {
        seq![self@.summary()]
    }

    fn is_complete(&self) -> (r: bool) {
        self.find_primary() < self.spans.len()
    }

    fn into_annotations(self, base_dir: &str) -> (r: Vec<Annotation>) {
        let at = self.find_primary();
        let span = &self.spans[at];
        let file = span.file_name.clone();
        let line = span.line_start;
        let end_line = Some(span.line_end);
        let col = Some(span.column_start);
        let end_column = Some(span.column_end);
        let kind = AnnotationKind::from(self.level);
        let (title, message) = match self.rendered {
            Some(rendered) => (Some(self.message), rendered),
            None => (None, self.message),
        };
        let annotation = Annotation {
            kind,
            file,
            line,
            end_line,
            col,
            end_column,
            title,
            message,
        };
        let mut r: Vec<Annotation> = Vec::new();
        proof {
            lemma_views_empty::<Annotation>();
            lemma_views_push(r@, annotation);
        }
        r.push(annotation);
        r
    }

    fn summarize(&self, base_dir: &str) -> (r: Vec<DiagnosticSummary>) {
        let summary = DiagnosticSummary::from(self);
        proof {
            lemma_primary_index(self@.spans);
        }
        let mut r: Vec<DiagnosticSummary> = Vec::new();
        proof {
            lemma_views_empty::<DiagnosticSummary>();
            lemma_views_push(r@, summary);
        }
        r.push(summary);
        r
    }
}

/// Summary info of [`Diagnostic`]
#[derive(Debug, Clone, PartialEq, Eq)]
pub struct DiagnosticSummary {
    /// [`Diagnostic.level`](Diagnostic#structfield.level)
    pub level: DiagnosticLevel,
    /// [`Diagnostic.message`](Diagnostic#structfield.message)
    pub message: String,
    /// Location of the diagnostic (primary [span](DiagnosticSpan))
    pub location: Option<(String, usize)>,
}

/// What the summary of a diagnostic holds.
pub struct DiagnosticSummaryView {
    pub level: DiagnosticLevel,
    pub message: Seq<char>,
    pub location: Option<(Seq<char>, nat)>,
}

impl View for DiagnosticSummary {
    type V = DiagnosticSummaryView;

    open spec fn view(&self) -> DiagnosticSummaryView {
        DiagnosticSummaryView {
            level: self.level,
            message: self.message@,
            location: match self.location {
                Some((file, line)) => Some((file@, line as nat)),
                None => None,
            },
        }
    }
}

impl<'c> From<&'c Diagnostic> for DiagnosticSummary {
    fn from(message: &'c Diagnostic) -> (summary: DiagnosticSummary) {
        let at = message.find_primary();
        DiagnosticSummary {
            level: message.level,
            message: message.message.clone(),
            location: if at < message.spans.len() {
                Some((message.spans[at].file_name.clone(), message.spans[at].line_start))
            } else {
                None
            },
        }
    }
}

impl<'c> FromSpecImpl<&'c Diagnostic> for DiagnosticSummary {
    open spec fn obeys_from_spec() -> bool {
        true
    }

    open spec fn from_spec(message: &'c Diagnostic) -> DiagnosticSummary {
        DiagnosticSummary {
            level: message.level,
            message: message.message,
            location: if message@.has_primary() {
                let span = message.spans[primary_index(message@.spans)];
                Some((span.file_name, span.line_start))
            } else {
                None
            },
        }
    }
}

/// The place of a diagnostic as a summary shows it: nothing where there is none.
pub open spec fn location_text(location: Option<(Seq<char>, nat)>) -> Seq<char> {
    match location {
        Some((file, line)) => "`"@ + file + ":"@ + decimal(line) + "`"@,
        None => Seq::empty(),
    }
}

/// [`SummaryWriter`] for [`DiagnosticSummary`]
#[derive(Debug, Clone, Copy, PartialEq, Eq)]
pub struct DiagnosticSummaryWriter {
    /// Number of the errors written
    pub errors: usize,
    /// Number of the warnings written
    pub warnings: usize,
    /// Number of the notices written
    pub notices: usize,
}

impl Default for DiagnosticSummaryWriter {
    fn default() -> (writer: DiagnosticSummaryWriter)
        ensures
            writer.errors == 0,
            writer.warnings == 0,
            writer.notices == 0,
    {
        DiagnosticSummaryWriter { errors: 0, warnings: 0, notices: 0 }
    }
}

impl DiagnosticSummaryWriter {
    /// Counter for each [`AnnotationKind`]
    pub open spec fn kind_count(&self, kind: AnnotationKind) -> nat {
        match kind {
            AnnotationKind::Error => self.errors as nat,
            AnnotationKind::Warning => self.warnings as nat,
            AnnotationKind::Notice => self.notices as nat,
        }
    }

    /// The number of summaries of the kind `kind` written so far.
    pub fn count(&self, kind: AnnotationKind) -> (n: usize)
        ensures
            n == self.kind_count(kind),
    {
        match kind {
            AnnotationKind::Error => self.errors,
            AnnotationKind::Warning => self.warnings,
            AnnotationKind::Notice => self.notices,
        }
    }
}

impl SummaryWriter for DiagnosticSummaryWriter {
    type Summary = DiagnosticSummary;

    open spec fn has_room(&self, summary: DiagnosticSummaryView) -> bool {
        self.kind_count(kind_of(summary.level)) < usize::MAX
    }

    /// One row of the table: the severity, the message and the place.
    open spec fn row(&self, summary: DiagnosticSummaryView) -> Seq<char> {
        "|"@ + kind_of(summary.level).label_text() + "|"@ + summary.message + "|"@ + location_text(
            summary.location,
        ) + "|\n"@
    }

    /// The counter of the summary's severity goes up by one.
    open spec fn folded(&self, summary: DiagnosticSummaryView) -> Self {
        match kind_of(summary.level) {
            AnnotationKind::Error => DiagnosticSummaryWriter {
                errors: (self.errors + 1) as usize,
                ..*self
            },
            AnnotationKind::Warning => DiagnosticSummaryWriter {
                warnings: (self.warnings + 1) as usize,
                ..*self
            },
            AnnotationKind::Notice => DiagnosticSummaryWriter {
                notices: (self.notices + 1) as usize,
                ..*self
            },
        }
    }

    /// The totals by severity, then the head of the table.
    open spec fn preamble(&self) -> Seq<char> {
        "> **TOTAL:** "@ + decimal(self.errors as nat) + " "@ + AnnotationKind::Error.label_text()
            + "s, "@ + decimal(self.warnings as nat) + " "@ + AnnotationKind::Warning.label_text()
            + "s, "@ + decimal(self.notices as nat) + " "@ + AnnotationKind::Notice.label_text()
            + "s\n\n"@ + "|Level|Message|Location|\n"@ + "|:--|:--|--:|\n"@
    }

    open spec fn postamble(&self) -> Seq<char> {
        Seq::empty()
    }

    fn can_write(&self, summary: &DiagnosticSummary) -> (r: bool) {
        self.count(AnnotationKind::from(summary.level)) < usize::MAX
    }

    fn write_summary(&mut self, summary: DiagnosticSummary, content: &mut String) {
        let kind = AnnotationKind::from(summary.level);
        match kind {
            AnnotationKind::Error => {
                self.errors = self.errors + 1;
            },
            AnnotationKind::Warning => {
                self.warnings = self.warnings + 1;
            },
            AnnotationKind::Notice => {
                self.notices = self.notices + 1;
            },
        }
        let mut location = String::new();
        if let Some((file, line)) = &summary.location {
            location.append("`");
            location.append(file.as_str());
            location.append(":");
            location.append(decimal_string(*line).as_str());
            location.append("`");
        }
        let mut row = String::new();
        row.append("|");
        row.append(kind.to_string().as_str());
        row.append("|");
        row.append(summary.message.as_str());
        row.append("|");
        row.append(location.as_str());
        row.append("|\n");
        content.append(row.as_str());
    }

    fn write_preamble(&self, file: &mut String) {
        let mut text = String::new();
        text.append("> **TOTAL:** ");
        text.append(decimal_string(self.errors).as_str());
        text.append(" ");
        text.append(AnnotationKind::Error.to_string().as_str());
        text.append("s, ");
        text.append(decimal_string(self.warnings).as_str());
        text.append(" ");
        text.append(AnnotationKind::Warning.to_string().as_str());
        text.append("s, ");
        text.append(decimal_string(self.notices).as_str());
        text.append(" ");
        text.append(AnnotationKind::Notice.to_string().as_str());
        text.append("s\n\n");
        text.append("|Level|Message|Location|\n");
        text.append("|:--|:--|--:|\n");
        file.append(text.as_str());
    }

    fn write_postamble(self, file: &mut String) {
    }
}

/// The number of annotations of the kind `kind` in `seen`.
pub open spec fn count_of(seen: Seq<AnnotationView>, kind: AnnotationKind) -> nat
    decreases seen.len(),
{
    if seen.len() == 0 {
        0
    } else if seen.last().kind == kind {
        count_of(seen.drop_last(), kind) + 1
    } else {
        count_of(seen.drop_last(), kind)
    }
}

/// Whether the totals of the report are the numbers of the annotations seen, kind by kind.
pub open spec fn tallied(run: SessionView<DiagnosticSummaryWriter>) -> bool {
    forall|kind: AnnotationKind| #[trigger]
        run.writer.kind_count(kind) == count_of(run.seen, kind)
}

/// An annotation put into a sequence, wherever, counts once for its kind.
proof fn lemma_count_insert(
    seen: Seq<AnnotationView>,
    at: int,
    annotation: AnnotationView,
    kind: AnnotationKind,
)
    requires
        0 <= at <= seen.len(),
    ensures
        count_of(seen.insert(at, annotation), kind) == count_of(seen, kind) + if annotation.kind
            == kind {
            1nat
        } else {
            0nat
        },
    decreases seen.len() - at,
{
    let with = seen.insert(at, annotation);
    if at == seen.len() {
        assert(with.drop_last() == seen);
    } else {
        lemma_count_insert(seen.drop_last(), at, annotation, kind);
        assert(with.drop_last() == seen.drop_last().insert(at, annotation));
    }
}

/// The totals of the report count the annotations seen: a run of diagnostics whose totals
/// are the numbers of its annotations keeps them so over any diagnostic that it takes in.
/// The totals depend then on the set of the annotations alone, not on the order in which
/// the diagnostics came nor on how often one came.
pub proof fn lemma_tallied(run: SessionView<DiagnosticSummaryWriter>, message: Diagnostic)
    requires
        run.wf(),
        tallied(run),
        message.complete(),
        run.accepts(message.annotations(run.base_dir), message.summaries(run.base_dir)),
    ensures
        tallied(run.after(message.annotations(run.base_dir), message.summaries(run.base_dir))),
{
    let annotations = message.annotations(run.base_dir);
    let summaries = message.summaries(run.base_dir);
    let next = run.after(annotations, summaries);
    let annotation = annotations[0];
    if run.seen.contains(annotation) {
        lemma_nothing_new(run, annotations, summaries);
    } else {
        lemma_one_new(run.seen, annotation);
        lemma_rank_bounds(run.seen, annotation);
        assert forall|kind: AnnotationKind| #[trigger]
            next.writer.kind_count(kind) == count_of(next.seen, kind) by {
            lemma_count_insert(run.seen, rank_of(run.seen, annotation), annotation, kind);
            assert(run.writer.kind_count(kind) == count_of(run.seen, kind));
        }
    }
}

} // verus!
