//! One run over the messages of a build tool: each message is turned into annotations, the
//! annotations that were not seen before go out as commands, and the report grows.

use crate::cargo::{folded_all, room_for_all, rows, HandleMessage, SummaryWriter};
use crate::github::{Annotation, AnnotationKind, AnnotationView};
use crate::set::{inserted, lemma_inserted, lemma_sorted_unique, sorted, AnnotationSet};
use crate::views::{lemma_views_empty, lemma_views_push, views};
use vstd::prelude::*;

verus! {

/// `seen` with the annotations of `incoming` put in, one after another.
pub open spec fn extended(seen: Seq<AnnotationView>, incoming: Seq<AnnotationView>) -> Seq<
    AnnotationView,
>
    decreases incoming.len(),
{
    if incoming.len() == 0 {
        seen
    } else {
        inserted(extended(seen, incoming.drop_last()), incoming.last())
    }
}

/// The annotations of `incoming` that are not in `seen`, each where it comes first.
pub open spec fn fresh(seen: Seq<AnnotationView>, incoming: Seq<AnnotationView>) -> Seq<
    AnnotationView,
>
    decreases incoming.len(),
{
    if incoming.len() == 0 {
        Seq::empty()
    } else if seen.contains(incoming.last()) || incoming.drop_last().contains(incoming.last()) {
        fresh(seen, incoming.drop_last())
    } else {
        fresh(seen, incoming.drop_last()).push(incoming.last())
    }
}

/// The most severe kind among `kind` and those of `annotations`.
pub open spec fn worst(kind: AnnotationKind, annotations: Seq<AnnotationView>) -> AnnotationKind
    decreases annotations.len(),
{
    if annotations.len() == 0 {
        kind
    } else {
        let before = worst(kind, annotations.drop_last());
        if before.rank() >= annotations.last().kind.rank() {
            before
        } else {
            annotations.last().kind
        }
    }
}

/// The commands for `annotations`, one line each.
pub open spec fn encodings(annotations: Seq<AnnotationView>) -> Seq<Seq<char>> {
    Seq::new(annotations.len(), |i: int| annotations[i].encoded())
}

/// The least severity that makes a run fail: a warning, or an error where warnings are
/// allowed.
pub open spec fn threshold_kind(allow_warnings: bool) -> AnnotationKind {
    if allow_warnings {
        AnnotationKind::Error
    } else {
        AnnotationKind::Warning
    }
}

/// The least severity that makes a run fail.
pub fn threshold(allow_warnings: bool) -> (kind: AnnotationKind)
    ensures
        kind == threshold_kind(allow_warnings),
{
    if allow_warnings {
        AnnotationKind::Error
    } else {
        AnnotationKind::Warning
    }
}

/// Why a message was not handled.
#[derive(Debug, Clone, Copy, PartialEq, Eq, Structural)]
pub enum HandleError {
    /// The message lacks what its annotations are made of: a diagnostic without a primary span.
    Incomplete,
    /// A counter of the summary writer cannot take the message's summaries in.
    CounterOverflow,
}

impl HandleError {
    /// The error in words.
    pub open spec fn text(self) -> Seq<char> {
        match self {
            HandleError::Incomplete => "Missing primary span"@,
            HandleError::CounterOverflow => "Too many summaries to count"@,
        }
    }

    /// The error in words.
    pub fn to_string(&self) -> (r: String)
        ensures
            r@ == self.text(),
    {
        match self {
            HandleError::Incomplete => "Missing primary span".to_owned(),
            HandleError::CounterOverflow => "Too many summaries to count".to_owned(),
        }
    }
}

/// What a run holds.
pub struct SessionView<W> {
    /// The directory that paths are taken relative to
    pub base_dir: Seq<char>,
    /// The annotations seen so far, in their order
    pub seen: Seq<AnnotationView>,
    /// The writer, with its counters
    pub writer: W,
    /// The rows of the report written so far
    pub content: Seq<char>,
    /// The most severe kind seen so far
    pub max_kind: AnnotationKind,
}

impl<W: SummaryWriter> SessionView<W> {
    /// The invariant of a run: the annotations seen stand in their order, and the most
    /// severe kind is that of one of them, or a notice where there is none more severe.
    pub open spec fn wf(self) -> bool {
        &&& sorted(self.seen)
        &&& forall|i: int|
            0 <= i < self.seen.len() ==> (#[trigger] self.seen[i]).kind.rank()
                <= self.max_kind.rank()
        &&& self.max_kind != AnnotationKind::Notice ==> exists|i: int|
            0 <= i < self.seen.len() && (#[trigger] self.seen[i]).kind == self.max_kind
    }

    /// Whether the run can take in a message with these annotations and summaries: the
    /// summaries are written only if an annotation is new, and then the writer needs room.
    pub open spec fn accepts(
        self,
        annotations: Seq<AnnotationView>,
        summaries: Seq<<W::Summary as View>::V>,
    ) -> bool {
        fresh(self.seen, annotations).len() > 0 ==> room_for_all(self.writer, summaries)
    }

    /// The run after a message with these annotations and summaries: the annotations are
    /// seen; if one of them is new, the summaries are written and counted.
    pub open spec fn after(
        self,
        annotations: Seq<AnnotationView>,
        summaries: Seq<<W::Summary as View>::V>,
    ) -> SessionView<W> {
        let new = fresh(self.seen, annotations);
        SessionView {
            base_dir: self.base_dir,
            seen: extended(self.seen, annotations),
            writer: if new.len() > 0 {
                folded_all(self.writer, summaries)
            } else {
                self.writer
            },
            content: if new.len() > 0 {
                self.content + rows(self.writer, summaries)
            } else {
                self.content
            },
            max_kind: worst(self.max_kind, new),
        }
    }

    /// What comes of a message with these annotations and summaries. A message that is not
    /// complete is an error, and so is one that the run cannot take in; any other gives the
    /// run after it and the commands of its new annotations, in the order in which they came.
    pub open spec fn outcome(
        self,
        complete: bool,
        annotations: Seq<AnnotationView>,
        summaries: Seq<<W::Summary as View>::V>,
    ) -> Result<(SessionView<W>, Seq<Seq<char>>), HandleError> {
        if !complete {
            Err(HandleError::Incomplete)
        } else if !self.accepts(annotations, summaries) {
            Err(HandleError::CounterOverflow)
        } else {
            Ok((self.after(annotations, summaries), encodings(fresh(self.seen, annotations))))
        }
    }

    /// The report: the preamble with the totals, the rows, the postamble.
    pub open spec fn report(self) -> Seq<char> {
        self.writer.preamble() + self.content + self.writer.postamble()
    }

    /// Whether the run fails: an annotation seen is at least as severe as the threshold.
    pub open spec fn fails(self, allow_warnings: bool) -> bool {
        exists|i: int|
            0 <= i < self.seen.len() && (#[trigger] self.seen[i]).kind.rank() >= threshold_kind(
                allow_warnings,
            ).rank()
    }
}

/// What `seen` holds once `incoming` is put in: all of both, in order.
pub proof fn lemma_extended(seen: Seq<AnnotationView>, incoming: Seq<AnnotationView>)
    requires
        sorted(seen),
    ensures
        sorted(extended(seen, incoming)),
        forall|x: AnnotationView|
            extended(seen, incoming).contains(x) <==> (seen.contains(x) || incoming.contains(x)),
    decreases incoming.len(),
{
    if incoming.len() > 0 {
        let init = incoming.drop_last();
        lemma_extended(seen, init);
        lemma_inserted(extended(seen, init), incoming.last());
        assert forall|x: AnnotationView|
            extended(seen, incoming).contains(x) <==> (seen.contains(x) || incoming.contains(
                x,
            )) by {
            lemma_contains_last(incoming, x);
        }
    }
}

/// A sequence holds its last item and what stands before it.
proof fn lemma_contains_last<T>(s: Seq<T>, x: T)
    requires
        s.len() > 0,
    ensures
        s.contains(x) <==> (s.drop_last().contains(x) || x == s.last()),
{
    let init = s.drop_last();
    if init.contains(x) {
        let i = choose|i: int| 0 <= i < init.len() && init[i] == x;
        assert(s[i] == x);
    }
    if s.contains(x) {
        let i = choose|i: int| 0 <= i < s.len() && s[i] == x;
        if i < s.len() - 1 {
            assert(init[i] == x);
        }
    }
}

/// The new annotations are those of `incoming` that `seen` does not hold.
pub proof fn lemma_fresh(seen: Seq<AnnotationView>, incoming: Seq<AnnotationView>)
    ensures
        forall|x: AnnotationView| #[trigger]
            fresh(seen, incoming).contains(x) <==> (incoming.contains(x) && !seen.contains(x)),
    decreases incoming.len(),
{
    if incoming.len() > 0 {
        let init = incoming.drop_last();
        lemma_fresh(seen, init);
        assert forall|x: AnnotationView| #[trigger]
            fresh(seen, incoming).contains(x) <==> (incoming.contains(x) && !seen.contains(x)) by {
            assert(fresh(seen, init).contains(x) <==> (init.contains(x) && !seen.contains(x)));
            lemma_contains_last(incoming, x);
            if !(seen.contains(incoming.last()) || init.contains(incoming.last())) {
                lemma_contains_last(fresh(seen, incoming), x);
                assert(fresh(seen, incoming).drop_last() == fresh(seen, init));
            }
        }
    }
}

/// A message with one annotation that is new puts out one command, that of the annotation,
/// and the annotation takes its place in the set.
pub proof fn lemma_one_new(seen: Seq<AnnotationView>, annotation: AnnotationView)
    requires
        !seen.contains(annotation),
    ensures
        fresh(seen, seq![annotation]) == seq![annotation],
        extended(seen, seq![annotation]) == inserted(seen, annotation),
        encodings(fresh(seen, seq![annotation])) == seq![annotation.encoded()],
{
    let one = seq![annotation];
    let none = Seq::<AnnotationView>::empty();
    assert(one.drop_last() == none);
    assert(fresh(seen, none) == none);
    assert(extended(seen, none) == seen);
}

/// The set grows by one annotation for each command that goes out.
pub proof fn lemma_fresh_count(seen: Seq<AnnotationView>, incoming: Seq<AnnotationView>)
    requires
        sorted(seen),
    ensures
        extended(seen, incoming).len() == seen.len() + fresh(seen, incoming).len(),
    decreases incoming.len(),
{
    if incoming.len() > 0 {
        let init = incoming.drop_last();
        lemma_fresh_count(seen, init);
        lemma_extended(seen, init);
        lemma_inserted(extended(seen, init), incoming.last());
    }
}

/// The set after a message does not depend on the order in which the annotations of the
/// message come, nor on how often one comes.
pub proof fn lemma_extended_any_order(
    seen: Seq<AnnotationView>,
    first: Seq<AnnotationView>,
    second: Seq<AnnotationView>,
)
    requires
        sorted(seen),
        forall|x: AnnotationView| first.contains(x) <==> second.contains(x),
    ensures
        extended(seen, first) == extended(seen, second),
{
    lemma_extended(seen, first);
    lemma_extended(seen, second);
    assert forall|x: AnnotationView|
        extended(seen, first).contains(x) <==> extended(seen, second).contains(x) by {
        assert(first.contains(x) <==> second.contains(x));
    }
    lemma_sorted_unique(extended(seen, first), extended(seen, second));
}

/// The most severe kind is at least `kind` and the kinds of `annotations`, and is one of
/// them.
pub proof fn lemma_worst(kind: AnnotationKind, annotations: Seq<AnnotationView>)
    ensures
        worst(kind, annotations).rank() >= kind.rank(),
        forall|i: int|
            0 <= i < annotations.len() ==> (#[trigger] annotations[i]).kind.rank() <= worst(
                kind,
                annotations,
            ).rank(),
        worst(kind, annotations) == kind || exists|i: int|
            0 <= i < annotations.len() && (#[trigger] annotations[i]).kind == worst(
                kind,
                annotations,
            ),
    decreases annotations.len(),
{
    if annotations.len() > 0 {
        let init = annotations.drop_last();
        lemma_worst(kind, init);
        let w = worst(kind, annotations);
        assert forall|i: int| 0 <= i < annotations.len() implies (
        #[trigger] annotations[i]).kind.rank() <= w.rank() by {
            if i < init.len() {
                assert(init[i] == annotations[i]);
            }
        }
        if w != kind {
            if w == worst(kind, init) {
                let i = choose|i: int| 0 <= i < init.len() && (#[trigger] init[i]).kind == w;
                assert(annotations[i].kind == w);
            } else {
                assert(annotations[annotations.len() - 1].kind == w);
            }
        }
    }
}

/// A run that is in order stays so over any message.
pub proof fn lemma_after_wf<W: SummaryWriter>(
    run: SessionView<W>,
    annotations: Seq<AnnotationView>,
    summaries: Seq<<W::Summary as View>::V>,
)
    requires
        run.wf(),
    ensures
        run.after(annotations, summaries).wf(),
{
    let next = run.after(annotations, summaries);
    let new = fresh(run.seen, annotations);
    lemma_extended(run.seen, annotations);
    lemma_fresh(run.seen, annotations);
    lemma_worst(run.max_kind, new);
    assert forall|i: int| 0 <= i < next.seen.len() implies (#[trigger] next.seen[i]).kind.rank()
        <= next.max_kind.rank() by {
        let x = next.seen[i];
        if run.seen.contains(x) {
            let j = choose|j: int| 0 <= j < run.seen.len() && run.seen[j] == x;
            assert(run.seen[j].kind.rank() <= run.max_kind.rank());
        } else {
            assert(new.contains(x));
            let j = choose|j: int| 0 <= j < new.len() && new[j] == x;
            assert(new[j].kind.rank() <= next.max_kind.rank());
        }
    }
    if next.max_kind != AnnotationKind::Notice {
        if next.max_kind == run.max_kind {
            let j = choose|j: int|
                0 <= j < run.seen.len() && (#[trigger] run.seen[j]).kind == run.max_kind;
            assert(run.seen.contains(run.seen[j]));
            let i = choose|i: int| 0 <= i < next.seen.len() && next.seen[i] == run.seen[j];
            assert(next.seen[i].kind == next.max_kind);
        } else {
            let j = choose|j: int| 0 <= j < new.len() && (#[trigger] new[j]).kind == next.max_kind;
            assert(new.contains(new[j]));
            let i = choose|i: int| 0 <= i < next.seen.len() && next.seen[i] == new[j];
            assert(next.seen[i].kind == next.max_kind);
        }
    }
}

/// Nothing is new the second time: where the annotations of a message are all seen, the
/// message puts out no command, and leaves the set, the report and its counters as they are.
pub proof fn lemma_nothing_new<W: SummaryWriter>(
    run: SessionView<W>,
    annotations: Seq<AnnotationView>,
    summaries: Seq<<W::Summary as View>::V>,
)
    requires
        sorted(run.seen),
        forall|i: int| 0 <= i < annotations.len() ==> run.seen.contains(#[trigger] annotations[i]),
    ensures
        fresh(run.seen, annotations) == Seq::<AnnotationView>::empty(),
        run.accepts(annotations, summaries),
        run.after(annotations, summaries) == run,
    decreases annotations.len(),
{
    if annotations.len() > 0 {
        let init = annotations.drop_last();
        assert forall|i: int| 0 <= i < init.len() implies run.seen.contains(#[trigger] init[i]) by {
            assert(init[i] == annotations[i]);
        }
        lemma_nothing_new(run, init, summaries);
    }
}

/// A message handled twice counts once: after a message, the same message again puts out
/// no command and changes nothing.
pub proof fn lemma_handled_twice<W: SummaryWriter>(
    run: SessionView<W>,
    annotations: Seq<AnnotationView>,
    summaries: Seq<<W::Summary as View>::V>,
)
    requires
        run.wf(),
    ensures
        fresh(run.after(annotations, summaries).seen, annotations) == Seq::<
            AnnotationView,
        >::empty(),
        run.after(annotations, summaries).accepts(annotations, summaries),
        run.after(annotations, summaries).after(annotations, summaries) == run.after(
            annotations,
            summaries,
        ),
{
    let next = run.after(annotations, summaries);
    lemma_extended(run.seen, annotations);
    assert forall|i: int| 0 <= i < annotations.len() implies next.seen.contains(
        #[trigger] annotations[i],
    ) by {
        assert(annotations.contains(annotations[i]));
    }
    lemma_nothing_new(next, annotations, summaries);
}

/// A message that is not complete is never taken in, whatever the run has seen: it ends in
/// the error that stops the run, and neither a command nor a summary comes of it.
pub proof fn lemma_incomplete_is_refused<W: SummaryWriter>(
    run: SessionView<W>,
    annotations: Seq<AnnotationView>,
    summaries: Seq<<W::Summary as View>::V>,
)
    ensures
        run.outcome(false, annotations, summaries) == Err::<
            (SessionView<W>, Seq<Seq<char>>),
            HandleError,
        >(HandleError::Incomplete),
{
}

/// Whether a run fails is read off the most severe kind seen.
pub proof fn lemma_fails<W: SummaryWriter>(run: SessionView<W>, allow_warnings: bool)
    requires
        run.wf(),
    ensures
        run.fails(allow_warnings) <==> run.max_kind.rank() >= threshold_kind(allow_warnings).rank(),
{
    if run.max_kind.rank() >= threshold_kind(allow_warnings).rank() {
        let i = choose|i: int|
            0 <= i < run.seen.len() && (#[trigger] run.seen[i]).kind == run.max_kind;
        assert(run.seen[i].kind.rank() >= threshold_kind(allow_warnings).rank());
    }
}

/// Some annotation of `incoming` is new exactly if `seen` does not hold all of them.
proof fn lemma_fresh_some(seen: Seq<AnnotationView>, incoming: Seq<AnnotationView>)
    ensures
        fresh(seen, incoming).len() > 0 <==> exists|i: int|
            0 <= i < incoming.len() && !seen.contains(#[trigger] incoming[i]),
{
    lemma_fresh(seen, incoming);
    let new = fresh(seen, incoming);
    if new.len() > 0 {
        assert(new.contains(new[0]));
        let i = choose|i: int| 0 <= i < incoming.len() && incoming[i] == new[0];
        assert(!seen.contains(incoming[i]));
    }
    if exists|i: int| 0 <= i < incoming.len() && !seen.contains(#[trigger] incoming[i]) {
        let i = choose|i: int| 0 <= i < incoming.len() && !seen.contains(#[trigger] incoming[i]);
        assert(new.contains(incoming[i]));
    }
}

/// One run over the messages of a build tool.
pub struct Session<W: SummaryWriter + Copy> {
    base_dir: String,
    seen: AnnotationSet,
    writer: W,
    content: String,
    max_kind: AnnotationKind,
}

impl<W: SummaryWriter + Copy> View for Session<W> {
    type V = SessionView<W>;

    closed spec fn view(&self) -> SessionView<W> {
        SessionView {
            base_dir: self.base_dir@,
            seen: self.seen@,
            writer: self.writer,
            content: self.content@,
            max_kind: self.max_kind,
        }
    }
}

impl<W: SummaryWriter + Copy> Session<W> {
    /// The invariant of a run.
    pub open spec fn wf(&self) -> bool {
        self@.wf()
    }

    /// A run that has seen nothing, with paths taken relative to `base_dir`.
    pub fn new(writer: W, base_dir: &str) -> (run: Session<W>)
        ensures
            run.wf(),
            run@ == (SessionView {
                base_dir: base_dir@,
                seen: Seq::empty(),
                writer,
                content: Seq::empty(),
                max_kind: AnnotationKind::Notice,
            }),
    {
        Session {
            base_dir: base_dir.to_owned(),
            seen: AnnotationSet::new(),
            writer,
            content: String::new(),
            max_kind: AnnotationKind::Notice,
        }
    }

    /// The annotations seen so far.
    pub fn seen(&self) -> (seen: &AnnotationSet)
        ensures
            seen@ == self@.seen,
    {
        &self.seen
    }

    /// The writer of the report, with its counters.
    pub fn writer(&self) -> (writer: &W)
        ensures
            *writer == self@.writer,
    {
        &self.writer
    }

    /// The rows of the report written so far.
    pub fn content(&self) -> (content: &str)
        ensures
            content@ == self@.content,
    {
        self.content.as_str()
    }

    /// The most severe kind among the annotations seen so far; a notice where there is none.
    pub fn max_kind(&self) -> (kind: AnnotationKind)
        ensures
            kind == self@.max_kind,
    {
        self.max_kind
    }

    /// Whether the run fails: whether an annotation seen is at least as severe as the
    /// threshold, which is a warning, or an error where warnings are allowed.
    pub fn fails(&self, allow_warnings: bool) -> (r: bool)
        requires
            self.wf(),
        ensures
            r == self@.fails(allow_warnings),
    {
        proof {
            lemma_fails(self@, allow_warnings);
        }
        self.max_kind >= threshold(allow_warnings)
    }

    /// The report: the preamble with the totals, the rows written so far, the postamble.
    pub fn report(&self) -> (report: String)
        ensures
            report@ == self@.report(),
    {
        let mut report = String::new();
        self.writer.write_preamble(&mut report);
        report.append(self.content.as_str());
        self.writer.write_postamble(&mut report);
        report
    }

    /// Whether `seen` does not hold all of `annotations`.
    fn any_new(&self, annotations: &Vec<Annotation>) -> (r: bool)
        requires
            self.wf(),
        ensures
            r == (fresh(self@.seen, views(annotations@)).len() > 0),
    {
        let ghost incoming = views(annotations@);
        let mut i: usize = 0;
        while i < annotations.len()
            invariant
                self.wf(),
                i <= annotations.len(),
                incoming == views(annotations@),
                forall|j: int| 0 <= j < i ==> self@.seen.contains(#[trigger] incoming[j]),
            decreases annotations.len() - i,
        {
            if !self.seen.contains(&annotations[i]) {
                proof {
                    assert(!self@.seen.contains(incoming[i as int]));
                    lemma_fresh_some(self@.seen, incoming);
                }
                return true;
            }
            i = i + 1;
        }
        proof {
            lemma_fresh_some(self@.seen, incoming);
        }
        false
    }

    /// Handles one message: turns it into annotations and summaries, puts the annotations
    /// into the set, and returns the commands of those that were new, in the order in which
    /// they came. If one was new, the summaries of the message are written.
    ///
    /// A message that is not complete is not handled, nor is one whose summaries the writer
    /// cannot count: the run is then as it was.
    pub fn handle<M: HandleMessage<Summary = W::Summary>>(&mut self, message: M) -> (r: Result<
        Vec<String>,
        HandleError,
    >)
        requires
            old(self).wf(),
        ensures
            final(self).wf(),
            old(self)@.outcome(
                message.complete(),
                message.annotations(old(self)@.base_dir),
                message.summaries(old(self)@.base_dir),
            ) == (match r {
                Ok(lines) => Ok((final(self)@, views(lines@))),
                Err(error) => Err(error),
            }),
            r is Err ==> final(self)@ == old(self)@,
    {
        if !message.is_complete() {
            return Err(HandleError::Incomplete);
        }
        let ghost before = self@;
        let ghost incoming = message.annotations(before.base_dir);
        let ghost sums = message.summaries(before.base_dir);
        let summaries = message.summarize(self.base_dir.as_str());
        let annotations = message.into_annotations(self.base_dir.as_str());
        let any_new = self.any_new(&annotations);
        let mut writer = self.writer;
        let mut rows_text = String::new();
        if any_new {
            let ghost mut done: Seq<<W::Summary as View>::V> = Seq::empty();
            for summary in it: summaries
                invariant
                    views(it.seq()) == sums,
                    views(it.history()) == done,
                    done == sums.take(it.index()),
                    room_for_all(before.writer, done),
                    writer == folded_all(before.writer, done),
                    rows_text@ == rows(before.writer, done),
                    *self == *old(self),
                    before == old(self)@,
                    old(self).wf(),
                    fresh(before.seen, incoming).len() > 0,
                    message.complete(),
                    incoming == message.annotations(before.base_dir),
                    sums == message.summaries(before.base_dir),
            {
                let ghost next = sums.take(it.index() + 1);
                proof {
                    lemma_views_push(it.history(), summary);
                    assert(next.drop_last() == done);
                }
                if !writer.can_write(&summary) {
                    proof {
                        if room_for_all(before.writer, sums) {
                            lemma_room_prefix::<W>(before.writer, sums, it.index() + 1);
                        }
                    }
                    return Err(HandleError::CounterOverflow);
                }
                writer.write_summary(summary, &mut rows_text);
                proof {
                    done = next;
                }
            }
            assert(done == sums);
        }
        let mut lines: Vec<String> = Vec::new();
        let mut max_kind = self.max_kind;
        let mut i: usize = 0;
        proof {
            lemma_views_empty::<String>();
        }
        while i < annotations.len()
            invariant
                i <= annotations.len(),
                incoming == views(annotations@),
                sorted(before.seen),
                self.seen.wf(),
                self.seen@ == extended(before.seen, incoming.take(i as int)),
                views(lines@) == encodings(fresh(before.seen, incoming.take(i as int))),
                max_kind == worst(before.max_kind, fresh(before.seen, incoming.take(i as int))),
                self.base_dir == old(self).base_dir,
                self.writer == old(self).writer,
                self.content == old(self).content,
            decreases annotations.len() - i,
        {
            let ghost prefix = incoming.take(i as int);
            let ghost next = incoming.take(i + 1);
            let ghost a = incoming[i as int];
            proof {
                assert(next.drop_last() == prefix);
                lemma_extended(before.seen, prefix);
            }
            if self.seen.insert(annotations[i].to_owned()) {
                let line = annotations[i].to_string();
                proof {
                    lemma_views_push(lines@, line);
                    assert(encodings(fresh(before.seen, next)) == encodings(
                        fresh(before.seen, prefix),
                    ).push(a.encoded()));
                    assert(fresh(before.seen, next).drop_last() == fresh(before.seen, prefix));
                }
                lines.push(line);
                max_kind = max_kind.worse(annotations[i].kind);
            }
            i = i + 1;
        }
        proof {
            assert(incoming.take(i as int) == incoming);
            lemma_after_wf(before, incoming, sums);
        }
        self.writer = writer;
        self.content.append(rows_text.as_str());
        self.max_kind = max_kind;
        Ok(lines)
    }
}

/// Where there is room for all summaries, there is room for the first `n` of them.
proof fn lemma_room_prefix<W: SummaryWriter>(
    writer: W,
    summaries: Seq<<W::Summary as View>::V>,
    n: int,
)
    requires
        0 <= n <= summaries.len(),
        room_for_all(writer, summaries),
    ensures
        room_for_all(writer, summaries.take(n)),
    decreases summaries.len(),
{
    if n < summaries.len() {
        lemma_room_prefix(writer, summaries.drop_last(), n);
        assert(summaries.drop_last().take(n) == summaries.take(n));
    } else {
        assert(summaries.take(n) == summaries);
    }
}

} // verus!
