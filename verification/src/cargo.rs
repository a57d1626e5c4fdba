//! The messages of the build tools, and what is common to them: each kind of message turns
//! into annotations and summaries, and each kind of summary has its writer.

use crate::github::{Annotation, AnnotationView};
use crate::views::views;
use vstd::prelude::*;

pub mod rustc;
pub mod rustfmt;

verus! {

/// A message of a build tool: it gives annotations, and summaries for the report.
pub trait HandleMessage: Sized {
    /// Type used to store summary data
    type Summary: View;

    /// Whether the message holds what its annotations are made of.
    spec fn complete(&self) -> bool;

    /// The annotations of the message, paths taken relative to `base_dir`.
    spec fn annotations(&self, base_dir: Seq<char>) -> Seq<AnnotationView>;

    /// The summaries of the message, paths taken relative to `base_dir`.
    spec fn summaries(&self, base_dir: Seq<char>) -> Seq<<Self::Summary as View>::V>;

    /// Tests whether the message holds what its annotations are made of.
    fn is_complete(&self) -> (r: bool)
        ensures
            r == self.complete(),
    ;

    /// Converts `self` into a list of [`Annotation`]
    fn into_annotations(self, base_dir: &str) -> (r: Vec<Annotation>)
        requires
            self.complete(),
        ensures
            views(r@) == self.annotations(base_dir@),
    ;

    /// Extracts summaries
    fn summarize(&self, base_dir: &str) -> (r: Vec<Self::Summary>)
        ensures
            views(r@) == self.summaries(base_dir@),
    ;
}

/// Enables types to be written as job summaries
pub trait SummaryWriter: Sized {
    /// Type used to store summary data
    type Summary: View;

    /// Whether the writer's counters can take `summary` in.
    spec fn has_room(&self, summary: <Self::Summary as View>::V) -> bool;

    /// The text that the writer gives for `summary`.
    spec fn row(&self, summary: <Self::Summary as View>::V) -> Seq<char>;

    /// The writer once it has counted `summary`.
    spec fn folded(&self, summary: <Self::Summary as View>::V) -> Self;

    /// The text that opens the report: it holds the totals, so it is fixed only when all
    /// summaries are written.
    spec fn preamble(&self) -> Seq<char>;

    /// The text that closes the report.
    spec fn postamble(&self) -> Seq<char>;

    /// Tests whether the writer's counters can take `summary` in.
    fn can_write(&self, summary: &Self::Summary) -> (r: bool)
        ensures
            r == self.has_room(summary@),
    ;

    /// Writes the given `summary`
    fn write_summary(&mut self, summary: Self::Summary, content: &mut String)
        requires
            old(self).has_room(summary@),
        ensures
            *final(self) == old(self).folded(summary@),
            final(content)@ == old(content)@ + old(self).row(summary@),
    ;

    /// Writes the preamble
    ///
    /// This function is meant to be called after all calls to
    /// [`write_summary`](Self::write_summary).
    fn write_preamble(&self, file: &mut String)
        ensures
            final(file)@ == old(file)@ + self.preamble(),
    ;

    /// Writes the "postamble"
    ///
    /// This function is meant to be called after all calls to
    /// [`write_summary`](Self::write_summary).
    fn write_postamble(self, file: &mut String)
        ensures
            final(file)@ == old(file)@ + self.postamble(),
    ;
}

impl SummaryWriter for () {
    type Summary = ();

    open spec fn has_room(&self, summary: ()) -> bool {
        true
    }

    open spec fn row(&self, summary: ()) -> Seq<char> {
        Seq::empty()
    }

    open spec fn folded(&self, summary: ()) -> Self {
        ()
    }

    open spec fn preamble(&self) -> Seq<char> {
        Seq::empty()
    }

    open spec fn postamble(&self) -> Seq<char> {
        Seq::empty()
    }

    fn can_write(&self, summary: &()) -> (r: bool) {
        true
    }

    fn write_summary(&mut self, summary: (), content: &mut String) {
    }

    fn write_preamble(&self, file: &mut String) {
    }

    fn write_postamble(self, file: &mut String) {
    }
}

/// `writer` once it has counted `summaries`, one after another.
pub open spec fn folded_all<W: SummaryWriter>(
    writer: W,
    summaries: Seq<<W::Summary as View>::V>,
) -> W
    decreases summaries.len(),
{
    if summaries.len() == 0 {
        writer
    } else {
        folded_all(writer, summaries.drop_last()).folded(summaries.last())
    }
}

/// The text that `writer` gives for `summaries`, one after another.
pub open spec fn rows<W: SummaryWriter>(writer: W, summaries: Seq<<W::Summary as View>::V>) -> Seq<
    char,
>
    decreases summaries.len(),
{
    if summaries.len() == 0 {
        Seq::empty()
    } else {
        rows(writer, summaries.drop_last()) + folded_all(writer, summaries.drop_last()).row(
            summaries.last(),
        )
    }
}

/// Whether the counters of `writer` can take `summaries` in, one after another.
pub open spec fn room_for_all<W: SummaryWriter>(
    writer: W,
    summaries: Seq<<W::Summary as View>::V>,
) -> bool
    decreases summaries.len(),
{
    summaries.len() == 0 || (room_for_all(writer, summaries.drop_last()) && folded_all(
        writer,
        summaries.drop_last(),
    ).has_room(summaries.last()))
}

} // verus!
