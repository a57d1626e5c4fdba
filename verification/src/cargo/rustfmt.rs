//! Provides the structs to work with rustfmt's output

use super::{folded_all, room_for_all, HandleMessage, SummaryWriter};
use crate::github::{Annotation, AnnotationKind, AnnotationView};
use crate::text::{decimal, decimal_string, strip_leading, without_leading};
use crate::views::{lemma_views_empty, lemma_views_push, views};
use vstd::prelude::*;

verus! {

/// Reported errors contained in a single file
#[derive(Debug, Clone, PartialEq, Eq)]
pub struct FormatMismatch {
    /// The first line of the span in the current file (1-based, inclusive)
    pub original_begin_line: usize,
    /// The last line of the span in the current file (1-based, inclusive)
    pub original_end_line: usize,
    /// The first line of the span if the file was correct (1-based, inclusive)
    pub expected_begin_line: usize,
    /// The last line of the span if the file was correct (1-based, inclusive)
    pub expected_end_line: usize,
    /// The current code
    pub original: String,
    /// The corrected code
    pub expected: String,
}

/// What a mismatch holds.
pub struct FormatMismatchView {
    pub original_begin_line: nat,
    pub original_end_line: nat,
    pub expected_begin_line: nat,
    pub expected_end_line: nat,
    pub original: Seq<char>,
    pub expected: Seq<char>,
}

impl View for FormatMismatch {
    type V = FormatMismatchView;

    open spec fn view(&self) -> FormatMismatchView {
        FormatMismatchView {
            original_begin_line: self.original_begin_line as nat,
            original_end_line: self.original_end_line as nat,
            expected_begin_line: self.expected_begin_line as nat,
            expected_end_line: self.expected_end_line as nat,
            original: self.original@,
            expected: self.expected@,
        }
    }
}

impl FormatMismatchView {
    /// The invariant of a mismatch: lines count from 1 and do not run backwards.
    pub open spec fn wf(self) -> bool {
        1 <= self.original_begin_line <= self.original_end_line
    }
}

/// Message output by rustfmt
#[derive(Debug, Clone, PartialEq, Eq)]
pub struct FormatMismatches {
    /// The file where the mismatches are located
    pub name: String,
    /// Reported errors and their locations
    pub mismatches: Vec<FormatMismatch>,
}

/// What the mismatches of a file hold.
pub struct FormatMismatchesView {
    pub name: Seq<char>,
    pub mismatches: Seq<FormatMismatchView>,
}

impl View for FormatMismatches {
    type V = FormatMismatchesView;

    open spec fn view(&self) -> FormatMismatchesView {
        FormatMismatchesView { name: self.name@, mismatches: views(self.mismatches@) }
    }
}

/// `name` relative to `base_dir`: without any leading repetition of `base_dir`, then
/// without any leading separator.
pub open spec fn relative(name: Seq<char>, base_dir: Seq<char>) -> Seq<char> {
    without_leading(without_leading(name, base_dir), "/"@)
}

/// `name` relative to `base_dir`.
pub fn relative_path<'a>(name: &'a str, base_dir: &str) -> (r: &'a str)
    ensures
        r@ == relative(name@, base_dir@),
{
    strip_leading(strip_leading(name, base_dir), "/")
}

impl FormatMismatchesView {
    /// The annotation of one mismatch of the file `file`: a warning on the lines as they are
    /// now, under a fixed title, whose message is the code as it should be.
    pub open spec fn annotation(file: Seq<char>, mismatch: FormatMismatchView) -> AnnotationView {
        AnnotationView {
            kind: AnnotationKind::Warning,
            file,
            line: mismatch.original_begin_line,
            end_line: Some(mismatch.original_end_line),
            col: None,
            end_column: None,
            title: Some("Format mismatch"@),
            message: mismatch.expected,
        }
    }

    /// The annotations of the file: one for each mismatch, in order.
    pub open spec fn annotations(self, base_dir: Seq<char>) -> Seq<AnnotationView> {
        Seq::new(
            self.mismatches.len(),
            |i: int| Self::annotation(relative(self.name, base_dir), self.mismatches[i]),
        )
    }

    /// The summary of the record alone: the path of its file and the first line of each of
    /// its mismatches, in order.
    pub open spec fn summary(self, base_dir: Seq<char>) -> FormatMismatchesSummaryView {
        FormatMismatchesSummaryView {
            file: relative(self.name, base_dir),
            lines: Seq::new(
                self.mismatches.len(),
                |i: int| self.mismatches[i].original_begin_line,
            ),
        }
    }
}

/// The annotation of a mismatch obeys the invariant of the data model where the lines of
/// the mismatch are in order.
pub proof fn lemma_annotation_wf(file: Seq<char>, mismatch: FormatMismatchView)
    requires
        mismatch.wf(),
    ensures
        FormatMismatchesView::annotation(file, mismatch).wf(),
{
}

/// The annotations of `files`: those of each file, file after file.
pub open spec fn all_annotations(files: Seq<FormatMismatchesView>, base_dir: Seq<char>) -> Seq<
    AnnotationView,
>
    decreases files.len(),
{
    if files.len() == 0 {
        Seq::empty()
    } else {
        all_annotations(files.drop_last(), base_dir) + files.last().annotations(base_dir)
    }
}

/// The files that the records of `files` are of, each once, in the order in which they
/// first come.
pub open spec fn files_named(files: Seq<FormatMismatchesView>, base_dir: Seq<char>) -> Seq<
    Seq<char>,
>
    decreases files.len(),
{
    if files.len() == 0 {
        Seq::empty()
    } else {
        let before = files_named(files.drop_last(), base_dir);
        let file = relative(files.last().name, base_dir);
        if before.contains(file) {
            before
        } else {
            before.push(file)
        }
    }
}

/// The first lines of the mismatches that the records of `files` hold for the file `file`:
/// record after record, and in each record mismatch after mismatch.
pub open spec fn lines_of(
    files: Seq<FormatMismatchesView>,
    base_dir: Seq<char>,
    file: Seq<char>,
) -> Seq<nat>
    decreases files.len(),
{
    if files.len() == 0 {
        Seq::empty()
    } else if relative(files.last().name, base_dir) == file {
        lines_of(files.drop_last(), base_dir, file) + files.last().summary(base_dir).lines
    } else {
        lines_of(files.drop_last(), base_dir, file)
    }
}

/// The summaries of `files`: one for each file that a record is of, in the order in which
/// the files first come; it holds the first lines of all mismatches of the records of that
/// file.
pub open spec fn all_summaries(files: Seq<FormatMismatchesView>, base_dir: Seq<char>) -> Seq<
    FormatMismatchesSummaryView,
> {
    let named = files_named(files, base_dir);
    Seq::new(
        named.len(),
        |i: int|
            FormatMismatchesSummaryView {
                file: named[i],
                lines: lines_of(files, base_dir, named[i]),
            },
    )
}

/// No file is named twice.
pub proof fn lemma_files_named_once(files: Seq<FormatMismatchesView>, base_dir: Seq<char>)
    ensures
        forall|i: int, j: int|
            0 <= i < j < files_named(files, base_dir).len() ==> files_named(files, base_dir)[i]
                != files_named(files, base_dir)[j],
    decreases files.len(),
{
    if files.len() > 0 {
        let before = files_named(files.drop_last(), base_dir);
        let file = relative(files.last().name, base_dir);
        lemma_files_named_once(files.drop_last(), base_dir);
        if !before.contains(file) {
            let named = before.push(file);
            assert forall|i: int, j: int| 0 <= i < j < named.len() implies named[i] != named[j] by {
                if j == before.len() {
                    assert(before.contains(before[i]));
                } else {
                    assert(named[i] == before[i] && named[j] == before[j]);
                }
            }
        }
    }
}

/// The files named are the files of the records.
pub proof fn lemma_files_named(files: Seq<FormatMismatchesView>, base_dir: Seq<char>)
    ensures
        forall|file: Seq<char>| #[trigger]
            files_named(files, base_dir).contains(file) <==> exists|k: int|
                0 <= k < files.len() && relative(#[trigger] files[k].name, base_dir) == file,
    decreases files.len(),
{
    if files.len() > 0 {
        let init = files.drop_last();
        let before = files_named(init, base_dir);
        let last = relative(files.last().name, base_dir);
        let named = files_named(files, base_dir);
        lemma_files_named(init, base_dir);
        assert forall|file: Seq<char>| #[trigger]
            named.contains(file) <==> exists|k: int|
                0 <= k < files.len() && relative(#[trigger] files[k].name, base_dir) == file by {
            if named.contains(file) {
                let i = choose|i: int| 0 <= i < named.len() && named[i] == file;
                if i < before.len() {
                    assert(before[i] == file);
                    assert(before.contains(file));
                    let k = choose|k: int|
                        0 <= k < init.len() && relative(#[trigger] init[k].name, base_dir) == file;
                    assert(relative(files[k].name, base_dir) == file);
                } else {
                    assert(file == last);
                    assert(relative(files[files.len() - 1].name, base_dir) == file);
                }
            }
            if exists|k: int|
                0 <= k < files.len() && relative(#[trigger] files[k].name, base_dir) == file {
                let k = choose|k: int|
                    0 <= k < files.len() && relative(#[trigger] files[k].name, base_dir) == file;
                if k < init.len() {
                    assert(relative(init[k].name, base_dir) == file);
                    assert(before.contains(file));
                    let i = choose|i: int| 0 <= i < before.len() && before[i] == file;
                    assert(named[i] == file);
                } else if before.contains(last) {
                    assert(named.contains(file));
                } else {
                    assert(named[before.len() as int] == file);
                }
            }
        }
    }
}

/// No lines are held for a file that is not named.
pub proof fn lemma_lines_of_unnamed(
    files: Seq<FormatMismatchesView>,
    base_dir: Seq<char>,
    file: Seq<char>,
)
    requires
        !files_named(files, base_dir).contains(file),
    ensures
        lines_of(files, base_dir, file) == Seq::<nat>::empty(),
    decreases files.len(),
{
    if files.len() > 0 {
        let before = files_named(files.drop_last(), base_dir);
        let last = relative(files.last().name, base_dir);
        if before.contains(file) {
            let i = choose|i: int| 0 <= i < before.len() && before[i] == file;
            assert(files_named(files, base_dir)[i] == file);
        }
        if last == file {
            if !before.contains(last) {
                assert(files_named(files, base_dir)[before.len() as int] == file);
            }
        }
        lemma_lines_of_unnamed(files.drop_last(), base_dir, file);
    }
}

/// `summary` with the lines of `item` at its end, where the two are of one file; else
/// `summary` as it is.
pub open spec fn grown(
    summary: FormatMismatchesSummaryView,
    item: FormatMismatchesSummaryView,
) -> FormatMismatchesSummaryView {
    if summary.file == item.file {
        FormatMismatchesSummaryView { file: summary.file, lines: summary.lines + item.lines }
    } else {
        summary
    }
}

/// Whether one of `summaries` is of the file `file`.
pub open spec fn has_file(summaries: Seq<FormatMismatchesSummaryView>, file: Seq<char>) -> bool {
    exists|j: int| 0 <= j < summaries.len() && (#[trigger] summaries[j]).file == file
}

/// `summaries` with `item` taken in: its lines go to the end of the summary of its file,
/// where the file has one; else `item` comes last.
pub open spec fn merged(
    summaries: Seq<FormatMismatchesSummaryView>,
    item: FormatMismatchesSummaryView,
) -> Seq<FormatMismatchesSummaryView> {
    let each = Seq::new(summaries.len(), |j: int| grown(summaries[j], item));
    if has_file(summaries, item.file) {
        each
    } else {
        each.push(item)
    }
}

/// The summaries of the records and one more are the summaries of the records with the
/// summary of that one taken in.
pub proof fn lemma_summaries_with(
    files: Seq<FormatMismatchesView>,
    base_dir: Seq<char>,
    record: FormatMismatchesView,
)
    ensures
        all_summaries(files.push(record), base_dir) == merged(
            all_summaries(files, base_dir),
            record.summary(base_dir),
        ),
{
    let more = files.push(record);
    let before = all_summaries(files, base_dir);
    let item = record.summary(base_dir);
    let after = all_summaries(more, base_dir);
    let names = files_named(files, base_dir);
    assert(more.drop_last() == files);
    assert(more.last() == record);
    if names.contains(item.file) {
        let j = choose|j: int| 0 <= j < names.len() && names[j] == item.file;
        assert(before[j].file == item.file);
        assert(has_file(before, item.file));
    } else {
        lemma_lines_of_unnamed(files, base_dir, item.file);
        assert(Seq::<nat>::empty() + item.lines == item.lines);
        assert(after[before.len() as int] == item);
        if has_file(before, item.file) {
            let j = choose|j: int|
                0 <= j < before.len() && (#[trigger] before[j]).file == item.file;
            assert(names[j] == item.file);
        }
    }
    assert forall|j: int| 0 <= j < before.len() implies after[j] == grown(before[j], item) by {
        assert(files_named(more, base_dir)[j] == names[j]);
        assert(lines_of(more, base_dir, names[j]) == if names[j] == item.file {
            lines_of(files, base_dir, names[j]) + item.lines
        } else {
            lines_of(files, base_dir, names[j])
        });
    }
    assert(after =~= merged(before, item));
}

/// Among the summaries of records only one is of the file of `item`: taking `item` in
/// changes that one alone.
pub proof fn lemma_merged_at(
    files: Seq<FormatMismatchesView>,
    base_dir: Seq<char>,
    item: FormatMismatchesSummaryView,
    at: int,
)
    requires
        0 <= at < all_summaries(files, base_dir).len(),
        all_summaries(files, base_dir)[at].file == item.file,
    ensures
        merged(all_summaries(files, base_dir), item) == all_summaries(files, base_dir).update(
            at,
            grown(all_summaries(files, base_dir)[at], item),
        ),
{
    let before = all_summaries(files, base_dir);
    let names = files_named(files, base_dir);
    lemma_files_named_once(files, base_dir);
    assert(has_file(before, item.file));
    assert forall|j: int| 0 <= j < before.len() && j != at implies grown(before[j], item)
        == before[j] by {
        assert(names[j] == before[j].file);
        assert(names[at] == before[at].file);
    }
    assert(merged(before, item) =~= before.update(at, grown(before[at], item)));
}

/// The number of lines that `summaries` hold, all together.
pub open spec fn total_lines(summaries: Seq<FormatMismatchesSummaryView>) -> nat
    decreases summaries.len(),
{
    if summaries.len() == 0 {
        0
    } else {
        total_lines(summaries.drop_last()) + summaries.last().lines.len()
    }
}

/// Lines added to one summary add as many to the total.
proof fn lemma_total_lines_grown(
    summaries: Seq<FormatMismatchesSummaryView>,
    at: int,
    item: FormatMismatchesSummaryView,
)
    requires
        0 <= at < summaries.len(),
        summaries[at].file == item.file,
    ensures
        total_lines(summaries.update(at, grown(summaries[at], item))) == total_lines(summaries)
            + item.lines.len(),
    decreases summaries.len(),
{
    let after = summaries.update(at, grown(summaries[at], item));
    if at == summaries.len() - 1 {
        assert(after.drop_last() =~= summaries.drop_last());
        assert(after.last() == grown(summaries[at], item));
    } else {
        lemma_total_lines_grown(summaries.drop_last(), at, item);
        assert(after.drop_last() =~= summaries.drop_last().update(
            at,
            grown(summaries[at], item),
        ));
        assert(after.last() == summaries.last());
    }
}

/// Grouping loses no line: the summaries hold as many lines as there are mismatches, which
/// is the number of the annotations.
pub proof fn lemma_total_lines(files: Seq<FormatMismatchesView>, base_dir: Seq<char>)
    ensures
        total_lines(all_summaries(files, base_dir)) == all_annotations(files, base_dir).len(),
    decreases files.len(),
{
    if files.len() > 0 {
        let init = files.drop_last();
        let record = files.last();
        let before = all_summaries(init, base_dir);
        let item = record.summary(base_dir);
        assert(files =~= init.push(record));
        lemma_total_lines(init, base_dir);
        lemma_summaries_with(init, base_dir, record);
        assert(all_annotations(files, base_dir).len() == all_annotations(init, base_dir).len()
            + item.lines.len());
        if has_file(before, item.file) {
            let at = choose|at: int|
                0 <= at < before.len() && (#[trigger] before[at]).file == item.file;
            lemma_merged_at(init, base_dir, item, at);
            lemma_total_lines_grown(before, at, item);
        } else {
            let each = Seq::new(before.len(), |j: int| grown(before[j], item));
            assert(each =~= before);
            assert(before.push(item).drop_last() =~= before);
        }
    }
}

/// The writer counts the lines of the summaries that it writes.
pub proof fn lemma_lines_counted(
    writer: FormatMismatchSummaryWriter,
    summaries: Seq<FormatMismatchesSummaryView>,
)
    requires
        room_for_all(writer, summaries),
    ensures
        folded_all(writer, summaries).count == writer.count + total_lines(summaries),
    decreases summaries.len(),
{
    if summaries.len() > 0 {
        lemma_lines_counted(writer, summaries.drop_last());
    }
}

impl FormatMismatches {
    /// Converts the mismatches of this file into a list of [`Annotation`]
    pub fn into_annotations(&self, base_dir: &str) -> (r: Vec<Annotation>)
        ensures
            views(r@) == self@.annotations(base_dir@),
    {
        let file = relative_path(self.name.as_str(), base_dir);
        let mut r: Vec<Annotation> = Vec::new();
        let mut i: usize = 0;
        while i < self.mismatches.len()
            invariant
                i <= self.mismatches.len(),
                file@ == relative(self.name@, base_dir@),
                views(r@) =~= self@.annotations(base_dir@).take(i as int),
            decreases self.mismatches.len() - i,
        {
            let mismatch = &self.mismatches[i];
            let annotation = Annotation {
                kind: AnnotationKind::Warning,
                file: file.to_owned(),
                line: mismatch.original_begin_line,
                end_line: Some(mismatch.original_end_line),
                col: None,
                end_column: None,
                title: Some("Format mismatch".to_owned()),
                message: mismatch.expected.clone(),
            };
            proof {
                lemma_views_push(r@, annotation);
            }
            r.push(annotation);
            i = i + 1;
        }
        r
    }
}

impl HandleMessage for Vec<FormatMismatches> {
    type Summary = FormatMismatchesSummary;

    open spec fn complete(&self) -> bool {
        true
    }

    open spec fn annotations(&self, base_dir: Seq<char>) -> Seq<AnnotationView> {
        all_annotations(views(self@), base_dir)
    }

    open spec fn summaries(&self, base_dir: Seq<char>) -> Seq<FormatMismatchesSummaryView> {
        all_summaries(views(self@), base_dir)
    }

    fn is_complete(&self) -> (r: bool) {
        true
    }

    fn into_annotations(self, base_dir: &str) -> (r: Vec<Annotation>) {
        let ghost files = views(self@);
        let mut r: Vec<Annotation> = Vec::new();
        let mut i: usize = 0;
        proof {
            lemma_views_empty::<Annotation>();
        }
        while i < self.len()
            invariant
                i <= self.len(),
                files == views(self@),
                views(r@) == all_annotations(files.take(i as int), base_dir@),
            decreases self.len() - i,
        {
            let mut more = self[i].into_annotations(base_dir);
            proof {
                assert(files.take(i + 1).drop_last() =~= files.take(i as int));
            }
            r.append(&mut more);
            i = i + 1;
        }
        assert(files.take(i as int) =~= files);
        r
    }

    fn summarize(&self, base_dir: &str) -> (r: Vec<FormatMismatchesSummary>) {
        let ghost files = views(self@);
        let mut r: Vec<FormatMismatchesSummary> = Vec::new();
        let mut i: usize = 0;
        proof {
            assert(files.take(0) =~= Seq::empty());
            assert(views(r@) =~= all_summaries(files.take(0), base_dir@));
        }
        while i < self.len()
            invariant
                i <= self.len(),
                files == views(self@),
                views(r@) == all_summaries(files.take(i as int), base_dir@),
            decreases self.len() - i,
        {
            let mut summary = FormatMismatchesSummary::from(&self[i], base_dir);
            let at = summary_of(&r, &summary.file);
            let ghost before = views(r@);
            let ghost item = summary@;
            proof {
                assert(files.take(i + 1) =~= files.take(i as int).push(files[i as int]));
                assert(item == files[i as int].summary(base_dir@));
                lemma_summaries_with(files.take(i as int), base_dir@, files[i as int]);
            }
            if at < r.len() {
                proof {
                    lemma_numbers_concat(r[at as int].lines@, summary.lines@);
                    lemma_merged_at(files.take(i as int), base_dir@, item, at as int);
                }
                r[at].lines.append(&mut summary.lines);
                assert(views(r@) =~= before.update(at as int, grown(before[at as int], item)));
            } else {
                proof {
                    lemma_views_push(r@, summary);
                    assert forall|j: int| 0 <= j < before.len() implies (#[trigger] before[j]).file
                        != item.file by {
                        assert(r[j].file@ != summary.file@);
                    }
                    assert(Seq::new(before.len(), |j: int| grown(before[j], item)) =~= before);
                }
                r.push(summary);
            }
            i = i + 1;
        }
        assert(files.take(i as int) =~= files);
        r
    }
}

/// The place of the summary of the file `file` among `summaries`: that of the first, or
/// their number where the file has none.
fn summary_of(summaries: &Vec<FormatMismatchesSummary>, file: &String) -> (at: usize)
    ensures
        at <= summaries.len(),
        forall|j: int| 0 <= j < at ==> (#[trigger] summaries[j]).file@ != file@,
        at < summaries.len() ==> summaries[at as int].file@ == file@,
{
    let mut at: usize = 0;
    while at < summaries.len() && !(summaries[at].file == *file)
        invariant
            at <= summaries.len(),
            forall|j: int| 0 <= j < at ==> (#[trigger] summaries[j]).file@ != file@,
        decreases summaries.len() - at,
    {
        at = at + 1;
    }
    at
}

/// The numbers of two lists of lines put together are those of the one, then of the other.
proof fn lemma_numbers_concat(a: Seq<usize>, b: Seq<usize>)
    ensures
        numbers(a + b) == numbers(a) + numbers(b),
{
    assert(numbers(a + b) =~= numbers(a) + numbers(b));
}

/// Summary info for the [`FormatMismatches`] of one file
#[derive(Debug, Clone, PartialEq, Eq)]
pub struct FormatMismatchesSummary {
    /// [`FormatMismatches.name`](FormatMismatches#structfield.name)
    pub file: String,
    /// Collection of
    /// [`FormatMismatch.original_begin_line`](FormatMismatch#structfield.original_begin_line)
    pub lines: Vec<usize>,
}

/// What the summary of a file holds.
pub struct FormatMismatchesSummaryView {
    pub file: Seq<char>,
    pub lines: Seq<nat>,
}

/// The numbers that `lines` holds.
pub open spec fn numbers(lines: Seq<usize>) -> Seq<nat> {
    Seq::new(lines.len(), |i: int| lines[i] as nat)
}

impl View for FormatMismatchesSummary {
    type V = FormatMismatchesSummaryView;

    open spec fn view(&self) -> FormatMismatchesSummaryView {
        FormatMismatchesSummaryView { file: self.file@, lines: numbers(self.lines@) }
    }
}

impl FormatMismatchesSummary {
    /// The summary of one record alone, the path of its file taken relative to `base_dir`.
    pub fn from(message: &FormatMismatches, base_dir: &str) -> (summary: FormatMismatchesSummary)
        ensures
            summary@ == message@.summary(base_dir@),
    {
        let file = relative_path(message.name.as_str(), base_dir).to_owned();
        let ghost expected = message@.summary(base_dir@).lines;
        let mut lines: Vec<usize> = Vec::new();
        let mut i: usize = 0;
        while i < message.mismatches.len()
            invariant
                i <= message.mismatches.len(),
                expected == message@.summary(base_dir@).lines,
                lines.len() == i,
                forall|j: int| 0 <= j < i ==> lines[j] as nat == expected[j],
            decreases message.mismatches.len() - i,
        {
            lines.push(message.mismatches[i].original_begin_line);
            i = i + 1;
        }
        assert(numbers(lines@) =~= expected);
        FormatMismatchesSummary { file, lines }
    }
}

/// The lines of a summary as the report shows them, one row each.
pub open spec fn line_rows(lines: Seq<nat>) -> Seq<char>
    decreases lines.len(),
{
    if lines.len() == 0 {
        Seq::empty()
    } else {
        line_rows(lines.drop_last()) + ("  - L"@ + decimal(lines.last()) + "\n"@)
    }
}

/// [`SummaryWriter`] for [`FormatMismatchesSummary`]
#[derive(Debug, Clone, Copy, PartialEq, Eq)]
pub struct FormatMismatchSummaryWriter {
    /// Counter of mismatches
    pub count: usize,
}

impl Default for FormatMismatchSummaryWriter {
    fn default() -> (writer: FormatMismatchSummaryWriter)
        ensures
            writer.count == 0,
    {
        FormatMismatchSummaryWriter { count: 0 }
    }
}

impl SummaryWriter for FormatMismatchSummaryWriter {
    type Summary = FormatMismatchesSummary;

    open spec fn has_room(&self, summary: FormatMismatchesSummaryView) -> bool {
        self.count + summary.lines.len() <= usize::MAX
    }

    /// The file as a heading, then its lines.
    open spec fn row(&self, summary: FormatMismatchesSummaryView) -> Seq<char> {
        "- `"@ + summary.file + "`\n"@ + line_rows(summary.lines)
    }

    /// The counter goes up by the number of the file's mismatches.
    open spec fn folded(&self, summary: FormatMismatchesSummaryView) -> Self {
        FormatMismatchSummaryWriter { count: (self.count + summary.lines.len()) as usize }
    }

    /// The total of the mismatches.
    open spec fn preamble(&self) -> Seq<char> {
        "> **TOTAL:** "@ + decimal(self.count as nat) + " mismatches\n\n"@
    }

    open spec fn postamble(&self) -> Seq<char> {
        Seq::empty()
    }

    fn can_write(&self, summary: &FormatMismatchesSummary) -> (r: bool) {
        summary.lines.len() <= usize::MAX - self.count
    }

    fn write_summary(&mut self, summary: FormatMismatchesSummary, content: &mut String) {
        self.count = self.count + summary.lines.len();
        let mut rows = String::new();
        let mut i: usize = 0;
        while i < summary.lines.len()
            invariant
                i <= summary.lines.len(),
                rows@ == line_rows(summary@.lines.take(i as int)),
            decreases summary.lines.len() - i,
        {
            let mut row = String::new();
            row.append("  - L");
            row.append(decimal_string(summary.lines[i]).as_str());
            row.append("\n");
            proof {
                assert(summary@.lines.take(i + 1).drop_last() =~= summary@.lines.take(i as int));
            }
            rows.append(row.as_str());
            i = i + 1;
        }
        assert(summary@.lines.take(i as int) =~= summary@.lines);
        let mut row = String::new();
        row.append("- `");
        row.append(summary.file.as_str());
        row.append("`\n");
        row.append(rows.as_str());
        content.append(row.as_str());
    }

    fn write_preamble(&self, file: &mut String) {
        let mut text = String::new();
        text.append("> **TOTAL:** ");
        text.append(decimal_string(self.count).as_str());
        text.append(" mismatches\n\n");
        file.append(text.as_str());
    }

    fn write_postamble(self, file: &mut String) {
    }
}

} // verus!
