use ghannotate::cargo::rustc::{
    Diagnostic, DiagnosticLevel, DiagnosticSpan, DiagnosticSummaryWriter,
};
use ghannotate::cargo::rustfmt::{FormatMismatch, FormatMismatchSummaryWriter, FormatMismatches};
use ghannotate::github::AnnotationKind;
use ghannotate::session::{threshold, HandleError, Session};

fn diagnostic(level: DiagnosticLevel, message: &str, file: &str, line: usize) -> Diagnostic {
    Diagnostic {
        message: message.to_owned(),
        level,
        spans: vec![DiagnosticSpan {
            file_name: file.to_owned(),
            line_start: line,
            line_end: line,
            column_start: 1,
            column_end: 5,
            is_primary: true,
        }],
        rendered: None,
    }
}

fn mismatch(begin: usize, end: usize, expected: &str) -> FormatMismatch {
    FormatMismatch {
        original_begin_line: begin,
        original_end_line: end,
        expected_begin_line: begin,
        expected_end_line: end,
        original: String::new(),
        expected: expected.to_owned(),
    }
}

#[test]
fn threshold_is_a_warning_unless_warnings_are_allowed() {
    assert_eq!(threshold(false), AnnotationKind::Warning);
    assert_eq!(threshold(true), AnnotationKind::Error);
}

#[test]
fn new_session_has_seen_nothing() {
    let run = Session::new(DiagnosticSummaryWriter::default(), "/work");
    assert_eq!(run.seen().len(), 0);
    assert_eq!(run.content(), "");
    assert_eq!(run.max_kind(), AnnotationKind::Notice);
    assert_eq!(run.writer(), &DiagnosticSummaryWriter::default());
    assert!(!run.fails(false));
    assert!(!run.fails(true));
    assert_eq!(
        run.report(),
        "> **TOTAL:** 0 \u{274c} Errors, 0 \u{26a0}\u{fe0f} Warnings, 0 \u{2139}\u{fe0f} Notices\n\n|Level|Message|Location|\n|:--|:--|--:|\n"
    );
}

#[test]
fn scenario_unused_variable() {
    let mut run = Session::new(DiagnosticSummaryWriter::default(), "");
    let lines = run.handle(diagnostic(DiagnosticLevel::Warning, "unused variable", "src/a.rs", 3));
    assert_eq!(
        lines,
        Ok(vec!["::warning file=src/a.rs,line=3,endLine=3,col=1,endColumn=5::unused variable".to_owned()])
    );
    assert_eq!(run.content(), "|⚠️ Warning|unused variable|`src/a.rs:3`|\n");
    assert_eq!(run.max_kind(), AnnotationKind::Warning);
    assert_eq!(run.writer().count(AnnotationKind::Warning), 1);
    assert_eq!(
        run.report(),
        "> **TOTAL:** 0 \u{274c} Errors, 1 ⚠️ Warnings, 0 \u{2139}\u{fe0f} Notices\n\n|Level|Message|Location|\n|:--|:--|--:|\n|⚠️ Warning|unused variable|`src/a.rs:3`|\n"
    );
}

#[test]
fn same_diagnostic_twice_counts_once() {
    let mut run = Session::new(DiagnosticSummaryWriter::default(), "");
    let first = run.handle(diagnostic(DiagnosticLevel::Error, "mismatched types", "src/a.rs", 3));
    assert_eq!(first.map(|lines| lines.len()), Ok(1));
    let content = run.content().to_owned();
    let second = run.handle(diagnostic(DiagnosticLevel::Error, "mismatched types", "src/a.rs", 3));
    assert_eq!(second, Ok(vec![]));
    assert_eq!(run.content(), content);
    assert_eq!(run.seen().len(), 1);
    assert_eq!(run.writer().count(AnnotationKind::Error), 1);
    assert_eq!(run.content(), "|\u{274c} Error|mismatched types|`src/a.rs:3`|\n");
}

#[test]
fn same_mismatches_twice_count_once() {
    let files = vec![FormatMismatches {
        name: "/work/src/a.rs".to_owned(),
        mismatches: vec![mismatch(1, 2, "x"), mismatch(5, 5, "y")],
    }];
    let mut run = Session::new(FormatMismatchSummaryWriter::default(), "/work");
    let first = run.handle(files.clone());
    assert_eq!(
        first,
        Ok(vec![
            "::warning file=src/a.rs,line=1,endLine=2,title=Format mismatch::x".to_owned(),
            "::warning file=src/a.rs,line=5,endLine=5,title=Format mismatch::y".to_owned(),
        ])
    );
    let second = run.handle(files);
    assert_eq!(second, Ok(vec![]));
    assert_eq!(run.writer().count, 2);
    assert_eq!(run.content(), "- `src/a.rs`\n  - L1\n  - L5\n");
    assert_eq!(run.report(), "> **TOTAL:** 2 mismatches\n\n- `src/a.rs`\n  - L1\n  - L5\n");
}

#[test]
fn scenario_overlapping_mismatches() {
    let files = vec![
        FormatMismatches { name: "/work/src/a.rs".to_owned(), mismatches: vec![mismatch(4, 8, "x")] },
        FormatMismatches { name: "/work/src/a.rs".to_owned(), mismatches: vec![mismatch(6, 9, "y")] },
    ];
    let mut run = Session::new(FormatMismatchSummaryWriter::default(), "/work");
    let lines = run.handle(files);
    assert_eq!(
        lines,
        Ok(vec![
            "::warning file=src/a.rs,line=4,endLine=8,title=Format mismatch::x".to_owned(),
            "::warning file=src/a.rs,line=6,endLine=9,title=Format mismatch::y".to_owned(),
        ])
    );
    let seen = run.seen().items();
    assert_eq!(seen.len(), 2);
    assert_ne!(seen[0], seen[1]);
    for annotation in seen {
        assert_eq!(annotation.kind, AnnotationKind::Warning);
        assert_eq!(annotation.title.as_deref(), Some("Format mismatch"));
        assert_eq!(annotation.file, "src/a.rs");
    }
    assert_eq!(run.content(), "- `src/a.rs`\n  - L4\n  - L6\n");
    assert_eq!(run.writer().count, 2);
    assert_eq!(run.report(), "> **TOTAL:** 2 mismatches\n\n- `src/a.rs`\n  - L4\n  - L6\n");
}

#[test]
fn scenario_overlapping_mismatches_of_one_record() {
    let files = vec![FormatMismatches {
        name: "src/a.rs".to_owned(),
        mismatches: vec![mismatch(4, 8, "x"), mismatch(6, 9, "y")],
    }];
    let mut run = Session::new(FormatMismatchSummaryWriter::default(), "/work");
    let lines = run.handle(files).unwrap();
    assert_eq!(lines.len(), 2);
    assert_eq!(run.seen().len(), 2);
    assert_eq!(run.content(), "- `src/a.rs`\n  - L4\n  - L6\n");
}

#[test]
fn missing_primary_span_is_an_error() {
    let mut run = Session::new(DiagnosticSummaryWriter::default(), "");
    run.handle(diagnostic(DiagnosticLevel::Warning, "first", "src/a.rs", 3)).unwrap();
    let mut message = diagnostic(DiagnosticLevel::Error, "second", "src/a.rs", 4);
    message.spans[0].is_primary = false;
    assert_eq!(run.handle(message), Err(HandleError::Incomplete));
    let mut message = diagnostic(DiagnosticLevel::Error, "third", "src/a.rs", 5);
    message.spans.clear();
    assert_eq!(run.handle(message), Err(HandleError::Incomplete));
    assert_eq!(run.seen().len(), 1);
    assert_eq!(run.max_kind(), AnnotationKind::Warning);
    assert_eq!(run.content(), "|⚠️ Warning|first|`src/a.rs:3`|\n");
    assert_eq!(HandleError::Incomplete.to_string(), "Missing primary span");
}

#[test]
fn full_counter_is_an_error() {
    let writer = DiagnosticSummaryWriter { errors: usize::MAX, warnings: 0, notices: 0 };
    let mut run = Session::new(writer, "");
    assert_eq!(
        run.handle(diagnostic(DiagnosticLevel::Error, "one too many", "src/a.rs", 3)),
        Err(HandleError::CounterOverflow)
    );
    assert_eq!(run.seen().len(), 0);
    assert_eq!(run.content(), "");
    assert_eq!(run.max_kind(), AnnotationKind::Notice);
    assert_eq!(run.writer(), &writer);
    assert!(run.handle(diagnostic(DiagnosticLevel::Warning, "fine", "src/a.rs", 3)).is_ok());
    assert_eq!(HandleError::CounterOverflow.to_string(), "Too many summaries to count");
}

#[test]
fn lines_come_in_the_order_of_arrival_and_the_set_in_its_own() {
    let mut run = Session::new(DiagnosticSummaryWriter::default(), "");
    let mut lines: Vec<String> = Vec::new();
    for (file, line) in [("src/b.rs", 1), ("src/a.rs", 9), ("src/a.rs", 2), ("src/b.rs", 1)] {
        lines.extend(run.handle(diagnostic(DiagnosticLevel::Note, "m", file, line)).unwrap());
    }
    assert_eq!(
        lines,
        vec![
            "::notice file=src/b.rs,line=1,endLine=1,col=1,endColumn=5::m",
            "::notice file=src/a.rs,line=9,endLine=9,col=1,endColumn=5::m",
            "::notice file=src/a.rs,line=2,endLine=2,col=1,endColumn=5::m",
        ]
    );
    let seen: Vec<(String, usize)> =
        run.seen().items().iter().map(|a| (a.file.clone(), a.line)).collect();
    assert_eq!(
        seen,
        vec![("src/a.rs".to_owned(), 2), ("src/a.rs".to_owned(), 9), ("src/b.rs".to_owned(), 1)]
    );
    assert_eq!(run.writer().count(AnnotationKind::Notice), 3);
}

#[test]
fn notices_never_fail_a_run() {
    let mut run = Session::new(DiagnosticSummaryWriter::default(), "");
    run.handle(diagnostic(DiagnosticLevel::Note, "a", "a.rs", 1)).unwrap();
    run.handle(diagnostic(DiagnosticLevel::Help, "b", "a.rs", 2)).unwrap();
    run.handle(diagnostic(DiagnosticLevel::FailureNote, "c", "a.rs", 3)).unwrap();
    assert_eq!(run.max_kind(), AnnotationKind::Notice);
    assert!(!run.fails(false));
    assert!(!run.fails(true));
}

#[test]
fn warnings_fail_a_run_unless_allowed() {
    let mut run = Session::new(DiagnosticSummaryWriter::default(), "");
    run.handle(diagnostic(DiagnosticLevel::Note, "a", "a.rs", 1)).unwrap();
    run.handle(diagnostic(DiagnosticLevel::Warning, "b", "a.rs", 2)).unwrap();
    assert_eq!(run.max_kind(), AnnotationKind::Warning);
    assert!(run.fails(false));
    assert!(!run.fails(true));
}

#[test]
fn errors_fail_a_run() {
    let mut run = Session::new(DiagnosticSummaryWriter::default(), "");
    run.handle(diagnostic(DiagnosticLevel::Error, "a", "a.rs", 1)).unwrap();
    run.handle(diagnostic(DiagnosticLevel::Warning, "b", "a.rs", 2)).unwrap();
    assert_eq!(run.max_kind(), AnnotationKind::Error);
    assert!(run.fails(false));
    assert!(run.fails(true));
    let mut run = Session::new(DiagnosticSummaryWriter::default(), "");
    run.handle(diagnostic(DiagnosticLevel::InternalCompilerError, "a", "a.rs", 1)).unwrap();
    assert!(run.fails(true));
}

#[test]
fn mismatches_fail_a_run_unless_warnings_are_allowed() {
    let mut run = Session::new(FormatMismatchSummaryWriter::default(), "/work");
    run.handle(Vec::<FormatMismatches>::new()).unwrap();
    assert!(!run.fails(false));
    run.handle(vec![FormatMismatches {
        name: "a.rs".to_owned(),
        mismatches: vec![mismatch(1, 1, "x")],
    }])
    .unwrap();
    assert!(run.fails(false));
    assert!(!run.fails(true));
}

#[test]
fn session_without_a_report() {
    let mut run = Session::new((), "");
    assert_eq!(run.report(), "");
    assert_eq!(run.content(), "");
}

#[test]
fn totals_count_the_annotations_seen_whatever_the_order() {
    let messages = [
        (DiagnosticLevel::Error, "a", "src/b.rs", 4),
        (DiagnosticLevel::Warning, "b", "src/a.rs", 2),
        (DiagnosticLevel::Warning, "b", "src/a.rs", 2),
        (DiagnosticLevel::Note, "c", "src/a.rs", 1),
        (DiagnosticLevel::Warning, "d", "src/c.rs", 9),
        (DiagnosticLevel::Error, "a", "src/b.rs", 4),
    ];
    let orders: [[usize; 6]; 3] = [[0, 1, 2, 3, 4, 5], [5, 4, 3, 2, 1, 0], [2, 4, 0, 5, 3, 1]];
    let mut reference: Option<Session<DiagnosticSummaryWriter>> = None;
    for order in orders {
        let mut run = Session::new(DiagnosticSummaryWriter::default(), "");
        let mut lines = 0;
        for index in order {
            let (level, message, file, line) = messages[index];
            lines += run.handle(diagnostic(level, message, file, line)).unwrap().len();
        }
        assert_eq!(lines, 4);
        assert_eq!(run.seen().len(), 4);
        assert_eq!(run.writer().count(AnnotationKind::Error), 1);
        assert_eq!(run.writer().count(AnnotationKind::Warning), 2);
        assert_eq!(run.writer().count(AnnotationKind::Notice), 1);
        if let Some(first) = &reference {
            assert_eq!(run.seen().items(), first.seen().items());
            assert_eq!(run.writer(), first.writer());
            assert_eq!(run.max_kind(), first.max_kind());
        } else {
            reference = Some(run);
        }
    }
}
