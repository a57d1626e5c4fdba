use ghannotate::cargo::rustfmt::{
    relative_path, FormatMismatch, FormatMismatchSummaryWriter, FormatMismatches,
    FormatMismatchesSummary,
};
use ghannotate::cargo::{HandleMessage, SummaryWriter};
use ghannotate::github::{Annotation, AnnotationKind};

fn mismatch(begin: usize, end: usize, expected: &str) -> FormatMismatch {
    FormatMismatch {
        original_begin_line: begin,
        original_end_line: end,
        expected_begin_line: begin + 100,
        expected_end_line: end + 100,
        original: "original".to_owned(),
        expected: expected.to_owned(),
    }
}

fn warning(file: &str, begin: usize, end: usize, expected: &str) -> Annotation {
    Annotation {
        kind: AnnotationKind::Warning,
        file: file.to_owned(),
        line: begin,
        end_line: Some(end),
        col: None,
        end_column: None,
        title: Some("Format mismatch".to_owned()),
        message: expected.to_owned(),
    }
}

#[test]
fn relative_path_strips_the_base_and_the_separators() {
    assert_eq!(relative_path("/work/repo/src/a.rs", "/work/repo"), "src/a.rs");
    assert_eq!(relative_path("/work/repo/src/a.rs", "/work/repo/"), "src/a.rs");
    assert_eq!(relative_path("/work/repo//src/a.rs", "/work/repo"), "src/a.rs");
    assert_eq!(relative_path("src/a.rs", "/work/repo"), "src/a.rs");
    assert_eq!(relative_path("/other/src/a.rs", "/work/repo"), "other/src/a.rs");
    assert_eq!(relative_path("/work/repo/work/repo/a.rs", "/work/repo"), "a.rs");
    assert_eq!(
        relative_path("/work/repo/work/repo/a.rs", "/work/repo"),
        "/work/repo/work/repo/a.rs".trim_start_matches("/work/repo").trim_start_matches('/')
    );
    assert_eq!(relative_path("/work/repo", "/work/repo"), "");
    assert_eq!(relative_path("/a.rs", ""), "a.rs");
}

#[test]
fn annotations_of_mismatches() {
    let files = vec![
        FormatMismatches {
            name: "/work/repo/src/b.rs".to_owned(),
            mismatches: vec![mismatch(3, 5, "fn b() {}\n"), mismatch(9, 9, "}")],
        },
        FormatMismatches { name: "/work/repo/src/empty.rs".to_owned(), mismatches: vec![] },
        FormatMismatches {
            name: "/work/repo/src/a.rs".to_owned(),
            mismatches: vec![mismatch(1, 2, "use std::fmt;")],
        },
    ];
    assert!(files.is_complete());
    assert_eq!(
        files.into_annotations("/work/repo"),
        vec![
            warning("src/b.rs", 3, 5, "fn b() {}\n"),
            warning("src/b.rs", 9, 9, "}"),
            warning("src/a.rs", 1, 2, "use std::fmt;"),
        ]
    );
}

#[test]
fn annotations_of_no_mismatches() {
    let files: Vec<FormatMismatches> = Vec::new();
    assert_eq!(files.summarize("/work"), Vec::<FormatMismatchesSummary>::new());
    assert_eq!(files.into_annotations("/work"), Vec::<Annotation>::new());
}

#[test]
fn annotations_of_one_file() {
    let file = FormatMismatches {
        name: "src/a.rs".to_owned(),
        mismatches: vec![mismatch(4, 6, "x"), mismatch(5, 7, "y")],
    };
    assert_eq!(
        file.into_annotations("/work"),
        vec![warning("src/a.rs", 4, 6, "x"), warning("src/a.rs", 5, 7, "y")]
    );
}

#[test]
fn summaries_of_mismatches() {
    let files = vec![
        FormatMismatches {
            name: "/work/repo/src/b.rs".to_owned(),
            mismatches: vec![mismatch(3, 5, "x"), mismatch(9, 9, "y")],
        },
        FormatMismatches { name: "/work/repo/src/empty.rs".to_owned(), mismatches: vec![] },
    ];
    assert_eq!(
        files.summarize("/work/repo"),
        vec![
            FormatMismatchesSummary { file: "src/b.rs".to_owned(), lines: vec![3, 9] },
            FormatMismatchesSummary { file: "src/empty.rs".to_owned(), lines: vec![] },
        ]
    );
    assert_eq!(
        FormatMismatchesSummary::from(&files[0], "/elsewhere"),
        FormatMismatchesSummary { file: "work/repo/src/b.rs".to_owned(), lines: vec![3, 9] }
    );
}

#[test]
fn mismatch_writer_writes_a_file_and_its_lines() {
    let mut writer = FormatMismatchSummaryWriter::default();
    assert_eq!(writer.count, 0);
    let mut content = String::new();
    writer.write_summary(
        FormatMismatchesSummary { file: "src/b.rs".to_owned(), lines: vec![3, 9, 120] },
        &mut content,
    );
    assert_eq!(content, "- `src/b.rs`\n  - L3\n  - L9\n  - L120\n");
    assert_eq!(writer.count, 3);
    writer.write_summary(
        FormatMismatchesSummary { file: "src/empty.rs".to_owned(), lines: vec![] },
        &mut content,
    );
    assert_eq!(content, "- `src/b.rs`\n  - L3\n  - L9\n  - L120\n- `src/empty.rs`\n");
    assert_eq!(writer.count, 3);
}

#[test]
fn mismatch_writer_writes_the_total() {
    let writer = FormatMismatchSummaryWriter { count: 12 };
    let mut file = String::new();
    writer.write_preamble(&mut file);
    assert_eq!(file, "> **TOTAL:** 12 mismatches\n\n");
    writer.write_postamble(&mut file);
    assert_eq!(file, "> **TOTAL:** 12 mismatches\n\n");
}

#[test]
fn mismatch_writer_has_no_room_past_the_limit() {
    let writer = FormatMismatchSummaryWriter { count: usize::MAX - 1 };
    let summary = |lines| FormatMismatchesSummary { file: String::new(), lines };
    assert!(writer.can_write(&summary(vec![])));
    assert!(writer.can_write(&summary(vec![1])));
    assert!(!writer.can_write(&summary(vec![1, 2])));
}

#[test]
fn summaries_of_two_records_of_one_file() {
    let files = vec![
        FormatMismatches { name: "src/a.rs".to_owned(), mismatches: vec![mismatch(3, 6, "p")] },
        FormatMismatches { name: "src/a.rs".to_owned(), mismatches: vec![mismatch(4, 8, "q")] },
    ];
    let summaries = files.summarize("");
    assert_eq!(
        summaries,
        vec![FormatMismatchesSummary { file: "src/a.rs".to_owned(), lines: vec![3, 4] }]
    );
    let mut writer = FormatMismatchSummaryWriter::default();
    let mut content = String::new();
    for summary in summaries {
        writer.write_summary(summary, &mut content);
    }
    assert_eq!(content, "- `src/a.rs`\n  - L3\n  - L4\n");
    assert_eq!(writer.count, 2);
    assert_eq!(
        files.into_annotations(""),
        vec![warning("src/a.rs", 3, 6, "p"), warning("src/a.rs", 4, 8, "q")]
    );
}

#[test]
fn summaries_come_in_the_order_in_which_the_files_first_come() {
    let files = vec![
        FormatMismatches {
            name: "/work/src/b.rs".to_owned(),
            mismatches: vec![mismatch(9, 9, "x"), mismatch(2, 3, "y")],
        },
        FormatMismatches { name: "/work/src/a.rs".to_owned(), mismatches: vec![mismatch(5, 5, "z")] },
        FormatMismatches { name: "src/b.rs".to_owned(), mismatches: vec![] },
        FormatMismatches { name: "/work/src/c.rs".to_owned(), mismatches: vec![] },
        FormatMismatches { name: "src/b.rs".to_owned(), mismatches: vec![mismatch(1, 1, "w")] },
        FormatMismatches {
            name: "//src/a.rs".to_owned(),
            mismatches: vec![mismatch(5, 5, "z"), mismatch(4, 4, "v")],
        },
    ];
    assert_eq!(
        files.summarize("/work"),
        vec![
            FormatMismatchesSummary { file: "src/b.rs".to_owned(), lines: vec![9, 2, 1] },
            FormatMismatchesSummary { file: "src/a.rs".to_owned(), lines: vec![5, 5, 4] },
            FormatMismatchesSummary { file: "src/c.rs".to_owned(), lines: vec![] },
        ]
    );
}
