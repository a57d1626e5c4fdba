use ghannotate::github::{escape, Annotation, AnnotationKind};
use ghannotate::order::Precedence;
use std::cmp::Ordering;
use std::path::Path;

fn annotation(kind: AnnotationKind, file: &str, line: usize, col: Option<usize>) -> Annotation {
    Annotation {
        kind,
        file: file.to_owned(),
        line,
        end_line: None,
        col,
        end_column: None,
        title: None,
        message: "m".to_owned(),
    }
}

#[test]
fn kind_emoji() {
    assert_eq!(AnnotationKind::Notice.emoji(), "\u{2139}\u{fe0f}");
    assert_eq!(AnnotationKind::Warning.emoji(), "\u{26a0}\u{fe0f}");
    assert_eq!(AnnotationKind::Error.emoji(), "\u{274c}");
}

#[test]
fn kind_names_and_tokens() {
    assert_eq!(AnnotationKind::Notice.name(), "Notice");
    assert_eq!(AnnotationKind::Warning.name(), "Warning");
    assert_eq!(AnnotationKind::Error.name(), "Error");
    assert_eq!(AnnotationKind::Notice.token(), "notice");
    assert_eq!(AnnotationKind::Warning.token(), "warning");
    assert_eq!(AnnotationKind::Error.token(), "error");
}

#[test]
fn kind_to_string_is_emoji_and_name() {
    assert_eq!(AnnotationKind::Notice.to_string(), "\u{2139}\u{fe0f} Notice");
    assert_eq!(AnnotationKind::Warning.to_string(), "⚠️ Warning");
    assert_eq!(AnnotationKind::Error.to_string(), "\u{274c} Error");
}

#[test]
fn kind_order_is_by_severity() {
    assert!(AnnotationKind::Notice < AnnotationKind::Warning);
    assert!(AnnotationKind::Warning < AnnotationKind::Error);
    assert!(AnnotationKind::Notice < AnnotationKind::Error);
    assert!(AnnotationKind::Error >= AnnotationKind::Error);
    assert_eq!(AnnotationKind::Notice.max(AnnotationKind::Error), AnnotationKind::Error);
    assert_eq!(
        AnnotationKind::Warning.partial_cmp(&AnnotationKind::Notice),
        Some(Ordering::Greater)
    );
    assert_eq!(AnnotationKind::Warning.partial_cmp(&AnnotationKind::Warning), Some(Ordering::Equal));
    assert_eq!(AnnotationKind::Warning.partial_cmp(&AnnotationKind::Error), Some(Ordering::Less));
    assert_eq!(AnnotationKind::Warning.cmp(&AnnotationKind::Error), Ordering::Less);
}

#[test]
fn kind_worse_is_the_maximum() {
    let kinds = [AnnotationKind::Notice, AnnotationKind::Warning, AnnotationKind::Error];
    for a in kinds {
        for b in kinds {
            assert_eq!(a.worse(b), a.max(b));
        }
    }
}

#[test]
fn escape_encodes_the_three_characters() {
    assert_eq!(escape("100%"), "100%25");
    assert_eq!(escape("a\nb"), "a%0Ab");
    assert_eq!(escape("a\rb"), "a%0Db");
    assert_eq!(escape("50% done\r\nnext"), "50%25 done%0D%0Anext");
}

#[test]
fn escape_does_not_encode_twice() {
    // The `%` that an encoded line feed brings is not encoded again.
    assert_eq!(escape("%\n"), "%25");
    assert_eq!(escape("x%\ny"), "x%25%0Ay");
    assert_eq!(escape("%0A"), "%250A");
    assert_eq!(escape("%25"), "%2525");
    assert_eq!(escape("a\n%\rb"), "a%0A%25%0Db");
}

#[test]
fn escape_trims_first() {
    assert_eq!(escape("  text \n"), "text");
    assert_eq!(escape("\n a \n b \n"), "a %0A b");
    assert_eq!(escape(" \r\n "), "");
    assert_eq!(escape(""), "");
}

#[test]
fn escape_agrees_with_the_chain_of_std() {
    let samples = ["", "%", "\n", "\r", " % \n \r ", "error[E0308]: mismatched types\n --> a.rs:1:1\n"];
    for sample in samples {
        let expected = sample.trim().replace('%', "%25").replace('\n', "%0A").replace('\r', "%0D");
        assert_eq!(escape(sample), expected);
    }
}

#[test]
fn to_string_with_line_only() {
    let a = annotation(AnnotationKind::Notice, "src/lib.rs", 1, None);
    assert_eq!(a.to_string(), "::notice file=src/lib.rs,line=1::m");
}

#[test]
fn to_string_with_every_field() {
    let a = Annotation {
        kind: AnnotationKind::Error,
        file: "src/main.rs".to_owned(),
        line: 10,
        end_line: Some(12),
        col: Some(5),
        end_column: Some(9),
        title: Some("mismatched types".to_owned()),
        message: "error[E0308]: mismatched types\n  expected `u8`\n".to_owned(),
    };
    assert_eq!(
        a.to_string(),
        "::error file=src/main.rs,line=10,endLine=12,col=5,endColumn=9,title=mismatched types::error[E0308]: mismatched types%0A  expected `u8`"
    );
}

#[test]
fn to_string_leaves_the_end_column_out_without_a_column() {
    let a = Annotation {
        kind: AnnotationKind::Warning,
        file: "a.rs".to_owned(),
        line: 2,
        end_line: Some(3),
        col: None,
        end_column: Some(7),
        title: None,
        message: "x".to_owned(),
    };
    assert_eq!(a.to_string(), "::warning file=a.rs,line=2,endLine=3::x");
}

#[test]
fn to_string_with_column_and_title() {
    let a = Annotation {
        kind: AnnotationKind::Warning,
        file: "a.rs".to_owned(),
        line: 2,
        end_line: None,
        col: Some(4),
        end_column: None,
        title: Some("t".to_owned()),
        message: " 100% \r\n".to_owned(),
    };
    assert_eq!(a.to_string(), "::warning file=a.rs,line=2,col=4,title=t::100%25");
}

#[test]
fn to_owned_copies_every_field() {
    let a = Annotation {
        kind: AnnotationKind::Error,
        file: "src/main.rs".to_owned(),
        line: 10,
        end_line: Some(12),
        col: Some(5),
        end_column: Some(9),
        title: Some("title".to_owned()),
        message: "message".to_owned(),
    };
    assert_eq!(a.to_owned(), a);
    let b = annotation(AnnotationKind::Notice, "x", 1, None);
    assert_eq!(b.to_owned(), b);
    assert_ne!(a.to_owned(), b);
}

#[test]
fn order_by_file_first() {
    let a = annotation(AnnotationKind::Notice, "src/a.rs", 9, Some(9));
    let b = annotation(AnnotationKind::Error, "src/b.rs", 1, None);
    assert_eq!(a.cmp(&b), Ordering::Less);
    assert_eq!(b.cmp(&a), Ordering::Greater);
    let c = annotation(AnnotationKind::Error, "src/a/x.rs", 1, None);
    let d = annotation(AnnotationKind::Error, "src/a-b.rs", 1, None);
    assert_eq!(c.cmp(&d), Ordering::Less);
}

#[test]
fn order_by_line_then_column() {
    let a = annotation(AnnotationKind::Notice, "a.rs", 2, Some(9));
    let b = annotation(AnnotationKind::Error, "a.rs", 10, None);
    assert_eq!(a.cmp(&b), Ordering::Less);
    let none = annotation(AnnotationKind::Notice, "a.rs", 2, None);
    let one = annotation(AnnotationKind::Error, "a.rs", 2, Some(1));
    let two = annotation(AnnotationKind::Error, "a.rs", 2, Some(2));
    assert_eq!(none.cmp(&one), Ordering::Less);
    assert_eq!(one.cmp(&two), Ordering::Less);
    assert_eq!(two.cmp(&none), Ordering::Greater);
}

#[test]
fn order_puts_the_more_severe_first() {
    let error = annotation(AnnotationKind::Error, "a.rs", 2, Some(1));
    let warning = annotation(AnnotationKind::Warning, "a.rs", 2, Some(1));
    let notice = annotation(AnnotationKind::Notice, "a.rs", 2, Some(1));
    assert_eq!(error.cmp(&warning), Ordering::Less);
    assert_eq!(warning.cmp(&notice), Ordering::Less);
    assert_eq!(error.cmp(&notice), Ordering::Less);
    assert_eq!(notice.cmp(&error), Ordering::Greater);
    assert!(error < warning);
    assert!(notice > warning);
}

#[test]
fn order_tells_any_two_annotations_apart() {
    let base = annotation(AnnotationKind::Warning, "a.rs", 2, Some(1));
    let mut end_line = base.clone();
    end_line.end_line = Some(2);
    let mut end_column = base.clone();
    end_column.end_column = Some(3);
    let mut title = base.clone();
    title.title = Some("t".to_owned());
    let mut message = base.clone();
    message.message = "n".to_owned();
    assert_eq!(base.cmp(&base.clone()), Ordering::Equal);
    assert_eq!(base.cmp(&end_line), Ordering::Less);
    assert_eq!(base.cmp(&end_column), Ordering::Less);
    assert_eq!(base.cmp(&title), Ordering::Less);
    assert_eq!(base.cmp(&message), Ordering::Less);
    assert_eq!(message.cmp(&base), Ordering::Greater);
    assert_eq!(end_line.cmp(&end_column), Ordering::Greater);
    assert_eq!(base.partial_cmp(&message), Some(Ordering::Less));
    assert_eq!(base.compare(&message), Precedence::Before);
    assert_eq!(base.compare(&base), Precedence::Same);
    assert_eq!(message.compare(&base), Precedence::After);
}

#[test]
fn order_is_strict_and_total_on_a_sample() {
    let kinds = [AnnotationKind::Notice, AnnotationKind::Warning, AnnotationKind::Error];
    let mut sample: Vec<Annotation> = Vec::new();
    for file in ["a", "a/b", "a//b", "./a", "a-b", "b"] {
        for line in [1, 2] {
            for col in [None, Some(1)] {
                for kind in kinds {
                    sample.push(annotation(kind, file, line, col));
                }
            }
        }
    }
    for a in &sample {
        for b in &sample {
            let ab = a.cmp(b);
            assert_eq!(ab == Ordering::Equal, a == b);
            assert_eq!(ab, b.cmp(a).reverse());
            for c in &sample {
                if ab == Ordering::Less && b.cmp(c) == Ordering::Less {
                    assert_eq!(a.cmp(c), Ordering::Less);
                }
            }
        }
    }
}

#[test]
fn to_string_with_columns_and_no_end_line() {
    let a = Annotation {
        kind: AnnotationKind::Warning,
        file: "src/a.rs".to_owned(),
        line: 3,
        end_line: None,
        col: Some(1),
        end_column: Some(5),
        title: None,
        message: "unused variable".to_owned(),
    };
    assert_eq!(a.to_string(), "::warning file=src/a.rs,line=3,col=1,endColumn=5::unused variable");
}

#[test]
fn order_by_file_is_that_of_paths() {
    let files = ["a/c", "a//d", "../x", "-x/y", "./a", "a", "/a", "a/b/", "a/./b", "a-b", ""];
    let kinds = [AnnotationKind::Notice, AnnotationKind::Error];
    for left in files {
        for right in files {
            let by_path = Path::new(left).cmp(Path::new(right));
            if by_path == Ordering::Equal {
                continue;
            }
            for (left_line, right_line) in [(1, 9), (9, 1)] {
                for left_kind in kinds {
                    for right_kind in kinds {
                        let a = annotation(left_kind, left, left_line, Some(right_line));
                        let b = annotation(right_kind, right, right_line, None);
                        assert_eq!(a.cmp(&b), by_path, "{:?} {:?}", left, right);
                    }
                }
            }
        }
    }
    let a = annotation(AnnotationKind::Notice, "a/c", 100, Some(7));
    let b = annotation(AnnotationKind::Error, "a//d", 1, None);
    assert_eq!(a.cmp(&b), Ordering::Less);
    assert_eq!(b.cmp(&a), Ordering::Greater);
}

#[test]
fn order_tells_two_ways_of_writing_a_path_apart_last() {
    let plain = annotation(AnnotationKind::Warning, "a/b", 2, None);
    let doubled = annotation(AnnotationKind::Warning, "a//b", 2, None);
    assert_ne!(plain, doubled);
    assert_eq!(doubled.cmp(&plain), Ordering::Less);
    assert_eq!(plain.cmp(&doubled), Ordering::Greater);
    assert_eq!(plain.cmp(&plain.clone()), Ordering::Equal);
    // Every other field decides before the text of the file does.
    let later = annotation(AnnotationKind::Warning, "a//b", 3, None);
    assert_eq!(later.cmp(&plain), Ordering::Greater);
    let mut other = doubled.clone();
    other.message = "n".to_owned();
    assert_eq!(other.cmp(&plain), Ordering::Greater);
    let notice = annotation(AnnotationKind::Notice, "a//b", 2, None);
    assert_eq!(notice.cmp(&plain), Ordering::Greater);
}
