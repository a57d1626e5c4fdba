use ghannotate::github::{Annotation, AnnotationKind};
use ghannotate::set::AnnotationSet;

fn warning(file: &str, line: usize, message: &str) -> Annotation {
    Annotation {
        kind: AnnotationKind::Warning,
        file: file.to_owned(),
        line,
        end_line: Some(line),
        col: None,
        end_column: None,
        title: None,
        message: message.to_owned(),
    }
}

#[test]
fn new_set_is_empty() {
    let set = AnnotationSet::new();
    assert_eq!(set.len(), 0);
    assert!(set.items().is_empty());
    assert!(!set.contains(&warning("a.rs", 1, "m")));
}

#[test]
fn insert_adds_once() {
    let mut set = AnnotationSet::new();
    assert!(set.insert(warning("a.rs", 1, "m")));
    assert!(!set.insert(warning("a.rs", 1, "m")));
    assert!(set.contains(&warning("a.rs", 1, "m")));
    assert_eq!(set.len(), 1);
    assert_eq!(set.items(), &vec![warning("a.rs", 1, "m")]);
}

#[test]
fn insert_keeps_annotations_that_differ_in_the_message_only() {
    let mut set = AnnotationSet::new();
    assert!(set.insert(warning("a.rs", 1, "second")));
    assert!(set.insert(warning("a.rs", 1, "first")));
    assert!(!set.insert(warning("a.rs", 1, "second")));
    assert_eq!(set.items(), &vec![warning("a.rs", 1, "first"), warning("a.rs", 1, "second")]);
}

#[test]
fn insert_keeps_the_order_of_annotations() {
    let mut set = AnnotationSet::new();
    assert!(set.insert(warning("src/b.rs", 1, "m")));
    assert!(set.insert(warning("src/a.rs", 7, "m")));
    assert!(set.insert(warning("src/a.rs", 2, "m")));
    assert!(set.insert(warning("src/a/c.rs", 1, "m")));
    assert!(set.insert(warning("src", 1, "m")));
    assert_eq!(
        set.items(),
        &vec![
            warning("src", 1, "m"),
            warning("src/a/c.rs", 1, "m"),
            warning("src/a.rs", 2, "m"),
            warning("src/a.rs", 7, "m"),
            warning("src/b.rs", 1, "m"),
        ]
    );
}

#[test]
fn set_does_not_depend_on_the_order_of_insertion() {
    let items = [
        warning("b.rs", 3, "x"),
        warning("a.rs", 3, "x"),
        warning("a.rs", 1, "y"),
        warning("a.rs", 1, "x"),
        warning("c/d.rs", 9, "x"),
    ];
    let orders: [[usize; 5]; 4] = [[0, 1, 2, 3, 4], [4, 3, 2, 1, 0], [2, 0, 4, 1, 3], [1, 3, 0, 4, 2]];
    let mut first = AnnotationSet::new();
    for item in &items {
        first.insert(item.clone());
    }
    for order in orders {
        let mut set = AnnotationSet::new();
        for index in order {
            assert!(set.insert(items[index].clone()));
        }
        for index in order {
            assert!(!set.insert(items[index].clone()));
        }
        assert_eq!(set.items(), first.items());
    }
}

#[test]
fn set_of_many_is_sorted() {
    let mut set = AnnotationSet::new();
    let mut n: usize = 0;
    while n < 200 {
        let line = (n * 37) % 101;
        set.insert(warning("a.rs", line, "m"));
        n += 1;
    }
    assert_eq!(set.len(), 101);
    let items = set.items();
    let mut i = 1;
    while i < items.len() {
        assert!(items[i - 1] < items[i]);
        i += 1;
    }
}

#[test]
fn insert_keeps_two_ways_of_writing_a_path() {
    let mut set = AnnotationSet::new();
    assert!(set.insert(warning("src/a.rs", 1, "m")));
    assert!(set.insert(warning("src//a.rs", 1, "m")));
    assert!(set.insert(warning("src/a.rs", 0, "m")));
    assert!(!set.insert(warning("src//a.rs", 1, "m")));
    assert_eq!(
        set.items(),
        &vec![warning("src/a.rs", 0, "m"), warning("src//a.rs", 1, "m"), warning("src/a.rs", 1, "m")]
    );
}
