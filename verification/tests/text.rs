use ghannotate::text::{chars_of, decimal_string, replace, strip_leading, trim, whitespace};

#[test]
fn whitespace_is_the_unicode_property() {
    let mut code: u32 = 0;
    while code <= 0x10FFFF {
        if let Some(c) = char::from_u32(code) {
            assert_eq!(whitespace(c), c.is_whitespace(), "U+{:04X}", code);
        }
        code += 1;
    }
}

#[test]
fn whitespace_of_common_characters() {
    assert!(whitespace(' '));
    assert!(whitespace('\t'));
    assert!(whitespace('\n'));
    assert!(whitespace('\r'));
    assert!(whitespace('\u{a0}'));
    assert!(whitespace('\u{3000}'));
    assert!(!whitespace('a'));
    assert!(!whitespace('\u{200b}'));
    assert!(!whitespace('\0'));
}

#[test]
fn chars_of_gives_each_character() {
    assert_eq!(chars_of(""), Vec::<char>::new());
    assert_eq!(chars_of("a/b"), vec!['a', '/', 'b']);
    assert_eq!(chars_of("\u{26a0}\u{fe0f}x"), vec!['\u{26a0}', '\u{fe0f}', 'x']);
}

#[test]
fn trim_removes_both_ends_only() {
    assert_eq!(trim("  a b \n"), "a b");
    assert_eq!(trim("a"), "a");
    assert_eq!(trim(""), "");
    assert_eq!(trim(" \t\r\n"), "");
    assert_eq!(trim("\u{2003}x\u{a0}y\u{3000}"), "x\u{a0}y");
    assert_eq!(trim("\n\nerror: x\n  --> a.rs\n\n"), "error: x\n  --> a.rs");
}

#[test]
fn trim_agrees_with_std() {
    let samples = [
        "",
        " ",
        "x",
        " x",
        "x ",
        "  x  y  ",
        "\u{85}\u{1680}z\u{2028}\u{2029}",
        "\u{feff}x",
        "\u{200b} x \u{200b}",
        "é \u{202f}",
    ];
    for sample in samples {
        assert_eq!(trim(sample), sample.trim(), "{:?}", sample);
    }
}

#[test]
fn replace_replaces_every_occurrence() {
    assert_eq!(replace("a%b%%", '%', "%25"), "a%25b%25%25");
    assert_eq!(replace("abc", '%', "%25"), "abc");
    assert_eq!(replace("", '%', "%25"), "");
    assert_eq!(replace("x\ny", '\n', "%0A"), "x%0Ay");
    assert_eq!(replace("aaa", 'a', ""), "");
    assert_eq!(replace("aXa", 'X', "a"), "aaa");
}

#[test]
fn replace_agrees_with_std() {
    let samples = ["", "%", "100%", "a\r\nb", "%0A", "ééé%é", "\n\n\n"];
    for sample in samples {
        assert_eq!(replace(sample, '%', "%25"), sample.replace('%', "%25"));
        assert_eq!(replace(sample, '\n', "%0A"), sample.replace('\n', "%0A"));
        assert_eq!(replace(sample, '\r', "%0D"), sample.replace('\r', "%0D"));
    }
}

#[test]
fn decimal_string_writes_the_digits() {
    assert_eq!(decimal_string(0), "0");
    assert_eq!(decimal_string(7), "7");
    assert_eq!(decimal_string(9), "9");
    assert_eq!(decimal_string(10), "10");
    assert_eq!(decimal_string(42), "42");
    assert_eq!(decimal_string(100), "100");
    assert_eq!(decimal_string(1234567890), "1234567890");
    assert_eq!(decimal_string(usize::MAX), usize::MAX.to_string());
}

#[test]
fn decimal_string_agrees_with_std() {
    let mut n: usize = 0;
    while n < 2000 {
        assert_eq!(decimal_string(n), n.to_string());
        n += 1;
    }
}

#[test]
fn strip_leading_takes_every_repetition() {
    assert_eq!(strip_leading("/home/me/src/a.rs", "/home/me"), "/src/a.rs");
    assert_eq!(strip_leading("src/a.rs", "/home/me"), "src/a.rs");
    assert_eq!(strip_leading("ababc", "ab"), "c");
    assert_eq!(strip_leading("abab", "ab"), "");
    assert_eq!(strip_leading("///a//b", "/"), "a//b");
    assert_eq!(strip_leading("a", ""), "a");
    assert_eq!(strip_leading("", "/"), "");
    assert_eq!(strip_leading("ab", "abc"), "ab");
}

#[test]
fn strip_leading_agrees_with_std() {
    let samples = ["", "/", "//x", "/home/me/a", "/home/me/home/me/a", "/home/meme", "x/home/me"];
    let prefixes = ["/", "/home/me", "", "/home/me/"];
    for sample in samples {
        for prefix in prefixes {
            assert_eq!(
                strip_leading(sample, prefix),
                sample.trim_start_matches(prefix),
                "{:?} {:?}",
                sample,
                prefix
            );
        }
    }
}
