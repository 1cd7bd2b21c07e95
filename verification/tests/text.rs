//! Text against the operations of std.
use codecairn::order::{comes_before, distinct_strings, sort_keys, sort_strings, Key};
use codecairn::text::{
    before_last_of, chars_of, clone_option, clone_strings, contains_str, ends_with,
    find_str, is, is_white_space, join_strings, lines_of, occurs, position_of, push_decimal, push_grouped,
    replace_char, same, split_class, split_str, starts_with, str_same, string_of, strings_of,
    trim_both, trim_end_class, trim_end_str, trim_start_class, trim_start_str, trim_white, Class,
};

const SAMPLES: [&str; 14] = [
    "",
    " ",
    "a",
    "  a b  ",
    "a/b//c/",
    "//a",
    "a::b::c",
    ":::",
    "aXaXa",
    "line\r\nnext\n\nlast\r",
    "\n",
    "\u{2003}\u{e9}\u{3000}",
    "\"'q'\"",
    "*/ x */*/",
];

fn back(s: &[char]) -> String {
    string_of(s)
}

#[test]
fn white_space_is_that_of_std() {
    for n in 0..0x110000u32 {
        if let Some(c) = char::from_u32(n) {
            assert_eq!(is_white_space(c), c.is_whitespace());
        }
    }
}

#[test]
fn trimming_is_that_of_std() {
    for s in SAMPLES {
        let c = chars_of(s);
        assert_eq!(back(trim_white(&c)), s.trim());
        assert_eq!(back(trim_both(&c, Class::Only('"'))), s.trim_matches('"'));
        assert_eq!(back(trim_start_class(&c, Class::Only('/'))), s.trim_start_matches('/'));
        assert_eq!(
            back(trim_end_class(&c, Class::Either('*', '/'))),
            s.trim_end_matches(['*', '/'])
        );
        assert_eq!(back(trim_start_str(&c, "//")), s.trim_start_matches("//"));
        assert_eq!(back(trim_end_str(&c, "*/")), s.trim_end_matches("*/"));
    }
}

#[test]
fn splitting_is_that_of_std() {
    for s in SAMPLES {
        let c = chars_of(s);
        let expected: Vec<String> = s.split('/').map(|p| p.to_string()).collect();
        assert_eq!(strings_of(&split_class(&c, Class::Only('/'))), expected);
        let expected: Vec<String> = s.split(['a', ':']).map(|p| p.to_string()).collect();
        assert_eq!(strings_of(&split_class(&c, Class::Either('a', ':'))), expected);
        for p in ["::", "Xa", "aXa"] {
            let expected: Vec<String> = s.split(p).map(|p| p.to_string()).collect();
            assert_eq!(strings_of(&split_str(&c, p)), expected);
        }
        let expected: Vec<String> = s.lines().map(|p| p.to_string()).collect();
        assert_eq!(strings_of(&lines_of(&c)), expected);
        assert_eq!(
            before_last_of(&c, Class::Only('/')).map(back),
            s.rsplit_once('/').map(|(d, _)| d.to_string())
        );
    }
}

#[test]
fn searching_is_that_of_std() {
    for s in SAMPLES {
        let c = chars_of(s);
        for p in ["", "a", "::", "Xa", "b//", "\u{e9}"] {
            assert_eq!(contains_str(&c, p), s.contains(p));
            assert_eq!(starts_with(&c, p), s.starts_with(p));
            assert_eq!(ends_with(&c, p), s.ends_with(p));
            let at = s.find(p).map(|i| s[..i].chars().count());
            assert_eq!(find_str(&c, p), at);
        }
        let at = s.find('a').map(|i| s[..i].chars().count());
        assert_eq!(position_of(&c, Class::Only('a')), at);
        assert_eq!(
            position_of(&c, Class::White).is_some(),
            s.contains(char::is_whitespace)
        );
    }
    assert!(occurs(&chars_of("abc"), &chars_of("bc"), 1));
    assert!(!occurs(&chars_of("abc"), &chars_of("bc"), 2));
}

#[test]
fn texts_are_put_together() {
    let parts: Vec<String> = vec!["a".to_string(), String::new(), "c".to_string()];
    assert_eq!(join_strings(&parts, "::"), parts.join("::"));
    assert_eq!(join_strings(&[], "::"), "");
    assert_eq!(codecairn::text::concat("a", "b"), "ab");
    assert_eq!(back(&replace_char(&chars_of("a.b.c"), '.', '/')), "a/b/c");
    assert_eq!(clone_strings(&parts), parts);
    assert_eq!(clone_option(&Some("x".to_string())), Some("x".to_string()));
    assert_eq!(clone_option(&None), None);
    for n in [0, 7, 10, 99, 100, 12345, usize::MAX] {
        let mut out = "n".to_string();
        push_decimal(&mut out, n);
        assert_eq!(out, format!("n{n}"));
    }
    let cases = [
        (0, "0"),
        (999, "999"),
        (1000, "1,000"),
        (3200, "3,200"),
        (12450, "12,450"),
        (1002003, "1,002,003"),
    ];
    for (n, expected) in cases {
        let mut out = String::new();
        push_grouped(&mut out, n);
        assert_eq!(out, expected);
    }
    let mut most = String::new();
    push_grouped(&mut most, usize::MAX);
    assert_eq!(most.replace(',', ""), format!("{}", usize::MAX));
}

#[test]
fn texts_are_compared() {
    assert!(same(&chars_of("ab"), &chars_of("ab")));
    assert!(!same(&chars_of("ab"), &chars_of("abc")));
    assert!(is(&chars_of("ab"), "ab"));
    assert!(str_same("", ""));
    assert!(!str_same("a", "b"));
    for a in SAMPLES {
        for b in SAMPLES {
            assert_eq!(comes_before(&chars_of(a), &chars_of(b)), a < b);
        }
    }
}

#[test]
fn sorting_is_that_of_std() {
    let names: Vec<String> = SAMPLES.iter().chain(SAMPLES.iter()).map(|s| s.to_string()).collect();
    let mut expected = names.clone();
    expected.sort();
    assert_eq!(sort_strings(&names), expected);
    expected.dedup();
    assert_eq!(distinct_strings(&names), expected);
    let keys: Vec<Key> = [(1, "b"), (2, "z"), (1, "a"), (1, "b"), (2, "y")]
        .iter()
        .map(|(rank, name)| Key { rank: *rank, name: chars_of(name) })
        .collect();
    assert_eq!(sort_keys(&keys), vec![4, 1, 2, 0, 3]);
}
