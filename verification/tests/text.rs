use codeowners_resolver::text::{
    chars_of, fields_of, is_whitespace, same_text, split_chars, string_of, text_before, Delimiter,
};

fn chars(s: &str) -> Vec<char> {
    s.chars().collect()
}

fn strings(pieces: Vec<Vec<char>>) -> Vec<String> {
    pieces.into_iter().map(|p| p.into_iter().collect()).collect()
}

#[test]
fn whitespace_is_the_unicode_white_space_set() {
    for code in 0u32..=0x3100 {
        if let Some(c) = char::from_u32(code) {
            assert_eq!(is_whitespace(c), c.is_whitespace(), "U+{:04X}", code);
        }
    }
    assert!(is_whitespace(' '));
    assert!(is_whitespace('\t'));
    assert!(is_whitespace('\r'));
    assert!(is_whitespace('\u{3000}'));
    assert!(!is_whitespace('a'));
    assert!(!is_whitespace('\u{200B}'));
    assert!(!is_whitespace('\u{10FFFF}'));
}

#[test]
fn chars_and_strings_round_trip() {
    assert_eq!(chars_of("a\u{e9}\u{65e5}"), vec!['a', '\u{e9}', '\u{65e5}']);
    assert_eq!(chars_of(""), Vec::<char>::new());
    assert_eq!(string_of(&vec!['a', 'b', '\u{e9}']), "ab\u{e9}");
    assert_eq!(string_of(&vec![]), "");
    assert_eq!(string_of(&chars_of("docs/readme.md")), "docs/readme.md");
}

#[test]
fn split_keeps_empty_pieces() {
    let d = Delimiter::Char('/');
    assert_eq!(strings(split_chars(&chars("a/b/c"), d)), vec!["a", "b", "c"]);
    assert_eq!(strings(split_chars(&chars(""), d)), vec![""]);
    assert_eq!(strings(split_chars(&chars("/"), d)), vec!["", ""]);
    assert_eq!(strings(split_chars(&chars("/a//b/"), d)), vec!["", "a", "", "b", ""]);
    assert_eq!(strings(split_chars(&chars("abc"), d)), vec!["abc"]);
}

#[test]
fn split_agrees_with_str_split() {
    for text in ["", "\n", "a\nb", "a\n\nb\n", "\n\n", "one line", "x\ny\nz\n"] {
        let expected: Vec<String> = text.split('\n').map(|s| s.to_string()).collect();
        assert_eq!(strings(split_chars(&chars(text), Delimiter::Char('\n'))), expected);
    }
}

#[test]
fn fields_are_runs_without_white_space() {
    assert_eq!(strings(fields_of(&chars("  *.rs \t@a   @b  "))), vec!["*.rs", "@a", "@b"]);
    assert_eq!(strings(fields_of(&chars(""))), Vec::<String>::new());
    assert_eq!(strings(fields_of(&chars(" \t\r "))), Vec::<String>::new());
    assert_eq!(strings(fields_of(&chars("one"))), vec!["one"]);
    assert_eq!(strings(fields_of(&chars("a\u{3000}b\u{a0}c"))), vec!["a", "b", "c"]);
}

#[test]
fn fields_agree_with_split_whitespace() {
    for text in ["", " ", "a", " a ", "a  b", "\ta\tb\t", "x\u{2003}y", "# c  d"] {
        let expected: Vec<String> = text.split_whitespace().map(|s| s.to_string()).collect();
        assert_eq!(strings(fields_of(&chars(text))), expected);
    }
}

#[test]
fn same_text_compares_contents() {
    assert!(same_text(&chars("abc"), &chars("abc")));
    assert!(same_text(&chars(""), &chars("")));
    assert!(!same_text(&chars("abc"), &chars("abd")));
    assert!(!same_text(&chars("abc"), &chars("ab")));
    assert!(!same_text(&chars(""), &chars("a")));
}

#[test]
fn text_order_is_the_order_of_strings() {
    let samples = [
        "", "a", "ab", "b", "B", "@team", "@Team", "@team-a", "@team, @x", "z", "\u{e9}",
        "\u{65e5}\u{672c}", "\u{10000}", "~", " ", "a ", "aa",
    ];
    for a in samples {
        for b in samples {
            assert_eq!(text_before(&chars(a), &chars(b)), a < b, "{:?} < {:?}", a, b);
        }
    }
}
