use breadbox::text::{
    chars_of, copy_texts, is_text, position, same_text, space, split_chars, split_lines, string_of,
    strip_prefix, strip_suffix, trim_chars, trim_end_copies, Margin,
};

fn split(s: &str, sep: char) -> Vec<String> {
    split_chars(&chars_of(s), sep)
}

fn lines(s: &str) -> Vec<String> {
    split_lines(&chars_of(s))
}

fn trim(s: &str, m: Margin) -> String {
    string_of(trim_chars(&chars_of(s), m))
}

#[test]
fn characters_go_both_ways() {
    for s in ["", "a", "naïve — ß", "tab\there", "日本"] {
        assert_eq!(chars_of(s), s.chars().collect::<Vec<char>>());
        assert_eq!(string_of(&chars_of(s)), s);
    }
}

#[test]
fn texts_are_compared_by_their_characters() {
    assert!(same_text("", ""));
    assert!(same_text("abc", "abc"));
    assert!(!same_text("abc", "abd"));
    assert!(!same_text("abc", "ab"));
    assert!(is_text(&chars_of("é"), "é"));
    assert!(!is_text(&chars_of("e"), "é"));
}

#[test]
fn prefixes_and_suffixes_are_taken_off() {
    let s = chars_of("Name=Files");
    assert_eq!(strip_prefix(&s, "Name=").map(string_of), Some("Files".to_string()));
    assert_eq!(strip_prefix(&s, "").map(string_of), Some("Name=Files".to_string()));
    assert!(strip_prefix(&s, "name=").is_none());
    assert!(strip_prefix(&s, "Name=Files and more").is_none());
    let t = chars_of("icon.png");
    assert_eq!(strip_suffix(&t, ".png").map(string_of), Some("icon".to_string()));
    assert!(strip_suffix(&t, ".svg").is_none());
    assert!(strip_suffix(&t, "long icon.png").is_none());
}

#[test]
fn white_space_is_that_of_unicode() {
    let mut code: u32 = 0;
    while code <= 0x10ffff {
        if let Some(c) = char::from_u32(code) {
            assert_eq!(space(c), c.is_whitespace(), "{:?}", c);
        }
        code += 1;
    }
}

#[test]
fn trimming_agrees_with_the_standard_library() {
    for s in ["", " ", " a ", "\t a b\u{3000}\n", "a", "  \u{a0}"] {
        assert_eq!(trim(s, Margin::Space), s.trim());
    }
    assert_eq!(trim("\"\"Papirus\"", Margin::Only('"')), "Papirus");
    assert_eq!(trim("\"\"\"", Margin::Only('"')), "");
}

#[test]
fn every_copy_at_the_end_is_taken_off() {
    for s in ["120px", "120pxpx", "px", "pxp", "", "120"] {
        let got = string_of(trim_end_copies(&chars_of(s), "px"));
        assert_eq!(got, s.trim_end_matches("px"));
    }
}

#[test]
fn splitting_agrees_with_the_standard_library() {
    for s in ["", ".", "a", "a.b", "a..b.", ".a"] {
        let expected: Vec<String> = s.split('.').map(|p| p.to_string()).collect();
        assert_eq!(split(s, '.'), expected);
    }
    assert_eq!(position(&chars_of("a\tb\tc"), '\t'), 1);
    assert_eq!(position(&chars_of("abc"), '\t'), 3);
}

#[test]
fn lines_agree_with_the_standard_library() {
    for s in ["", "\n", "a", "a\n", "a\r\nb", "a\n\nb\n", "\r\n", "a\r", "a\rb\n", "a\r\r\n"] {
        let expected: Vec<String> = s.lines().map(|l| l.to_string()).collect();
        assert_eq!(lines(s), expected, "{:?}", s);
    }
}

#[test]
fn a_copied_list_is_the_same_list() {
    let v = vec!["a".to_string(), "".to_string(), "ü".to_string()];
    assert_eq!(copy_texts(&v), v);
}
