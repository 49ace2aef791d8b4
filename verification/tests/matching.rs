use breadbox::matching::{first_or, fold, fold_text, fuzzy_matches, stands_in_order};
use breadbox::text::chars_of;

#[test]
fn an_empty_pattern_matches() {
    assert!(fuzzy_matches("", ""));
    assert!(fuzzy_matches("", "Firefox"));
}

#[test]
fn a_pattern_matches_in_order() {
    assert!(fuzzy_matches("ffx", "Firefox"));
    assert!(fuzzy_matches("firefox", "Firefox"));
    assert!(fuzzy_matches("fx", "Fox"));
    assert!(!fuzzy_matches("xf", "Firefox"));
    assert!(!fuzzy_matches("fff", "Firefox"));
    assert!(!fuzzy_matches("a", ""));
}

#[test]
fn a_name_matches_itself() {
    for n in ["Files", "Ünïcode İ", "ǅ", "a b\tc"] {
        assert!(fuzzy_matches(n, n));
    }
}

#[test]
fn typing_more_only_narrows() {
    assert!(fuzzy_matches("fi", "Firefox"));
    assert!(fuzzy_matches("fir", "Firefox"));
    assert!(!fuzzy_matches("firz", "Firefox"));
    assert!(!fuzzy_matches("firzx", "Firefox"));
}

#[test]
fn case_does_not_matter() {
    assert!(fuzzy_matches("FIRE", "firefox"));
    assert!(fuzzy_matches("fire", "FIREFOX"));
    assert!(fuzzy_matches("école", "ÉCOLE"));
    assert!(fuzzy_matches("ÉCOLE", "école"));
    assert!(fuzzy_matches("жук", "ЖУК"));
}

#[test]
fn characters_fold_to_the_first_of_their_lower_case() {
    assert_eq!(fold('A'), 'a');
    assert_eq!(fold('Z'), 'z');
    assert_eq!(fold('@'), '@');
    assert_eq!(fold('['), '[');
    assert_eq!(fold('É'), 'é');
    assert_eq!(fold('İ'), 'i');
    assert_eq!(fold('ß'), 'ß');
    let mut code: u32 = 0;
    while code <= 0x10ffff {
        if let Some(c) = char::from_u32(code) {
            assert_eq!(fold(c), c.to_lowercase().next().unwrap_or(c));
        }
        code += 1;
    }
    assert_eq!(fold_text("ÄB c"), chars_of("äb c"));
}

#[test]
fn an_empty_mapping_keeps_the_character() {
    assert_eq!(first_or('x', &[]), 'x');
    assert_eq!(first_or('x', &['y', 'z']), 'y');
}

#[test]
fn characters_stand_in_order() {
    assert!(stands_in_order(&chars_of("ace"), &chars_of("abcde")));
    assert!(!stands_in_order(&chars_of("aec"), &chars_of("abcde")));
    assert!(!stands_in_order(&chars_of("A"), &chars_of("a")));
    assert!(stands_in_order(&[], &[]));
}
