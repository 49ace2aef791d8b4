use breadbox::numbers::{decimal_text, parse_i32, parse_u32};
use breadbox::text::chars_of;

fn u(s: &str) -> Option<u32> {
    parse_u32(&chars_of(s))
}

fn i(s: &str) -> Option<i32> {
    parse_i32(&chars_of(s))
}

#[test]
fn numbers_are_written_in_decimal() {
    for n in [0u64, 7, 9, 10, 86400, 4_294_967_295, u64::MAX] {
        assert_eq!(decimal_text(n), n.to_string());
    }
}

#[test]
fn a_written_number_reads_back() {
    for n in [0u32, 1, 10, 4242, u32::MAX] {
        assert_eq!(u(&decimal_text(n as u64)), Some(n));
    }
}

#[test]
fn different_numbers_are_written_differently() {
    assert_ne!(decimal_text(10), decimal_text(100));
    assert_ne!(decimal_text(1), decimal_text(11));
}

#[test]
fn unsigned_numbers_agree_with_the_standard_library() {
    for s in [
        "", "+", "-", "0", "+7", "-7", "-0", "007", "4294967295", "4294967296",
        "99999999999999999999999999", "1 ", "1a", "٣", "++1", "0000000000000000000000001",
    ] {
        assert_eq!(u(s), s.parse::<u32>().ok(), "{:?}", s);
    }
}

#[test]
fn signed_numbers_agree_with_the_standard_library() {
    for s in [
        "", "+", "-", "0", "-0", "+7", "-7", "2147483647", "2147483648", "-2147483648",
        "-2147483649", "--1", "+-1", "12px", "16%",
    ] {
        assert_eq!(i(s), s.parse::<i32>().ok(), "{:?}", s);
    }
}
