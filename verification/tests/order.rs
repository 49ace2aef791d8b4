use breadbox::order::{comes_first, insert_in_order};

#[test]
fn texts_are_ordered_as_the_standard_library_orders_them() {
    let all = ["", "A", "a", "ab", "a\tb", "b", "é", "\u{ffff}", "\u{10000}", "z"];
    for a in all {
        for b in all {
            assert_eq!(comes_first(a, b), a <= b, "{:?} {:?}", a, b);
        }
    }
}

#[test]
fn the_order_is_total() {
    for (a, b) in [("x", "y"), ("x", "x"), ("", "x")] {
        assert!(comes_first(a, b) || comes_first(b, a));
        assert_eq!(comes_first(a, b) && comes_first(b, a), a == b);
    }
}

#[test]
fn a_list_stays_in_order() {
    let mut list: Vec<String> = Vec::new();
    let words = ["pear", "apple", "Zebra", "apple", "", "äpfel"];
    for w in words {
        insert_in_order(&mut list, w.to_string());
    }
    let mut expected: Vec<String> = words.iter().map(|w| w.to_string()).collect();
    expected.sort();
    assert_eq!(list, expected);
}
