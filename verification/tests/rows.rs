use breadbox::rows::{
    choose_row, filter_rows, handle_key, overlay_activate, overlay_key, select_next,
    select_previous,
    visible_app_count, Effect, Key, OverlayEffect, Row,
};

fn names(v: &[&str]) -> Vec<String> {
    v.iter().map(|s| s.to_string()).collect()
}

#[test]
fn a_query_shows_what_matches_and_selects_the_first() {
    let n = names(&["Calculator", "Files", "Firefox"]);
    assert_eq!(filter_rows("f", &n), (vec![false, true, true], Some(1)));
    assert_eq!(filter_rows("ffx", &n), (vec![false, false, true], Some(2)));
    assert_eq!(filter_rows("zz", &n), (vec![false, false, false], None));
    assert_eq!(filter_rows("x", &vec![]), (vec![], None));
}

#[test]
fn an_empty_query_shows_all() {
    let n = names(&["A", "B"]);
    assert_eq!(filter_rows("", &n), (vec![true, true], Some(0)));
}

#[test]
fn a_longer_query_only_hides() {
    let n = names(&["Files", "Firefox", "Foot"]);
    let (few, _) = filter_rows("fi", &n);
    let (fewer, _) = filter_rows("fir", &n);
    for i in 0..n.len() {
        assert!(!fewer[i] || few[i]);
    }
    assert_eq!(fewer, vec![false, true, false]);
}

#[test]
fn the_arrows_skip_hidden_rows() {
    let shown = vec![true, false, false, true, false];
    assert_eq!(select_next(&shown, Some(0)), Some(3));
    assert_eq!(select_next(&shown, Some(3)), None);
    assert_eq!(select_next(&shown, None), Some(0));
    assert_eq!(select_next(&vec![], None), None);
    assert_eq!(select_previous(&shown, Some(3)), Some(0));
    assert_eq!(select_previous(&shown, Some(0)), None);
    assert_eq!(select_previous(&shown, None), None);
}

#[test]
fn a_selection_outside_the_list_stays() {
    let shown = vec![true, true];
    assert_eq!(select_next(&shown, Some(7)), None);
    assert_eq!(select_next(&shown, Some(usize::MAX)), None);
    assert_eq!(select_previous(&shown, Some(7)), None);
}

#[test]
fn the_arrows_undo_each_other() {
    let shown = vec![true, false, true, true];
    let next = select_next(&shown, Some(0)).unwrap();
    assert_eq!(next, 2);
    assert_eq!(select_previous(&shown, Some(next)), Some(0));
}

#[test]
fn keys_do_what_they_say() {
    let shown = vec![true, true];
    assert!(matches!(handle_key(Key::Escape, &shown, Some(0), Some("app::a")), Effect::Close));
    assert!(matches!(handle_key(Key::Other, &shown, Some(0), Some("app::a")), Effect::PassOn));
    assert!(matches!(handle_key(Key::Down, &shown, Some(0), None), Effect::Select(1)));
    assert!(matches!(handle_key(Key::Down, &shown, Some(1), None), Effect::Swallow));
    assert!(matches!(handle_key(Key::Up, &shown, Some(1), None), Effect::Select(0)));
    assert!(matches!(handle_key(Key::Up, &shown, Some(0), None), Effect::Swallow));
    assert!(matches!(handle_key(Key::Enter, &shown, None, None), Effect::Swallow));
    match handle_key(Key::Enter, &shown, Some(0), Some("app::a")) {
        Effect::Launch(a) => assert_eq!(a, "app::a"),
        other => panic!("{:?}", other),
    }
}

#[test]
fn an_empty_action_does_nothing() {
    assert!(matches!(choose_row(Some("")), Effect::Swallow));
    assert!(matches!(choose_row(None), Effect::Swallow));
    assert!(matches!(choose_row(Some("x")), Effect::Launch(a) if a == "x"));
}

#[test]
fn the_overlay_acts_on_the_same_keys() {
    assert_eq!(overlay_key(Key::Escape, true), OverlayEffect::Close);
    assert_eq!(overlay_key(Key::Enter, true), OverlayEffect::Launch);
    assert_eq!(overlay_key(Key::Enter, false), OverlayEffect::Swallow);
    assert_eq!(overlay_key(Key::Down, false), OverlayEffect::Next);
    assert_eq!(overlay_key(Key::Up, false), OverlayEffect::Previous);
    assert_eq!(overlay_key(Key::Other, true), OverlayEffect::PassOn);
}

#[test]
fn only_an_application_is_launched_by_a_click() {
    assert_eq!(overlay_activate(true), OverlayEffect::Launch);
    assert_eq!(overlay_activate(false), OverlayEffect::Swallow);
}

#[test]
fn only_shown_applications_are_counted() {
    let rows = vec![
        Row { visible: true, is_app: false },
        Row { visible: true, is_app: true },
        Row { visible: false, is_app: true },
        Row { visible: false, is_app: false },
        Row { visible: true, is_app: true },
    ];
    assert_eq!(visible_app_count(&rows), 2);
    assert_eq!(visible_app_count(&vec![]), 0);
}
