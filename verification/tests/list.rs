use breadbox::list::LauncherList;
use breadbox::rows::{Effect, Key};

fn entries() -> Vec<(String, String)> {
    [("Calculator", "app::calc"), ("Files", "app::files"), ("Firefox", "app::firefox"), ("Odd", "")]
        .iter()
        .map(|(n, a)| (n.to_string(), a.to_string()))
        .collect()
}

fn launched(e: Effect) -> Option<String> {
    match e {
        Effect::Launch(a) => Some(a),
        _ => None,
    }
}

#[test]
fn a_new_list_shows_everything() {
    let list = LauncherList::new(&entries());
    assert_eq!(list.shown(), &vec![true, true, true, true]);
    assert_eq!(list.selected(), Some(0));
    let empty = LauncherList::new(&vec![]);
    assert_eq!(empty.selected(), None);
    assert!(empty.shown().is_empty());
}

#[test]
fn typing_filters_and_selects_the_first_match() {
    let mut list = LauncherList::new(&entries());
    list.set_query("f");
    assert_eq!(list.shown(), &vec![false, true, true, false]);
    assert_eq!(list.selected(), Some(1));
    list.set_query("zzz");
    assert_eq!(list.selected(), None);
    list.set_query("");
    assert_eq!(list.selected(), Some(0));
}

#[test]
fn enter_launches_a_match() {
    let mut list = LauncherList::new(&entries());
    list.set_query("ffx");
    assert_eq!(launched(list.press(Key::Enter)), Some("app::firefox".to_string()));
    list.set_query("zzz");
    assert!(matches!(list.press(Key::Enter), Effect::Swallow));
}

#[test]
fn the_arrows_move_among_the_rows_shown() {
    let mut list = LauncherList::new(&entries());
    list.set_query("f");
    assert!(matches!(list.press(Key::Down), Effect::Select(2)));
    assert_eq!(list.selected(), Some(2));
    assert!(matches!(list.press(Key::Down), Effect::Swallow));
    assert_eq!(list.selected(), Some(2));
    assert!(matches!(list.press(Key::Up), Effect::Select(1)));
    assert_eq!(launched(list.press(Key::Enter)), Some("app::files".to_string()));
}

#[test]
fn a_hidden_row_cannot_be_selected() {
    let mut list = LauncherList::new(&entries());
    list.set_query("f");
    list.select(Some(0));
    assert_eq!(list.selected(), Some(1));
    list.select(Some(9));
    assert_eq!(list.selected(), Some(1));
    list.select(Some(2));
    assert_eq!(list.selected(), Some(2));
    list.select(None);
    assert_eq!(list.selected(), None);
}

#[test]
fn a_row_may_be_activated() {
    let mut list = LauncherList::new(&entries());
    assert_eq!(launched(list.activate(1)), Some("app::files".to_string()));
    assert!(matches!(list.activate(3), Effect::Swallow));
    assert!(matches!(list.activate(4), Effect::Swallow));
    assert!(matches!(list.press(Key::Escape), Effect::Close));
    assert!(matches!(list.press(Key::Other), Effect::PassOn));
}
