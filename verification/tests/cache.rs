use breadbox::cache::{build_cache, cache_valid, load_entries, CACHE_TIMEOUT_SECS};
use breadbox::desktop::{parse_desktop, DesktopApp};

fn app(name: &str, command: &str, terminal: bool) -> Option<DesktopApp> {
    Some(DesktopApp { name: name.to_string(), command: command.to_string(), terminal })
}

fn file(name: &str, app: Option<DesktopApp>) -> (String, Option<DesktopApp>) {
    (name.to_string(), app)
}

fn pair(a: &str, b: &str) -> (String, String) {
    (a.to_string(), b.to_string())
}

#[test]
fn a_cache_lasts_a_day() {
    assert_eq!(CACHE_TIMEOUT_SECS, 24 * 60 * 60);
    let none: Vec<Option<u64>> = vec![None, None];
    assert!(cache_valid(1000, 1000, &none));
    assert!(cache_valid(1000 + 86399, 1000, &none));
    assert!(!cache_valid(1000 + 86400, 1000, &none));
    assert!(!cache_valid(u64::MAX, 0, &none));
}

#[test]
fn a_cache_from_the_future_is_good() {
    assert!(cache_valid(10, 20, &vec![]));
    assert!(cache_valid(0, u64::MAX, &vec![Some(5)]));
}

#[test]
fn a_changed_directory_makes_the_cache_stale() {
    assert!(cache_valid(100, 50, &vec![Some(50), None]));
    assert!(!cache_valid(100, 50, &vec![None, Some(51)]));
}

#[test]
fn the_cache_is_written_in_order() {
    let files = vec![
        file("b.desktop", app("beta", "b", true)),
        file("none.desktop", None),
        file("a.desktop", app("Alpha", "a -x", false)),
    ];
    assert_eq!(build_cache(&files), "Alpha\tapp::a -x\nbeta\tterm::b\n");
    assert_eq!(build_cache(&vec![]), "");
}

#[test]
fn the_users_file_overrides_the_systems() {
    let files = vec![
        file("x.desktop", app("System", "s", false)),
        file("y.desktop", app("Other", "o", false)),
        file("x.desktop", app("User", "u", false)),
    ];
    assert_eq!(build_cache(&files), "Other\tapp::o\nUser\tapp::u\n");
}

#[test]
fn a_concealed_file_overrides_nothing() {
    let files = vec![file("x.desktop", app("System", "s", false)), file("x.desktop", None)];
    assert_eq!(build_cache(&files), "System\tapp::s\n");
}

#[test]
fn two_files_may_describe_the_same_application() {
    let files = vec![file("x.desktop", app("A", "a", false)), file("y.desktop", app("A", "a", false))];
    assert_eq!(build_cache(&files), "A\tapp::a\nA\tapp::a\n");
}

#[test]
fn entries_are_read_from_lines_with_a_tab() {
    assert_eq!(
        load_entries("A\tapp::a\nno tab\n\tapp::x\nB\t\nC\tterm::c\td\n"),
        vec![pair("A", "app::a"), pair("C", "term::c\td")]
    );
    assert!(load_entries("").is_empty());
    assert_eq!(load_entries("A\tapp::a"), vec![pair("A", "app::a")]);
}

#[test]
fn what_is_written_is_read_back() {
    let files = vec![
        file("z.desktop", app("Zed", "zed %", false)),
        file("t.desktop", app("Top", "top", true)),
        file("u.desktop", app("Über", "ü", false)),
    ];
    assert_eq!(
        load_entries(&build_cache(&files)),
        vec![pair("Top", "term::top"), pair("Zed", "app::zed %"), pair("Über", "app::ü")]
    );
}

#[test]
fn desktop_files_read_back() {
    let lines: Vec<String> =
        ["[Desktop Entry]", "Name=Files", "Exec=nautilus %U"].iter().map(|l| l.to_string()).collect();
    let files = vec![file("files.desktop", parse_desktop(&lines))];
    assert_eq!(load_entries(&build_cache(&files)), vec![pair("Files", "app::nautilus")]);
}

#[test]
fn a_tab_in_a_name_ends_it() {
    let files = vec![file("x.desktop", app("A\tB", "x", false))];
    assert_eq!(load_entries(&build_cache(&files)), vec![pair("A", "B\tapp::x")]);
}
