use breadbox::icons::{
    are_reverse_dns, canonical_icon_name, current_icon_theme, find_system_icon, icon_search_dirs,
    icon_theme_files, looks_like_reverse_dns, may_stand, reads_body, resolve_icon, system_icon_paths,
    try_download, MAX_ICON_BYTES,
};
use breadbox::search::{Attempt, Search, Step};

fn run(mut search: Search, there: &[&str]) -> (Option<String>, Vec<String>) {
    let mut tried: Vec<String> = Vec::new();
    loop {
        match search.next_step() {
            Step::Done(o) => return (o, tried),
            Step::Try(Attempt::Probe(p)) => {
                let ok = there.contains(&p.as_str());
                tried.push(p);
                search.report(ok);
            }
            Step::Try(Attempt::Fetch { url, dest }) => {
                let ok = there.contains(&url.as_str());
                tried.push(format!("{} -> {}", url, dest));
                search.report(ok);
            }
        }
    }
}

fn dirs() -> Vec<String> {
    vec!["/usr/share/icons".to_string()]
}

const URL: &str = "https://dl.flathub.org/repo/appstream/x86_64/icons/128x128/org.gnome.Gedit.png";

#[test]
fn the_theme_is_the_first_that_is_named() {
    let file = |s: &str| Some(s.to_string());
    assert_eq!(current_icon_theme(&vec![None, None]), "hicolor");
    assert_eq!(
        current_icon_theme(&vec![
            file("[Settings]\ngtk-icon-theme-name= \"Papirus\" \n"),
            file("gtk-icon-theme-name=Adwaita"),
        ]),
        "Papirus"
    );
    assert_eq!(
        current_icon_theme(&vec![None, file("gtk-icon-theme-name=Adwaita\r\n")]),
        "Adwaita"
    );
    assert_eq!(
        current_icon_theme(&vec![
            file("gtk-icon-theme-name=\"\"\n gtk-icon-theme-name=No\ngtk-icon-theme-name=Yes"),
            file("gtk-icon-theme-name=Other"),
        ]),
        "Yes"
    );
    assert_eq!(current_icon_theme(&vec![file(""), file("gtk-icon-theme-name=")]), "hicolor");
}

#[test]
fn the_settings_files_are_those_of_gtk() {
    assert_eq!(
        icon_theme_files("/home/me"),
        vec!["/home/me/.config/gtk-4.0/settings.ini", "/home/me/.config/gtk-3.0/settings.ini"]
    );
}

#[test]
fn no_directory_is_searched_twice() {
    assert_eq!(
        icon_search_dirs(None, "/home/me"),
        vec!["/home/me/.local/share/icons", "/usr/share/icons"]
    );
    assert_eq!(
        icon_search_dirs(Some("/data"), "/home/me"),
        vec!["/data/icons", "/home/me/.local/share/icons", "/usr/share/icons"]
    );
    assert_eq!(
        icon_search_dirs(Some("/usr/share/"), "/home/me"),
        vec!["/usr/share/icons", "/home/me/.local/share/icons"]
    );
    assert_eq!(
        icon_search_dirs(Some("/home/me//.local/share"), "/home/me"),
        vec!["/home/me//.local/share/icons", "/usr/share/icons"]
    );
}

#[test]
fn sizes_count_in_order() {
    let paths = system_icon_paths("x", "hicolor", &dirs());
    assert_eq!(
        paths,
        vec![
            "/usr/share/icons/hicolor/64x64/apps/x.png",
            "/usr/share/icons/hicolor/apps/64x64/x.png",
            "/usr/share/icons/hicolor/48x48/apps/x.png",
            "/usr/share/icons/hicolor/apps/48x48/x.png",
            "/usr/share/icons/hicolor/128x128/apps/x.png",
            "/usr/share/icons/hicolor/apps/128x128/x.png",
            "/usr/share/icons/hicolor/32x32/apps/x.png",
            "/usr/share/icons/hicolor/apps/32x32/x.png",
            "/usr/share/icons/hicolor/256x256/apps/x.png",
            "/usr/share/icons/hicolor/apps/256x256/x.png",
            "/usr/share/icons/hicolor/scalable/apps/x.svg",
            "/usr/share/icons/hicolor/apps/scalable/x.svg",
            "/usr/share/pixmaps/x.png",
            "/usr/share/pixmaps/x.svg",
            "/usr/share/pixmaps/x.xpm",
        ]
    );
}

#[test]
fn the_chosen_theme_comes_before_hicolor() {
    let two = vec!["/a".to_string(), "/b".to_string()];
    let paths = system_icon_paths("x", "Papirus", &two);
    assert_eq!(paths.len(), 2 * 2 * 12 + 3);
    assert_eq!(paths[0], "/a/Papirus/64x64/apps/x.png");
    assert_eq!(paths[12], "/a/hicolor/64x64/apps/x.png");
    assert_eq!(paths[24], "/b/Papirus/64x64/apps/x.png");
    assert_eq!(paths[36], "/b/hicolor/64x64/apps/x.png");
}

#[test]
fn a_system_icon_is_found_where_it_counts_first() {
    let there = ["/usr/share/icons/hicolor/apps/48x48/x.png", "/usr/share/pixmaps/x.png"];
    let (found, tried) = run(find_system_icon("x", "hicolor", &dirs()), &there);
    assert_eq!(found, Some(there[0].to_string()));
    assert_eq!(tried.len(), 4);
    assert_eq!(run(find_system_icon("y", "hicolor", &dirs()), &there).0, None);
}

#[test]
fn the_extension_of_an_icon_does_not_matter() {
    assert_eq!(canonical_icon_name("x"), "x");
    assert_eq!(canonical_icon_name("x.png"), "x");
    assert_eq!(canonical_icon_name("x.svg"), "x");
    assert_eq!(canonical_icon_name("x.xpm"), "x");
    assert_eq!(canonical_icon_name("x.png.svg"), "x.png");
    assert_eq!(canonical_icon_name("org.gnome.Gedit"), "org.gnome.Gedit");
    assert_eq!(canonical_icon_name(".png"), "");
    assert_eq!(canonical_icon_name("dir/x.png"), "dir/x");
    assert_eq!(canonical_icon_name(""), "");
}

#[test]
fn an_absolute_icon_is_named_by_its_file() {
    assert_eq!(canonical_icon_name("/opt/app/logo.png"), "logo");
    assert_eq!(canonical_icon_name("/opt/app/logo.jpeg"), "logo");
    assert_eq!(canonical_icon_name("/opt/.png"), ".png");
    assert_eq!(canonical_icon_name("/opt/app/"), "app");
    assert_eq!(canonical_icon_name("/"), "/");
    assert_eq!(canonical_icon_name("/opt/.."), "/opt/..");
}

#[test]
fn reverse_dns_names_are_recognized() {
    assert!(looks_like_reverse_dns("org.gnome.Gedit"));
    assert!(looks_like_reverse_dns("com.github.App"));
    assert!(looks_like_reverse_dns("io.some-where.my_app.Sub2"));
    assert!(!looks_like_reverse_dns("firefox"));
    assert!(!looks_like_reverse_dns("gnome.Gedit"));
    assert!(!looks_like_reverse_dns("o.gnome.Gedit"));
    assert!(!looks_like_reverse_dns("org..Gedit"));
    assert!(!looks_like_reverse_dns("org.gnome."));
    assert!(!looks_like_reverse_dns("org.gnome.Ge dit"));
    assert!(!looks_like_reverse_dns("org.gnome.Ge/dit"));
    assert!(!looks_like_reverse_dns(""));
}

#[test]
fn segments_may_hold_any_letter() {
    assert!(looks_like_reverse_dns("de.münchen.App"));
    assert!(looks_like_reverse_dns("é.a.b"));
    assert!(!looks_like_reverse_dns("org.gnome.G—dit"));
    assert!(!looks_like_reverse_dns("org.gnome.\u{a0}"));
    let mut code: u32 = 0;
    while code <= 0x2fff {
        if let Some(c) = char::from_u32(code) {
            if c != '.' {
                let stem = format!("org.gnome.{}", c);
                let expected = c.is_alphanumeric() || c == '-' || c == '_';
                assert_eq!(looks_like_reverse_dns(&stem), expected, "{:?}", c);
            }
        }
        code += 1;
    }
}

#[test]
fn a_reverse_dns_name_is_decided_by_its_parts() {
    let parts = |v: &[&str]| v.iter().map(|s| s.to_string()).collect::<Vec<String>>();
    assert!(are_reverse_dns(&parts(&["org", "a", "b"]), &vec![true, true, true]));
    assert!(!are_reverse_dns(&parts(&["org", "a", "b"]), &vec![true, false, true]));
    assert!(!are_reverse_dns(&parts(&["org", "a"]), &vec![true, true]));
    assert!(!are_reverse_dns(&parts(&["o", "a", "b"]), &vec![true, true, true]));
    assert!(are_reverse_dns(&parts(&["é", "a", "b"]), &vec![true, true, true]));
    assert!(may_stand('a', false) && may_stand('9', false) && may_stand('-', false));
    assert!(!may_stand('/', true) && !may_stand('.', true));
    assert!(may_stand('é', true) && !may_stand('é', false));
}

#[test]
fn a_reverse_dns_name_holds_no_slash() {
    for s in ["org.gnome/x.y", "../../etc.a.b", "a/b.c.d"] {
        assert!(!looks_like_reverse_dns(s));
    }
}

#[test]
fn only_png_files_are_kept() {
    let png: Vec<u8> = vec![0x89, b'P', b'N', b'G', 0x0d, 0x0a, 0x1a, 0x0a, 1, 2];
    assert!(try_download(200, Some(&png)));
    assert!(try_download(200, Some(&png[0..8].to_vec())));
    assert!(!try_download(404, Some(&png)));
    assert!(!try_download(204, Some(&png)));
    assert!(!try_download(200, None));
    assert!(!try_download(200, Some(&vec![])));
    assert!(!try_download(200, Some(&png[0..7].to_vec())));
    assert!(!try_download(200, Some(&b"<html>error</html>".to_vec())));
    for i in 0..8 {
        let mut broken = png.clone();
        broken[i] ^= 1;
        assert!(!try_download(200, Some(&broken)));
    }
    assert!(reads_body(200));
    assert!(!reads_body(204) && !reads_body(301) && !reads_body(404) && !reads_body(0));
    assert_eq!(MAX_ICON_BYTES, 2 * 1024 * 1024);
}

#[test]
fn a_file_that_exists_is_its_own_icon() {
    let s = resolve_icon("/opt/logo.png", "x", "hicolor", &dirs(), "/c/logo.png", "/c/x.png");
    assert_eq!(run(s, &["/opt/logo.png"]), (Some("/opt/logo.png".to_string()), vec!["/opt/logo.png".to_string()]));
}

#[test]
fn a_local_icon_wins() {
    let resolve = || {
        resolve_icon("gedit", "org.gnome.Gedit", "hicolor", &dirs(), "/c/gedit.png", "/c/org.gnome.Gedit.png")
    };
    let (found, tried) = run(resolve(), &["/usr/share/pixmaps/gedit.xpm", "/c/gedit.png", URL]);
    assert_eq!(found, Some("/usr/share/pixmaps/gedit.xpm".to_string()));
    assert_eq!(tried.len(), 15);
    let (found, tried) = run(resolve(), &["/c/gedit.png", URL]);
    assert_eq!(found, Some("/c/gedit.png".to_string()));
    assert_eq!(tried.len(), 16);
}

#[test]
fn icons_are_downloaded_from_flathub() {
    let s = resolve_icon(
        "gedit", "org.gnome.Gedit", "hicolor", &dirs(), "/c/gedit.png", "/c/org.gnome.Gedit.png",
    );
    let (found, tried) = run(s, &[URL]);
    assert_eq!(found, Some("/c/org.gnome.Gedit.png".to_string()));
    assert_eq!(tried[16], format!("{} -> /c/org.gnome.Gedit.png", URL));
}

#[test]
fn nothing_is_downloaded_for_other_names() {
    let s = resolve_icon("gedit", "gedit", "hicolor", &dirs(), "/c/gedit.png", "/c/gedit.png");
    let (found, tried) = run(s, &[]);
    assert_eq!(found, None);
    assert_eq!(tried.len(), 15 + 1 + 15);
    assert!(tried.iter().all(|t| !t.contains("https")));
}

#[test]
fn the_generic_icon_comes_last() {
    let generic = "/usr/share/icons/hicolor/scalable/apps/application-x-executable.svg";
    let s = resolve_icon(
        "gedit", "org.gnome.Gedit", "hicolor", &dirs(), "/c/gedit.png", "/c/org.gnome.Gedit.png",
    );
    let (found, tried) = run(s, &[generic]);
    assert_eq!(found, Some(generic.to_string()));
    assert_eq!(tried.len(), 15 + 1 + 1 + 11);
}

#[test]
fn an_icon_without_a_name_is_the_generic_one() {
    let s = resolve_icon(".png", "org.gnome.Gedit", "hicolor", &dirs(), "/c/.png", "/c/d.png");
    let (found, tried) = run(s, &[URL, "/usr/share/pixmaps/application-x-executable.png"]);
    assert_eq!(found, Some("/usr/share/pixmaps/application-x-executable.png".to_string()));
    assert_eq!(tried.len(), 13);
}
