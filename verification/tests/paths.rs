use breadbox::paths::{
    app_dirs, cache_path, desktop_stem, file_extension, file_name, file_stem, home_dir,
    hyprland_socket, is_desktop_file, join_path, path_components, pid_file, proc_path, same_path,
};
use std::path::Path;

fn text(p: &Path) -> String {
    p.to_str().unwrap().to_string()
}

#[test]
fn joining_agrees_with_the_standard_library() {
    for base in ["", "/", "/a", "/a/", "a", "a//"] {
        for rel in ["", "b", "b/c", "/b", "."] {
            assert_eq!(join_path(base, rel), text(&Path::new(base).join(rel)), "{} {}", base, rel);
        }
    }
}

#[test]
fn a_joined_path_keeps_both_parts() {
    let p = join_path("/usr/share", "icons");
    assert!(p.starts_with("/usr/share") && p.ends_with("icons"));
    assert_eq!(p, "/usr/share/icons");
}

#[test]
fn paths_are_the_same_as_in_the_standard_library() {
    let all = [
        "", ".", "/", "//", "/a", "/a/", "/a/.", "/./a", "a", "./a", "a/.", "a//b", "a/b", "..",
        "a/..", "/..", "./", "././a", "a/./b",
    ];
    for a in all {
        for b in all {
            assert_eq!(same_path(a, b), Path::new(a) == Path::new(b), "{:?} {:?}", a, b);
        }
    }
    assert_eq!(path_components("./a//b/./c/"), vec![".", "a", "b", "c"]);
}

#[test]
fn file_names_agree_with_the_standard_library() {
    for p in [
        "", "/", ".", "..", "/a", "/a/", "a/b.png", "/a/..", "/a/.", "./", "/.png", "a/b.tar.gz",
        "/x/y.", "./..", "//a//b//",
    ] {
        let expected = Path::new(p).file_name().map(|n| n.to_str().unwrap().to_string());
        assert_eq!(file_name(p), expected, "{:?}", p);
    }
}

#[test]
fn stems_and_extensions_agree_with_the_standard_library() {
    for n in ["a", "a.png", ".png", "a.", "a.b.c", "..desktop", "x.desktop", ".a.b", "a..", "..."] {
        let p = Path::new(n);
        assert_eq!(file_stem(n), p.file_stem().unwrap().to_str().unwrap(), "{:?}", n);
        let expected = p.extension().map(|e| e.to_str().unwrap().to_string());
        assert_eq!(file_extension(n), expected, "{:?}", n);
    }
}

#[test]
fn a_name_is_its_stem_and_its_extension() {
    for n in ["org.gnome.Gedit.desktop", "a.b", "x."] {
        let whole = format!("{}.{}", file_stem(n), file_extension(n).unwrap());
        assert_eq!(whole, n);
    }
    assert_eq!(file_extension("plain"), None);
    assert_eq!(file_stem("plain"), "plain");
}

#[test]
fn desktop_files_are_known_by_their_extension() {
    assert!(is_desktop_file("firefox.desktop"));
    assert!(is_desktop_file("..desktop"));
    assert!(!is_desktop_file(".desktop"));
    assert!(!is_desktop_file("desktop"));
    assert!(!is_desktop_file("firefox.desktop.bak"));
    assert!(!is_desktop_file("firefox.Desktop"));
    assert_eq!(desktop_stem(Some("org.gnome.Gedit.desktop")), "org.gnome.Gedit");
    assert_eq!(desktop_stem(None), "");
}

#[test]
fn files_are_kept_where_the_environment_says() {
    assert_eq!(home_dir(Some("/home/me")), "/home/me");
    assert_eq!(home_dir(None), "/tmp");
    assert_eq!(cache_path(Some("/c"), "/home/me"), "/c/breadbox.cache");
    assert_eq!(cache_path(None, "/home/me"), "/home/me/.cache/breadbox.cache");
    assert_eq!(pid_file(Some("/run/user/1000")), "/run/user/1000/breadbox.pid");
    assert_eq!(pid_file(None), "/tmp/breadbox.pid");
    assert_eq!(proc_path(4242), "/proc/4242");
    assert_eq!(hyprland_socket("/run/user/1000", "sig"), "/run/user/1000/hypr/sig/.socket.sock");
    assert_eq!(
        app_dirs("/home/me"),
        vec!["/usr/share/applications", "/home/me/.local/share/applications"]
    );
}
