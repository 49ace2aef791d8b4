use breadbox::manifest::{load_manifest, manifest_from, Manifest, SyncRun};

fn pair(a: &str, b: &str) -> (String, String) {
    (a.to_string(), b.to_string())
}

#[test]
fn a_manifest_is_read() {
    let m = load_manifest("{\"firefox\": \"/usr/share/icons/f.png\", \"ü\": \"/x \\u00fc\"}");
    assert_eq!(m.len(), 2);
    assert_eq!(m.get("firefox"), Some("/usr/share/icons/f.png"));
    assert_eq!(m.get("ü"), Some("/x ü"));
    assert_eq!(m.get("other"), None);
}

#[test]
fn of_two_members_with_one_key_the_last_counts() {
    let m = load_manifest("{\"a\": \"1\", \"a\": \"2\"}");
    assert_eq!(m.len(), 1);
    assert_eq!(m.get("a"), Some("2"));
}

#[test]
fn what_is_no_manifest_is_an_empty_one() {
    for s in ["", "{", "[]", "null", "\"x\"", "{\"a\": 1}", "{\"a\": \"b\"} x", "{\"a\": null}"] {
        assert_eq!(load_manifest(s).len(), 0, "{}", s);
    }
    assert_eq!(load_manifest("{}").len(), 0);
}

#[test]
fn a_manifest_is_made_of_what_was_parsed() {
    assert_eq!(manifest_from(None).len(), 0);
    let m = manifest_from(Some(vec![pair("a", "1"), pair("b", "2"), pair("a", "3")]));
    assert_eq!(m.len(), 2);
    assert_eq!(m.get("a"), Some("3"));
    assert_eq!(m.into_entries(), vec![pair("a", "3"), pair("b", "2")]);
}

#[test]
fn a_manifest_is_written_indented() {
    let mut m = Manifest::new();
    assert_eq!(m.to_json(), "{}");
    m.insert("b", "/b");
    m.insert("a\"q", "/a");
    assert_eq!(m.to_json(), "{\n  \"a\\\"q\": \"/a\",\n  \"b\": \"/b\"\n}");
}

#[test]
fn a_manifest_reads_back() {
    let mut m = Manifest::new();
    let odd = "line\nbreak\t\u{1}\u{2028}ü\u{10ffff}\\\"";
    m.insert("plain", "/p");
    m.insert(odd, "value of odd");
    m.insert("", odd);
    let back = load_manifest(&m.to_json());
    assert_eq!(back.len(), 3);
    assert_eq!(back.get("plain"), Some("/p"));
    assert_eq!(back.get(odd), Some("value of odd"));
    assert_eq!(back.get(""), Some(odd));
}

#[test]
fn every_distinct_icon_is_resolved_once() {
    let mut run = SyncRun::new();
    assert!(run.offer("firefox"));
    assert!(!run.offer("firefox"));
    assert!(!run.offer(""));
    assert!(run.offer("gedit"));
    assert!(run.offer("firefox.png"));
    run.record("firefox", Some("/f.png"));
    run.record("gedit", None);
    run.record("firefox.png", Some("/f.png"));
    assert!(!run.offer("gedit"));
    let m = run.finish();
    assert_eq!(m.len(), 2);
    assert_eq!(m.get("firefox"), Some("/f.png"));
    assert_eq!(m.get("gedit"), None);
    assert_eq!(m.get("firefox.png"), Some("/f.png"));
}

#[test]
fn a_run_without_applications_finds_nothing() {
    assert_eq!(SyncRun::new().finish().to_json(), "{}");
}

#[test]
fn the_first_file_to_name_an_icon_resolves_it() {
    let files = [("edit", "org.a.Edit"), ("", "none"), ("edit", "org.b.Edit"), ("view", "view"), ("view", "org.c.View")];
    let resolved = |stem: &str| if stem.contains('.') { Some(format!("/c/{}.png", stem)) } else { None };
    let mut run = SyncRun::new();
    for (icon, stem) in files {
        if run.offer(icon) {
            run.record(icon, resolved(stem).as_deref());
        }
    }
    let m = run.finish();
    assert_eq!(m.get("edit"), Some("/c/org.a.Edit.png"));
    assert_eq!(m.get("view"), None);
    assert_eq!(m.len(), 1);
}
