use breadbox::workspace::{get_active_workspace, workspace_name, ACTIVE_WORKSPACE_REQUEST};

#[test]
fn the_name_of_the_workspace_is_read() {
    let answer = "{\"id\": 2, \"name\": \"2\", \"monitor\": \"DP-1\", \"hasfullscreen\": false}";
    assert_eq!(get_active_workspace(answer), Some("2".to_string()));
    assert_eq!(get_active_workspace("{\"name\": \"wörk \\u00e9\"}"), Some("wörk é".to_string()));
    assert_eq!(get_active_workspace("{\"name\": \"a\", \"name\": \"b\"}"), Some("b".to_string()));
    assert_eq!(ACTIVE_WORKSPACE_REQUEST, "j/activeworkspace");
}

#[test]
fn an_answer_without_a_name_has_none() {
    for s in [
        "", "unknown request", "{}", "[]", "\"name\"", "{\"name\": 2}", "{\"name\": null}",
        "{\"Name\": \"x\"}", "{\"name\": \"x\"", "{\"name\": [\"x\"]}",
    ] {
        assert_eq!(get_active_workspace(s), None, "{}", s);
    }
}

#[test]
fn the_name_is_taken_from_the_members() {
    assert_eq!(workspace_name(None), None);
    assert_eq!(workspace_name(Some(vec![])), None);
    let members = vec![
        ("id".to_string(), None),
        ("name".to_string(), Some("3".to_string())),
        ("monitor".to_string(), Some("DP-1".to_string())),
    ];
    assert_eq!(workspace_name(Some(members)), Some("3".to_string()));
    assert_eq!(workspace_name(Some(vec![("name".to_string(), None)])), None);
}
