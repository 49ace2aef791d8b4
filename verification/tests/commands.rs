use breadbox::commands::{
    asks_bar, command_verb, dispatch_embedded_open, handle_command, handle_open, open_launcher,
    report_open, Command, OpenStep, APP_ID, COMMAND_PATTERN, EMBEDDED_OPEN_EVENT, LAUNCHED_EVENT,
    OPEN_DONE_EVENT, OPEN_FAILED_EVENT, OPEN_REDIRECTED_EVENT,
};

#[test]
fn command_verb_strips_box_prefix() {
    assert_eq!(command_verb("bread.command.box.open"), Some("open"));
    assert_eq!(command_verb("bread.command.box.launch"), Some("launch"));
    assert_eq!(command_verb("bread.command.clip.clear"), None);
    assert_eq!(command_verb("bread.box.launched"), None);
}

#[test]
fn a_verb_may_be_anything() {
    assert_eq!(command_verb("bread.command.box."), Some(""));
    assert_eq!(command_verb("bread.command.box.öffnen.jetzt"), Some("öffnen.jetzt"));
    assert_eq!(command_verb("bread.command.box"), None);
    assert_eq!(command_verb(""), None);
}

#[test]
fn only_open_is_honoured() {
    assert!(matches!(handle_command("bread.command.box.open"), Command::Open));
    assert!(matches!(handle_command("bread.command.box.close"), Command::Unrecognized(v) if v == "close"));
    assert!(matches!(handle_command("bread.command.box.open.now"), Command::Unrecognized(v) if v == "open.now"));
    assert!(matches!(handle_command("bread.command.bar.open"), Command::NotForUs));
}

#[test]
fn own_events_are_no_commands() {
    for e in [
        EMBEDDED_OPEN_EVENT, LAUNCHED_EVENT, OPEN_DONE_EVENT, OPEN_FAILED_EVENT,
        OPEN_REDIRECTED_EVENT,
    ] {
        assert!(e.starts_with("bread.box."));
        assert!(matches!(handle_command(e), Command::NotForUs));
    }
    assert_eq!(APP_ID, "box");
    assert_eq!(COMMAND_PATTERN, "bread.command.box.**");
}

#[test]
fn an_embedded_launcher_is_never_started() {
    match handle_open(true) {
        OpenStep::Redirect(n) => {
            assert_eq!(n.event, "bread.box.open.redirected");
            assert_eq!(n.error, None);
        }
        OpenStep::Spawn => panic!("started"),
    }
    assert!(matches!(handle_open(false), OpenStep::Spawn));
}

#[test]
fn starting_is_reported() {
    let done = report_open(None);
    assert_eq!((done.event.as_str(), done.error), ("bread.box.open.done", None));
    let failed = report_open(Some("no such file".to_string()));
    assert_eq!(failed.event, "bread.box.open.failed");
    assert_eq!(failed.error, Some("no such file".to_string()));
}

#[test]
fn the_bar_is_asked_only_where_it_can_answer() {
    assert!(asks_bar(false, true));
    assert!(!asks_bar(true, true));
    assert!(!asks_bar(false, false));
    assert_eq!(dispatch_embedded_open(true).unwrap().event, "bread.box.open_requested");
    assert!(dispatch_embedded_open(false).is_none());
}

#[test]
fn something_always_opens() {
    assert_eq!(open_launcher(false, true, true).unwrap().event, EMBEDDED_OPEN_EVENT);
    assert!(open_launcher(false, true, false).is_none());
    assert!(open_launcher(true, true, true).is_none());
    assert!(open_launcher(false, false, true).is_none());
}
