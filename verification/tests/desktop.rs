use breadbox::desktop::{parse_desktop, strip_exec_codes, DesktopApp};

fn parse(text: &str) -> Option<DesktopApp> {
    let lines: Vec<String> = text.lines().map(|l| l.to_string()).collect();
    parse_desktop(&lines)
}

fn parts(app: Option<DesktopApp>) -> Option<(String, String, bool)> {
    app.map(|a| (a.name, a.command, a.terminal))
}

fn some(name: &str, command: &str, terminal: bool) -> Option<(String, String, bool)> {
    Some((name.to_string(), command.to_string(), terminal))
}

#[test]
fn field_codes_are_removed() {
    assert_eq!(strip_exec_codes("firefox %u"), "firefox ");
    assert_eq!(strip_exec_codes("a %F b %i"), "a  b ");
    assert_eq!(strip_exec_codes("%f"), "");
}

#[test]
fn two_percent_signs_stand_for_one() {
    assert_eq!(strip_exec_codes("echo 100%%"), "echo 100%");
    assert_eq!(strip_exec_codes("%%f"), "%f");
    assert_eq!(strip_exec_codes("%%%f"), "%");
}

#[test]
fn other_percent_signs_stay() {
    assert_eq!(strip_exec_codes("50% off"), "50% off");
    assert_eq!(strip_exec_codes("end%"), "end%");
    assert_eq!(strip_exec_codes("%1"), "%1");
    assert_eq!(strip_exec_codes("%é"), "%é");
}

#[test]
fn a_command_without_percent_signs_is_unchanged() {
    for s in ["", "kitty", "sh -c 'echo ünï'"] {
        assert_eq!(strip_exec_codes(s), s);
    }
}

#[test]
fn an_entry_is_read() {
    let app = parse(
        "# comment\n[Desktop Entry]\nType=Application\nName=Files\nExec=nautilus %U\nTerminal=false\n",
    );
    assert_eq!(parts(app), some("Files", "nautilus", false));
}

#[test]
fn an_entry_needs_no_type() {
    assert_eq!(parts(parse("[Desktop Entry]\nName=A\nExec=a")), some("A", "a", false));
}

#[test]
fn a_terminal_is_asked_for_by_true_or_one() {
    assert_eq!(parts(parse("[Desktop Entry]\nName=A\nExec=a\nTerminal=true")), some("A", "a", true));
    assert_eq!(parts(parse("[Desktop Entry]\nName=A\nExec=a\nTerminal=1")), some("A", "a", true));
    assert_eq!(parts(parse("[Desktop Entry]\nName=A\nExec=a\nTerminal=True")), some("A", "a", false));
    assert_eq!(
        parts(parse("[Desktop Entry]\nName=A\nExec=a\nTerminal=true\nTerminal=false")),
        some("A", "a", false)
    );
}

#[test]
fn the_first_name_and_command_count() {
    assert_eq!(
        parts(parse("[Desktop Entry]\nName=A\nName=B\nExec=a\nExec=b\nName[de]=C")),
        some("A", "a", false)
    );
}

#[test]
fn only_the_entry_group_counts() {
    let text = "Name=Stray\n[Desktop Entry]\nName=A\nExec=a\n[Desktop Action new]\nName=New\nExec=new\nHidden=true\n";
    assert_eq!(parts(parse(text)), some("A", "a", false));
    assert!(parse("Name=A\nExec=a").is_none());
    assert!(parse("[Other]\nName=A\nExec=a").is_none());
}

#[test]
fn a_group_may_be_taken_up_again() {
    let text = "[Desktop Entry]\nName=A\n[Other]\nExec=no\n[Desktop Entry]\nExec=yes";
    assert_eq!(parts(parse(text)), some("A", "yes", false));
}

#[test]
fn white_space_is_trimmed() {
    let text = "  [Desktop Entry]\t\n\u{a0}Name=  A b  \n Exec= a %u \n";
    assert_eq!(parts(parse(text)), some("A b", "a", false));
}

#[test]
fn concealed_entries_are_not_offered() {
    assert!(parse("[Desktop Entry]\nName=A\nExec=a\nNoDisplay=true").is_none());
    assert!(parse("[Desktop Entry]\nName=A\nExec=a\nHidden=true").is_none());
    assert_eq!(
        parts(parse("[Desktop Entry]\nName=A\nExec=a\nNoDisplay=true\nNoDisplay=false")),
        some("A", "a", false)
    );
    assert_eq!(parts(parse("[Desktop Entry]\nName=A\nExec=a\nHidden=1")), some("A", "a", false));
}

#[test]
fn other_types_are_not_offered() {
    assert!(parse("[Desktop Entry]\nType=Link\nName=A\nExec=a").is_none());
    assert!(parse("[Desktop Entry]\nType=Link\nType=Application\nName=A\nExec=a").is_none());
}

#[test]
fn an_entry_needs_a_name_and_a_command() {
    assert!(parse("[Desktop Entry]\nName=A").is_none());
    assert!(parse("[Desktop Entry]\nExec=a").is_none());
    assert!(parse("[Desktop Entry]\nName= \nExec=a").is_none());
    assert!(parse("[Desktop Entry]\nName=A\nExec= %f ").is_none());
    assert!(parse("").is_none());
}

#[test]
fn nothing_is_brought_in() {
    let app = parse("[Desktop Entry]\nName=Plain\nExec=plain %%").unwrap();
    assert!(!app.name.contains('\n') && !app.command.contains('\n'));
    assert_eq!(app.command, "plain %");
}
