use breadbox::cache::{build_cache, load_entries};
use breadbox::desktop::DesktopApp;
use breadbox::launch::{do_launch, pick_terminal, shell_command, terminal_command, Launch};
use breadbox::search::{Attempt, Search, Step};

fn pick(mut search: Search, there: &[&str]) -> (String, Vec<String>) {
    let mut tried: Vec<String> = Vec::new();
    loop {
        match search.next_step() {
            Step::Done(o) => return (o.expect("a terminal is always chosen"), tried),
            Step::Try(Attempt::Probe(p)) => {
                let ok = there.contains(&p.as_str());
                tried.push(p);
                search.report(ok);
            }
            Step::Try(other) => panic!("{:?}", other),
        }
    }
}

#[test]
fn the_terminal_of_the_environment_is_taken() {
    let (t, tried) = pick(pick_terminal(Some("st"), Some("/usr/bin")), &["/usr/bin/foot"]);
    assert_eq!(t, "st");
    assert!(tried.is_empty());
}

#[test]
fn known_terminals_are_looked_for_in_order() {
    let there = ["/usr/bin/kitty", "/opt/alacritty"];
    let (t, tried) = pick(pick_terminal(None, Some("/opt:/usr/bin")), &there);
    assert_eq!(t, "kitty");
    assert_eq!(tried, vec!["/opt/foot", "/usr/bin/foot", "/opt/kitty", "/usr/bin/kitty"]);
    let (t, _) = pick(pick_terminal(Some(""), Some("/opt:/usr/bin")), &["/opt/ghostty"]);
    assert_eq!(t, "ghostty");
}

#[test]
fn a_terminal_is_always_chosen() {
    let (t, tried) = pick(pick_terminal(None, Some("/a:/b")), &[]);
    assert_eq!(t, "xterm");
    assert_eq!(tried.len(), 12);
    let (t, tried) = pick(pick_terminal(None, None), &[]);
    assert_eq!(t, "xterm");
    assert_eq!(tried, vec!["foot", "kitty", "alacritty", "wezterm", "ghostty", "xterm"]);
}

#[test]
fn actions_are_read_by_their_prefix() {
    assert!(matches!(do_launch("app::firefox"), Launch::Shell(c) if c == "firefox"));
    assert!(matches!(do_launch("term::htop -d 5"), Launch::Terminal(c) if c == "htop -d 5"));
    assert!(matches!(do_launch("app::"), Launch::Shell(c) if c.is_empty()));
    assert!(matches!(do_launch("app::term::x"), Launch::Shell(c) if c == "term::x"));
    assert!(matches!(do_launch("firefox"), Launch::Nothing));
    assert!(matches!(do_launch(""), Launch::Nothing));
}

#[test]
fn a_cached_action_launches() {
    let files = vec![
        (
            "a.desktop".to_string(),
            Some(DesktopApp { name: "A".to_string(), command: "a -b".to_string(), terminal: false }),
        ),
        (
            "t.desktop".to_string(),
            Some(DesktopApp { name: "T".to_string(), command: "top".to_string(), terminal: true }),
        ),
    ];
    let entries = load_entries(&build_cache(&files));
    assert!(matches!(do_launch(&entries[0].1), Launch::Shell(c) if c == "a -b"));
    assert!(matches!(do_launch(&entries[1].1), Launch::Terminal(c) if c == "top"));
}

#[test]
fn commands_run_in_a_shell() {
    assert_eq!(shell_command("a b"), vec!["bash", "-c", "a b"]);
    assert_eq!(terminal_command("foot", "top"), vec!["foot", "-e", "bash", "-c", "top"]);
}
