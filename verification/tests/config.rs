use breadbox::config::{Config, ConfigSource, Context};

fn context(name: &str, priority: &[&str]) -> Context {
    Context {
        name: name.to_string(),
        priority: priority.iter().map(|p| p.to_string()).collect(),
    }
}

fn config() -> Config {
    Config {
        contexts: vec![
            context("default", &["firefox", "code", "obsidian", "kitty"]),
            context("2", &["slack", "discord"]),
            context("2", &["never"]),
            context("default", &["never"]),
        ],
    }
}

#[test]
fn a_workspace_has_its_own_context() {
    let c = config();
    assert_eq!(c.context_for("2").unwrap().name, "2");
    assert_eq!(c.priority_for("2"), vec!["slack", "discord"]);
}

#[test]
fn the_default_is_the_fallback() {
    let c = config();
    assert_eq!(c.context_for("5").unwrap().name, "default");
    assert_eq!(c.priority_for("5"), vec!["firefox", "code", "obsidian", "kitty"]);
    assert_eq!(c.priority_for(""), c.priority_for("default"));
}

#[test]
fn without_a_context_nothing_comes_first() {
    let c = Config { contexts: vec![context("2", &["slack"])] };
    assert!(c.context_for("3").is_none());
    assert!(c.priority_for("3").is_empty());
    assert!(Config::default().context_for("default").is_none());
}

#[test]
fn a_missing_file_is_no_error() {
    let (c, message) = Config::load(ConfigSource::Missing);
    assert!(c.contexts.is_empty());
    assert_eq!(message, None);
}

#[test]
fn an_unreadable_file_is_reported() {
    let (c, message) = Config::load(ConfigSource::Unreadable {
        path: "/c/config.toml".to_string(),
        error: "permission denied".to_string(),
    });
    assert!(c.contexts.is_empty());
    assert_eq!(
        message,
        Some("breadbox: could not read /c/config.toml: permission denied".to_string())
    );
}

#[test]
fn a_malformed_file_is_reported() {
    let (c, message) = Config::load(ConfigSource::Malformed {
        path: "/c/config.toml".to_string(),
        error: "expected `=`".to_string(),
    });
    assert!(c.contexts.is_empty());
    assert_eq!(
        message,
        Some("breadbox: parse error in /c/config.toml: expected `=`".to_string())
    );
}

#[test]
fn a_parsed_file_is_the_configuration() {
    let (c, message) = Config::load(ConfigSource::Parsed(config()));
    assert_eq!(c.contexts.len(), 4);
    assert_eq!(message, None);
}
