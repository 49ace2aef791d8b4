use breadbox::startup::{
    cache_step, goes_on, is_rebuild_only, pid_text, recorded_pid, takes_lock, toggle_or_continue,
    CacheStep, Lock, Toggle,
};

#[test]
fn a_recorded_pid_is_read() {
    assert_eq!(recorded_pid(Some("4242")), Some(4242));
    assert_eq!(recorded_pid(Some(" 4242\n")), Some(4242));
    assert_eq!(recorded_pid(Some("+1")), Some(1));
    assert_eq!(recorded_pid(Some("")), None);
    assert_eq!(recorded_pid(Some("-1")), None);
    assert_eq!(recorded_pid(Some("4294967296")), None);
    assert_eq!(recorded_pid(Some("12 34")), None);
    assert_eq!(recorded_pid(None), None);
}

#[test]
fn a_pid_reads_back() {
    for pid in [0u32, 1, 4242, u32::MAX] {
        assert_eq!(recorded_pid(Some(&pid_text(pid))), Some(pid));
    }
    assert_eq!(pid_text(31337), "31337");
}

#[test]
fn a_second_launcher_kills_the_first() {
    let recorded = recorded_pid(Some(&pid_text(77)));
    assert_eq!(toggle_or_continue(recorded, true), Toggle::Kill(77));
    assert_eq!(toggle_or_continue(recorded, false), Toggle::Continue);
    assert_eq!(toggle_or_continue(None, true), Toggle::Continue);
    assert_eq!(toggle_or_continue(None, false), Toggle::Continue);
}

#[test]
fn a_capture_leaves_the_lock_alone() {
    assert!(takes_lock(false));
    assert!(!takes_lock(true));
}

#[test]
fn only_a_killed_launcher_ends_the_run() {
    assert!(goes_on(Lock::NotAsked));
    assert!(goes_on(Lock::Held));
    assert!(goes_on(Lock::Unavailable));
    assert!(!goes_on(Lock::KilledExisting));
}

#[test]
fn a_run_may_only_rebuild() {
    assert!(is_rebuild_only(Some("1")));
    assert!(!is_rebuild_only(Some("true")));
    assert!(!is_rebuild_only(Some("")));
    assert!(!is_rebuild_only(None));
}

#[test]
fn the_cache_is_built_refreshed_or_kept() {
    assert_eq!(cache_step(false, false), CacheStep::Build);
    assert_eq!(cache_step(false, true), CacheStep::Build);
    assert_eq!(cache_step(true, false), CacheStep::Refresh);
    assert_eq!(cache_step(true, true), CacheStep::Keep);
}
