use breadbox::screenshot::{dispatch, finish, Capture, Cli, ScreenshotRequest};

fn cli(view: Option<&str>, output: Option<&str>) -> Cli<String> {
    Cli {
        screenshot: view.map(|s| s.to_string()),
        output: output.map(|s| s.to_string()),
        width: 1920,
        height: 1080,
    }
}

fn request(view: &str, width: u32, height: u32) -> ScreenshotRequest<String> {
    ScreenshotRequest { view: view.to_string(), output: "/o.png".to_string(), width, height }
}

#[test]
fn a_normal_run_captures_nothing() {
    assert!(cli(None, None).screenshot_request(Ok(())).unwrap().is_none());
    assert!(cli(Some("launcher"), None).screenshot_request(Ok(())).unwrap().is_none());
    assert!(cli(None, Some("/o.png")).screenshot_request(Ok(())).unwrap().is_none());
}

#[test]
fn a_complete_pair_is_a_request() {
    let q = cli(Some("launcher"), Some("/o.png")).screenshot_request(Ok(())).unwrap().unwrap();
    assert_eq!(q.view, "launcher");
    assert_eq!(q.output, "/o.png");
    assert_eq!((q.width, q.height), (1920, 1080));
}

#[test]
fn an_incomplete_pair_is_an_error() {
    let e = cli(Some("launcher"), None).screenshot_request(Err("needs --output".to_string()));
    assert_eq!(e.unwrap_err(), "needs --output");
}

#[test]
fn the_launcher_is_captured_whole() {
    assert!(matches!(dispatch(&request("launcher", 1920, 1080)), Capture::Region(1920, 1080)));
    assert!(matches!(dispatch(&request("launcher", u32::MAX, 0x8000_0000)), Capture::Region(-1, i32::MIN)));
    assert!(matches!(dispatch(&request("launcher", 0x7fff_ffff, 0)), Capture::Region(i32::MAX, 0)));
}

#[test]
fn an_unknown_view_is_reported() {
    match dispatch(&request("bar", 1, 1)) {
        Capture::Unknown(m) => {
            assert_eq!(m, "breadbox: unknown screenshot view 'bar' (known: launcher)")
        }
        other => panic!("{:?}", other),
    }
}

#[test]
fn a_capture_ends_with_an_exit_code() {
    assert_eq!(finish(None), (0, None));
    assert_eq!(
        finish(Some("no display")),
        (1, Some("breadbox: screenshot capture failed: no display".to_string()))
    );
}
