//! Capturing the launcher: the options of the command line that ask for it.
use crate::text::same_text;
use vstd::prelude::*;
use vstd::string::StringExecFns;

verus! {

/// The options of the command line. `P` is the type of a file's path.
#[derive(Debug)]
pub struct Cli<P> {
    /// The view to capture.
    pub screenshot: Option<String>,
    /// Where to write the capture.
    pub output: Option<P>,
    /// The width of the capture.
    pub width: u32,
    /// The height of the capture.
    pub height: u32,
}

/// A view to capture.
#[derive(Debug, Clone)]
pub struct ScreenshotRequest<P> {
    /// The view.
    pub view: String,
    /// Where to write the capture.
    pub output: P,
    /// The width of the capture.
    pub width: u32,
    /// The height of the capture.
    pub height: u32,
}

impl<P: Clone> Cli<P> {
    /// What the options ask for: nothing for a normal run. `pair` is what came of
    /// checking that a view and a file are given together or not at all; where
    /// they are not, its error is the result.
    pub fn screenshot_request(&self, pair: Result<(), String>) -> (r: Result<
        Option<ScreenshotRequest<P>>,
        String,
    >)
        ensures
            match r {
                Err(e) => pair == Err::<(), String>(e),
                Ok(Some(q)) => pair is Ok && self.screenshot is Some && self.output is Some
                    && q.view@ == self.screenshot->0@ && cloned(self.output->0, q.output)
                    && q.width == self.width && q.height == self.height,
                Ok(None) => pair is Ok && (self.screenshot is None || self.output is None),
            },
    {
        if let Err(e) = pair {
            return Err(e);
        }
        match (&self.screenshot, &self.output) {
            (Some(view), Some(output)) => Ok(
                Some(
                    ScreenshotRequest {
                        view: view.clone(),
                        output: output.clone(),
                        width: self.width,
                        height: self.height,
                    },
                ),
            ),
            _ => Ok(None),
        }
    }
}

/// What a request asks for.
#[derive(Debug)]
pub enum Capture {
    /// The region of this width and height at the origin.
    Region(i32, i32),
    /// A view that does not exist, and what to say about it.
    Unknown(String),
}

/// The signed number with the same 32 bits as `n`.
pub open spec fn as_signed(n: u32) -> int {
    if n < 0x8000_0000 {
        n as int
    } else {
        n - 0x1_0000_0000
    }
}

fn signed(n: u32) -> (r: i32)
    ensures
        r == as_signed(n),
{
    if n < 0x8000_0000 {
        n as i32
    } else {
        (n as i64 - 0x1_0000_0000) as i32
    }
}

/// What is said about a view that does not exist.
pub open spec fn unknown_view(view: Seq<char>) -> Seq<char> {
    "breadbox: unknown screenshot view '"@ + view + "' (known: launcher)"@
}

/// Whether `c` is what a request for `view` asks for.
pub open spec fn is_capture(c: Capture, view: Seq<char>, width: u32, height: u32) -> bool {
    if view == "launcher"@ {
        c matches Capture::Region(w, h) && w == as_signed(width) && h == as_signed(height)
    } else {
        c matches Capture::Unknown(m) && m@ == unknown_view(view)
    }
}

/// Reads a request. The only view is the launcher.
pub fn dispatch<P>(req: &ScreenshotRequest<P>) -> (r: Capture)
    ensures
        is_capture(r, req.view@, req.width, req.height),
{
    if same_text(req.view.as_str(), "launcher") {
        Capture::Region(signed(req.width), signed(req.height))
    } else {
        let message = "breadbox: unknown screenshot view '".to_string().concat(
            req.view.as_str(),
        ).concat("' (known: launcher)");
        Capture::Unknown(message)
    }
}

/// The exit code of a capture, and what to say where it failed.
pub fn finish(failure: Option<&str>) -> (r: (i32, Option<String>))
    ensures
        match failure {
            None => r.0 == 0 && r.1 is None,
            Some(e) => r.0 == 1 && (r.1 matches Some(m) && m@
                == "breadbox: screenshot capture failed: "@ + e@),
        },
{
    match failure {
        None => (0, None),
        Some(e) => (1, Some("breadbox: screenshot capture failed: ".to_string().concat(e))),
    }
}

/// A size goes to the capture bit by bit: it is the same number up to the largest
/// signed one, and beyond that differs from it by two to the thirty-second.
pub proof fn law_sizes_keep_their_bits(n: u32)
    ensures
        i32::MIN <= as_signed(n) <= i32::MAX,
        as_signed(n) == n || as_signed(n) + 0x1_0000_0000 == n,
        n <= 0x7fff_ffff ==> as_signed(n) == n,
{
}

/// Only the view `launcher` is captured; a request for any other is answered by
/// its name.
pub proof fn law_only_the_launcher_is_captured(
    c: Capture,
    view: Seq<char>,
    width: u32,
    height: u32,
)
    requires
        is_capture(c, view, width, height),
    ensures
        c is Region <==> view == "launcher"@,
        c matches Capture::Unknown(m) ==> m@ == "breadbox: unknown screenshot view '"@ + view
            + "' (known: launcher)"@,
        width <= 0x7fff_ffff && height <= 0x7fff_ffff ==> (c matches Capture::Region(w, h) ==> w
            == width && h == height),
{
}

}
