//! The event bus: the commands that are honoured, and the events that are
//! published.
use crate::text::{
    after_prefix, chars_of, lemma_after_prefix_concat, opt_str, opt_text, same_text, strip_prefix,
};
use vstd::prelude::*;
use vstd::string::StrSliceExecFns;

verus! {

// ---- Events -----------------------------------------------------------------

/// This application's id among those on the bus.
pub const APP_ID: &'static str = "box";

/// Published in place of opening a window where the launcher is part of the bar.
pub const EMBEDDED_OPEN_EVENT: &'static str = "bread.box.open_requested";

/// Published after a successful launch.
pub const LAUNCHED_EVENT: &'static str = "bread.box.launched";

/// Published after a command to open the launcher started one.
pub const OPEN_DONE_EVENT: &'static str = "bread.box.open.done";

/// Published after a command to open the launcher could not start one.
pub const OPEN_FAILED_EVENT: &'static str = "bread.box.open.failed";

/// Published after a command to open the launcher was left to the bar.
pub const OPEN_REDIRECTED_EVENT: &'static str = "bread.box.open.redirected";

/// The commands to subscribe to.
pub const COMMAND_PATTERN: &'static str = "bread.command.box.**";

/// An event to publish.
#[derive(Debug)]
pub struct Notice {
    /// The name of the event.
    pub event: String,
    /// The message of an error, which the event carries under `error`. An event
    /// without one carries an empty object.
    pub error: Option<String>,
}

/// The contents of a [`Notice`].
pub struct NoticeText {
    /// The name of the event.
    pub event: Seq<char>,
    /// The message of an error.
    pub error: Option<Seq<char>>,
}

impl View for Notice {
    type V = NoticeText;

    open spec fn view(&self) -> NoticeText {
        NoticeText { event: self.event@, error: opt_text(self.error) }
    }
}

/// The event `event` without an error.
pub open spec fn plain(event: Seq<char>) -> NoticeText {
    NoticeText { event, error: None }
}

fn notice(event: &str) -> (r: Notice)
    ensures
        r@ == plain(event@),
{
    Notice { event: event.to_string(), error: None }
}

// ---- Commands ---------------------------------------------------------------

/// The verb of a command for this application: what follows the namespace of
/// its commands. Other events have none.
pub fn command_verb(event_name: &str) -> (r: Option<&str>)
    ensures
        opt_str(r) == after_prefix(event_name@, "bread.command.box."@),
{
    let name = chars_of(event_name);
    match strip_prefix(name.as_slice(), "bread.command.box.") {
        Some(rest) => {
            let from: usize = name.len() - rest.len();
            let verb = event_name.substring_char(from, name.len());
            proof {
                assert(verb@ =~= rest@);
            }
            Some(verb)
        },
        None => None,
    }
}

/// What an event from the bus asks for.
#[derive(Debug)]
pub enum Command {
    /// Open the launcher.
    Open,
    /// Something that is not known: the verb is ignored, and says so.
    Unrecognized(String),
    /// Nothing: the event is no command for this application.
    NotForUs,
}

/// Whether `c` is what the event `event_name` asks for.
pub open spec fn is_command(c: Command, event_name: Seq<char>) -> bool {
    match after_prefix(event_name, "bread.command.box."@) {
        Some(v) => if v == "open"@ {
            c is Open
        } else {
            c matches Command::Unrecognized(u) && u@ == v
        },
        None => c is NotForUs,
    }
}

/// Reads an event from the bus. Only `open` is honoured.
pub fn handle_command(event_name: &str) -> (r: Command)
    ensures
        is_command(r, event_name@),
{
    match command_verb(event_name) {
        Some(verb) => if same_text(verb, "open") {
            Command::Open
        } else {
            Command::Unrecognized(verb.to_string())
        },
        None => Command::NotForUs,
    }
}

/// What to do on a command to open the launcher.
#[derive(Debug)]
pub enum OpenStep {
    /// Leave it to the bar, and publish this.
    Redirect(Notice),
    /// Start the launcher, and publish how that went.
    Spawn,
}

/// Whether `s` is what to do on a command to open the launcher: where the launcher
/// is part of the bar, nothing is started.
pub open spec fn is_open_step(s: OpenStep, embedded: bool) -> bool {
    match s {
        OpenStep::Redirect(n) => embedded && n@ == plain(OPEN_REDIRECTED_EVENT@),
        OpenStep::Spawn => !embedded,
    }
}

/// Decides on a command to open the launcher; `embedded` tells whether the
/// launcher is part of the bar.
pub fn handle_open(embedded: bool) -> (r: OpenStep)
    ensures
        is_open_step(r, embedded),
{
    if embedded {
        OpenStep::Redirect(notice(OPEN_REDIRECTED_EVENT))
    } else {
        OpenStep::Spawn
    }
}

/// What is published after the launcher was started, or could not be for the
/// reason given.
pub open spec fn open_reply(failure: Option<Seq<char>>) -> NoticeText {
    match failure {
        None => plain(OPEN_DONE_EVENT@),
        Some(e) => NoticeText { event: OPEN_FAILED_EVENT@, error: Some(e) },
    }
}

/// What to publish after the launcher was started, or could not be for the reason
/// given.
pub fn report_open(failure: Option<String>) -> (r: Notice)
    ensures
        r@ == open_reply(opt_text(failure)),
{
    match failure {
        None => notice(OPEN_DONE_EVENT),
        Some(e) => Notice { event: OPEN_FAILED_EVENT.to_string(), error: Some(e) },
    }
}

/// What is published on a command to open the launcher, where `failure` tells how
/// starting it went, if it was started.
pub open spec fn published(s: OpenStep, failure: Option<Seq<char>>) -> NoticeText {
    match s {
        OpenStep::Redirect(n) => n@,
        OpenStep::Spawn => open_reply(failure),
    }
}

// ---- Opening ----------------------------------------------------------------

/// Whether to ask the bar to open its launcher before opening a window: where the
/// launcher is part of the bar, and the run is not there to capture the window.
pub fn asks_bar(screenshot: bool, embedded: bool) -> (r: bool)
    ensures
        r == (!screenshot && embedded),
{
    !screenshot && embedded
}

/// Decides whether the bar is asked to open its launcher: only where the bus can
/// be reached. Where it cannot, a window is opened instead.
pub fn dispatch_embedded_open(reachable: bool) -> (r: Option<Notice>)
    ensures
        match r {
            Some(n) => reachable && n@ == plain(EMBEDDED_OPEN_EVENT@),
            None => !reachable,
        },
{
    if reachable {
        Some(notice(EMBEDDED_OPEN_EVENT))
    } else {
        None
    }
}

/// What a run of the launcher opens.
pub enum Opening {
    /// Its own window.
    Window,
    /// The launcher of the bar, by this event.
    Bar(NoticeText),
}

/// What a run opens: its own window, unless the launcher is part of the bar, the
/// bus can be reached, and the run is not there to capture the window.
pub open spec fn opening(screenshot: bool, embedded: bool, reachable: bool) -> Opening {
    if !screenshot && embedded && reachable {
        Opening::Bar(plain(EMBEDDED_OPEN_EVENT@))
    } else {
        Opening::Window
    }
}

/// Decides what a run opens; `None` stands for its own window.
pub fn open_launcher(screenshot: bool, embedded: bool, reachable: bool) -> (r: Option<Notice>)
    ensures
        match r {
            Some(n) => opening(screenshot, embedded, reachable) == Opening::Bar(n@),
            None => opening(screenshot, embedded, reachable) is Window,
        },
{
    if asks_bar(screenshot, embedded) {
        dispatch_embedded_open(reachable)
    } else {
        None
    }
}

// ---- Laws -------------------------------------------------------------------

/// Whether an event lies in this application's own namespace.
pub open spec fn is_own_event(event: Seq<char>) -> bool {
    after_prefix(event, "bread.box."@) is Some
}

/// Every event that is published lies in the application's own namespace.
pub proof fn law_events_stay_in_namespace()
    ensures
        is_own_event(EMBEDDED_OPEN_EVENT@),
        is_own_event(LAUNCHED_EVENT@),
        is_own_event(OPEN_DONE_EVENT@),
        is_own_event(OPEN_FAILED_EVENT@),
        is_own_event(OPEN_REDIRECTED_EVENT@),
{
    reveal_strlit("bread.box.");
    reveal_strlit("bread.box.open_requested");
    reveal_strlit("bread.box.launched");
    reveal_strlit("bread.box.open.done");
    reveal_strlit("bread.box.open.failed");
    reveal_strlit("bread.box.open.redirected");
    let p = "bread.box."@;
    assert(EMBEDDED_OPEN_EVENT@.take(10) =~= p);
    assert(LAUNCHED_EVENT@.take(10) =~= p);
    assert(OPEN_DONE_EVENT@.take(10) =~= p);
    assert(OPEN_FAILED_EVENT@.take(10) =~= p);
    assert(OPEN_REDIRECTED_EVENT@.take(10) =~= p);
}

/// No event of the application's own namespace is a command for it: publishing
/// one never makes the application act on itself.
pub proof fn law_own_events_are_no_commands(c: Command, event: Seq<char>)
    requires
        is_own_event(event),
        is_command(c, event),
    ensures
        c is NotForUs,
{
    reveal_strlit("bread.box.");
    reveal_strlit("bread.command.box.");
    assert(event.take(10)[6] == "bread.box."@[6]);
    if after_prefix(event, "bread.command.box."@) is Some {
        assert(event.take(18)[6] == "bread.command.box."@[6]);
    }
}

/// A command is read back from its name: the verb that was appended to the
/// namespace is the one that is honoured or ignored.
pub proof fn law_verb_reads_back(verb: Seq<char>)
    ensures
        after_prefix("bread.command.box."@ + verb, "bread.command.box."@) == Some(verb),
{
    lemma_after_prefix_concat("bread.command.box."@, verb);
}

/// What is published on a command to open the launcher is true: that it was
/// started, if and only if it was; that it could not be, if and only if that was
/// tried and failed; and that the command was left to the bar, if and only if it
/// was.
pub proof fn law_open_reports_are_true(s: OpenStep, embedded: bool, failure: Option<Seq<char>>)
    requires
        is_open_step(s, embedded),
    ensures
        published(s, failure).event == OPEN_DONE_EVENT@ <==> s is Spawn && failure is None,
        published(s, failure).event == OPEN_FAILED_EVENT@ <==> s is Spawn && failure is Some,
        published(s, failure).event == OPEN_REDIRECTED_EVENT@ <==> embedded,
        embedded ==> s !is Spawn,
{
    reveal_strlit("bread.box.open.done");
    reveal_strlit("bread.box.open.failed");
    reveal_strlit("bread.box.open.redirected");
    assert(OPEN_DONE_EVENT@[15] == 'd');
    assert(OPEN_FAILED_EVENT@[15] == 'f');
    assert(OPEN_REDIRECTED_EVENT@[15] == 'r');
}

/// Where the bus cannot be reached, a run always opens its own window; so does
/// one that is there to capture it, and one whose launcher is not part of the
/// bar.
pub proof fn law_something_always_opens(screenshot: bool, embedded: bool, reachable: bool)
    ensures
        !reachable || screenshot || !embedded ==> opening(
            screenshot,
            embedded,
            reachable,
        ) is Window,
        opening(screenshot, embedded, reachable) matches Opening::Bar(n) ==> n.event
            == EMBEDDED_OPEN_EVENT@,
{
}

/// Every command is answered: `open` is honoured, any other verb is ignored by
/// name, and what does not start with the namespace of commands is left alone.
pub proof fn law_every_command_is_answered(c: Command, verb: Seq<char>, event: Seq<char>)
    ensures
        is_command(c, "bread.command.box."@ + verb) && verb == "open"@ ==> c is Open,
        is_command(c, "bread.command.box."@ + verb) && verb != "open"@ ==> (
        c matches Command::Unrecognized(u) && u@ == verb),
        is_command(c, event) && !"bread.command.box."@.is_prefix_of(event) ==> c is NotForUs,
{
    let p = "bread.command.box."@;
    lemma_after_prefix_concat(p, verb);
    if p.len() <= event.len() {
        assert(event.take(p.len() as int) =~= event.subrange(0, p.len() as int));
    }
}

/// The bar is asked if and only if the launcher is part of it, the bus can be
/// reached, and the run is not there to capture the window.
pub proof fn law_bar_is_asked_exactly_where_it_can_answer(
    screenshot: bool,
    embedded: bool,
    reachable: bool,
)
    ensures
        opening(screenshot, embedded, reachable) is Bar <==> embedded && reachable && !screenshot,
{
}

/// A failure to start the launcher is published with its message, as it is;
/// nothing else that is published carries one.
pub proof fn law_failures_are_published_with_their_message(error: Seq<char>, n: Notice)
    ensures
        open_reply(Some(error)).error == Some(error),
        open_reply(None).error is None,
        is_open_step(OpenStep::Redirect(n), true) ==> n.error is None,
        opening(false, true, true) matches Opening::Bar(b) ==> b.error is None,
{
}

}
