//! Launching: from the action of an entry to the command to run.
use crate::cache::action_of;
use crate::desktop::AppText;
use crate::paths::{join_path, joined, set_or};
use crate::search::{
    candidate_texts, is_first_success, law_found_is_confirmed, law_nothing_found_only_if_all_fail,
    law_search_finds_the_first, law_search_goes_on, Attempt, AttemptText, Candidate, CandidateText,
    Search, SearchState,
};
use crate::text::{
    after_prefix, chars_of, lemma_after_prefix_concat, opt_str, split_at_char, split_chars,
    string_of, strip_prefix, texts,
};
use vstd::prelude::*;

verus! {

// ---- The terminal -----------------------------------------------------------

/// The terminals to look for, in order of preference.
pub open spec fn known_terminals() -> Seq<Seq<char>> {
    seq!["foot"@, "kitty"@, "alacritty"@, "wezterm"@, "ghostty"@, "xterm"@]
}

/// The candidate that looks for `terminal` in the directory `dir`.
pub open spec fn terminal_in(dir: Seq<char>, terminal: Seq<char>) -> CandidateText {
    CandidateText { attempt: AttemptText::Probe(joined(dir, terminal)), value: terminal }
}

/// The candidates that look for `terminal` in each of `dirs`.
pub open spec fn terminal_in_dirs(dirs: Seq<Seq<char>>, terminal: Seq<char>) -> Seq<CandidateText> {
    dirs.map_values(|d: Seq<char>| terminal_in(d, terminal))
}

/// The candidates that look for each of `terminals` in each of `dirs`.
pub open spec fn terminals_in_dirs(
    dirs: Seq<Seq<char>>,
    terminals: Seq<Seq<char>>,
) -> Seq<CandidateText>
    decreases terminals.len(),
{
    if terminals.len() == 0 {
        seq![]
    } else {
        terminals_in_dirs(dirs, terminals.drop_last()) + terminal_in_dirs(dirs, terminals.last())
    }
}

/// How the terminal is chosen: the one that `$TERMINAL` names, else the first of
/// the known ones that stands in a directory of `$PATH`, else `xterm`.
pub open spec fn terminal_search(
    terminal: Option<Seq<char>>,
    path: Option<Seq<char>>,
) -> SearchState {
    match terminal {
        Some(t) => if t.len() > 0 {
            SearchState::start(seq![], Some(t))
        } else {
            path_search(path)
        },
        None => path_search(path),
    }
}

/// The search for a known terminal through the directories of `$PATH`.
pub open spec fn path_search(path: Option<Seq<char>>) -> SearchState {
    SearchState::start(
        terminals_in_dirs(split_at_char(set_or(path, seq![]), ':'), known_terminals()),
        Some("xterm"@),
    )
}

fn push_terminal(out: &mut Vec<Candidate>, dirs: &Vec<String>, terminal: &str)
    ensures
        candidate_texts(final(out)@) == candidate_texts(old(out)@) + terminal_in_dirs(
            texts(dirs@),
            terminal@,
        ),
{
    let ghost before = candidate_texts(out@);
    let ghost all = texts(dirs@);
    let mut i: usize = 0;
    proof {
        assert(before + terminal_in_dirs(all.take(0), terminal@) =~= before);
    }
    while i < dirs.len()
        invariant
            i <= dirs.len(),
            all == texts(dirs@),
            candidate_texts(out@) == before + terminal_in_dirs(all.take(i as int), terminal@),
        decreases dirs.len() - i,
    {
        let ghost held = out@;
        let c = Candidate {
            attempt: Attempt::Probe(join_path(dirs[i].as_str(), terminal)),
            value: terminal.to_string(),
        };
        out.push(c);
        proof {
            assert(c@ == terminal_in(dirs@[i as int]@, terminal@));
            assert(candidate_texts(out@) =~= candidate_texts(held).push(c@));
            assert(terminal_in_dirs(all.take(i + 1), terminal@) =~= terminal_in_dirs(
                all.take(i as int),
                terminal@,
            ).push(c@));
            assert(candidate_texts(held).push(c@) =~= before + terminal_in_dirs(
                all.take(i + 1),
                terminal@,
            ));
        }
        i = i + 1;
    }
    proof {
        assert(all.take(i as int) =~= all);
    }
}

/// Starts the choice of a terminal, from `$TERMINAL` and `$PATH`.
pub fn pick_terminal(terminal: Option<&str>, path: Option<&str>) -> (r: Search)
    ensures
        r.wf(),
        r@ == terminal_search(opt_str(terminal), opt_str(path)),
{
    let mut out: Vec<Candidate> = Vec::new();
    proof {
        assert(candidate_texts(out@) =~= seq![]);
    }
    if let Some(t) = terminal {
        if !t.is_empty() {
            return Search::new(out, Some(t.to_string()));
        }
    }
    let list = match path {
        Some(p) => chars_of(p),
        None => Vec::new(),
    };
    proof {
        assert(list@ =~= set_or(opt_str(path), seq![]));
    }
    let dirs = split_chars(list.as_slice(), ':');
    let known: [&str; 6] = ["foot", "kitty", "alacritty", "wezterm", "ghostty", "xterm"];
    let ghost wanted = known_terminals();
    let mut i: usize = 0;
    proof {
        assert(wanted.take(0) =~= seq![]);
    }
    while i < 6
        invariant
            i <= 6,
            wanted == known_terminals(),
            known@.len() == 6,
            forall|k: int| 0 <= k < 6 ==> (#[trigger] known@[k])@ == wanted[k],
            candidate_texts(out@) == terminals_in_dirs(texts(dirs@), wanted.take(i as int)),
        decreases 6 - i,
    {
        proof {
            let upto = wanted.take(i + 1);
            assert(upto.drop_last() =~= wanted.take(i as int));
            assert(upto.last() == known@[i as int]@);
        }
        push_terminal(&mut out, &dirs, known[i]);
        i = i + 1;
    }
    proof {
        assert(wanted.take(6) =~= wanted);
    }
    Search::new(out, Some("xterm".to_string()))
}

// ---- Actions ----------------------------------------------------------------

/// What an action asks for.
#[derive(Debug)]
pub enum Launch {
    /// Run the command line in a shell.
    Shell(String),
    /// Run the command line in a shell in a terminal.
    Terminal(String),
    /// Nothing: the action is of no known kind.
    Nothing,
}

/// The contents of a [`Launch`].
pub enum LaunchText {
    /// Run the command line in a shell.
    Shell(Seq<char>),
    /// Run the command line in a shell in a terminal.
    Terminal(Seq<char>),
    /// Nothing.
    Nothing,
}

impl View for Launch {
    type V = LaunchText;

    open spec fn view(&self) -> LaunchText {
        match self {
            Launch::Shell(c) => LaunchText::Shell(c@),
            Launch::Terminal(c) => LaunchText::Terminal(c@),
            Launch::Nothing => LaunchText::Nothing,
        }
    }
}

/// What an action asks for, by its prefix.
pub open spec fn launch_of(action: Seq<char>) -> LaunchText {
    match (after_prefix(action, "app::"@), after_prefix(action, "term::"@)) {
        (Some(c), _) => LaunchText::Shell(c),
        (None, Some(c)) => LaunchText::Terminal(c),
        (None, None) => LaunchText::Nothing,
    }
}

/// Reads an action.
pub fn do_launch(action: &str) -> (r: Launch)
    ensures
        r@ == launch_of(action@),
{
    let s = chars_of(action);
    if let Some(c) = strip_prefix(s.as_slice(), "app::") {
        return Launch::Shell(string_of(c));
    }
    if let Some(c) = strip_prefix(s.as_slice(), "term::") {
        return Launch::Terminal(string_of(c));
    }
    Launch::Nothing
}

/// The program and the arguments that run `command` in a shell.
pub fn shell_command(command: &str) -> (r: Vec<String>)
    ensures
        texts(r@) == seq!["bash"@, "-c"@, command@],
{
    let mut out: Vec<String> = Vec::new();
    out.push("bash".to_string());
    out.push("-c".to_string());
    out.push(command.to_string());
    proof {
        assert(texts(out@) =~= seq!["bash"@, "-c"@, command@]);
    }
    out
}

/// The program and the arguments that run `command` in a shell in `terminal`.
pub fn terminal_command(terminal: &str, command: &str) -> (r: Vec<String>)
    ensures
        texts(r@) == seq![terminal@, "-e"@, "bash"@, "-c"@, command@],
{
    let mut out: Vec<String> = Vec::new();
    out.push(terminal.to_string());
    out.push("-e".to_string());
    out.push("bash".to_string());
    out.push("-c".to_string());
    out.push(command.to_string());
    proof {
        assert(texts(out@) =~= seq![terminal@, "-e"@, "bash"@, "-c"@, command@]);
    }
    out
}

// ---- Laws -------------------------------------------------------------------

/// The action that the cache holds for an application launches its command line,
/// in a terminal if and only if the application asks for one.
pub proof fn law_cached_action_launches(a: AppText)
    ensures
        launch_of(action_of(a)) == (if a.terminal {
            LaunchText::Terminal(a.command)
        } else {
            LaunchText::Shell(a.command)
        }),
{
    reveal_strlit("app::");
    reveal_strlit("term::");
    if a.terminal {
        lemma_after_prefix_concat("term::"@, a.command);
        let s = action_of(a);
        assert(s[0] == 't');
        assert(s.take(5)[0] == s[0]);
    } else {
        lemma_after_prefix_concat("app::"@, a.command);
    }
}

/// The choice of a terminal never fails, whatever is found where.
pub proof fn law_terminal_is_always_chosen(
    terminal: Option<Seq<char>>,
    path: Option<Seq<char>>,
    succeeds: spec_fn(AttemptText) -> bool,
)
    ensures
        terminal_search(terminal, path).run(succeeds) is Some,
{
    let s = terminal_search(terminal, path);
    law_search_finds_the_first(s.candidates, s.fallback, succeeds);
    if exists|i: int| is_first_success(s.candidates, succeeds, i) {
        let i = choose|i: int| is_first_success(s.candidates, succeeds, i);
        assert(is_first_success(s.candidates, succeeds, i));
    }
}

/// A terminal that the environment names is taken without looking; an empty name
/// counts like none.
pub proof fn law_named_terminal_is_taken(
    terminal: Seq<char>,
    path: Option<Seq<char>>,
    succeeds: spec_fn(AttemptText) -> bool,
)
    ensures
        terminal.len() > 0 ==> terminal_search(Some(terminal), path).run(succeeds) == Some(
            terminal,
        ),
        terminal_search(Some(seq![]), path).run(succeeds) == terminal_search(None, path).run(
            succeeds,
        ),
{
}

proof fn lemma_terminal_found(
    dirs: Seq<Seq<char>>,
    terminal: Seq<char>,
    succeeds: spec_fn(AttemptText) -> bool,
)
    ensures
        SearchState::start(terminal_in_dirs(dirs, terminal), None).run(succeeds) == (if exists|
            d: int,
        |
            0 <= d < dirs.len() && succeeds(
                AttemptText::Probe(joined(#[trigger] dirs[d], terminal)),
            ) {
            Some(terminal)
        } else {
            None
        }),
{
    let all = terminal_in_dirs(dirs, terminal);
    law_nothing_found_only_if_all_fail(all, succeeds);
    law_found_is_confirmed(all, succeeds);
    assert(forall|d: int|
        0 <= d < dirs.len() ==> #[trigger] all[d] == terminal_in(dirs[d], terminal));
    if exists|d: int|
        0 <= d < dirs.len() && succeeds(AttemptText::Probe(joined(#[trigger] dirs[d], terminal))) {
        let d = choose|d: int|
            0 <= d < dirs.len() && succeeds(
                AttemptText::Probe(joined(#[trigger] dirs[d], terminal)),
            );
        assert(succeeds(all[d].attempt));
        let v = SearchState::start(all, None).run(succeeds)->0;
        let i = choose|i: int| #[trigger] is_first_success(all, succeeds, i) && all[i].value == v;
        assert(all[i] == terminal_in(dirs[i], terminal));
    } else {
        assert forall|k: int| 0 <= k < all.len() implies !succeeds(
            (#[trigger] all[k]).attempt,
        ) by {
            assert(!succeeds(AttemptText::Probe(joined(dirs[k], terminal))));
        }
    }
}

proof fn lemma_terminals_found(
    dirs: Seq<Seq<char>>,
    terminals: Seq<Seq<char>>,
    succeeds: spec_fn(AttemptText) -> bool,
    i: int,
)
    requires
        0 <= i <= terminals.len(),
        forall|j: int, d: int|
            0 <= j < i && 0 <= d < dirs.len() ==> !succeeds(
                AttemptText::Probe(joined(#[trigger] dirs[d], #[trigger] terminals[j])),
            ),
        i < terminals.len() ==> exists|d: int|
            0 <= d < dirs.len() && succeeds(
                AttemptText::Probe(joined(#[trigger] dirs[d], terminals[i])),
            ),
    ensures
        SearchState::start(terminals_in_dirs(dirs, terminals), None).run(succeeds) == (if i
            < terminals.len() {
            Some(terminals[i])
        } else {
            None
        }),
    decreases terminals.len(),
{
    if terminals.len() == 0 {
        law_nothing_found_only_if_all_fail(terminals_in_dirs(dirs, terminals), succeeds);
    } else {
        let earlier = terminals.drop_last();
        let last = terminals.last();
        assert(forall|j: int| 0 <= j < earlier.len() ==> #[trigger] earlier[j] == terminals[j]);
        let m = if i < earlier.len() {
            i
        } else {
            earlier.len() as int
        };
        lemma_terminals_found(dirs, earlier, succeeds, m);
        lemma_terminal_found(dirs, last, succeeds);
        law_search_goes_on(
            terminals_in_dirs(dirs, earlier),
            terminal_in_dirs(dirs, last),
            None,
            succeeds,
        );
        assert(terminals[terminals.len() - 1] == last);
    }
}

/// Without a terminal in the environment, the first in the order foot, kitty,
/// alacritty, wezterm, ghostty, xterm that stands in any directory of the path is
/// chosen, and xterm where none does.
pub proof fn law_first_known_terminal_is_chosen(
    path: Seq<char>,
    succeeds: spec_fn(AttemptText) -> bool,
    i: int,
)
    requires
        ({
            let known = seq!["foot"@, "kitty"@, "alacritty"@, "wezterm"@, "ghostty"@, "xterm"@];
            let dirs = split_at_char(path, ':');
            &&& 0 <= i <= 6
            &&& forall|j: int, d: int|
                0 <= j < i && 0 <= d < dirs.len() ==> !succeeds(
                    AttemptText::Probe(joined(#[trigger] dirs[d], #[trigger] known[j])),
                )
            &&& i < 6 ==> exists|d: int|
                0 <= d < dirs.len() && succeeds(
                    AttemptText::Probe(joined(#[trigger] dirs[d], known[i])),
                )
        }),
    ensures
        terminal_search(None, Some(path)).run(succeeds) == Some(
            if i < 6 {
                seq!["foot"@, "kitty"@, "alacritty"@, "wezterm"@, "ghostty"@, "xterm"@][i]
            } else {
                "xterm"@
            },
        ),
        terminal_search(None, None) == terminal_search(None, Some(seq![])),
{
    let known = seq!["foot"@, "kitty"@, "alacritty"@, "wezterm"@, "ghostty"@, "xterm"@];
    let dirs = split_at_char(path, ':');
    assert(known =~= known_terminals());
    lemma_terminals_found(dirs, known, succeeds, i);
    let all = terminals_in_dirs(dirs, known);
    law_search_goes_on(all, seq![], Some("xterm"@), succeeds);
    assert(all + Seq::<CandidateText>::empty() =~= all);
    law_search_finds_the_first(seq![], Some("xterm"@), succeeds);
    assert(forall|i: int| !is_first_success(seq![], succeeds, i));
}

/// An action is read by its prefix, whatever follows; one without a known prefix
/// asks for nothing.
pub proof fn law_actions_are_read_by_their_prefix(command: Seq<char>)
    ensures
        launch_of("app::"@ + command) == LaunchText::Shell(command),
        launch_of("term::"@ + command) == LaunchText::Terminal(command),
        !"app::"@.is_prefix_of(command) && !"term::"@.is_prefix_of(command) ==> launch_of(command)
            == LaunchText::Nothing,
{
    law_cached_action_launches(AppText { name: seq![], command, terminal: true });
    law_cached_action_launches(AppText { name: seq![], command, terminal: false });
    let (a, t) = ("app::"@, "term::"@);
    if a.len() <= command.len() {
        assert(command.take(a.len() as int) =~= command.subrange(0, a.len() as int));
    }
    if t.len() <= command.len() {
        assert(command.take(t.len() as int) =~= command.subrange(0, t.len() as int));
    }
}

}
