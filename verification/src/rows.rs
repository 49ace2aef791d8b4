//! The rows of the launcher's list: which are shown, which is selected, and what
//! the keys do.
use crate::matching::{
    fuzzy_matches, is_match, law_empty_pattern_matches, law_longer_pattern_narrows,
    law_part_of_a_name_finds_it,
};
use crate::text::{opt_str, texts};
use vstd::prelude::*;

verus! {

// ---- Filtering --------------------------------------------------------------

/// Whether `i` is the first row that is shown.
pub open spec fn is_first_shown(shown: Seq<bool>, i: int) -> bool {
    0 <= i < shown.len() && shown[i] && forall|k: int| 0 <= k < i ==> !#[trigger] shown[k]
}

/// Whether no row is shown.
pub open spec fn none_shown(shown: Seq<bool>) -> bool {
    forall|k: int| 0 <= k < shown.len() ==> !#[trigger] shown[k]
}

/// Which rows a query shows: those whose names match it.
pub open spec fn shown_by(query: Seq<char>, names: Seq<Seq<char>>) -> Seq<bool> {
    names.map_values(|n: Seq<char>| is_match(query, n))
}

/// Filters the rows by a query: says of each row whether it is shown, and which
/// is selected, namely the first that is shown.
pub fn filter_rows(query: &str, names: &Vec<String>) -> (r: (Vec<bool>, Option<usize>))
    ensures
        r.0@ == shown_by(query@, texts(names@)),
        match r.1 {
            Some(i) => is_first_shown(r.0@, i as int),
            None => none_shown(r.0@),
        },
{
    let mut shown: Vec<bool> = Vec::new();
    let mut first: Option<usize> = None;
    let mut i: usize = 0;
    while i < names.len()
        invariant
            i <= names.len(),
            shown@.len() == i,
            forall|k: int| 0 <= k < i ==> #[trigger] shown@[k] == is_match(query@, names@[k]@),
            match first {
                Some(f) => is_first_shown(shown@, f as int),
                None => none_shown(shown@),
            },
        decreases names.len() - i,
    {
        let vis = fuzzy_matches(query, names[i].as_str());
        let ghost before = shown@;
        shown.push(vis);
        proof {
            assert(forall|k: int| 0 <= k < i ==> #[trigger] shown@[k] == before[k]);
        }
        if vis && first.is_none() {
            first = Some(i);
        }
        i = i + 1;
    }
    proof {
        assert(shown@ =~= shown_by(query@, texts(names@)));
    }
    (shown, first)
}

// ---- Moving -----------------------------------------------------------------

/// Whether `i` is the row that the arrow down selects: the next one shown below
/// the selected row, or the first one shown where none is selected.
pub open spec fn is_next_shown(shown: Seq<bool>, selected: Option<usize>, i: int) -> bool {
    &&& 0 <= i < shown.len()
    &&& shown[i]
    &&& selected matches Some(s) ==> s < i
    &&& forall|k: int| 0 <= k < i && (selected matches Some(s) ==> s < k) ==> !#[trigger] shown[k]
}

/// Whether `i` is the row that the arrow up selects: the next one shown above
/// the selected row.
pub open spec fn is_previous_shown(shown: Seq<bool>, selected: Option<usize>, i: int) -> bool {
    &&& 0 <= i < shown.len()
    &&& shown[i]
    &&& selected matches Some(s) && i < s <= shown.len() && forall|k: int|
        i < k < s ==> !#[trigger] shown[k]
}

/// The row to select on the arrow down; none where the selection stays.
pub fn select_next(shown: &Vec<bool>, selected: Option<usize>) -> (r: Option<usize>)
    ensures
        match r {
            Some(i) => is_next_shown(shown@, selected, i as int),
            None => forall|i: int| !is_next_shown(shown@, selected, i),
        },
{
    let count: usize = shown.len();
    let mut i: usize = 0;
    if let Some(s) = selected {
        if s >= count {
            return None;
        }
        i = s + 1;
    }
    let ghost from = i;
    while i < count
        invariant
            from <= i <= count,
            count == shown@.len(),
            selected matches Some(s) ==> from == s + 1,
            selected is None ==> from == 0,
            forall|k: int| from <= k < i ==> !#[trigger] shown@[k],
        decreases count - i,
    {
        if shown[i] {
            return Some(i);
        }
        i = i + 1;
    }
    None
}

/// The row to select on the arrow up; none where the selection stays.
pub fn select_previous(shown: &Vec<bool>, selected: Option<usize>) -> (r: Option<usize>)
    ensures
        match r {
            Some(i) => is_previous_shown(shown@, selected, i as int),
            None => forall|i: int| !is_previous_shown(shown@, selected, i),
        },
{
    let top: usize = match selected {
        Some(s) => s,
        None => {
            return None;
        },
    };
    if top > shown.len() {
        return None;
    }
    let mut i: usize = top;
    while i > 0
        invariant
            i <= top <= shown.len(),
            selected == Some(top),
            forall|k: int| i <= k < top ==> !#[trigger] shown@[k],
        decreases i,
    {
        i = i - 1;
        if shown[i] {
            return Some(i);
        }
    }
    None
}

// ---- Keys -------------------------------------------------------------------

/// The keys that the launcher acts on.
#[derive(Debug, Clone, Copy, PartialEq, Eq, Structural)]
pub enum Key {
    /// Escape.
    Escape,
    /// Enter, on the main block or the keypad.
    Enter,
    /// The arrow down.
    Down,
    /// The arrow up.
    Up,
    /// Any other key.
    Other,
}

/// What the launcher does on a key.
#[derive(Debug)]
pub enum Effect {
    /// Close the window.
    Close,
    /// Perform the action, then close the window.
    Launch(String),
    /// Select the row.
    Select(usize),
    /// Nothing, and the key goes no further.
    Swallow,
    /// Nothing, and the key goes on to the widgets.
    PassOn,
}

/// Whether `e` is what a chosen row with the given action does: an empty action
/// does nothing.
pub open spec fn is_choice(e: Effect, action: Option<Seq<char>>) -> bool {
    match action {
        Some(a) => if a.len() > 0 {
            e matches Effect::Launch(l) && l@ == a
        } else {
            e is Swallow
        },
        None => e is Swallow,
    }
}

/// Whether `e` is what a key does, where `action` is the action of the selected
/// row.
pub open spec fn is_key_effect(
    e: Effect,
    key: Key,
    shown: Seq<bool>,
    selected: Option<usize>,
    action: Option<Seq<char>>,
) -> bool {
    match key {
        Key::Escape => e is Close,
        Key::Enter => is_choice(e, action),
        Key::Down => match e {
            Effect::Select(i) => is_next_shown(shown, selected, i as int),
            _ => e is Swallow && forall|i: int| !is_next_shown(shown, selected, i),
        },
        Key::Up => match e {
            Effect::Select(i) => is_previous_shown(shown, selected, i as int),
            _ => e is Swallow && forall|i: int| !is_previous_shown(shown, selected, i),
        },
        Key::Other => e is PassOn,
    }
}

/// What choosing a row with the given action does.
pub fn choose_row(action: Option<&str>) -> (r: Effect)
    ensures
        is_choice(r, opt_str(action)),
{
    match action {
        Some(a) => if a.is_empty() {
            Effect::Swallow
        } else {
            Effect::Launch(a.to_string())
        },
        None => Effect::Swallow,
    }
}

/// What a key does, where `action` is the action of the selected row.
pub fn handle_key(
    key: Key,
    shown: &Vec<bool>,
    selected: Option<usize>,
    action: Option<&str>,
) -> (r: Effect)
    ensures
        is_key_effect(r, key, shown@, selected, opt_str(action)),
{
    match key {
        Key::Escape => Effect::Close,
        Key::Enter => choose_row(action),
        Key::Down => match select_next(shown, selected) {
            Some(i) => Effect::Select(i),
            None => Effect::Swallow,
        },
        Key::Up => match select_previous(shown, selected) {
            Some(i) => Effect::Select(i),
            None => Effect::Swallow,
        },
        Key::Other => Effect::PassOn,
    }
}

/// What the overlay does on a key. Its list keeps the selection itself.
#[derive(Debug, Clone, Copy, PartialEq, Eq, Structural)]
pub enum OverlayEffect {
    /// Close the window.
    Close,
    /// Launch the selected application, then close the window.
    Launch,
    /// Select the next row.
    Next,
    /// Select the previous row.
    Previous,
    /// Nothing, and the key goes no further.
    Swallow,
    /// Nothing, and the key goes on to the widgets.
    PassOn,
}

/// What a key does in the overlay; `selected` tells whether an application is
/// selected.
pub fn overlay_key(key: Key, selected: bool) -> (r: OverlayEffect)
    ensures
        r == (match key {
            Key::Escape => OverlayEffect::Close,
            Key::Enter => if selected {
                OverlayEffect::Launch
            } else {
                OverlayEffect::Swallow
            },
            Key::Down => OverlayEffect::Next,
            Key::Up => OverlayEffect::Previous,
            Key::Other => OverlayEffect::PassOn,
        }),
{
    match key {
        Key::Escape => OverlayEffect::Close,
        Key::Enter => if selected {
            OverlayEffect::Launch
        } else {
            OverlayEffect::Swallow
        },
        Key::Down => OverlayEffect::Next,
        Key::Up => OverlayEffect::Previous,
        Key::Other => OverlayEffect::PassOn,
    }
}

/// What activating a row of the overlay does; `is_app` tells whether the row stands
/// for an application.
pub fn overlay_activate(is_app: bool) -> (r: OverlayEffect)
    ensures
        r == (if is_app {
            OverlayEffect::Launch
        } else {
            OverlayEffect::Swallow
        }),
{
    if is_app {
        OverlayEffect::Launch
    } else {
        OverlayEffect::Swallow
    }
}

// ---- Counting ---------------------------------------------------------------

/// One row of the list, as the footer counts it.
#[derive(Debug, Clone, Copy, PartialEq, Eq, Structural)]
pub struct Row {
    /// Whether the row is shown.
    pub visible: bool,
    /// Whether the row stands for an application; a heading does not.
    pub is_app: bool,
}

/// How many of the rows are applications that are shown.
pub open spec fn shown_apps(rows: Seq<Row>) -> nat {
    rows.filter(|r: Row| r.visible && r.is_app).len()
}

/// Counts the rows that are applications and are shown.
pub fn visible_app_count(rows: &Vec<Row>) -> (r: usize)
    ensures
        r == shown_apps(rows@),
{
    let ghost counts = |r: Row| r.visible && r.is_app;
    let mut i: usize = 0;
    let mut n: usize = 0;
    while i < rows.len()
        invariant
            i <= rows.len(),
            n <= i,
            counts == (|r: Row| r.visible && r.is_app),
            n == rows@.take(i as int).filter(counts).len(),
        decreases rows.len() - i,
    {
        proof {
            let upto = rows@.take(i + 1);
            assert(upto.drop_last() =~= rows@.take(i as int));
            assert(upto.last() == rows@[i as int]);
            reveal(Seq::filter);
        }
        if rows[i].visible && rows[i].is_app {
            n = n + 1;
        }
        i = i + 1;
    }
    proof {
        assert(rows@.take(i as int) =~= rows@);
    }
    n
}

// ---- Laws -------------------------------------------------------------------

/// The arrows undo each other: from a row that is shown, what lies one step down
/// lies one step up from where that leads.
pub proof fn law_arrows_undo(shown: Seq<bool>, selected: usize, next: usize)
    requires
        selected < shown.len(),
        shown[selected as int],
        is_next_shown(shown, Some(selected), next as int),
    ensures
        is_previous_shown(shown, Some(next), selected as int),
{
}

/// There is at most one row for each arrow to select.
pub proof fn law_arrows_are_definite(shown: Seq<bool>, selected: Option<usize>, i: int, j: int)
    ensures
        is_next_shown(shown, selected, i) && is_next_shown(shown, selected, j) ==> i == j,
        is_previous_shown(shown, selected, i) && is_previous_shown(shown, selected, j) ==> i == j,
{
}

/// The arrows only ever lead to rows that are shown.
pub proof fn law_keys_select_shown_rows(
    e: Effect,
    key: Key,
    shown: Seq<bool>,
    selected: Option<usize>,
    action: Option<Seq<char>>,
)
    requires
        is_key_effect(e, key, shown, selected, action),
    ensures
        e matches Effect::Select(i) ==> i < shown.len() && shown[i as int],
{
}

/// An empty query shows every row.
pub proof fn law_empty_query_shows_all(names: Seq<Seq<char>>)
    ensures
        forall|k: int| 0 <= k < names.len() ==> #[trigger] shown_by(seq![], names)[k],
{
    assert forall|k: int| 0 <= k < names.len() implies #[trigger] shown_by(seq![], names)[k] by {
        law_empty_pattern_matches(names[k]);
    }
}

/// Typing more only ever hides rows.
pub proof fn law_longer_query_hides(query: Seq<char>, more: Seq<char>, names: Seq<Seq<char>>)
    ensures
        forall|k: int|
            0 <= k < names.len() && #[trigger] shown_by(query + more, names)[k] ==> shown_by(
                query,
                names,
            )[k],
{
    assert forall|k: int|
        0 <= k < names.len() && #[trigger] shown_by(query + more, names)[k] implies shown_by(
        query,
        names,
    )[k] by {
        law_longer_pattern_narrows(query, more, names[k]);
    }
}

/// Rows are filtered one by one: whether a row is shown depends on its own name
/// alone, and on nothing but whether that matches.
pub proof fn law_rows_are_filtered_one_by_one(
    query: Seq<char>,
    some: Seq<Seq<char>>,
    name: Seq<char>,
    more: Seq<Seq<char>>,
)
    ensures
        shown_by(query, some + more) == shown_by(query, some) + shown_by(query, more),
        shown_by(query, seq![name]) == seq![is_match(query, name)],
        shown_by(query, some).len() == some.len(),
{
    assert(shown_by(query, some + more) =~= shown_by(query, some) + shown_by(query, more));
    assert(shown_by(query, seq![name]) =~= seq![is_match(query, name)]);
}

/// Typing any part of a name shows its row.
pub proof fn law_part_of_a_name_shows_its_row(
    names: Seq<Seq<char>>,
    k: int,
    before: Seq<char>,
    part: Seq<char>,
    behind: Seq<char>,
)
    requires
        0 <= k < names.len(),
        names[k] == before + part + behind,
    ensures
        shown_by(part, names)[k],
{
    law_part_of_a_name_finds_it(before, part, behind);
}

/// The arrow down goes to the nearest row shown below the selected one, or to the
/// first row shown where none is selected, and to no other; it goes nowhere where
/// there is none.
pub proof fn law_arrow_down_goes_to_the_nearest_below(shown: Seq<bool>, s: usize, i: int)
    ensures
        is_next_shown(shown, Some(s), i) <==> s < i < shown.len() && shown[i] && (forall|k: int|
            s < k < i ==> !#[trigger] shown[k]),
        is_next_shown(shown, None, i) <==> 0 <= i < shown.len() && shown[i] && (forall|k: int|
            0 <= k < i ==> !#[trigger] shown[k]),
        (exists|k: int| s < k < shown.len() && #[trigger] shown[k]) ==> (exists|j: int| #[trigger]
            is_next_shown(shown, Some(s), j)),
        (exists|k: int| 0 <= k < shown.len() && #[trigger] shown[k]) ==> (exists|j: int| #[trigger]
            is_next_shown(shown, None, j)),
{
    if exists|k: int| s < k < shown.len() && #[trigger] shown[k] {
        let k = choose|k: int| s < k < shown.len() && #[trigger] shown[k];
        lemma_next_exists(shown, Some(s), k);
    }
    if exists|k: int| 0 <= k < shown.len() && #[trigger] shown[k] {
        let k = choose|k: int| 0 <= k < shown.len() && #[trigger] shown[k];
        lemma_next_exists(shown, None, k);
    }
}

proof fn lemma_next_exists(shown: Seq<bool>, selected: Option<usize>, k: int)
    requires
        0 <= k < shown.len(),
        shown[k],
        selected matches Some(s) ==> s < k,
    ensures
        exists|j: int| #[trigger] is_next_shown(shown, selected, j),
    decreases k,
{
    if exists|j: int| 0 <= j < k && (selected matches Some(s) ==> s < j) && #[trigger] shown[j] {
        let j = choose|j: int|
            0 <= j < k && (selected matches Some(s) ==> s < j) && #[trigger] shown[j];
        lemma_next_exists(shown, selected, j);
    } else {
        assert(is_next_shown(shown, selected, k));
    }
}

/// The arrow up goes to the nearest row shown above the selected one, and to no
/// other; it goes nowhere where there is none, or where none is selected.
pub proof fn law_arrow_up_goes_to_the_nearest_above(shown: Seq<bool>, s: usize, i: int)
    requires
        s < shown.len(),
    ensures
        is_previous_shown(shown, Some(s), i) <==> 0 <= i < s && shown[i] && (forall|k: int|
            i < k < s ==> !#[trigger] shown[k]),
        !is_previous_shown(shown, None, i),
        (exists|k: int| 0 <= k < s && #[trigger] shown[k]) ==> (exists|j: int| #[trigger]
            is_previous_shown(shown, Some(s), j)),
{
    if exists|k: int| 0 <= k < s && #[trigger] shown[k] {
        let k = choose|k: int| 0 <= k < s && #[trigger] shown[k];
        lemma_previous_exists(shown, s, k);
    }
}

proof fn lemma_previous_exists(shown: Seq<bool>, s: usize, k: int)
    requires
        0 <= k < s < shown.len(),
        shown[k],
    ensures
        exists|j: int| #[trigger] is_previous_shown(shown, Some(s), j),
    decreases s - k,
{
    if exists|j: int| k < j < s && #[trigger] shown[j] {
        let j = choose|j: int| k < j < s && #[trigger] shown[j];
        lemma_previous_exists(shown, s, j);
    } else {
        assert(is_previous_shown(shown, Some(s), k));
    }
}

/// What the keys do: Escape closes, Enter performs the action of the selected row,
/// the arrows move where there is somewhere to move, and any other key is passed
/// on. No key does anything else.
pub proof fn law_keys_act(
    e: Effect,
    key: Key,
    shown: Seq<bool>,
    selected: Option<usize>,
    action: Option<Seq<char>>,
    i: int,
)
    requires
        is_key_effect(e, key, shown, selected, action),
    ensures
        e is Close <==> key == Key::Escape,
        e is PassOn <==> key != Key::Escape && key != Key::Enter && key != Key::Down && key
            != Key::Up,
        e is Launch <==> key == Key::Enter && (action matches Some(a) && a.len() > 0),
        e matches Effect::Launch(l) ==> action == Some(l@),
        key == Key::Down && is_next_shown(shown, selected, i) ==> (
        e matches Effect::Select(j) && j == i),
        key == Key::Up && is_previous_shown(shown, selected, i) ==> (
        e matches Effect::Select(j) && j == i),
        e is Select ==> key == Key::Down || key == Key::Up,
{
    if key == Key::Down && is_next_shown(shown, selected, i) {
        if let Effect::Select(j) = e {
            law_arrows_are_definite(shown, selected, i, j as int);
        }
    }
    if key == Key::Up && is_previous_shown(shown, selected, i) {
        if let Effect::Select(j) = e {
            law_arrows_are_definite(shown, selected, i, j as int);
        }
    }
}

/// Each row counts by itself: one that is shown and stands for an application adds
/// one, any other none.
pub proof fn law_rows_are_counted_one_by_one(rows: Seq<Row>, row: Row)
    ensures
        shown_apps(seq![]) == 0,
        row.visible && row.is_app ==> shown_apps(rows.push(row)) == shown_apps(rows) + 1,
        !(row.visible && row.is_app) ==> shown_apps(rows.push(row)) == shown_apps(rows),
{
    reveal(Seq::filter);
    assert(rows.push(row).drop_last() =~= rows);
}

}
