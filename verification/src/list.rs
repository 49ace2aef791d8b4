//! The launcher's list as it is used: what the user typed, which rows that shows,
//! and which row is selected.
use crate::cache::text_pairs;
use crate::matching::{is_match, law_empty_pattern_matches};
use crate::rows::{
    choose_row, filter_rows, handle_key, is_choice, is_first_shown, is_key_effect, none_shown,
    shown_by, Effect, Key,
};
use crate::text::texts;
use vstd::prelude::*;

verus! {

/// The list of the launcher.
#[derive(Debug)]
pub struct LauncherList {
    names: Vec<String>,
    actions: Vec<String>,
    query: String,
    shown: Vec<bool>,
    selected: Option<usize>,
}

/// The state of a [`LauncherList`].
pub struct ListState {
    /// The names and actions of the rows.
    pub entries: Seq<(Seq<char>, Seq<char>)>,
    /// What the user typed.
    pub query: Seq<char>,
    /// The selected row.
    pub selected: Option<usize>,
}

impl ListState {
    /// The names of the rows.
    pub open spec fn names(self) -> Seq<Seq<char>> {
        self.entries.map_values(|e: (Seq<char>, Seq<char>)| e.0)
    }

    /// Which rows are shown.
    pub open spec fn shown(self) -> Seq<bool> {
        shown_by(self.query, self.names())
    }

    /// Whether the state is one that a list can be in: a selected row is shown.
    pub open spec fn is_valid(self) -> bool {
        self.selected matches Some(i) ==> i < self.entries.len() && self.shown()[i as int]
    }

    /// The action of the selected row.
    pub open spec fn action(self) -> Option<Seq<char>> {
        match self.selected {
            Some(i) => Some(self.entries[i as int].1),
            None => None,
        }
    }

    /// Whether this state follows from `before` by typing `query`: the first row
    /// shown is selected.
    pub open spec fn follows_query(self, before: ListState, query: Seq<char>) -> bool {
        &&& self.entries == before.entries
        &&& self.query == query
        &&& match self.selected {
            Some(i) => is_first_shown(self.shown(), i as int),
            None => none_shown(self.shown()),
        }
    }

    /// The state after a row was selected.
    pub open spec fn with_selected(self, row: Option<usize>) -> ListState {
        ListState { selected: row, ..self }
    }
}

spec fn entries_of(names: Seq<String>, actions: Seq<String>) -> Seq<(Seq<char>, Seq<char>)> {
    Seq::new(names.len(), |i: int| (names[i]@, actions[i]@))
}

impl View for LauncherList {
    type V = ListState;

    closed spec fn view(&self) -> ListState {
        ListState {
            entries: entries_of(self.names@, self.actions@),
            query: self.query@,
            selected: self.selected,
        }
    }
}

impl LauncherList {
    /// Whether the list is in a state that it can be in.
    pub closed spec fn wf(&self) -> bool {
        &&& self.names@.len() == self.actions@.len()
        &&& self.shown@ == shown_by(self.query@, texts(self.names@))
        &&& self@.is_valid()
    }

    proof fn lemma_names(&self)
        ensures
            self@.names() == texts(self.names@),
            self@.entries.len() == self.names@.len(),
            texts(self.names@).len() == self.names@.len(),
    {
        assert(self@.names() =~= texts(self.names@));
    }

    /// A list of the given names and actions, all of them shown, with the first
    /// row selected.
    pub fn new(entries: &Vec<(String, String)>) -> (r: LauncherList)
        ensures
            r.wf(),
            r@.entries == text_pairs(entries@),
            r@.query == Seq::<char>::empty(),
            r@.selected == (if entries@.len() > 0 {
                Some(0usize)
            } else {
                None
            }),
    {
        let mut names: Vec<String> = Vec::new();
        let mut actions: Vec<String> = Vec::new();
        let mut i: usize = 0;
        while i < entries.len()
            invariant
                i <= entries.len(),
                names@.len() == i,
                actions@.len() == i,
                forall|k: int| 0 <= k < i ==> (#[trigger] names@[k])@ == entries@[k].0@,
                forall|k: int| 0 <= k < i ==> (#[trigger] actions@[k])@ == entries@[k].1@,
            decreases entries.len() - i,
        {
            names.push(entries[i].0.clone());
            actions.push(entries[i].1.clone());
            i = i + 1;
        }
        let query = String::new();
        let (shown, selected) = filter_rows(query.as_str(), &names);
        let r = LauncherList { names, actions, query, shown, selected };
        proof {
            r.lemma_names();
            assert(r@.entries =~= text_pairs(entries@));
            let all = texts(names@);
            assert(query@ =~= seq![]);
            if all.len() > 0 {
                law_empty_pattern_matches(all[0]);
                assert(shown@[0] == is_match(query@, all[0]));
            }
        }
        r
    }

    /// Takes what the user typed.
    pub fn set_query(&mut self, query: &str)
        requires
            old(self).wf(),
        ensures
            final(self).wf(),
            final(self)@.follows_query(old(self)@, query@),
    {
        let (shown, selected) = filter_rows(query, &self.names);
        self.query = query.to_string();
        self.shown = shown;
        self.selected = selected;
        proof {
            self.lemma_names();
            assert(self@.entries =~= old(self)@.entries);
        }
    }

    /// Takes the row that the user selected by other means than a key. A row that
    /// is not shown cannot be selected.
    pub fn select(&mut self, row: Option<usize>)
        requires
            old(self).wf(),
        ensures
            final(self).wf(),
            final(self)@ == (if old(self)@.with_selected(row).is_valid() {
                old(self)@.with_selected(row)
            } else {
                old(self)@
            }),
    {
        proof {
            self.lemma_names();
        }
        match row {
            Some(i) => {
                if i < self.names.len() && self.shown[i] {
                    self.selected = row;
                }
            },
            None => {
                self.selected = None;
            },
        }
        proof {
            self.lemma_names();
        }
    }

    /// Takes a key, and says what it does. A row that it selects is selected.
    pub fn press(&mut self, key: Key) -> (r: Effect)
        requires
            old(self).wf(),
        ensures
            final(self).wf(),
            is_key_effect(r, key, old(self)@.shown(), old(self)@.selected, old(self)@.action()),
            final(self)@ == (match r {
                Effect::Select(i) => old(self)@.with_selected(Some(i)),
                _ => old(self)@,
            }),
    {
        proof {
            self.lemma_names();
        }
        let action = match self.selected {
            Some(i) => Some(self.actions[i].as_str()),
            None => None,
        };
        let r = handle_key(key, &self.shown, self.selected, action);
        if let Effect::Select(i) = &r {
            self.selected = Some(*i);
        }
        proof {
            self.lemma_names();
        }
        r
    }

    /// What activating a row does.
    pub fn activate(&self, row: usize) -> (r: Effect)
        requires
            self.wf(),
        ensures
            is_choice(
                r,
                if row < self@.entries.len() {
                    Some(self@.entries[row as int].1)
                } else {
                    None
                },
            ),
    {
        proof {
            self.lemma_names();
        }
        if row < self.actions.len() {
            choose_row(Some(self.actions[row].as_str()))
        } else {
            choose_row(None)
        }
    }

    /// Which rows are shown.
    pub fn shown(&self) -> (r: &Vec<bool>)
        requires
            self.wf(),
        ensures
            r@ == self@.shown(),
    {
        proof {
            self.lemma_names();
        }
        &self.shown
    }

    /// The selected row.
    pub fn selected(&self) -> (r: Option<usize>)
        ensures
            r == self@.selected,
    {
        self.selected
    }
}

// ---- Laws -------------------------------------------------------------------

/// What Enter launches is what the user sees: the action of a row whose name
/// matches what was typed.
pub proof fn law_enter_launches_a_match(s: ListState, e: Effect)
    requires
        s.is_valid(),
        is_key_effect(e, Key::Enter, s.shown(), s.selected, s.action()),
    ensures
        e matches Effect::Launch(a) ==> exists|i: int|
            0 <= i < s.entries.len() && (#[trigger] s.entries[i]).1 == a@ && is_match(
                s.query,
                s.entries[i].0,
            ),
{
    if let Effect::Launch(a) = e {
        let i = s.selected->0 as int;
        assert(s.shown()[i] == is_match(s.query, s.names()[i]));
        assert(s.entries[i].1 == a@);
    }
}

/// Typing selects the first row whose name matches, and none where no name does;
/// the rows themselves stay.
pub proof fn law_typing_selects_the_first_match(
    before: ListState,
    after: ListState,
    query: Seq<char>,
    i: int,
)
    requires
        after.follows_query(before, query),
    ensures
        after.entries == before.entries,
        0 <= i < before.entries.len() && is_match(query, before.entries[i].0) && (forall|k: int|
            0 <= k < i ==> !is_match(query, (#[trigger] before.entries[k]).0)) ==> (
        after.selected matches Some(s) && s == i),
        (forall|k: int|
            0 <= k < before.entries.len() ==> !is_match(query, (#[trigger] before.entries[k]).0))
            ==> after.selected is None,
        forall|k: int|
            0 <= k < before.entries.len() ==> #[trigger] after.shown()[k] == is_match(
                query,
                before.entries[k].0,
            ),
{
    let shown = after.shown();
    assert(forall|k: int|
        0 <= k < before.entries.len() ==> #[trigger] shown[k] == is_match(
            query,
            before.entries[k].0,
        ));
    assert(shown.len() == before.entries.len());
    if let Some(s) = after.selected {
        assert(shown[s as int] == is_match(query, before.entries[s as int].0));
        if 0 <= i < before.entries.len() && is_match(query, before.entries[i].0) && (forall|k: int|
            0 <= k < i ==> !is_match(query, (#[trigger] before.entries[k]).0)) {
            assert(shown[i]);
            if s < i {
                assert(!is_match(query, before.entries[s as int].0));
            }
        }
    } else {
        if 0 <= i < before.entries.len() {
            assert(!shown[i]);
        }
    }
}

/// Enter performs the action of the selected row, where it has one.
pub proof fn law_enter_launches_the_selection(s: ListState, e: Effect)
    requires
        is_key_effect(e, Key::Enter, s.shown(), s.selected, s.action()),
    ensures
        s.selected matches Some(i) ==> (s.entries[i as int].1.len() > 0 ==> (
        e matches Effect::Launch(a) && a@ == s.entries[i as int].1)),
        s.selected is None ==> e is Swallow,
{
}

/// Typing and pressing Enter launches the first row whose name matches what was
/// typed.
pub proof fn law_typing_and_enter_launch_the_first_match(
    before: ListState,
    after: ListState,
    query: Seq<char>,
    i: int,
    e: Effect,
)
    requires
        after.follows_query(before, query),
        0 <= i < before.entries.len(),
        is_match(query, before.entries[i].0),
        forall|k: int| 0 <= k < i ==> !is_match(query, (#[trigger] before.entries[k]).0),
        before.entries[i].1.len() > 0,
        is_key_effect(e, Key::Enter, after.shown(), after.selected, after.action()),
    ensures
        e matches Effect::Launch(a) && a@ == before.entries[i].1,
{
    law_typing_selects_the_first_match(before, after, query, i);
    law_enter_launches_the_selection(after, e);
}

/// A row may be selected if and only if its name matches what was typed; selecting
/// it changes nothing else.
pub proof fn law_rows_that_match_may_be_selected(s: ListState, row: usize)
    ensures
        s.with_selected(Some(row)).is_valid() <==> row < s.entries.len() && is_match(
            s.query,
            s.entries[row as int].0,
        ),
        s.with_selected(None).is_valid(),
        s.with_selected(Some(row)).selected == Some(row),
        s.with_selected(Some(row)).entries == s.entries,
        s.with_selected(Some(row)).query == s.query,
{
    let t = s.with_selected(Some(row));
    if row < s.entries.len() {
        assert(t.shown()[row as int] == is_match(s.query, s.entries[row as int].0));
    }
}

}
