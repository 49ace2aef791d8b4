//! A search that tries one candidate after the other until one succeeds.
//!
//! The search decides what to try and when to stop. Whoever runs it makes each
//! try, which looks at the disk or the network, and reports how it went.
use crate::text::{opt_text, texts};
use vstd::prelude::*;

verus! {

/// Something to try.
#[derive(Debug)]
pub enum Attempt {
    /// Look whether a file exists.
    Probe(String),
    /// Download a file.
    Fetch {
        /// Where from.
        url: String,
        /// Where to.
        dest: String,
    },
}

/// The contents of an [`Attempt`].
pub enum AttemptText {
    /// Look whether a file exists.
    Probe(Seq<char>),
    /// Download a file.
    Fetch {
        /// Where from.
        url: Seq<char>,
        /// Where to.
        dest: Seq<char>,
    },
}

impl View for Attempt {
    type V = AttemptText;

    open spec fn view(&self) -> AttemptText {
        match self {
            Attempt::Probe(p) => AttemptText::Probe(p@),
            Attempt::Fetch { url, dest } => AttemptText::Fetch { url: url@, dest: dest@ },
        }
    }
}

/// Something to try, and what is found if it succeeds.
#[derive(Debug)]
pub struct Candidate {
    /// What to try.
    pub attempt: Attempt,
    /// What is found if the attempt succeeds.
    pub value: String,
}

/// The contents of a [`Candidate`].
pub struct CandidateText {
    /// What to try.
    pub attempt: AttemptText,
    /// What is found if the attempt succeeds.
    pub value: Seq<char>,
}

impl View for Candidate {
    type V = CandidateText;

    open spec fn view(&self) -> CandidateText {
        CandidateText { attempt: self.attempt@, value: self.value@ }
    }
}

/// What to do next in a search.
#[derive(Debug)]
pub enum Step {
    /// Make this attempt and report how it went.
    Try(Attempt),
    /// Nothing more: the search ended with this.
    Done(Option<String>),
}

/// A search under way.
#[derive(Debug)]
pub struct Search {
    candidates: Vec<Candidate>,
    fallback: Option<String>,
    at: usize,
    found: bool,
}

/// The state of a [`Search`].
pub struct SearchState {
    /// What is tried, in order.
    pub candidates: Seq<CandidateText>,
    /// What the search ends with where every attempt fails.
    pub fallback: Option<Seq<char>>,
    /// How many attempts have failed.
    pub failed: int,
    /// Whether the attempt after those succeeded.
    pub found: bool,
}

/// The contents of a list of candidates.
pub open spec fn candidate_texts(v: Seq<Candidate>) -> Seq<CandidateText> {
    v.map_values(|c: Candidate| c@)
}

/// The candidate that looks for the file at `p` and finds it there.
pub open spec fn probe(p: Seq<char>) -> CandidateText {
    CandidateText { attempt: AttemptText::Probe(p), value: p }
}

/// The candidates that look for each of the files in `paths`.
pub open spec fn probes(paths: Seq<Seq<char>>) -> Seq<CandidateText> {
    paths.map_values(|p: Seq<char>| probe(p))
}

impl SearchState {
    /// A search through `candidates` at its start.
    pub open spec fn start(
        candidates: Seq<CandidateText>,
        fallback: Option<Seq<char>>,
    ) -> SearchState {
        SearchState { candidates, fallback, failed: 0, found: false }
    }

    /// Whether the state is one that a search can be in.
    pub open spec fn is_valid(self) -> bool {
        &&& 0 <= self.failed <= self.candidates.len()
        &&& self.found ==> self.failed < self.candidates.len()
    }

    /// Whether the search is over.
    pub open spec fn is_over(self) -> bool {
        self.found || self.failed >= self.candidates.len()
    }

    /// What a search that is over ended with.
    pub open spec fn outcome(self) -> Option<Seq<char>> {
        if self.found {
            Some(self.candidates[self.failed].value)
        } else {
            self.fallback
        }
    }

    /// The state after the report on the current attempt.
    pub open spec fn after(self, succeeded: bool) -> SearchState {
        if succeeded {
            SearchState { found: true, ..self }
        } else {
            SearchState { failed: self.failed + 1, ..self }
        }
    }

    /// What the search ends with if `succeeds` tells how each attempt goes.
    pub open spec fn run(self, succeeds: spec_fn(AttemptText) -> bool) -> Option<Seq<char>>
        decreases self.candidates.len() - self.failed,
    {
        if self.is_over() {
            self.outcome()
        } else if succeeds(self.candidates[self.failed].attempt) {
            self.after(true).outcome()
        } else {
            self.after(false).run(succeeds)
        }
    }
}

impl View for Search {
    type V = SearchState;

    closed spec fn view(&self) -> SearchState {
        SearchState {
            candidates: candidate_texts(self.candidates@),
            fallback: opt_text(self.fallback),
            failed: self.at as int,
            found: self.found,
        }
    }
}

impl Search {
    /// Whether the search is in a state that it can be in.
    pub open spec fn wf(&self) -> bool {
        self@.is_valid()
    }

    /// Starts a search through `candidates`, which ends with `fallback` where
    /// every attempt fails.
    pub fn new(candidates: Vec<Candidate>, fallback: Option<String>) -> (r: Search)
        ensures
            r.wf(),
            r@ == SearchState::start(candidate_texts(candidates@), opt_text(fallback)),
    {
        Search { candidates, fallback, at: 0, found: false }
    }

    /// What to do next.
    pub fn next_step(&self) -> (r: Step)
        requires
            self.wf(),
        ensures
            match r {
                Step::Try(a) => !self@.is_over() && a@
                    == self@.candidates[self@.failed].attempt,
                Step::Done(o) => self@.is_over() && opt_text(o) == self@.outcome(),
            },
    {
        proof {
            assert(candidate_texts(self.candidates@).len() == self.candidates@.len());
        }
        if self.found {
            Step::Done(Some(self.candidates[self.at].value.clone()))
        } else if self.at < self.candidates.len() {
            match &self.candidates[self.at].attempt {
                Attempt::Probe(p) => Step::Try(Attempt::Probe(p.clone())),
                Attempt::Fetch { url, dest } => Step::Try(
                    Attempt::Fetch { url: url.clone(), dest: dest.clone() },
                ),
            }
        } else {
            match &self.fallback {
                Some(f) => Step::Done(Some(f.clone())),
                None => Step::Done(None),
            }
        }
    }

    /// Reports how the current attempt went.
    pub fn report(&mut self, succeeded: bool)
        requires
            old(self).wf(),
            !old(self)@.is_over(),
        ensures
            final(self).wf(),
            final(self)@ == old(self)@.after(succeeded),
    {
        let count: usize = self.candidates.len();
        proof {
            assert(candidate_texts(self.candidates@).len() == count);
        }
        if succeeded {
            self.found = true;
        } else {
            self.at = self.at + 1;
        }
    }
}

/// Appends a probe for the file at `path`.
pub fn push_probe(out: &mut Vec<Candidate>, path: String)
    ensures
        candidate_texts(final(out)@) == candidate_texts(old(out)@).push(probe(path@)),
{
    let ghost before = out@;
    let c = Candidate { attempt: Attempt::Probe(path.clone()), value: path };
    out.push(c);
    proof {
        assert(candidate_texts(out@) =~= candidate_texts(before).push(c@));
    }
}

/// Appends probes for the files in `paths`.
pub fn push_probes(out: &mut Vec<Candidate>, paths: &Vec<String>)
    ensures
        candidate_texts(final(out)@) == candidate_texts(old(out)@) + probes(texts(paths@)),
{
    let ghost before = candidate_texts(out@);
    let mut i: usize = 0;
    proof {
        assert(before + probes(texts(paths@).take(0)) =~= before);
    }
    while i < paths.len()
        invariant
            i <= paths.len(),
            candidate_texts(out@) == before + probes(texts(paths@).take(i as int)),
        decreases paths.len() - i,
    {
        push_probe(out, paths[i].clone());
        proof {
            let p = paths@[i as int]@;
            assert(probes(texts(paths@).take(i + 1)) =~= probes(texts(paths@).take(i as int)).push(
                probe(p),
            ));
            assert(before + probes(texts(paths@).take(i + 1)) =~= (before + probes(
                texts(paths@).take(i as int),
            )).push(probe(p)));
        }
        i = i + 1;
    }
    proof {
        assert(texts(paths@).take(i as int) =~= texts(paths@));
    }
}

// ---- Laws -------------------------------------------------------------------

/// Whether `i` is the first candidate whose attempt succeeds.
pub open spec fn is_first_success(
    candidates: Seq<CandidateText>,
    succeeds: spec_fn(AttemptText) -> bool,
    i: int,
) -> bool {
    &&& 0 <= i < candidates.len()
    &&& succeeds(candidates[i].attempt)
    &&& forall|k: int| 0 <= k < i ==> !succeeds((#[trigger] candidates[k]).attempt)
}

/// A search finds the first candidate whose attempt succeeds, and ends with the
/// fallback if and only if there is none.
pub proof fn law_search_finds_the_first(
    candidates: Seq<CandidateText>,
    fallback: Option<Seq<char>>,
    succeeds: spec_fn(AttemptText) -> bool,
)
    ensures
        forall|i: int|
            #[trigger] is_first_success(candidates, succeeds, i) ==> SearchState::start(
                candidates,
                fallback,
            ).run(succeeds) == Some(candidates[i].value),
        (forall|i: int| !is_first_success(candidates, succeeds, i)) ==> SearchState::start(
            candidates,
            fallback,
        ).run(succeeds) == fallback,
{
    lemma_run_from(SearchState::start(candidates, fallback), succeeds);
}

proof fn lemma_run_from(s: SearchState, succeeds: spec_fn(AttemptText) -> bool)
    requires
        s.is_valid(),
        !s.found,
        forall|k: int| 0 <= k < s.failed ==> !succeeds((#[trigger] s.candidates[k]).attempt),
    ensures
        forall|i: int|
            #[trigger] is_first_success(s.candidates, succeeds, i) ==> s.run(succeeds) == Some(
                s.candidates[i].value,
            ),
        (forall|i: int| !is_first_success(s.candidates, succeeds, i)) ==> s.run(succeeds)
            == s.fallback,
    decreases s.candidates.len() - s.failed,
{
    if s.failed < s.candidates.len() {
        if succeeds(s.candidates[s.failed].attempt) {
            assert(is_first_success(s.candidates, succeeds, s.failed));
            assert forall|i: int| #[trigger]
                is_first_success(s.candidates, succeeds, i) implies s.run(succeeds) == Some(
                s.candidates[i].value,
            ) by {
                if i < s.failed {
                    assert(!succeeds(s.candidates[i].attempt));
                }
                if s.failed < i {
                    assert(!succeeds(s.candidates[s.failed].attempt));
                }
            }
        } else {
            lemma_run_from(s.after(false), succeeds);
        }
    } else {
        assert forall|i: int| !is_first_success(s.candidates, succeeds, i) by {
            if 0 <= i < s.candidates.len() {
                assert(!succeeds(s.candidates[i].attempt));
            }
        }
    }
}

/// Every report brings a search nearer to its end.
pub proof fn law_search_ends(s: SearchState, succeeded: bool)
    requires
        s.is_valid(),
        !s.is_over(),
    ensures
        s.after(succeeded).is_valid(),
        s.after(succeeded).is_over() || s.after(succeeded).candidates.len() - s.after(
            succeeded,
        ).failed < s.candidates.len() - s.failed,
{
}

/// What a search without a fallback ends with was confirmed: it belongs to the
/// first candidate whose attempt succeeded.
pub proof fn law_found_is_confirmed(
    candidates: Seq<CandidateText>,
    succeeds: spec_fn(AttemptText) -> bool,
)
    ensures
        SearchState::start(candidates, None).run(succeeds) matches Some(v) ==> exists|i: int| #[trigger]
            is_first_success(candidates, succeeds, i) && candidates[i].value == v,
{
    law_search_finds_the_first(candidates, None, succeeds);
}

proof fn lemma_first_success_exists(
    candidates: Seq<CandidateText>,
    succeeds: spec_fn(AttemptText) -> bool,
    k: int,
)
    requires
        0 <= k < candidates.len(),
        succeeds(candidates[k].attempt),
    ensures
        exists|i: int| is_first_success(candidates, succeeds, i),
    decreases k,
{
    if exists|j: int| 0 <= j < k && succeeds((#[trigger] candidates[j]).attempt) {
        let j = choose|j: int| 0 <= j < k && succeeds((#[trigger] candidates[j]).attempt);
        lemma_first_success_exists(candidates, succeeds, j);
    } else {
        assert(is_first_success(candidates, succeeds, k));
    }
}

/// A search without a fallback comes back with nothing if and only if every
/// attempt fails.
pub proof fn law_nothing_found_only_if_all_fail(
    candidates: Seq<CandidateText>,
    succeeds: spec_fn(AttemptText) -> bool,
)
    ensures
        SearchState::start(candidates, None).run(succeeds) is None <==> forall|k: int|
            0 <= k < candidates.len() ==> !succeeds((#[trigger] candidates[k]).attempt),
{
    law_search_finds_the_first(candidates, None, succeeds);
    if exists|k: int| 0 <= k < candidates.len() && succeeds((#[trigger] candidates[k]).attempt) {
        let k = choose|k: int|
            0 <= k < candidates.len() && succeeds((#[trigger] candidates[k]).attempt);
        lemma_first_success_exists(candidates, succeeds, k);
        let i = choose|i: int| is_first_success(candidates, succeeds, i);
        assert(is_first_success(candidates, succeeds, i));
    }
}

/// A search through two lists goes through the second only where the first has
/// nothing, and its fallback counts only where neither has anything.
pub proof fn law_search_goes_on(
    some: Seq<CandidateText>,
    more: Seq<CandidateText>,
    fallback: Option<Seq<char>>,
    succeeds: spec_fn(AttemptText) -> bool,
)
    ensures
        SearchState::start(some + more, fallback).run(succeeds) == (match SearchState::start(
            some,
            None,
        ).run(succeeds) {
            Some(v) => Some(v),
            None => SearchState::start(more, fallback).run(succeeds),
        }),
{
    let all = some + more;
    let n = some.len() as int;
    law_search_finds_the_first(all, fallback, succeeds);
    law_search_finds_the_first(some, None, succeeds);
    law_search_finds_the_first(more, fallback, succeeds);
    law_nothing_found_only_if_all_fail(some, succeeds);
    assert(forall|k: int| 0 <= k < n ==> #[trigger] all[k] == some[k]);
    assert(forall|k: int| 0 <= k < more.len() ==> #[trigger] more[k] == all[k + n]);
    if exists|i: int| is_first_success(some, succeeds, i) {
        let i = choose|i: int| is_first_success(some, succeeds, i);
        assert(is_first_success(all, succeeds, i));
    } else {
        assert(SearchState::start(some, None).run(succeeds) is None);
        assert forall|k: int| 0 <= k < n implies !succeeds((#[trigger] all[k]).attempt) by {
            assert(!succeeds(some[k].attempt));
        }
        if exists|i: int| is_first_success(more, succeeds, i) {
            let i = choose|i: int| is_first_success(more, succeeds, i);
            assert forall|k: int| 0 <= k < i + n implies !succeeds((#[trigger] all[k]).attempt) by {
                if k >= n {
                    assert(!succeeds(more[k - n].attempt));
                }
            }
            assert(is_first_success(all, succeeds, i + n));
        } else {
            assert forall|i: int| !is_first_success(all, succeeds, i) by {
                if is_first_success(all, succeeds, i) {
                    assert(i >= n);
                    assert forall|k: int| 0 <= k < i - n implies !succeeds(
                        (#[trigger] more[k]).attempt,
                    ) by {
                        assert(!succeeds(all[k + n].attempt));
                    }
                    assert(is_first_success(more, succeeds, i - n));
                }
            }
        }
    }
}

/// A search with one candidate finds it if and only if its attempt succeeds; one
/// without candidates ends with its fallback.
pub proof fn law_search_with_one_candidate(
    c: CandidateText,
    fallback: Option<Seq<char>>,
    succeeds: spec_fn(AttemptText) -> bool,
)
    ensures
        SearchState::start(seq![c], fallback).run(succeeds) == (if succeeds(c.attempt) {
            Some(c.value)
        } else {
            fallback
        }),
        SearchState::start(seq![], fallback).run(succeeds) == fallback,
{
    let one = seq![c];
    law_search_finds_the_first(one, fallback, succeeds);
    law_search_finds_the_first(seq![], fallback, succeeds);
    assert(forall|i: int| !is_first_success(seq![], succeeds, i));
    if succeeds(c.attempt) {
        assert(is_first_success(one, succeeds, 0));
    } else {
        assert(forall|i: int| !is_first_success(one, succeeds, i)) by {
            assert(one[0] == c);
        }
    }
}

/// A search for files finds the first that exists, under its own path, and nothing
/// where none exists.
pub proof fn law_probes_find_the_first_file(
    paths: Seq<Seq<char>>,
    succeeds: spec_fn(AttemptText) -> bool,
)
    ensures
        forall|i: int|
            0 <= i < paths.len() && succeeds(AttemptText::Probe(#[trigger] paths[i])) && (forall|
                k: int,
            |
                0 <= k < i ==> !succeeds(AttemptText::Probe(#[trigger] paths[k])))
                ==> SearchState::start(probes(paths), None).run(succeeds) == Some(paths[i]),
        (forall|k: int| 0 <= k < paths.len() ==> !succeeds(AttemptText::Probe(#[trigger] paths[k])))
            ==> SearchState::start(probes(paths), None).run(succeeds) is None,
{
    let all = probes(paths);
    law_search_finds_the_first(all, None, succeeds);
    assert(forall|k: int| 0 <= k < paths.len() ==> #[trigger] all[k] == probe(paths[k]));
    assert forall|i: int|
        0 <= i < paths.len() && succeeds(AttemptText::Probe(#[trigger] paths[i])) && (forall|
            k: int,
        |
            0 <= k < i ==> !succeeds(
                AttemptText::Probe(#[trigger] paths[k]),
            )) implies SearchState::start(probes(paths), None).run(succeeds) == Some(paths[i]) by {
        assert(is_first_success(all, succeeds, i));
    }
    law_nothing_found_only_if_all_fail(all, succeeds);
}

}
