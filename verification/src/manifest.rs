//! The manifest of icons: a JSON file that maps the value of each `Icon` key to
//! the file of its icon.
use crate::cache::text_pairs;
use crate::text::{opt_str, same_text, texts};
use std::collections::BTreeMap;
use vstd::prelude::*;

verus! {

// ---- Pairs as maps ----------------------------------------------------------

/// The map that a list of pairs makes: of the pairs with one key the last counts.
pub open spec fn pairs_map<V>(pairs: Seq<(Seq<char>, V)>) -> Map<Seq<char>, V>
    decreases pairs.len(),
{
    if pairs.len() == 0 {
        Map::empty()
    } else {
        pairs_map(pairs.drop_last()).insert(pairs.last().0, pairs.last().1)
    }
}

/// Whether no two pairs have one key.
pub open spec fn has_distinct_keys<V>(pairs: Seq<(Seq<char>, V)>) -> bool {
    forall|i: int, j: int|
        0 <= i < j < pairs.len() ==> (#[trigger] pairs[i]).0 != (#[trigger] pairs[j]).0
}

/// Whether one of the pairs has the key `k`.
pub open spec fn lists_key<V>(pairs: Seq<(Seq<char>, V)>, k: Seq<char>) -> bool {
    exists|i: int| 0 <= i < pairs.len() && (#[trigger] pairs[i]).0 == k
}

/// Where no two pairs have one key, each pair is an entry of the map.
pub proof fn lemma_pairs_map<V>(pairs: Seq<(Seq<char>, V)>)
    ensures
        forall|k: Seq<char>|
            #[trigger] pairs_map(pairs).contains_key(k) == lists_key(pairs, k),
        has_distinct_keys(pairs) ==> forall|i: int|
            0 <= i < pairs.len() ==> pairs_map(pairs)[(#[trigger] pairs[i]).0] == pairs[i].1,
    decreases pairs.len(),
{
    if pairs.len() > 0 {
        let earlier = pairs.drop_last();
        lemma_pairs_map(earlier);
        assert(forall|i: int| 0 <= i < earlier.len() ==> #[trigger] earlier[i] == pairs[i]);
        assert forall|k: Seq<char>| #[trigger]
            pairs_map(pairs).contains_key(k) == lists_key(pairs, k) by {
            assert(pairs_map(earlier).contains_key(k) == lists_key(earlier, k));
            if lists_key(earlier, k) {
                let i = choose|i: int| 0 <= i < earlier.len() && (#[trigger] earlier[i]).0 == k;
                assert(pairs[i].0 == k);
            }
            if k == pairs.last().0 {
                assert(pairs[pairs.len() - 1].0 == k);
            }
            if lists_key(pairs, k) {
                let i = choose|i: int| 0 <= i < pairs.len() && (#[trigger] pairs[i]).0 == k;
                if i < earlier.len() {
                    assert(earlier[i].0 == k);
                }
            }
        }
        if has_distinct_keys(pairs) {
            assert forall|i: int, j: int| 0 <= i < j < earlier.len() implies (
            #[trigger] earlier[i]).0 != (#[trigger] earlier[j]).0 by {
                assert(pairs[i].0 != pairs[j].0);
            }
            assert forall|i: int| 0 <= i < pairs.len() implies pairs_map(pairs)[(
            #[trigger] pairs[i]).0] == pairs[i].1 by {
                if i < earlier.len() {
                    assert(earlier[i] == pairs[i]);
                    assert(pairs[i].0 != pairs[pairs.len() - 1].0);
                }
            }
        }
    }
}

// ---- JSON -------------------------------------------------------------------

/// The object of strings that a JSON text holds; none where the text is no JSON,
/// no object, or has a member that is no string.
pub uninterp spec fn json_strings(text: Seq<char>) -> Option<Map<Seq<char>, Seq<char>>>;

/// The JSON text of an object of strings, indented.
pub uninterp spec fn json_text(object: Map<Seq<char>, Seq<char>>) -> Seq<char>;

/// Calls `serde_json::from_str` for a `BTreeMap` of strings and hands out its
/// entries. The contract claims that they depend on the text alone.
#[verifier::external_body]
fn parse_strings(text: &str) -> (r: Option<Vec<(String, String)>>)
    ensures
        match r {
            Some(v) => json_strings(text@) == Some(pairs_map(text_pairs(v@))),
            None => json_strings(text@) is None,
        },
{
    let map = serde_json::from_str::<BTreeMap<String, String>>(text).ok()?;
    Some(map.into_iter().collect())
}

/// Collects the pairs into a `BTreeMap` and calls `serde_json::to_string_pretty`
/// on it. No two pairs have one key, so that each becomes an entry of the map. The
/// contract claims that this succeeds, since the keys and values are strings, that
/// the text depends on the map alone, and that it reads back as the same map.
#[verifier::external_body]
fn print_strings(pairs: &Vec<(String, String)>) -> (r: Option<String>)
    requires
        has_distinct_keys(text_pairs(pairs@)),
    ensures
        r is Some,
        r->0@ == json_text(pairs_map(text_pairs(pairs@))),
        json_strings(r->0@) == Some(pairs_map(text_pairs(pairs@))),
{
    let map: BTreeMap<String, String> = pairs.iter().cloned().collect();
    serde_json::to_string_pretty(&map).ok()
}

// ---- The manifest -----------------------------------------------------------

/// The icons that were resolved.
#[derive(Debug)]
pub struct Manifest {
    entries: Vec<(String, String)>,
}

impl View for Manifest {
    type V = Map<Seq<char>, Seq<char>>;

    closed spec fn view(&self) -> Map<Seq<char>, Seq<char>> {
        pairs_map(text_pairs(self.entries@))
    }
}

/// The manifest that a text holds; an empty one where it holds none.
pub open spec fn manifest_of(text: Seq<char>) -> Map<Seq<char>, Seq<char>> {
    match json_strings(text) {
        Some(m) => m,
        None => Map::empty(),
    }
}

impl Manifest {
    /// Whether the manifest is in a state that it can be in: it lists no icon
    /// twice.
    pub closed spec fn wf(&self) -> bool {
        has_distinct_keys(text_pairs(self.entries@))
    }

    /// The empty manifest.
    pub fn new() -> (r: Manifest)
        ensures
            r.wf(),
            r@ == Map::<Seq<char>, Seq<char>>::empty(),
    {
        Manifest { entries: Vec::new() }
    }

    /// Where the icon `icon` is.
    pub fn get(&self, icon: &str) -> (r: Option<&str>)
        requires
            self.wf(),
        ensures
            opt_str(r) == (if self@.contains_key(icon@) {
                Some(self@[icon@])
            } else {
                None
            }),
    {
        let ghost pairs = text_pairs(self.entries@);
        proof {
            lemma_pairs_map(pairs);
        }
        let mut i: usize = 0;
        while i < self.entries.len()
            invariant
                i <= self.entries.len(),
                self.wf(),
                pairs == text_pairs(self.entries@),
                has_distinct_keys(pairs) ==> forall|k: int|
                    0 <= k < pairs.len() ==> pairs_map(pairs)[(#[trigger] pairs[k]).0]
                        == pairs[k].1,
                forall|k: Seq<char>|
                    #[trigger] pairs_map(pairs).contains_key(k) == lists_key(pairs, k),
                forall|k: int| 0 <= k < i ==> (#[trigger] pairs[k]).0 != icon@,
            decreases self.entries.len() - i,
        {
            if same_text(self.entries[i].0.as_str(), icon) {
                proof {
                    assert(pairs[i as int].0 == icon@);
                }
                return Some(self.entries[i].1.as_str());
            }
            i = i + 1;
        }
        None
    }

    /// Puts the icon `icon` at `path`.
    pub fn insert(&mut self, icon: &str, path: &str)
        requires
            old(self).wf(),
        ensures
            final(self).wf(),
            final(self)@ == old(self)@.insert(icon@, path@),
    {
        let ghost before = text_pairs(self.entries@);
        let mut i: usize = 0;
        while i < self.entries.len()
            invariant
                i <= self.entries.len(),
                before == text_pairs(self.entries@),
                has_distinct_keys(before),
                pairs_map(before) == old(self)@,
                forall|k: int| 0 <= k < i ==> (#[trigger] before[k]).0 != icon@,
            decreases self.entries.len() - i,
        {
            if same_text(self.entries[i].0.as_str(), icon) {
                let key = self.entries[i].0.clone();
                self.entries.set(i, (key, path.to_string()));
                proof {
                    let after = text_pairs(self.entries@);
                    assert(after =~= before.update(i as int, (icon@, path@)));
                    lemma_replace(before, i as int, icon@, path@);
                }
                return ;
            }
            i = i + 1;
        }
        self.entries.push((icon.to_string(), path.to_string()));
        proof {
            let after = text_pairs(self.entries@);
            assert(after =~= before.push((icon@, path@)));
            assert(after.drop_last() =~= before);
            assert forall|a: int, b: int| 0 <= a < b < after.len() implies (#[trigger] after[a]).0
                != (#[trigger] after[b]).0 by {
                assert(after[a] == before[a]);
                if b < before.len() {
                    assert(after[b] == before[b]);
                }
            }
        }
    }

    /// How many icons the manifest lists.
    pub fn len(&self) -> (r: usize)
        requires
            self.wf(),
        ensures
            self@.dom().finite(),
            r == self@.dom().len(),
    {
        proof {
            lemma_pairs_map_len(text_pairs(self.entries@));
        }
        self.entries.len()
    }

    /// The icons and where they are.
    pub fn into_entries(self) -> (r: Vec<(String, String)>)
        requires
            self.wf(),
        ensures
            has_distinct_keys(text_pairs(r@)),
            pairs_map(text_pairs(r@)) == self@,
    {
        self.entries
    }

    /// The text of the manifest. Reading it gives the manifest back.
    pub fn to_json(&self) -> (r: String)
        requires
            self.wf(),
        ensures
            r@ == json_text(self@),
            manifest_of(r@) == self@,
    {
        print_strings(&self.entries).unwrap()
    }
}

proof fn lemma_replace(pairs: Seq<(Seq<char>, Seq<char>)>, i: int, k: Seq<char>, v: Seq<char>)
    requires
        has_distinct_keys(pairs),
        0 <= i < pairs.len(),
        pairs[i].0 == k,
    ensures
        has_distinct_keys(pairs.update(i, (k, v))),
        pairs_map(pairs.update(i, (k, v))) == pairs_map(pairs).insert(k, v),
{
    let after = pairs.update(i, (k, v));
    lemma_pairs_map(pairs);
    lemma_pairs_map(after);
    assert(forall|j: int| 0 <= j < pairs.len() ==> (#[trigger] after[j]).0 == pairs[j].0);
    assert forall|a: int, b: int| 0 <= a < b < after.len() implies (#[trigger] after[a]).0 != (
    #[trigger] after[b]).0 by {
        assert(pairs[a].0 != pairs[b].0);
    }
    let m = pairs_map(after);
    let n = pairs_map(pairs).insert(k, v);
    assert forall|x: Seq<char>| m.contains_key(x) == n.contains_key(x) by {
        if m.contains_key(x) {
            let j = choose|j: int| 0 <= j < after.len() && (#[trigger] after[j]).0 == x;
            assert(pairs[j].0 == x);
        }
        if n.contains_key(x) {
            if x == k {
                assert(after[i].0 == x);
            } else {
                let j = choose|j: int| 0 <= j < pairs.len() && (#[trigger] pairs[j]).0 == x;
                assert(after[j].0 == x);
            }
        }
    }
    assert forall|x: Seq<char>| m.contains_key(x) implies m[x] == n[x] by {
        let j = choose|j: int| 0 <= j < after.len() && (#[trigger] after[j]).0 == x;
        assert(m[after[j].0] == after[j].1);
        if j != i {
            assert(after[j] == pairs[j]);
            if j < i {
                assert(pairs[j].0 != pairs[i].0);
            } else {
                assert(pairs[i].0 != pairs[j].0);
            }
        }
    }
    assert(m =~= n);
}

proof fn lemma_pairs_map_len<V>(pairs: Seq<(Seq<char>, V)>)
    requires
        has_distinct_keys(pairs),
    ensures
        pairs_map(pairs).dom().finite(),
        pairs_map(pairs).dom().len() == pairs.len(),
    decreases pairs.len(),
{
    if pairs.len() > 0 {
        let earlier = pairs.drop_last();
        assert forall|a: int, b: int| 0 <= a < b < earlier.len() implies (#[trigger] earlier[a]).0
            != (#[trigger] earlier[b]).0 by {
            assert(pairs[a].0 != pairs[b].0);
        }
        lemma_pairs_map_len(earlier);
        lemma_pairs_map(earlier);
        let k = pairs.last().0;
        if pairs_map(earlier).contains_key(k) {
            let i = choose|i: int| 0 <= i < earlier.len() && (#[trigger] earlier[i]).0 == k;
            assert(pairs[i].0 != pairs[pairs.len() - 1].0);
        }
        assert(pairs_map(pairs).dom() =~= pairs_map(earlier).dom().insert(k));
    }
}

/// The manifest that parsing a text brought: the map of its pairs, or an empty
/// one where parsing failed.
pub fn manifest_from(parsed: Option<Vec<(String, String)>>) -> (r: Manifest)
    ensures
        r.wf(),
        r@ == (match parsed {
            Some(v) => pairs_map(text_pairs(v@)),
            None => Map::empty(),
        }),
{
    let mut out = Manifest::new();
    if let Some(v) = parsed {
        let ghost pairs = text_pairs(v@);
        let mut i: usize = 0;
        proof {
            assert(pairs.take(0) =~= seq![]);
        }
        while i < v.len()
            invariant
                i <= v.len(),
                out.wf(),
                pairs == text_pairs(v@),
                out@ == pairs_map(pairs.take(i as int)),
            decreases v.len() - i,
        {
            proof {
                let upto = pairs.take(i + 1);
                assert(upto.drop_last() =~= pairs.take(i as int));
                assert(upto.last() == pairs[i as int]);
            }
            out.insert(v[i].0.as_str(), v[i].1.as_str());
            i = i + 1;
        }
        proof {
            assert(pairs.take(i as int) =~= pairs);
        }
    }
    out
}

/// Reads a manifest. A text that holds none gives an empty one.
pub fn load_manifest(content: &str) -> (r: Manifest)
    ensures
        r.wf(),
        r@ == manifest_of(content@),
{
    manifest_from(parse_strings(content))
}

// ---- Synchronisation --------------------------------------------------------

/// A run that resolves the icon of every application: what it has seen, and what
/// it has found.
#[derive(Debug)]
pub struct SyncRun {
    seen: Vec<String>,
    manifest: Manifest,
}

/// The state of a [`SyncRun`].
pub struct SyncState {
    /// The icons that were taken up.
    pub seen: Set<Seq<char>>,
    /// The icons that were resolved, and where they are.
    pub found: Map<Seq<char>, Seq<char>>,
}

impl SyncState {
    /// Whether the run takes up an icon: one with a name, and that it has not
    /// taken up before.
    pub open spec fn takes_up(self, icon: Seq<char>) -> bool {
        icon.len() > 0 && !self.seen.contains(icon)
    }

    /// The state after an icon was offered to the run.
    pub open spec fn after_offer(self, icon: Seq<char>) -> SyncState {
        if self.takes_up(icon) {
            SyncState { seen: self.seen.insert(icon), found: self.found }
        } else {
            self
        }
    }

    /// The state after an icon was resolved, or could not be.
    pub open spec fn after_result(self, icon: Seq<char>, path: Option<Seq<char>>) -> SyncState {
        match path {
            Some(p) => SyncState { seen: self.seen, found: self.found.insert(icon, p) },
            None => self,
        }
    }

    /// The state after the icon of the desktop file `stem` was offered and, if it
    /// was taken up, resolved as `resolved` tells.
    pub open spec fn after_file(
        self,
        icon: Seq<char>,
        stem: Seq<char>,
        resolved: spec_fn(Seq<char>, Seq<char>) -> Option<Seq<char>>,
    ) -> SyncState {
        if self.takes_up(icon) {
            self.after_offer(icon).after_result(icon, resolved(icon, stem))
        } else {
            self
        }
    }

    /// The state after a list of desktop files was gone through, each given by its
    /// icon and its stem.
    pub open spec fn after_files(
        self,
        files: Seq<(Seq<char>, Seq<char>)>,
        resolved: spec_fn(Seq<char>, Seq<char>) -> Option<Seq<char>>,
    ) -> SyncState
        decreases files.len(),
    {
        if files.len() == 0 {
            self
        } else {
            self.after_files(files.drop_last(), resolved).after_file(
                files.last().0,
                files.last().1,
                resolved,
            )
        }
    }

    /// The state at the start.
    pub open spec fn start() -> SyncState {
        SyncState { seen: Set::empty(), found: Map::empty() }
    }
}

/// The set of the texts in a list.
pub open spec fn text_set(v: Seq<String>) -> Set<Seq<char>> {
    texts(v).to_set()
}

impl View for SyncRun {
    type V = SyncState;

    closed spec fn view(&self) -> SyncState {
        SyncState { seen: text_set(self.seen@), found: self.manifest@ }
    }
}

impl SyncRun {
    /// Whether the run is in a state that it can be in.
    pub closed spec fn wf(&self) -> bool {
        self.manifest.wf()
    }

    /// Starts a run.
    pub fn new() -> (r: SyncRun)
        ensures
            r.wf(),
            r@ == SyncState::start(),
    {
        let r = SyncRun { seen: Vec::new(), manifest: Manifest::new() };
        proof {
            assert(r@.seen =~= Set::empty());
        }
        r
    }

    /// Offers the icon of an application to the run, which says whether it takes
    /// it up: every distinct icon is resolved once.
    pub fn offer(&mut self, icon: &str) -> (r: bool)
        requires
            old(self).wf(),
        ensures
            final(self).wf(),
            r == old(self)@.takes_up(icon@),
            final(self)@ == old(self)@.after_offer(icon@),
    {
        if icon.is_empty() {
            return false;
        }
        let ghost known = texts(self.seen@);
        let mut i: usize = 0;
        while i < self.seen.len()
            invariant
                i <= self.seen.len(),
                *self == *old(self),
                old(self).wf(),
                known == texts(self.seen@),
                forall|k: int| 0 <= k < i ==> #[trigger] known[k] != icon@,
            decreases self.seen.len() - i,
        {
            if same_text(self.seen[i].as_str(), icon) {
                proof {
                    assert(known[i as int] == icon@);
                    assert(known.contains(icon@));
                }
                return false;
            }
            i = i + 1;
        }
        self.seen.push(icon.to_string());
        proof {
            assert(!known.contains(icon@));
            let after = texts(self.seen@);
            assert(after =~= known.push(icon@));
            assert(after.to_set() =~= known.to_set().insert(icon@)) by {
                assert forall|x: Seq<char>| after.contains(x) == (known.contains(x) || x
                    == icon@) by {
                    if known.contains(x) {
                        let j = choose|j: int| 0 <= j < known.len() && known[j] == x;
                        assert(after[j] == x);
                    }
                    if x == icon@ {
                        assert(after[known.len() as int] == x);
                    }
                }
            }
        }
        true
    }

    /// Records where an icon was found, if it was.
    pub fn record(&mut self, icon: &str, path: Option<&str>)
        requires
            old(self).wf(),
        ensures
            final(self).wf(),
            final(self)@ == old(self)@.after_result(icon@, opt_str(path)),
    {
        if let Some(p) = path {
            self.manifest.insert(icon, p);
        }
    }

    /// Ends the run with the manifest of what it found.
    pub fn finish(self) -> (r: Manifest)
        requires
            self.wf(),
        ensures
            r.wf(),
            r@ == self@.found,
    {
        self.manifest
    }
}

// ---- Laws -------------------------------------------------------------------

/// The stem of the first of `files` with the icon `icon`, if there is one.
pub open spec fn first_stem(files: Seq<(Seq<char>, Seq<char>)>, icon: Seq<char>) -> Option<Seq<char>>
    decreases files.len(),
{
    if files.len() == 0 {
        None
    } else if files[0].0 == icon {
        Some(files[0].1)
    } else {
        first_stem(files.skip(1), icon)
    }
}

proof fn lemma_first_stem_push(
    files: Seq<(Seq<char>, Seq<char>)>,
    last: (Seq<char>, Seq<char>),
    icon: Seq<char>,
)
    ensures
        first_stem(files.push(last), icon) == (match first_stem(files, icon) {
            Some(s) => Some(s),
            None => if last.0 == icon {
                Some(last.1)
            } else {
                None
            },
        }),
    decreases files.len(),
{
    let all = files.push(last);
    if files.len() == 0 {
        assert(first_stem(all.skip(1), icon) is None);
    } else {
        lemma_first_stem_push(files.skip(1), last, icon);
        assert(all.skip(1) =~= files.skip(1).push(last));
    }
}

/// What a run ends with for the icon `icon`: what it was resolved to with the stem
/// of the first file that names it. An icon without a name is not taken up.
pub open spec fn resolved_first(
    files: Seq<(Seq<char>, Seq<char>)>,
    resolved: spec_fn(Seq<char>, Seq<char>) -> Option<Seq<char>>,
    icon: Seq<char>,
) -> Option<Seq<char>> {
    match first_stem(files, icon) {
        Some(stem) => if icon.len() > 0 {
            resolved(icon, stem)
        } else {
            None
        },
        None => None,
    }
}

/// A run ends with exactly the icons that some file names and that could be
/// resolved with the stem of the first file to name them, each where it was
/// resolved.
pub proof fn law_sync_finds_every_icon(
    files: Seq<(Seq<char>, Seq<char>)>,
    resolved: spec_fn(Seq<char>, Seq<char>) -> Option<Seq<char>>,
    icon: Seq<char>,
)
    ensures
        match resolved_first(files, resolved, icon) {
            Some(path) => SyncState::start().after_files(files, resolved).found.contains_pair(
                icon,
                path,
            ),
            None => !SyncState::start().after_files(files, resolved).found.contains_key(icon),
        },
        SyncState::start().after_files(files, resolved).seen.contains(icon) <==> first_stem(
            files,
            icon,
        ) is Some && icon.len() > 0,
    decreases files.len(),
{
    if files.len() > 0 {
        let earlier = files.drop_last();
        assert(files =~= earlier.push(files.last()));
        lemma_first_stem_push(earlier, files.last(), icon);
        law_sync_finds_every_icon(earlier, resolved, icon);
    }
}

/// The path of an icon is what it was resolved to with the first file that names
/// it: later files that name it change nothing.
pub proof fn law_first_file_resolves_the_icon(
    files: Seq<(Seq<char>, Seq<char>)>,
    resolved: spec_fn(Seq<char>, Seq<char>) -> Option<Seq<char>>,
    i: int,
)
    requires
        0 <= i < files.len(),
        files[i].0.len() > 0,
        forall|k: int| 0 <= k < i ==> (#[trigger] files[k]).0 != files[i].0,
    ensures
        SyncState::start().after_files(files, resolved).found.contains_key(files[i].0)
            <==> resolved(files[i].0, files[i].1) is Some,
        resolved(files[i].0, files[i].1) matches Some(path) ==> SyncState::start().after_files(
            files,
            resolved,
        ).found[files[i].0] == path,
{
    law_sync_finds_every_icon(files, resolved, files[i].0);
    lemma_first_stem_at(files, i);
}

proof fn lemma_first_stem_at(files: Seq<(Seq<char>, Seq<char>)>, i: int)
    requires
        0 <= i < files.len(),
        forall|k: int| 0 <= k < i ==> (#[trigger] files[k]).0 != files[i].0,
    ensures
        first_stem(files, files[i].0) == Some(files[i].1),
    decreases files.len(),
{
    if i > 0 {
        let rest = files.skip(1);
        assert(files[0].0 != files[i].0);
        assert forall|k: int| 0 <= k < i - 1 implies (#[trigger] rest[k]).0 != rest[i - 1].0 by {
            assert(rest[k] == files[k + 1]);
        }
        lemma_first_stem_at(rest, i - 1);
    }
}

/// An icon that no file names is not found, and neither is one without a name.
pub proof fn law_unnamed_icon_is_not_found(
    files: Seq<(Seq<char>, Seq<char>)>,
    resolved: spec_fn(Seq<char>, Seq<char>) -> Option<Seq<char>>,
    icon: Seq<char>,
)
    requires
        icon.len() == 0 || forall|k: int| 0 <= k < files.len() ==> (#[trigger] files[k]).0 != icon,
    ensures
        !SyncState::start().after_files(files, resolved).found.contains_key(icon),
        !SyncState::start().after_files(files, resolved).seen.contains(icon),
{
    law_sync_finds_every_icon(files, resolved, icon);
    if icon.len() > 0 {
        lemma_no_stem(files, icon);
    }
}

proof fn lemma_no_stem(files: Seq<(Seq<char>, Seq<char>)>, icon: Seq<char>)
    requires
        forall|k: int| 0 <= k < files.len() ==> (#[trigger] files[k]).0 != icon,
    ensures
        first_stem(files, icon) is None,
    decreases files.len(),
{
    if files.len() > 0 {
        let rest = files.skip(1);
        assert(files[0].0 != icon);
        assert forall|k: int| 0 <= k < rest.len() implies (#[trigger] rest[k]).0 != icon by {
            assert(rest[k] == files[k + 1]);
        }
        lemma_no_stem(rest, icon);
    }
}

/// A further pair is one more entry of the map, in place of an earlier one with
/// the same key.
pub proof fn law_last_pair_counts<V>(pairs: Seq<(Seq<char>, V)>, k: Seq<char>, v: V)
    ensures
        pairs_map(pairs.push((k, v))) == pairs_map(pairs).insert(k, v),
        pairs_map(Seq::<(Seq<char>, V)>::empty()) == Map::<Seq<char>, V>::empty(),
{
    assert(pairs.push((k, v)).drop_last() =~= pairs);
}

/// A text that holds an object of strings is read as that object; any other text
/// is read as an empty manifest.
pub proof fn law_manifest_is_the_object(text: Seq<char>)
    ensures
        json_strings(text) matches Some(m) ==> manifest_of(text) == m,
        json_strings(text) is None ==> manifest_of(text) == Map::<Seq<char>, Seq<char>>::empty(),
{
}

}
