//! The cache of applications: one line for each, with its name, a tab, and the
//! action that launches it.
use crate::desktop::{
    described_app, law_app_brings_nothing, law_app_is_trimmed, opt_app, AppText, DesktopApp,
};
use crate::order::{in_text_order, insert_in_order, law_text_order_total, text_le, text_order};
use crate::text::{
    chars_of, drop_return, find_char, lemma_find_char, lemma_find_char_is, lines_of,
    position, same_text, split_lines, string_of, texts,
};
use vstd::prelude::*;
use vstd::relations::sorted_by;
use vstd::string::StringExecFns;

verus! {

// ---- Age --------------------------------------------------------------------

/// The age in seconds at which a cache is out of date.
pub const CACHE_TIMEOUT_SECS: u64 = 86400;

/// Whether a cache written at `cache_mtime` is still good at `now`: it is
/// younger than a day, and no application directory changed after it.
/// A directory that does not exist has no time.
pub open spec fn is_fresh(now: int, cache_mtime: int, dir_mtimes: Seq<Option<u64>>) -> bool {
    &&& now - cache_mtime < CACHE_TIMEOUT_SECS
    &&& forall|k: int|
        0 <= k < dir_mtimes.len() ==> (#[trigger] dir_mtimes[k] matches Some(t) ==> t
            <= cache_mtime)
}

/// Whether the cache is still good. All times are in seconds since the epoch.
pub fn cache_valid(now: u64, cache_mtime: u64, dir_mtimes: &Vec<Option<u64>>) -> (r: bool)
    ensures
        r == is_fresh(now as int, cache_mtime as int, dir_mtimes@),
{
    if now >= cache_mtime && now - cache_mtime >= CACHE_TIMEOUT_SECS {
        return false;
    }
    let mut i: usize = 0;
    while i < dir_mtimes.len()
        invariant
            i <= dir_mtimes.len(),
            now - cache_mtime < CACHE_TIMEOUT_SECS,
            forall|k: int|
                0 <= k < i ==> (#[trigger] dir_mtimes@[k] matches Some(t) ==> t <= cache_mtime),
        decreases dir_mtimes.len() - i,
    {
        if let Some(t) = dir_mtimes[i] {
            if t > cache_mtime {
                return false;
            }
        }
        i = i + 1;
    }
    true
}

// ---- Laws of age --------------------------------------------------------------

/// A directory that changed after the cache was written makes it stale, wherever
/// it stands among the directories.
pub proof fn law_newer_directory_makes_stale(
    now: int,
    cache_mtime: int,
    before: Seq<Option<u64>>,
    changed: u64,
    behind: Seq<Option<u64>>,
)
    requires
        changed > cache_mtime,
    ensures
        !is_fresh(now, cache_mtime, before.push(Some(changed)) + behind),
{
    let all = before.push(Some(changed)) + behind;
    assert(all[before.len() as int] == Some(changed));
}

/// A cache that is a day old is stale, whatever the directories.
pub proof fn law_old_cache_is_stale(now: int, cache_mtime: int, dir_mtimes: Seq<Option<u64>>)
    requires
        now - cache_mtime >= 24 * 60 * 60,
    ensures
        !is_fresh(now, cache_mtime, dir_mtimes),
{
}

/// A cache that is younger than a day is good where no directory changed after it.
/// A directory that changed in the same second counts as unchanged.
pub proof fn law_young_cache_is_fresh(now: int, cache_mtime: int, dir_mtimes: Seq<Option<u64>>)
    requires
        now - cache_mtime < 24 * 60 * 60,
        forall|t: u64| #[trigger] dir_mtimes.contains(Some(t)) ==> t <= cache_mtime,
    ensures
        is_fresh(now, cache_mtime, dir_mtimes),
{
    assert forall|k: int| 0 <= k < dir_mtimes.len() implies (#[trigger] dir_mtimes[k] matches Some(
        t,
    ) ==> t <= cache_mtime) by {
        if let Some(t) = dir_mtimes[k] {
            assert(dir_mtimes.contains(Some(t)));
        }
    }
}

/// Directories are judged one by one: a list of two parts is as good as both
/// parts.
pub proof fn law_directories_count_each(
    now: int,
    cache_mtime: int,
    some: Seq<Option<u64>>,
    more: Seq<Option<u64>>,
)
    ensures
        is_fresh(now, cache_mtime, some + more) <==> is_fresh(now, cache_mtime, some) && is_fresh(
            now,
            cache_mtime,
            more,
        ),
{
    let all = some + more;
    if is_fresh(now, cache_mtime, all) {
        assert(forall|k: int| 0 <= k < some.len() ==> #[trigger] some[k] == all[k]);
        assert(forall|k: int| 0 <= k < more.len() ==> #[trigger] more[k] == all[k + some.len()]);
    }
}

/// The order in which the directories are listed does not matter.
pub proof fn law_directory_order_does_not_matter(
    now: int,
    cache_mtime: int,
    dirs: Seq<Option<u64>>,
    others: Seq<Option<u64>>,
)
    requires
        dirs.to_multiset() == others.to_multiset(),
    ensures
        is_fresh(now, cache_mtime, dirs) == is_fresh(now, cache_mtime, others),
{
    lemma_fresh_by_contents(now, cache_mtime, dirs, others);
    lemma_fresh_by_contents(now, cache_mtime, others, dirs);
}

proof fn lemma_fresh_by_contents(
    now: int,
    cache_mtime: int,
    dirs: Seq<Option<u64>>,
    others: Seq<Option<u64>>,
)
    requires
        dirs.to_multiset() == others.to_multiset(),
    ensures
        is_fresh(now, cache_mtime, dirs) ==> is_fresh(now, cache_mtime, others),
{
    broadcast use vstd::seq_lib::group_to_multiset_ensures;

    assert forall|k: int| is_fresh(now, cache_mtime, dirs) && 0 <= k < others.len() implies (#[trigger] others[k] matches Some(t) ==> t
        <= cache_mtime) by {
        assert(others.contains(others[k]));
        assert(others.to_multiset().count(others[k]) > 0);
        assert(dirs.to_multiset().count(others[k]) > 0);
        assert(dirs.contains(others[k]));
        let j = choose|j: int| 0 <= j < dirs.len() && dirs[j] == others[k];
        assert(dirs[j] == others[k]);
    }
}

// ---- Writing ----------------------------------------------------------------

/// The action that launches an application.
pub open spec fn action_of(a: AppText) -> Seq<char> {
    (if a.terminal {
        "term::"@
    } else {
        "app::"@
    }) + a.command
}

/// The line of the cache for an application.
pub open spec fn cache_line(a: AppText) -> Seq<char> {
    a.name + "\t"@ + action_of(a)
}

/// What was found in the application directories: the name of each desktop
/// file and the application that it describes, if any.
pub open spec fn found(files: Seq<(String, Option<DesktopApp>)>) -> Seq<
    (Seq<char>, Option<AppText>),
> {
    files.map_values(|f: (String, Option<DesktopApp>)| (f.0@, opt_app(f.1)))
}

/// Whether some file of the name `name` among `files` describes an application.
pub open spec fn describes(files: Seq<(Seq<char>, Option<AppText>)>, name: Seq<char>) -> bool {
    exists|k: int| 0 <= k < files.len() && (#[trigger] files[k]).0 == name && files[k].1 is Some
}

/// The applications to offer: of the files of one name the last that describes
/// an application counts.
pub open spec fn offered(files: Seq<(Seq<char>, Option<AppText>)>) -> Seq<AppText>
    decreases files.len(),
{
    if files.len() == 0 {
        seq![]
    } else {
        match files[0].1 {
            Some(a) => if describes(files.skip(1), files[0].0) {
                offered(files.skip(1))
            } else {
                seq![a] + offered(files.skip(1))
            },
            None => offered(files.skip(1)),
        }
    }
}

/// The line of each application.
pub open spec fn lines_for(apps: Seq<AppText>) -> Seq<Seq<char>> {
    apps.map_values(|a: AppText| cache_line(a))
}

/// A text of the given lines, each with its end.
pub open spec fn joined_lines(lines: Seq<Seq<char>>) -> Seq<char>
    decreases lines.len(),
{
    if lines.len() == 0 {
        seq![]
    } else {
        joined_lines(lines.drop_last()) + lines.last() + "\n"@
    }
}

/// The text of the cache: the lines of the applications to offer, in order.
pub open spec fn cache_text(files: Seq<(Seq<char>, Option<AppText>)>) -> Seq<char> {
    joined_lines(in_text_order(lines_for(offered(files))))
}

fn line_for(app: &DesktopApp) -> (r: String)
    ensures
        r@ == cache_line(app@),
{
    let mut line = app.name.clone();
    line.append("\t");
    if app.terminal {
        line.append("term::");
    } else {
        line.append("app::");
    }
    line.append(app.command.as_str());
    proof {
        assert(line@ =~= cache_line(app@));
    }
    line
}

fn described_later(files: &Vec<(String, Option<DesktopApp>)>, at: usize) -> (r: bool)
    requires
        at < files@.len(),
    ensures
        r == describes(found(files@).skip(at + 1), files@[at as int].0@),
{
    let ghost rest = found(files@).skip(at + 1);
    let count: usize = files.len();
    let mut k: usize = at + 1;
    while k < count
        invariant
            at < k <= count,
            count == files@.len(),
            rest == found(files@).skip(at + 1),
            forall|j: int|
                0 <= j < k - (at + 1) ==> !((#[trigger] rest[j]).0 == files@[at as int].0@
                    && rest[j].1 is Some),
        decreases count - k,
    {
        proof {
            assert(rest[k - (at + 1)] == found(files@)[k as int]);
        }
        if files[k].1.is_some() && same_text(files[k].0.as_str(), files[at].0.as_str()) {
            return true;
        }
        k = k + 1;
    }
    false
}

fn join_lines(lines: &Vec<String>) -> (r: String)
    ensures
        r@ == joined_lines(texts(lines@)),
{
    let mut out = String::new();
    let mut i: usize = 0;
    proof {
        assert(texts(lines@).take(0) =~= seq![]);
    }
    while i < lines.len()
        invariant
            i <= lines.len(),
            out@ == joined_lines(texts(lines@).take(i as int)),
        decreases lines.len() - i,
    {
        proof {
            let upto = texts(lines@).take(i + 1);
            assert(upto.drop_last() =~= texts(lines@).take(i as int));
            assert(upto.last() == lines@[i as int]@);
        }
        out.append(lines[i].as_str());
        out.append("\n");
        i = i + 1;
    }
    proof {
        assert(texts(lines@).take(i as int) =~= texts(lines@));
    }
    out
}

/// Writes the cache for the desktop files found, given in the order in which
/// their directories were read.
pub fn build_cache(files: &Vec<(String, Option<DesktopApp>)>) -> (r: String)
    ensures
        r@ == cache_text(found(files@)),
{
    let ghost all = found(files@);
    let ghost mut done: Seq<AppText> = seq![];
    let mut lines: Vec<String> = Vec::new();
    let mut i: usize = 0;
    proof {
        assert(all.skip(0) =~= all);
        assert(done + offered(all) =~= offered(all));
        assert(texts(lines@) =~= lines_for(done));
    }
    while i < files.len()
        invariant
            i <= files.len(),
            all == found(files@),
            done + offered(all.skip(i as int)) == offered(all),
            sorted_by(texts(lines@), text_order()),
            texts(lines@).to_multiset() == lines_for(done).to_multiset(),
        decreases files.len() - i,
    {
        let ghost rest = all.skip(i as int);
        proof {
            assert(rest[0] == all[i as int]);
            assert(rest.skip(1) =~= all.skip(i + 1));
        }
        if let Some(app) = &files[i].1 {
            if !described_later(files, i) {
                insert_in_order(&mut lines, line_for(app));
                proof {
                    let a = app@;
                    assert(rest[0].1 == Some(a));
                    assert(done.push(a) + offered(rest.skip(1)) =~= done + (seq![a] + offered(
                        rest.skip(1),
                    )));
                    assert(lines_for(done.push(a)) =~= lines_for(done).push(cache_line(a)));
                    vstd::seq_lib::to_multiset_build(lines_for(done), cache_line(a));
                    done = done.push(a);
                }
            }
        }
        i = i + 1;
    }
    proof {
        assert(all.skip(i as int) =~= seq![]);
        assert(done + offered(all.skip(i as int)) =~= done);
        law_text_order_total();
        lines_for(done).lemma_sort_by_ensures(text_order());
        vstd::seq_lib::lemma_sorted_unique(
            texts(lines@),
            in_text_order(lines_for(done)),
            text_order(),
        );
    }
    join_lines(&lines)
}

// ---- Reading ----------------------------------------------------------------

/// The name and the action on a line of the cache: what stands before and
/// behind its first tab, where neither is empty.
pub open spec fn entry_on(line: Seq<char>) -> Option<(Seq<char>, Seq<char>)> {
    let i = find_char(line, '\t');
    if 0 < i < line.len() - 1 {
        Some((line.take(i), line.skip(i + 1)))
    } else {
        None
    }
}

/// The entries on the lines that hold one.
pub open spec fn entries_on(lines: Seq<Seq<char>>) -> Seq<(Seq<char>, Seq<char>)>
    decreases lines.len(),
{
    if lines.len() == 0 {
        seq![]
    } else {
        match entry_on(lines.last()) {
            Some(e) => entries_on(lines.drop_last()).push(e),
            None => entries_on(lines.drop_last()),
        }
    }
}

/// The contents of a list of pairs of strings.
pub open spec fn text_pairs(v: Seq<(String, String)>) -> Seq<(Seq<char>, Seq<char>)> {
    v.map_values(|p: (String, String)| (p.0@, p.1@))
}

/// Reads the names and actions from the text of a cache.
pub fn load_entries(text: &str) -> (r: Vec<(String, String)>)
    ensures
        text_pairs(r@) == entries_on(lines_of(text@)),
{
    let whole = chars_of(text);
    let lines = split_lines(whole.as_slice());
    let ghost all = texts(lines@);
    let mut out: Vec<(String, String)> = Vec::new();
    let mut i: usize = 0;
    proof {
        assert(all.take(0) =~= seq![]);
        assert(text_pairs(out@) =~= seq![]);
    }
    while i < lines.len()
        invariant
            i <= lines.len(),
            all == texts(lines@),
            text_pairs(out@) == entries_on(all.take(i as int)),
        decreases lines.len() - i,
    {
        let line = chars_of(lines[i].as_str());
        let tab: usize = position(line.as_slice(), '\t');
        let ghost before = out@;
        proof {
            let upto = all.take(i + 1);
            assert(upto.drop_last() =~= all.take(i as int));
            assert(upto.last() == line@);
        }
        if 0 < tab && tab < line.len() && tab + 1 < line.len() {
            let s = line.as_slice();
            let name = &s[0..tab];
            let action = &s[tab + 1..s.len()];
            out.push((string_of(name), string_of(action)));
            proof {
                assert(name@ =~= line@.take(tab as int));
                assert(action@ =~= line@.skip(tab + 1));
                assert(text_pairs(out@) =~= text_pairs(before).push((name@, action@)));
            }
        }
        i = i + 1;
    }
    proof {
        assert(all.take(i as int) =~= all);
    }
    out
}

// ---- Laws -------------------------------------------------------------------

/// Whether an application comes back from the cache as it was written: its name
/// and command are not empty, neither spans lines, the name holds no tab, and
/// the command does not end in a carriage return.
pub open spec fn is_cacheable(a: AppText) -> bool {
    &&& a.name.len() > 0
    &&& !a.name.contains('\t')
    &&& !a.name.contains('\n')
    &&& a.command.len() > 0
    &&& !a.command.contains('\n')
    &&& a.command.last() != '\r'
}

/// Whether a line survives being written and read: it holds no line feed and
/// does not end in a carriage return.
pub open spec fn is_one_line(line: Seq<char>) -> bool {
    !line.contains('\n') && drop_return(line) == line
}

proof fn lemma_lines_of_append(s: Seq<char>, line: Seq<char>)
    requires
        s.len() > 0 ==> s.last() == '\n',
        is_one_line(line),
    ensures
        lines_of(s + line + "\n"@) == lines_of(s).push(line),
    decreases s.len(),
{
    reveal_strlit("\n");
    let t = s + line + "\n"@;
    if s.len() == 0 {
        assert forall|k: int| 0 <= k < line.len() implies #[trigger] t[k] != '\n' by {
            assert(t[k] == line[k]);
            assert(line.contains(line[k]));
        }
        lemma_find_char_is(t, '\n', line.len() as int);
        assert(t.take(line.len() as int) =~= line);
        assert(t.skip(line.len() as int + 1) =~= seq![]);
        assert(seq![line] + lines_of(t.skip(line.len() as int + 1)) =~= seq![line]);
        assert(lines_of(s).push(line) =~= seq![line]);
    } else {
        lemma_find_char(s, '\n');
        let i = find_char(s, '\n');
        if i == s.len() {
            assert(s[s.len() - 1] != '\n');
        }
        assert forall|k: int| 0 <= k < i implies #[trigger] t[k] != '\n' by {
            assert(t[k] == s[k]);
        }
        lemma_find_char_is(t, '\n', i);
        let rest = s.skip(i + 1);
        assert(rest.len() > 0 ==> rest.last() == s.last());
        lemma_lines_of_append(rest, line);
        assert(t.take(i) =~= s.take(i));
        assert(t.skip(i + 1) =~= rest + line + "\n"@);
        let head = seq![drop_return(s.take(i))];
        assert(head + lines_of(rest).push(line) =~= (head + lines_of(rest)).push(line));
    }
}

/// Lines that are written one after the other are read back as they were.
pub proof fn law_lines_read_back(lines: Seq<Seq<char>>)
    requires
        forall|k: int| 0 <= k < lines.len() ==> is_one_line(#[trigger] lines[k]),
    ensures
        lines_of(joined_lines(lines)) == lines,
    decreases lines.len(),
{
    if lines.len() == 0 {
        assert(lines_of(joined_lines(lines)) =~= lines);
    } else {
        let earlier = lines.drop_last();
        assert(forall|k: int| 0 <= k < earlier.len() ==> #[trigger] earlier[k] == lines[k]);
        law_lines_read_back(earlier);
        let s = joined_lines(earlier);
        if earlier.len() > 0 {
            reveal_strlit("\n");
            assert(s.last() == '\n');
        }
        assert(is_one_line(lines[lines.len() - 1]));
        lemma_lines_of_append(s, lines.last());
        assert(lines_of(s).push(lines.last()) =~= lines);
    }
}

/// The entry on the line of an application is its name and its action.
pub proof fn law_line_reads_back(a: AppText)
    requires
        is_cacheable(a),
    ensures
        is_one_line(cache_line(a)),
        entry_on(cache_line(a)) == Some((a.name, action_of(a))),
{
    reveal_strlit("\t");
    reveal_strlit("term::");
    reveal_strlit("app::");
    let line = cache_line(a);
    let n = a.name.len() as int;
    assert forall|k: int| 0 <= k < n implies #[trigger] line[k] != '\t' by {
        assert(line[k] == a.name[k]);
        assert(a.name.contains(a.name[k]));
    }
    assert(line[n] == '\t');
    lemma_find_char_is(line, '\t', n);
    assert(line.take(n) =~= a.name);
    assert(line.skip(n + 1) =~= action_of(a));
    assert forall|k: int| 0 <= k < line.len() implies #[trigger] line[k] != '\n' by {
        if k < n {
            assert(a.name.contains(a.name[k]));
        } else if k > n {
            let act = action_of(a);
            let p = act.len() - a.command.len();
            assert(line[k] == act[k - n - 1]);
            if k - n - 1 >= p {
                assert(act[k - n - 1] == a.command[k - n - 1 - p]);
                assert(a.command.contains(a.command[k - n - 1 - p]));
            }
        }
    }
    assert(line.last() == a.command.last());
}

/// What the lines of `apps` hold, as names and actions.
pub open spec fn entries_for(apps: Seq<AppText>) -> Seq<(Seq<char>, Seq<char>)> {
    apps.map_values(|a: AppText| (a.name, action_of(a)))
}

proof fn lemma_entries_on_all(lines: Seq<Seq<char>>)
    requires
        forall|k: int| 0 <= k < lines.len() ==> entry_on(#[trigger] lines[k]) is Some,
    ensures
        entries_on(lines) == lines.map_values(|l: Seq<char>| entry_on(l)->0),
    decreases lines.len(),
{
    let f = |l: Seq<char>| entry_on(l)->0;
    if lines.len() > 0 {
        let earlier = lines.drop_last();
        assert(forall|k: int| 0 <= k < earlier.len() ==> #[trigger] earlier[k] == lines[k]);
        lemma_entries_on_all(earlier);
        assert(entry_on(lines[lines.len() - 1]) is Some);
        assert(earlier.map_values(f).push(entry_on(lines.last())->0) =~= lines.map_values(f));
    } else {
        assert(lines.map_values(f) =~= seq![]);
    }
}

proof fn lemma_map_multiset<A, B>(x: Seq<A>, y: Seq<A>, f: spec_fn(A) -> B)
    requires
        x.to_multiset() == y.to_multiset(),
    ensures
        x.map_values(f).to_multiset() == y.map_values(f).to_multiset(),
    decreases x.len(),
{
    broadcast use vstd::seq_lib::group_to_multiset_ensures;

    if x.len() == 0 {
        assert(y.len() == y.to_multiset().len());
        assert(x.map_values(f) =~= y.map_values(f));
    } else {
        let a = x.last();
        assert(x.contains(a));
        assert(y.to_multiset().count(a) > 0);
        assert(y.contains(a));
        let i = choose|i: int| 0 <= i < y.len() && y[i] == a;
        let p = x.drop_last();
        let q = y.remove(i);
        assert(p.push(a) =~= x);
        assert(p.to_multiset() =~= x.to_multiset().remove(a));
        assert(q.to_multiset() =~= y.to_multiset().remove(a));
        lemma_map_multiset(p, q, f);
        assert(x.map_values(f) =~= p.map_values(f).push(f(a)));
        assert(y.map_values(f).remove(i) =~= q.map_values(f));
        assert(y.map_values(f)[i] == f(a));
        assert(y.map_values(f).to_multiset() =~= q.map_values(f).to_multiset().insert(f(a)));
    }
}

/// The cache gives back what was written to it: reading its text gives exactly
/// the name and the action of each application offered, once for each, ordered
/// as their lines are.
pub proof fn law_cache_reads_back(files: Seq<(Seq<char>, Option<AppText>)>)
    requires
        forall|k: int| 0 <= k < offered(files).len() ==> is_cacheable(#[trigger] offered(files)[k]),
    ensures
        lines_of(cache_text(files)) == in_text_order(lines_for(offered(files))),
        entries_on(lines_of(cache_text(files))).to_multiset() == entries_for(
            offered(files),
        ).to_multiset(),
        entries_on(lines_of(cache_text(files))).len() == offered(files).len(),
{
    broadcast use vstd::seq_lib::group_to_multiset_ensures;

    let apps = offered(files);
    let unsorted = lines_for(apps);
    let lines = in_text_order(unsorted);
    law_text_order_total();
    unsorted.lemma_sort_by_ensures(text_order());
    assert forall|k: int| 0 <= k < lines.len() implies is_one_line(#[trigger] lines[k]) && entry_on(
        lines[k],
    ) is Some by {
        assert(lines.contains(lines[k]));
        assert(unsorted.contains(lines[k]));
        let j = choose|j: int| 0 <= j < unsorted.len() && unsorted[j] == lines[k];
        assert(is_cacheable(apps[j]));
        law_line_reads_back(apps[j]);
    }
    law_lines_read_back(lines);
    lemma_entries_on_all(lines);
    let f = |l: Seq<char>| entry_on(l)->0;
    lemma_map_multiset(unsorted, lines, f);
    assert forall|k: int| 0 <= k < apps.len() implies #[trigger] unsorted.map_values(f)[k]
        == entries_for(apps)[k] by {
        assert(is_cacheable(apps[k]));
        law_line_reads_back(apps[k]);
    }
    assert(unsorted.map_values(f) =~= entries_for(apps));
    assert(lines.len() == lines.to_multiset().len());
    assert(unsorted.len() == unsorted.to_multiset().len());
}

proof fn lemma_offered_from(files: Seq<(Seq<char>, Option<AppText>)>, k: int)
    requires
        0 <= k < offered(files).len(),
    ensures
        exists|j: int|
            0 <= j < files.len() && (#[trigger] files[j]).1 == Some(offered(files)[k]),
    decreases files.len(),
{
    if files.len() > 0 {
        let rest = files.skip(1);
        let shift = offered(files).len() - offered(rest).len();
        if k >= shift {
            lemma_offered_from(rest, k - shift);
            let j = choose|j: int|
                0 <= j < rest.len() && (#[trigger] rest[j]).1 == Some(offered(rest)[k - shift]);
            assert(files[j + 1] == rest[j]);
            assert(offered(files)[k] == offered(rest)[k - shift]);
        } else {
            assert(files[0].1 == Some(offered(files)[k]));
        }
    }
}

/// An application that was read from the lines of a file comes back from the
/// cache as it was written, unless its name holds a tab.
pub proof fn law_described_app_is_cacheable(lines: Seq<Seq<char>>)
    requires
        forall|k: int| 0 <= k < lines.len() ==> !(#[trigger] lines[k]).contains('\n'),
    ensures
        described_app(lines) matches Some(a) ==> (is_cacheable(a) <==> !a.name.contains('\t')),
{
    law_app_brings_nothing(lines, '\n');
    law_app_is_trimmed(lines);
}

/// What the directories hold, where each file is given by its name and lines.
pub open spec fn read_files(files: Seq<(Seq<char>, Seq<Seq<char>>)>) -> Seq<
    (Seq<char>, Option<AppText>),
> {
    files.map_values(|f: (Seq<char>, Seq<Seq<char>>)| (f.0, described_app(f.1)))
}

/// From the desktop files to the list of the launcher: where no name holds a
/// tab, the cache built from the lines of the files gives back the name and the
/// action of each application offered, once for each.
pub proof fn law_desktop_files_read_back(files: Seq<(Seq<char>, Seq<Seq<char>>)>)
    requires
        forall|i: int, k: int|
            0 <= i < files.len() && 0 <= k < files[i].1.len() ==> !(
            #[trigger] files[i].1[k]).contains('\n'),
        forall|i: int|
            0 <= i < files.len() ==> (described_app((#[trigger] files[i]).1) matches Some(a)
                ==> !a.name.contains('\t')),
    ensures
        entries_on(lines_of(cache_text(read_files(files)))).to_multiset() == entries_for(
            offered(read_files(files)),
        ).to_multiset(),
{
    let all = read_files(files);
    assert forall|k: int| 0 <= k < offered(all).len() implies is_cacheable(
        #[trigger] offered(all)[k],
    ) by {
        lemma_offered_from(all, k);
        let j = choose|j: int|
            0 <= j < all.len() && (#[trigger] all[j]).1 == Some(offered(all)[k]);
        assert(all[j].1 == described_app(files[j].1));
        law_described_app_is_cacheable(files[j].1);
    }
    law_cache_reads_back(all);
}

/// `files` without those of the name `name`.
pub open spec fn without_name(
    files: Seq<(Seq<char>, Option<AppText>)>,
    name: Seq<char>,
) -> Seq<(Seq<char>, Option<AppText>)>
    decreases files.len(),
{
    if files.len() == 0 {
        seq![]
    } else if files[0].0 == name {
        without_name(files.skip(1), name)
    } else {
        seq![files[0]] + without_name(files.skip(1), name)
    }
}

proof fn lemma_describes_front(
    f: (Seq<char>, Option<AppText>),
    rest: Seq<(Seq<char>, Option<AppText>)>,
    name: Seq<char>,
)
    ensures
        describes(seq![f] + rest, name) == ((f.0 == name && f.1 is Some) || describes(rest, name)),
{
    let all = seq![f] + rest;
    if describes(all, name) {
        let k = choose|k: int|
            0 <= k < all.len() && (#[trigger] all[k]).0 == name && all[k].1 is Some;
        if k > 0 {
            assert(rest[k - 1] == all[k]);
        }
    }
    if describes(rest, name) {
        let k = choose|k: int|
            0 <= k < rest.len() && (#[trigger] rest[k]).0 == name && rest[k].1 is Some;
        assert(all[k + 1] == rest[k]);
    }
    if f.0 == name && f.1 is Some {
        assert(all[0] == f);
    }
}

proof fn lemma_describes_without(
    files: Seq<(Seq<char>, Option<AppText>)>,
    name: Seq<char>,
    other: Seq<char>,
)
    requires
        other != name,
    ensures
        describes(without_name(files, name), other) == describes(files, other),
    decreases files.len(),
{
    if files.len() > 0 {
        let rest = files.skip(1);
        lemma_describes_without(rest, name, other);
        assert(files =~= seq![files[0]] + rest);
        lemma_describes_front(files[0], rest, other);
        lemma_describes_front(files[0], without_name(rest, name), other);
    }
}

/// A file that describes an application takes the place of every earlier one of
/// the same name: the user's file overrides the system's.
pub proof fn law_later_file_overrides(
    files: Seq<(Seq<char>, Option<AppText>)>,
    name: Seq<char>,
    app: AppText,
)
    ensures
        offered(files.push((name, Some(app)))) == offered(without_name(files, name)).push(app),
    decreases files.len(),
{
    let last = (name, Some(app));
    let all = files.push(last);
    if files.len() == 0 {
        assert(all.skip(1) =~= seq![]);
        assert(offered(all.skip(1)) =~= seq![]);
        assert(all[0] == last);
        assert(!describes(all.skip(1), name));
        assert(offered(all) =~= seq![app]);
        assert(offered(without_name(files, name)).push(app) =~= seq![app]);
    } else {
        let f = files[0];
        let rest = files.skip(1);
        law_later_file_overrides(rest, name, app);
        assert(all.skip(1) =~= rest.push(last));
        assert(all[0] == f);
        assert(describes(rest.push(last), f.0) == (describes(rest, f.0) || f.0 == name)) by {
            let r = rest.push(last);
            if describes(r, f.0) {
                let k = choose|k: int|
                    0 <= k < r.len() && (#[trigger] r[k]).0 == f.0 && r[k].1 is Some;
                if k < rest.len() {
                    assert(rest[k] == r[k]);
                }
            }
            if describes(rest, f.0) {
                let k = choose|k: int|
                    0 <= k < rest.len() && (#[trigger] rest[k]).0 == f.0 && rest[k].1 is Some;
                assert(r[k] == rest[k]);
            }
            assert(r[rest.len() as int] == last);
        }
        if f.0 != name {
            let kept = without_name(rest, name);
            lemma_describes_without(rest, name, f.0);
            assert((seq![f] + kept).skip(1) =~= kept);
            assert((seq![f] + kept)[0] == f);
            if let Some(a) = f.1 {
                assert(seq![a] + offered(kept).push(app) =~= (seq![a] + offered(kept)).push(app));
            }
        }
    }
}

proof fn lemma_without_name_is_filter(
    files: Seq<(Seq<char>, Option<AppText>)>,
    name: Seq<char>,
)
    ensures
        without_name(files, name) == files.filter(|f: (Seq<char>, Option<AppText>)| f.0 != name),
    decreases files.len(),
{
    let other = |f: (Seq<char>, Option<AppText>)| f.0 != name;
    reveal(Seq::filter);
    if files.len() > 0 {
        let one = seq![files[0]];
        let rest = files.skip(1);
        lemma_without_name_is_filter(rest, name);
        Seq::filter_distributes_over_add(one, rest, other);
        assert(one + rest =~= files);
        assert(one.drop_last() =~= seq![]);
        assert(one.drop_last().filter(other) =~= seq![]);
        if other(files[0]) {
            assert(one.filter(other) =~= one);
        } else {
            assert(one.filter(other) =~= seq![]);
            assert(Seq::empty() + rest.filter(other) =~= rest.filter(other));
        }
    } else {
        assert(files.filter(other) =~= seq![]);
    }
}

proof fn lemma_describes_push_none(
    files: Seq<(Seq<char>, Option<AppText>)>,
    hidden: Seq<char>,
    name: Seq<char>,
)
    ensures
        describes(files.push((hidden, None)), name) == describes(files, name),
{
    let all = files.push((hidden, None));
    if describes(all, name) {
        let k = choose|k: int|
            0 <= k < all.len() && (#[trigger] all[k]).0 == name && all[k].1 is Some;
        assert(files[k] == all[k]);
    }
    if describes(files, name) {
        let k = choose|k: int|
            0 <= k < files.len() && (#[trigger] files[k]).0 == name && files[k].1 is Some;
        assert(all[k] == files[k]);
    }
}

proof fn lemma_offered_push_none(files: Seq<(Seq<char>, Option<AppText>)>, hidden: Seq<char>)
    ensures
        offered(files.push((hidden, None))) == offered(files),
    decreases files.len(),
{
    let all = files.push((hidden, None));
    if files.len() == 0 {
        assert(all.skip(1) =~= seq![]);
        assert(offered(all.skip(1)) =~= seq![]);
        assert(all[0].1 is None);
    } else {
        let rest = files.skip(1);
        lemma_offered_push_none(rest, hidden);
        lemma_describes_push_none(rest, hidden, files[0].0);
        assert(all.skip(1) =~= rest.push((hidden, None)));
        assert(all[0] == files[0]);
    }
}

/// What each file adds to the applications offered, file by file: one that
/// describes an application adds it, and takes away that of every earlier file of
/// the same name; one that describes none changes nothing.
pub proof fn law_files_count_in_order(
    files: Seq<(Seq<char>, Option<AppText>)>,
    name: Seq<char>,
    app: AppText,
)
    ensures
        offered(seq![]) == Seq::<AppText>::empty(),
        offered(files.push((name, None))) == offered(files),
        offered(files.push((name, Some(app)))) == offered(
            files.filter(|f: (Seq<char>, Option<AppText>)| f.0 != name),
        ).push(app),
{
    assert(offered(seq![]) =~= seq![]);
    lemma_offered_push_none(files, name);
    law_later_file_overrides(files, name, app);
    lemma_without_name_is_filter(files, name);
}

/// Each application offered has its line in the cache: its name, a tab, how it is
/// launched, and its command. The lines stand in order, and there are no others.
pub proof fn law_cache_has_a_line_for_each(files: Seq<(Seq<char>, Option<AppText>)>)
    requires
        forall|k: int| 0 <= k < offered(files).len() ==> is_cacheable(#[trigger] offered(files)[k]),
    ensures
        lines_of(cache_text(files)).len() == offered(files).len(),
        forall|i: int, j: int|
            0 <= i < j < offered(files).len() ==> text_le(
                #[trigger] lines_of(cache_text(files))[i],
                #[trigger] lines_of(cache_text(files))[j],
            ),
        forall|k: int|
            0 <= k < offered(files).len() ==> lines_of(cache_text(files)).contains(
                (#[trigger] offered(files)[k]).name.push('\t') + (if offered(files)[k].terminal {
                    "term::"@
                } else {
                    "app::"@
                }) + offered(files)[k].command,
            ),
{
    broadcast use vstd::seq_lib::group_to_multiset_ensures;

    law_cache_reads_back(files);
    let apps = offered(files);
    let unsorted = lines_for(apps);
    let lines = in_text_order(unsorted);
    law_text_order_total();
    unsorted.lemma_sort_by_ensures(text_order());
    assert(lines.len() == lines.to_multiset().len());
    assert(unsorted.len() == unsorted.to_multiset().len());
    let r = text_order();
    assert forall|i: int, j: int| 0 <= i < j < apps.len() implies text_le(
        #[trigger] lines[i],
        #[trigger] lines[j],
    ) by {
        assert(r(lines[i], lines[j]));
    }
    assert forall|k: int| 0 <= k < apps.len() implies lines.contains(
        (#[trigger] apps[k]).name.push('\t') + (if apps[k].terminal {
            "term::"@
        } else {
            "app::"@
        }) + apps[k].command,
    ) by {
        let a = apps[k];
        law_line_of_an_application(a);
        assert(unsorted[k] == cache_line(a));
        assert(unsorted.contains(cache_line(a)));
        assert(unsorted.to_multiset().count(cache_line(a)) > 0);
        assert(lines.to_multiset().count(cache_line(a)) > 0);
        assert(lines.contains(cache_line(a)));
    }
}

/// The line of an application is its name, a tab, how it is launched, and its
/// command.
pub proof fn law_line_of_an_application(a: AppText)
    ensures
        cache_line(a) == a.name.push('\t') + (if a.terminal {
            "term::"@
        } else {
            "app::"@
        }) + a.command,
{
    reveal_strlit("\t");
    assert(a.name + "\t"@ =~= a.name.push('\t'));
    let p = if a.terminal {
        "term::"@
    } else {
        "app::"@
    };
    assert(a.name.push('\t') + (p + a.command) =~= a.name.push('\t') + p + a.command);
}

/// Lines are read one by one: a name and an action, neither of them empty, around
/// the first tab make an entry; any other line makes none.
pub proof fn law_entries_line_by_line(
    lines: Seq<Seq<char>>,
    more: Seq<Seq<char>>,
    name: Seq<char>,
    action: Seq<char>,
)
    requires
        !name.contains('\t'),
    ensures
        entries_on(seq![]) == Seq::<(Seq<char>, Seq<char>)>::empty(),
        entries_on(lines + more) == entries_on(lines) + entries_on(more),
        name.len() > 0 && action.len() > 0 ==> entries_on(seq![name.push('\t') + action]) == seq![
            (name, action),
        ],
        name.len() == 0 || action.len() == 0 ==> entries_on(seq![name.push('\t') + action])
            == Seq::<(Seq<char>, Seq<char>)>::empty(),
        entries_on(seq![name]) == Seq::<(Seq<char>, Seq<char>)>::empty(),
{
    lemma_entries_concat(lines, more);
    let none = Seq::<(Seq<char>, Seq<char>)>::empty();
    assert(entries_on(seq![]) =~= none);
    assert forall|k: int| 0 <= k < name.len() implies #[trigger] name[k] != '\t' by {
        assert(name.contains(name[k]));
    }
    lemma_find_char_is(name, '\t', name.len() as int);
    let line = name.push('\t') + action;
    let n = name.len() as int;
    assert(forall|k: int| 0 <= k < n ==> #[trigger] line[k] == name[k]);
    assert(line[n] == '\t');
    lemma_find_char_is(line, '\t', n);
    assert(line.take(n) =~= name);
    assert(line.skip(n + 1) =~= action);
    assert(seq![line].drop_last() =~= seq![]);
    assert(seq![name].drop_last() =~= seq![]);
    assert(none.push((name, action)) =~= seq![(name, action)]);
}

proof fn lemma_entries_concat(a: Seq<Seq<char>>, b: Seq<Seq<char>>)
    ensures
        entries_on(a + b) == entries_on(a) + entries_on(b),
    decreases b.len(),
{
    if b.len() == 0 {
        assert(a + b =~= a);
        assert(entries_on(a) + entries_on(b) =~= entries_on(a));
    } else {
        let c = b.drop_last();
        lemma_entries_concat(a, c);
        assert((a + b).drop_last() =~= a + c);
        assert((a + b).last() == b.last());
        if let Some(e) = entry_on(b.last()) {
            assert((entries_on(a) + entries_on(c)).push(e) =~= entries_on(a) + entries_on(c).push(
                e,
            ));
        }
    }
}

/// Lines are written one behind the other, each with its end.
pub proof fn law_lines_are_joined(lines: Seq<Seq<char>>, line: Seq<char>)
    ensures
        joined_lines(seq![]) == Seq::<char>::empty(),
        joined_lines(lines.push(line)) == (joined_lines(lines) + line).push('\n'),
{
    reveal_strlit("\n");
    assert(lines.push(line).drop_last() =~= lines);
    assert(joined_lines(lines) + line + "\n"@ =~= (joined_lines(lines) + line).push('\n'));
    assert(joined_lines(seq![]) =~= seq![]);
}

/// The text of the cache is made of exactly one line for each application offered,
/// whatever its name and command hold, in the order of texts.
pub proof fn law_cache_is_made_of_its_lines(files: Seq<(Seq<char>, Option<AppText>)>)
    ensures
        exists|lines: Seq<Seq<char>>|
            {
                &&& cache_text(files) == #[trigger] joined_lines(lines)
                &&& sorted_by(lines, |a: Seq<char>, b: Seq<char>| text_le(a, b))
                &&& lines.to_multiset() == offered(files).map_values(
                    |a: AppText|
                        a.name.push('\t') + (if a.terminal {
                            "term::"@
                        } else {
                            "app::"@
                        }) + a.command,
                ).to_multiset()
            },
{
    let apps = offered(files);
    let lines = in_text_order(lines_for(apps));
    law_text_order_total();
    lines_for(apps).lemma_sort_by_ensures(text_order());
    let f = |a: AppText|
        a.name.push('\t') + (if a.terminal {
            "term::"@
        } else {
            "app::"@
        }) + a.command;
    assert forall|k: int| 0 <= k < apps.len() implies lines_for(apps)[k] == #[trigger] apps.map_values(
        f,
    )[k] by {
        law_line_of_an_application(apps[k]);
    }
    assert(lines_for(apps) =~= apps.map_values(f));
    assert(text_order() =~= (|a: Seq<char>, b: Seq<char>| text_le(a, b)));
    assert(cache_text(files) == joined_lines(lines));
}

/// What was found is what each file is called and describes; entries are what each
/// pair holds.
pub proof fn law_files_and_entries_one_by_one(
    files: Seq<(String, Option<DesktopApp>)>,
    entries: Seq<(String, String)>,
)
    ensures
        found(files).len() == files.len(),
        forall|k: int| 0 <= k < files.len() ==> (#[trigger] found(files)[k]).0 == files[k].0@,
        forall|k: int|
            0 <= k < files.len() ==> (#[trigger] found(files)[k]).1 == (match files[k].1 {
                Some(a) => Some(
                    AppText { name: a.name@, command: a.command@, terminal: a.terminal },
                ),
                None => None,
            }),
        text_pairs(entries).len() == entries.len(),
        forall|k: int|
            0 <= k < entries.len() ==> #[trigger] text_pairs(entries)[k] == (
                entries[k].0@,
                entries[k].1@,
            ),
{
}

}
