//! File paths as texts: how they are joined, taken apart and compared, and where
//! the launcher keeps and finds its files.
use crate::numbers::{decimal, decimal_text};
use crate::text::{
    chars_of, find_char, law_splitting_cuts_at_the_separator, lemma_find_char, opt_str, opt_text,
    same_text, split_at_char, split_chars, string_of, texts,
};
use vstd::prelude::*;
use vstd::string::StringExecFns;

verus! {

// ---- Joining ----------------------------------------------------------------

/// Whether a path starts at the root.
pub open spec fn is_absolute(p: Seq<char>) -> bool {
    p.len() > 0 && p[0] == '/'
}

/// `rel` seen from the directory `base`; an absolute `rel` stands for itself.
pub open spec fn joined(base: Seq<char>, rel: Seq<char>) -> Seq<char> {
    if is_absolute(rel) {
        rel
    } else if base.len() == 0 || base.last() == '/' {
        base + rel
    } else {
        base + "/"@ + rel
    }
}

/// Joins a path to a directory.
pub fn join_path(base: &str, rel: &str) -> (r: String)
    ensures
        r@ == joined(base@, rel@),
{
    let b = chars_of(base);
    let p = chars_of(rel);
    if p.len() > 0 && p[0] == '/' {
        return rel.to_string();
    }
    let mut out = base.to_string();
    if b.len() > 0 && b[b.len() - 1] != '/' {
        out.append("/");
    }
    out.append(rel);
    out
}

// ---- Taking apart -----------------------------------------------------------

/// The parts of a path that name something: neither empty nor a single dot.
pub open spec fn named_parts(parts: Seq<Seq<char>>) -> Seq<Seq<char>> {
    parts.filter(|x: Seq<char>| x.len() > 0 && x != "."@)
}

/// The components of a path. Repeated and trailing separators and single dots
/// are left out, but for a single dot at the start of a relative path.
pub open spec fn components(p: Seq<char>) -> Seq<Seq<char>> {
    let parts = split_at_char(p, '/');
    if !is_absolute(p) && parts[0] == "."@ {
        seq!["."@] + named_parts(parts)
    } else {
        named_parts(parts)
    }
}

/// Whether two paths are the same, component by component.
pub open spec fn same_place(a: Seq<char>, b: Seq<char>) -> bool {
    is_absolute(a) == is_absolute(b) && components(a) == components(b)
}

/// The name of the file at a path: its last component, unless that is a dot or
/// two.
pub open spec fn file_name_of(p: Seq<char>) -> Option<Seq<char>> {
    let c = components(p);
    if c.len() > 0 && c.last() != "."@ && c.last() != ".."@ {
        Some(c.last())
    } else {
        None
    }
}

/// Where the last dot of a name stands; -1 where there is none.
pub open spec fn last_dot(name: Seq<char>) -> int
    decreases name.len(),
{
    if name.len() == 0 {
        -1
    } else if name.last() == '.' {
        name.len() - 1
    } else {
        last_dot(name.drop_last())
    }
}

/// A file name without its extension. A dot at the start begins no extension.
pub open spec fn stem_of(name: Seq<char>) -> Seq<char> {
    if last_dot(name) > 0 {
        name.take(last_dot(name))
    } else {
        name
    }
}

/// The extension of a file name, if it has one.
pub open spec fn extension_of(name: Seq<char>) -> Option<Seq<char>> {
    if last_dot(name) > 0 {
        Some(name.skip(last_dot(name) + 1))
    } else {
        None
    }
}

proof fn lemma_last_dot_at(name: Seq<char>, n: int)
    requires
        -1 <= n < name.len(),
        forall|k: int| n < k < name.len() ==> #[trigger] name[k] != '.',
        n >= 0 ==> name[n] == '.',
    ensures
        last_dot(name) == n,
    decreases name.len(),
{
    if name.len() > 0 && n < name.len() - 1 {
        assert(name[name.len() - 1] != '.');
        let t = name.drop_last();
        assert(forall|k: int| 0 <= k < t.len() ==> #[trigger] t[k] == name[k]);
        lemma_last_dot_at(t, n);
    }
}

/// The place behind the last dot of a name; 0 where there is none.
fn behind_last_dot(name: &[char]) -> (r: usize)
    ensures
        r == last_dot(name@) + 1,
        r <= name@.len(),
{
    let mut i: usize = name.len();
    while i > 0
        invariant
            i <= name.len(),
            forall|k: int| i <= k < name.len() ==> #[trigger] name@[k] != '.',
        decreases i,
    {
        if name[i - 1] == '.' {
            proof {
                lemma_last_dot_at(name@, i - 1);
            }
            return i;
        }
        i = i - 1;
    }
    proof {
        lemma_last_dot_at(name@, -1);
    }
    0
}

/// The components of a path.
pub fn path_components(p: &str) -> (r: Vec<String>)
    ensures
        texts(r@) == components(p@),
{
    let s = chars_of(p);
    let parts = split_chars(s.as_slice(), '/');
    let ghost all = texts(parts@);
    let ghost named = |x: Seq<char>| x.len() > 0 && x != "."@;
    let mut out: Vec<String> = Vec::new();
    let absolute = s.len() > 0 && s[0] == '/';
    if !absolute && same_text(parts[0].as_str(), ".") {
        out.push(".".to_string());
    }
    let ghost lead = texts(out@);
    let mut i: usize = 0;
    proof {
        assert(lead =~= (if !is_absolute(p@) && all[0] == "."@ {
            seq!["."@]
        } else {
            seq![]
        }));
        assert(all.take(0).filter(named) =~= seq![]) by {
            reveal(Seq::filter);
        }
        assert(lead + seq![] =~= lead);
    }
    while i < parts.len()
        invariant
            i <= parts.len(),
            all == texts(parts@),
            named == (|x: Seq<char>| x.len() > 0 && x != "."@),
            texts(out@) == lead + all.take(i as int).filter(named),
        decreases parts.len() - i,
    {
        let ghost before = out@;
        let ghost x = parts@[i as int]@;
        proof {
            let upto = all.take(i + 1);
            assert(upto.drop_last() =~= all.take(i as int));
            assert(upto.last() == x);
            reveal(Seq::filter);
        }
        if !parts[i].as_str().is_empty() && !same_text(parts[i].as_str(), ".") {
            out.push(parts[i].clone());
            proof {
                assert(texts(out@) =~= texts(before).push(x));
                assert(lead + all.take(i as int).filter(named).push(x) =~= texts(before).push(x));
            }
        }
        i = i + 1;
    }
    proof {
        assert(all.take(i as int) =~= all);
        assert(texts(out@) =~= components(p@));
    }
    out
}

fn same_texts(a: &Vec<String>, b: &Vec<String>) -> (r: bool)
    ensures
        r == (texts(a@) == texts(b@)),
{
    if a.len() != b.len() {
        proof {
            assert(texts(a@).len() != texts(b@).len());
        }
        return false;
    }
    let mut i: usize = 0;
    while i < a.len()
        invariant
            i <= a.len(),
            a.len() == b.len(),
            forall|k: int| 0 <= k < i ==> (#[trigger] a@[k])@ == b@[k]@,
        decreases a.len() - i,
    {
        if !same_text(a[i].as_str(), b[i].as_str()) {
            proof {
                assert(texts(a@)[i as int] != texts(b@)[i as int]);
            }
            return false;
        }
        i = i + 1;
    }
    proof {
        assert(texts(a@) =~= texts(b@));
    }
    true
}

/// Whether two paths are the same, component by component.
pub fn same_path(a: &str, b: &str) -> (r: bool)
    ensures
        r == same_place(a@, b@),
{
    let x = chars_of(a);
    let y = chars_of(b);
    let absolute = x.len() > 0 && x[0] == '/';
    let other = y.len() > 0 && y[0] == '/';
    let p = path_components(a);
    let q = path_components(b);
    absolute == other && same_texts(&p, &q)
}

/// The name of the file at a path.
pub fn file_name(p: &str) -> (r: Option<String>)
    ensures
        opt_text(r) == file_name_of(p@),
{
    let c = path_components(p);
    proof {
        assert(texts(c@).len() == c@.len());
    }
    if c.len() == 0 {
        return None;
    }
    let last = &c[c.len() - 1];
    proof {
        assert(components(p@).last() == last@);
    }
    if same_text(last.as_str(), ".") || same_text(last.as_str(), "..") {
        None
    } else {
        Some(last.clone())
    }
}

/// A file name without its extension.
pub fn file_stem(name: &str) -> (r: String)
    ensures
        r@ == stem_of(name@),
{
    let s = chars_of(name);
    let n: usize = behind_last_dot(s.as_slice());
    if n > 1 {
        let v = s.as_slice();
        let stem = &v[0..n - 1];
        proof {
            assert(stem@ =~= name@.take(n - 1));
        }
        string_of(stem)
    } else {
        name.to_string()
    }
}

/// The extension of a file name, if it has one.
pub fn file_extension(name: &str) -> (r: Option<String>)
    ensures
        opt_text(r) == extension_of(name@),
{
    let s = chars_of(name);
    let n: usize = behind_last_dot(s.as_slice());
    if n > 1 {
        let v = s.as_slice();
        let ext = &v[n..v.len()];
        proof {
            assert(ext@ =~= name@.skip(n as int));
        }
        Some(string_of(ext))
    } else {
        None
    }
}

/// Whether a file of this name is a desktop entry.
pub fn is_desktop_file(name: &str) -> (r: bool)
    ensures
        r == (extension_of(name@) == Some("desktop"@)),
{
    match file_extension(name) {
        Some(e) => same_text(e.as_str(), "desktop"),
        None => false,
    }
}

/// The stem of a desktop file; empty where its name is not valid text.
pub fn desktop_stem(name: Option<&str>) -> (r: String)
    ensures
        r@ == (match name {
            Some(n) => stem_of(n@),
            None => seq![],
        }),
{
    match name {
        Some(n) => file_stem(n),
        None => String::new(),
    }
}

// ---- Places -----------------------------------------------------------------

/// The value of a variable of the environment, or `otherwise` where it is unset.
pub open spec fn set_or(value: Option<Seq<char>>, otherwise: Seq<char>) -> Seq<char> {
    match value {
        Some(v) => v,
        None => otherwise,
    }
}

/// The home directory, from `$HOME`.
pub fn home_dir(home: Option<&str>) -> (r: String)
    ensures
        r@ == set_or(opt_str(home), "/tmp"@),
{
    match home {
        Some(h) => h.to_string(),
        None => "/tmp".to_string(),
    }
}

/// The cache of applications, from `$XDG_CACHE_HOME` and the home directory.
pub fn cache_path(xdg_cache_home: Option<&str>, home: &str) -> (r: String)
    ensures
        r@ == joined(
            set_or(opt_str(xdg_cache_home), joined(home@, ".cache"@)),
            "breadbox.cache"@,
        ),
{
    match xdg_cache_home {
        Some(d) => join_path(d, "breadbox.cache"),
        None => {
            let d = join_path(home, ".cache");
            join_path(d.as_str(), "breadbox.cache")
        },
    }
}

/// The directories of desktop files: the system's, then the user's, whose files
/// take precedence.
pub fn app_dirs(home: &str) -> (r: Vec<String>)
    ensures
        texts(r@) == seq!["/usr/share/applications"@, joined(home@, ".local/share/applications"@)],
{
    let mut out: Vec<String> = Vec::new();
    out.push("/usr/share/applications".to_string());
    out.push(join_path(home, ".local/share/applications"));
    proof {
        assert(texts(out@) =~= seq![
            "/usr/share/applications"@,
            joined(home@, ".local/share/applications"@),
        ]);
    }
    out
}

/// The file that holds the process id of a running launcher, from
/// `$XDG_RUNTIME_DIR`.
pub fn pid_file(runtime_dir: Option<&str>) -> (r: String)
    ensures
        r@ == joined(set_or(opt_str(runtime_dir), "/tmp"@), "breadbox.pid"@),
{
    match runtime_dir {
        Some(d) => join_path(d, "breadbox.pid"),
        None => join_path("/tmp", "breadbox.pid"),
    }
}

/// The directory of a process under `/proc`.
pub fn proc_path(pid: u32) -> (r: String)
    ensures
        r@ == "/proc/"@ + decimal(pid as nat),
{
    let mut out = "/proc/".to_string();
    let n = decimal_text(pid as u64);
    out.append(n.as_str());
    out
}

/// The socket on which Hyprland answers requests, from `$XDG_RUNTIME_DIR` and
/// `$HYPRLAND_INSTANCE_SIGNATURE`.
pub fn hyprland_socket(runtime_dir: &str, signature: &str) -> (r: String)
    ensures
        r@ == runtime_dir@ + "/hypr/"@ + signature@ + "/.socket.sock"@,
{
    let mut out = runtime_dir.to_string();
    out.append("/hypr/");
    out.append(signature);
    out.append("/.socket.sock");
    out
}

// ---- Laws -------------------------------------------------------------------

/// A file name is its stem, a dot and its extension, where it has one.
pub proof fn law_stem_and_extension(name: Seq<char>)
    ensures
        match extension_of(name) {
            Some(e) => name == stem_of(name) + "."@ + e,
            None => name == stem_of(name),
        },
    decreases name.len(),
{
    reveal_strlit(".");
    lemma_last_dot_range(name);
    if last_dot(name) > 0 {
        assert(name =~= stem_of(name) + "."@ + name.skip(last_dot(name) + 1));
    }
}

proof fn lemma_last_dot_range(name: Seq<char>)
    ensures
        -1 <= last_dot(name) < name.len(),
        last_dot(name) >= 0 ==> name[last_dot(name)] == '.',
    decreases name.len(),
{
    if name.len() > 0 && name.last() != '.' {
        lemma_last_dot_range(name.drop_last());
    }
}

/// A path joined to a directory keeps the directory in front and itself behind,
/// unless the path is absolute.
pub proof fn law_join_extends(base: Seq<char>, rel: Seq<char>)
    requires
        !is_absolute(rel),
    ensures
        base.is_prefix_of(joined(base, rel)),
        rel.is_suffix_of(joined(base, rel)),
{
    reveal_strlit("/");
    let j = joined(base, rel);
    assert(j.subrange(0, base.len() as int) =~= base);
    assert(j.subrange(j.len() - rel.len(), j.len() as int) =~= rel);
}

/// Joining puts exactly one separator between a directory and a relative path,
/// where the directory does not end in one; an absolute path stands for itself.
pub proof fn law_join_puts_one_separator(base: Seq<char>, rel: Seq<char>)
    ensures
        rel.len() > 0 && rel[0] == '/' ==> joined(base, rel) == rel,
        !(rel.len() > 0 && rel[0] == '/') && base.len() > 0 && base.last() != '/' ==> joined(
            base,
            rel,
        ) == base.push('/') + rel,
        !(rel.len() > 0 && rel[0] == '/') && (base.len() == 0 || base.last() == '/') ==> joined(
            base,
            rel,
        ) == base + rel,
{
    reveal_strlit("/");
    assert(base + "/"@ =~= base.push('/'));
}

proof fn lemma_split_behind(d: Seq<char>, f: Seq<char>)
    requires
        !f.contains('/'),
    ensures
        split_at_char(d.push('/') + f, '/') == split_at_char(d, '/').push(f),
    decreases d.len(),
{
    lemma_find_char(d, '/');
    let n = find_char(d, '/');
    let s = d.push('/') + f;
    law_splitting_cuts_at_the_separator(f, seq![], '/');
    if n == d.len() {
        assert(!d.contains('/')) by {
            if d.contains('/') {
                let k = choose|k: int| 0 <= k < d.len() && d[k] == '/';
                assert(d[k] != '/');
            }
        }
        law_splitting_cuts_at_the_separator(d, f, '/');
        assert(seq![d] + seq![f] =~= seq![d].push(f));
    } else {
        let head = d.take(n);
        let rest = d.skip(n + 1);
        assert(!head.contains('/')) by {
            if head.contains('/') {
                let k = choose|k: int| 0 <= k < head.len() && head[k] == '/';
                assert(d[k] != '/');
            }
        }
        lemma_split_behind(rest, f);
        assert(s =~= head.push('/') + (rest.push('/') + f));
        law_splitting_cuts_at_the_separator(head, rest.push('/') + f, '/');
        assert(d =~= head.push('/') + rest);
        law_splitting_cuts_at_the_separator(head, rest, '/');
        assert(seq![head] + split_at_char(rest, '/').push(f) =~= (seq![head] + split_at_char(
            rest,
            '/',
        )).push(f));
    }
}

proof fn lemma_components_behind(d: Seq<char>, f: Seq<char>)
    requires
        d.len() > 0,
        !f.contains('/'),
    ensures
        components(d.push('/') + f) == (if f.len() > 0 && f != "."@ {
            components(d).push(f)
        } else {
            components(d)
        }),
{
    reveal(Seq::filter);
    let s = d.push('/') + f;
    let named = |x: Seq<char>| x.len() > 0 && x != "."@;
    lemma_split_behind(d, f);
    let parts = split_at_char(d, '/');
    let all = parts.push(f);
    assert(s[0] == d[0]);
    assert(parts.len() > 0);
    assert(all[0] == parts[0]);
    assert(all.drop_last() =~= parts);
    assert(all.last() == f);
    if f.len() > 0 && f != "."@ {
        assert(all.filter(named) =~= parts.filter(named).push(f));
        assert(seq!["."@] + parts.filter(named).push(f) =~= (seq!["."@] + parts.filter(
            named,
        )).push(f));
    } else {
        assert(all.filter(named) =~= parts.filter(named));
    }
}

/// The name of a file is what follows the last separator of its path; a separator
/// at the end, or a dot, changes nothing.
pub proof fn law_file_name_is_the_last_part(dir: Seq<char>, file: Seq<char>)
    requires
        dir.len() > 0,
        file.len() > 0,
        !file.contains('/'),
        file != "."@,
        file != ".."@,
    ensures
        file_name_of(dir.push('/') + file) == Some(file),
        file_name_of((dir.push('/') + file).push('/')) == Some(file),
        file_name_of((dir.push('/') + file).push('/').push('.')) == Some(file),
        file_name_of((dir.push('/') + file).push('/') + ".."@) is None,
{
    reveal_strlit(".");
    reveal_strlit("..");
    let p = dir.push('/') + file;
    lemma_components_behind(dir, file);
    lemma_components_behind(p, seq![]);
    assert(p.push('/') + Seq::<char>::empty() =~= p.push('/'));
    assert(p.push('/') + "."@ =~= p.push('/').push('.'));
    assert(!"."@.contains('/'));
    assert(!".."@.contains('/'));
    lemma_components_behind(p, "."@);
    lemma_components_behind(p, ".."@);
    assert(".."@ != "."@) by {
        assert(".."@.len() != "."@.len());
    }
}

/// A file name is cut at its last dot: what follows is the extension, what stands
/// before the stem. A name without a dot, or with one only at its start, has no
/// extension.
pub proof fn law_name_is_cut_at_the_last_dot(stem: Seq<char>, ext: Seq<char>)
    requires
        !ext.contains('.'),
    ensures
        stem.len() > 0 ==> stem_of(stem.push('.') + ext) == stem,
        stem.len() > 0 ==> extension_of(stem.push('.') + ext) == Some(ext),
        stem_of(seq!['.'] + ext) == seq!['.'] + ext,
        extension_of(seq!['.'] + ext) is None,
        stem_of(ext) == ext,
        extension_of(ext) is None,
{
    assert forall|k: int| 0 <= k < ext.len() implies #[trigger] ext[k] != '.' by {
        assert(ext.contains(ext[k]));
    }
    let name = stem.push('.') + ext;
    let n = stem.len() as int;
    assert forall|k: int| n < k < name.len() implies #[trigger] name[k] != '.' by {
        assert(name[k] == ext[k - n - 1]);
    }
    lemma_last_dot_at(name, n);
    assert(name.take(n) =~= stem);
    assert(name.skip(n + 1) =~= ext);
    let hidden = seq!['.'] + ext;
    assert forall|k: int| 0 < k < hidden.len() implies #[trigger] hidden[k] != '.' by {
        assert(hidden[k] == ext[k - 1]);
    }
    lemma_last_dot_at(hidden, 0);
    if ext.len() > 0 {
        lemma_last_dot_at(ext, -1);
    }
}

/// A variable of the environment counts where it is set, whatever it holds.
pub proof fn law_variable_counts_where_it_is_set(value: Seq<char>, otherwise: Seq<char>)
    ensures
        set_or(Some(value), otherwise) == value,
        set_or(None, otherwise) == otherwise,
{
}

/// Two paths are the same place only if both start at the root or neither does,
/// and a path is always the same place as itself.
pub proof fn law_places_are_told_apart(a: Seq<char>, b: Seq<char>, dir: Seq<char>)
    requires
        dir.len() > 0,
        a.len() > 0,
        b.len() > 0,
        !a.contains('/'),
        !b.contains('/'),
        a != "."@,
        b != "."@,
    ensures
        same_place(dir, dir),
        same_place(dir, dir.push('/')),
        same_place(dir.push('/') + a, dir.push('/') + b) <==> a == b,
        !same_place(seq!['/'] + a, a),
{
    lemma_components_behind(dir, a);
    lemma_components_behind(dir, b);
    lemma_components_behind(dir, seq![]);
    assert(dir.push('/') + Seq::<char>::empty() =~= dir.push('/'));
    assert((dir.push('/') + a)[0] == dir[0]);
    assert((dir.push('/') + b)[0] == dir[0]);
    if components(dir).push(a) == components(dir).push(b) {
        assert(components(dir).push(a).last() == components(dir).push(b).last());
    }
    assert(a.contains(a[0]));
}

}
