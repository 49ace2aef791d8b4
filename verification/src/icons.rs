//! Icons: from the value of an `Icon` key to a file.
use crate::desktop::is_ascii_letter;
use crate::numbers::is_digit;
use crate::paths::{
    file_name, file_name_of, file_stem, is_absolute, join_path, joined,
    law_file_name_is_the_last_part, law_name_is_cut_at_the_last_dot, same_path, same_place, set_or,
    stem_of,
};
use crate::search::{
    candidate_texts, is_first_success, law_found_is_confirmed, law_probes_find_the_first_file,
    law_search_finds_the_first, law_search_goes_on, law_search_with_one_candidate, probe, probes,
    push_probe, push_probes, Attempt, AttemptText, Candidate, CandidateText, Search, SearchState,
};
use crate::text::{
    after_prefix, before_suffix, chars_of, find_char, is_space, law_trimming_takes_the_margins,
    lemma_after_prefix_concat, lemma_find_char, lines_of, opt_str, opt_text,
    same_text, split_at_char, split_chars, split_lines, string_of, strip_prefix, strip_suffix,
    texts, trim_both, trim_chars, trimmed, Margin,
};
use vstd::prelude::*;
use vstd::string::StringExecFns;
use vstd::utf8::encode_utf8;

verus! {

// ---- The icon theme ---------------------------------------------------------

/// The settings files that name the icon theme, in the order in which they
/// count.
pub fn icon_theme_files(home: &str) -> (r: Vec<String>)
    ensures
        texts(r@) == seq![
            joined(home@, ".config/gtk-4.0/settings.ini"@),
            joined(home@, ".config/gtk-3.0/settings.ini"@),
        ],
{
    let mut out: Vec<String> = Vec::new();
    out.push(join_path(home, ".config/gtk-4.0/settings.ini"));
    out.push(join_path(home, ".config/gtk-3.0/settings.ini"));
    proof {
        assert(texts(out@) =~= seq![
            joined(home@, ".config/gtk-4.0/settings.ini"@),
            joined(home@, ".config/gtk-3.0/settings.ini"@),
        ]);
    }
    out
}

/// The theme that a line of a settings file names, if it names one: without
/// white space around it, then without quotes, and not empty.
pub open spec fn theme_on(line: Seq<char>) -> Option<Seq<char>> {
    match after_prefix(line, "gtk-icon-theme-name="@) {
        Some(v) => {
            let t = trim_both(trimmed(v), Margin::Only('"'));
            if t.len() > 0 {
                Some(t)
            } else {
                None
            }
        },
        None => None,
    }
}

/// The theme that the first line to name one names.
pub open spec fn first_theme(lines: Seq<Seq<char>>) -> Option<Seq<char>>
    decreases lines.len(),
{
    if lines.len() == 0 {
        None
    } else {
        match first_theme(lines.drop_last()) {
            Some(t) => Some(t),
            None => theme_on(lines.last()),
        }
    }
}

/// The theme that the first file to name one names. A file that could not be
/// read names none.
pub open spec fn first_theme_in(files: Seq<Option<String>>) -> Option<Seq<char>>
    decreases files.len(),
{
    if files.len() == 0 {
        None
    } else {
        match first_theme_in(files.drop_last()) {
            Some(t) => Some(t),
            None => match files.last() {
                Some(content) => first_theme(lines_of(content@)),
                None => None,
            },
        }
    }
}

fn theme_of_line(line: &str) -> (r: Option<String>)
    ensures
        opt_text(r) == theme_on(line@),
{
    let s = chars_of(line);
    match strip_prefix(s.as_slice(), "gtk-icon-theme-name=") {
        Some(v) => {
            let t = trim_chars(trim_chars(v, Margin::Space), Margin::Only('"'));
            if t.len() > 0 {
                Some(string_of(t))
            } else {
                None
            }
        },
        None => None,
    }
}

fn theme_of_file(content: &str) -> (r: Option<String>)
    ensures
        opt_text(r) == first_theme(lines_of(content@)),
{
    let s = chars_of(content);
    let lines = split_lines(s.as_slice());
    let ghost all = texts(lines@);
    let mut found: Option<String> = None;
    let mut i: usize = 0;
    proof {
        assert(all.take(0) =~= seq![]);
    }
    while i < lines.len() && found.is_none()
        invariant
            i <= lines.len(),
            all == texts(lines@),
            opt_text(found) == first_theme(all.take(i as int)),
        decreases lines.len() - i,
    {
        proof {
            let upto = all.take(i + 1);
            assert(upto.drop_last() =~= all.take(i as int));
            assert(upto.last() == lines@[i as int]@);
        }
        found = theme_of_line(lines[i].as_str());
        i = i + 1;
    }
    proof {
        lemma_first_theme_stays(all, i as int);
    }
    found
}

proof fn lemma_first_theme_stays(lines: Seq<Seq<char>>, n: int)
    requires
        0 <= n <= lines.len(),
        first_theme(lines.take(n)) is Some || n == lines.len(),
    ensures
        first_theme(lines) == first_theme(lines.take(n)),
    decreases lines.len(),
{
    if n == lines.len() {
        assert(lines.take(n) =~= lines);
    } else {
        assert(lines.drop_last().take(n) =~= lines.take(n));
        lemma_first_theme_stays(lines.drop_last(), n);
    }
}

/// The icon theme, from the contents of the settings files in the order in which
/// they count: the first that one of them names, else `hicolor`.
pub fn current_icon_theme(files: &Vec<Option<String>>) -> (r: String)
    ensures
        r@ == set_or(first_theme_in(files@), "hicolor"@),
{
    let mut found: Option<String> = None;
    let mut i: usize = 0;
    proof {
        assert(files@.take(0) =~= seq![]);
    }
    while i < files.len()
        invariant
            i <= files.len(),
            opt_text(found) == first_theme_in(files@.take(i as int)),
        decreases files.len() - i,
    {
        proof {
            let upto = files@.take(i + 1);
            assert(upto.drop_last() =~= files@.take(i as int));
            assert(upto.last() == files@[i as int]);
        }
        if found.is_none() {
            if let Some(content) = &files[i] {
                found = theme_of_file(content.as_str());
            }
        }
        i = i + 1;
    }
    proof {
        assert(files@.take(i as int) =~= files@);
    }
    match found {
        Some(t) => t,
        None => "hicolor".to_string(),
    }
}

// ---- Where icons are --------------------------------------------------------

/// Whether one of `paths` is the same place as `p`.
pub open spec fn has_place(paths: Seq<Seq<char>>, p: Seq<char>) -> bool {
    exists|k: int| 0 <= k < paths.len() && same_place(#[trigger] paths[k], p)
}

/// `paths` without those that are the same place as an earlier one.
pub open spec fn distinct_places(paths: Seq<Seq<char>>) -> Seq<Seq<char>>
    decreases paths.len(),
{
    if paths.len() == 0 {
        seq![]
    } else if has_place(paths.drop_last(), paths.last()) {
        distinct_places(paths.drop_last())
    } else {
        distinct_places(paths.drop_last()).push(paths.last())
    }
}

/// The directories of icon themes, before those that coincide are left out: the
/// user's data directory, the default one, and the system's.
pub open spec fn icon_dirs(xdg_data_home: Option<Seq<char>>, home: Seq<char>) -> Seq<Seq<char>> {
    seq![
        joined(set_or(xdg_data_home, joined(home, ".local/share"@)), "icons"@),
        joined(home, ".local/share/icons"@),
        "/usr/share/icons"@,
    ]
}

fn keep_distinct(paths: &Vec<String>) -> (r: Vec<String>)
    ensures
        texts(r@) == distinct_places(texts(paths@)),
{
    let ghost all = texts(paths@);
    let mut out: Vec<String> = Vec::new();
    let mut i: usize = 0;
    proof {
        assert(all.take(0) =~= seq![]);
        assert(texts(out@) =~= seq![]);
    }
    while i < paths.len()
        invariant
            i <= paths.len(),
            all == texts(paths@),
            texts(out@) == distinct_places(all.take(i as int)),
        decreases paths.len() - i,
    {
        let mut seen = false;
        let mut k: usize = 0;
        let ghost prior = all.take(i as int);
        while k < i
            invariant
                k <= i < paths.len(),
                all == texts(paths@),
                prior == all.take(i as int),
                seen == exists|j: int|
                    0 <= j < k && same_place(#[trigger] prior[j], paths@[i as int]@),
            decreases i - k,
        {
            proof {
                assert(prior[k as int] == paths@[k as int]@);
            }
            if same_path(paths[k].as_str(), paths[i].as_str()) {
                seen = true;
            }
            k = k + 1;
        }
        let ghost before = out@;
        proof {
            let upto = all.take(i + 1);
            assert(upto.drop_last() =~= prior);
            assert(upto.last() == paths@[i as int]@);
            assert(seen == has_place(prior, paths@[i as int]@));
        }
        if !seen {
            out.push(paths[i].clone());
            proof {
                assert(texts(out@) =~= texts(before).push(paths@[i as int]@));
            }
        }
        i = i + 1;
    }
    proof {
        assert(all.take(i as int) =~= all);
    }
    out
}

/// The directories of icon themes, from `$XDG_DATA_HOME` and the home directory,
/// in the order in which they are searched, each once.
pub fn icon_search_dirs(xdg_data_home: Option<&str>, home: &str) -> (r: Vec<String>)
    ensures
        texts(r@) == distinct_places(icon_dirs(opt_str(xdg_data_home), home@)),
{
    let data = match xdg_data_home {
        Some(d) => d.to_string(),
        None => join_path(home, ".local/share"),
    };
    let mut all: Vec<String> = Vec::new();
    all.push(join_path(data.as_str(), "icons"));
    all.push(join_path(home, ".local/share/icons"));
    all.push("/usr/share/icons".to_string());
    proof {
        assert(texts(all@) =~= icon_dirs(opt_str(xdg_data_home), home@));
    }
    keep_distinct(&all)
}

/// The two places of an icon of one size in a theme.
pub open spec fn sized_paths(root: Seq<char>, size: Seq<char>, file: Seq<char>) -> Seq<Seq<char>> {
    seq![
        joined(joined(joined(root, size), "apps"@), file),
        joined(joined(joined(root, "apps"@), size), file),
    ]
}

/// The two places of a scalable icon in a theme.
pub open spec fn scalable_paths(root: Seq<char>, file: Seq<char>) -> Seq<Seq<char>> {
    seq![
        joined(joined(root, "scalable/apps"@), file),
        joined(joined(root, "apps/scalable"@), file),
    ]
}

/// The places of an icon in the theme at `root`: PNG files of the preferred
/// sizes first, then SVG files.
pub open spec fn theme_paths(root: Seq<char>, name: Seq<char>) -> Seq<Seq<char>> {
    let png = name + ".png"@;
    let svg = name + ".svg"@;
    sized_paths(root, "64x64"@, png) + sized_paths(root, "48x48"@, png) + sized_paths(
        root,
        "128x128"@,
        png,
    ) + sized_paths(root, "32x32"@, png) + sized_paths(root, "256x256"@, png) + scalable_paths(
        root,
        svg,
    )
}

/// The themes to search: the one chosen, then `hicolor`.
pub open spec fn themes_for(theme: Seq<char>) -> Seq<Seq<char>> {
    if theme != "hicolor"@ {
        seq![theme, "hicolor"@]
    } else {
        seq!["hicolor"@]
    }
}

/// The places of an icon under one directory of themes.
pub open spec fn dir_paths(dir: Seq<char>, themes: Seq<Seq<char>>, name: Seq<char>) -> Seq<
    Seq<char>,
>
    decreases themes.len(),
{
    if themes.len() == 0 {
        seq![]
    } else {
        dir_paths(dir, themes.drop_last(), name) + theme_paths(joined(dir, themes.last()), name)
    }
}

/// The places of an icon under all directories of themes.
pub open spec fn all_dir_paths(
    dirs: Seq<Seq<char>>,
    themes: Seq<Seq<char>>,
    name: Seq<char>,
) -> Seq<Seq<char>>
    decreases dirs.len(),
{
    if dirs.len() == 0 {
        seq![]
    } else {
        all_dir_paths(dirs.drop_last(), themes, name) + dir_paths(dirs.last(), themes, name)
    }
}

/// The places of an icon outside themes.
pub open spec fn pixmap_paths(name: Seq<char>) -> Seq<Seq<char>> {
    seq![
        joined("/usr/share/pixmaps"@, name + ".png"@),
        joined("/usr/share/pixmaps"@, name + ".svg"@),
        joined("/usr/share/pixmaps"@, name + ".xpm"@),
    ]
}

/// Every place where the icon `name` may be, in the order in which they count.
pub open spec fn icon_paths(name: Seq<char>, theme: Seq<char>, dirs: Seq<Seq<char>>) -> Seq<
    Seq<char>,
> {
    all_dir_paths(dirs, themes_for(theme), name) + pixmap_paths(name)
}

fn push_text(out: &mut Vec<String>, s: String)
    ensures
        texts(final(out)@) == texts(old(out)@).push(s@),
{
    let ghost before = out@;
    let ghost t = s@;
    out.push(s);
    proof {
        assert(texts(out@) =~= texts(before).push(t));
    }
}

fn push_sized(out: &mut Vec<String>, root: &str, size: &str, file: &str)
    ensures
        texts(final(out)@) == texts(old(out)@) + sized_paths(root@, size@, file@),
{
    let ghost before = texts(out@);
    let a = join_path(join_path(root, size).as_str(), "apps");
    let b = join_path(join_path(root, "apps").as_str(), size);
    push_text(out, join_path(a.as_str(), file));
    push_text(out, join_path(b.as_str(), file));
    proof {
        assert(texts(out@) =~= before + sized_paths(root@, size@, file@));
    }
}

fn push_scalable(out: &mut Vec<String>, root: &str, file: &str)
    ensures
        texts(final(out)@) == texts(old(out)@) + scalable_paths(root@, file@),
{
    let ghost before = texts(out@);
    let a = join_path(root, "scalable/apps");
    let b = join_path(root, "apps/scalable");
    push_text(out, join_path(a.as_str(), file));
    push_text(out, join_path(b.as_str(), file));
    proof {
        assert(texts(out@) =~= before + scalable_paths(root@, file@));
    }
}

proof fn lemma_append(a: Seq<Seq<char>>, b: Seq<Seq<char>>, c: Seq<Seq<char>>)
    ensures
        (a + b) + c == a + (b + c),
{
    assert((a + b) + c =~= a + (b + c));
}

#[verifier::rlimit(50)]
fn push_theme(out: &mut Vec<String>, root: &str, name: &str)
    ensures
        texts(final(out)@) == texts(old(out)@) + theme_paths(root@, name@),
{
    let ghost before = texts(out@);
    let png = name.to_string().concat(".png");
    let svg = name.to_string().concat(".svg");
    push_sized(out, root, "64x64", png.as_str());
    let ghost mut all = sized_paths(root@, "64x64"@, png@);
    push_sized(out, root, "48x48", png.as_str());
    proof {
        lemma_append(before, all, sized_paths(root@, "48x48"@, png@));
        all = all + sized_paths(root@, "48x48"@, png@);
    }
    push_sized(out, root, "128x128", png.as_str());
    proof {
        lemma_append(before, all, sized_paths(root@, "128x128"@, png@));
        all = all + sized_paths(root@, "128x128"@, png@);
    }
    push_sized(out, root, "32x32", png.as_str());
    proof {
        lemma_append(before, all, sized_paths(root@, "32x32"@, png@));
        all = all + sized_paths(root@, "32x32"@, png@);
    }
    push_sized(out, root, "256x256", png.as_str());
    proof {
        lemma_append(before, all, sized_paths(root@, "256x256"@, png@));
        all = all + sized_paths(root@, "256x256"@, png@);
    }
    push_scalable(out, root, svg.as_str());
    proof {
        lemma_append(before, all, scalable_paths(root@, svg@));
    }
}

fn push_dir(out: &mut Vec<String>, dir: &str, themes: &Vec<String>, name: &str)
    ensures
        texts(final(out)@) == texts(old(out)@) + dir_paths(dir@, texts(themes@), name@),
{
    let ghost before = texts(out@);
    let ghost all = texts(themes@);
    let mut i: usize = 0;
    proof {
        assert(before + dir_paths(dir@, all.take(0), name@) =~= before);
    }
    while i < themes.len()
        invariant
            i <= themes.len(),
            all == texts(themes@),
            texts(out@) == before + dir_paths(dir@, all.take(i as int), name@),
        decreases themes.len() - i,
    {
        proof {
            let upto = all.take(i + 1);
            assert(upto.drop_last() =~= all.take(i as int));
            assert(upto.last() == themes@[i as int]@);
        }
        let root = join_path(dir, themes[i].as_str());
        push_theme(out, root.as_str(), name);
        proof {
            assert(texts(out@) =~= before + dir_paths(dir@, all.take(i + 1), name@));
        }
        i = i + 1;
    }
    proof {
        assert(all.take(i as int) =~= all);
    }
}

/// Every place where the icon `name` may be, in the order in which they count.
pub fn system_icon_paths(name: &str, theme: &str, dirs: &Vec<String>) -> (r: Vec<String>)
    ensures
        texts(r@) == icon_paths(name@, theme@, texts(dirs@)),
{
    let mut themes: Vec<String> = Vec::new();
    if !same_text(theme, "hicolor") {
        themes.push(theme.to_string());
    }
    themes.push("hicolor".to_string());
    let ghost chosen = themes_for(theme@);
    let ghost all = texts(dirs@);
    let mut out: Vec<String> = Vec::new();
    let mut i: usize = 0;
    proof {
        assert(texts(themes@) =~= chosen);
        assert(texts(out@) =~= all_dir_paths(all.take(0), chosen, name@));
    }
    while i < dirs.len()
        invariant
            i <= dirs.len(),
            all == texts(dirs@),
            chosen == texts(themes@),
            texts(out@) == all_dir_paths(all.take(i as int), chosen, name@),
        decreases dirs.len() - i,
    {
        proof {
            let upto = all.take(i + 1);
            assert(upto.drop_last() =~= all.take(i as int));
            assert(upto.last() == dirs@[i as int]@);
        }
        push_dir(&mut out, dirs[i].as_str(), &themes, name);
        i = i + 1;
    }
    proof {
        assert(all.take(i as int) =~= all);
    }
    let ghost themed = texts(out@);
    push_text(&mut out, join_path("/usr/share/pixmaps", name.to_string().concat(".png").as_str()));
    push_text(&mut out, join_path("/usr/share/pixmaps", name.to_string().concat(".svg").as_str()));
    push_text(&mut out, join_path("/usr/share/pixmaps", name.to_string().concat(".xpm").as_str()));
    proof {
        assert(texts(out@) =~= themed + pixmap_paths(name@));
    }
    out
}

/// Starts the search for `name` in system icon theme directories.
/// Prefers 64px > 48px > 128px > 32px > 256px PNG, then scalable SVG.
pub fn find_system_icon(name: &str, theme: &str, dirs: &Vec<String>) -> (r: Search)
    ensures
        r.wf(),
        r@ == SearchState::start(probes(icon_paths(name@, theme@, texts(dirs@))), None),
{
    let paths = system_icon_paths(name, theme, dirs);
    let mut candidates: Vec<Candidate> = Vec::new();
    push_probes(&mut candidates, &paths);
    proof {
        assert(candidate_texts(candidates@) =~= probes(texts(paths@)));
    }
    Search::new(candidates, None)
}

// ---- Names ------------------------------------------------------------------

/// The name under which the icon of an `Icon` key is looked up: of an absolute
/// path the stem of its file, of a name the name without its extension.
pub open spec fn icon_name_of(icon: Seq<char>) -> Seq<char> {
    if is_absolute(icon) {
        match file_name_of(icon) {
            Some(n) => stem_of(n),
            None => icon,
        }
    } else {
        match (
            before_suffix(icon, ".png"@),
            before_suffix(icon, ".svg"@),
            before_suffix(icon, ".xpm"@),
        ) {
            (Some(n), _, _) => n,
            (None, Some(n), _) => n,
            (None, None, Some(n)) => n,
            _ => icon,
        }
    }
}

/// Strip file extension from an icon field value, returning the canonical name.
pub fn canonical_icon_name(icon: &str) -> (r: String)
    ensures
        r@ == icon_name_of(icon@),
{
    let s = chars_of(icon);
    if s.len() > 0 && s[0] == '/' {
        return match file_name(icon) {
            Some(n) => file_stem(n.as_str()),
            None => icon.to_string(),
        };
    }
    if let Some(n) = strip_suffix(s.as_slice(), ".png") {
        return string_of(n);
    }
    if let Some(n) = strip_suffix(s.as_slice(), ".svg") {
        return string_of(n);
    }
    if let Some(n) = strip_suffix(s.as_slice(), ".xpm") {
        return string_of(n);
    }
    icon.to_string()
}

/// Whether Unicode counts a character among the letters and numbers.
pub uninterp spec fn is_alphanumeric_char(c: char) -> bool;

/// Calls `char::is_alphanumeric`. The contract claims that the result depends on
/// the character alone, and says no more of it.
#[verifier::external_body]
fn alphanumeric(c: char) -> (r: bool)
    ensures
        r == is_alphanumeric_char(c),
{
    c.is_alphanumeric()
}

/// Whether a character may stand in a segment of a reverse-DNS name: a letter, a
/// digit, a hyphen or an underscore. Outside ASCII, Unicode says what is a letter
/// or a number.
pub open spec fn is_segment_char(c: char) -> bool {
    ||| is_ascii_letter(c)
    ||| is_digit(c)
    ||| c == '-'
    ||| c == '_'
    ||| c > '\u{7f}' && is_alphanumeric_char(c)
}

/// Whether `s` is a segment of a reverse-DNS name.
pub open spec fn is_segment(s: Seq<char>) -> bool {
    s.len() > 0 && forall|k: int| 0 <= k < s.len() ==> is_segment_char(#[trigger] s[k])
}

/// Whether a stem is a reverse-DNS name: three segments or more between dots,
/// the first of two bytes or more.
pub open spec fn is_reverse_dns(stem: Seq<char>) -> bool {
    let parts = split_at_char(stem, '.');
    &&& parts.len() >= 3
    &&& encode_utf8(parts[0]).len() >= 2
    &&& forall|k: int| 0 <= k < parts.len() ==> is_segment(#[trigger] parts[k])
}

/// Whether a character may stand in a segment, where `alphanumeric` says whether
/// Unicode counts it among the letters and numbers.
pub fn may_stand(c: char, alphanumeric: bool) -> (r: bool)
    ensures
        r == (is_ascii_letter(c) || is_digit(c) || c == '-' || c == '_' || (c > '\u{7f}'
            && alphanumeric)),
{
    ('a' <= c && c <= 'z') || ('A' <= c && c <= 'Z') || ('0' <= c && c <= '9') || c == '-' || c
        == '_' || (c > '\u{7f}' && alphanumeric)
}

fn segment(s: &str) -> (r: bool)
    ensures
        r == is_segment(s@),
{
    let v = chars_of(s);
    let mut i: usize = 0;
    while i < v.len()
        invariant
            i <= v.len(),
            v@ == s@,
            forall|k: int| 0 <= k < i ==> is_segment_char(#[trigger] v@[k]),
        decreases v.len() - i,
    {
        let c = v[i];
        if !may_stand(c, alphanumeric(c)) {
            return false;
        }
        i = i + 1;
    }
    v.len() > 0
}

/// Whether the parts of a stem make a reverse-DNS name, where `segments` says of
/// each part whether it is a segment.
pub fn are_reverse_dns(parts: &Vec<String>, segments: &Vec<bool>) -> (r: bool)
    requires
        parts@.len() == segments@.len(),
    ensures
        r == (parts@.len() >= 3 && encode_utf8(parts@[0]@).len() >= 2 && forall|k: int|
            0 <= k < segments@.len() ==> #[trigger] segments@[k]),
{
    if parts.len() < 3 || parts[0].as_str().as_bytes().len() < 2 {
        return false;
    }
    let mut i: usize = 0;
    while i < segments.len()
        invariant
            i <= segments.len(),
            forall|k: int| 0 <= k < i ==> #[trigger] segments@[k],
        decreases segments.len() - i,
    {
        if !segments[i] {
            return false;
        }
        i = i + 1;
    }
    true
}

/// A stem like `org.gnome.Gedit` or `com.github.App` — at least three segments,
/// all alphanumeric/hyphen/underscore.
pub fn looks_like_reverse_dns(stem: &str) -> (r: bool)
    ensures
        r == is_reverse_dns(stem@),
{
    let s = chars_of(stem);
    let parts = split_chars(s.as_slice(), '.');
    let mut segments: Vec<bool> = Vec::new();
    let mut i: usize = 0;
    while i < parts.len()
        invariant
            i <= parts.len(),
            segments@.len() == i,
            forall|k: int| 0 <= k < i ==> #[trigger] segments@[k] == is_segment(parts@[k]@),
        decreases parts.len() - i,
    {
        segments.push(segment(parts[i].as_str()));
        i = i + 1;
    }
    proof {
        let all = split_at_char(stem@, '.');
        assert(texts(parts@) == all);
        assert(forall|k: int| 0 <= k < parts@.len() ==> #[trigger] parts@[k]@ == all[k]);
        assert((forall|k: int| 0 <= k < segments@.len() ==> #[trigger] segments@[k]) == (forall|
            k: int,
        |
            0 <= k < all.len() ==> is_segment(#[trigger] all[k]))) by {
            if forall|k: int| 0 <= k < segments@.len() ==> #[trigger] segments@[k] {
                assert forall|k: int| 0 <= k < all.len() implies is_segment(#[trigger] all[k]) by {
                    assert(segments@[k]);
                }
            }
            if forall|k: int| 0 <= k < all.len() ==> is_segment(#[trigger] all[k]) {
                assert forall|k: int| 0 <= k < segments@.len() implies #[trigger] segments@[k] by {
                    assert(is_segment(all[k]));
                }
            }
        }
    }
    are_reverse_dns(&parts, &segments)
}

// ---- Downloads --------------------------------------------------------------

/// How many bytes of a download are read at most.
pub const MAX_ICON_BYTES: u64 = 2_097_152;

/// The eight bytes with which a PNG file starts.
pub open spec fn png_signature() -> Seq<u8> {
    seq![0x89u8, 0x50, 0x4e, 0x47, 0x0d, 0x0a, 0x1a, 0x0a]
}

/// Whether the body of an answer with this status is worth reading.
pub open spec fn is_success(status: u16) -> bool {
    status == 200
}

/// Whether to read the body of an answer with this status.
pub fn reads_body(status: u16) -> (r: bool)
    ensures
        r == is_success(status),
{
    status == 200
}

/// Whether the answer to a download is an icon: it succeeded, its body could be
/// read, and the body starts as a PNG file does, so that an error page is never
/// taken for an icon.
pub open spec fn is_icon_answer(status: u16, body: Option<Seq<u8>>) -> bool {
    is_success(status) && (body matches Some(b) && b.len() >= 8 && b.take(8) == png_signature())
}

/// Whether to keep what a download brought: its status, and its body where that
/// could be read.
pub fn try_download(status: u16, body: Option<&Vec<u8>>) -> (r: bool)
    ensures
        r == is_icon_answer(
            status,
            match body {
                Some(b) => Some(b@),
                None => None,
            },
        ),
{
    match body {
        Some(b) => {
            if !reads_body(status) || b.len() < 8 {
                return false;
            }
            let png = b[0] == 0x89 && b[1] == 0x50 && b[2] == 0x4e && b[3] == 0x47 && b[4] == 0x0d
                && b[5] == 0x0a && b[6] == 0x1a && b[7] == 0x0a;
            proof {
                let head = b@.take(8);
                let sig = png_signature();
                if png {
                    assert(head =~= sig);
                }
                if head == sig {
                    assert(head[0] == sig[0] && head[1] == sig[1] && head[2] == sig[2] && head[3]
                        == sig[3] && head[4] == sig[4] && head[5] == sig[5] && head[6] == sig[6]
                        && head[7] == sig[7]);
                }
            }
            png
        },
        None => false,
    }
}

// ---- Resolution -------------------------------------------------------------

/// The address of an application's icon on Flathub.
pub open spec fn flathub_url(stem: Seq<char>) -> Seq<char> {
    "https://dl.flathub.org/repo/appstream/x86_64/icons/128x128/"@ + stem + ".png"@
}

/// The candidate that downloads the icon of the application `stem` to `dest`.
pub open spec fn download(stem: Seq<char>, dest: Seq<char>) -> CandidateText {
    CandidateText {
        attempt: AttemptText::Fetch { url: flathub_url(stem), dest },
        value: dest,
    }
}

/// The icon that stands for an application without one.
pub open spec fn generic_icon() -> Seq<char> {
    "application-x-executable"@
}

/// What is on this machine: the file itself, where the key gives its path, then
/// the places of the icon in the system's themes, then the place where an
/// earlier download of it is kept.
pub open spec fn local_candidates(
    icon: Seq<char>,
    theme: Seq<char>,
    dirs: Seq<Seq<char>>,
    cached: Seq<char>,
) -> Seq<CandidateText> {
    (if is_absolute(icon) {
        seq![probe(icon)]
    } else {
        seq![]
    }) + (if icon_name_of(icon).len() == 0 {
        seq![]
    } else {
        probes(icon_paths(icon_name_of(icon), theme, dirs)).push(probe(cached))
    })
}

/// Everything that is tried for the icon of an application, in order: what is on
/// this machine, then a download for an application with a reverse-DNS name,
/// then the generic icon.
pub open spec fn resolution(
    icon: Seq<char>,
    stem: Seq<char>,
    theme: Seq<char>,
    dirs: Seq<Seq<char>>,
    cached: Seq<char>,
    dest: Seq<char>,
) -> Seq<CandidateText> {
    local_candidates(icon, theme, dirs, cached) + (if icon_name_of(icon).len() > 0
        && is_reverse_dns(stem) {
        seq![download(stem, dest)]
    } else {
        seq![]
    }) + probes(icon_paths(generic_icon(), theme, dirs))
}

/// Starts to resolve an icon to a local path, downloading if necessary.
///
/// `cached` is where the cache keeps the icon of this name, `dest` where it keeps
/// the icon that is named like the desktop file.
pub fn resolve_icon(
    icon_field: &str,
    desktop_stem: &str,
    theme: &str,
    dirs: &Vec<String>,
    cached: &str,
    dest: &str,
) -> (r: Search)
    ensures
        r.wf(),
        r@ == SearchState::start(
            resolution(icon_field@, desktop_stem@, theme@, texts(dirs@), cached@, dest@),
            None,
        ),
{
    let mut out: Vec<Candidate> = Vec::new();
    proof {
        assert(candidate_texts(out@) =~= seq![]);
    }
    let field = chars_of(icon_field);
    if field.len() > 0 && field[0] == '/' {
        push_probe(&mut out, icon_field.to_string());
    }
    let ghost lead = candidate_texts(out@);
    proof {
        assert(lead =~= (if is_absolute(icon_field@) {
            seq![probe(icon_field@)]
        } else {
            seq![]
        }));
    }
    let name = canonical_icon_name(icon_field);
    if !name.as_str().is_empty() {
        let paths = system_icon_paths(name.as_str(), theme, dirs);
        push_probes(&mut out, &paths);
        push_probe(&mut out, cached.to_string());
        if looks_like_reverse_dns(desktop_stem) {
            let url = "https://dl.flathub.org/repo/appstream/x86_64/icons/128x128/".to_string().concat(
            desktop_stem).concat(".png");
            let c = Candidate {
                attempt: Attempt::Fetch { url, dest: dest.to_string() },
                value: dest.to_string(),
            };
            let ghost before = out@;
            out.push(c);
            proof {
                assert(c@ == download(desktop_stem@, dest@));
                assert(candidate_texts(out@) =~= candidate_texts(before).push(c@));
            }
        }
    }
    let generic = system_icon_paths("application-x-executable", theme, dirs);
    push_probes(&mut out, &generic);
    proof {
        assert(candidate_texts(out@) =~= resolution(
            icon_field@,
            desktop_stem@,
            theme@,
            texts(dirs@),
            cached@,
            dest@,
        ));
    }
    Search::new(out, None)
}

// ---- Laws -------------------------------------------------------------------

/// In one theme the sizes count in the order 64, 48, 128, 32, 256, and SVG files
/// count after all of them.
#[verifier::rlimit(30)]
pub proof fn law_sizes_in_order(root: Seq<char>, name: Seq<char>)
    ensures
        theme_paths(root, name).len() == 12,
        theme_paths(root, name).subrange(0, 2) == sized_paths(root, "64x64"@, name + ".png"@),
        theme_paths(root, name).subrange(2, 4) == sized_paths(root, "48x48"@, name + ".png"@),
        theme_paths(root, name).subrange(4, 6) == sized_paths(root, "128x128"@, name + ".png"@),
        theme_paths(root, name).subrange(6, 8) == sized_paths(root, "32x32"@, name + ".png"@),
        theme_paths(root, name).subrange(8, 10) == sized_paths(root, "256x256"@, name + ".png"@),
        theme_paths(root, name).subrange(10, 12) == scalable_paths(root, name + ".svg"@),
{
    let png = name + ".png"@;
    lemma_blocks(
        sized_paths(root, "64x64"@, png),
        sized_paths(root, "48x48"@, png),
        sized_paths(root, "128x128"@, png),
        sized_paths(root, "32x32"@, png),
        sized_paths(root, "256x256"@, png),
        scalable_paths(root, name + ".svg"@),
    );
}

proof fn lemma_blocks(
    a: Seq<Seq<char>>,
    b: Seq<Seq<char>>,
    c: Seq<Seq<char>>,
    d: Seq<Seq<char>>,
    e: Seq<Seq<char>>,
    f: Seq<Seq<char>>,
)
    requires
        a.len() == 2 && b.len() == 2 && c.len() == 2 && d.len() == 2 && e.len() == 2 && f.len()
            == 2,
    ensures
        (a + b + c + d + e + f).len() == 12,
        (a + b + c + d + e + f).subrange(0, 2) == a,
        (a + b + c + d + e + f).subrange(2, 4) == b,
        (a + b + c + d + e + f).subrange(4, 6) == c,
        (a + b + c + d + e + f).subrange(6, 8) == d,
        (a + b + c + d + e + f).subrange(8, 10) == e,
        (a + b + c + d + e + f).subrange(10, 12) == f,
{
    let t = a + b + c + d + e + f;
    assert(t.subrange(0, 2) =~= a);
    assert(t.subrange(2, 4) =~= b);
    assert(t.subrange(4, 6) =~= c);
    assert(t.subrange(6, 8) =~= d);
    assert(t.subrange(8, 10) =~= e);
    assert(t.subrange(10, 12) =~= f);
}

/// What is on this machine comes first: where one of the local places holds the
/// icon, the first of them is the result, and nothing is downloaded.
pub proof fn law_local_icon_wins(
    icon: Seq<char>,
    stem: Seq<char>,
    theme: Seq<char>,
    dirs: Seq<Seq<char>>,
    cached: Seq<char>,
    dest: Seq<char>,
    succeeds: spec_fn(AttemptText) -> bool,
    i: int,
)
    requires
        is_first_success(local_candidates(icon, theme, dirs, cached), succeeds, i),
    ensures
        SearchState::start(resolution(icon, stem, theme, dirs, cached, dest), None).run(succeeds)
            == Some(local_candidates(icon, theme, dirs, cached)[i].value),
        forall|k: int|
            0 <= k <= i ==> (#[trigger] resolution(
                icon,
                stem,
                theme,
                dirs,
                cached,
                dest,
            )[k]).attempt is Probe,
{
    let local = local_candidates(icon, theme, dirs, cached);
    let all = resolution(icon, stem, theme, dirs, cached, dest);
    assert(forall|k: int| 0 <= k < local.len() ==> #[trigger] all[k] == local[k]);
    assert(is_first_success(all, succeeds, i));
    law_search_finds_the_first(all, None, succeeds);
}

/// Only an application with a reverse-DNS name has anything downloaded for it,
/// and then its icon from Flathub.
pub proof fn law_downloads_only_from_flathub(
    icon: Seq<char>,
    stem: Seq<char>,
    theme: Seq<char>,
    dirs: Seq<Seq<char>>,
    cached: Seq<char>,
    dest: Seq<char>,
    k: int,
)
    requires
        0 <= k < resolution(icon, stem, theme, dirs, cached, dest).len(),
        resolution(icon, stem, theme, dirs, cached, dest)[k].attempt is Fetch,
    ensures
        is_reverse_dns(stem),
        resolution(icon, stem, theme, dirs, cached, dest)[k] == download(stem, dest),
{
}

/// Where nothing local holds the icon and the download fails or is not tried,
/// the result is the generic icon, wherever the search for that finds it.
#[verifier::rlimit(50)]
pub proof fn law_generic_icon_is_last(
    icon: Seq<char>,
    stem: Seq<char>,
    theme: Seq<char>,
    dirs: Seq<Seq<char>>,
    cached: Seq<char>,
    dest: Seq<char>,
    succeeds: spec_fn(AttemptText) -> bool,
)
    requires
        forall|k: int|
            0 <= k < local_candidates(icon, theme, dirs, cached).len() ==> !succeeds(
                (#[trigger] local_candidates(icon, theme, dirs, cached)[k]).attempt,
            ),
        !succeeds(download(stem, dest).attempt),
    ensures
        SearchState::start(resolution(icon, stem, theme, dirs, cached, dest), None).run(succeeds)
            == SearchState::start(probes(icon_paths(generic_icon(), theme, dirs)), None).run(
            succeeds,
        ),
{
    let local = local_candidates(icon, theme, dirs, cached);
    let generic = probes(icon_paths(generic_icon(), theme, dirs));
    let all = resolution(icon, stem, theme, dirs, cached, dest);
    let n = all.len() - generic.len();
    assert forall|k: int| 0 <= k < n implies !succeeds((#[trigger] all[k]).attempt) by {
        if k < local.len() {
            assert(all[k] == local[k]);
        }
    }
    assert(forall|k: int| 0 <= k < generic.len() ==> #[trigger] generic[k] == all[k + n]);
    law_search_finds_the_first(all, None, succeeds);
    law_search_finds_the_first(generic, None, succeeds);
    if exists|i: int| is_first_success(generic, succeeds, i) {
        let i = choose|i: int| is_first_success(generic, succeeds, i);
        assert forall|k: int| 0 <= k < i + n implies !succeeds((#[trigger] all[k]).attempt) by {
            if k >= n {
                assert(all[k] == generic[k - n]);
            }
        }
        assert(is_first_success(all, succeeds, i + n));
    } else {
        assert forall|i: int| !is_first_success(all, succeeds, i) by {
            if is_first_success(all, succeeds, i) {
                assert(i >= n);
                assert(generic[i - n] == all[i]);
                assert forall|k: int| 0 <= k < i - n implies !succeeds(
                    (#[trigger] generic[k]).attempt,
                ) by {
                    assert(generic[k] == all[k + n]);
                }
                assert(is_first_success(generic, succeeds, i - n));
            }
        }
    }
}

proof fn lemma_split_covers(s: Seq<char>, sep: char, k: int)
    requires
        0 <= k < s.len(),
        s[k] != sep,
    ensures
        exists|i: int, j: int|
            0 <= i < split_at_char(s, sep).len() && 0 <= j < split_at_char(s, sep)[i].len()
                && #[trigger] split_at_char(s, sep)[i][j] == s[k],
    decreases s.len(),
{
    lemma_find_char(s, sep);
    let n = find_char(s, sep);
    let parts = split_at_char(s, sep);
    if k < n {
        assert(parts[0][k] == s[k]);
    } else {
        let rest = s.skip(n + 1);
        assert(rest[k - n - 1] == s[k]);
        lemma_split_covers(rest, sep, k - n - 1);
        let sub = split_at_char(rest, sep);
        let (i, j) = choose|i: int, j: int|
            0 <= i < sub.len() && 0 <= j < sub[i].len() && #[trigger] sub[i][j] == rest[k - n - 1];
        assert(parts[i + 1] == sub[i]);
        assert(parts[i + 1][j] == s[k]);
    }
}

/// A reverse-DNS name holds no separator of paths: the file and the address that
/// are made from it stay where they belong.
pub proof fn law_reverse_dns_has_no_slash(stem: Seq<char>)
    requires
        is_reverse_dns(stem),
    ensures
        !stem.contains('/'),
{
    if stem.contains('/') {
        let k = choose|k: int| 0 <= k < stem.len() && stem[k] == '/';
        lemma_split_covers(stem, '.', k);
        let parts = split_at_char(stem, '.');
        let (i, j) = choose|i: int, j: int|
            0 <= i < parts.len() && 0 <= j < parts[i].len() && #[trigger] parts[i][j] == stem[k];
        assert(is_segment(parts[i]));
        assert(is_segment_char(parts[i][j]));
    }
}

proof fn lemma_distinct_from(paths: Seq<Seq<char>>, i: int)
    requires
        0 <= i < distinct_places(paths).len(),
    ensures
        exists|k: int| 0 <= k < paths.len() && #[trigger] paths[k] == distinct_places(paths)[i],
    decreases paths.len(),
{
    if paths.len() > 0 {
        let earlier = paths.drop_last();
        if i < distinct_places(earlier).len() {
            lemma_distinct_from(earlier, i);
            let k = choose|k: int|
                0 <= k < earlier.len() && #[trigger] earlier[k] == distinct_places(earlier)[i];
            assert(paths[k] == distinct_places(paths)[i]);
        } else {
            assert(paths[paths.len() - 1] == distinct_places(paths)[i]);
        }
    }
}

/// No directory is searched twice.
pub proof fn law_search_dirs_are_distinct(paths: Seq<Seq<char>>)
    ensures
        forall|i: int, j: int|
            0 <= i < j < distinct_places(paths).len() ==> !same_place(
                #[trigger] distinct_places(paths)[i],
                #[trigger] distinct_places(paths)[j],
            ),
    decreases paths.len(),
{
    if paths.len() > 0 {
        let earlier = paths.drop_last();
        law_search_dirs_are_distinct(earlier);
        let before = distinct_places(earlier);
        let after = distinct_places(paths);
        assert forall|i: int, j: int| 0 <= i < j < after.len() implies !same_place(
            #[trigger] after[i],
            #[trigger] after[j],
        ) by {
            assert(after[i] == before[i]);
            if j < before.len() {
                assert(after[j] == before[j]);
            } else {
                lemma_distinct_from(earlier, i);
                let k = choose|k: int| 0 <= k < earlier.len() && #[trigger] earlier[k] == before[i];
                assert(!has_place(earlier, paths.last()));
                assert(!same_place(earlier[k], paths.last()));
            }
        }
    }
}

/// The extension of an icon does not matter: `n.png`, `n.svg` and `n.xpm` are all
/// looked up as `n`.
pub proof fn law_icon_extension_does_not_matter(n: Seq<char>)
    requires
        !is_absolute(n),
    ensures
        icon_name_of(n + ".png"@) == n,
        icon_name_of(n + ".svg"@) == n,
        icon_name_of(n + ".xpm"@) == n,
{
    reveal_strlit(".png");
    reveal_strlit(".svg");
    reveal_strlit(".xpm");
    let a = n + ".png"@;
    let b = n + ".svg"@;
    let c = n + ".xpm"@;
    let m = n.len() as int;
    assert(a.skip(m) =~= ".png"@);
    assert(a.take(m) =~= n);
    assert(b.skip(m) =~= ".svg"@);
    assert(b.take(m) =~= n);
    assert(b.skip(m)[1] != ".png"@[1]);
    assert(c.skip(m) =~= ".xpm"@);
    assert(c.take(m) =~= n);
    assert(c.skip(m)[1] != ".png"@[1]);
    assert(c.skip(m)[1] != ".svg"@[1]);
}

proof fn lemma_first_theme_concat(a: Seq<Seq<char>>, b: Seq<Seq<char>>)
    ensures
        first_theme(a + b) == (match first_theme(a) {
            Some(t) => Some(t),
            None => first_theme(b),
        }),
    decreases b.len(),
{
    if b.len() == 0 {
        assert(a + b =~= a);
    } else {
        lemma_first_theme_concat(a, b.drop_last());
        assert((a + b).drop_last() =~= a + b.drop_last());
        assert((a + b).last() == b.last());
    }
}

proof fn lemma_first_theme_in_concat(a: Seq<Option<String>>, b: Seq<Option<String>>)
    ensures
        first_theme_in(a + b) == (match first_theme_in(a) {
            Some(t) => Some(t),
            None => first_theme_in(b),
        }),
    decreases b.len(),
{
    if b.len() == 0 {
        assert(a + b =~= a);
    } else {
        lemma_first_theme_in_concat(a, b.drop_last());
        assert((a + b).drop_last() =~= a + b.drop_last());
        assert((a + b).last() == b.last());
    }
}

proof fn lemma_one_file(f: Option<String>)
    ensures
        first_theme_in(seq![f]) == (match f {
            Some(content) => first_theme(lines_of(content@)),
            None => None,
        }),
{
    assert(seq![f].drop_last() =~= seq![]);
    assert(first_theme_in(seq![f].drop_last()) is None);
}

proof fn lemma_no_theme(lines: Seq<Seq<char>>)
    requires
        forall|k: int| 0 <= k < lines.len() ==> theme_on(#[trigger] lines[k]) is None,
    ensures
        first_theme(lines) is None,
    decreases lines.len(),
{
    if lines.len() > 0 {
        let c = lines.drop_last();
        assert(forall|k: int| 0 <= k < c.len() ==> #[trigger] c[k] == lines[k]);
        lemma_no_theme(c);
        assert(theme_on(lines[lines.len() - 1]) is None);
    }
}

proof fn lemma_some_theme(lines: Seq<Seq<char>>)
    requires
        first_theme(lines) is Some,
    ensures
        exists|k: int|
            0 <= k < lines.len() && theme_on(#[trigger] lines[k]) == first_theme(lines),
    decreases lines.len(),
{
    if lines.len() > 0 {
        let c = lines.drop_last();
        if first_theme(c) is Some {
            lemma_some_theme(c);
            let k = choose|k: int|
                0 <= k < c.len() && theme_on(#[trigger] c[k]) == first_theme(c);
            assert(lines[k] == c[k]);
        } else {
            assert(theme_on(lines[lines.len() - 1]) == first_theme(lines));
        }
    }
}

/// Whether none of the lines of a file names a theme. A file that could not be
/// read has no lines.
pub open spec fn names_no_theme(file: Option<String>) -> bool {
    file matches Some(content) ==> forall|k: int|
        0 <= k < lines_of(content@).len() ==> theme_on(#[trigger] lines_of(content@)[k]) is None
}

/// A settings file that names no theme counts like one that is not there: leaving
/// it out, wherever it stands, does not change the theme chosen.
pub proof fn law_file_without_theme_does_not_matter(
    before: Seq<Option<String>>,
    file: Option<String>,
    behind: Seq<Option<String>>,
)
    requires
        names_no_theme(file),
    ensures
        set_or(first_theme_in(before.push(file) + behind), "hicolor"@) == set_or(
            first_theme_in(before + behind),
            "hicolor"@,
        ),
{
    lemma_one_file(file);
    if let Some(content) = file {
        lemma_no_theme(lines_of(content@));
    }
    assert(before.push(file) =~= before + seq![file]);
    lemma_first_theme_in_concat(before, seq![file]);
    lemma_first_theme_in_concat(before.push(file), behind);
    lemma_first_theme_in_concat(before, behind);
}

/// The theme chosen is the first that is named: the one on a line of a file before
/// which no line of that file and no other file names one.
pub proof fn law_first_theme_named_is_chosen(
    before: Seq<Option<String>>,
    content: String,
    behind: Seq<Option<String>>,
    k: int,
    theme: Seq<char>,
)
    requires
        forall|i: int| 0 <= i < before.len() ==> names_no_theme(#[trigger] before[i]),
        0 <= k < lines_of(content@).len(),
        forall|j: int| 0 <= j < k ==> theme_on(#[trigger] lines_of(content@)[j]) is None,
        theme_on(lines_of(content@)[k]) == Some(theme),
    ensures
        set_or(first_theme_in(before.push(Some(content)) + behind), "hicolor"@) == theme,
    decreases before.len(),
{
    let lines = lines_of(content@);
    let upto = lines.take(k + 1);
    assert(forall|j: int| 0 <= j < k ==> #[trigger] upto.drop_last()[j] == lines[j]);
    lemma_no_theme(upto.drop_last());
    assert(upto.last() == lines[k]);
    lemma_first_theme_concat(upto, lines.skip(k + 1));
    assert(upto + lines.skip(k + 1) =~= lines);
    lemma_one_file(Some(content));
    assert(before.push(Some(content)) =~= before + seq![Some(content)]);
    lemma_no_file_names(before);
    lemma_first_theme_in_concat(before, seq![Some(content)]);
    lemma_first_theme_in_concat(before.push(Some(content)), behind);
}

proof fn lemma_no_file_names(files: Seq<Option<String>>)
    requires
        forall|i: int| 0 <= i < files.len() ==> names_no_theme(#[trigger] files[i]),
    ensures
        first_theme_in(files) is None,
    decreases files.len(),
{
    if files.len() > 0 {
        let c = files.drop_last();
        assert(forall|i: int| 0 <= i < c.len() ==> #[trigger] c[i] == files[i]);
        lemma_no_file_names(c);
        assert(names_no_theme(files[files.len() - 1]));
        if let Some(content) = files.last() {
            lemma_no_theme(lines_of(content@));
        }
    }
}

proof fn lemma_some_file_names(files: Seq<Option<String>>)
    requires
        first_theme_in(files) is Some,
    ensures
        exists|i: int, k: int|
            0 <= i < files.len() && (files[i] matches Some(content) && 0 <= k < lines_of(
                content@,
            ).len() && theme_on(#[trigger] lines_of((files[i]->0)@)[k]) == first_theme_in(files)),
    decreases files.len(),
{
    if files.len() > 0 {
        let c = files.drop_last();
        if first_theme_in(c) is Some {
            lemma_some_file_names(c);
            let (i, k) = choose|i: int, k: int|
                0 <= i < c.len() && (c[i] matches Some(content) && 0 <= k < lines_of(
                    content@,
                ).len() && theme_on(#[trigger] lines_of((c[i]->0)@)[k]) == first_theme_in(c));
            assert(files[i] == c[i]);
            assert(theme_on(lines_of((files[i]->0)@)[k]) == first_theme_in(files));
        } else {
            let i = files.len() - 1;
            let lines = lines_of((files[i]->0)@);
            lemma_some_theme(lines);
            let k = choose|k: int|
                0 <= k < lines.len() && theme_on(#[trigger] lines[k]) == first_theme(lines);
            assert(theme_on(lines_of((files[i]->0)@)[k]) == first_theme_in(files));
        }
    }
}

/// Where no line of any file names a theme, `hicolor` is chosen; and a theme that
/// is chosen, if it is another, stands on a line of one of the files.
pub proof fn law_hicolor_is_the_last_resort(files: Seq<Option<String>>)
    ensures
        (forall|i: int| 0 <= i < files.len() ==> names_no_theme(#[trigger] files[i])) ==> set_or(
            first_theme_in(files),
            "hicolor"@,
        ) == "hicolor"@,
        set_or(first_theme_in(files), "hicolor"@) != "hicolor"@ ==> exists|i: int, k: int|
            0 <= i < files.len() && (files[i] matches Some(content) && 0 <= k < lines_of(
                content@,
            ).len() && theme_on(#[trigger] lines_of((files[i]->0)@)[k]) == Some(
                set_or(first_theme_in(files), "hicolor"@),
            )),
{
    if forall|i: int| 0 <= i < files.len() ==> names_no_theme(#[trigger] files[i]) {
        lemma_no_file_names(files);
    }
    if first_theme_in(files) is Some {
        lemma_some_file_names(files);
        let (i, k) = choose|i: int, k: int|
            0 <= i < files.len() && (files[i] matches Some(content) && 0 <= k < lines_of(
                content@,
            ).len() && theme_on(#[trigger] lines_of((files[i]->0)@)[k]) == first_theme_in(files));
        assert(theme_on(lines_of((files[i]->0)@)[k]) == Some(
            set_or(first_theme_in(files), "hicolor"@),
        ));
    }
}

/// A line names the theme that follows the key, without the white space around the
/// value and the quotes around what is left, however many; a line of another key
/// names none, and neither does one whose value is white space or quotes alone.
pub proof fn law_theme_is_named_by_its_key(
    before: Seq<char>,
    open: Seq<char>,
    theme: Seq<char>,
    close: Seq<char>,
    behind: Seq<char>,
    line: Seq<char>,
)
    requires
        theme.len() > 0 ==> theme[0] != '"' && theme.last() != '"',
        forall|k: int| 0 <= k < open.len() ==> #[trigger] open[k] == '"',
        forall|k: int| 0 <= k < close.len() ==> #[trigger] close[k] == '"',
        open.len() == 0 && theme.len() > 0 ==> !is_space(theme[0]),
        close.len() == 0 && theme.len() > 0 ==> !is_space(theme.last()),
        forall|k: int| 0 <= k < before.len() ==> is_space(#[trigger] before[k]),
        forall|k: int| 0 <= k < behind.len() ==> is_space(#[trigger] behind[k]),
    ensures
        theme.len() > 0 ==> theme_on(
            "gtk-icon-theme-name="@ + (before + (open + theme + close) + behind),
        ) == Some(theme),
        theme.len() == 0 ==> theme_on(
            "gtk-icon-theme-name="@ + (before + (open + theme + close) + behind),
        ) is None,
        !"gtk-icon-theme-name="@.is_prefix_of(line) ==> theme_on(line) is None,
{
    let key = "gtk-icon-theme-name="@;
    let quote = Margin::Only('"');
    let q = open + theme + close;
    lemma_after_prefix_concat(key, before + q + behind);
    assert(!is_space('"'));
    if q.len() > 0 {
        assert(q[0] == '"' || q[0] == theme[0]);
        assert(q.last() == '"' || q.last() == theme.last());
    }
    law_trimming_takes_the_margins(before, q, behind, Margin::Space);
    law_trimming_takes_the_margins(open, theme, close, quote);
    if after_prefix(line, key) is Some {
        assert(line.take(key.len() as int) =~= line.subrange(0, key.len() as int));
    }
}

proof fn lemma_dirs_concat(
    a: Seq<Seq<char>>,
    b: Seq<Seq<char>>,
    themes: Seq<Seq<char>>,
    name: Seq<char>,
)
    ensures
        all_dir_paths(a + b, themes, name) == all_dir_paths(a, themes, name) + all_dir_paths(
            b,
            themes,
            name,
        ),
    decreases b.len(),
{
    if b.len() == 0 {
        assert(a + b =~= a);
        assert(all_dir_paths(a, themes, name) + all_dir_paths(b, themes, name) =~= all_dir_paths(
            a,
            themes,
            name,
        ));
    } else {
        let c = b.drop_last();
        lemma_dirs_concat(a, c, themes, name);
        assert((a + b).drop_last() =~= a + c);
        assert((a + b).last() == b.last());
        lemma_append(
            all_dir_paths(a, themes, name),
            all_dir_paths(c, themes, name),
            dir_paths(b.last(), themes, name),
        );
    }
}

#[verifier::rlimit(50)]
proof fn lemma_dir_of_one(d: Seq<char>, theme: Seq<char>, name: Seq<char>)
    ensures
        theme != "hicolor"@ ==> all_dir_paths(seq![d], themes_for(theme), name) == theme_paths(
            joined(d, theme),
            name,
        ) + theme_paths(joined(d, "hicolor"@), name),
        theme == "hicolor"@ ==> all_dir_paths(seq![d], themes_for(theme), name) == theme_paths(
            joined(d, theme),
            name,
        ),
{
    let themes = themes_for(theme);
    lemma_one_dir(d, themes, name);
    lemma_one_theme(d, theme, name);
    if theme != "hicolor"@ {
        assert(themes.drop_last() =~= seq![theme]);
        assert(themes.last() == "hicolor"@);
    }
}

proof fn lemma_one_dir(d: Seq<char>, themes: Seq<Seq<char>>, name: Seq<char>)
    ensures
        all_dir_paths(seq![d], themes, name) == dir_paths(d, themes, name),
{
    assert(seq![d].drop_last() =~= seq![]);
    lemma_nothing_before(
        all_dir_paths(seq![d].drop_last(), themes, name),
        dir_paths(d, themes, name),
    );
}

proof fn lemma_one_theme(d: Seq<char>, theme: Seq<char>, name: Seq<char>)
    ensures
        dir_paths(d, seq![theme], name) == theme_paths(joined(d, theme), name),
{
    assert(seq![theme].drop_last() =~= seq![]);
    lemma_nothing_before(
        dir_paths(d, seq![theme].drop_last(), name),
        theme_paths(joined(d, theme), name),
    );
}

proof fn lemma_nothing_before(a: Seq<Seq<char>>, b: Seq<Seq<char>>)
    requires
        a.len() == 0,
    ensures
        a + b == b,
{
    assert(a + b =~= b);
}

/// Where an icon is looked for: directory by directory, in each the chosen theme
/// before `hicolor`, which is searched once.
#[verifier::rlimit(50)]
pub proof fn law_places_in_order(
    name: Seq<char>,
    theme: Seq<char>,
    dir: Seq<char>,
    dirs: Seq<Seq<char>>,
)
    ensures
        theme != "hicolor"@ ==> icon_paths(name, theme, seq![dir] + dirs) == theme_paths(
            joined(dir, theme),
            name,
        ) + theme_paths(joined(dir, "hicolor"@), name) + icon_paths(name, theme, dirs),
        icon_paths(name, "hicolor"@, seq![dir] + dirs) == theme_paths(
            joined(dir, "hicolor"@),
            name,
        ) + icon_paths(name, "hicolor"@, dirs),
{
    lemma_dirs_concat(seq![dir], dirs, themes_for(theme), name);
    lemma_dirs_concat(seq![dir], dirs, themes_for("hicolor"@), name);
    lemma_dir_of_one(dir, theme, name);
    lemma_dir_of_one(dir, "hicolor"@, name);
    lemma_append(
        all_dir_paths(seq![dir], themes_for(theme), name),
        all_dir_paths(dirs, themes_for(theme), name),
        pixmap_paths(name),
    );
    lemma_append(
        all_dir_paths(seq![dir], themes_for("hicolor"@), name),
        all_dir_paths(dirs, themes_for("hicolor"@), name),
        pixmap_paths(name),
    );
}

/// Behind all directories an icon is looked for outside themes, as a PNG, an SVG
/// and an XPM file.
pub proof fn law_pixmaps_come_last(name: Seq<char>, theme: Seq<char>)
    ensures
        name.len() > 0 && name[0] != '/' ==> icon_paths(name, theme, seq![]) == seq![
            "/usr/share/pixmaps/"@ + (name + ".png"@),
            "/usr/share/pixmaps/"@ + (name + ".svg"@),
            "/usr/share/pixmaps/"@ + (name + ".xpm"@),
        ],
        icon_paths(name, theme, seq![]) == seq![
            joined("/usr/share/pixmaps"@, name + ".png"@),
            joined("/usr/share/pixmaps"@, name + ".svg"@),
            joined("/usr/share/pixmaps"@, name + ".xpm"@),
        ],
{
    let none: Seq<Seq<char>> = seq![];
    assert(all_dir_paths(none, themes_for(theme), name) =~= seq![]);
    assert(icon_paths(name, theme, none) =~= pixmap_paths(name));
    if name.len() > 0 && name[0] != '/' {
        lemma_pixmap(name + ".png"@);
        lemma_pixmap(name + ".svg"@);
        lemma_pixmap(name + ".xpm"@);
    }
}

proof fn lemma_pixmap(file: Seq<char>)
    requires
        file.len() > 0,
        file[0] != '/',
    ensures
        joined("/usr/share/pixmaps"@, file) == "/usr/share/pixmaps/"@ + file,
{
    reveal_strlit("/usr/share/pixmaps");
    reveal_strlit("/usr/share/pixmaps/");
    reveal_strlit("/");
    assert("/usr/share/pixmaps"@ + "/"@ =~= "/usr/share/pixmaps/"@);
}

/// An icon with a name is resolved in this order: by the search through the
/// system's themes for that name, in the given theme and directories; by the cache;
/// for an application with a reverse-DNS name, by a download from Flathub; and by
/// the search for the generic icon. The value of the key counts as a path before
/// all of them, where it is one and the file exists.
#[verifier::rlimit(50)]
pub proof fn law_icon_is_resolved_in_order(
    icon: Seq<char>,
    stem: Seq<char>,
    theme: Seq<char>,
    dirs: Seq<Seq<char>>,
    cached: Seq<char>,
    dest: Seq<char>,
    succeeds: spec_fn(AttemptText) -> bool,
)
    ensures
        ({
            let result = SearchState::start(
                resolution(icon, stem, theme, dirs, cached, dest),
                None,
            ).run(succeeds);
            let name = icon_name_of(icon);
            let own = icon.len() > 0 && icon[0] == '/' && succeeds(AttemptText::Probe(icon));
            let system = SearchState::start(
                probes(icon_paths(name, theme, dirs)),
                None,
            ).run(succeeds);
            let fetched = is_reverse_dns(stem) && succeeds(
                AttemptText::Fetch {
                    url: "https://dl.flathub.org/repo/appstream/x86_64/icons/128x128/"@ + stem
                        + ".png"@,
                    dest,
                },
            );
            let generic = SearchState::start(
                probes(icon_paths("application-x-executable"@, theme, dirs)),
                None,
            ).run(succeeds);
            &&& own ==> result == Some(icon)
            &&& !own && name.len() > 0 && system is Some ==> result == system
            &&& !own && name.len() > 0 && system is None && succeeds(AttemptText::Probe(cached))
                ==> result == Some(cached)
            &&& !own && name.len() > 0 && system is None && !succeeds(AttemptText::Probe(cached))
                && fetched ==> result == Some(dest)
            &&& !own && name.len() > 0 && system is None && !succeeds(AttemptText::Probe(cached))
                && !fetched ==> result == generic
            &&& !own && name.len() == 0 ==> result == generic
        }),
{
    let name = icon_name_of(icon);
    let lead = if is_absolute(icon) {
        seq![probe(icon)]
    } else {
        seq![]
    };
    let system = probes(icon_paths(name, theme, dirs));
    let kept = seq![probe(cached)];
    let load = if name.len() > 0 && is_reverse_dns(stem) {
        seq![download(stem, dest)]
    } else {
        seq![]
    };
    let generic = probes(icon_paths(generic_icon(), theme, dirs));
    let all = resolution(icon, stem, theme, dirs, cached, dest);
    law_search_with_one_candidate(probe(icon), None, succeeds);
    law_search_with_one_candidate(probe(cached), None, succeeds);
    law_search_with_one_candidate(download(stem, dest), None, succeeds);
    if name.len() > 0 {
        assert(system.push(probe(cached)) =~= system + kept);
        assert(all =~= lead + (system + (kept + (load + generic))));
        law_search_goes_on(lead, system + (kept + (load + generic)), None, succeeds);
        law_search_goes_on(system, kept + (load + generic), None, succeeds);
        law_search_goes_on(kept, load + generic, None, succeeds);
        law_search_goes_on(load, generic, None, succeeds);
    } else {
        assert(all =~= lead + generic);
        law_search_goes_on(lead, generic, None, succeeds);
    }
}

#[verifier::rlimit(50)]
proof fn lemma_first_of_theme(
    name: Seq<char>,
    theme: Seq<char>,
    dirs: Seq<Seq<char>>,
    succeeds: spec_fn(AttemptText) -> bool,
    i: int,
)
    requires
        dirs.len() > 0,
        0 <= i < theme_paths(joined(dirs[0], theme), name).len(),
        succeeds(AttemptText::Probe(theme_paths(joined(dirs[0], theme), name)[i])),
        forall|k: int|
            0 <= k < i ==> !succeeds(
                AttemptText::Probe(#[trigger] theme_paths(joined(dirs[0], theme), name)[k]),
            ),
    ensures
        SearchState::start(probes(icon_paths(name, theme, dirs)), None).run(succeeds) == Some(
            theme_paths(joined(dirs[0], theme), name)[i],
        ),
{
    let own = theme_paths(joined(dirs[0], theme), name);
    let rest = dirs.skip(1);
    assert(seq![dirs[0]] + rest =~= dirs);
    law_places_in_order(name, theme, dirs[0], rest);
    let paths = icon_paths(name, theme, dirs);
    assert(forall|k: int| 0 <= k < own.len() ==> #[trigger] paths[k] == own[k]) by {
        let hicolor = theme_paths(joined(dirs[0], "hicolor"@), name);
        let behind = icon_paths(name, theme, rest);
        if theme != "hicolor"@ {
            lemma_append(own, hicolor, behind);
        }
    }
    assert forall|k: int| 0 <= k < i implies !succeeds(
        AttemptText::Probe(#[trigger] paths[k]),
    ) by {
        assert(!succeeds(AttemptText::Probe(own[k])));
    }
    assert(succeeds(AttemptText::Probe(paths[i])));
    law_probes_find_the_first_file(paths, succeeds);
}

/// The user's theme comes first: the icon of the preferred size in that theme,
/// under the first directory, is the result wherever it exists, whatever else
/// exists.
#[verifier::rlimit(50)]
pub proof fn law_users_theme_comes_first(
    icon: Seq<char>,
    stem: Seq<char>,
    theme: Seq<char>,
    dirs: Seq<Seq<char>>,
    cached: Seq<char>,
    dest: Seq<char>,
    succeeds: spec_fn(AttemptText) -> bool,
)
    requires
        icon.len() > 0,
        icon[0] != '/',
        icon_name_of(icon).len() > 0,
        dirs.len() > 0,
        succeeds(
            AttemptText::Probe(
                joined(
                    joined(joined(joined(dirs[0], theme), "64x64"@), "apps"@),
                    icon_name_of(icon) + ".png"@,
                ),
            ),
        ),
    ensures
        SearchState::start(
            resolution(icon, stem, theme, dirs, cached, dest),
            None,
        ).run(succeeds) == Some(
            joined(
                joined(joined(joined(dirs[0], theme), "64x64"@), "apps"@),
                icon_name_of(icon) + ".png"@,
            ),
        ),
{
    let name = icon_name_of(icon);
    let root = joined(dirs[0], theme);
    law_sizes_in_order(root, name);
    assert(theme_paths(root, name)[0] == theme_paths(root, name).subrange(0, 2)[0]);
    lemma_first_of_theme(name, theme, dirs, succeeds, 0);
    law_icon_is_resolved_in_order(icon, stem, theme, dirs, cached, dest, succeeds);
}

/// In one directory the user's theme comes before `hicolor` and before everything
/// else: the first of its places that holds the icon is the result.
#[verifier::rlimit(50)]
pub proof fn law_users_theme_comes_before_hicolor(
    icon: Seq<char>,
    stem: Seq<char>,
    theme: Seq<char>,
    dirs: Seq<Seq<char>>,
    cached: Seq<char>,
    dest: Seq<char>,
    succeeds: spec_fn(AttemptText) -> bool,
    i: int,
)
    requires
        icon.len() > 0,
        icon[0] != '/',
        icon_name_of(icon).len() > 0,
        dirs.len() > 0,
        0 <= i < theme_paths(joined(dirs[0], theme), icon_name_of(icon)).len(),
        succeeds(
            AttemptText::Probe(theme_paths(joined(dirs[0], theme), icon_name_of(icon))[i]),
        ),
        forall|k: int|
            0 <= k < i ==> !succeeds(
                AttemptText::Probe(
                    #[trigger] theme_paths(joined(dirs[0], theme), icon_name_of(icon))[k],
                ),
            ),
    ensures
        SearchState::start(
            resolution(icon, stem, theme, dirs, cached, dest),
            None,
        ).run(succeeds) == Some(
            theme_paths(joined(dirs[0], theme), icon_name_of(icon))[i],
        ),
{
    lemma_first_of_theme(icon_name_of(icon), theme, dirs, succeeds, i);
    law_icon_is_resolved_in_order(icon, stem, theme, dirs, cached, dest, succeeds);
}

/// Nothing is found that was not looked at and found to be there.
pub proof fn law_resolved_icon_is_there(
    icon: Seq<char>,
    stem: Seq<char>,
    theme: Seq<char>,
    dirs: Seq<Seq<char>>,
    cached: Seq<char>,
    dest: Seq<char>,
    succeeds: spec_fn(AttemptText) -> bool,
)
    ensures
        SearchState::start(
            resolution(icon, stem, theme, dirs, cached, dest),
            None,
        ).run(succeeds) matches Some(p)
            ==> succeeds(AttemptText::Probe(p)) || (p == dest && succeeds(
            AttemptText::Fetch {
                url: "https://dl.flathub.org/repo/appstream/x86_64/icons/128x128/"@ + stem
                    + ".png"@,
                dest,
            },
        )),
{
    let all = resolution(icon, stem, theme, dirs, cached, dest);
    law_found_is_confirmed(all, succeeds);
    if let Some(p) = SearchState::start(all, None).run(succeeds) {
        let i = choose|i: int| #[trigger]
            is_first_success(all, succeeds, i) && all[i].value == p;
        if all[i].attempt is Fetch {
            law_downloads_only_from_flathub(icon, stem, theme, dirs, cached, dest, i);
        }
    }
}

/// An icon of one size lies under the size and then `apps`, or the other way
/// round; a scalable one likewise.
pub proof fn law_theme_layouts(root: Seq<char>, size: Seq<char>, file: Seq<char>)
    ensures
        sized_paths(root, size, file).len() == 2,
        sized_paths(root, size, file)[0] == joined(joined(joined(root, size), "apps"@), file),
        sized_paths(root, size, file)[1] == joined(joined(joined(root, "apps"@), size), file),
        scalable_paths(root, file).len() == 2,
        scalable_paths(root, file)[0] == joined(joined(root, "scalable/apps"@), file),
        scalable_paths(root, file)[1] == joined(joined(root, "apps/scalable"@), file),
{
}

/// A name that ends in none of the extensions of icons is looked up as it stands.
pub proof fn law_plain_icon_name_is_kept(icon: Seq<char>)
    requires
        icon.len() == 0 || icon[0] != '/',
        !".png"@.is_suffix_of(icon),
        !".svg"@.is_suffix_of(icon),
        !".xpm"@.is_suffix_of(icon),
    ensures
        icon_name_of(icon) == icon,
{
    lemma_suffix(icon, ".png"@);
    lemma_suffix(icon, ".svg"@);
    lemma_suffix(icon, ".xpm"@);
}

proof fn lemma_suffix(s: Seq<char>, p: Seq<char>)
    ensures
        p.is_suffix_of(s) <==> before_suffix(s, p) is Some,
{
    if p.len() <= s.len() {
        assert(s.skip(s.len() - p.len()) =~= s.subrange(s.len() - p.len(), s.len() as int));
    }
}

/// An icon that is given by its path is looked up by the name of its file, without
/// its directory and without its extension, whatever that is.
pub proof fn law_icon_path_is_looked_up_by_its_file(
    dir: Seq<char>,
    name: Seq<char>,
    ext: Seq<char>,
)
    requires
        dir.len() > 0,
        dir[0] == '/',
        name.len() > 0,
        !name.contains('/'),
        !ext.contains('/'),
        !ext.contains('.'),
        name != "."@ || ext.len() > 0,
    ensures
        icon_name_of(dir.push('/') + (name.push('.') + ext)) == name,
{
    reveal_strlit(".");
    reveal_strlit("..");
    let file = name.push('.') + ext;
    assert(!file.contains('/')) by {
        if file.contains('/') {
            let k = choose|k: int| 0 <= k < file.len() && file[k] == '/';
            if k < name.len() {
                assert(name.contains(name[k]));
            } else if k > name.len() {
                assert(ext.contains(ext[k - name.len() - 1]));
            }
        }
    }
    if file == ".."@ {
        assert(file.len() == 2);
        assert(file[0] == name[0]);
        assert(name =~= "."@);
    }
    assert(file.len() != "."@.len());
    law_file_name_is_the_last_part(dir, file);
    law_name_is_cut_at_the_last_dot(name, ext);
    assert((dir.push('/') + file)[0] == dir[0]);
}

/// Whether the characters of a stem may stand in a reverse-DNS name, and no
/// segment is empty: no dot at an end, and none next to another.
spec fn is_well_spelt(s: Seq<char>) -> bool {
    &&& s.len() > 0
    &&& s[0] != '.'
    &&& s.last() != '.'
    &&& forall|k: int| 0 <= k < s.len() ==> #[trigger] s[k] == '.' || is_segment_char(s[k])
    &&& forall|k: int, j: int|
        0 <= k < s.len() && j == k + 1 && j < s.len() && #[trigger] s[k] == '.' ==> #[trigger] s[j]
            != '.'
}

proof fn lemma_segments(s: Seq<char>)
    ensures
        (forall|k: int|
            0 <= k < split_at_char(s, '.').len() ==> is_segment(
                #[trigger] split_at_char(s, '.')[k],
            )) <==> is_well_spelt(s),
        split_at_char(s, '.').len() >= 1,
        split_at_char(s, '.').len() >= 2 <==> s.contains('.'),
    decreases s.len(),
{
    lemma_find_char(s, '.');
    let n = find_char(s, '.');
    let parts = split_at_char(s, '.');
    if n == s.len() {
        assert(parts =~= seq![s]);
        assert(parts[0] == s);
        if s.contains('.') {
            let k = choose|k: int| 0 <= k < s.len() && s[k] == '.';
            assert(s[k] != '.');
        }
        assert(!is_segment_char('.'));
        if is_segment(s) {
            assert(is_well_spelt(s));
        }
    } else {
        let head = s.take(n);
        let rest = s.skip(n + 1);
        lemma_segments(rest);
        let sub = split_at_char(rest, '.');
        assert(parts[0] == head);
        assert(forall|k: int| 0 <= k < sub.len() ==> #[trigger] sub[k] == parts[k + 1]);
        assert(s.contains('.')) by {
            assert(s[n] == '.');
        }
        assert(!is_segment_char('.'));
        assert(forall|k: int| 0 <= k < rest.len() ==> #[trigger] rest[k] == s[k + n + 1]);
        if forall|k: int| 0 <= k < parts.len() ==> is_segment(#[trigger] parts[k]) {
            assert(is_segment(head));
            assert forall|k: int| 0 <= k < sub.len() implies is_segment(#[trigger] sub[k]) by {
                assert(is_segment(parts[k + 1]));
            }
            assert(is_well_spelt(rest));
            assert(s[0] == head[0]);
            assert(s.last() == rest.last());
            assert forall|k: int| 0 <= k < s.len() implies #[trigger] s[k] == '.'
                || is_segment_char(s[k]) by {
                if k < n {
                    assert(head[k] == s[k]);
                } else if k > n {
                    assert(rest[k - n - 1] == s[k]);
                }
            }
            assert forall|k: int, j: int|
                0 <= k < s.len() && j == k + 1 && j < s.len() && #[trigger] s[k]
                    == '.' implies #[trigger] s[j] != '.' by {
                assert(k >= n);
                if k == n {
                    assert(rest[0] == s[j]);
                } else {
                    assert(rest[k - n - 1] == s[k]);
                    assert(rest[j - n - 1] == s[j]);
                }
            }
        }
        if is_well_spelt(s) {
            assert(n > 0);
            assert forall|k: int| 0 <= k < head.len() implies is_segment_char(
                #[trigger] head[k],
            ) by {
                assert(head[k] == s[k]);
            }
            assert(n < s.len() - 1);
            assert(s[n + 1] != '.');
            assert(rest[0] == s[n + 1]);
            assert(rest.last() == s.last());
            assert forall|k: int, j: int|
                0 <= k < rest.len() && j == k + 1 && j < rest.len() && #[trigger] rest[k]
                    == '.' implies #[trigger] rest[j] != '.' by {
                assert(s[k + n + 1] == '.');
                assert(s[j + n + 1] != '.');
            }
            assert(is_well_spelt(rest));
            assert forall|k: int| 0 <= k < parts.len() implies is_segment(#[trigger] parts[k]) by {
                if k > 0 {
                    assert(sub[k - 1] == parts[k]);
                    assert(is_segment(sub[k - 1]));
                }
            }
        }
    }
}

proof fn lemma_bytes(s: Seq<char>)
    ensures
        s.len() >= 2 ==> encode_utf8(s).len() >= 2,
        s.len() == 1 ==> (encode_utf8(s).len() >= 2 <==> s[0] > '\u{7f}'),
        s.len() >= 1 ==> encode_utf8(s).len() >= 1,
    decreases s.len(),
{
    if s.len() >= 1 {
        lemma_bytes(s.drop_first());
        vstd::utf8::char_is_scalar(s[0]);
        vstd::utf8::char_u32_cast(s[0], s[0] as u32);
        if s.len() == 1 {
            assert(encode_utf8(s.drop_first()).len() == 0);
        }
    }
}

/// What a reverse-DNS name is, character by character: letters, digits, hyphens
/// and underscores between at least two dots, none of which stands at an end or
/// next to another, and in front of the first dot two characters or one that is
/// not ASCII.
pub proof fn law_reverse_dns_by_characters(stem: Seq<char>)
    ensures
        is_reverse_dns(stem) <==> {
            &&& stem.len() > 1
            &&& forall|k: int|
                0 <= k < stem.len() ==> #[trigger] stem[k] == '.' || stem[k] == '-' || stem[k]
                    == '_' || 'a' <= stem[k] <= 'z' || 'A' <= stem[k] <= 'Z' || '0' <= stem[k]
                    <= '9' || (stem[k] > '\u{7f}' && is_alphanumeric_char(stem[k]))
            &&& exists|i: int, j: int|
                0 <= i < j < stem.len() && #[trigger] stem[i] == '.' && #[trigger] stem[j] == '.'
            &&& forall|i: int, j: int|
                0 <= i < stem.len() && j == i + 1 && j < stem.len() && #[trigger] stem[i] == '.'
                    ==> #[trigger] stem[j] != '.'
            &&& stem[0] != '.'
            &&& stem.last() != '.'
            &&& stem[1] != '.' || stem[0] > '\u{7f}'
        },
{
    lemma_segments(stem);
    lemma_find_char(stem, '.');
    let n = find_char(stem, '.');
    let parts = split_at_char(stem, '.');
    if n < stem.len() {
        let head = stem.take(n);
        let rest = stem.skip(n + 1);
        lemma_segments(rest);
        assert(parts[0] == head);
        assert(parts.len() == 1 + split_at_char(rest, '.').len());
        lemma_bytes(head);
        if rest.contains('.') {
            let k = choose|k: int| 0 <= k < rest.len() && rest[k] == '.';
            assert(stem[n] == '.');
            assert(stem[n + 1 + k] == '.');
        }
        if exists|i: int, j: int|
            0 <= i < j < stem.len() && #[trigger] stem[i] == '.' && #[trigger] stem[j] == '.' {
            let (i, j) = choose|i: int, j: int|
                0 <= i < j < stem.len() && #[trigger] stem[i] == '.' && #[trigger] stem[j] == '.';
            assert(i >= n);
            assert(rest[j - n - 1] == '.');
            assert(rest.contains('.'));
        }
        if n >= 1 {
            assert(head[0] == stem[0]);
        }
        if n == 1 {
            assert(stem[1] == '.');
        }
    } else {
        assert(!stem.contains('.')) by {
            if stem.contains('.') {
                let k = choose|k: int| 0 <= k < stem.len() && stem[k] == '.';
                assert(stem[k] != '.');
            }
        }
        if exists|i: int, j: int|
            0 <= i < j < stem.len() && #[trigger] stem[i] == '.' && #[trigger] stem[j] == '.' {
            let (i, j) = choose|i: int, j: int|
                0 <= i < j < stem.len() && #[trigger] stem[i] == '.' && #[trigger] stem[j] == '.';
            assert(stem[i] != '.');
        }
    }
}

/// An answer is kept if and only if it is a success and its body starts with the
/// signature of PNG files, whatever follows.
pub proof fn law_png_answers_are_kept(status: u16, body: Seq<u8>)
    ensures
        !is_icon_answer(status, None),
        is_icon_answer(200, Some(seq![0x89u8, 0x50, 0x4e, 0x47, 0x0d, 0x0a, 0x1a, 0x0a] + body)),
        status != 200 ==> !is_icon_answer(status, Some(body)),
        !seq![0x89u8, 0x50, 0x4e, 0x47, 0x0d, 0x0a, 0x1a, 0x0a].is_prefix_of(body)
            ==> !is_icon_answer(status, Some(body)),
{
    let png = seq![0x89u8, 0x50, 0x4e, 0x47, 0x0d, 0x0a, 0x1a, 0x0a];
    assert((png + body).take(8) =~= png);
    if body.len() >= 8 {
        assert(body.take(8) =~= body.subrange(0, 8));
    }
}

/// Where icon themes are looked for: in the user's data directory, which is the
/// default one where no other is set, then in the default one, then in the
/// system's.
pub proof fn law_icon_directories(data: Seq<char>, home: Seq<char>)
    ensures
        icon_dirs(Some(data), home) == seq![
            joined(data, "icons"@),
            joined(home, ".local/share/icons"@),
            "/usr/share/icons"@,
        ],
        icon_dirs(None, home) == icon_dirs(Some(joined(home, ".local/share"@)), home),
{
}

/// A directory that was listed is searched, unless it is the same place as one
/// that is searched before it; and nothing else is searched, nor in another order.
pub proof fn law_every_directory_is_searched(paths: Seq<Seq<char>>, last: Seq<char>)
    ensures
        distinct_places(seq![]) == Seq::<Seq<char>>::empty(),
        (exists|k: int| 0 <= k < paths.len() && same_place(#[trigger] paths[k], last))
            ==> distinct_places(paths.push(last)) == distinct_places(paths),
        (forall|k: int| 0 <= k < paths.len() ==> !same_place(#[trigger] paths[k], last))
            ==> distinct_places(paths.push(last)) == distinct_places(paths).push(last),
{
    assert(paths.push(last).drop_last() =~= paths);
    assert(distinct_places(seq![]) =~= seq![]);
}

/// An icon that is given by its path is looked up by the stem of its file, and by
/// the whole path where that names no file.
pub proof fn law_icon_path_is_looked_up_by_its_stem(icon: Seq<char>)
    requires
        icon.len() > 0,
        icon[0] == '/',
    ensures
        file_name_of(icon) matches Some(file) ==> icon_name_of(icon) == stem_of(file),
        file_name_of(icon) is None ==> icon_name_of(icon) == icon,
{
}

}
