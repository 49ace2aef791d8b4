//! Desktop entry files: the applications that the launcher offers.
use crate::text::{
    after_prefix, chars_of, copy_chars, is_text, is_space, lemma_after_prefix_concat,
    lemma_trim_both, string_of, strip_prefix, texts, trim_chars, trimmed, Margin,
};
use vstd::prelude::*;

verus! {

// ---- Field codes of an Exec line ---------------------------------------------

/// Whether `c` is an ASCII letter.
pub open spec fn is_ascii_letter(c: char) -> bool {
    'a' <= c <= 'z' || 'A' <= c <= 'Z'
}

/// `s` without its field codes: `%%` stands for a percent sign, a percent sign
/// and a letter for nothing, and any other percent sign for itself.
pub open spec fn without_codes(s: Seq<char>) -> Seq<char>
    decreases s.len(),
{
    if s.len() == 0 {
        seq![]
    } else if s[0] == '%' && s.len() > 1 && s[1] == '%' {
        seq!['%'] + without_codes(s.skip(2))
    } else if s[0] == '%' && s.len() > 1 && is_ascii_letter(s[1]) {
        without_codes(s.skip(2))
    } else {
        seq![s[0]] + without_codes(s.skip(1))
    }
}

fn remove_codes(s: &[char]) -> (r: Vec<char>)
    ensures
        r@ == without_codes(s@),
{
    let mut out: Vec<char> = Vec::new();
    let mut i: usize = 0;
    proof {
        assert(s@.skip(0) =~= s@);
        assert(out@ + without_codes(s@) =~= without_codes(s@));
    }
    while i < s.len()
        invariant
            i <= s.len(),
            out@ + without_codes(s@.skip(i as int)) == without_codes(s@),
        decreases s.len() - i,
    {
        let ghost rest = s@.skip(i as int);
        let ghost before = out@;
        let c = s[i];
        proof {
            assert(rest[0] == c);
            assert(rest.len() > 1 ==> rest[1] == s@[i + 1]);
            assert(rest.len() > 1 ==> rest.skip(2) =~= s@.skip(i + 2));
            assert(rest.skip(1) =~= s@.skip(i + 1));
        }
        if c == '%' && s.len() - i > 1 {
            let n = s[i + 1];
            if n == '%' {
                out.push('%');
                i = i + 2;
                proof {
                    assert(out@ + without_codes(s@.skip(i as int)) =~= before + (seq!['%']
                        + without_codes(s@.skip(i as int))));
                }
                continue ;
            }
            if ('a' <= n && n <= 'z') || ('A' <= n && n <= 'Z') {
                i = i + 2;
                continue ;
            }
        }
        out.push(c);
        i = i + 1;
        proof {
            assert(out@ + without_codes(s@.skip(i as int)) =~= before + (seq![c] + without_codes(
                s@.skip(i as int),
            )));
        }
    }
    proof {
        assert(s@.skip(i as int) =~= Seq::<char>::empty());
        assert(out@ + without_codes(s@.skip(i as int)) =~= out@);
    }
    out
}

/// Removes the field codes from the value of an `Exec` key.
pub fn strip_exec_codes(command: &str) -> (r: String)
    ensures
        r@ == without_codes(command@),
{
    let s = chars_of(command);
    let out = remove_codes(s.as_slice());
    string_of(out.as_slice())
}

/// A text without percent signs has no field codes to lose.
pub proof fn law_plain_exec_unchanged(s: Seq<char>)
    requires
        !s.contains('%'),
    ensures
        without_codes(s) == s,
    decreases s.len(),
{
    if s.len() > 0 {
        assert(s[0] != '%');
        let t = s.skip(1);
        assert forall|k: int| 0 <= k < t.len() implies #[trigger] t[k] != '%' by {
            assert(t[k] == s[k + 1]);
        }
        law_plain_exec_unchanged(t);
        assert(seq![s[0]] + t =~= s);
    }
}

/// Removing field codes brings in no character that was not there.
pub proof fn lemma_codes_bring_nothing(s: Seq<char>, c: char)
    requires
        !s.contains(c),
    ensures
        !without_codes(s).contains(c),
    decreases s.len(),
{
    if s.len() > 0 {
        assert(s.contains(s[0]));
        let one = s.skip(1);
        assert(forall|k: int| 0 <= k < one.len() ==> #[trigger] one[k] == s[k + 1]);
        lemma_codes_bring_nothing(one, c);
        if s.len() > 1 {
            let two = s.skip(2);
            assert(forall|k: int| 0 <= k < two.len() ==> #[trigger] two[k] == s[k + 2]);
            lemma_codes_bring_nothing(two, c);
        }
    }
}

// ---- Desktop entries ----------------------------------------------------------

/// An application that a desktop entry describes.
#[derive(Debug)]
pub struct DesktopApp {
    /// The display name.
    pub name: String,
    /// The command line, without field codes.
    pub command: String,
    /// Whether the command runs in a terminal.
    pub terminal: bool,
}

/// The contents of a [`DesktopApp`].
#[verifier::ext_equal]
pub struct AppText {
    /// The display name.
    pub name: Seq<char>,
    /// The command line.
    pub command: Seq<char>,
    /// Whether the command runs in a terminal.
    pub terminal: bool,
}

impl View for DesktopApp {
    type V = AppText;

    open spec fn view(&self) -> AppText {
        AppText { name: self.name@, command: self.command@, terminal: self.terminal }
    }
}

/// The contents of an optional application.
pub open spec fn opt_app(o: Option<DesktopApp>) -> Option<AppText> {
    match o {
        Some(a) => Some(a@),
        None => None,
    }
}

/// Whether a trimmed line says nothing: it is empty or a comment.
pub open spec fn is_blank(t: Seq<char>) -> bool {
    t.len() == 0 || t[0] == '#'
}

/// Whether a trimmed line opens a group.
pub open spec fn is_header(t: Seq<char>) -> bool {
    t.len() > 0 && t[0] == '['
}

/// Whether what follows `lines` belongs to the group `[Desktop Entry]`: that is
/// the group that the last header among them opens.
pub open spec fn in_entry_group(lines: Seq<Seq<char>>) -> bool
    decreases lines.len(),
{
    if lines.len() == 0 {
        false
    } else if is_header(trimmed(lines.last())) {
        trimmed(lines.last()) == "[Desktop Entry]"@
    } else {
        in_entry_group(lines.drop_last())
    }
}

/// The trimmed lines of the group `[Desktop Entry]` that say something.
pub open spec fn entry_lines(lines: Seq<Seq<char>>) -> Seq<Seq<char>>
    decreases lines.len(),
{
    if lines.len() == 0 {
        seq![]
    } else {
        let earlier = entry_lines(lines.drop_last());
        let t = trimmed(lines.last());
        if !is_blank(t) && !is_header(t) && in_entry_group(lines.drop_last()) {
            earlier.push(t)
        } else {
            earlier
        }
    }
}

/// The value that the first line with the key `key` gives it.
pub open spec fn first_value(lines: Seq<Seq<char>>, key: Seq<char>) -> Option<Seq<char>>
    decreases lines.len(),
{
    if lines.len() == 0 {
        None
    } else {
        match first_value(lines.drop_last(), key) {
            Some(v) => Some(v),
            None => after_prefix(lines.last(), key),
        }
    }
}

/// The value that the last line with the key `key` gives it.
pub open spec fn last_value(lines: Seq<Seq<char>>, key: Seq<char>) -> Option<Seq<char>>
    decreases lines.len(),
{
    if lines.len() == 0 {
        None
    } else {
        match after_prefix(lines.last(), key) {
            Some(v) => Some(v),
            None => last_value(lines.drop_last(), key),
        }
    }
}

/// Whether the entry asks not to be shown.
pub open spec fn is_concealed(entry: Seq<Seq<char>>) -> bool {
    last_value(entry, "NoDisplay="@) == Some("true"@) || last_value(entry, "Hidden="@) == Some(
        "true"@,
    )
}

/// Whether the entry is of some other type than an application.
pub open spec fn is_other_type(entry: Seq<Seq<char>>) -> bool {
    match first_value(entry, "Type="@) {
        Some(t) => t != "Application"@,
        None => false,
    }
}

/// Whether the entry asks for a terminal.
pub open spec fn wants_terminal(entry: Seq<Seq<char>>) -> bool {
    last_value(entry, "Terminal="@) == Some("true"@) || last_value(entry, "Terminal="@) == Some(
        "1"@,
    )
}

/// The command line that the value of an `Exec` key stands for.
pub open spec fn command_line(value: Seq<char>) -> Seq<char> {
    trimmed(without_codes(trimmed(value)))
}

/// The application that the lines of a desktop file describe, if they describe
/// one to be shown: it is not concealed, not of another type, and has a name
/// and a command line that are not empty.
pub open spec fn described_app(lines: Seq<Seq<char>>) -> Option<AppText> {
    let entry = entry_lines(lines);
    match (first_value(entry, "Name="@), first_value(entry, "Exec="@)) {
        (Some(name), Some(value)) => if is_concealed(entry) || is_other_type(entry) || trimmed(
            name,
        ).len() == 0 || command_line(value).len() == 0 {
            None
        } else {
            Some(
                AppText {
                    name: trimmed(name),
                    command: command_line(value),
                    terminal: wants_terminal(entry),
                },
            )
        },
        _ => None,
    }
}

spec fn opt_vec(o: Option<Vec<char>>) -> Option<Seq<char>> {
    match o {
        Some(v) => Some(v@),
        None => None,
    }
}

fn keep_first(slot: Option<Vec<char>>, line: &[char], key: &str) -> (r: Option<Vec<char>>)
    ensures
        opt_vec(r) == (match slot {
            Some(v) => Some(v@),
            None => after_prefix(line@, key@),
        }),
{
    match slot {
        Some(v) => Some(v),
        None => match strip_prefix(line, key) {
            Some(v) => {
                let owned = copy_chars(v);
                Some(owned)
            },
            None => None,
        },
    }
}

/// Reads the lines of a desktop file. White space around a line is ignored.
pub fn parse_desktop(lines: &Vec<String>) -> (r: Option<DesktopApp>)
    ensures
        opt_app(r) == described_app(texts(lines@)),
{
    let mut in_entry = false;
    let mut name: Option<Vec<char>> = None;
    let mut command: Option<Vec<char>> = None;
    let mut app_type: Option<Vec<char>> = None;
    let mut no_display = false;
    let mut hidden = false;
    let mut terminal = false;
    let ghost all = texts(lines@);
    let mut i: usize = 0;
    while i < lines.len()
        invariant
            i <= lines.len(),
            all == texts(lines@),
            in_entry == in_entry_group(all.take(i as int)),
            opt_vec(name) == first_value(entry_lines(all.take(i as int)), "Name="@),
            opt_vec(command) == first_value(entry_lines(all.take(i as int)), "Exec="@),
            opt_vec(app_type) == first_value(entry_lines(all.take(i as int)), "Type="@),
            no_display == (last_value(entry_lines(all.take(i as int)), "NoDisplay="@) == Some(
                "true"@,
            )),
            hidden == (last_value(entry_lines(all.take(i as int)), "Hidden="@) == Some("true"@)),
            terminal == wants_terminal(entry_lines(all.take(i as int))),
        decreases lines.len() - i,
    {
        let raw = chars_of(lines[i].as_str());
        let s = trim_chars(raw.as_slice(), Margin::Space);
        let ghost prior = all.take(i as int);
        let ghost upto = all.take(i + 1);
        proof {
            assert(upto.drop_last() =~= prior);
            assert(upto.last() == raw@);
        }
        i = i + 1;
        if s.len() == 0 || s[0] == '#' {
            continue ;
        }
        if s[0] == '[' {
            in_entry = is_text(s, "[Desktop Entry]");
            continue ;
        }
        if !in_entry {
            continue ;
        }
        proof {
            let entry = entry_lines(upto);
            assert(entry == entry_lines(prior).push(s@));
            assert(entry.drop_last() =~= entry_lines(prior));
            assert(entry.last() == s@);
        }
        name = keep_first(name, s, "Name=");
        command = keep_first(command, s, "Exec=");
        app_type = keep_first(app_type, s, "Type=");
        if let Some(v) = strip_prefix(s, "NoDisplay=") {
            no_display = is_text(v, "true");
        }
        if let Some(v) = strip_prefix(s, "Hidden=") {
            hidden = is_text(v, "true");
        }
        if let Some(v) = strip_prefix(s, "Terminal=") {
            terminal = is_text(v, "true") || is_text(v, "1");
        }
    }
    proof {
        assert(all.take(i as int) =~= all);
    }
    if no_display || hidden {
        return None;
    }
    if let Some(t) = &app_type {
        if !is_text(t.as_slice(), "Application") {
            return None;
        }
    }
    let name = match name {
        Some(n) => n,
        None => {
            return None;
        },
    };
    let command = match command {
        Some(e) => e,
        None => {
            return None;
        },
    };
    let name = trim_chars(name.as_slice(), Margin::Space);
    let plain = remove_codes(trim_chars(command.as_slice(), Margin::Space));
    let command = trim_chars(plain.as_slice(), Margin::Space);
    if name.len() == 0 || command.len() == 0 {
        return None;
    }
    Some(DesktopApp { name: string_of(name), command: string_of(command), terminal })
}

// ---- Laws -------------------------------------------------------------------

proof fn lemma_trimmed_brings_nothing(s: Seq<char>, c: char)
    requires
        !s.contains(c),
    ensures
        !trimmed(s).contains(c),
{
    let (a, b) = lemma_trim_both(s, Margin::Space);
    let t = trimmed(s);
    assert forall|k: int| 0 <= k < t.len() implies #[trigger] t[k] != c by {
        assert(t[k] == s[a + k]);
        assert(s.contains(s[a + k]));
    }
}

proof fn lemma_first_value_brings_nothing(lines: Seq<Seq<char>>, key: Seq<char>, c: char)
    requires
        forall|k: int| 0 <= k < lines.len() ==> !(#[trigger] lines[k]).contains(c),
    ensures
        first_value(lines, key) matches Some(v) ==> !v.contains(c),
    decreases lines.len(),
{
    if lines.len() > 0 {
        let earlier = lines.drop_last();
        assert(forall|k: int| 0 <= k < earlier.len() ==> #[trigger] earlier[k] == lines[k]);
        lemma_first_value_brings_nothing(earlier, key, c);
        let s = lines[lines.len() - 1];
        if let Some(v) = after_prefix(s, key) {
            assert forall|k: int| 0 <= k < v.len() implies #[trigger] v[k] != c by {
                assert(v[k] == s[k + key.len()]);
                assert(s.contains(s[k + key.len()]));
            }
        }
    }
}

proof fn lemma_entry_lines_bring_nothing(lines: Seq<Seq<char>>, c: char)
    requires
        forall|k: int| 0 <= k < lines.len() ==> !(#[trigger] lines[k]).contains(c),
    ensures
        forall|k: int|
            0 <= k < entry_lines(lines).len() ==> !(#[trigger] entry_lines(lines)[k]).contains(c),
    decreases lines.len(),
{
    if lines.len() > 0 {
        let earlier = lines.drop_last();
        assert(forall|k: int| 0 <= k < earlier.len() ==> #[trigger] earlier[k] == lines[k]);
        lemma_entry_lines_bring_nothing(earlier, c);
        lemma_trimmed_brings_nothing(lines[lines.len() - 1], c);
        let before = entry_lines(earlier);
        let entry = entry_lines(lines);
        assert forall|k: int| 0 <= k < entry.len() implies !(#[trigger] entry[k]).contains(c) by {
            if k < before.len() {
                assert(entry[k] == before[k]);
            }
        }
    }
}

/// The name and the command line of an application are never empty and have no
/// white space at their ends.
pub proof fn law_app_is_trimmed(lines: Seq<Seq<char>>)
    ensures
        described_app(lines) matches Some(a) ==> a.name.len() > 0 && a.command.len() > 0
            && !is_space(a.name[0]) && !is_space(a.name.last()) && !is_space(a.command[0])
            && !is_space(a.command.last()),
{
    let entry = entry_lines(lines);
    if let (Some(name), Some(value)) = (
        first_value(entry, "Name="@),
        first_value(entry, "Exec="@),
    ) {
        lemma_trim_both(name, Margin::Space);
        lemma_trim_both(without_codes(trimmed(value)), Margin::Space);
    }
}

/// A character that stands in no line of the file stands neither in the name
/// nor in the command line. In particular both fit on one line.
pub proof fn law_app_brings_nothing(lines: Seq<Seq<char>>, c: char)
    requires
        forall|k: int| 0 <= k < lines.len() ==> !(#[trigger] lines[k]).contains(c),
    ensures
        described_app(lines) matches Some(a) ==> !a.name.contains(c) && !a.command.contains(c),
{
    let entry = entry_lines(lines);
    lemma_entry_lines_bring_nothing(lines, c);
    lemma_first_value_brings_nothing(entry, "Name="@, c);
    lemma_first_value_brings_nothing(entry, "Exec="@, c);
    if let (Some(name), Some(value)) = (
        first_value(entry, "Name="@),
        first_value(entry, "Exec="@),
    ) {
        lemma_trimmed_brings_nothing(name, c);
        lemma_trimmed_brings_nothing(value, c);
        lemma_codes_bring_nothing(trimmed(value), c);
        lemma_trimmed_brings_nothing(without_codes(trimmed(value)), c);
    }
}

/// An entry that asks not to be shown, or that is of another type than an
/// application, is never offered.
pub proof fn law_concealed_never_offered(lines: Seq<Seq<char>>)
    requires
        is_concealed(entry_lines(lines)) || is_other_type(entry_lines(lines)),
    ensures
        described_app(lines) is None,
{
}

/// Field codes are read from the left: two percent signs stand for one, a percent
/// sign and a letter for nothing, any other percent sign and any other character
/// for itself.
pub proof fn law_field_codes(c: char, rest: Seq<char>)
    ensures
        without_codes(seq![]) == Seq::<char>::empty(),
        without_codes(seq!['%', '%'] + rest) == seq!['%'] + without_codes(rest),
        'a' <= c <= 'z' || 'A' <= c <= 'Z' ==> without_codes(seq!['%', c] + rest)
            == without_codes(rest),
        c != '%' ==> without_codes(seq![c] + rest) == seq![c] + without_codes(rest),
        c != '%' && !('a' <= c <= 'z') && !('A' <= c <= 'Z') ==> without_codes(
            seq!['%', c] + rest,
        ) == seq!['%', c] + without_codes(rest),
        without_codes(seq!['%']) == seq!['%'],
{
    assert((seq!['%', '%'] + rest).skip(2) =~= rest);
    assert((seq!['%', c] + rest).skip(2) =~= rest);
    assert((seq!['%', c] + rest).skip(1) =~= seq![c] + rest);
    assert((seq![c] + rest).skip(1) =~= rest);
    assert(c != '%' ==> without_codes(seq![c] + rest) == seq![c] + without_codes(rest));
    let s = seq!['%', c] + rest;
    assert(c != '%' && !is_ascii_letter(c) ==> without_codes(s) == seq!['%'] + without_codes(
        s.skip(1),
    ));
    assert(seq!['%'] + (seq![c] + without_codes(rest)) =~= seq!['%', c] + without_codes(rest));
    assert(seq!['%'].skip(1) =~= seq![]);
    assert(seq!['%'] + without_codes(seq![]) =~= seq!['%']);
}

proof fn lemma_extra_line(a: Seq<Seq<char>>, x: Seq<char>, b: Seq<Seq<char>>, key: Seq<char>)
    requires
        !is_header(trimmed(x)),
        !key.is_prefix_of(trimmed(x)),
    ensures
        in_entry_group(a.push(x) + b) == in_entry_group(a + b),
        first_value(entry_lines(a.push(x) + b), key) == first_value(entry_lines(a + b), key),
        last_value(entry_lines(a.push(x) + b), key) == last_value(entry_lines(a + b), key),
    decreases b.len(),
{
    let l = a.push(x) + b;
    let m = a + b;
    if b.len() == 0 {
        assert(l =~= a.push(x));
        assert(m =~= a);
        assert(l.drop_last() =~= a);
        let t = trimmed(x);
        if after_prefix(t, key) is Some {
            assert(t.take(key.len() as int) =~= t.subrange(0, key.len() as int));
        }
        assert(entry_lines(a).push(t).drop_last() =~= entry_lines(a));
    } else {
        let c = b.drop_last();
        lemma_extra_line(a, x, c, key);
        assert(l.drop_last() =~= a.push(x) + c);
        assert(m.drop_last() =~= a + c);
        let t = trimmed(b.last());
        assert(l.last() == b.last());
        assert(m.last() == b.last());
        assert(entry_lines(a.push(x) + c).push(t).drop_last() =~= entry_lines(a.push(x) + c));
        assert(entry_lines(a + c).push(t).drop_last() =~= entry_lines(a + c));
    }
}

/// A line that opens no group and starts with none of the keys that are read
/// changes nothing, wherever it stands: not a comment, not an empty line, not
/// another key, however it is called.
pub proof fn law_other_lines_do_not_matter(
    before: Seq<Seq<char>>,
    line: Seq<char>,
    behind: Seq<Seq<char>>,
)
    requires
        !"["@.is_prefix_of(trimmed(line)),
        !"Name="@.is_prefix_of(trimmed(line)),
        !"Exec="@.is_prefix_of(trimmed(line)),
        !"Type="@.is_prefix_of(trimmed(line)),
        !"NoDisplay="@.is_prefix_of(trimmed(line)),
        !"Hidden="@.is_prefix_of(trimmed(line)),
        !"Terminal="@.is_prefix_of(trimmed(line)),
    ensures
        described_app(before.push(line) + behind) == described_app(before + behind),
{
    reveal_strlit("[");
    if is_header(trimmed(line)) {
        assert("["@ =~= trimmed(line).subrange(0, 1));
    }
    lemma_extra_line(before, line, behind, "Name="@);
    lemma_extra_line(before, line, behind, "Exec="@);
    lemma_extra_line(before, line, behind, "Type="@);
    lemma_extra_line(before, line, behind, "NoDisplay="@);
    lemma_extra_line(before, line, behind, "Hidden="@);
    lemma_extra_line(before, line, behind, "Terminal="@);
}

proof fn lemma_same_trimmed(lines: Seq<Seq<char>>, others: Seq<Seq<char>>)
    requires
        lines.len() == others.len(),
        forall|k: int| 0 <= k < lines.len() ==> trimmed(#[trigger] lines[k]) == trimmed(others[k]),
    ensures
        in_entry_group(lines) == in_entry_group(others),
        entry_lines(lines) == entry_lines(others),
    decreases lines.len(),
{
    if lines.len() > 0 {
        let (a, b) = (lines.drop_last(), others.drop_last());
        assert forall|k: int| 0 <= k < a.len() implies trimmed(#[trigger] a[k]) == trimmed(
            b[k],
        ) by {
            assert(a[k] == lines[k]);
        }
        lemma_same_trimmed(a, b);
        assert(trimmed(lines[lines.len() - 1]) == trimmed(others[lines.len() - 1]));
    }
}

/// White space around lines does not matter.
pub proof fn law_space_around_lines_does_not_matter(
    lines: Seq<Seq<char>>,
    others: Seq<Seq<char>>,
)
    requires
        lines.len() == others.len(),
        forall|k: int| 0 <= k < lines.len() ==> trimmed(#[trigger] lines[k]) == trimmed(others[k]),
    ensures
        described_app(lines) == described_app(others),
{
    lemma_same_trimmed(lines, others);
}

proof fn lemma_other_group(a: Seq<Seq<char>>, h: Seq<char>, g: Seq<Seq<char>>)
    requires
        is_header(trimmed(h)),
        trimmed(h) != "[Desktop Entry]"@,
        forall|k: int| 0 <= k < g.len() ==> !is_header(trimmed(#[trigger] g[k])),
    ensures
        !in_entry_group(a.push(h) + g),
        entry_lines(a.push(h) + g) == entry_lines(a),
    decreases g.len(),
{
    let l = a.push(h) + g;
    if g.len() == 0 {
        assert(l =~= a.push(h));
        assert(l.drop_last() =~= a);
    } else {
        let c = g.drop_last();
        assert(forall|k: int| 0 <= k < c.len() ==> #[trigger] c[k] == g[k]);
        lemma_other_group(a, h, c);
        assert(l.drop_last() =~= a.push(h) + c);
        assert(l.last() == g[g.len() - 1]);
    }
}

proof fn lemma_after_header(a: Seq<Seq<char>>, c: Seq<Seq<char>>, b: Seq<Seq<char>>)
    requires
        entry_lines(a) == entry_lines(c),
        b.len() > 0 ==> is_header(trimmed(b[0])),
    ensures
        entry_lines(a + b) == entry_lines(c + b),
        b.len() > 0 ==> in_entry_group(a + b) == in_entry_group(c + b),
    decreases b.len(),
{
    if b.len() == 0 {
        assert(a + b =~= a);
        assert(c + b =~= c);
    } else {
        let d = b.drop_last();
        assert(d.len() > 0 ==> d[0] == b[0]);
        lemma_after_header(a, c, d);
        assert((a + b).drop_last() =~= a + d);
        assert((c + b).drop_last() =~= c + d);
        assert((a + b).last() == b.last());
        assert((c + b).last() == b.last());
        if d.len() == 0 {
            assert(b.last() == b[0]);
        }
    }
}

/// A group other than `[Desktop Entry]` changes nothing, whatever it holds, and
/// wherever it stands among the groups.
pub proof fn law_other_groups_do_not_matter(
    before: Seq<Seq<char>>,
    header: Seq<char>,
    group: Seq<Seq<char>>,
    behind: Seq<Seq<char>>,
)
    requires
        "["@.is_prefix_of(trimmed(header)),
        trimmed(header) != "[Desktop Entry]"@,
        forall|k: int|
            0 <= k < group.len() ==> !"["@.is_prefix_of(trimmed(#[trigger] group[k])),
        behind.len() > 0 ==> "["@.is_prefix_of(trimmed(behind[0])),
    ensures
        described_app(before.push(header) + group + behind) == described_app(before + behind),
{
    lemma_headers();
    lemma_other_group(before, header, group);
    lemma_after_header(before.push(header) + group, before, behind);
}

proof fn lemma_headers()
    ensures
        forall|t: Seq<char>| #[trigger] is_header(t) == "["@.is_prefix_of(t),
{
    reveal_strlit("[");
    assert forall|t: Seq<char>| #[trigger] is_header(t) == "["@.is_prefix_of(t) by {
        if is_header(t) {
            assert("["@ =~= t.subrange(0, 1));
        }
        if "["@.is_prefix_of(t) {
            assert(t.subrange(0, 1)[0] == "["@[0]);
        }
    }
}

/// The lines of a file whose one group `[Desktop Entry]` is `body`, behind lines
/// that open no such group.
pub open spec fn one_entry(
    before: Seq<Seq<char>>,
    header: Seq<char>,
    body: Seq<Seq<char>>,
) -> bool {
    &&& trimmed(header) == "[Desktop Entry]"@
    &&& forall|k: int|
        0 <= k < before.len() ==> trimmed(#[trigger] before[k]) != "[Desktop Entry]"@
    &&& forall|k: int| 0 <= k < body.len() ==> !"["@.is_prefix_of(trimmed(#[trigger] body[k]))
}

proof fn lemma_no_entry(before: Seq<Seq<char>>)
    requires
        forall|k: int|
            0 <= k < before.len() ==> trimmed(#[trigger] before[k]) != "[Desktop Entry]"@,
    ensures
        !in_entry_group(before),
        entry_lines(before) == Seq::<Seq<char>>::empty(),
    decreases before.len(),
{
    if before.len() > 0 {
        let c = before.drop_last();
        assert(forall|k: int| 0 <= k < c.len() ==> #[trigger] c[k] == before[k]);
        lemma_no_entry(c);
        assert(trimmed(before[before.len() - 1]) != "[Desktop Entry]"@);
    }
}

proof fn lemma_in_body(before: Seq<Seq<char>>, header: Seq<char>, body: Seq<Seq<char>>)
    requires
        one_entry(before, header, body),
    ensures
        in_entry_group(before.push(header) + body),
        body.len() == 0 ==> entry_lines(before.push(header) + body) == Seq::<Seq<char>>::empty(),
    decreases body.len(),
{
    lemma_headers();
    reveal_strlit("[Desktop Entry]");
    let l = before.push(header) + body;
    if body.len() == 0 {
        lemma_no_entry(before);
        assert(l =~= before.push(header));
        assert(l.drop_last() =~= before);
    } else {
        let c = body.drop_last();
        assert(forall|k: int| 0 <= k < c.len() ==> #[trigger] c[k] == body[k]);
        lemma_in_body(before, header, c);
        assert(l.drop_last() =~= before.push(header) + c);
        assert(l.last() == body[body.len() - 1]);
    }
}

proof fn lemma_key_prefix(t: Seq<char>, key: Seq<char>)
    ensures
        key.is_prefix_of(t) <==> after_prefix(t, key) is Some,
        key.is_prefix_of(t) ==> after_prefix(t, key) == Some(t.skip(key.len() as int)),
{
    if key.len() <= t.len() {
        assert(t.take(key.len() as int) =~= t.subrange(0, key.len() as int));
    }
}

/// What the values of a key are, line by line.
proof fn lemma_step(
    before: Seq<Seq<char>>,
    header: Seq<char>,
    body: Seq<Seq<char>>,
    key: Seq<char>,
)
    requires
        one_entry(before, header, body),
        key.len() > 0,
        key[0] != '#',
    ensures
        body.len() == 0 ==> first_value(entry_lines(before.push(header) + body), key) is None
            && last_value(entry_lines(before.push(header) + body), key) is None,
        body.len() > 0 ==> {
            let t = trimmed(body.last());
            let earlier = entry_lines(before.push(header) + body.drop_last());
            let entry = entry_lines(before.push(header) + body);
            &&& one_entry(before, header, body.drop_last())
            &&& first_value(entry, key) == (match first_value(earlier, key) {
                Some(v) => Some(v),
                None => after_prefix(t, key),
            })
            &&& last_value(entry, key) == (match after_prefix(t, key) {
                Some(v) => Some(v),
                None => last_value(earlier, key),
            })
        },
{
    lemma_in_body(before, header, body);
    if body.len() > 0 {
        lemma_headers();
        let c = body.drop_last();
        assert(forall|k: int| 0 <= k < c.len() ==> #[trigger] c[k] == body[k]);
        lemma_in_body(before, header, c);
        let l = before.push(header) + body;
        assert(l.drop_last() =~= before.push(header) + c);
        assert(l.last() == body[body.len() - 1]);
        let t = trimmed(body.last());
        let earlier = entry_lines(before.push(header) + c);
        assert(earlier.push(t).drop_last() =~= earlier);
        if after_prefix(t, key) is Some {
            assert(t.take(key.len() as int)[0] == key[0]);
        }
    }
}

proof fn lemma_no_value(
    before: Seq<Seq<char>>,
    header: Seq<char>,
    body: Seq<Seq<char>>,
    key: Seq<char>,
)
    requires
        one_entry(before, header, body),
        key.len() > 0,
        key[0] != '#',
        forall|k: int| 0 <= k < body.len() ==> !key.is_prefix_of(trimmed(#[trigger] body[k])),
    ensures
        first_value(entry_lines(before.push(header) + body), key) is None,
        last_value(entry_lines(before.push(header) + body), key) is None,
    decreases body.len(),
{
    lemma_step(before, header, body, key);
    if body.len() > 0 {
        let c = body.drop_last();
        assert(forall|k: int| 0 <= k < c.len() ==> #[trigger] c[k] == body[k]);
        lemma_no_value(before, header, c, key);
        lemma_key_prefix(trimmed(body[body.len() - 1]), key);
    }
}

proof fn lemma_first_at(
    before: Seq<Seq<char>>,
    header: Seq<char>,
    body: Seq<Seq<char>>,
    key: Seq<char>,
    n: int,
)
    requires
        one_entry(before, header, body),
        key.len() > 0,
        key[0] != '#',
        0 <= n < body.len(),
        key.is_prefix_of(trimmed(body[n])),
        forall|k: int| 0 <= k < n ==> !key.is_prefix_of(trimmed(#[trigger] body[k])),
    ensures
        first_value(entry_lines(before.push(header) + body), key) == Some(
            trimmed(body[n]).skip(key.len() as int),
        ),
    decreases body.len(),
{
    lemma_step(before, header, body, key);
    let c = body.drop_last();
    assert(forall|k: int| 0 <= k < c.len() ==> #[trigger] c[k] == body[k]);
    lemma_key_prefix(trimmed(body[n]), key);
    if n == body.len() - 1 {
        lemma_no_value(before, header, c, key);
    } else {
        lemma_first_at(before, header, c, key, n);
    }
}

proof fn lemma_last_at(
    before: Seq<Seq<char>>,
    header: Seq<char>,
    body: Seq<Seq<char>>,
    key: Seq<char>,
    n: int,
)
    requires
        one_entry(before, header, body),
        key.len() > 0,
        key[0] != '#',
        0 <= n < body.len(),
        key.is_prefix_of(trimmed(body[n])),
        forall|k: int| n < k < body.len() ==> !key.is_prefix_of(trimmed(#[trigger] body[k])),
    ensures
        last_value(entry_lines(before.push(header) + body), key) == Some(
            trimmed(body[n]).skip(key.len() as int),
        ),
    decreases body.len(),
{
    lemma_step(before, header, body, key);
    let c = body.drop_last();
    assert(forall|k: int| 0 <= k < c.len() ==> #[trigger] c[k] == body[k]);
    lemma_key_prefix(trimmed(body[body.len() - 1]), key);
    if n < body.len() - 1 {
        assert(!key.is_prefix_of(trimmed(body[body.len() - 1])));
        lemma_last_at(before, header, c, key, n);
    }
}

/// What an entry describes: the name is the value of the first `Name=` line, the
/// command that of the first `Exec=` line without field codes, both trimmed, and a
/// terminal is asked for where the last `Terminal=` line says `true` or `1`. It is
/// described where the first `Type=` line, if any, says `Application`, and where
/// no last `NoDisplay=` or `Hidden=` line says `true`.
pub proof fn law_entry_is_read(
    before: Seq<Seq<char>>,
    header: Seq<char>,
    body: Seq<Seq<char>>,
    n: int,
    e: int,
)
    requires
        one_entry(before, header, body),
        0 <= n < body.len(),
        "Name="@.is_prefix_of(trimmed(body[n])),
        forall|k: int| 0 <= k < n ==> !"Name="@.is_prefix_of(trimmed(#[trigger] body[k])),
        trimmed(trimmed(body[n]).skip(5)).len() > 0,
        0 <= e < body.len(),
        "Exec="@.is_prefix_of(trimmed(body[e])),
        forall|k: int| 0 <= k < e ==> !"Exec="@.is_prefix_of(trimmed(#[trigger] body[k])),
        trimmed(without_codes(trimmed(trimmed(body[e]).skip(5)))).len() > 0,
        forall|k: int|
            0 <= k < body.len() && "Type="@.is_prefix_of(trimmed(#[trigger] body[k])) && trimmed(
                body[k],
            ) != "Type=Application"@ ==> exists|j: int|
                0 <= j < k && trimmed(#[trigger] body[j]) == "Type=Application"@,
        forall|k: int|
            0 <= k < body.len() && trimmed(#[trigger] body[k]) == "NoDisplay=true"@ ==> exists|
                j: int,
            |
                k < j < body.len() && "NoDisplay="@.is_prefix_of(trimmed(#[trigger] body[j]))
                    && trimmed(body[j]) != "NoDisplay=true"@,
        forall|k: int|
            0 <= k < body.len() && trimmed(#[trigger] body[k]) == "Hidden=true"@ ==> exists|j: int|
                k < j < body.len() && "Hidden="@.is_prefix_of(trimmed(#[trigger] body[j]))
                    && trimmed(body[j]) != "Hidden=true"@,
    ensures
        described_app(before.push(header) + body) matches Some(a) && a.name == trimmed(
            trimmed(body[n]).skip(5),
        ) && a.command == trimmed(without_codes(trimmed(trimmed(body[e]).skip(5)))) && (a.terminal
            <==> exists|k: int|
            0 <= k < body.len() && (trimmed(#[trigger] body[k]) == "Terminal=true"@ || trimmed(
                body[k],
            ) == "Terminal=1"@) && forall|j: int|
                k < j < body.len() ==> !"Terminal="@.is_prefix_of(trimmed(#[trigger] body[j]))),
{
    let entry = entry_lines(before.push(header) + body);
    reveal_strlit("Name=");
    reveal_strlit("Exec=");
    lemma_first_at(before, header, body, "Name="@, n);
    lemma_first_at(before, header, body, "Exec="@, e);
    lemma_type(before, header, body);
    lemma_flag(before, header, body, "NoDisplay="@, "true"@);
    lemma_flag(before, header, body, "Hidden="@, "true"@);
    lemma_flag(before, header, body, "Terminal="@, "true"@);
    lemma_flag(before, header, body, "Terminal="@, "1"@);
    lemma_flag_texts();
    if last_value(entry, "NoDisplay="@) == Some("true"@) {
        let k = choose|k: int| is_last_flag(body, "NoDisplay="@, "true"@, k);
        assert(trimmed(body[k]) == "NoDisplay=true"@);
    }
    if last_value(entry, "Hidden="@) == Some("true"@) {
        let k = choose|k: int| is_last_flag(body, "Hidden="@, "true"@, k);
        assert(trimmed(body[k]) == "Hidden=true"@);
    }
    if last_value(entry, "Terminal="@) == Some("true"@) {
        let k = choose|k: int| is_last_flag(body, "Terminal="@, "true"@, k);
        assert(trimmed(body[k]) == "Terminal=true"@);
    }
    if last_value(entry, "Terminal="@) == Some("1"@) {
        let k = choose|k: int| is_last_flag(body, "Terminal="@, "1"@, k);
        assert(trimmed(body[k]) == "Terminal=1"@);
    }
    assert forall|k: int|
        0 <= k < body.len() && (trimmed(#[trigger] body[k]) == "Terminal=true"@ || trimmed(body[k])
            == "Terminal=1"@) && (forall|j: int|
            k < j < body.len() ==> !"Terminal="@.is_prefix_of(
                trimmed(#[trigger] body[j]),
            )) implies wants_terminal(entry) by {
        assert(is_last_flag(body, "Terminal="@, "true"@, k) || is_last_flag(
            body,
            "Terminal="@,
            "1"@,
            k,
        ));
    }
}

/// Whether the last line of the key `key` is the `k`th, and gives it `value`.
spec fn is_last_flag(body: Seq<Seq<char>>, key: Seq<char>, value: Seq<char>, k: int) -> bool {
    &&& 0 <= k < body.len()
    &&& trimmed(body[k]) == key + value
    &&& forall|j: int| k < j < body.len() ==> !key.is_prefix_of(trimmed(#[trigger] body[j]))
}

proof fn lemma_flag_texts()
    ensures
        "NoDisplay="@ + "true"@ == "NoDisplay=true"@,
        "Hidden="@ + "true"@ == "Hidden=true"@,
        "Terminal="@ + "true"@ == "Terminal=true"@,
        "Terminal="@ + "1"@ == "Terminal=1"@,
        "Type="@ + "Application"@ == "Type=Application"@,
{
    reveal_strlit("true");
    reveal_strlit("1");
    reveal_strlit("Application");
    reveal_strlit("NoDisplay=");
    reveal_strlit("Hidden=");
    reveal_strlit("Terminal=");
    reveal_strlit("Type=");
    reveal_strlit("NoDisplay=true");
    reveal_strlit("Hidden=true");
    reveal_strlit("Terminal=true");
    reveal_strlit("Terminal=1");
    reveal_strlit("Type=Application");
    assert("NoDisplay="@ + "true"@ =~= "NoDisplay=true"@);
    assert("Hidden="@ + "true"@ =~= "Hidden=true"@);
    assert("Terminal="@ + "true"@ =~= "Terminal=true"@);
    assert("Terminal="@ + "1"@ =~= "Terminal=1"@);
    assert("Type="@ + "Application"@ =~= "Type=Application"@);
}

proof fn lemma_key_value(t: Seq<char>, key: Seq<char>, value: Seq<char>)
    ensures
        t == key + value <==> after_prefix(t, key) == Some(value),
{
    if t == key + value {
        lemma_after_prefix_concat(key, value);
    }
    if after_prefix(t, key) == Some(value) {
        assert(t =~= t.take(key.len() as int) + t.skip(key.len() as int));
    }
}

proof fn lemma_flag(
    before: Seq<Seq<char>>,
    header: Seq<char>,
    body: Seq<Seq<char>>,
    key: Seq<char>,
    value: Seq<char>,
)
    requires
        one_entry(before, header, body),
        key == "NoDisplay="@ || key == "Hidden="@ || key == "Terminal="@,
    ensures
        last_value(entry_lines(before.push(header) + body), key) == Some(value) <==> exists|k: int|
            is_last_flag(body, key, value, k),
    decreases body.len(),
{
    reveal_strlit("NoDisplay=");
    reveal_strlit("Hidden=");
    reveal_strlit("Terminal=");
    lemma_step(before, header, body, key);
    let entry = entry_lines(before.push(header) + body);
    if body.len() > 0 {
        let last = body.len() - 1;
        let c = body.drop_last();
        let t = trimmed(body[last]);
        assert(forall|k: int| 0 <= k < c.len() ==> #[trigger] c[k] == body[k]);
        assert(forall|k: int| 0 <= k < c.len() ==> #[trigger] body[k] == c[k]);
        lemma_flag(before, header, c, key, value);
        lemma_key_prefix(t, key);
        lemma_key_value(t, key, value);
        if last_value(entry, key) == Some(value) {
            if key.is_prefix_of(t) {
                assert(is_last_flag(body, key, value, last));
            } else {
                let k = choose|k: int| is_last_flag(c, key, value, k);
                assert(is_last_flag(c, key, value, k));
                assert(is_last_flag(body, key, value, k));
            }
        }
        if exists|k: int| is_last_flag(body, key, value, k) {
            let k = choose|k: int| is_last_flag(body, key, value, k);
            if k < last {
                assert(!key.is_prefix_of(trimmed(body[last])));
                assert(is_last_flag(c, key, value, k));
            }
        }
    }
}

proof fn lemma_type(before: Seq<Seq<char>>, header: Seq<char>, body: Seq<Seq<char>>)
    requires
        one_entry(before, header, body),
    ensures
        is_other_type(entry_lines(before.push(header) + body)) <==> exists|k: int|
            is_first_other_type(body, k),
    decreases body.len(),
{
    reveal_strlit("Type=");
    let key = "Type="@;
    lemma_step(before, header, body, key);
    lemma_flag_texts();
    let entry = entry_lines(before.push(header) + body);
    if body.len() > 0 {
        let last = body.len() - 1;
        let c = body.drop_last();
        let t = trimmed(body[last]);
        assert(forall|k: int| 0 <= k < c.len() ==> #[trigger] c[k] == body[k]);
        assert(forall|k: int| 0 <= k < c.len() ==> #[trigger] body[k] == c[k]);
        lemma_type(before, header, c);
        lemma_key_prefix(t, key);
        lemma_key_value(t, key, "Application"@);
        if forall|k: int| 0 <= k < c.len() ==> !key.is_prefix_of(trimmed(#[trigger] c[k])) {
            lemma_no_value(before, header, c, key);
            if is_other_type(entry) {
                assert(is_first_other_type(body, last));
            }
        } else {
            lemma_some_value(before, header, c, key);
            if is_other_type(entry) {
                let k = choose|k: int| is_first_other_type(c, k);
                assert(is_first_other_type(c, k));
                assert(is_first_other_type(body, k));
            }
            if exists|k: int| is_first_other_type(body, k) {
                let k = choose|k: int| is_first_other_type(body, k);
                assert(k < last);
                assert(is_first_other_type(c, k));
            }
        }
    }
}

/// Whether the first line of the type is the `k`th, and gives another one than an
/// application.
spec fn is_first_other_type(body: Seq<Seq<char>>, k: int) -> bool {
    &&& 0 <= k < body.len()
    &&& "Type="@.is_prefix_of(trimmed(body[k]))
    &&& trimmed(body[k]) != "Type=Application"@
    &&& forall|j: int| 0 <= j < k ==> !"Type="@.is_prefix_of(trimmed(#[trigger] body[j]))
}

proof fn lemma_some_value(
    before: Seq<Seq<char>>,
    header: Seq<char>,
    body: Seq<Seq<char>>,
    key: Seq<char>,
)
    requires
        one_entry(before, header, body),
        key.len() > 0,
        key[0] != '#',
        !(forall|k: int| 0 <= k < body.len() ==> !key.is_prefix_of(trimmed(#[trigger] body[k]))),
    ensures
        first_value(entry_lines(before.push(header) + body), key) is Some,
    decreases body.len(),
{
    lemma_step(before, header, body, key);
    let c = body.drop_last();
    let k = choose|k: int| 0 <= k < body.len() && key.is_prefix_of(trimmed(#[trigger] body[k]));
    lemma_key_prefix(trimmed(body[k]), key);
    if k < c.len() {
        assert(c[k] == body[k]);
        lemma_some_value(before, header, c, key);
    }
}

/// An entry without a name or without a command describes nothing, and neither
/// does one whose first name or first command is empty.
pub proof fn law_incomplete_entry_is_not_offered(
    before: Seq<Seq<char>>,
    header: Seq<char>,
    body: Seq<Seq<char>>,
)
    requires
        one_entry(before, header, body),
    ensures
        (forall|k: int| 0 <= k < body.len() ==> !"Name="@.is_prefix_of(trimmed(#[trigger] body[k])))
            ==> described_app(before.push(header) + body) is None,
        (forall|k: int| 0 <= k < body.len() ==> !"Exec="@.is_prefix_of(trimmed(#[trigger] body[k])))
            ==> described_app(before.push(header) + body) is None,
        forall|n: int|
            0 <= n < body.len() && "Name="@.is_prefix_of(trimmed(#[trigger] body[n])) && trimmed(
                trimmed(body[n]).skip(5),
            ).len() == 0 && (forall|k: int|
                0 <= k < n ==> !"Name="@.is_prefix_of(trimmed(#[trigger] body[k])))
                ==> described_app(before.push(header) + body) is None,
        forall|e: int|
            0 <= e < body.len() && "Exec="@.is_prefix_of(trimmed(#[trigger] body[e])) && trimmed(
                without_codes(trimmed(trimmed(body[e]).skip(5))),
            ).len() == 0 && (forall|k: int|
                0 <= k < e ==> !"Exec="@.is_prefix_of(trimmed(#[trigger] body[k])))
                ==> described_app(before.push(header) + body) is None,
{
    reveal_strlit("Name=");
    reveal_strlit("Exec=");
    if forall|k: int| 0 <= k < body.len() ==> !"Name="@.is_prefix_of(trimmed(#[trigger] body[k])) {
        lemma_no_value(before, header, body, "Name="@);
    }
    if forall|k: int| 0 <= k < body.len() ==> !"Exec="@.is_prefix_of(trimmed(#[trigger] body[k])) {
        lemma_no_value(before, header, body, "Exec="@);
    }
    assert forall|n: int|
        0 <= n < body.len() && "Name="@.is_prefix_of(trimmed(#[trigger] body[n])) && trimmed(
            trimmed(body[n]).skip(5),
        ).len() == 0 && (forall|k: int|
            0 <= k < n ==> !"Name="@.is_prefix_of(
                trimmed(#[trigger] body[k]),
            )) implies described_app(before.push(header) + body) is None by {
        lemma_first_at(before, header, body, "Name="@, n);
    }
    assert forall|e: int|
        0 <= e < body.len() && "Exec="@.is_prefix_of(trimmed(#[trigger] body[e])) && trimmed(
            without_codes(trimmed(trimmed(body[e]).skip(5))),
        ).len() == 0 && (forall|k: int|
            0 <= k < e ==> !"Exec="@.is_prefix_of(
                trimmed(#[trigger] body[k]),
            )) implies described_app(before.push(header) + body) is None by {
        lemma_first_at(before, header, body, "Exec="@, e);
    }
}

/// An entry whose last `NoDisplay=` or `Hidden=` line says `true`, or whose first
/// `Type=` line says anything but `Application`, describes nothing.
pub proof fn law_unwanted_entry_is_not_offered(
    before: Seq<Seq<char>>,
    header: Seq<char>,
    body: Seq<Seq<char>>,
    k: int,
)
    requires
        one_entry(before, header, body),
        0 <= k < body.len(),
        ({
            ||| trimmed(body[k]) == "NoDisplay=true"@ && forall|j: int|
                k < j < body.len() ==> !"NoDisplay="@.is_prefix_of(trimmed(#[trigger] body[j]))
            ||| trimmed(body[k]) == "Hidden=true"@ && forall|j: int|
                k < j < body.len() ==> !"Hidden="@.is_prefix_of(trimmed(#[trigger] body[j]))
            ||| "Type="@.is_prefix_of(trimmed(body[k])) && trimmed(body[k]) != "Type=Application"@
                && forall|j: int|
                0 <= j < k ==> !"Type="@.is_prefix_of(trimmed(#[trigger] body[j]))
        }),
    ensures
        described_app(before.push(header) + body) is None,
{
    lemma_flag_texts();
    lemma_flag(before, header, body, "NoDisplay="@, "true"@);
    lemma_flag(before, header, body, "Hidden="@, "true"@);
    lemma_type(before, header, body);
    assert(is_last_flag(body, "NoDisplay="@, "true"@, k) || is_last_flag(
        body,
        "Hidden="@,
        "true"@,
        k,
    ) || is_first_other_type(body, k));
}

/// A file without the group `[Desktop Entry]` describes nothing.
pub proof fn law_no_entry_no_application(lines: Seq<Seq<char>>)
    requires
        forall|k: int|
            0 <= k < lines.len() ==> trimmed(#[trigger] lines[k]) != "[Desktop Entry]"@,
    ensures
        described_app(lines) is None,
{
    lemma_no_entry(lines);
}

proof fn lemma_same_so_far(a: Seq<Seq<char>>, c: Seq<Seq<char>>, b: Seq<Seq<char>>)
    requires
        entry_lines(a) == entry_lines(c),
        in_entry_group(a) == in_entry_group(c),
    ensures
        entry_lines(a + b) == entry_lines(c + b),
        in_entry_group(a + b) == in_entry_group(c + b),
    decreases b.len(),
{
    if b.len() == 0 {
        assert(a + b =~= a);
        assert(c + b =~= c);
    } else {
        let d = b.drop_last();
        lemma_same_so_far(a, c, d);
        assert((a + b).drop_last() =~= a + d);
        assert((c + b).drop_last() =~= c + d);
        assert((a + b).last() == b.last());
        assert((c + b).last() == b.last());
    }
}

/// A second header `[Desktop Entry]` goes on with the same entry: inside the group
/// it changes nothing.
pub proof fn law_entry_may_be_taken_up_again(
    before: Seq<Seq<char>>,
    header: Seq<char>,
    body: Seq<Seq<char>>,
    again: Seq<char>,
    behind: Seq<Seq<char>>,
)
    requires
        one_entry(before, header, body),
        trimmed(again) == "[Desktop Entry]"@,
    ensures
        described_app((before.push(header) + body).push(again) + behind) == described_app(
            before.push(header) + body + behind,
        ),
{
    lemma_in_body(before, header, body);
    reveal_strlit("[Desktop Entry]");
    let l = before.push(header) + body;
    assert(l.push(again).drop_last() =~= l);
    lemma_same_so_far(l.push(again), l, behind);
}

}
