//! Text, handled as sequences of characters: slicing, trimming, splitting and
//! comparing, each stated on the characters themselves.
use vstd::prelude::*;

verus! {

/// `String::push` appends one character to the end of the string.
pub assume_specification[ String::push ](s: &mut String, ch: char)
    ensures
        final(s)@ == old(s)@.push(ch),
;

// ---- Views ------------------------------------------------------------------

/// The contents of a list of strings.
pub open spec fn texts(v: Seq<String>) -> Seq<Seq<char>> {
    v.map_values(|s: String| s@)
}

/// The contents of an optional string.
pub open spec fn opt_text(o: Option<String>) -> Option<Seq<char>> {
    match o {
        Some(s) => Some(s@),
        None => None,
    }
}

/// The contents of an optional borrowed string.
pub open spec fn opt_str(o: Option<&str>) -> Option<Seq<char>> {
    match o {
        Some(s) => Some(s@),
        None => None,
    }
}

/// The contents of an optional slice of characters.
pub open spec fn opt_chars(o: Option<&[char]>) -> Option<Seq<char>> {
    match o {
        Some(s) => Some(s@),
        None => None,
    }
}

// ---- Conversions ------------------------------------------------------------

/// The characters of `s`, in order.
pub fn chars_of(s: &str) -> (r: Vec<char>)
    ensures
        r@ == s@,
{
    let mut out: Vec<char> = Vec::new();
    for c in it: s.chars()
        invariant
            it.seq() == s@,
            out@ == s@.take(it.index() as int),
    {
        out.push(c);
    }
    out
}

/// The string made of the characters of `v`.
pub fn string_of(v: &[char]) -> (r: String)
    ensures
        r@ == v@,
{
    let mut out = String::new();
    let mut i: usize = 0;
    while i < v.len()
        invariant
            i <= v.len(),
            out@ == v@.take(i as int),
        decreases v.len() - i,
    {
        out.push(v[i]);
        i = i + 1;
    }
    proof {
        assert(v@.take(i as int) == v@);
    }
    out
}

/// A copy of a run of characters.
pub fn copy_chars(s: &[char]) -> (r: Vec<char>)
    ensures
        r@ == s@,
{
    let mut out: Vec<char> = Vec::new();
    let mut i: usize = 0;
    while i < s.len()
        invariant
            i <= s.len(),
            out@ == s@.take(i as int),
        decreases s.len() - i,
    {
        out.push(s[i]);
        i = i + 1;
    }
    proof {
        assert(s@.take(i as int) =~= s@);
    }
    out
}

/// A copy of a list of strings.
pub fn copy_texts(v: &Vec<String>) -> (r: Vec<String>)
    ensures
        texts(r@) == texts(v@),
{
    let mut out: Vec<String> = Vec::new();
    let mut i: usize = 0;
    while i < v.len()
        invariant
            i <= v.len(),
            out@.len() == i,
            forall|k: int| 0 <= k < i ==> (#[trigger] out@[k])@ == v@[k]@,
        decreases v.len() - i,
    {
        out.push(v[i].clone());
        i = i + 1;
    }
    proof {
        assert(texts(out@) =~= texts(v@));
    }
    out
}

// ---- Equality, prefixes, suffixes -------------------------------------------

/// Whether two runs of characters are the same.
pub fn same_chars(a: &[char], b: &[char]) -> (r: bool)
    ensures
        r == (a@ == b@),
{
    if a.len() != b.len() {
        return false;
    }
    let mut i: usize = 0;
    while i < a.len()
        invariant
            i <= a.len(),
            a.len() == b.len(),
            a@.take(i as int) == b@.take(i as int),
        decreases a.len() - i,
    {
        if a[i] != b[i] {
            return false;
        }
        proof {
            assert(a@.take(i + 1) =~= a@.take(i as int).push(a@[i as int]));
            assert(b@.take(i + 1) =~= b@.take(i as int).push(b@[i as int]));
        }
        i = i + 1;
    }
    proof {
        assert(a@.take(i as int) =~= a@);
        assert(b@.take(i as int) =~= b@);
    }
    true
}

/// Whether two strings hold the same characters.
pub fn same_text(a: &str, b: &str) -> (r: bool)
    ensures
        r == (a@ == b@),
{
    let x = chars_of(a);
    let y = chars_of(b);
    same_chars(x.as_slice(), y.as_slice())
}

/// Whether the characters of `s` are those of `t`.
pub fn is_text(s: &[char], t: &str) -> (r: bool)
    ensures
        r == (s@ == t@),
{
    let t = chars_of(t);
    same_chars(s, t.as_slice())
}

/// What is left of `s` behind the prefix `p`, if `s` starts with `p`.
pub open spec fn after_prefix(s: Seq<char>, p: Seq<char>) -> Option<Seq<char>> {
    if p.len() <= s.len() && s.take(p.len() as int) == p {
        Some(s.skip(p.len() as int))
    } else {
        None
    }
}

/// What is left of `s` before the suffix `p`, if `s` ends with `p`.
pub open spec fn before_suffix(s: Seq<char>, p: Seq<char>) -> Option<Seq<char>> {
    if p.len() <= s.len() && s.skip(s.len() - p.len()) == p {
        Some(s.take(s.len() - p.len()))
    } else {
        None
    }
}

/// Removes the prefix `p` of `s`.
pub fn strip_prefix<'a>(s: &'a [char], p: &str) -> (r: Option<&'a [char]>)
    ensures
        opt_chars(r) == after_prefix(s@, p@),
{
    let p = chars_of(p);
    if p.len() <= s.len() && same_chars(&s[0..p.len()], p.as_slice()) {
        let rest = &s[p.len()..s.len()];
        proof {
            assert(s@.subrange(0, p@.len() as int) =~= s@.take(p@.len() as int));
            assert(rest@ =~= s@.skip(p@.len() as int));
        }
        Some(rest)
    } else {
        proof {
            if p@.len() <= s@.len() {
                assert(s@.subrange(0, p@.len() as int) =~= s@.take(p@.len() as int));
            }
        }
        None
    }
}

/// Removes the suffix `p` of `s`.
pub fn strip_suffix<'a>(s: &'a [char], p: &str) -> (r: Option<&'a [char]>)
    ensures
        opt_chars(r) == before_suffix(s@, p@),
{
    let p = chars_of(p);
    if p.len() <= s.len() && same_chars(&s[s.len() - p.len()..s.len()], p.as_slice()) {
        let rest = &s[0..s.len() - p.len()];
        proof {
            assert(s@.subrange(s@.len() - p@.len(), s@.len() as int) =~= s@.skip(
                s@.len() - p@.len(),
            ));
            assert(rest@ =~= s@.take(s@.len() - p@.len()));
        }
        Some(rest)
    } else {
        proof {
            if p@.len() <= s@.len() {
                assert(s@.subrange(s@.len() - p@.len(), s@.len() as int) =~= s@.skip(
                    s@.len() - p@.len(),
                ));
            }
        }
        None
    }
}

/// Joining a prefix with what follows it, and taking it off again, gives back
/// what followed.
pub proof fn lemma_after_prefix_concat(p: Seq<char>, rest: Seq<char>)
    ensures
        after_prefix(p + rest, p) == Some(rest),
{
    assert((p + rest).take(p.len() as int) =~= p);
    assert((p + rest).skip(p.len() as int) =~= rest);
}

// ---- Trimming ---------------------------------------------------------------

/// The characters that Unicode gives the property White_Space.
pub open spec fn is_space(c: char) -> bool {
    ||| '\u{9}' <= c <= '\u{d}'
    ||| c == ' '
    ||| c == '\u{85}'
    ||| c == '\u{a0}'
    ||| c == '\u{1680}'
    ||| '\u{2000}' <= c <= '\u{200a}'
    ||| c == '\u{2028}'
    ||| c == '\u{2029}'
    ||| c == '\u{202f}'
    ||| c == '\u{205f}'
    ||| c == '\u{3000}'
}

/// Whether `c` is white space.
pub fn space(c: char) -> (r: bool)
    ensures
        r == is_space(c),
{
    ('\u{9}' <= c && c <= '\u{d}') || c == ' ' || c == '\u{85}' || c == '\u{a0}' || c
        == '\u{1680}' || ('\u{2000}' <= c && c <= '\u{200a}') || c == '\u{2028}' || c
        == '\u{2029}' || c == '\u{202f}' || c == '\u{205f}' || c == '\u{3000}'
}

/// What trimming takes off the ends of a text.
#[derive(Clone, Copy)]
pub enum Margin {
    /// White space.
    Space,
    /// One given character.
    Only(char),
}

/// Whether trimming `m` takes off the character `c`.
pub open spec fn in_margin(m: Margin, c: char) -> bool {
    match m {
        Margin::Space => is_space(c),
        Margin::Only(d) => c == d,
    }
}

/// `s` without the margin at its start.
pub open spec fn trim_start(s: Seq<char>, m: Margin) -> Seq<char>
    decreases s.len(),
{
    if s.len() > 0 && in_margin(m, s[0]) {
        trim_start(s.skip(1), m)
    } else {
        s
    }
}

/// `s` without the margin at its end.
pub open spec fn trim_end(s: Seq<char>, m: Margin) -> Seq<char>
    decreases s.len(),
{
    if s.len() > 0 && in_margin(m, s.last()) {
        trim_end(s.drop_last(), m)
    } else {
        s
    }
}

/// `s` without the margins at its ends.
pub open spec fn trim_both(s: Seq<char>, m: Margin) -> Seq<char> {
    trim_end(trim_start(s, m), m)
}

/// `s` without the white space at its ends.
pub open spec fn trimmed(s: Seq<char>) -> Seq<char> {
    trim_both(s, Margin::Space)
}

proof fn lemma_trim_start_at(s: Seq<char>, m: Margin, n: int)
    requires
        0 <= n <= s.len(),
        forall|k: int| 0 <= k < n ==> in_margin(m, #[trigger] s[k]),
        n < s.len() ==> !in_margin(m, s[n]),
    ensures
        trim_start(s, m) == s.skip(n),
    decreases n,
{
    if n == 0 {
        assert(s.skip(0) =~= s);
    } else {
        let t = s.skip(1);
        assert forall|k: int| 0 <= k < n - 1 implies in_margin(m, #[trigger] t[k]) by {
            assert(t[k] == s[k + 1]);
        }
        lemma_trim_start_at(t, m, n - 1);
        assert(t.skip(n - 1) =~= s.skip(n));
        assert(in_margin(m, s[0]));
    }
}

proof fn lemma_trim_end_at(s: Seq<char>, m: Margin, n: int)
    requires
        0 <= n <= s.len(),
        forall|k: int| n <= k < s.len() ==> in_margin(m, #[trigger] s[k]),
        n > 0 ==> !in_margin(m, s[n - 1]),
    ensures
        trim_end(s, m) == s.take(n),
    decreases s.len() - n,
{
    if n == s.len() {
        assert(s.take(n) =~= s);
    } else {
        let t = s.drop_last();
        assert(in_margin(m, s[s.len() - 1]));
        lemma_trim_end_at(t, m, n);
        assert(t.take(n) =~= s.take(n));
    }
}

/// Trimming gives a stretch of the text that neither starts nor ends in the
/// margin.
pub proof fn lemma_trim_both(s: Seq<char>, m: Margin) -> (r: (int, int))
    ensures
        0 <= r.0 <= r.1 <= s.len(),
        trim_both(s, m) == s.subrange(r.0, r.1),
        trim_both(s, m).len() > 0 ==> !in_margin(m, trim_both(s, m)[0]) && !in_margin(
            m,
            trim_both(s, m).last(),
        ),
{
    let a = lemma_trim_start_len(s, m);
    let t = s.skip(a);
    let b = lemma_trim_end_len(t, m);
    assert(t.take(b) =~= s.subrange(a, a + b));
    (a, a + b)
}

proof fn lemma_trim_start_len(s: Seq<char>, m: Margin) -> (n: int)
    ensures
        0 <= n <= s.len(),
        trim_start(s, m) == s.skip(n),
        n < s.len() ==> !in_margin(m, s[n]),
    decreases s.len(),
{
    if s.len() > 0 && in_margin(m, s[0]) {
        let n = lemma_trim_start_len(s.skip(1), m);
        assert(s.skip(1).skip(n) =~= s.skip(n + 1));
        n + 1
    } else {
        assert(s.skip(0) =~= s);
        0
    }
}

proof fn lemma_trim_end_len(s: Seq<char>, m: Margin) -> (n: int)
    ensures
        0 <= n <= s.len(),
        trim_end(s, m) == s.take(n),
        n > 0 ==> !in_margin(m, s[n - 1]),
    decreases s.len(),
{
    if s.len() > 0 && in_margin(m, s.last()) {
        let n = lemma_trim_end_len(s.drop_last(), m);
        assert(s.drop_last().take(n) =~= s.take(n));
        n
    } else {
        assert(s.take(s.len() as int) =~= s);
        s.len() as int
    }
}

fn margin_has(m: Margin, c: char) -> (r: bool)
    ensures
        r == in_margin(m, c),
{
    match m {
        Margin::Space => space(c),
        Margin::Only(d) => c == d,
    }
}

/// Takes the margins off the ends of `s`.
pub fn trim_chars(s: &[char], m: Margin) -> (r: &[char])
    ensures
        r@ == trim_both(s@, m),
{
    let mut a: usize = 0;
    while a < s.len() && margin_has(m, s[a])
        invariant
            a <= s.len(),
            forall|k: int| 0 <= k < a ==> in_margin(m, #[trigger] s@[k]),
        decreases s.len() - a,
    {
        a = a + 1;
    }
    let mut b: usize = s.len();
    while b > a && margin_has(m, s[b - 1])
        invariant
            a <= b <= s.len(),
            forall|k: int| b <= k < s.len() ==> in_margin(m, #[trigger] s@[k]),
        decreases b,
    {
        b = b - 1;
    }
    let r = &s[a..b];
    proof {
        lemma_trim_start_at(s@, m, a as int);
        let t = s@.skip(a as int);
        assert forall|k: int| b - a <= k < t.len() implies in_margin(m, #[trigger] t[k]) by {
            assert(t[k] == s@[k + a]);
        }
        assert(b > a ==> t[b - a - 1] == s@[b - 1]);
        lemma_trim_end_at(t, m, b - a);
        assert(t.take(b - a) =~= r@);
    }
    r
}

/// `s` with every copy of `p` at its end taken off.
pub open spec fn trim_end_text(s: Seq<char>, p: Seq<char>) -> Seq<char>
    decreases s.len(),
{
    match before_suffix(s, p) {
        Some(t) => if p.len() > 0 {
            trim_end_text(t, p)
        } else {
            s
        },
        None => s,
    }
}

/// Takes every copy of `p` off the end of `s`.
pub fn trim_end_copies<'a>(s: &'a [char], p: &str) -> (r: &'a [char])
    requires
        p@.len() > 0,
    ensures
        r@ == trim_end_text(s@, p@),
{
    let mut cur = s;
    loop
        invariant
            p@.len() > 0,
            trim_end_text(cur@, p@) == trim_end_text(s@, p@),
        decreases cur@.len(),
    {
        match strip_suffix(cur, p) {
            Some(t) => {
                cur = t;
            },
            None => {
                return cur;
            },
        }
    }
}

// ---- Splitting --------------------------------------------------------------

/// Where `c` first stands in `s`; the length of `s` where it does not.
pub open spec fn find_char(s: Seq<char>, c: char) -> int
    decreases s.len(),
{
    if s.len() == 0 || s[0] == c {
        0
    } else {
        1 + find_char(s.skip(1), c)
    }
}

/// What `find_char` says of the characters of `s`.
pub proof fn lemma_find_char(s: Seq<char>, c: char)
    ensures
        0 <= find_char(s, c) <= s.len(),
        forall|k: int| 0 <= k < find_char(s, c) ==> #[trigger] s[k] != c,
        find_char(s, c) < s.len() ==> s[find_char(s, c)] == c,
    decreases s.len(),
{
    if s.len() > 0 && s[0] != c {
        let t = s.skip(1);
        lemma_find_char(t, c);
        assert forall|k: int| 0 <= k < find_char(s, c) implies #[trigger] s[k] != c by {
            if k > 0 {
                assert(s[k] == t[k - 1]);
            }
        }
    }
}

/// The first place of `c` in `s` is the only one with no `c` before it.
pub proof fn lemma_find_char_is(s: Seq<char>, c: char, n: int)
    requires
        0 <= n <= s.len(),
        forall|k: int| 0 <= k < n ==> #[trigger] s[k] != c,
        n < s.len() ==> s[n] == c,
    ensures
        find_char(s, c) == n,
{
    lemma_find_char(s, c);
    if find_char(s, c) < n {
        assert(s[find_char(s, c)] != c);
    }
    if n < find_char(s, c) {
        assert(s[n] != c);
    }
}

/// Where `c` first stands in `s`; the length of `s` where it does not.
pub fn position(s: &[char], c: char) -> (r: usize)
    ensures
        r == find_char(s@, c),
        r <= s@.len(),
{
    let mut i: usize = 0;
    while i < s.len()
        invariant
            i <= s.len(),
            forall|k: int| 0 <= k < i ==> #[trigger] s@[k] != c,
        decreases s.len() - i,
    {
        if s[i] == c {
            proof {
                lemma_find_char_is(s@, c, i as int);
            }
            return i;
        }
        i = i + 1;
    }
    proof {
        lemma_find_char_is(s@, c, i as int);
    }
    i
}

/// The stretches of `s` between the places where `sep` stands.
pub open spec fn split_at_char(s: Seq<char>, sep: char) -> Seq<Seq<char>>
    decreases s.len(),
{
    let i = find_char(s, sep);
    if 0 <= i < s.len() {
        seq![s.take(i)] + split_at_char(s.skip(i + 1), sep)
    } else {
        seq![s]
    }
}

/// Splits `s` at every `sep`.
pub fn split_chars(s: &[char], sep: char) -> (r: Vec<String>)
    ensures
        texts(r@) == split_at_char(s@, sep),
        r@.len() >= 1,
{
    let mut out: Vec<String> = Vec::new();
    let mut rest = s;
    proof {
        assert(texts(out@) + split_at_char(s@, sep) =~= split_at_char(s@, sep));
    }
    loop
        invariant
            texts(out@) + split_at_char(rest@, sep) == split_at_char(s@, sep),
        decreases rest@.len(),
    {
        let i: usize = position(rest, sep);
        let head = &rest[0..i];
        let ghost before = out@;
        out.push(string_of(head));
        proof {
            assert(head@ =~= rest@.take(i as int));
            assert(texts(out@) =~= texts(before).push(head@));
        }
        if i < rest.len() {
            let tail = &rest[i + 1..rest.len()];
            proof {
                assert(tail@ =~= rest@.skip(i + 1));
                assert(texts(before).push(head@) + split_at_char(tail@, sep) =~= texts(before) + (
                seq![head@] + split_at_char(tail@, sep)));
            }
            rest = tail;
        } else {
            proof {
                assert(head@ =~= rest@);
                assert(texts(before).push(head@) =~= texts(before) + seq![head@]);
            }
            return out;
        }
    }
}

/// `s` without a carriage return at its end.
pub open spec fn drop_return(s: Seq<char>) -> Seq<char> {
    if s.len() > 0 && s.last() == '\r' {
        s.drop_last()
    } else {
        s
    }
}

/// The lines of a text: each ends in a line feed, which may follow a carriage
/// return; the last may lack its end.
pub open spec fn lines_of(s: Seq<char>) -> Seq<Seq<char>>
    decreases s.len(),
{
    let i = find_char(s, '\n');
    if s.len() == 0 {
        seq![]
    } else if 0 <= i < s.len() {
        seq![drop_return(s.take(i))] + lines_of(s.skip(i + 1))
    } else {
        seq![s]
    }
}

/// Splits a text into its lines.
pub fn split_lines(s: &[char]) -> (r: Vec<String>)
    ensures
        texts(r@) == lines_of(s@),
{
    let mut out: Vec<String> = Vec::new();
    let mut rest = s;
    proof {
        assert(texts(out@) + lines_of(s@) =~= lines_of(s@));
    }
    while rest.len() > 0
        invariant
            texts(out@) + lines_of(rest@) == lines_of(s@),
        decreases rest@.len(),
    {
        let i: usize = position(rest, '\n');
        let ghost before = out@;
        if i < rest.len() {
            let mut end: usize = i;
            if i > 0 && rest[i - 1] == '\r' {
                end = i - 1;
            }
            let head = &rest[0..end];
            out.push(string_of(head));
            let tail = &rest[i + 1..rest.len()];
            proof {
                assert(rest@.take(i as int).len() == i);
                assert(head@ =~= drop_return(rest@.take(i as int)));
                assert(tail@ =~= rest@.skip(i + 1));
                assert(texts(out@) =~= texts(before).push(head@));
                assert(texts(before).push(head@) + lines_of(tail@) =~= texts(before) + (seq![head@]
                    + lines_of(tail@)));
            }
            rest = tail;
        } else {
            out.push(string_of(rest));
            let tail = &rest[i..rest.len()];
            proof {
                assert(tail@ =~= Seq::<char>::empty());
                assert(texts(out@) =~= texts(before).push(rest@));
                assert(texts(before).push(rest@) + lines_of(tail@) =~= texts(before) + seq![rest@]);
            }
            rest = tail;
        }
    }
    proof {
        assert(texts(out@) + lines_of(rest@) =~= texts(out@));
    }
    out
}

// ---- Laws -------------------------------------------------------------------

/// Trimming takes off exactly the margins: what stands between two runs of the
/// margin, and neither starts nor ends in it, is what is left.
pub proof fn law_trimming_takes_the_margins(
    before: Seq<char>,
    core: Seq<char>,
    behind: Seq<char>,
    m: Margin,
)
    requires
        forall|k: int| 0 <= k < before.len() ==> in_margin(m, #[trigger] before[k]),
        forall|k: int| 0 <= k < behind.len() ==> in_margin(m, #[trigger] behind[k]),
        core.len() > 0 ==> !in_margin(m, core[0]) && !in_margin(m, core.last()),
    ensures
        trim_both(before + core + behind, m) == core,
{
    let s = before + core + behind;
    if core.len() == 0 {
        assert forall|k: int| 0 <= k < s.len() implies in_margin(m, #[trigger] s[k]) by {
            if k < before.len() {
                assert(s[k] == before[k]);
            } else {
                assert(s[k] == behind[k - before.len()]);
            }
        }
        lemma_trim_start_at(s, m, s.len() as int);
        assert(s.skip(s.len() as int) =~= seq![]);
        assert(core =~= seq![]);
    } else {
        let n = before.len() as int;
        assert forall|k: int| 0 <= k < n implies in_margin(m, #[trigger] s[k]) by {
            assert(s[k] == before[k]);
        }
        assert(s[n] == core[0]);
        lemma_trim_start_at(s, m, n);
        let t = s.skip(n);
        assert forall|k: int| core.len() <= k < t.len() implies in_margin(m, #[trigger] t[k]) by {
            assert(t[k] == behind[k - core.len()]);
        }
        assert(t[core.len() - 1] == core.last());
        lemma_trim_end_at(t, m, core.len() as int);
        assert(t.take(core.len() as int) =~= core);
    }
}

/// Trimming twice is trimming once.
pub proof fn law_trimming_is_idempotent(s: Seq<char>, m: Margin)
    ensures
        trim_both(trim_both(s, m), m) == trim_both(s, m),
{
    lemma_trim_both(s, m);
    let t = trim_both(s, m);
    law_trimming_takes_the_margins(seq![], t, seq![], m);
    assert(Seq::<char>::empty() + t + Seq::<char>::empty() =~= t);
}

/// A text is split where the separator stands, and nowhere else.
pub proof fn law_splitting_cuts_at_the_separator(head: Seq<char>, rest: Seq<char>, sep: char)
    requires
        !head.contains(sep),
    ensures
        split_at_char(head, sep) == seq![head],
        split_at_char(head.push(sep) + rest, sep) == seq![head] + split_at_char(rest, sep),
{
    assert forall|k: int| 0 <= k < head.len() implies #[trigger] head[k] != sep by {
        assert(head.contains(head[k]));
    }
    lemma_find_char_is(head, sep, head.len() as int);
    let s = head.push(sep) + rest;
    let n = head.len() as int;
    assert forall|k: int| 0 <= k < n implies #[trigger] s[k] != sep by {
        assert(s[k] == head[k]);
    }
    assert(s[n] == sep);
    lemma_find_char_is(s, sep, n);
    assert(s.take(n) =~= head);
    assert(s.skip(n + 1) =~= rest);
}

/// A line feed ends a line, and takes a carriage return before it along. What
/// follows is read as if it stood alone.
pub proof fn law_lines_end_at_line_feeds(line: Seq<char>, rest: Seq<char>)
    requires
        !line.contains('\n'),
        line.len() > 0 ==> line.last() != '\r',
    ensures
        lines_of(line.push('\n') + rest) == seq![line] + lines_of(rest),
        lines_of(line.push('\r').push('\n') + rest) == seq![line] + lines_of(rest),
        line.len() > 0 ==> lines_of(line) == seq![line],
        lines_of(seq![]) == Seq::<Seq<char>>::empty(),
{
    assert forall|k: int| 0 <= k < line.len() implies #[trigger] line[k] != '\n' by {
        assert(line.contains(line[k]));
    }
    lemma_find_char_is(line, '\n', line.len() as int);
    let n = line.len() as int;
    let s = line.push('\n') + rest;
    assert(forall|k: int| 0 <= k < n ==> #[trigger] s[k] == line[k]);
    assert(s[n] == '\n');
    lemma_find_char_is(s, '\n', n);
    assert(s.take(n) =~= line);
    assert(s.skip(n + 1) =~= rest);
    let r = line.push('\r').push('\n') + rest;
    assert(forall|k: int| 0 <= k < n ==> #[trigger] r[k] == line[k]);
    assert(r[n] == '\r');
    assert(r[n + 1] == '\n');
    lemma_find_char_is(r, '\n', n + 1);
    assert(r.take(n + 1) =~= line.push('\r'));
    assert(line.push('\r').drop_last() =~= line);
    assert(r.skip(n + 2) =~= rest);
}

/// A list of strings has the same length and order as the list of their contents.
pub proof fn law_texts_one_by_one(v: Seq<String>, s: String)
    ensures
        texts(v).len() == v.len(),
        forall|k: int| 0 <= k < v.len() ==> #[trigger] texts(v)[k] == v[k]@,
        opt_text(Some(s)) == Some(s@),
        opt_text(None) is None,
{
}

/// A prefix is taken off where it stands in front, and a suffix where it stands at
/// the end, and nowhere else.
pub proof fn law_prefix_and_suffix(p: Seq<char>, s: Seq<char>)
    ensures
        after_prefix(p + s, p) == Some(s),
        before_suffix(s + p, p) == Some(s),
        !p.is_prefix_of(s) ==> after_prefix(s, p) is None,
        !p.is_suffix_of(s) ==> before_suffix(s, p) is None,
{
    lemma_after_prefix_concat(p, s);
    assert((s + p).skip(s.len() as int) =~= p);
    assert((s + p).take(s.len() as int) =~= s);
    if p.len() <= s.len() {
        assert(s.take(p.len() as int) =~= s.subrange(0, p.len() as int));
        assert(s.skip(s.len() - p.len()) =~= s.subrange(s.len() - p.len(), s.len() as int));
    }
}

/// A text that is there counts, though it be empty.
pub proof fn law_empty_texts_count(s: &str, v: &[char])
    ensures
        opt_str(Some(s)) == Some(s@),
        opt_str(None) is None,
        opt_chars(Some(v)) == Some(v@),
        opt_chars(None) is None,
{
}

/// What trimming takes off: white space, which of ASCII is the blank and the
/// characters from the tab to the carriage return; or one given character and no
/// other.
pub proof fn law_margins(c: char, d: char)
    ensures
        in_margin(Margin::Only(d), c) <==> c == d,
        in_margin(Margin::Space, c) <==> is_space(c),
        c <= '\u{7f}' ==> (is_space(c) <==> c == ' ' || '\t' <= c <= '\r'),
{
}

}
