//! Fuzzy matching of names against what the user types.
use vstd::prelude::*;

verus! {

/// The lower-case mapping that Unicode gives a character.
pub uninterp spec fn lowercase_of(c: char) -> Seq<char>;

/// Calls `char::to_lowercase` and collects what it yields. The contract claims
/// that the result depends on the character alone, and says no more of it.
#[verifier::external_body]
fn lowercase(c: char) -> (r: Vec<char>)
    ensures
        r@ == lowercase_of(c),
{
    c.to_lowercase().collect()
}

/// A character as matching sees it: an ASCII letter in lower case, another ASCII
/// character as it is, and any other as the first character of its lower-case
/// mapping, or as it is where that is empty.
pub open spec fn folded(c: char) -> char {
    if 'A' <= c <= 'Z' {
        (c as int + 32) as char
    } else if c <= '\u{7f}' || lowercase_of(c).len() == 0 {
        c
    } else {
        lowercase_of(c)[0]
    }
}

/// A text as matching sees it.
pub open spec fn folded_text(s: Seq<char>) -> Seq<char> {
    s.map_values(|c: char| folded(c))
}

/// Whether `at` places the characters of `p`, in order, on equal ones of `t`.
pub open spec fn places(p: Seq<char>, t: Seq<char>, at: Seq<int>) -> bool {
    &&& at.len() == p.len()
    &&& forall|i: int| 0 <= i < p.len() ==> 0 <= #[trigger] at[i] < t.len() && t[at[i]] == p[i]
    &&& forall|i: int, j: int| 0 <= i < j < p.len() ==> #[trigger] at[i] < #[trigger] at[j]
}

/// Whether the characters of `p` stand in `t` in the same order, with others
/// between them or none.
pub open spec fn is_subsequence(p: Seq<char>, t: Seq<char>) -> bool {
    exists|at: Seq<int>| places(p, t, at)
}

/// Whether a name matches a pattern: the characters of the pattern stand in it
/// in order, whatever their case.
pub open spec fn is_match(pattern: Seq<char>, text: Seq<char>) -> bool {
    is_subsequence(folded_text(pattern), folded_text(text))
}

spec fn greedy(p: Seq<char>, t: Seq<char>) -> bool
    decreases t.len(),
{
    if p.len() == 0 {
        true
    } else if t.len() == 0 {
        false
    } else if p[0] == t[0] {
        greedy(p.skip(1), t.skip(1))
    } else {
        greedy(p, t.skip(1))
    }
}

proof fn lemma_greedy_places(p: Seq<char>, t: Seq<char>) -> (at: Seq<int>)
    requires
        greedy(p, t),
    ensures
        places(p, t, at),
    decreases t.len(),
{
    if p.len() == 0 {
        seq![]
    } else {
        let rest = t.skip(1);
        let q = if p[0] == t[0] {
            p.skip(1)
        } else {
            p
        };
        let sub = lemma_greedy_places(q, rest);
        let moved = sub.map_values(|k: int| k + 1);
        assert(forall|i: int| 0 <= i < sub.len() ==> #[trigger] moved[i] == sub[i] + 1);
        assert(forall|k: int| 0 <= k < rest.len() ==> #[trigger] rest[k] == t[k + 1]);
        if p[0] == t[0] {
            let at = seq![0int] + moved;
            assert forall|i: int| 0 <= i < p.len() implies 0 <= #[trigger] at[i] < t.len()
                && t[at[i]] == p[i] by {
                if i > 0 {
                    assert(at[i] == sub[i - 1] + 1);
                    assert(q[i - 1] == p[i]);
                }
            }
            assert forall|i: int, j: int| 0 <= i < j < p.len() implies #[trigger] at[i]
                < #[trigger] at[j] by {
                assert(at[j] == sub[j - 1] + 1);
                if i > 0 {
                    assert(at[i] == sub[i - 1] + 1);
                }
            }
            at
        } else {
            moved
        }
    }
}

proof fn lemma_places_greedy(p: Seq<char>, t: Seq<char>, at: Seq<int>)
    requires
        places(p, t, at),
    ensures
        greedy(p, t),
    decreases t.len(),
{
    if p.len() > 0 {
        assert(0 <= at[0] < t.len());
        let rest = t.skip(1);
        assert(forall|k: int| 0 <= k < rest.len() ==> #[trigger] rest[k] == t[k + 1]);
        if p[0] == t[0] {
            let q = p.skip(1);
            let sub = at.skip(1).map_values(|k: int| k - 1);
            assert forall|i: int| 0 <= i < q.len() implies 0 <= #[trigger] sub[i] < rest.len()
                && rest[sub[i]] == q[i] by {
                assert(sub[i] == at[i + 1] - 1);
                assert(at[0] < at[i + 1]);
                assert(q[i] == p[i + 1]);
            }
            assert forall|i: int, j: int| 0 <= i < j < q.len() implies #[trigger] sub[i]
                < #[trigger] sub[j] by {
                assert(at[i + 1] < at[j + 1]);
            }
            lemma_places_greedy(q, rest, sub);
        } else {
            let sub = at.map_values(|k: int| k - 1);
            assert forall|i: int| 0 <= i < p.len() implies 0 <= #[trigger] sub[i] < rest.len()
                && rest[sub[i]] == p[i] by {
                assert(sub[i] == at[i] - 1);
                if i > 0 {
                    assert(at[0] < at[i]);
                } else {
                    assert(t[at[0]] == p[0]);
                }
            }
            assert forall|i: int, j: int| 0 <= i < j < p.len() implies #[trigger] sub[i]
                < #[trigger] sub[j] by {
                assert(at[i] < at[j]);
            }
            lemma_places_greedy(p, rest, sub);
        }
    }
}

proof fn lemma_greedy_is_subsequence(p: Seq<char>, t: Seq<char>)
    ensures
        greedy(p, t) == is_subsequence(p, t),
{
    if greedy(p, t) {
        let at = lemma_greedy_places(p, t);
        assert(places(p, t, at));
    }
    if is_subsequence(p, t) {
        lemma_places_greedy(p, t, choose|at: Seq<int>| places(p, t, at));
    }
}

/// The first character of the lower-case mapping `lower` of `c`, or `c` where the
/// mapping is empty.
pub fn first_or(c: char, lower: &[char]) -> (r: char)
    ensures
        r == (if lower@.len() == 0 {
            c
        } else {
            lower@[0]
        }),
{
    if lower.len() == 0 {
        c
    } else {
        lower[0]
    }
}

/// `c` as matching sees it.
pub fn fold(c: char) -> (r: char)
    ensures
        r == folded(c),
{
    if 'A' <= c && c <= 'Z' {
        return (c as u8 + 32) as char;
    }
    if c <= '\u{7f}' {
        return c;
    }
    let lower = lowercase(c);
    first_or(c, lower.as_slice())
}

/// A text as matching sees it.
pub fn fold_text(s: &str) -> (r: Vec<char>)
    ensures
        r@ == folded_text(s@),
{
    let mut out: Vec<char> = Vec::new();
    for c in it: s.chars()
        invariant
            it.seq() == s@,
            out@ == folded_text(s@.take(it.index() as int)),
    {
        out.push(fold(c));
        proof {
            let n = it.index() as int;
            assert(folded_text(s@.take(n + 1)) =~= folded_text(s@.take(n)).push(folded(c)));
        }
    }
    proof {
        assert(s@.take(s@.len() as int) =~= s@);
    }
    out
}

/// Whether the characters of `wanted` stand in `there` in the same order.
pub fn stands_in_order(wanted: &[char], there: &[char]) -> (r: bool)
    ensures
        r == is_subsequence(wanted@, there@),
{
    let mut i: usize = 0;
    let mut j: usize = 0;
    proof {
        assert(wanted@.skip(0) =~= wanted@);
        assert(there@.skip(0) =~= there@);
    }
    while i < there.len() && j < wanted.len()
        invariant
            i <= there.len(),
            j <= wanted.len(),
            greedy(wanted@.skip(j as int), there@.skip(i as int)) == greedy(wanted@, there@),
        decreases there.len() - i,
    {
        proof {
            assert(there@.skip(i as int).skip(1) =~= there@.skip(i + 1));
            assert(wanted@.skip(j as int).skip(1) =~= wanted@.skip(j + 1));
        }
        if wanted[j] == there[i] {
            j = j + 1;
        }
        i = i + 1;
    }
    proof {
        lemma_greedy_is_subsequence(wanted@, there@);
    }
    j == wanted.len()
}

/// Whether `text` matches `pattern`. An empty pattern matches every text.
pub fn fuzzy_matches(pattern: &str, text: &str) -> (r: bool)
    ensures
        r == is_match(pattern@, text@),
{
    let wanted = fold_text(pattern);
    let there = fold_text(text);
    stands_in_order(wanted.as_slice(), there.as_slice())
}

// ---- Laws -------------------------------------------------------------------

/// An empty pattern matches every name.
pub proof fn law_empty_pattern_matches(text: Seq<char>)
    ensures
        is_match(seq![], text),
{
    assert(places(folded_text(seq![]), folded_text(text), seq![]));
}

/// Every name matches itself.
pub proof fn law_name_matches_itself(text: Seq<char>)
    ensures
        is_match(text, text),
{
    let t = folded_text(text);
    assert(places(t, t, Seq::new(t.len(), |i: int| i)));
}

/// Typing more never brings a name back: what matches a pattern also matches
/// each beginning of it.
pub proof fn law_longer_pattern_narrows(pattern: Seq<char>, more: Seq<char>, text: Seq<char>)
    requires
        is_match(pattern + more, text),
    ensures
        is_match(pattern, text),
{
    let p = folded_text(pattern);
    let q = folded_text(pattern + more);
    let t = folded_text(text);
    let at = choose|at: Seq<int>| places(q, t, at);
    let n = p.len() as int;
    let cut = at.take(n);
    assert forall|i: int| 0 <= i < n implies 0 <= #[trigger] cut[i] < t.len() && t[cut[i]]
        == p[i] by {
        assert(cut[i] == at[i]);
        assert(q[i] == p[i]);
    }
    assert forall|i: int, j: int| 0 <= i < j < n implies #[trigger] cut[i] < #[trigger] cut[j] by {
        assert(at[i] < at[j]);
    }
    assert(places(p, t, cut));
}

/// Whether two texts differ at most in the case of ASCII letters.
pub open spec fn same_but_case(a: Seq<char>, b: Seq<char>) -> bool {
    a.len() == b.len() && forall|k: int|
        0 <= k < a.len() ==> #[trigger] a[k] == b[k] || ('A' <= a[k] <= 'Z' && b[k] as int
            == a[k] as int + 32) || ('A' <= b[k] <= 'Z' && a[k] as int == b[k] as int + 32)
}

/// Matching does not depend on the case of ASCII letters, neither in the
/// pattern nor in the name.
pub proof fn law_ascii_case_does_not_matter(
    pattern: Seq<char>,
    other_pattern: Seq<char>,
    text: Seq<char>,
    other_text: Seq<char>,
)
    requires
        same_but_case(pattern, other_pattern),
        same_but_case(text, other_text),
    ensures
        is_match(pattern, text) == is_match(other_pattern, other_text),
{
    assert(folded_text(pattern) =~= folded_text(other_pattern));
    assert(folded_text(text) =~= folded_text(other_text));
}

/// Two patterns that match two texts match, one behind the other, the two texts
/// one behind the other.
pub proof fn law_matches_join(p: Seq<char>, s: Seq<char>, q: Seq<char>, t: Seq<char>)
    requires
        is_match(p, s),
        is_match(q, t),
    ensures
        is_match(p + q, s + t),
{
    let (fp, fs, fq, ft) = (folded_text(p), folded_text(s), folded_text(q), folded_text(t));
    let a = choose|at: Seq<int>| places(fp, fs, at);
    let b = choose|at: Seq<int>| places(fq, ft, at);
    let at = a + b.map_values(|k: int| k + fs.len());
    let (pq, st) = (folded_text(p + q), folded_text(s + t));
    assert(pq =~= fp + fq);
    assert(st =~= fs + ft);
    assert forall|i: int| 0 <= i < pq.len() implies 0 <= #[trigger] at[i] < st.len() && st[at[i]]
        == pq[i] by {
        if i < fp.len() {
            assert(at[i] == a[i]);
        } else {
            assert(at[i] == b[i - fp.len()] + fs.len());
        }
    }
    assert forall|i: int, j: int| 0 <= i < j < pq.len() implies #[trigger] at[i]
        < #[trigger] at[j] by {
        if j < fp.len() {
            assert(a[i] < a[j]);
        } else if i >= fp.len() {
            assert(b[i - fp.len()] < b[j - fp.len()]);
        } else {
            assert(a[i] < fs.len());
            assert(0 <= b[j - fp.len()]);
        }
    }
    assert(places(pq, st, at));
}

/// A pattern of two parts matches a text only if the text can be cut in two, so
/// that each part of the pattern matches its part of the text.
pub proof fn law_matches_split(p: Seq<char>, q: Seq<char>, text: Seq<char>)
    requires
        is_match(p + q, text),
    ensures
        exists|n: int|
            0 <= n <= text.len() && is_match(p, #[trigger] text.take(n)) && is_match(
                q,
                text.skip(n),
            ),
{
    let (fp, fq, t) = (folded_text(p), folded_text(q), folded_text(text));
    let pq = folded_text(p + q);
    assert(pq =~= fp + fq);
    let at = choose|at: Seq<int>| places(pq, t, at);
    let n = if fp.len() == 0 {
        0
    } else {
        at[fp.len() - 1] + 1
    };
    let a = at.take(fp.len() as int);
    let b = at.skip(fp.len() as int).map_values(|k: int| k - n);
    let (head, tail) = (folded_text(text.take(n)), folded_text(text.skip(n)));
    assert(head =~= t.take(n));
    assert(tail =~= t.skip(n));
    assert forall|i: int| 0 <= i < fp.len() implies 0 <= #[trigger] a[i] < head.len() && head[a[i]]
        == fp[i] by {
        assert(a[i] == at[i]);
        assert(pq[i] == fp[i]);
        if i < fp.len() - 1 {
            assert(at[i] < at[fp.len() - 1]);
        }
    }
    assert forall|i: int, j: int| 0 <= i < j < fp.len() implies #[trigger] a[i]
        < #[trigger] a[j] by {
        assert(at[i] < at[j]);
    }
    assert(places(fp, head, a));
    assert forall|i: int| 0 <= i < fq.len() implies 0 <= #[trigger] b[i] < tail.len() && tail[b[i]]
        == fq[i] by {
        assert(b[i] == at[fp.len() + i] - n);
        assert(pq[fp.len() + i] == fq[i]);
        if fp.len() > 0 {
            assert(at[fp.len() - 1] < at[fp.len() + i]);
        }
    }
    assert forall|i: int, j: int| 0 <= i < j < fq.len() implies #[trigger] b[i]
        < #[trigger] b[j] by {
        assert(at[fp.len() + i] < at[fp.len() + j]);
    }
    assert(places(fq, tail, b));
    assert(is_match(p, text.take(n)));
}

/// A single character matches a text if and only if it matches one of the
/// characters of the text, wherever that stands.
pub proof fn law_one_character_matches_anywhere(c: char, text: Seq<char>)
    ensures
        is_match(seq![c], text) <==> exists|k: int|
            0 <= k < text.len() && is_match(seq![c], seq![#[trigger] text[k]]),
{
    let p = folded_text(seq![c]);
    let t = folded_text(text);
    if is_match(seq![c], text) {
        let at = choose|at: Seq<int>| places(p, t, at);
        assert(0 <= at[0] < t.len() && t[at[0]] == p[0]);
        let one = folded_text(seq![text[at[0]]]);
        assert(places(p, one, seq![0int]));
        assert(is_match(seq![c], seq![text[at[0]]]));
    }
    if exists|k: int| 0 <= k < text.len() && is_match(seq![c], seq![#[trigger] text[k]]) {
        let k = choose|k: int| 0 <= k < text.len() && is_match(seq![c], seq![#[trigger] text[k]]);
        let one = folded_text(seq![text[k]]);
        let at = choose|at: Seq<int>| places(p, one, at);
        assert(0 <= at[0] < one.len() && one[at[0]] == p[0]);
        assert(places(p, t, seq![k]));
    }
}

/// Nothing but the empty pattern matches the empty text.
pub proof fn law_nothing_matches_the_empty_text(pattern: Seq<char>)
    ensures
        is_match(pattern, seq![]) <==> pattern.len() == 0,
{
    if pattern.len() == 0 {
        assert(pattern =~= seq![]);
        law_empty_pattern_matches(seq![]);
    } else if is_match(pattern, seq![]) {
        let p = folded_text(pattern);
        let t = folded_text(seq![]);
        let at = choose|at: Seq<int>| places(p, t, at);
        assert(0 <= at[0] < t.len());
    }
}

/// Whatever matches a text also matches every text that has it as a part.
pub proof fn law_longer_text_still_matches(
    pattern: Seq<char>,
    before: Seq<char>,
    text: Seq<char>,
    behind: Seq<char>,
)
    requires
        is_match(pattern, text),
    ensures
        is_match(pattern, before + text + behind),
{
    law_empty_pattern_matches(before);
    law_empty_pattern_matches(behind);
    law_matches_join(seq![], before, pattern, text);
    assert(Seq::<char>::empty() + pattern =~= pattern);
    law_matches_join(pattern, before + text, seq![], behind);
    assert(pattern + Seq::<char>::empty() =~= pattern);
}

/// Any part of a name finds it.
pub proof fn law_part_of_a_name_finds_it(before: Seq<char>, part: Seq<char>, behind: Seq<char>)
    ensures
        is_match(part, before + part + behind),
{
    law_name_matches_itself(part);
    law_longer_text_still_matches(part, before, part, behind);
}

/// Leaving out characters of the pattern, at any place, loses no match.
pub proof fn law_shorter_pattern_still_matches(
    before: Seq<char>,
    middle: Seq<char>,
    behind: Seq<char>,
    text: Seq<char>,
)
    requires
        is_match(before + middle + behind, text),
    ensures
        is_match(before + behind, text),
{
    assert(before + middle + behind =~= before + (middle + behind));
    law_matches_split(before, middle + behind, text);
    let n = choose|n: int|
        0 <= n <= text.len() && is_match(before, #[trigger] text.take(n)) && is_match(
            middle + behind,
            text.skip(n),
        );
    let rest = text.skip(n);
    law_matches_split(middle, behind, rest);
    let m = choose|m: int|
        0 <= m <= rest.len() && is_match(middle, #[trigger] rest.take(m)) && is_match(
            behind,
            rest.skip(m),
        );
    law_longer_text_still_matches(behind, rest.take(m), rest.skip(m), seq![]);
    assert(rest.take(m) + rest.skip(m) + Seq::<char>::empty() =~= rest);
    law_matches_join(before, text.take(n), behind, rest);
    assert(text.take(n) + rest =~= text);
}

/// A pattern is never longer than a name that it matches.
pub proof fn law_match_is_not_longer(pattern: Seq<char>, text: Seq<char>)
    requires
        is_match(pattern, text),
    ensures
        pattern.len() <= text.len(),
    decreases pattern.len(),
{
    if pattern.len() > 0 {
        let head = pattern.drop_last();
        let last = seq![pattern.last()];
        assert(head + last =~= pattern);
        law_matches_split(head, last, text);
        let n = choose|n: int|
            0 <= n <= text.len() && is_match(head, #[trigger] text.take(n)) && is_match(
                last,
                text.skip(n),
            );
        law_match_is_not_longer(head, text.take(n));
        if text.skip(n).len() == 0 {
            assert(text.skip(n) =~= seq![]);
            law_nothing_matches_the_empty_text(last);
        }
    }
}

/// Of ASCII characters each matches itself alone, but for letters, which match
/// themselves in either case. The distance between the cases of a letter is 32.
pub proof fn law_ascii_characters_match(c: char, d: char)
    requires
        c <= '\u{7f}',
        d <= '\u{7f}',
    ensures
        is_match(seq![c], seq![d]) <==> c == d || ('a' <= c <= 'z' && d as int == c as int - 32)
            || ('A' <= c <= 'Z' && d as int == c as int + 32),
{
    lemma_single(c, d);
}

/// Characters outside ASCII match where their lower-case mappings start alike. One
/// without a mapping stands for itself.
pub proof fn law_other_characters_match_by_lower_case(c: char, d: char)
    requires
        c > '\u{7f}',
        d > '\u{7f}',
    ensures
        lowercase_of(c).len() > 0 && lowercase_of(d).len() > 0 ==> (is_match(seq![c], seq![d])
            <==> lowercase_of(c)[0] == lowercase_of(d)[0]),
        lowercase_of(c).len() == 0 && lowercase_of(d).len() == 0 ==> (is_match(seq![c], seq![d])
            <==> c == d),
        lowercase_of(c).len() > 0 && lowercase_of(d).len() == 0 ==> (is_match(seq![c], seq![d])
            <==> lowercase_of(c)[0] == d),
        lowercase_of(c).len() == 0 && lowercase_of(d).len() > 0 ==> (is_match(seq![c], seq![d])
            <==> c == lowercase_of(d)[0]),
{
    lemma_single(c, d);
}

/// An ASCII character matches one outside ASCII, and is matched by it, where the
/// lower-case mapping of the one starts with the lower case of the other.
pub proof fn law_mixed_characters_match_by_lower_case(c: char, d: char)
    requires
        c <= '\u{7f}',
        !('A' <= c <= 'Z'),
        d > '\u{7f}',
        lowercase_of(d).len() > 0,
    ensures
        is_match(seq![c], seq![d]) <==> c == lowercase_of(d)[0],
        is_match(seq![d], seq![c]) <==> c == lowercase_of(d)[0],
{
    lemma_single(c, d);
    lemma_single(d, c);
}

proof fn lemma_single(c: char, d: char)
    ensures
        is_match(seq![c], seq![d]) <==> folded(c) == folded(d),
{
    let p = folded_text(seq![c]);
    let t = folded_text(seq![d]);
    if is_match(seq![c], seq![d]) {
        let at = choose|at: Seq<int>| places(p, t, at);
        assert(0 <= at[0] < t.len() && t[at[0]] == p[0]);
    }
    if folded(c) == folded(d) {
        assert(places(p, t, seq![0int]));
    }
}

}
