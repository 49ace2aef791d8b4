//! The order of texts, and lists kept in that order.
use crate::text::{chars_of, texts};
use vstd::prelude::*;
use vstd::relations::{sorted_by, total_ordering};

verus! {

/// Whether `a` comes before `b`, or is the same, in lexicographic order: texts
/// are ordered by the first character in which they differ, and a text comes
/// before its extensions.
pub open spec fn text_le(a: Seq<char>, b: Seq<char>) -> bool
    decreases a.len(),
{
    if a.len() == 0 {
        true
    } else if b.len() == 0 {
        false
    } else if a[0] != b[0] {
        a[0] < b[0]
    } else {
        text_le(a.skip(1), b.skip(1))
    }
}

/// The order of texts.
pub open spec fn text_order() -> spec_fn(Seq<char>, Seq<char>) -> bool {
    |a: Seq<char>, b: Seq<char>| text_le(a, b)
}

/// `s` in the order of texts.
pub open spec fn in_text_order(s: Seq<Seq<char>>) -> Seq<Seq<char>> {
    s.sort_by(text_order())
}

proof fn lemma_text_le_reflexive(a: Seq<char>)
    ensures
        text_le(a, a),
    decreases a.len(),
{
    if a.len() > 0 {
        lemma_text_le_reflexive(a.skip(1));
    }
}

proof fn lemma_text_le_antisymmetric(a: Seq<char>, b: Seq<char>)
    requires
        text_le(a, b),
        text_le(b, a),
    ensures
        a == b,
    decreases a.len(),
{
    if a.len() > 0 && b.len() > 0 {
        lemma_text_le_antisymmetric(a.skip(1), b.skip(1));
        assert(a =~= seq![a[0]] + a.skip(1));
        assert(b =~= seq![b[0]] + b.skip(1));
    } else {
        assert(a =~= b);
    }
}

proof fn lemma_text_le_transitive(a: Seq<char>, b: Seq<char>, c: Seq<char>)
    requires
        text_le(a, b),
        text_le(b, c),
    ensures
        text_le(a, c),
    decreases a.len(),
{
    if a.len() > 0 && b.len() > 0 && c.len() > 0 && a[0] == b[0] && b[0] == c[0] {
        lemma_text_le_transitive(a.skip(1), b.skip(1), c.skip(1));
    }
}

proof fn lemma_text_le_connected(a: Seq<char>, b: Seq<char>)
    ensures
        text_le(a, b) || text_le(b, a),
    decreases a.len(),
{
    if a.len() > 0 && b.len() > 0 && a[0] == b[0] {
        lemma_text_le_connected(a.skip(1), b.skip(1));
    }
}

/// The order of texts is total.
pub proof fn law_text_order_total()
    ensures
        total_ordering(text_order()),
{
    let r = text_order();
    assert forall|x: Seq<char>| #[trigger] r(x, x) by {
        lemma_text_le_reflexive(x);
    }
    assert forall|x: Seq<char>, y: Seq<char>| #[trigger] r(x, y) && #[trigger] r(y, x) implies x
        == y by {
        lemma_text_le_antisymmetric(x, y);
    }
    assert forall|x: Seq<char>, y: Seq<char>, z: Seq<char>| #[trigger]
        r(x, y) && #[trigger] r(y, z) implies r(x, z) by {
        lemma_text_le_transitive(x, y, z);
    }
    assert forall|x: Seq<char>, y: Seq<char>| #[trigger] r(x, y) || #[trigger] r(y, x) by {
        lemma_text_le_connected(x, y);
    }
}

/// Whether `a` comes before `b` or is the same.
pub fn comes_first(a: &str, b: &str) -> (r: bool)
    ensures
        r == text_le(a@, b@),
{
    let left = chars_of(a);
    let right = chars_of(b);
    let mut i: usize = 0;
    proof {
        assert(a@.skip(0) =~= a@);
        assert(b@.skip(0) =~= b@);
    }
    while i < left.len() && i < right.len()
        invariant
            i <= left.len(),
            i <= right.len(),
            left@ == a@,
            right@ == b@,
            text_le(a@.skip(i as int), b@.skip(i as int)) == text_le(a@, b@),
        decreases left.len() - i,
    {
        proof {
            assert(a@.skip(i as int).skip(1) =~= a@.skip(i + 1));
            assert(b@.skip(i as int).skip(1) =~= b@.skip(i + 1));
        }
        if left[i] != right[i] {
            return left[i] < right[i];
        }
        i = i + 1;
    }
    i == left.len()
}

/// Puts `s` in its place in a list that is in order.
pub fn insert_in_order(list: &mut Vec<String>, s: String)
    requires
        sorted_by(texts(old(list)@), text_order()),
    ensures
        sorted_by(texts(final(list)@), text_order()),
        texts(final(list)@).to_multiset() == texts(old(list)@).to_multiset().insert(s@),
{
    let ghost before = texts(list@);
    let mut i: usize = list.len();
    while i > 0 && !comes_first(list[i - 1].as_str(), s.as_str())
        invariant
            i <= list.len(),
            before == texts(list@),
            sorted_by(before, text_order()),
            forall|k: int| i <= k < list.len() ==> !text_le(#[trigger] before[k], s@),
        decreases i,
    {
        i = i - 1;
    }
    let ghost t = s@;
    list.insert(i, s);
    proof {
        law_text_order_total();
        let after = texts(list@);
        assert(after =~= before.insert(i as int, t));
        vstd::seq_lib::to_multiset_insert(before, i as int, t);
        let r = text_order();
        assert forall|j: int, k: int| 0 <= j < k < after.len() implies #[trigger] r(
            after[j],
            after[k],
        ) by {
            let p = if j < i {
                before[j]
            } else if j == i {
                t
            } else {
                before[j - 1]
            };
            let q = if k < i {
                before[k]
            } else if k == i {
                t
            } else {
                before[k - 1]
            };
            assert(after[j] == p);
            assert(after[k] == q);
            if j < i && k == i {
                assert(r(before[i - 1], t));
                if j < i - 1 {
                    assert(r(before[j], before[i - 1]));
                }
            } else if j == i {
                assert(!text_le(before[k - 1], t));
                assert(r(t, before[k - 1]) || r(before[k - 1], t));
            } else if j < i && k > i {
                assert(r(before[j], before[k - 1]));
            } else if j > i {
                assert(r(before[j - 1], before[k - 1]));
            } else {
                assert(r(before[j], before[k]));
            }
        }
    }
}

/// Two texts are ordered by the first character in which they differ, whatever
/// follows; a text comes before its extensions.
pub proof fn law_first_difference_decides(
    common: Seq<char>,
    x: char,
    s: Seq<char>,
    y: char,
    t: Seq<char>,
)
    ensures
        x != y ==> (text_le(common.push(x) + s, common.push(y) + t) <==> x < y),
        text_le(common, common + s),
        !text_le(common.push(x) + s, common),
    decreases common.len(),
{
    let (a, b) = (common.push(x) + s, common.push(y) + t);
    if common.len() > 0 {
        let rest = common.skip(1);
        law_first_difference_decides(rest, x, s, y, t);
        assert(a.skip(1) =~= rest.push(x) + s);
        assert(b.skip(1) =~= rest.push(y) + t);
        assert((common + s).skip(1) =~= rest + s);
        assert(a[0] == common[0]);
        assert(b[0] == common[0]);
        assert((common + s)[0] == common[0]);
    }
}

}
