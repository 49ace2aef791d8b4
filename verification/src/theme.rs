//! Values of the shell theme that the launcher reads itself.
use crate::numbers::{
    decimal, is_digit, law_signed_numbers_are_read, lemma_decimal, lemma_read_i32_range, parse_i32,
    read_i32,
};
use crate::text::{
    before_suffix, chars_of, is_space, law_trimming_takes_the_margins, trim_chars, trim_end_copies,
    trim_end_text, trimmed, Margin,
};
use vstd::prelude::*;

verus! {

/// The margin above the panel, in pixels, where the theme gives none that can be
/// read.
pub const DEFAULT_TOP_MARGIN_PX: i32 = 120;

/// What a theme says of the margin above the panel.
#[derive(Debug, Clone, Copy, PartialEq, Eq, Structural)]
pub enum TopMargin {
    /// So many pixels.
    Pixels(i32),
    /// A negative number of pixels, which no margin can have.
    Negative(i32),
    /// Nothing that can be read as a number of pixels.
    Unreadable,
}

/// The number of pixels that a value of `top` writes, with or without its unit.
pub open spec fn pixels_in(top: Seq<char>) -> Option<int> {
    read_i32(trim_end_text(trimmed(top), "px"@))
}

/// The margin in pixels for a value of `top`: what it writes, but not less than 0;
/// the default where it writes no number.
pub open spec fn top_margin(top: Seq<char>) -> int {
    match pixels_in(top) {
        Some(px) => if px < 0 {
            0
        } else {
            px
        },
        None => DEFAULT_TOP_MARGIN_PX as int,
    }
}

/// Reads a value of `top`.
pub fn read_top_margin(top: &str) -> (r: TopMargin)
    ensures
        match r {
            TopMargin::Pixels(px) => px >= 0 && pixels_in(top@) == Some(px as int),
            TopMargin::Negative(px) => px < 0 && pixels_in(top@) == Some(px as int),
            TopMargin::Unreadable => pixels_in(top@) is None,
        },
{
    proof {
        reveal_strlit("px");
    }
    let s = chars_of(top);
    let number = trim_end_copies(trim_chars(s.as_slice(), Margin::Space), "px");
    match parse_i32(number) {
        Some(px) => if px < 0 {
            TopMargin::Negative(px)
        } else {
            TopMargin::Pixels(px)
        },
        None => TopMargin::Unreadable,
    }
}

/// Parses a `[launcher] top` value (e.g. `"120px"`) into whole pixels. Falls back
/// to [`DEFAULT_TOP_MARGIN_PX`] for any form that is not a plain number of pixels;
/// a negative number is clamped to 0.
pub fn top_margin_px(top: &str) -> (r: i32)
    ensures
        r == top_margin(top@),
{
    match read_top_margin(top) {
        TopMargin::Pixels(px) => px,
        TopMargin::Negative(_) => 0,
        TopMargin::Unreadable => DEFAULT_TOP_MARGIN_PX,
    }
}

/// A margin is never negative, whatever the theme says, and fits where it is used.
pub proof fn law_margin_is_never_negative(top: Seq<char>)
    ensures
        0 <= top_margin(top) <= i32::MAX,
{
    lemma_read_i32_range(trim_end_text(trimmed(top), "px"@));
}

proof fn lemma_unit(s: Seq<char>) -> (m: int)
    ensures
        0 <= m <= s.len(),
        trim_end_text(s, "px"@) == s.take(m),
        forall|k: int| m <= k < s.len() ==> #[trigger] s[k] == 'p' || s[k] == 'x',
    decreases s.len(),
{
    reveal_strlit("px");
    match before_suffix(s, "px"@) {
        Some(t) => {
            let m = lemma_unit(t);
            let n = t.len() as int;
            assert(t.take(m) =~= s.take(m));
            assert forall|k: int| m <= k < s.len() implies #[trigger] s[k] == 'p' || s[k]
                == 'x' by {
                if k < n {
                    assert(t[k] == s[k]);
                } else {
                    assert(s.skip(n)[k - n] == s[k]);
                    assert("px"@[k - n] == s[k]);
                }
            }
            m
        },
        None => {
            assert(s.take(s.len() as int) =~= s);
            s.len() as int
        },
    }
}

proof fn lemma_unit_of_number(s: Seq<char>)
    requires
        s.len() > 0,
        is_digit(s.last()),
    ensures
        trim_end_text(s, "px"@) == s,
        trim_end_text(s + "px"@, "px"@) == s,
{
    reveal_strlit("px");
    if s.len() >= 2 {
        assert(s.skip(s.len() - 2)[1] == s.last());
    }
    assert(before_suffix(s, "px"@) is None);
    assert(trim_end_text(s, "px"@) == s);
    let t = s + "px"@;
    assert(t.skip(t.len() - 2) =~= "px"@);
    assert(t.take(t.len() - 2) =~= s);
    assert(before_suffix(t, "px"@) == Some(s));
}

/// A number of pixels is the margin, with its unit or without, and with white space
/// around it or none; a negative one gives no margin at all.
pub proof fn law_pixels_are_the_margin(n: nat, before: Seq<char>, behind: Seq<char>)
    requires
        n <= i32::MAX,
        forall|k: int| 0 <= k < before.len() ==> is_space(#[trigger] before[k]),
        forall|k: int| 0 <= k < behind.len() ==> is_space(#[trigger] behind[k]),
    ensures
        top_margin(before + decimal(n) + behind) == n,
        top_margin(before + (decimal(n) + "px"@) + behind) == n,
        top_margin(before + (seq!['-'] + decimal(n)) + behind) == 0,
        top_margin(before + (seq!['-'] + decimal(n) + "px"@) + behind) == 0,
{
    reveal_strlit("px");
    lemma_decimal(n);
    law_signed_numbers_are_read(n, seq![]);
    let d = decimal(n);
    let m = seq!['-'] + d;
    assert(is_digit(d[0]));
    assert(is_digit(d[d.len() - 1]));
    assert(m.last() == d.last());
    lemma_unit_of_number(d);
    lemma_unit_of_number(m);
    law_trimming_takes_the_margins(before, d, behind, Margin::Space);
    law_trimming_takes_the_margins(before, d + "px"@, behind, Margin::Space);
    law_trimming_takes_the_margins(before, m, behind, Margin::Space);
    law_trimming_takes_the_margins(before, m + "px"@, behind, Margin::Space);
}

/// What is no number of pixels gives the default margin: a text with any character
/// that is neither a digit nor a sign nor of the unit, an empty one, and a number
/// that is too large.
pub proof fn law_anything_else_is_the_default(
    text: Seq<char>,
    n: nat,
    before: Seq<char>,
    behind: Seq<char>,
)
    requires
        forall|k: int| 0 <= k < before.len() ==> is_space(#[trigger] before[k]),
        forall|k: int| 0 <= k < behind.len() ==> is_space(#[trigger] behind[k]),
    ensures
        text.len() > 0 && !is_space(text[0]) && !is_space(text.last()) && (exists|k: int|
            0 <= k < text.len() && !('0' <= #[trigger] text[k] <= '9') && text[k] != '+' && text[k]
                != '-' && text[k] != 'p' && text[k] != 'x') ==> top_margin(before + text + behind)
            == 120,
        top_margin(before) == 120,
        n > i32::MAX ==> top_margin(before + decimal(n) + behind) == 120,
        n > i32::MAX ==> top_margin(before + (decimal(n) + "px"@) + behind) == 120,
{
    reveal_strlit("px");
    law_trimming_takes_the_margins(before, seq![], seq![], Margin::Space);
    assert(before + Seq::<char>::empty() + Seq::<char>::empty() =~= before);
    lemma_unit(seq![]);
    law_signed_numbers_are_read(n, seq![]);
    if text.len() > 0 && !is_space(text[0]) && !is_space(text.last()) && (exists|k: int|
        0 <= k < text.len() && !('0' <= #[trigger] text[k] <= '9') && text[k] != '+' && text[k]
            != '-' && text[k] != 'p' && text[k] != 'x') {
        let k = choose|k: int|
            0 <= k < text.len() && !('0' <= #[trigger] text[k] <= '9') && text[k] != '+' && text[k]
                != '-' && text[k] != 'p' && text[k] != 'x';
        law_trimming_takes_the_margins(before, text, behind, Margin::Space);
        let m = lemma_unit(text);
        let t = text.take(m);
        assert(k < m);
        assert(t[k] == text[k]);
        law_signed_numbers_are_read(n, t);
    }
    lemma_decimal(n);
    let d = decimal(n);
    assert(is_digit(d[0]));
    assert(is_digit(d[d.len() - 1]));
    lemma_unit_of_number(d);
    law_trimming_takes_the_margins(before, d, behind, Margin::Space);
    law_trimming_takes_the_margins(before, d + "px"@, behind, Margin::Space);
}

/// The unit may be repeated, and does not matter; a text that does not end in the
/// unit is read as it stands.
pub proof fn law_unit_does_not_matter(text: Seq<char>, before: Seq<char>, behind: Seq<char>)
    requires
        text.len() > 0,
        !is_space(text[0]),
        !is_space(text.last()),
        forall|k: int| 0 <= k < before.len() ==> is_space(#[trigger] before[k]),
        forall|k: int| 0 <= k < behind.len() ==> is_space(#[trigger] behind[k]),
    ensures
        top_margin(before + (text + "px"@) + behind) == top_margin(before + text + behind),
        !"px"@.is_suffix_of(text) ==> top_margin(before + text + behind) == (match read_i32(text) {
            Some(px) => if px < 0 {
                0
            } else {
                px
            },
            None => 120,
        }),
{
    reveal_strlit("px");
    let t = text + "px"@;
    law_trimming_takes_the_margins(before, text, behind, Margin::Space);
    law_trimming_takes_the_margins(before, t, behind, Margin::Space);
    assert(t.skip(t.len() - 2) =~= "px"@);
    assert(t.take(t.len() - 2) =~= text);
    assert(before_suffix(t, "px"@) == Some(text));
    assert(trim_end_text(t, "px"@) == trim_end_text(text, "px"@));
    if !"px"@.is_suffix_of(text) && text.len() >= 2 {
        assert(text.skip(text.len() - 2) =~= text.subrange(text.len() - 2, text.len() as int));
    }
}

}
