//! Whole numbers written in decimal digits.
use crate::text::{string_of, trimmed};
use vstd::prelude::*;

verus! {

// ---- Writing ----------------------------------------------------------------

/// The decimal digit of the value `d`.
pub open spec fn digit_char(d: nat) -> char {
    (48 + d) as char
}

/// `n` in decimal digits, without leading zeros.
pub open spec fn decimal(n: nat) -> Seq<char>
    decreases n,
{
    if n < 10 {
        seq![digit_char(n)]
    } else {
        decimal(n / 10).push(digit_char(n % 10))
    }
}

fn digits(n: u64) -> (r: Vec<char>)
    ensures
        r@ == decimal(n as nat),
    decreases n,
{
    if n < 10 {
        let mut out: Vec<char> = Vec::new();
        out.push((48u8 + n as u8) as char);
        out
    } else {
        let mut out = digits(n / 10);
        out.push((48u8 + (n % 10) as u8) as char);
        out
    }
}

/// Writes `n` in decimal.
pub fn decimal_text(n: u64) -> (r: String)
    ensures
        r@ == decimal(n as nat),
{
    let d = digits(n);
    string_of(d.as_slice())
}

// ---- Reading ----------------------------------------------------------------

/// Whether `c` is a decimal digit.
pub open spec fn is_digit(c: char) -> bool {
    '0' <= c <= '9'
}

/// Whether `s` holds only decimal digits.
pub open spec fn all_digits(s: Seq<char>) -> bool {
    forall|k: int| 0 <= k < s.len() ==> is_digit(#[trigger] s[k])
}

/// The number that the digits of `s` write.
pub open spec fn digits_value(s: Seq<char>) -> int
    decreases s.len(),
{
    if s.len() == 0 {
        0
    } else {
        digits_value(s.drop_last()) * 10 + (s.last() as int - 48)
    }
}

/// The number that `s` writes: digits alone, at most `max`.
pub open spec fn read_digits(s: Seq<char>, max: int) -> Option<int> {
    if s.len() > 0 && all_digits(s) && digits_value(s) <= max {
        Some(digits_value(s))
    } else {
        None
    }
}

/// The unsigned number up to `max` that `s` writes: digits, behind a plus sign
/// or none.
pub open spec fn read_unsigned(s: Seq<char>, max: int) -> Option<int> {
    if s.len() > 0 && s[0] == '+' {
        read_digits(s.skip(1), max)
    } else {
        read_digits(s, max)
    }
}

/// The signed 32-bit number that `s` writes: digits, behind a plus sign, a
/// minus sign or none.
pub open spec fn read_i32(s: Seq<char>) -> Option<int> {
    if s.len() > 0 && s[0] == '-' {
        match read_digits(s.skip(1), 0x8000_0000) {
            Some(v) => Some(-v),
            None => None,
        }
    } else {
        read_unsigned(s, 0x7fff_ffff)
    }
}

proof fn lemma_digits_value_grows(s: Seq<char>, n: int)
    requires
        all_digits(s),
        0 <= n <= s.len(),
    ensures
        0 <= digits_value(s.take(n)) <= digits_value(s),
    decreases s.len(),
{
    if n == s.len() {
        assert(s.take(n) =~= s);
        if n > 0 {
            assert(is_digit(s[n - 1]));
            let t = s.drop_last();
            assert(all_digits(t));
            lemma_digits_value_grows(t, t.len() as int);
            assert(t.take(t.len() as int) =~= t);
        }
    } else {
        let t = s.drop_last();
        assert forall|k: int| 0 <= k < t.len() implies is_digit(#[trigger] t[k]) by {
            assert(t[k] == s[k]);
        }
        lemma_digits_value_grows(t, n);
        assert(t.take(n) =~= s.take(n));
        assert(is_digit(s[s.len() - 1]));
    }
}

fn parse_digits(s: &[char], max: u64) -> (r: Option<u64>)
    requires
        max <= 0xffff_ffff,
    ensures
        match r {
            Some(v) => read_digits(s@, max as int) == Some(v as int),
            None => read_digits(s@, max as int) is None,
        },
{
    if s.len() == 0 {
        return None;
    }
    let mut acc: u64 = 0;
    let mut i: usize = 0;
    while i < s.len()
        invariant
            i <= s.len(),
            max <= 0xffff_ffff,
            acc <= max,
            acc == digits_value(s@.take(i as int)),
            forall|k: int| 0 <= k < i ==> is_digit(#[trigger] s@[k]),
        decreases s.len() - i,
    {
        let c = s[i];
        if !('0' <= c && c <= '9') {
            return None;
        }
        let ghost t = s@.take(i + 1);
        proof {
            assert(t.drop_last() =~= s@.take(i as int));
            assert(t.last() == c);
        }
        acc = acc * 10 + (c as u64 - 48);
        if acc > max {
            proof {
                if all_digits(s@) {
                    lemma_digits_value_grows(s@, i + 1);
                }
            }
            return None;
        }
        i = i + 1;
    }
    proof {
        assert(s@.take(i as int) =~= s@);
    }
    Some(acc)
}

/// Reads an unsigned 32-bit number.
pub fn parse_u32(s: &[char]) -> (r: Option<u32>)
    ensures
        match r {
            Some(v) => read_unsigned(s@, u32::MAX as int) == Some(v as int),
            None => read_unsigned(s@, u32::MAX as int) is None,
        },
{
    let body = if s.len() > 0 && s[0] == '+' {
        let rest = &s[1..s.len()];
        proof {
            assert(rest@ =~= s@.skip(1));
        }
        rest
    } else {
        s
    };
    match parse_digits(body, 0xffff_ffff) {
        Some(v) => Some(v as u32),
        None => None,
    }
}

/// Reads a signed 32-bit number.
pub fn parse_i32(s: &[char]) -> (r: Option<i32>)
    ensures
        match r {
            Some(v) => read_i32(s@) == Some(v as int),
            None => read_i32(s@) is None,
        },
{
    if s.len() > 0 && (s[0] == '-' || s[0] == '+') {
        let rest = &s[1..s.len()];
        proof {
            assert(rest@ =~= s@.skip(1));
        }
        if s[0] == '-' {
            match parse_digits(rest, 0x8000_0000) {
                Some(v) => Some((-(v as i64)) as i32),
                None => None,
            }
        } else {
            match parse_digits(rest, 0x7fff_ffff) {
                Some(v) => Some(v as i32),
                None => None,
            }
        }
    } else {
        match parse_digits(s, 0x7fff_ffff) {
            Some(v) => Some(v as i32),
            None => None,
        }
    }
}

// ---- Laws -------------------------------------------------------------------

/// A number that is read as a signed 32-bit one is one.
pub proof fn lemma_read_i32_range(s: Seq<char>)
    ensures
        read_i32(s) matches Some(v) ==> i32::MIN <= v <= i32::MAX,
{
    if s.len() > 0 && (s[0] == '-' || s[0] == '+') {
        let t = s.skip(1);
        if all_digits(t) {
            lemma_digits_value_grows(t, t.len() as int);
        }
    } else if all_digits(s) {
        lemma_digits_value_grows(s, s.len() as int);
    }
}

/// The decimal form of a number is a run of digits whose value is the number.
pub proof fn lemma_decimal(n: nat)
    ensures
        decimal(n).len() > 0,
        all_digits(decimal(n)),
        digits_value(decimal(n)) == n,
    decreases n,
{
    if n < 10 {
        let s = decimal(n);
        assert(s.drop_last() =~= Seq::<char>::empty());
        assert(digits_value(s.drop_last()) == 0);
    } else {
        lemma_decimal(n / 10);
        let s = decimal(n);
        assert(s.drop_last() =~= decimal(n / 10));
        assert forall|k: int| 0 <= k < s.len() implies is_digit(#[trigger] s[k]) by {
            if k < s.len() - 1 {
                assert(s[k] == decimal(n / 10)[k]);
            }
        }
    }
}

/// A number that is written in decimal is read back as itself.
pub proof fn law_decimal_reads_back(n: nat, max: int)
    requires
        n <= max,
    ensures
        read_unsigned(decimal(n), max) == Some(n as int),
{
    lemma_decimal(n);
    assert(is_digit(decimal(n)[0]));
}

/// Two numbers that are written alike are the same number.
pub proof fn law_decimal_injective(m: nat, n: nat)
    requires
        decimal(m) == decimal(n),
    ensures
        m == n,
{
    lemma_decimal(m);
    lemma_decimal(n);
}

/// The decimal form of a number has no white space for trimming to take off.
pub proof fn lemma_decimal_trimmed(n: nat)
    ensures
        trimmed(decimal(n)) == decimal(n),
{
    lemma_decimal(n);
    let s = decimal(n);
    assert(is_digit(s[0]));
    assert(is_digit(s[s.len() - 1]));
}

/// A number is read if and only if it is not too large, with a plus sign or
/// without; nothing that holds another character than a digit behind its first is
/// a number, and neither is the empty text.
pub proof fn law_numbers_are_read(n: nat, max: int, s: Seq<char>)
    ensures
        n <= max ==> read_unsigned(decimal(n), max) == Some(n as int),
        n <= max ==> read_unsigned(seq!['+'] + decimal(n), max) == Some(n as int),
        n > max ==> read_unsigned(decimal(n), max) is None,
        n > max ==> read_unsigned(seq!['+'] + decimal(n), max) is None,
        s.len() == 0 ==> read_unsigned(s, max) is None,
        (exists|k: int| 0 < k < s.len() && !('0' <= #[trigger] s[k] <= '9')) ==> read_unsigned(
            s,
            max,
        ) is None,
        s.len() > 0 && s[0] != '+' && !('0' <= s[0] <= '9') ==> read_unsigned(s, max) is None,
{
    lemma_decimal(n);
    assert(is_digit(decimal(n)[0]));
    assert((seq!['+'] + decimal(n)).skip(1) =~= decimal(n));
    if exists|k: int| 0 < k < s.len() && !('0' <= #[trigger] s[k] <= '9') {
        let k = choose|k: int| 0 < k < s.len() && !('0' <= #[trigger] s[k] <= '9');
        assert(!is_digit(s[k]));
        assert(s.skip(1)[k - 1] == s[k]);
    }
    if s.len() > 0 && s[0] != '+' && !('0' <= s[0] <= '9') {
        assert(!is_digit(s[0]));
    }
}

/// Signed numbers are read like unsigned ones, within their range; behind a minus
/// sign they are negative.
pub proof fn law_signed_numbers_are_read(n: nat, s: Seq<char>)
    ensures
        n <= 0x7fff_ffff ==> read_i32(decimal(n)) == Some(n as int),
        n > 0x7fff_ffff ==> read_i32(decimal(n)) is None,
        n <= 0x8000_0000 ==> read_i32(seq!['-'] + decimal(n)) == Some(-n),
        n > 0x8000_0000 ==> read_i32(seq!['-'] + decimal(n)) is None,
        s.len() == 0 ==> read_i32(s) is None,
        (exists|k: int| 0 < k < s.len() && !('0' <= #[trigger] s[k] <= '9')) ==> read_i32(
            s,
        ) is None,
        s.len() > 0 && s[0] != '+' && s[0] != '-' && !('0' <= s[0] <= '9') ==> read_i32(s) is None,
{
    law_numbers_are_read(n, 0x7fff_ffff, s);
    lemma_decimal(n);
    assert(is_digit(decimal(n)[0]));
    assert((seq!['-'] + decimal(n)).skip(1) =~= decimal(n));
    if exists|k: int| 0 < k < s.len() && !('0' <= #[trigger] s[k] <= '9') {
        let k = choose|k: int| 0 < k < s.len() && !('0' <= #[trigger] s[k] <= '9');
        assert(!is_digit(s[k]));
        assert(s.skip(1)[k - 1] == s[k]);
    }
}

/// A number is written without leading zeros.
pub proof fn law_decimal_has_no_leading_zero(n: nat)
    ensures
        n > 0 ==> decimal(n)[0] != '0',
        decimal(0) == seq!['0'],
    decreases n,
{
    if n >= 10 {
        law_decimal_has_no_leading_zero(n / 10);
        lemma_decimal(n / 10);
    }
    assert(decimal(0) =~= seq!['0']);
}

/// Leading zeros are read as if they were not there.
pub proof fn law_leading_zeros_are_read(s: Seq<char>, max: int)
    requires
        s.len() > 0,
        s[0] != '+',
        s[0] != '-',
    ensures
        read_unsigned(seq!['0'] + s, max) == read_unsigned(s, max),
        read_i32(seq!['0'] + s) == read_i32(s),
{
    let t = seq!['0'] + s;
    lemma_zero_value(s);
    assert(is_digit(t[0]));
    if all_digits(s) {
        assert forall|k: int| 0 <= k < t.len() implies is_digit(#[trigger] t[k]) by {
            if k > 0 {
                assert(t[k] == s[k - 1]);
            }
        }
    } else {
        let k = choose|k: int| 0 <= k < s.len() && !is_digit(#[trigger] s[k]);
        assert(t[k + 1] == s[k]);
        assert(!all_digits(t));
    }
}

proof fn lemma_zero_value(s: Seq<char>)
    ensures
        digits_value(seq!['0'] + s) == digits_value(s),
    decreases s.len(),
{
    let t = seq!['0'] + s;
    if s.len() == 0 {
        assert(t.drop_last() =~= seq![]);
        assert(digits_value(t.drop_last()) == 0);
    } else {
        lemma_zero_value(s.drop_last());
        assert(t.drop_last() =~= seq!['0'] + s.drop_last());
        assert(t.last() == s.last());
    }
}

}
