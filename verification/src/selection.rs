//! Reading a line of input: without the white space around it, and as the
//! user's choice from a menu.

use vstd::prelude::*;
use vstd::string::*;

verus! {

/// Whether `c` is white space.
pub open spec fn is_space(c: char) -> bool {
    ||| '\u{9}' <= c <= '\u{d}'
    ||| c == ' '
    ||| c == '\u{85}'
    ||| c == '\u{a0}'
    ||| c == '\u{1680}'
    ||| '\u{2000}' <= c <= '\u{200a}'
    ||| c == '\u{2028}'
    ||| c == '\u{2029}'
    ||| c == '\u{202f}'
    ||| c == '\u{205f}'
    ||| c == '\u{3000}'
}

/// Whether `c` is a decimal digit.
pub open spec fn is_digit(c: char) -> bool {
    '0' <= c <= '9'
}

/// The value of the digit `c`.
pub open spec fn digit_of(c: char) -> nat {
    (c as u32 - '0' as u32) as nat
}

/// The first position at or behind `from` that holds no white space.
pub open spec fn skip_spaces(s: Seq<char>, from: int) -> int
    decreases s.len() - from,
{
    if 0 <= from < s.len() && is_space(s[from]) {
        skip_spaces(s, from + 1)
    } else {
        from
    }
}

/// The position behind the last character before `to` that is no white
/// space, looking no further back than `from`.
pub open spec fn drop_spaces(s: Seq<char>, from: int, to: int) -> int
    decreases to - from,
{
    if from < to <= s.len() && is_space(s[to - 1]) {
        drop_spaces(s, from, to - 1)
    } else {
        to
    }
}

/// `s` without the white space at its beginning and at its end.
pub open spec fn trimmed(s: Seq<char>) -> Seq<char> {
    let start = skip_spaces(s, 0);
    s.subrange(start, drop_spaces(s, start, s.len() as int))
}

/// Whether `s` holds decimal digits only.
pub open spec fn all_digits(s: Seq<char>) -> bool {
    forall|i: int| 0 <= i < s.len() ==> is_digit(#[trigger] s[i])
}

/// The number that the digits `s` spell.
pub open spec fn digits_value(s: Seq<char>) -> nat
    decreases s.len(),
{
    if s.len() == 0 {
        0
    } else {
        digits_value(s.drop_last()) * 10 + digit_of(s.last())
    }
}

/// The number that `s` spells: one or more decimal digits, which a plus sign
/// may precede. `None` where `s` is anything else.
pub open spec fn number(s: Seq<char>) -> Option<nat> {
    let digits = if s.len() > 0 && s[0] == '+' {
        s.drop_first()
    } else {
        s
    };
    if digits.len() > 0 && all_digits(digits) {
        Some(digits_value(digits))
    } else {
        None
    }
}

/// The entry that the line `response` picks out of `count` entries, counted
/// from zero: the line, white space at its ends apart, spells a number from
/// 1 to `count`, and the entries are numbered from 1.
pub open spec fn selection(response: Seq<char>, count: nat) -> Option<nat> {
    match number(trimmed(response)) {
        Some(n) => if 1 <= n <= count {
            Some((n - 1) as nat)
        } else {
            None
        },
        None => None,
    }
}

/// Whether `c` is white space.
pub fn is_white_space(c: char) -> (r: bool)
    ensures
        r == is_space(c),
{
    (c >= '\u{9}' && c <= '\u{d}') || c == ' ' || c == '\u{85}' || c == '\u{a0}' || c
        == '\u{1680}' || (c >= '\u{2000}' && c <= '\u{200a}') || c == '\u{2028}' || c
        == '\u{2029}' || c == '\u{202f}' || c == '\u{205f}' || c == '\u{3000}'
}

/// The value of `c` where it is a decimal digit.
pub fn digit_value(c: char) -> (r: Option<u8>)
    ensures
        r is Some <==> is_digit(c),
        r matches Some(v) ==> v == digit_of(c) && v < 10,
{
    if c >= '0' && c <= '9' {
        let v: u32 = c as u32 - '0' as u32;
        Some(v as u8)
    } else {
        None
    }
}

/// More digits never spell a smaller number.
pub proof fn lemma_digits_grow(s: Seq<char>, from: int, mid: int, to: int)
    requires
        0 <= from <= mid <= to <= s.len(),
    ensures
        digits_value(s.subrange(from, mid)) <= digits_value(s.subrange(from, to)),
    decreases to - mid,
{
    if mid < to {
        lemma_digits_grow(s, from, mid, to - 1);
        assert(s.subrange(from, to).drop_last() =~= s.subrange(from, to - 1));
    }
}

/// Where the text without the white space at its ends begins and ends.
fn trim_bounds(text: &str) -> (r: (usize, usize))
    ensures
        r.0 <= r.1 <= text@.len(),
        r.0 == skip_spaces(text@, 0),
        r.1 == drop_spaces(text@, r.0 as int, text@.len() as int),
{
    let ghost s = text@;
    let len = text.unicode_len();
    let mut start: usize = 0;
    while start < len && is_white_space(text.get_char(start))
        invariant
            s == text@,
            len == s.len(),
            start <= len,
            skip_spaces(s, 0) == skip_spaces(s, start as int),
        decreases len - start,
    {
        start = start + 1;
    }
    let mut end: usize = len;
    while start < end && is_white_space(text.get_char(end - 1))
        invariant
            s == text@,
            len == s.len(),
            start <= end <= len,
            drop_spaces(s, start as int, len as int) == drop_spaces(s, start as int, end as int),
        decreases end - start,
    {
        end = end - 1;
    }
    (start, end)
}

/// The text without the white space at its beginning and at its end.
pub fn trim(text: &str) -> (r: &str)
    ensures
        r@ == trimmed(text@),
{
    let (start, end) = trim_bounds(text);
    text.substring_char(start, end)
}

/// Reads the user's choice among `count` entries from a line of input.
/// Returns the index of the entry, counted from zero, or `None` where the
/// line picks none.
pub fn parse_selection(response: &str, count: usize) -> (r: Option<usize>)
    ensures
        r is Some <==> selection(response@, count as nat) is Some,
        r matches Some(index) ==> selection(response@, count as nat) == Some(index as nat),
{
    let ghost s = response@;
    let (start, end) = trim_bounds(response);
    let ghost text = s.subrange(start as int, end as int);
    let mut at: usize = start;
    if at < end && response.get_char(at) == '+' {
        at = at + 1;
    }
    let first = at;
    let ghost digits = s.subrange(first as int, end as int);
    proof {
        if text.len() > 0 && text[0] == '+' {
            assert(digits =~= text.drop_first());
        } else {
            assert(digits =~= text);
        }
    }
    if at >= end {
        return None;
    }
    let mut value: usize = 0;
    while at < end
        invariant
            s == response@,
            first <= at <= end <= s.len(),
            digits == s.subrange(first as int, end as int),
            number(trimmed(s)) == if digits.len() > 0 && all_digits(digits) {
                Some(digits_value(digits))
            } else {
                None
            },
            all_digits(s.subrange(first as int, at as int)),
            value == digits_value(s.subrange(first as int, at as int)),
            value <= count,
        decreases end - at,
    {
        let ghost seen = s.subrange(first as int, at as int);
        let ghost more = s.subrange(first as int, at as int + 1);
        proof {
            assert(more.drop_last() =~= seen);
            assert(more.last() == s[at as int]);
        }
        match digit_value(response.get_char(at)) {
            Some(digit) => {
                let wide: u128 = (value as u128) * 10 + digit as u128;
                if wide > count as u128 {
                    proof {
                        if all_digits(digits) {
                            lemma_digits_grow(s, first as int, at as int + 1, end as int);
                        }
                    }
                    return None;
                }
                value = wide as usize;
                proof {
                    assert forall|i: int| 0 <= i < more.len() implies is_digit(
                        #[trigger] more[i],
                    ) by {
                        if i < seen.len() {
                            assert(more[i] == seen[i]);
                        }
                    }
                }
            },
            None => {
                assert(!is_digit(digits[at - first]));
                return None;
            },
        }
        at = at + 1;
    }
    assert(s.subrange(first as int, at as int) == digits);
    if value >= 1 {
        Some(value - 1)
    } else {
        None
    }
}

} // verus!
