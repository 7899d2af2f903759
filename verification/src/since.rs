//! Durations such as `90s`, `30m`, `2h` or `1d`.

use vstd::prelude::*;

use crate::text;

verus! {

/// The seconds of a unit of time.
pub open spec fn unit_secs(unit: char) -> Option<i64> {
    if unit == 's' {
        Some(1)
    } else if unit == 'm' {
        Some(60)
    } else if unit == 'h' {
        Some(3600)
    } else if unit == 'd' {
        Some(86_400)
    } else {
        None
    }
}

/// The count that a text stands for: digits, perhaps behind a sign, that make
/// a number from zero to the largest `i64`.
pub open spec fn count_of(s: Seq<char>) -> Option<i64> {
    let signed = s.len() > 0 && (s[0] == '+' || s[0] == '-');
    let digits = if signed {
        s.drop_first()
    } else {
        s
    };
    let n = text::digits_value(digits);
    if !text::is_number(digits) || n > i64::MAX || (s[0] == '-' && n != 0) {
        None
    } else {
        Some(n as i64)
    }
}

/// A duration taken apart: a count, and the seconds of the unit behind it. A
/// count without a unit is one of seconds; white space at the ends and before
/// the unit does not matter.
pub open spec fn duration_of(s: Seq<char>) -> Option<(i64, i64)> {
    let t = text::trimmed(s);
    if t.len() == 0 {
        None
    } else if unit_secs(t.last()) is Some {
        match count_of(text::trimmed(t.drop_last())) {
            Some(n) => Some((n, unit_secs(t.last())->0)),
            None => None,
        }
    } else if text::is_digit(t.last()) {
        match count_of(t) {
            Some(n) => Some((n, 1)),
            None => None,
        }
    } else {
        None
    }
}

/// The seconds of a duration.
pub open spec fn seconds_of(s: Seq<char>) -> Option<int> {
    match duration_of(s) {
        Some((n, unit)) => Some(n * unit),
        None => None,
    }
}

/// The seconds of a unit of time.
fn secs_of_unit(unit: char) -> (secs: Option<i64>)
    ensures
        secs == unit_secs(unit),
{
    if unit == 's' {
        Some(1)
    } else if unit == 'm' {
        Some(60)
    } else if unit == 'h' {
        Some(3600)
    } else if unit == 'd' {
        Some(86_400)
    } else {
        None
    }
}

/// The count that `chars[from..to]` stands for.
fn read_count(chars: &Vec<char>, from: usize, to: usize) -> (n: Option<i64>)
    requires
        from <= to <= chars.len(),
    ensures
        n == count_of(chars@.subrange(from as int, to as int)),
        n is Some ==> n->0 >= 0,
{
    let ghost s = chars@.subrange(from as int, to as int);
    if from < to && (chars[from] == '+' || chars[from] == '-') {
        assert(s.drop_first() =~= chars@.subrange(from + 1, to as int));
        match text::read_number(chars, from + 1, to) {
            Some(n) => if chars[from] == '-' && n != 0 {
                None
            } else {
                Some(n)
            },
            None => None,
        }
    } else {
        text::read_number(chars, from, to)
    }
}

/// Takes a duration apart into a count and the seconds of its unit. Returns
/// `None` on a malformed value.
#[must_use]
pub fn split_since(s: &str) -> (parts: Option<(i64, i64)>)
    ensures
        parts == duration_of(s@),
        parts matches Some((n, unit)) ==> n >= 0 && unit > 0,
{
    let chars = text::chars_of(s);
    assert(chars@.subrange(0, chars.len() as int) =~= s@);
    let (from, to) = text::trim_range(&chars, 0, chars.len());
    let ghost t = text::trimmed(s@);
    assert(t == chars@.subrange(from as int, to as int));
    if from == to {
        return None;
    }
    let unit: char = chars[to - 1];
    assert(t.last() == unit);
    if let Some(secs) = secs_of_unit(unit) {
        assert(t.drop_last() =~= chars@.subrange(from as int, to - 1));
        let (lo, hi) = text::trim_range(&chars, from, to - 1);
        match read_count(&chars, lo, hi) {
            Some(n) => Some((n, secs)),
            None => None,
        }
    } else if '0' <= unit && unit <= '9' {
        match read_count(&chars, from, to) {
            Some(n) => Some((n, 1)),
            None => None,
        }
    } else {
        None
    }
}

/// Parses a duration (`90s`, `30m`, `2h`, `1d`) into seconds. A bare integer
/// is one of seconds. Returns `None` on a malformed value.
///
/// The seconds must fit in `i64`; [`split_since`] tells without that bound.
#[must_use]
pub fn parse_since(s: &str) -> (secs: Option<i64>)
    requires
        seconds_of(s@) is Some ==> seconds_of(s@)->0 <= i64::MAX,
    ensures
        match secs {
            Some(n) => seconds_of(s@) == Some(n as int),
            None => seconds_of(s@) is None,
        },
{
    match split_since(s) {
        Some((n, unit)) => {
            assert(0 <= n * unit) by (nonlinear_arith)
                requires
                    n >= 0,
                    unit >= 0,
            ;
            Some(n * unit)
        },
        None => None,
    }
}

/// Digits with a unit behind them, with or without white space between, are
/// that many of the unit; digits alone are that many seconds. Leading zeros do
/// not matter; a number that does not fit in `i64` is no duration.
pub proof fn law_count_and_unit(digits: Seq<char>, gap: Seq<char>, unit: char)
    requires
        text::is_number(digits),
        unit_secs(unit) is Some,
        forall|i: int| 0 <= i < gap.len() ==> text::is_white_space(#[trigger] gap[i]),
    ensures
        text::digits_value(digits) <= i64::MAX ==> duration_of((digits + gap).push(unit)) == Some(
            (text::digits_value(digits) as i64, unit_secs(unit)->0),
        ) && duration_of(digits) == Some((text::digits_value(digits) as i64, 1i64)),
        text::digits_value(digits) > i64::MAX ==> duration_of((digits + gap).push(unit)) is None
            && duration_of(digits) is None,
{
    assert(text::is_digit(digits[0]) && text::is_digit(digits[digits.len() - 1]));
    assert(text::trimmed(digits) == digits);
    let s = (digits + gap).push(unit);
    assert(s[0] == digits[0]);
    assert(text::trimmed(s) == s);
    assert(s.drop_last() =~= Seq::empty() + digits + gap);
    text::lemma_trim_padding(Seq::empty(), digits, gap);
}

/// White space around a duration does not matter.
pub proof fn law_padding_is_ignored(front: Seq<char>, s: Seq<char>, back: Seq<char>)
    requires
        forall|i: int| 0 <= i < front.len() ==> text::is_white_space(#[trigger] front[i]),
        forall|i: int| 0 <= i < back.len() ==> text::is_white_space(#[trigger] back[i]),
    ensures
        duration_of(front + s + back) == duration_of(s),
{
    text::lemma_trim_padding(front, s, back);
}

/// No duration is negative, and every unit is a second, a minute, an hour or a
/// day.
pub proof fn law_durations(s: Seq<char>)
    requires
        duration_of(s) is Some,
    ensures
        match duration_of(s) {
            Some((n, unit)) => n >= 0 && (unit == 1 || unit == 60 || unit == 3600 || unit == 86_400),
            None => false,
        },
{
    let t = text::trimmed(s);
    let u = text::trimmed(t.drop_last());
    lemma_count_not_negative(t);
    lemma_count_not_negative(u);
}

proof fn lemma_count_not_negative(s: Seq<char>)
    ensures
        count_of(s) is Some ==> count_of(s)->0 >= 0,
{
    if count_of(s) is Some {
        let signed = s.len() > 0 && (s[0] == '+' || s[0] == '-');
        let digits = if signed {
            s.drop_first()
        } else {
            s
        };
        lemma_value_not_negative(digits);
    }
}

/// Digits stand for no negative number.
pub proof fn lemma_value_not_negative(s: Seq<char>)
    requires
        forall|i: int| 0 <= i < s.len() ==> text::is_digit(#[trigger] s[i]),
    ensures
        text::digits_value(s) >= 0,
    decreases s.len(),
{
    if s.len() > 0 {
        assert forall|i: int| 0 <= i < s.drop_last().len() implies text::is_digit(
            #[trigger] s.drop_last()[i],
        ) by {
            assert(s.drop_last()[i] == s[i]);
        }
        lemma_value_not_negative(s.drop_last());
    }
}

} // verus!
