//! Texts: order, white space, numbers and lines.

use vstd::prelude::*;

verus! {

/// `String::push` appends one character and changes nothing else.
pub assume_specification[ String::push ](s: &mut String, c: char)
    ensures
        final(s)@ == old(s)@.push(c),
;

/// Lexicographic order of texts by code point.
pub open spec fn text_lt(a: Seq<char>, b: Seq<char>) -> bool
    decreases a.len(),
{
    if b.len() == 0 {
        false
    } else if a.len() == 0 {
        true
    } else if a[0] != b[0] {
        a[0] < b[0]
    } else {
        text_lt(a.drop_first(), b.drop_first())
    }
}

/// The characters of a text.
pub fn chars_of(s: &str) -> (v: Vec<char>)
    ensures
        v@ == s@,
{
    let mut v: Vec<char> = Vec::new();
    for c in it: s.chars()
        invariant
            v@ == s@.take(it.index()),
            it.seq() == s@,
    {
        v.push(c);
    }
    v
}

/// Whether one text comes before another.
pub fn text_before(a: &str, b: &str) -> (yes: bool)
    ensures
        yes == text_lt(a@, b@),
{
    let right = chars_of(b);
    let mut i: usize = 0;
    assert(a@.skip(0) =~= a@);
    assert(b@.skip(0) =~= b@);
    for c in it: a.chars()
        invariant
            it.seq() == a@,
            i == it.index(),
            i <= right.len(),
            right@ == b@,
            text_lt(a@, b@) == text_lt(a@.skip(i as int), b@.skip(i as int)),
    {
        if i == right.len() {
            return false;
        }
        if c != right[i] {
            return c < right[i];
        }
        assert(a@.skip(i as int).drop_first() =~= a@.skip(i + 1));
        assert(b@.skip(i as int).drop_first() =~= b@.skip(i + 1));
        i = i + 1;
    }
    i < right.len()
}
/// Lexicographic order of lists of texts.
pub open spec fn texts_lt(a: Seq<Seq<char>>, b: Seq<Seq<char>>) -> bool
    decreases a.len(),
{
    if b.len() == 0 {
        false
    } else if a.len() == 0 {
        true
    } else if a[0] != b[0] {
        text_lt(a[0], b[0])
    } else {
        texts_lt(a.drop_first(), b.drop_first())
    }
}

/// Whether one list of texts comes before another.
pub fn texts_before(a: &Vec<String>, b: &Vec<String>) -> (yes: bool)
    ensures
        yes == texts_lt(a.deep_view(), b.deep_view()),
{
    let ghost left = a.deep_view();
    let ghost right = b.deep_view();
    let mut i: usize = 0;
    assert(left.skip(0) =~= left);
    assert(right.skip(0) =~= right);
    while i < a.len() && i < b.len() && a[i] == b[i]
        invariant
            i <= a.len(),
            i <= b.len(),
            left == a.deep_view(),
            right == b.deep_view(),
            texts_lt(left, right) == texts_lt(left.skip(i as int), right.skip(i as int)),
        decreases a.len() - i,
    {
        assert(left[i as int] == a[i as int]@ && right[i as int] == b[i as int]@);
        assert(left.skip(i as int).drop_first() =~= left.skip(i + 1));
        assert(right.skip(i as int).drop_first() =~= right.skip(i + 1));
        i = i + 1;
    }
    if i < a.len() && i < b.len() {
        assert(left[i as int] == a[i as int]@ && right[i as int] == b[i as int]@);
        text_before(a[i].as_str(), b[i].as_str())
    } else {
        i < b.len()
    }
}

/// Whether two texts are the same.
pub fn text_is(a: &str, b: &str) -> (same: bool)
    ensures
        same == (a@ == b@),
{
    a.to_owned() == b.to_owned()
}

/// Each text comes before those that follow it.
pub open spec fn ascending(texts: Seq<Seq<char>>) -> bool {
    forall|i: int, j: int|
        #![trigger texts[i], texts[j]]
        0 <= i < j < texts.len() ==> text_lt(texts[i], texts[j])
}

/// No text comes before itself.
pub proof fn lemma_text_lt_irreflexive(a: Seq<char>)
    ensures
        !text_lt(a, a),
    decreases a.len(),
{
    if a.len() > 0 {
        lemma_text_lt_irreflexive(a.drop_first());
    }
}

/// The order of texts is transitive.
pub proof fn lemma_text_lt_transitive(a: Seq<char>, b: Seq<char>, c: Seq<char>)
    requires
        text_lt(a, b),
        text_lt(b, c),
    ensures
        text_lt(a, c),
    decreases a.len(),
{
    if a.len() > 0 && a[0] == b[0] && b[0] == c[0] {
        lemma_text_lt_transitive(a.drop_first(), b.drop_first(), c.drop_first());
    }
}

/// Of two different texts one comes before the other.
pub proof fn lemma_text_lt_total(a: Seq<char>, b: Seq<char>)
    ensures
        a == b || text_lt(a, b) || text_lt(b, a),
    decreases a.len(),
{
    if a.len() > 0 && b.len() > 0 && a[0] == b[0] {
        lemma_text_lt_total(a.drop_first(), b.drop_first());
        if a.drop_first() == b.drop_first() {
            assert(a =~= seq![a[0]] + a.drop_first());
            assert(b =~= seq![b[0]] + b.drop_first());
        }
    } else if a.len() == 0 && b.len() == 0 {
        assert(a =~= b);
    }
}

/// The order of lists of texts is strict and transitive, and of two different
/// lists one comes before the other.
pub proof fn lemma_texts_lt_order(a: Seq<Seq<char>>, b: Seq<Seq<char>>, c: Seq<Seq<char>>)
    ensures
        !texts_lt(a, a),
        texts_lt(a, b) && texts_lt(b, c) ==> texts_lt(a, c),
        a == b || texts_lt(a, b) || texts_lt(b, a),
    decreases a.len() + b.len() + c.len(),
{
    if a.len() > 0 {
        let a1 = a.drop_first();
        lemma_texts_lt_order(a1, a1.take(0), a1.take(0));
        if b.len() > 0 {
            let b1 = b.drop_first();
            lemma_text_lt_total(a[0], b[0]);
            lemma_texts_lt_order(a1, b1, b1.take(0));
            if a[0] == b[0] && a1 == b1 {
                assert(a =~= seq![a[0]] + a1);
                assert(b =~= seq![b[0]] + b1);
            }
            if c.len() > 0 {
                lemma_texts_lt_order(a1, b1, c.drop_first());
                lemma_text_lt_irreflexive(a[0]);
                if text_lt(a[0], b[0]) && text_lt(b[0], c[0]) {
                    lemma_text_lt_transitive(a[0], b[0], c[0]);
                }
            }
        }
    } else if b.len() == 0 {
        assert(a =~= b);
    }
}

/// Two ascending sequences of the same texts are equal.
pub proof fn lemma_ascending_unique(a: Seq<Seq<char>>, b: Seq<Seq<char>>)
    requires
        ascending(a),
        ascending(b),
        forall|t: Seq<char>| a.contains(t) <==> b.contains(t),
    ensures
        a == b,
    decreases a.len(),
{
    if a.len() == 0 {
        if b.len() > 0 {
            assert(b.contains(b[0]));
        }
        assert(a =~= b);
    } else if b.len() == 0 {
        assert(a.contains(a[0]));
    } else {
        let x = a.last();
        let y = b.last();
        assert(a.contains(x) && b.contains(y));
        let i = choose|i: int| 0 <= i < a.len() && a[i] == y;
        let j = choose|j: int| 0 <= j < b.len() && b[j] == x;
        if i < a.len() - 1 && j < b.len() - 1 {
            lemma_text_lt_transitive(x, y, x);
            lemma_text_lt_irreflexive(x);
        }
        assert(x == y);
        let a1 = a.drop_last();
        let b1 = b.drop_last();
        assert forall|t: Seq<char>| a1.contains(t) <==> b1.contains(t) by {
            if a1.contains(t) {
                let m = choose|m: int| 0 <= m < a1.len() && a1[m] == t;
                assert(a[m] == t && a.contains(t) && text_lt(a[m], a[a.len() - 1]));
                lemma_text_lt_irreflexive(x);
                let k = choose|k: int| 0 <= k < b.len() && b[k] == t;
                assert(b1[k] == t);
            }
            if b1.contains(t) {
                let m = choose|m: int| 0 <= m < b1.len() && b1[m] == t;
                assert(b[m] == t && b.contains(t) && text_lt(b[m], b[b.len() - 1]));
                lemma_text_lt_irreflexive(x);
                let k = choose|k: int| 0 <= k < a.len() && a[k] == t;
                assert(a1[k] == t);
            }
        }
        lemma_ascending_unique(a1, b1);
        assert(a =~= a1.push(x));
        assert(b =~= b1.push(y));
    }
}

/// Puts `text` in its place in an ascending list, unless it is there already.
pub fn insert_ascending(texts: &mut Vec<String>, text: &String)
    requires
        ascending(old(texts).deep_view()),
    ensures
        ascending(final(texts).deep_view()),
        forall|t: Seq<char>| #[trigger]
            final(texts).deep_view().contains(t) <==> old(texts).deep_view().contains(t) || t
                == text@,
{
    let ghost before = texts.deep_view();
    let mut k: usize = texts.len();
    while k > 0 && text_before(text.as_str(), texts[k - 1].as_str())
        invariant
            k <= texts.len(),
            before == texts.deep_view(),
            forall|m: int| k <= m < before.len() ==> text_lt(text@, #[trigger] before[m]),
        decreases k,
    {
        assert(before[k - 1] == texts[k - 1]@);
        k = k - 1;
    }
    proof {
        if k > 0 {
            assert(before[k - 1] == texts[k - 1]@);
            lemma_text_lt_total(text@, before[k - 1]);
        }
    }
    if k > 0 && texts[k - 1] == *text {
        assert(before.contains(text@)) by {
            assert(before[k - 1] == text@);
        }
        return;
    }
    proof {
        assert forall|m: int| 0 <= m < k implies text_lt(#[trigger] before[m], text@) by {
            if m < k - 1 {
                lemma_text_lt_transitive(before[m], before[k - 1], text@);
            }
        }
    }
    texts.insert(k, text.clone());
    proof {
        let after = texts.deep_view();
        assert(after =~= before.insert(k as int, text@));
        assert forall|t: Seq<char>| #[trigger]
            after.contains(t) <==> before.contains(t) || t == text@ by {
            if after.contains(t) {
                let m = choose|m: int| 0 <= m < after.len() && after[m] == t;
                if m < k {
                    assert(before[m] == t);
                } else if m > k {
                    assert(before[m - 1] == t);
                }
            }
            if before.contains(t) {
                let m = choose|m: int| 0 <= m < before.len() && before[m] == t;
                if m < k {
                    assert(after[m] == t);
                } else {
                    assert(after[m + 1] == t);
                }
            }
            assert(after[k as int] == text@);
        }
        assert forall|i: int, j: int|
            #![trigger after[i], after[j]]
            0 <= i < j < after.len() implies text_lt(after[i], after[j]) by {
            if i < k && j > k {
                assert(text_lt(before[i], before[j - 1]));
            } else if i > k {
                assert(text_lt(before[i - 1], before[j - 1]));
            } else if i == k {
                assert(text_lt(text@, before[j - 1]));
            } else if j < k {
                assert(text_lt(before[i], before[j]));
            }
        }
    }
}

/// White space, by the Unicode property of that name.
pub open spec fn is_white_space(c: char) -> bool {
    let u = c as u32;
    ||| 0x9 <= u <= 0xd
    ||| u == 0x20
    ||| u == 0x85
    ||| u == 0xa0
    ||| u == 0x1680
    ||| 0x2000 <= u <= 0x200a
    ||| u == 0x2028
    ||| u == 0x2029
    ||| u == 0x202f
    ||| u == 0x205f
    ||| u == 0x3000
}

/// Whether a character is white space.
pub fn white_space(c: char) -> (yes: bool)
    ensures
        yes == is_white_space(c),
{
    let u: u32 = c as u32;
    (0x9 <= u && u <= 0xd) || u == 0x20 || u == 0x85 || u == 0xa0 || u == 0x1680 || (0x2000 <= u
        && u <= 0x200a) || u == 0x2028 || u == 0x2029 || u == 0x202f || u == 0x205f || u == 0x3000
}

/// A text without the white space at its ends.
pub open spec fn trimmed(s: Seq<char>) -> Seq<char>
    decreases s.len(),
{
    if s.len() > 0 && is_white_space(s[0]) {
        trimmed(s.drop_first())
    } else if s.len() > 0 && is_white_space(s.last()) {
        trimmed(s.drop_last())
    } else {
        s
    }
}

/// The part of `chars[from..to]` that is left when the white space at its ends
/// is dropped, as a range.
pub fn trim_range(chars: &Vec<char>, from: usize, to: usize) -> (range: (usize, usize))
    requires
        from <= to <= chars.len(),
    ensures
        from <= range.0 <= range.1 <= to,
        chars@.subrange(range.0 as int, range.1 as int) == trimmed(
            chars@.subrange(from as int, to as int),
        ),
{
    let mut lo: usize = from;
    let mut hi: usize = to;
    while lo < hi && white_space(chars[lo])
        invariant
            from <= lo <= hi <= to <= chars.len(),
            trimmed(chars@.subrange(from as int, to as int)) == trimmed(
                chars@.subrange(lo as int, hi as int),
            ),
        decreases hi - lo,
    {
        assert(chars@.subrange(lo as int, hi as int).drop_first() =~= chars@.subrange(
            lo + 1,
            hi as int,
        ));
        lo = lo + 1;
    }
    while lo < hi && white_space(chars[hi - 1])
        invariant
            from <= lo <= hi <= to <= chars.len(),
            lo < hi ==> !is_white_space(chars[lo as int]),
            trimmed(chars@.subrange(from as int, to as int)) == trimmed(
                chars@.subrange(lo as int, hi as int),
            ),
        decreases hi - lo,
    {
        assert(chars@.subrange(lo as int, hi as int).drop_last() =~= chars@.subrange(
            lo as int,
            hi - 1,
        ));
        hi = hi - 1;
    }
    (lo, hi)
}

/// A text that is empty or white space throughout.
pub open spec fn is_blank(s: Seq<char>) -> bool {
    trimmed(s).len() == 0
}

/// Whether a text is empty or white space throughout.
pub fn blank(s: &str) -> (yes: bool)
    ensures
        yes == is_blank(s@),
{
    let chars = chars_of(s);
    let range = trim_range(&chars, 0, chars.len());
    assert(chars@.subrange(0, chars.len() as int) =~= s@);
    range.0 == range.1
}

/// An ASCII digit.
pub open spec fn is_digit(c: char) -> bool {
    '0' <= c <= '9'
}

/// The number that ASCII digits stand for in base ten.
pub open spec fn digits_value(s: Seq<char>) -> int
    decreases s.len(),
{
    if s.len() == 0 {
        0
    } else {
        digits_value(s.drop_last()) * 10 + (s.last() as int - '0' as int)
    }
}

/// One or more ASCII digits and nothing else.
pub open spec fn is_number(s: Seq<char>) -> bool {
    s.len() > 0 && forall|i: int| 0 <= i < s.len() ==> is_digit(#[trigger] s[i])
}

/// The number that `chars[from..to]` stands for, if these are digits and the
/// number fits in `i64`.
pub fn read_number(chars: &Vec<char>, from: usize, to: usize) -> (n: Option<i64>)
    requires
        from <= to <= chars.len(),
    ensures
        ({
            let s = chars@.subrange(from as int, to as int);
            match n {
                Some(v) => is_number(s) && digits_value(s) == v && v >= 0,
                None => !is_number(s) || digits_value(s) > i64::MAX,
            }
        }),
{
    let ghost s = chars@.subrange(from as int, to as int);
    if from == to {
        return None;
    }
    let mut value: i64 = 0;
    let mut too_big = false;
    let mut k: usize = from;
    assert(s.take(0).len() == 0);
    while k < to
        invariant
            from <= k <= to <= chars.len(),
            s == chars@.subrange(from as int, to as int),
            value >= 0,
            forall|i: int| 0 <= i < k - from ==> is_digit(#[trigger] s[i]),
            too_big ==> digits_value(s.take(k - from)) > i64::MAX,
            !too_big ==> digits_value(s.take(k - from)) == value,
        decreases to - k,
    {
        let c: char = chars[k];
        assert(s[k - from] == c);
        if !('0' <= c && c <= '9') {
            assert(!is_digit(s[k - from]));
            return None;
        }
        proof {
            let longer = s.take(k - from + 1);
            assert(longer.drop_last() =~= s.take(k - from));
            assert(longer.last() == c);
        }
        let digit: i128 = c as i128 - '0' as i128;
        let next: i128 = value as i128 * 10 + digit;
        if next > i64::MAX as i128 {
            too_big = true;
        } else {
            value = next as i64;
        }
        k = k + 1;
    }
    assert(s.take(to - from) =~= s);
    if too_big {
        None
    } else {
        Some(value)
    }
}

/// The ASCII digit for a number below ten.
pub open spec fn digit_char(d: int) -> char {
    ('0' as int + d) as char
}

/// A natural number in base ten.
pub open spec fn digits_of(n: int) -> Seq<char>
    decreases n,
{
    if n < 10 {
        seq![digit_char(n)]
    } else {
        digits_of(n / 10).push(digit_char(n % 10))
    }
}

/// A number in base ten, with a minus sign where it is negative.
pub open spec fn decimal(n: int) -> Seq<char> {
    if n < 0 {
        seq!['-'] + digits_of(-n)
    } else {
        digits_of(n)
    }
}

/// A natural number in base ten is made of digits, and stands for itself.
pub proof fn lemma_digits_read_back(n: int)
    requires
        0 <= n,
    ensures
        is_number(digits_of(n)),
        digits_value(digits_of(n)) == n,
    decreases n,
{
    reveal_with_fuel(digits_value, 2);
    if n < 10 {
        let s = digits_of(n);
        assert(s.drop_last().len() == 0);
        assert(s.last() == digit_char(n));
    } else {
        lemma_digits_read_back(n / 10);
        let front = digits_of(n / 10);
        let s = digits_of(n);
        assert(s.drop_last() =~= front);
        assert(s.last() == digit_char(n % 10));
        assert forall|i: int| 0 <= i < s.len() implies is_digit(#[trigger] s[i]) by {
            if i < front.len() {
                assert(s[i] == front[i]);
            }
        }
    }
}

/// The first `sep` splits a text in one way only.
pub proof fn lemma_split_first(
    a: Seq<char>,
    rest: Seq<char>,
    b: Seq<char>,
    other: Seq<char>,
    sep: char,
)
    requires
        !a.contains(sep),
        !b.contains(sep),
        a + seq![sep] + rest == b + seq![sep] + other,
    ensures
        a == b,
        rest == other,
{
    let s = a + seq![sep] + rest;
    let t = b + seq![sep] + other;
    let m = a.len() as int;
    let n = b.len() as int;
    assert(s[m] == sep && t[n] == sep);
    if m < n {
        assert(b[m] == t[m]);
    } else if n < m {
        assert(a[n] == s[n]);
    }
    assert(a =~= s.take(m));
    assert(b =~= t.take(n));
    assert(rest =~= s.skip(m + 1));
    assert(other =~= t.skip(n + 1));
}

/// The last `sep` splits a text in one way only.
pub proof fn lemma_split_last(
    rest: Seq<char>,
    a: Seq<char>,
    other: Seq<char>,
    b: Seq<char>,
    sep: char,
)
    requires
        !a.contains(sep),
        !b.contains(sep),
        rest + seq![sep] + a == other + seq![sep] + b,
    ensures
        a == b,
        rest == other,
{
    let s = rest + seq![sep] + a;
    let t = other + seq![sep] + b;
    let m = rest.len() as int;
    let n = other.len() as int;
    assert(s[m] == sep && t[n] == sep);
    assert(s.len() == m + 1 + a.len());
    assert(t.len() == n + 1 + b.len());
    if m < n {
        assert(a[n - m - 1] == s[n]);
    } else if n < m {
        assert(b[m - n - 1] == t[m]);
    }
    assert(rest =~= s.take(m));
    assert(other =~= t.take(n));
    assert(a =~= s.skip(m + 1));
    assert(b =~= t.skip(n + 1));
}

/// A number in base ten with a hyphen behind it can be read in one way only.
pub proof fn lemma_decimal_split(m: int, rest: Seq<char>, n: int, other: Seq<char>)
    requires
        decimal(m) + seq!['-'] + rest == decimal(n) + seq!['-'] + other,
    ensures
        m == n,
        rest == other,
{
    let p = if m < 0 {
        -m
    } else {
        m
    };
    let q = if n < 0 {
        -n
    } else {
        n
    };
    let a = digits_of(p);
    let b = digits_of(q);
    lemma_digits_read_back(p);
    lemma_digits_read_back(q);
    assert(is_digit(a[0]) && is_digit(b[0]));
    assert(!a.contains('-') && !b.contains('-'));
    let s = decimal(m) + seq!['-'] + rest;
    let t = decimal(n) + seq!['-'] + other;
    assert(s[0] == decimal(m)[0] && t[0] == decimal(n)[0]);
    assert((m < 0) == (s[0] == '-'));
    assert((n < 0) == (t[0] == '-'));
    if m < 0 {
        assert(s.drop_first() =~= a + seq!['-'] + rest);
        assert(t.drop_first() =~= b + seq!['-'] + other);
    }
    lemma_split_first(a, rest, b, other, '-');
}

/// White space at the ends of a text is trimmed away.
pub proof fn lemma_trim_padding(front: Seq<char>, s: Seq<char>, back: Seq<char>)
    requires
        forall|i: int| 0 <= i < front.len() ==> is_white_space(#[trigger] front[i]),
        forall|i: int| 0 <= i < back.len() ==> is_white_space(#[trigger] back[i]),
    ensures
        trimmed(front + s + back) == trimmed(s),
    decreases front.len() + s.len() + back.len(),
{
    let all = front + s + back;
    if front.len() > 0 {
        assert(all[0] == front[0]);
        assert(all.drop_first() =~= front.drop_first() + s + back);
        lemma_trim_padding(front.drop_first(), s, back);
    } else if s.len() > 0 && is_white_space(s[0]) {
        assert(all[0] == s[0]);
        assert(all.drop_first() =~= front + s.drop_first() + back);
        lemma_trim_padding(front, s.drop_first(), back);
    } else if back.len() > 0 {
        assert(all.last() == back.last());
        if s.len() > 0 {
            assert(all[0] == s[0]);
            assert(all.drop_last() =~= front + s + back.drop_last());
            lemma_trim_padding(front, s, back.drop_last());
        } else {
            assert(all[0] == back[0]);
            assert(all.drop_first() =~= front + s + back.drop_first());
            lemma_trim_padding(front, s, back.drop_first());
        }
    } else {
        assert(all =~= s);
    }
}

/// Appends a natural number in base ten.
fn append_digits(out: &mut String, n: u64)
    ensures
        final(out)@ == old(out)@ + digits_of(n as int),
    decreases n,
{
    if n >= 10 {
        append_digits(out, n / 10);
    }
    let digit: u8 = (n % 10) as u8;
    out.push((48 + digit) as char);
    proof {
        assert(out@ =~= old(out)@ + digits_of(n as int));
    }
}

/// Appends a number in base ten.
pub fn append_decimal(out: &mut String, n: i64)
    ensures
        final(out)@ == old(out)@ + decimal(n as int),
{
    if n < 0 {
        out.push('-');
        append_digits(out, (-(n as i128)) as u64);
        assert(out@ =~= old(out)@ + decimal(n as int));
    } else {
        append_digits(out, n as u64);
    }
}

/// A line without the carriage return at its end.
pub open spec fn chomped(line: Seq<char>) -> Seq<char> {
    if line.len() > 0 && line.last() == '\r' {
        line.drop_last()
    } else {
        line
    }
}

/// The lines of a text. A line ends at a line feed, or at a carriage return
/// and a line feed; the last one may go without.
pub open spec fn lines_of(s: Seq<char>) -> Seq<Seq<char>>
    decreases s.len(),
{
    if s.len() == 0 {
        Seq::empty()
    } else if !s.contains('\n') {
        seq![s]
    } else {
        let end = s.index_of_first('\n')->0;
        proof {
            s.index_of_first_ensures('\n');
        }
        seq![chomped(s.take(end))] + lines_of(s.skip(end + 1))
    }
}

/// How the first line feed splits a text.
pub proof fn lemma_lines_step(line: Seq<char>, rest: Seq<char>)
    requires
        !line.contains('\n'),
    ensures
        lines_of(line + seq!['\n'] + rest) == seq![chomped(line)] + lines_of(rest),
{
    let s = line + seq!['\n'] + rest;
    let n = line.len() as int;
    assert(s[n] == '\n');
    assert(s.contains('\n'));
    s.index_of_first_ensures('\n');
    let end = s.index_of_first('\n')->0;
    if end < n {
        assert(line[end] == s[end]);
        assert(line.contains('\n'));
    }
    if end > n {
        assert(s[n] != '\n');
    }
    assert(s.take(n) =~= line);
    assert(s.skip(n + 1) =~= rest);
}

/// A line feed ends the lines before it: what follows makes lines of its own.
pub proof fn lemma_lines_concat(a: Seq<char>, b: Seq<char>)
    ensures
        lines_of(a + seq!['\n'] + b) == lines_of(a + seq!['\n']) + lines_of(b),
    decreases a.len(),
{
    if !a.contains('\n') {
        lemma_lines_step(a, b);
        lemma_lines_step(a, Seq::empty());
        assert(a + seq!['\n'] + Seq::empty() =~= a + seq!['\n']);
        assert(lines_of(a + seq!['\n']) =~= seq![chomped(a)]);
    } else {
        a.index_of_first_ensures('\n');
        let end = a.index_of_first('\n')->0;
        let line = a.take(end);
        let rest = a.skip(end + 1);
        assert(!line.contains('\n')) by {
            if line.contains('\n') {
                let k = choose|k: int| 0 <= k < line.len() && line[k] == '\n';
                assert(a[k] == '\n');
            }
        }
        lemma_lines_concat(rest, b);
        assert(a + seq!['\n'] + b =~= line + seq!['\n'] + (rest + seq!['\n'] + b));
        assert(a + seq!['\n'] =~= line + seq!['\n'] + (rest + seq!['\n']));
        lemma_lines_step(line, rest + seq!['\n'] + b);
        lemma_lines_step(line, rest + seq!['\n']);
        assert(lines_of(a + seq!['\n'] + b) =~= lines_of(a + seq!['\n']) + lines_of(b));
    }
}

/// What a line feed at the end of a text changes in its lines: where there is
/// an open line it ends it, and else it makes an empty one.
pub proof fn lemma_lines_end(s: Seq<char>)
    ensures
        s.len() == 0 || s.last() == '\n' ==> lines_of(s + seq!['\n']) == lines_of(s).push(
            Seq::empty(),
        ),
        s.len() > 0 && s.last() != '\n' ==> lines_of(s).len() > 0 && lines_of(s).last().len() > 0
            && lines_of(s).last().last() == s.last() && lines_of(s + seq!['\n']) == lines_of(
            s,
        ).drop_last().push(chomped(lines_of(s).last())),
    decreases s.len(),
{
    let nl = seq!['\n'];
    if !s.contains('\n') {
        if s.len() > 0 && s.last() == '\n' {
            assert(s[s.len() - 1] == '\n');
        }
        lemma_lines_step(s, Seq::empty());
        assert(s + nl + Seq::empty() =~= s + nl);
        assert(lines_of(s + nl) =~= seq![chomped(s)]);
        if s.len() == 0 {
            assert(chomped(s) =~= Seq::empty());
            assert(lines_of(s).push(Seq::empty()) =~= seq![chomped(s)]);
        } else {
            assert(lines_of(s).drop_last().push(chomped(s)) =~= seq![chomped(s)]);
        }
    } else {
        s.index_of_first_ensures('\n');
        let end = s.index_of_first('\n')->0;
        let line = s.take(end);
        let rest = s.skip(end + 1);
        assert(!line.contains('\n')) by {
            if line.contains('\n') {
                let k = choose|k: int| 0 <= k < line.len() && line[k] == '\n';
                assert(s[k] == '\n');
            }
        }
        lemma_lines_end(rest);
        lemma_lines_step(line, rest);
        lemma_lines_step(line, rest + nl);
        assert(s =~= line + nl + rest);
        assert(s + nl =~= line + nl + (rest + nl));
        let head = seq![chomped(line)];
        assert(lines_of(s) == head + lines_of(rest));
        assert(lines_of(s + nl) == head + lines_of(rest + nl));
        if rest.len() == 0 {
            assert(s.last() == s[end]);
        } else {
            assert(s.last() == rest.last());
        }
        if s.last() == '\n' {
            assert(lines_of(s + nl) =~= lines_of(s).push(Seq::empty()));
        } else {
            assert(lines_of(s).last() == lines_of(rest).last());
            assert(lines_of(s + nl) =~= lines_of(s).drop_last().push(
                chomped(lines_of(s).last()),
            ));
        }
    }
}

/// A carriage return at its end does not keep a line from being blank.
pub proof fn lemma_chomped_blank(line: Seq<char>)
    ensures
        is_blank(chomped(line)) == is_blank(line),
{
    if line.len() > 0 && line.last() == '\r' {
        let front = line.drop_last();
        lemma_trim_padding(Seq::empty(), front, seq!['\r']);
        assert(line =~= Seq::empty() + front + seq!['\r']);
    }
}

/// The text made of the characters `chars[0..to]`.
pub fn string_of(chars: &Vec<char>, to: usize) -> (s: String)
    requires
        to <= chars.len(),
    ensures
        s@ == chars@.take(to as int),
{
    let mut s = String::new();
    let mut k: usize = 0;
    while k < to
        invariant
            k <= to <= chars.len(),
            s@ =~= chars@.take(k as int),
        decreases to - k,
    {
        s.push(chars[k]);
        k = k + 1;
    }
    s
}

/// Splits a text into its lines.
pub fn split_lines(s: &str) -> (lines: Vec<String>)
    ensures
        lines.deep_view() == lines_of(s@),
{
    let mut lines: Vec<String> = Vec::new();
    let mut line: Vec<char> = Vec::new();
    assert(line@ + s@.skip(0) =~= s@);
    assert(lines.deep_view() + lines_of(s@) =~= lines_of(s@));
    for c in it: s.chars()
        invariant
            it.seq() == s@,
            !line@.contains('\n'),
            lines_of(s@) == lines.deep_view() + lines_of(line@ + s@.skip(it.index())),
    {
        let ghost n = it.index();
        let ghost done = lines.deep_view();
        let ghost rest = s@.skip(n + 1);
        assert(s@.skip(n) =~= seq![c] + rest);
        if c == '\n' {
            let end: usize = if line.len() > 0 && line[line.len() - 1] == '\r' {
                line.len() - 1
            } else {
                line.len()
            };
            lines.push(string_of(&line, end));
            proof {
                assert(line@.take(end as int) =~= chomped(line@));
                assert(lines.deep_view() =~= done.push(chomped(line@)));
                assert(line@ + s@.skip(n) =~= line@ + seq!['\n'] + rest);
                lemma_lines_step(line@, rest);
                assert(lines.deep_view() + lines_of(rest) =~= done + (seq![chomped(line@)]
                    + lines_of(rest)));
            }
            line = Vec::new();
            assert(line@ + rest =~= rest);
        } else {
            let ghost shorter = line@;
            line.push(c);
            assert(shorter + s@.skip(n) =~= line@ + rest);
            assert(!line@.contains('\n')) by {
                if line@.contains('\n') {
                    let k = choose|k: int| 0 <= k < line@.len() && line@[k] == '\n';
                    assert(shorter[k] == '\n');
                }
            }
        }
    }
    assert(line@ + s@.skip(s@.len() as int) =~= line@);
    if line.len() > 0 {
        let ghost done = lines.deep_view();
        lines.push(string_of(&line, line.len()));
        assert(line@.take(line.len() as int) =~= line@);
        assert(lines.deep_view() =~= done + seq![line@]);
    } else {
        assert(lines.deep_view() + lines_of(line@) =~= lines.deep_view());
    }
    lines
}

} // verus!
