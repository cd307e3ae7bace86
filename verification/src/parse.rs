//! Reading numbers, lines, fields and words out of text.

use vstd::prelude::*;

use crate::text::{chars_of, is_whitespace, is_ws, trim_start};

verus! {

broadcast use vstd::string::group_string_axioms;

/// Whether `c` is an ASCII decimal digit.
pub open spec fn is_digit(c: char) -> bool {
    '0' <= c <= '9'
}

/// The value of the decimal digit `c`.
pub open spec fn digit_value(c: char) -> nat {
    (c as u32 - '0' as u32) as nat
}

/// The value of the decimal digits `s`.
pub open spec fn digits_value(s: Seq<char>) -> nat
    decreases s.len(),
{
    if s.len() == 0 {
        0
    } else {
        digits_value(s.drop_last()) * 10 + digit_value(s.last())
    }
}

/// `s` without a leading `+`.
pub open spec fn unsigned_part(s: Seq<char>) -> Seq<char> {
    if s.len() > 0 && s[0] == '+' {
        s.drop_first()
    } else {
        s
    }
}

/// Whether every character of `d` is a decimal digit.
pub open spec fn all_digits(d: Seq<char>) -> bool {
    forall|i: int| 0 <= i < d.len() ==> is_digit(#[trigger] d[i])
}

/// What `str::parse::<u64>` gives: an optional `+`, then at least one ASCII
/// digit and nothing else, with a value that fits in a `u64`.
pub open spec fn parsed_u64(s: Seq<char>) -> Option<u64> {
    let d = unsigned_part(s);
    if d.len() == 0 || !all_digits(d) || digits_value(d) > u64::MAX {
        None
    } else {
        Some(digits_value(d) as u64)
    }
}

/// Scanning `s` left to right for lines: the lines ended so far and the text
/// of the line still open.
pub open spec fn line_scan(s: Seq<char>) -> (Seq<Seq<char>>, Seq<char>)
    decreases s.len(),
{
    if s.len() == 0 {
        (Seq::empty(), Seq::empty())
    } else {
        let (done, open) = line_scan(s.drop_last());
        if s.last() == '\n' {
            (done.push(without_cr(open)), Seq::empty())
        } else {
            (done, open.push(s.last()))
        }
    }
}

/// A line with the `\r` of a `\r\n` ending removed.
pub open spec fn without_cr(l: Seq<char>) -> Seq<char> {
    if l.len() > 0 && l.last() == '\r' {
        l.drop_last()
    } else {
        l
    }
}

/// The lines of `s`, as `str::lines` yields them: split at `\n`, with the
/// `\r` of `\r\n` removed, and no empty line after a final `\n`.
pub open spec fn lines_of(s: Seq<char>) -> Seq<Seq<char>> {
    let (done, open) = line_scan(s);
    if open.len() > 0 {
        done.push(open)
    } else {
        done
    }
}

/// Scanning `s` for fields separated by `sep`: the fields ended so far and the
/// one still open.
pub open spec fn field_scan(s: Seq<char>, sep: char) -> (Seq<Seq<char>>, Seq<char>)
    decreases s.len(),
{
    if s.len() == 0 {
        (Seq::empty(), Seq::empty())
    } else {
        let (done, open) = field_scan(s.drop_last(), sep);
        if s.last() == sep {
            (done.push(open), Seq::empty())
        } else {
            (done, open.push(s.last()))
        }
    }
}

/// The fields of `s` separated by `sep`, as `str::split` yields them.
pub open spec fn fields_of(s: Seq<char>, sep: char) -> Seq<Seq<char>> {
    let (done, open) = field_scan(s, sep);
    done.push(open)
}

/// The leading run of non-whitespace characters of `s`.
pub open spec fn leading_word(s: Seq<char>) -> Seq<char>
    decreases s.len(),
{
    if s.len() == 0 || is_ws(s[0]) {
        Seq::empty()
    } else {
        seq![s[0]] + leading_word(s.drop_first())
    }
}

/// The first whitespace-separated word of `s`, as `split_whitespace().next()`
/// gives it.
pub open spec fn first_word(s: Seq<char>) -> Option<Seq<char>> {
    let t = trim_start(s);
    if t.len() == 0 {
        None
    } else {
        Some(leading_word(t))
    }
}

/// Whether `v` is a list of character vectors with the given views.
pub open spec fn char_lists_are(v: Seq<Vec<char>>, s: Seq<Seq<char>>) -> bool {
    v.len() == s.len() && forall|k: int| 0 <= k < v.len() ==> (#[trigger] v[k])@ == s[k]
}

proof fn lemma_digits_value_prefix(s: Seq<char>, k: int, j: int)
    requires
        0 <= k <= j <= s.len(),
    ensures
        digits_value(s.take(k)) <= digits_value(s.take(j)),
    decreases j - k,
{
    if k < j {
        lemma_digits_value_prefix(s, k, j - 1);
        assert(s.take(j).drop_last() == s.take(j - 1));
        let v = digits_value(s.take(j - 1));
        assert(v * 10 + digit_value(s.take(j).last()) >= v) by (nonlinear_arith);
    }
}

/// Parses `v` as `str::parse::<u64>` does.
pub fn parse_u64(v: &[char]) -> (r: Option<u64>)
    ensures
        r == parsed_u64(v@),
{
    let start: usize = if v.len() > 0 && v[0] == '+' {
        1
    } else {
        0
    };
    let ghost d = if v@.len() > 0 && v@[0] == '+' {
        v@.drop_first()
    } else {
        v@
    };
    assert(d == v@.skip(start as int));
    if start == v.len() {
        return None;
    }
    let mut value: u64 = 0;
    let mut k: usize = start;
    while k < v.len()
        invariant
            start <= k <= v@.len(),
            d == v@.skip(start as int),
            d == unsigned_part(v@),
            d.len() > 0,
            forall|i: int| start <= i < k ==> is_digit(#[trigger] v@[i]),
            value == digits_value(d.take(k - start)),
        decreases v@.len() - k,
    {
        let c = v[k];
        if !('0' <= c && c <= '9') {
            assert(!is_digit(d[k - start]));
            return None;
        }
        let digit = (c as u32 - '0' as u32) as u64;
        proof {
            assert(d.take(k - start + 1).drop_last() == d.take(k - start));
            assert(d.take(k - start + 1).last() == c);
        }
        let tens = value.checked_mul(10);
        if tens.is_none() {
            proof {
                lemma_digits_value_prefix(d, k - start + 1, d.len() as int);
                assert(d.take(d.len() as int) == d);
            }
            return None;
        }
        let next = tens.unwrap().checked_add(digit);
        if next.is_none() {
            proof {
                lemma_digits_value_prefix(d, k - start + 1, d.len() as int);
                assert(d.take(d.len() as int) == d);
            }
            return None;
        }
        value = next.unwrap();
        k = k + 1;
    }
    assert(d.take(d.len() as int) == d);
    assert forall|i: int| 0 <= i < d.len() implies is_digit(#[trigger] d[i]) by {
        assert(d[i] == v@[i + start]);
    }
    Some(value)
}

/// The lines of `s`, as [`lines_of`] describes.
pub fn lines(s: &str) -> (r: Vec<Vec<char>>)
    ensures
        char_lists_are(r@, lines_of(s@)),
{
    let v = chars_of(s);
    let mut done: Vec<Vec<char>> = Vec::new();
    let mut open: Vec<char> = Vec::new();
    let mut k: usize = 0;
    while k < v.len()
        invariant
            k <= v@.len(),
            v@ == s@,
            char_lists_are(done@, line_scan(v@.take(k as int)).0),
            open@ == line_scan(v@.take(k as int)).1,
        decreases v@.len() - k,
    {
        assert(v@.take(k + 1).drop_last() == v@.take(k as int));
        assert(v@.take(k + 1).last() == v@[k as int]);
        if v[k] == '\n' {
            if open.len() > 0 && open[open.len() - 1] == '\r' {
                open.pop();
            }
            done.push(open);
            open = Vec::new();
        } else {
            open.push(v[k]);
        }
        k = k + 1;
    }
    assert(v@.take(v@.len() as int) == v@);
    if open.len() > 0 {
        done.push(open);
    }
    done
}

/// The fields of `s` separated by `sep`, as [`fields_of`] describes.
pub fn fields(s: &[char], sep: char) -> (r: Vec<Vec<char>>)
    ensures
        char_lists_are(r@, fields_of(s@, sep)),
{
    let mut done: Vec<Vec<char>> = Vec::new();
    let mut open: Vec<char> = Vec::new();
    let mut k: usize = 0;
    while k < s.len()
        invariant
            k <= s@.len(),
            char_lists_are(done@, field_scan(s@.take(k as int), sep).0),
            open@ == field_scan(s@.take(k as int), sep).1,
        decreases s@.len() - k,
    {
        assert(s@.take(k + 1).drop_last() == s@.take(k as int));
        assert(s@.take(k + 1).last() == s@[k as int]);
        if s[k] == sep {
            done.push(open);
            open = Vec::new();
        } else {
            open.push(s[k]);
        }
        k = k + 1;
    }
    assert(s@.take(s@.len() as int) == s@);
    done.push(open);
    done
}

proof fn lemma_trim_start_skip_ws(s: Seq<char>, i: int)
    requires
        0 <= i <= s.len(),
        forall|k: int| 0 <= k < i ==> is_ws(#[trigger] s[k]),
    ensures
        trim_start(s) == trim_start(s.skip(i)),
    decreases i,
{
    if i > 0 {
        assert(s.drop_first().skip(i - 1) == s.skip(i));
        lemma_trim_start_skip_ws(s.drop_first(), i - 1);
    } else {
        assert(s.skip(0) == s);
    }
}

proof fn lemma_leading_word_take(t: Seq<char>, j: int)
    requires
        0 <= j <= t.len(),
        forall|k: int| 0 <= k < j ==> !is_ws(#[trigger] t[k]),
        j == t.len() || is_ws(t[j]),
    ensures
        leading_word(t) == t.take(j),
    decreases j,
{
    if j > 0 {
        lemma_leading_word_take(t.drop_first(), j - 1);
        assert(seq![t[0]] + t.drop_first().take(j - 1) == t.take(j));
    } else {
        assert(t.take(0) == Seq::<char>::empty());
    }
}

/// The first whitespace-separated word of `s`, as [`first_word`] describes.
pub fn first_word_of(s: &[char]) -> (r: Option<Vec<char>>)
    ensures
        r matches Some(w) ==> first_word(s@) == Some(w@),
        r is None ==> first_word(s@) is None,
{
    let n = s.len();
    let mut i: usize = 0;
    while i < n && is_whitespace(s[i])
        invariant
            i <= n == s@.len(),
            forall|k: int| 0 <= k < i ==> is_ws(#[trigger] s@[k]),
        decreases n - i,
    {
        i = i + 1;
    }
    proof {
        lemma_trim_start_skip_ws(s@, i as int);
        let t = s@.skip(i as int);
        if t.len() > 0 {
            assert(t[0] == s@[i as int]);
        }
    }
    if i == n {
        return None;
    }
    let mut w: Vec<char> = Vec::new();
    let mut j = i;
    while j < n && !is_whitespace(s[j])
        invariant
            i <= j <= n == s@.len(),
            w@ == s@.subrange(i as int, j as int),
            forall|k: int| i <= k < j ==> !is_ws(#[trigger] s@[k]),
        decreases n - j,
    {
        w.push(s[j]);
        assert(s@.subrange(i as int, j + 1) == s@.subrange(i as int, j as int).push(s@[j as int]));
        j = j + 1;
    }
    proof {
        let t = s@.skip(i as int);
        assert forall|k: int| 0 <= k < j - i implies !is_ws(#[trigger] t[k]) by {
            assert(t[k] == s@[i + k]);
        }
        if j < n {
            assert(t[j - i] == s@[j as int]);
        }
        lemma_leading_word_take(t, j - i);
        assert(t.take(j - i) == s@.subrange(i as int, j as int));
    }
    Some(w)
}

} // verus!
