//! Character-level text utilities shared by the rest of the library.
//!
//! Strings are modelled by their character sequences (`Seq<char>`); byte
//! lengths, where the application measures text in bytes, are the lengths of the UTF-8
//! encodings (`encode_utf8`).

use vstd::prelude::*;

verus! {

broadcast use vstd::string::group_string_axioms;

/// The Unicode `White_Space` property, which `char::is_whitespace` and the
/// `trim` family of `str` follow.
pub open spec fn is_ws(c: char) -> bool {
    let u = c as u32;
    ||| 0x09 <= u <= 0x0D
    ||| u == 0x20
    ||| u == 0x85
    ||| u == 0xA0
    ||| u == 0x1680
    ||| 0x2000 <= u <= 0x200A
    ||| u == 0x2028
    ||| u == 0x2029
    ||| u == 0x202F
    ||| u == 0x205F
    ||| u == 0x3000
}

/// `s` with its leading whitespace removed.
pub open spec fn trim_start(s: Seq<char>) -> Seq<char>
    decreases s.len(),
{
    if s.len() > 0 && is_ws(s[0]) {
        trim_start(s.drop_first())
    } else {
        s
    }
}

/// `s` with its trailing whitespace removed.
pub open spec fn trim_end(s: Seq<char>) -> Seq<char>
    decreases s.len(),
{
    if s.len() > 0 && is_ws(s.last()) {
        trim_end(s.drop_last())
    } else {
        s
    }
}

/// `s` with leading and trailing whitespace removed, as `str::trim` does.
pub open spec fn trim(s: Seq<char>) -> Seq<char> {
    trim_end(trim_start(s))
}

/// `s` with every leading copy of `q` removed.
pub open spec fn strip_start_char(s: Seq<char>, q: char) -> Seq<char>
    decreases s.len(),
{
    if s.len() > 0 && s[0] == q {
        strip_start_char(s.drop_first(), q)
    } else {
        s
    }
}

/// `s` with every trailing copy of `q` removed.
pub open spec fn strip_end_char(s: Seq<char>, q: char) -> Seq<char>
    decreases s.len(),
{
    if s.len() > 0 && s.last() == q {
        strip_end_char(s.drop_last(), q)
    } else {
        s
    }
}

/// `s` with all prefixes and suffixes equal to `q` removed, as
/// `str::trim_matches` does with a `char` pattern.
pub open spec fn strip_char(s: Seq<char>, q: char) -> Seq<char> {
    strip_end_char(strip_start_char(s, q), q)
}

/// Whether `p` is a prefix of `s`.
pub open spec fn has_prefix(s: Seq<char>, p: Seq<char>) -> bool {
    p.len() <= s.len() && s.subrange(0, p.len() as int) == p
}

/// Whether `p` occurs in `s` starting at position `i`.
pub open spec fn occurs_at<T>(s: Seq<T>, p: Seq<T>, i: int) -> bool {
    0 <= i && i + p.len() <= s.len() && s.subrange(i, i + p.len()) == p
}

/// Whether `p` occurs anywhere in `s`.
pub open spec fn occurs_in<T>(s: Seq<T>, p: Seq<T>) -> bool {
    exists|i: int| occurs_at(s, p, i)
}

/// Joins `parts`, putting `sep` between consecutive parts.
pub open spec fn join(parts: Seq<Seq<char>>, sep: Seq<char>) -> Seq<char>
    decreases parts.len(),
{
    if parts.len() == 0 {
        Seq::empty()
    } else if parts.len() == 1 {
        parts[0]
    } else {
        join(parts.drop_last(), sep) + sep + parts.last()
    }
}

/// Whether `c` is whitespace in the sense of [`is_ws`].
pub fn is_whitespace(c: char) -> (b: bool)
    ensures
        b == is_ws(c),
{
    let u = c as u32;
    (0x09 <= u && u <= 0x0D) || u == 0x20 || u == 0x85 || u == 0xA0 || u == 0x1680 || (0x2000
        <= u && u <= 0x200A) || u == 0x2028 || u == 0x2029 || u == 0x202F || u == 0x205F || u
        == 0x3000
}

/// `String::push` from std, which vstd gives no specification: appends `c` to `s`.
#[verifier::external_body]
pub(crate) fn push_char(s: &mut String, c: char)
    ensures
        final(s)@ == old(s)@.push(c),
{
    s.push(c)
}

/// Collects the characters of `s` into a vector.
pub fn chars_of(s: &str) -> (v: Vec<char>)
    ensures
        v@ == s@,
{
    let mut v: Vec<char> = Vec::new();
    for c in it: s.chars()
        invariant
            v@ == it.seq().take(it.index() as int),
            it.seq() == s@,
    {
        v.push(c);
    }
    v
}

/// Builds a `String` from the characters `v[lo..hi]`.
pub fn string_of_range(v: &[char], lo: usize, hi: usize) -> (s: String)
    requires
        lo <= hi <= v@.len(),
    ensures
        s@ == v@.subrange(lo as int, hi as int),
{
    let mut s = String::new();
    let mut k = lo;
    while k < hi
        invariant
            lo <= k <= hi <= v@.len(),
            s@ == v@.subrange(lo as int, k as int),
        decreases hi - k,
    {
        push_char(&mut s, v[k]);
        assert(v@.subrange(lo as int, k + 1) == v@.subrange(lo as int, k as int).push(v@[k as int]));
        k = k + 1;
    }
    s
}

/// Builds a `String` from all the characters of `v`.
pub fn string_of(v: &[char]) -> (s: String)
    ensures
        s@ == v@,
{
    let s = string_of_range(v, 0, v.len());
    assert(v@.subrange(0, v@.len() as int) == v@);
    s
}

proof fn lemma_trim_start_skip(s: Seq<char>, i: int)
    requires
        0 <= i <= s.len(),
        forall|k: int| 0 <= k < i ==> is_ws(#[trigger] s[k]),
    ensures
        trim_start(s) == trim_start(s.subrange(i, s.len() as int)),
    decreases i,
{
    if i > 0 {
        assert(s.drop_first().subrange(i - 1, s.drop_first().len() as int) == s.subrange(
            i,
            s.len() as int,
        ));
        lemma_trim_start_skip(s.drop_first(), i - 1);
    } else {
        assert(s.subrange(0, s.len() as int) == s);
    }
}

proof fn lemma_trim_end_cut(s: Seq<char>, j: int)
    requires
        0 <= j <= s.len(),
        forall|k: int| j <= k < s.len() ==> is_ws(#[trigger] s[k]),
    ensures
        trim_end(s) == trim_end(s.subrange(0, j)),
    decreases s.len() - j,
{
    if j < s.len() {
        assert(s.drop_last().subrange(0, j) == s.subrange(0, j));
        lemma_trim_end_cut(s.drop_last(), j);
    } else {
        assert(s.subrange(0, j) == s);
    }
}

/// The bounds `lo..hi` of `trim(v[a..b])` inside `v`.
pub fn trim_bounds(v: &[char], a: usize, b: usize) -> (r: (usize, usize))
    requires
        a <= b <= v@.len(),
    ensures
        a <= r.0 <= r.1 <= b,
        v@.subrange(r.0 as int, r.1 as int) == trim(v@.subrange(a as int, b as int)),
{
    let ghost s = v@.subrange(a as int, b as int);
    let mut i = a;
    while i < b && is_whitespace(v[i])
        invariant
            a <= i <= b <= v@.len(),
            s == v@.subrange(a as int, b as int),
            forall|k: int| a <= k < i ==> is_ws(#[trigger] v@[k]),
        decreases b - i,
    {
        i = i + 1;
    }
    proof {
        assert forall|k: int| 0 <= k < i - a implies is_ws(#[trigger] s[k]) by {
            assert(s[k] == v@[a + k]);
        }
        lemma_trim_start_skip(s, i - a);
        assert(s.subrange(i - a, s.len() as int) == v@.subrange(i as int, b as int));
        let t = v@.subrange(i as int, b as int);
        if t.len() > 0 {
            assert(t[0] == v@[i as int]);
        }
    }
    let mut j = b;
    while j > i && is_whitespace(v[j - 1])
        invariant
            a <= i <= j <= b <= v@.len(),
            forall|k: int| j <= k < b ==> is_ws(#[trigger] v@[k]),
        decreases j - i,
    {
        j = j - 1;
    }
    proof {
        let t = v@.subrange(i as int, b as int);
        assert forall|k: int| j - i <= k < t.len() implies is_ws(#[trigger] t[k]) by {
            assert(t[k] == v@[i + k]);
        }
        lemma_trim_end_cut(t, j - i);
        assert(t.subrange(0, j - i) == v@.subrange(i as int, j as int));
        let u = v@.subrange(i as int, j as int);
        if u.len() > 0 {
            assert(u.last() == v@[j - 1]);
        }
    }
    (i, j)
}

/// `trim(v[a..b])` as a vector of characters.
pub fn trim_range(v: &[char], a: usize, b: usize) -> (r: Vec<char>)
    requires
        a <= b <= v@.len(),
    ensures
        r@ == trim(v@.subrange(a as int, b as int)),
{
    let (lo, hi) = trim_bounds(v, a, b);
    let mut r: Vec<char> = Vec::new();
    let mut k = lo;
    while k < hi
        invariant
            lo <= k <= hi <= v@.len(),
            r@ == v@.subrange(lo as int, k as int),
        decreases hi - k,
    {
        r.push(v[k]);
        assert(v@.subrange(lo as int, k + 1) == v@.subrange(lo as int, k as int).push(v@[k as int]));
        k = k + 1;
    }
    r
}

/// `trim(v)` as a vector of characters.
pub fn trim_chars(v: &[char]) -> (r: Vec<char>)
    ensures
        r@ == trim(v@),
{
    let r = trim_range(v, 0, v.len());
    assert(v@.subrange(0, v@.len() as int) == v@);
    r
}

proof fn lemma_strip_start_skip(s: Seq<char>, q: char, i: int)
    requires
        0 <= i <= s.len(),
        forall|k: int| 0 <= k < i ==> #[trigger] s[k] == q,
    ensures
        strip_start_char(s, q) == strip_start_char(s.subrange(i, s.len() as int), q),
    decreases i,
{
    if i > 0 {
        assert(s.drop_first().subrange(i - 1, s.drop_first().len() as int) == s.subrange(
            i,
            s.len() as int,
        ));
        lemma_strip_start_skip(s.drop_first(), q, i - 1);
    } else {
        assert(s.subrange(0, s.len() as int) == s);
    }
}

proof fn lemma_strip_end_cut(s: Seq<char>, q: char, j: int)
    requires
        0 <= j <= s.len(),
        forall|k: int| j <= k < s.len() ==> #[trigger] s[k] == q,
    ensures
        strip_end_char(s, q) == strip_end_char(s.subrange(0, j), q),
    decreases s.len() - j,
{
    if j < s.len() {
        assert(s.drop_last().subrange(0, j) == s.subrange(0, j));
        lemma_strip_end_cut(s.drop_last(), q, j);
    } else {
        assert(s.subrange(0, j) == s);
    }
}

/// `strip_char(v, q)` as a vector of characters.
pub fn strip_char_chars(v: &[char], q: char) -> (r: Vec<char>)
    ensures
        r@ == strip_char(v@, q),
{
    let n = v.len();
    let mut i: usize = 0;
    while i < n && v[i] == q
        invariant
            i <= n == v@.len(),
            forall|k: int| 0 <= k < i ==> #[trigger] v@[k] == q,
        decreases n - i,
    {
        i = i + 1;
    }
    proof {
        lemma_strip_start_skip(v@, q, i as int);
        let t = v@.subrange(i as int, n as int);
        if t.len() > 0 {
            assert(t[0] == v@[i as int]);
        }
    }
    let mut j = n;
    while j > i && v[j - 1] == q
        invariant
            i <= j <= n == v@.len(),
            forall|k: int| j <= k < n ==> #[trigger] v@[k] == q,
        decreases j - i,
    {
        j = j - 1;
    }
    proof {
        let t = v@.subrange(i as int, n as int);
        assert forall|k: int| j - i <= k < t.len() implies #[trigger] t[k] == q by {
            assert(t[k] == v@[i + k]);
        }
        lemma_strip_end_cut(t, q, j - i);
        assert(t.subrange(0, j - i) == v@.subrange(i as int, j as int));
        let u = v@.subrange(i as int, j as int);
        if u.len() > 0 {
            assert(u.last() == v@[j - 1]);
        }
    }
    let mut r: Vec<char> = Vec::new();
    let mut k = i;
    while k < j
        invariant
            i <= k <= j <= n == v@.len(),
            r@ == v@.subrange(i as int, k as int),
        decreases j - k,
    {
        r.push(v[k]);
        assert(v@.subrange(i as int, k + 1) == v@.subrange(i as int, k as int).push(v@[k as int]));
        k = k + 1;
    }
    r
}

/// Whether `p` is a prefix of `s`.
pub fn starts_with_chars(s: &[char], p: &[char]) -> (b: bool)
    ensures
        b == has_prefix(s@, p@),
{
    if p.len() > s.len() {
        return false;
    }
    let mut i: usize = 0;
    while i < p.len()
        invariant
            i <= p@.len() <= s@.len(),
            forall|k: int| 0 <= k < i ==> s@[k] == p@[k],
        decreases p@.len() - i,
    {
        if s[i] != p[i] {
            assert(s@.subrange(0, p@.len() as int)[i as int] != p@[i as int]);
            return false;
        }
        i = i + 1;
    }
    assert(s@.subrange(0, p@.len() as int) == p@);
    true
}

} // verus!

verus! {

/// Whether `a` and `b` hold the same characters.
pub fn same_text(a: &str, b: &str) -> (r: bool)
    ensures
        r == (a@ == b@),
{
    let x = chars_of(a);
    let y = chars_of(b);
    if x.len() != y.len() {
        return false;
    }
    let mut i: usize = 0;
    while i < x.len()
        invariant
            i <= x@.len() == y@.len(),
            x@ == a@,
            y@ == b@,
            forall|k: int| 0 <= k < i ==> x@[k] == y@[k],
        decreases x@.len() - i,
    {
        if x[i] != y[i] {
            assert(x@[i as int] != y@[i as int]);
            return false;
        }
        i = i + 1;
    }
    assert(x@ == y@);
    true
}

/// An owned copy of `s`.
pub fn owned(s: &str) -> (r: String)
    ensures
        r@ == s@,
{
    s.to_string()
}

} // verus!

verus! {

/// The UTF-8 encoding of `a + b` is that of `a` followed by that of `b`.
pub proof fn lemma_encode_utf8_concat(a: Seq<char>, b: Seq<char>)
    ensures
        vstd::utf8::encode_utf8(a + b) == vstd::utf8::encode_utf8(a) + vstd::utf8::encode_utf8(b),
    decreases a.len(),
{
    if a.len() > 0 {
        lemma_encode_utf8_concat(a.drop_first(), b);
        assert((a + b).drop_first() == a.drop_first() + b);
        assert((a + b)[0] == a[0]);
    } else {
        assert(a + b == b);
    }
}

/// The number of bytes of the UTF-8 encoding of `c`.
pub fn utf8_width(c: char) -> (w: usize)
    ensures
        w == vstd::utf8::encode_scalar(c as u32).len(),
        1 <= w <= 4,
{
    proof {
        vstd::utf8::char_is_scalar(c);
    }
    let u = c as u32;
    if u <= 0x7F {
        1
    } else if u <= 0x7FF {
        2
    } else if u <= 0xFFFF {
        3
    } else {
        4
    }
}

/// The UTF-8 encoding of `s` with `c` appended.
pub proof fn lemma_encode_utf8_push(s: Seq<char>, c: char)
    ensures
        vstd::utf8::encode_utf8(s.push(c)) == vstd::utf8::encode_utf8(s) + vstd::utf8::encode_scalar(
            c as u32,
        ),
{
    lemma_encode_utf8_concat(s, seq![c]);
    assert(s.push(c) == s + seq![c]);
    assert(seq![c].drop_first() == Seq::<char>::empty());
    assert(vstd::utf8::encode_utf8(Seq::<char>::empty()) == Seq::<u8>::empty());
    assert(vstd::utf8::encode_utf8(seq![c]) == vstd::utf8::encode_scalar(c as u32) + Seq::<u8>::empty());
    assert(vstd::utf8::encode_scalar(c as u32) + Seq::<u8>::empty() == vstd::utf8::encode_scalar(
        c as u32,
    ));
}

/// Whether the UTF-8 encoding of `v` has at least `k` bytes.
pub fn byte_len_at_least(v: &[char], k: usize) -> (b: bool)
    ensures
        b == (vstd::utf8::encode_utf8(v@).len() >= k),
{
    if k == 0 {
        return true;
    }
    let mut sum: usize = 0;
    let mut i: usize = 0;
    while i < v.len()
        invariant
            i <= v@.len(),
            sum < k,
            sum == vstd::utf8::encode_utf8(v@.take(i as int)).len(),
        decreases v@.len() - i,
    {
        let w = utf8_width(v[i]);
        proof {
            lemma_encode_utf8_push(v@.take(i as int), v@[i as int]);
            assert(v@.take(i + 1) == v@.take(i as int).push(v@[i as int]));
        }
        if w >= k - sum {
            proof {
                lemma_encode_utf8_concat(v@.take(i + 1), v@.skip(i + 1));
                assert(v@.take(i + 1) + v@.skip(i + 1) == v@);
            }
            return true;
        }
        sum = sum + w;
        i = i + 1;
    }
    assert(v@.take(v@.len() as int) == v@);
    false
}

} // verus!

verus! {

/// The text between byte offsets `a` and `b` of the UTF-8 bytes `bytes`, as
/// `&s[a..b]` gives it; `None` where that slicing panics (offsets out of
/// order, out of range, or not on character boundaries).
pub open spec fn byte_slice_text(bytes: Seq<u8>, a: int, b: int) -> Option<Seq<char>> {
    if 0 <= a <= b <= bytes.len() && vstd::utf8::is_char_boundary(bytes, a)
        && vstd::utf8::is_char_boundary(bytes, b) {
        Some(vstd::utf8::decode_utf8(bytes.subrange(a, b)))
    } else {
        None
    }
}

/// `&s[a..b]` as an owned string, or `None` where that slicing would panic.
pub fn byte_slice(s: &str, a: usize, b: usize) -> (r: Option<String>)
    ensures
        r matches Some(t) ==> byte_slice_text(vstd::utf8::encode_utf8(s@), a as int, b as int) == Some(t@),
        r is None ==> byte_slice_text(vstd::utf8::encode_utf8(s@), a as int, b as int) is None,
{
    let bytes = s.as_bytes();
    let ghost rb = bytes@;
    proof {
        vstd::utf8::encode_utf8_valid_utf8(s@);
    }
    if !(a <= b && b <= bytes.len()) {
        return None;
    }
    if !(s.is_char_boundary(a) && s.is_char_boundary(b)) {
        return None;
    }
    let (_, rest) = s.split_at(a);
    proof {
        vstd::utf8::valid_utf8_split(rb, a as int);
        let tail = rb.subrange(a as int, rb.len() as int);
        assert(vstd::utf8::encode_utf8(rest@) == tail);
        if b - a == tail.len() {
            vstd::utf8::is_char_boundary_start_end_of_seq(tail);
        } else if b - a > 0 {
            vstd::utf8::is_char_boundary_iff_not_is_continuation_byte(tail, (b - a) as int);
            vstd::utf8::is_char_boundary_iff_not_is_continuation_byte(rb, b as int);
            assert(tail[(b - a) as int] == rb[b as int]);
        }
    }
    let (mid, _) = rest.split_at(b - a);
    proof {
        let tail = rb.subrange(a as int, rb.len() as int);
        assert(vstd::utf8::encode_utf8(mid@) == tail.subrange(0, (b - a) as int));
        assert(tail.subrange(0, (b - a) as int) == rb.subrange(a as int, b as int));
        vstd::utf8::encode_utf8_decode_utf8(mid@);
    }
    Some(mid.to_string())
}

/// The position of the first occurrence of `n` in `h` at or after `i`.
pub open spec fn first_occurrence_from(h: Seq<u8>, n: Seq<u8>, i: int) -> Option<int>
    decreases h.len() + 1 - i,
{
    if i < 0 || i + n.len() > h.len() {
        None
    } else if occurs_at(h, n, i) {
        Some(i)
    } else {
        first_occurrence_from(h, n, i + 1)
    }
}

/// The position of the first occurrence of `n` in `h`, as `str::find` gives it.
pub open spec fn first_occurrence(h: Seq<u8>, n: Seq<u8>) -> Option<int> {
    first_occurrence_from(h, n, 0)
}

/// Whether `n` occurs in `h` at position `i`.
fn bytes_match_at(h: &[u8], n: &[u8], i: usize) -> (b: bool)
    requires
        i + n@.len() <= h@.len(),
    ensures
        b == occurs_at(h@, n@, i as int),
{
    let hl = h.len();
    let mut k: usize = 0;
    while k < n.len()
        invariant
            k <= n@.len(),
            hl == h@.len(),
            i + n@.len() <= h@.len(),
            forall|t: int| 0 <= t < k ==> h@[i + t] == n@[t],
        decreases n@.len() - k,
    {
        if h[i + k] != n[k] {
            assert(h@.subrange(i as int, i + n@.len())[k as int] != n@[k as int]);
            return false;
        }
        k = k + 1;
    }
    assert(h@.subrange(i as int, i + n@.len()) == n@);
    true
}

/// The byte position of the first occurrence of the non-empty `n` in `h`.
pub fn find_bytes(h: &[u8], n: &[u8]) -> (r: Option<usize>)
    requires
        n@.len() > 0,
    ensures
        r matches Some(p) ==> first_occurrence(h@, n@) == Some(p as int),
        r is None ==> first_occurrence(h@, n@) is None,
        r matches Some(p) ==> p + n@.len() <= h@.len(),
{
    if n.len() > h.len() {
        return None;
    }
    let hl = h.len();
    let last = hl - n.len();
    let mut i: usize = 0;
    while i <= last
        invariant
            n@.len() > 0,
            hl == h@.len(),
            last + n@.len() == h@.len(),
            i <= last + 1,
            first_occurrence(h@, n@) == first_occurrence_from(h@, n@, i as int),
        decreases last + 1 - i,
    {
        if bytes_match_at(h, n, i) {
            return Some(i);
        }
        i = i + 1;
    }
    None
}

} // verus!

verus! {

/// What `str::to_lowercase` returns for a string with these characters.
pub uninterp spec fn lowercase_of(s: Seq<char>) -> Seq<char>;

/// `c` with an ASCII upper-case letter mapped to its lower-case letter, as
/// `char::to_ascii_lowercase` does.
pub open spec fn ascii_lower_char(c: char) -> char {
    if 'A' <= c <= 'Z' {
        ((c as u32) + 32) as char
    } else {
        c
    }
}

/// Every character of `s` mapped by [`ascii_lower_char`].
pub open spec fn ascii_lowercase(s: Seq<char>) -> Seq<char> {
    s.map_values(|c: char| ascii_lower_char(c))
}

/// `str::to_lowercase` from std: every character replaced by its Unicode
/// lowercase mapping. The mapping is Unicode's tables, so its result is only
/// named here, as a function of the input. For an all-ASCII text the Unicode
/// mapping is the ASCII one, one character for one: `A`-`Z` become `a`-`z`
/// and every other ASCII character is kept; that much is stated.
#[verifier::external_body]
pub(crate) fn to_lowercase(s: &str) -> (r: String)
    ensures
        r@ == lowercase_of(s@),
        vstd::utf8::is_ascii_chars(s@) ==> r@ == ascii_lowercase(s@),
{
    s.to_lowercase()
}

/// `trim_end(v)` as a vector of characters.
pub fn trim_end_chars(v: &[char]) -> (r: Vec<char>)
    ensures
        r@ == trim_end(v@),
{
    let n = v.len();
    let mut j = n;
    while j > 0 && is_whitespace(v[j - 1])
        invariant
            j <= n == v@.len(),
            forall|k: int| j <= k < n ==> is_ws(#[trigger] v@[k]),
        decreases j,
    {
        j = j - 1;
    }
    proof {
        lemma_trim_end_cut(v@, j as int);
        let u = v@.subrange(0, j as int);
        if u.len() > 0 {
            assert(u.last() == v@[j - 1]);
        }
    }
    let mut r: Vec<char> = Vec::new();
    let mut k: usize = 0;
    while k < j
        invariant
            k <= j <= n == v@.len(),
            r@ == v@.subrange(0, k as int),
        decreases j - k,
    {
        r.push(v[k]);
        assert(v@.subrange(0, k + 1) == v@.subrange(0, k as int).push(v@[k as int]));
        k = k + 1;
    }
    r
}

/// Trimming never lengthens a text.
pub proof fn lemma_trim_shorter(s: Seq<char>)
    ensures
        trim_start(s).len() <= s.len(),
        trim_end(s).len() <= s.len(),
        trim(s).len() <= s.len(),
    decreases s.len(),
{
    if s.len() > 0 {
        lemma_trim_shorter(s.drop_first());
        lemma_trim_shorter(s.drop_last());
    }
    lemma_trim_end_shorter(trim_start(s));
}

proof fn lemma_trim_end_shorter(s: Seq<char>)
    ensures
        trim_end(s).len() <= s.len(),
    decreases s.len(),
{
    if s.len() > 0 {
        lemma_trim_end_shorter(s.drop_last());
    }
}

/// Where the text left by [`trim_start`] begins in `s`.
pub proof fn lemma_trim_start_offset(s: Seq<char>) -> (k: int)
    ensures
        0 <= k <= s.len(),
        trim_start(s) == s.skip(k),
    decreases s.len(),
{
    if s.len() > 0 && is_ws(s[0]) {
        let j = lemma_trim_start_offset(s.drop_first());
        assert(s.drop_first().skip(j) == s.skip(j + 1));
        j + 1
    } else {
        assert(s.skip(0) == s);
        0
    }
}

/// How long the text left by [`trim_end`] is: it is a prefix of `s`.
pub proof fn lemma_trim_end_length(s: Seq<char>) -> (k: int)
    ensures
        0 <= k <= s.len(),
        trim_end(s) == s.take(k),
    decreases s.len(),
{
    if s.len() > 0 && is_ws(s.last()) {
        let j = lemma_trim_end_length(s.drop_last());
        assert(s.drop_last().take(j) == s.take(j));
        j
    } else {
        assert(s.take(s.len() as int) == s);
        s.len() as int
    }
}

/// A text occurring inside a text that occurs in `s` occurs in `s`.
pub proof fn lemma_occurs_in_trans<T>(s: Seq<T>, q: Seq<T>, p: Seq<T>)
    requires
        occurs_in(s, q),
        occurs_in(q, p),
    ensures
        occurs_in(s, p),
{
    let j = choose|j: int| occurs_at(s, q, j);
    let i = choose|i: int| occurs_at(q, p, i);
    assert(s.subrange(j + i, j + i + p.len()) == q.subrange(i, i + p.len()));
    assert(occurs_at(s, p, j + i));
}

/// Trimming leaves a piece of the text: `trim(s)` occurs in `s`.
pub proof fn lemma_trim_occurs(s: Seq<char>)
    ensures
        occurs_in(s, trim(s)),
{
    let a = lemma_trim_start_offset(s);
    let b = lemma_trim_end_length(trim_start(s));
    assert(trim(s) == s.subrange(a, a + b));
    assert(occurs_at(s, trim(s), a));
}

/// Every text occurs in itself.
pub proof fn lemma_occurs_in_self<T>(s: Seq<T>)
    ensures
        occurs_in(s, s),
{
    assert(s.subrange(0, s.len() as int) == s);
    assert(occurs_at(s, s, 0));
}

/// A non-empty text has a non-empty UTF-8 encoding.
pub proof fn lemma_encode_nonempty(s: Seq<char>)
    requires
        s.len() > 0,
    ensures
        vstd::utf8::encode_utf8(s).len() > 0,
{
}

} // verus!
