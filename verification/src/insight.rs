//! Reading the model's insight answers.

use vstd::prelude::*;
use vstd::utf8::{encode_utf8, is_ascii_chars};

use crate::chat::message;
use crate::models::{Message, Note};
use crate::prompts::{insight_prompt_text, PromptBuilder};
use crate::text::{
    ascii_lowercase, byte_slice, byte_slice_text, chars_of, find_bytes, first_occurrence, is_ws,
    lemma_encode_nonempty, occurs_at, trim_start,
    lemma_trim_shorter, lowercase_of, string_of, to_lowercase, trim, trim_chars, trim_end,
    trim_end_chars,
};

verus! {

broadcast use vstd::string::group_string_axioms;

/// Titles longer than this many characters are considered implausible and cut.
pub const TITLE_HARD_CAP: usize = 80;

/// Length, in characters, an implausible title is first cut to.
pub const TITLE_TRUNCATE_TO: usize = 60;

/// The title used when the answer carries none.
pub open spec fn fallback_title() -> Seq<char> {
    "Pattern detected"@
}

/// The label that introduces the title, as searched for in the lowercased
/// answer.
pub open spec fn title_label() -> Seq<u8> {
    encode_utf8("title:"@)
}

/// The label that introduces the insight, as searched for in the lowercased
/// answer.
pub open spec fn insight_label() -> Seq<u8> {
    encode_utf8("insight:"@)
}

/// Characters at which a cut title may end.
pub open spec fn ends_sentence(c: char) -> bool {
    c == '.' || c == '!' || c == '?'
}

/// The position of the last sentence-ending character of `t`.
pub open spec fn last_sentence_end(t: Seq<char>) -> Option<int>
    decreases t.len(),
{
    if t.len() == 0 {
        None
    } else if ends_sentence(t.last()) {
        Some(t.len() - 1)
    } else {
        last_sentence_end(t.drop_last())
    }
}

/// A title kept as it is when it has at most [`TITLE_HARD_CAP`] characters;
/// otherwise its first [`TITLE_TRUNCATE_TO`] characters, ended at the last
/// sentence end among them (trimmed) when there is one, else with trailing
/// whitespace removed.
pub open spec fn truncated_title(raw: Seq<char>) -> Seq<char> {
    if raw.len() <= TITLE_HARD_CAP {
        raw
    } else {
        let t = raw.take(TITLE_TRUNCATE_TO as int);
        match last_sentence_end(t) {
            Some(p) => {
                let candidate = trim(t.take(p + 1));
                if candidate.len() > 0 {
                    candidate
                } else {
                    trim_end(t)
                }
            },
            None => trim_end(t),
        }
    }
}

/// The title and body read from the answer `r`, or `None` where reading it
/// panics.
///
/// Blank answers give the fallback title and an empty body. Otherwise the
/// labels "title:" and "insight:" are looked up, case-insensitively, in the
/// lowercased answer; the byte offsets found there cut the answer itself. With
/// both labels, the title is the text after "title:" and the body the text
/// after "insight:", each up to the other label or the end; with only a title
/// label the body is the whole answer; with only an insight label the title
/// is the fallback; with neither, the fallback title and the whole answer.
/// Titles and bodies are trimmed, titles then cut by [`truncated_title`].
/// Reading panics exactly when an offset taken from the lowercased answer is
/// not a character boundary of the answer, or lies beyond it.
pub open spec fn insight_parse(r: Seq<char>) -> Option<(Seq<char>, Seq<char>)> {
    insight_parse_with(r, lowercase_of(r))
}

/// [`insight_parse`] with the lowercased answer given as `lowered`: the labels
/// are looked up in `lowered`, and the offsets found there cut `r`.
pub open spec fn insight_parse_with(r: Seq<char>, lowered: Seq<char>) -> Option<(Seq<char>, Seq<char>)> {
    if trim(r).len() == 0 {
        Some((fallback_title(), Seq::empty()))
    } else {
        let rb = encode_utf8(r);
        let lb = encode_utf8(lowered);
        let tl = title_label().len() as int;
        let il = insight_label().len() as int;
        let end = rb.len() as int;
        match (first_occurrence(lb, title_label()), first_occurrence(lb, insight_label())) {
            (Some(tp), Some(ip)) => if tp < ip {
                match (byte_slice_text(rb, tp + tl, ip), byte_slice_text(rb, ip + il, end)) {
                    (Some(t), Some(b)) => Some((truncated_title(trim(t)), trim(b))),
                    _ => None,
                }
            } else {
                match (byte_slice_text(rb, ip + il, tp), byte_slice_text(rb, tp + tl, end)) {
                    (Some(b), Some(t)) => Some((truncated_title(trim(t)), trim(b))),
                    _ => None,
                }
            },
            (Some(tp), None) => match byte_slice_text(rb, tp + tl, end) {
                Some(t) => Some((truncated_title(trim(t)), r)),
                None => None,
            },
            (None, Some(ip)) => match byte_slice_text(rb, ip + il, end) {
                Some(b) => Some((fallback_title(), trim(b))),
                None => None,
            },
            (None, None) => Some((fallback_title(), r)),
        }
    }
}

/// Cut titles are never longer than [`TITLE_HARD_CAP`] characters.
pub proof fn lemma_truncated_title_short(raw: Seq<char>)
    ensures
        truncated_title(raw).len() <= TITLE_HARD_CAP,
{
    if raw.len() > TITLE_HARD_CAP {
        let t = raw.take(TITLE_TRUNCATE_TO as int);
        lemma_trim_shorter(t);
        match last_sentence_end(t) {
            Some(p) => {
                lemma_last_sentence_end_in(t);
                lemma_trim_shorter(t.take(p + 1));
            },
            None => {},
        }
    }
}

proof fn lemma_last_sentence_end_in(t: Seq<char>)
    ensures
        last_sentence_end(t) matches Some(p) ==> 0 <= p < t.len() && ends_sentence(t[p]),
    decreases t.len(),
{
    if t.len() > 0 && !ends_sentence(t.last()) {
        lemma_last_sentence_end_in(t.drop_last());
    }
}

/// The position of the last sentence-ending character of `t`.
fn find_last_sentence_end(t: &[char]) -> (r: Option<usize>)
    ensures
        r matches Some(p) ==> last_sentence_end(t@) == Some(p as int),
        r is None ==> last_sentence_end(t@) is None,
{
    let mut j = t.len();
    assert(t@.take(j as int) == t@);
    while j > 0
        invariant
            j <= t@.len(),
            last_sentence_end(t@) == last_sentence_end(t@.take(j as int)),
        decreases j,
    {
        let c = t[j - 1];
        assert(t@.take(j as int).last() == c);
        assert(t@.take(j as int).drop_last() == t@.take(j - 1));
        if c == '.' || c == '!' || c == '?' {
            return Some(j - 1);
        }
        j = j - 1;
    }
    None
}

/// Cuts an implausibly long title, given as characters, as
/// [`truncated_title`] says.
fn truncate_title_chars(raw: &[char]) -> (title: Vec<char>)
    ensures
        title@ == truncated_title(raw@),
{
    if raw.len() <= TITLE_HARD_CAP {
        let mut same: Vec<char> = Vec::new();
        let mut k: usize = 0;
        while k < raw.len()
            invariant
                k <= raw@.len(),
                same@ == raw@.take(k as int),
            decreases raw@.len() - k,
        {
            same.push(raw[k]);
            assert(raw@.take(k + 1) == raw@.take(k as int).push(raw@[k as int]));
            k = k + 1;
        }
        assert(raw@.take(raw@.len() as int) == raw@);
        return same;
    }
    let mut cut: Vec<char> = Vec::new();
    let mut k: usize = 0;
    while k < TITLE_TRUNCATE_TO
        invariant
            k <= TITLE_TRUNCATE_TO < raw@.len(),
            cut@ == raw@.take(k as int),
        decreases TITLE_TRUNCATE_TO - k,
    {
        cut.push(raw[k]);
        assert(raw@.take(k + 1) == raw@.take(k as int).push(raw@[k as int]));
        k = k + 1;
    }
    if let Some(pos) = find_last_sentence_end(&cut) {
        proof {
            lemma_last_sentence_end_in(cut@);
        }
        let mut head: Vec<char> = Vec::new();
        let mut k: usize = 0;
        while k <= pos
            invariant
                k <= pos + 1 <= cut@.len(),
                cut@.len() == TITLE_TRUNCATE_TO,
                head@ == cut@.take(k as int),
            decreases pos + 1 - k,
        {
            head.push(cut[k]);
            assert(cut@.take(k + 1) == cut@.take(k as int).push(cut@[k as int]));
            k = k + 1;
        }
        let candidate = trim_chars(&head);
        if candidate.len() > 0 {
            return candidate;
        }
    }
    trim_end_chars(&cut)
}

/// Cuts an implausibly long title: kept when it has at most
/// [`TITLE_HARD_CAP`] characters, else cut to [`TITLE_TRUNCATE_TO`]
/// characters and ended at the last sentence end among them, as
/// [`truncated_title`] says. The result never exceeds [`TITLE_HARD_CAP`]
/// characters.
pub fn truncate_title(raw: &str) -> (title: String)
    ensures
        title@ == truncated_title(raw@),
        title@.len() <= TITLE_HARD_CAP,
{
    proof {
        lemma_truncated_title_short(raw@);
    }
    let c = chars_of(raw);
    let cut = truncate_title_chars(&c);
    string_of(&cut)
}

/// `trim(s)` as an owned string.
fn trimmed_string(s: &str) -> (r: String)
    ensures
        r@ == trim(s@),
{
    let c = chars_of(s);
    let t = trim_chars(&c);
    string_of(&t)
}

/// `truncated_title(trim(s))` as an owned string.
fn title_from(s: &str) -> (r: String)
    ensures
        r@ == truncated_title(trim(s@)),
{
    let c = chars_of(s);
    let t = trim_chars(&c);
    let cut = truncate_title_chars(&t);
    string_of(&cut)
}

/// The title and body of an answer, or `None` where reading it as
/// [`insight_parse`] describes would panic.
fn insight_parts(response: &str) -> (r: Option<(String, String)>)
    ensures
        r matches Some(p) ==> insight_parse(response@) == Some((p.0@, p.1@)),
        r is None ==> insight_parse(response@) is None,
        is_ascii_chars(response@) ==> insight_parse(response@) == insight_parse_with(
            response@,
            ascii_lowercase(response@),
        ),
{
    let lower = to_lowercase(response);
    insight_parts_of(response, lower.as_str())
}

/// The title and body of the answer `response`, with the labels looked up in
/// `lowered` (the lowercased answer), as [`insight_parse_with`] describes;
/// `None` where cutting `response` at the offsets found would panic.
pub fn insight_parts_of(response: &str, lowered: &str) -> (r: Option<(String, String)>)
    ensures
        r matches Some(p) ==> insight_parse_with(response@, lowered@) == Some((p.0@, p.1@)),
        r is None <==> insight_parse_with(response@, lowered@) is None,
{
    let all = chars_of(response);
    let blank = trim_chars(&all);
    if blank.len() == 0 {
        return Some(("Pattern detected".to_string(), String::new()));
    }
    let lb = lowered.as_bytes();
    let lb_len = lb.len();
    assert(lb@.len() == lb_len);
    let end = response.as_bytes().len();
    let tl = "title:".as_bytes();
    let il = "insight:".as_bytes();
    proof {
        reveal_strlit("title:");
        reveal_strlit("insight:");
        lemma_encode_nonempty("title:"@);
        lemma_encode_nonempty("insight:"@);
    }
    let title_pos = find_bytes(lb, tl);
    let insight_pos = find_bytes(lb, il);
    match (title_pos, insight_pos) {
        (Some(tp), Some(ip)) => {
            if tp < ip {
                let t = byte_slice(response, tp + tl.len(), ip);
                let b = byte_slice(response, ip + il.len(), end);
                match (t, b) {
                    (Some(t), Some(b)) => Some((title_from(t.as_str()), trimmed_string(b.as_str()))),
                    _ => None,
                }
            } else {
                let b = byte_slice(response, ip + il.len(), tp);
                let t = byte_slice(response, tp + tl.len(), end);
                match (b, t) {
                    (Some(b), Some(t)) => Some((title_from(t.as_str()), trimmed_string(b.as_str()))),
                    _ => None,
                }
            }
        },
        (Some(tp), None) => match byte_slice(response, tp + tl.len(), end) {
            Some(t) => Some((title_from(t.as_str()), response.to_string())),
            None => None,
        },
        (None, Some(ip)) => match byte_slice(response, ip + il.len(), end) {
            Some(b) => Some(("Pattern detected".to_string(), trimmed_string(b.as_str()))),
            None => None,
        },
        (None, None) => Some(("Pattern detected".to_string(), response.to_string())),
    }
}

/// Reads a titled insight from the model's answer, as [`insight_parse`]
/// describes: labels are found case-insensitively, titles are trimmed and cut
/// to at most [`TITLE_HARD_CAP`] characters, and answers without a title
/// label get the title "Pattern detected".
pub fn parse_insight_response(response: &str) -> (r: (String, String))
    requires
        insight_parse(response@) is Some,
    ensures
        insight_parse(response@) == Some((r.0@, r.1@)),
        r.0@.len() <= TITLE_HARD_CAP,
        is_ascii_chars(response@) ==> insight_parse_with(response@, ascii_lowercase(response@)) == Some(
            (r.0@, r.1@),
        ),
{
    proof {
        reveal_strlit("Pattern detected");
        let (t, b) = insight_parse(response@)->0;
        lemma_truncated_title_short(trim(t));
        lemma_insight_title_short(response@);
    }
    match insight_parts(response) {
        Some(p) => p,
        None => {
            assert(false);
            (String::new(), String::new())
        },
    }
}

/// Reads a titled insight from the model's answer, or returns `None` for the
/// answers on which [`parse_insight_response`] would panic (an offset found in
/// the lowercased answer that does not fall on a character boundary of the
/// answer itself).
pub fn try_parse_insight_response(response: &str) -> (r: Option<(String, String)>)
    ensures
        r is None <==> insight_parse(response@) is None,
        r matches Some(p) ==> insight_parse(response@) == Some((p.0@, p.1@)),
        is_ascii_chars(response@) ==> (r is None <==> insight_parse_with(
            response@,
            ascii_lowercase(response@),
        ) is None),
        is_ascii_chars(response@) ==> (r matches Some(p) ==> insight_parse_with(
            response@,
            ascii_lowercase(response@),
        ) == Some((p.0@, p.1@))),
{
    if insight_parts(response).is_some() {
        Some(parse_insight_response(response))
    } else {
        None
    }
}

/// Every title read from an answer has at most [`TITLE_HARD_CAP`] characters.
pub proof fn lemma_insight_title_short(r: Seq<char>)
    ensures
        insight_parse(r) matches Some(p) ==> p.0.len() <= TITLE_HARD_CAP,
{
    reveal_strlit("Pattern detected");
    if insight_parse(r) is Some {
        let parsed = insight_parse(r)->0;
        let title = parsed.0;
        if title != fallback_title() {
            assert(exists|t: Seq<char>| title == truncated_title(t));
            let t = choose|t: Seq<char>| title == truncated_title(t);
            lemma_truncated_title_short(t);
        }
    }
}

/// The single user message asking for an insight about a group of notes.
pub fn insight_messages(notes: &[Note]) -> (msgs: Vec<Message>)
    ensures
        msgs@.len() == 1,
        msgs@[0].role@ == "user"@,
        msgs@[0].content@ == insight_prompt_text(notes@),
{
    let prompt = PromptBuilder::insight_prompt(notes);
    let mut msgs: Vec<Message> = Vec::new();
    msgs.push(message("user", prompt));
    msgs
}

} // verus!

verus! {

/// An answer in the format the insight prompt asks for: a `TITLE:` line and
/// an `INSIGHT:` line.
pub open spec fn reply_text(title: Seq<char>, body: Seq<char>) -> Seq<char> {
    "TITLE: "@ + title + "\nINSIGHT: "@ + body
}

/// ASCII characters have one-byte encodings that tell them apart.
proof fn lemma_ascii_bytes_differ(c: char, d: char)
    requires
        c as u32 <= 127,
        d as u32 <= 127,
        c != d,
    ensures
        c as u8 != d as u8,
{
}

/// Lowercasing ASCII text keeps it ASCII, and keeps its length.
proof fn lemma_ascii_lowercase_ascii(s: Seq<char>)
    requires
        is_ascii_chars(s),
    ensures
        ascii_lowercase(s).len() == s.len(),
        is_ascii_chars(ascii_lowercase(s)),
{
    assert forall|i: int| 0 <= i < ascii_lowercase(s).len() implies '\0' <= #[trigger] ascii_lowercase(s)[i]
        <= '\u{7f}' by {
        assert(ascii_lowercase(s)[i] == crate::text::ascii_lower_char(s[i]));
    }
}

/// Lowercasing distributes over concatenation.
proof fn lemma_ascii_lowercase_concat(a: Seq<char>, b: Seq<char>)
    ensures
        ascii_lowercase(a + b) == ascii_lowercase(a) + ascii_lowercase(b),
{
    assert(ascii_lowercase(a + b) =~= ascii_lowercase(a) + ascii_lowercase(b));
}

/// In ASCII text, an occurrence of the encoding is an occurrence of the text.
proof fn lemma_ascii_occurs(s: Seq<char>, p: Seq<char>, i: int)
    requires
        is_ascii_chars(s),
        is_ascii_chars(p),
    ensures
        occurs_at(encode_utf8(s), encode_utf8(p), i) <==> occurs_at(s, p, i),
{
    vstd::utf8::is_ascii_chars_encode_utf8(s);
    vstd::utf8::is_ascii_chars_encode_utf8(p);
    let es = encode_utf8(s);
    let ep = encode_utf8(p);
    if occurs_at(s, p, i) {
        assert forall|k: int| 0 <= k < p.len() implies es.subrange(i, i + p.len())[k] == ep[k] by {
            assert(s.subrange(i, i + p.len())[k] == p[k]);
            assert(s[i + k] == p[k]);
            assert(es[i + k] == s[i + k] as u8);
            assert(ep[k] == p[k] as u8);
        }
        assert(es.subrange(i, i + p.len()) =~= ep);
    }
    if occurs_at(es, ep, i) {
        assert forall|k: int| 0 <= k < p.len() implies s.subrange(i, i + p.len())[k] == p[k] by {
            assert(es.subrange(i, i + p.len())[k] == ep[k]);
            assert(es[i + k] == s[i + k] as u8);
            assert(ep[k] == p[k] as u8);
            if s[i + k] != p[k] {
                lemma_ascii_bytes_differ(s[i + k], p[k]);
            }
        }
        assert(s.subrange(i, i + p.len()) =~= p);
    }
}

/// The first occurrence from `i` is at `j` when it occurs there and nowhere
/// in between.
proof fn lemma_first_occurrence_at(h: Seq<u8>, n: Seq<u8>, i: int, j: int)
    requires
        0 <= i <= j,
        occurs_at(h, n, j),
        forall|k: int| i <= k < j ==> !occurs_at(h, n, k),
    ensures
        crate::text::first_occurrence_from(h, n, i) == Some(j),
    decreases j - i,
{
    if i < j {
        lemma_first_occurrence_at(h, n, i + 1, j);
    }
}

/// Cutting ASCII text at any two offsets gives the characters in between.
proof fn lemma_ascii_slice(r: Seq<char>, a: int, b: int)
    requires
        is_ascii_chars(r),
        0 <= a <= b <= r.len(),
    ensures
        byte_slice_text(encode_utf8(r), a, b) == Some(r.subrange(a, b)),
{
    let e = encode_utf8(r);
    vstd::utf8::is_ascii_chars_encode_utf8(r);
    vstd::utf8::encode_utf8_valid_utf8(r);
    vstd::utf8::is_char_boundary_start_end_of_seq(e);
    if a < e.len() {
        vstd::utf8::is_char_boundary_iff_is_leading_byte(e, a);
        assert(e[a] == r[a] as u8);
    }
    if b < e.len() {
        vstd::utf8::is_char_boundary_iff_is_leading_byte(e, b);
        assert(e[b] == r[b] as u8);
    }
    let sub = r.subrange(a, b);
    assert(is_ascii_chars(sub)) by {
        assert forall|k: int| 0 <= k < sub.len() implies '\0' <= #[trigger] sub[k] <= '\u{7f}' by {
            assert(sub[k] == r[a + k]);
        }
    }
    vstd::utf8::is_ascii_chars_encode_utf8(sub);
    assert forall|k: int| 0 <= k < b - a implies encode_utf8(sub)[k] == e.subrange(a, b)[k] by {
        assert(sub[k] == r[a + k]);
        assert(encode_utf8(sub)[k] == sub[k] as u8);
        assert(e[a + k] == r[a + k] as u8);
    }
    assert(encode_utf8(sub) =~= e.subrange(a, b));
    vstd::utf8::encode_utf8_decode_utf8(sub);
}

/// `trim_start` of a text followed by more text.
proof fn lemma_trim_start_append(s: Seq<char>, x: Seq<char>)
    ensures
        trim_start(s + x) == if trim_start(s).len() > 0 {
            trim_start(s) + x
        } else {
            trim_start(x)
        },
    decreases s.len(),
{
    if s.len() == 0 {
        assert(s + x =~= x);
    } else {
        assert((s + x)[0] == s[0]);
        if is_ws(s[0]) {
            assert((s + x).drop_first() =~= s.drop_first() + x);
            lemma_trim_start_append(s.drop_first(), x);
        }
    }
}

/// Whitespace on both sides of a trimmed text is trimmed away.
proof fn lemma_trim_padded(t: Seq<char>, l: char, r: Seq<char>)
    requires
        trim(t) == t,
        is_ws(l),
        forall|k: int| 0 <= k < r.len() ==> is_ws(#[trigger] r[k]),
    ensures
        trim(seq![l] + t + r) == t,
    decreases r.len(),
{
    if r.len() > 0 {
        lemma_trim_padded(t, l, r.drop_last());
        let s = seq![l] + t + r;
        assert(s.last() == r.last());
        assert(s.drop_last() =~= seq![l] + t + r.drop_last());
        lemma_trim_start_append(seq![l] + t + r.drop_last(), seq![r.last()]);
        assert(s =~= (seq![l] + t + r.drop_last()) + seq![r.last()]);
        let u = seq![l] + t + r.drop_last();
        let c = r[r.len() - 1];
        assert(is_ws(c));
        if trim_start(u).len() > 0 {
            assert((trim_start(u) + seq![r.last()]).drop_last() =~= trim_start(u));
        } else {
            assert(seq![c].drop_first() =~= Seq::<char>::empty());
            assert(seq![c][0] == c);
            assert(trim_start(seq![c]) == trim_start(seq![c].drop_first()));
            assert(trim(u) == Seq::<char>::empty());
        }
    } else {
        let s = seq![l] + t;
        assert(s.drop_first() =~= t);
        assert(s =~= seq![l] + t + r);
    }
}

/// The answer in the format the insight prompt asks for is read back as the
/// title and body that were written, whenever the title is a trimmed ASCII
/// text of at most [`TITLE_HARD_CAP`] characters that does not contain
/// "insight:" in any letter case, and the body a trimmed ASCII text.
pub proof fn law_reply_format_reads_back(title: Seq<char>, body: Seq<char>)
    requires
        is_ascii_chars(title),
        is_ascii_chars(body),
        trim(title) == title,
        trim(body) == body,
        title.len() <= TITLE_HARD_CAP,
        !crate::text::occurs_in(ascii_lowercase(title), "insight:"@),
    ensures
        insight_parse_with(reply_text(title, body), ascii_lowercase(reply_text(title, body))) == Some(
            (title, body),
        ),
{
    reveal_strlit("TITLE: ");
    reveal_strlit("\nINSIGHT: ");
    reveal_strlit("title:");
    reveal_strlit("insight:");
    let p1 = "TITLE: "@;
    let p2 = "\nINSIGHT: "@;
    let ins = "insight:"@;
    let tit = "title:"@;
    let n = title.len() as int;
    let r = reply_text(title, body);
    let low = ascii_lowercase(r);
    let lt = ascii_lowercase(title);
    assert(r =~= p1 + title + p2 + body);
    assert(r.len() == n + 17 + body.len());
    assert forall|k: int| 0 <= k < 7 implies r[k] == p1[k] by {}
    assert forall|k: int| 0 <= k < n implies #[trigger] r[7 + k] == title[k] by {}
    assert forall|k: int| 0 <= k < 10 implies r[7 + n + k] == p2[k] by {}
    assert forall|k: int| 0 <= k < body.len() implies #[trigger] r[17 + n + k] == body[k] by {}
    // The whole answer is ASCII.
    assert(is_ascii_chars(r)) by {
        assert forall|k: int| 0 <= k < r.len() implies '\0' <= #[trigger] r[k] <= '\u{7f}' by {
            if k < 7 {
            } else if k < 7 + n {
                assert(r[7 + (k - 7)] == title[k - 7]);
            } else if k < 17 + n {
            } else {
                assert(r[17 + n + (k - 17 - n)] == body[k - 17 - n]);
            }
        }
    }
    lemma_ascii_lowercase_ascii(r);
    assert(is_ascii_chars(tit));
    assert(is_ascii_chars(ins));
    vstd::utf8::is_ascii_chars_encode_utf8(r);
    vstd::utf8::is_ascii_chars_encode_utf8(low);
    vstd::utf8::is_ascii_chars_encode_utf8(tit);
    vstd::utf8::is_ascii_chars_encode_utf8(ins);
    assert(title_label().len() == 6);
    assert(insight_label().len() == 8);
    let rb = encode_utf8(r);
    let lb = encode_utf8(low);
    // "title:" opens the lowercased answer.
    assert(low.subrange(0, 6) =~= tit);
    lemma_ascii_occurs(low, tit, 0);
    assert(first_occurrence(lb, title_label()) == Some(0int));
    // "insight:" first occurs right after the title line.
    let ip = n + 8;
    assert forall|k: int| 0 <= k < 8 implies low[ip + k] == ins[k] by {
        assert(r[7 + n + (k + 1)] == p2[k + 1]);
    }
    assert(low.subrange(ip, ip + 8) =~= ins);
    assert forall|k: int| 0 <= k < ip implies !occurs_at(low, ins, k) by {
        if occurs_at(low, ins, k) {
            let sub = low.subrange(k, k + 8);
            assert(sub[0] == low[k]);
            if k < 7 {
                if k == 1 {
                    assert(sub[1] == low[2]);
                }
            } else if k < 7 + n {
                if k + 8 <= 7 + n {
                    assert forall|j: int| 0 <= j < 8 implies lt.subrange(k - 7, k + 1)[j] == ins[j] by {
                        assert(sub[j] == low[k + j]);
                        assert(r[7 + (k - 7 + j)] == title[k - 7 + j]);
                    }
                    assert(lt.subrange(k - 7, k + 1) =~= ins);
                    assert(occurs_at(lt, ins, k - 7));
                } else {
                    let j = 7 + n - k;
                    assert(sub[j] == low[7 + n]);
                    assert(r[7 + n + 0] == p2[0]);
                }
            } else {
                assert(r[7 + n + 0] == p2[0]);
            }
        }
    }
    assert forall|k: int| 0 <= k < ip implies !occurs_at(lb, insight_label(), k) by {
        lemma_ascii_occurs(low, ins, k);
    }
    lemma_ascii_occurs(low, ins, ip);
    lemma_first_occurrence_at(lb, insight_label(), 0, ip);
    // The two cuts of the answer itself.
    lemma_ascii_slice(r, 6, ip);
    lemma_ascii_slice(r, ip + 8, r.len() as int);
    assert(r.subrange(6, ip) =~= seq![' '] + title + seq!['\n']);
    assert(r.subrange(ip + 8, r.len() as int) =~= seq![' '] + body + Seq::<char>::empty());
    lemma_trim_padded(title, ' ', seq!['\n']);
    lemma_trim_padded(body, ' ', Seq::<char>::empty());
    // The answer is not blank: it starts with 'T'.
    lemma_trim_end_keeps_first(r);
    assert(trim_start(r) == r);
}

/// A text that starts with a non-whitespace character keeps it through
/// `trim_end`.
proof fn lemma_trim_end_keeps_first(s: Seq<char>)
    requires
        s.len() > 0,
        !is_ws(s[0]),
    ensures
        trim_end(s).len() > 0,
    decreases s.len(),
{
    if s.len() > 1 && is_ws(s.last()) {
        assert(s.drop_last()[0] == s[0]);
        lemma_trim_end_keeps_first(s.drop_last());
    }
}

} // verus!
