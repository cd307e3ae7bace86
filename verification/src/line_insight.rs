//! The line-labelled insight format used by the scheduled clustering pass:
//! a prompt that may carry a time-of-day hint, and an answer read line by
//! line, taking the first `TITLE:` line and the first `INSIGHT:` line.

use vstd::prelude::*;
use vstd::string::StringExecFns;

use crate::parse::{char_lists_are, lines, lines_of};
use crate::text::{chars_of, has_prefix, join, starts_with_chars, string_of, trim, trim_chars};

verus! {

broadcast use vstd::string::group_string_axioms;

/// A note of the group as the prompt quotes it: `[<thought_at>] <content>`,
/// for a pair `(content, thought_at)`.
pub open spec fn dated_line(n: (String, String)) -> Seq<char> {
    "["@ + n.1@ + "] "@ + n.0@
}

/// The quoted lines of `notes`, in order.
pub open spec fn dated_lines(notes: Seq<(String, String)>) -> Seq<Seq<char>> {
    notes.map_values(|n: (String, String)| dated_line(n))
}

/// The fixed closing of the prompt.
pub open spec fn cluster_prompt_tail() -> Seq<char> {
    "\n\nGenerate a brief, gentle insight about what these notes reveal. \
    Keep it to 2-3 sentences. Be observational, not prescriptive. \
    Also suggest a short title (5 words max). \
    Format your response as:\nTITLE: <title>\nINSIGHT: <insight>"@
}

/// The prompt for a group of notes, with `hint` right after the opening
/// sentence and the notes one per line.
pub open spec fn cluster_prompt_text(notes: Seq<(String, String)>, hint: Seq<char>) -> Seq<char> {
    "These are a group of semantically related personal notes from a user:"@ + hint + "\n\n"@
        + join(dated_lines(notes), "\n"@) + cluster_prompt_tail()
}

/// The first of `ls` that starts with `label`.
pub open spec fn first_labelled(ls: Seq<Seq<char>>, label: Seq<char>) -> Option<Seq<char>>
    decreases ls.len(),
{
    if ls.len() == 0 {
        None
    } else if has_prefix(ls[0], label) {
        Some(ls[0])
    } else {
        first_labelled(ls.drop_first(), label)
    }
}

/// `s` with every occurrence of `pat` removed, matches taken left to right
/// without overlap, as `str::replace(pat, "")` does.
pub open spec fn remove_all(s: Seq<char>, pat: Seq<char>) -> Seq<char>
    decreases s.len(),
{
    if pat.len() == 0 || s.len() < pat.len() {
        s
    } else if s.take(pat.len() as int) == pat {
        remove_all(s.skip(pat.len() as int), pat)
    } else {
        seq![s[0]] + remove_all(s.skip(1), pat)
    }
}

/// The title read from an answer: the first line starting with `TITLE:`,
/// with the label removed and trimmed, else "Pattern detected".
pub open spec fn line_title(response: Seq<char>) -> Seq<char> {
    match first_labelled(lines_of(response), "TITLE:"@) {
        Some(l) => trim(remove_all(l, "TITLE:"@)),
        None => "Pattern detected"@,
    }
}

/// The body read from an answer: the first line starting with `INSIGHT:`,
/// with the label removed and trimmed, else the whole answer.
pub open spec fn line_body(response: Seq<char>) -> Seq<char> {
    match first_labelled(lines_of(response), "INSIGHT:"@) {
        Some(l) => trim(remove_all(l, "INSIGHT:"@)),
        None => response,
    }
}

/// The prompt for a group of notes, given as `(content, thought_at)` pairs,
/// with the time-of-day hint `temporal_hint` (empty when there is none).
pub fn cluster_insight_prompt(notes: &[(String, String)], temporal_hint: &str) -> (prompt: String)
    ensures
        prompt@ == cluster_prompt_text(notes@, temporal_hint@),
{
    let ghost parts = dated_lines(notes@);
    let mut block = String::new();
    let mut i: usize = 0;
    while i < notes.len()
        invariant
            i <= notes@.len(),
            parts == dated_lines(notes@),
            block@ == join(parts.take(i as int), "\n"@),
        decreases notes@.len() - i,
    {
        let mut line = "[".to_string();
        line.append(notes[i].1.as_str());
        line.append("] ");
        line.append(notes[i].0.as_str());
        proof {
            assert(parts.take(i + 1).drop_last() == parts.take(i as int));
            assert(parts.take(i + 1).last() == line@);
            if i == 0 {
                assert(parts.take(1)[0] == line@);
            }
        }
        if i > 0 {
            block.append("\n");
        }
        block.append(line.as_str());
        i = i + 1;
    }
    assert(parts.take(notes@.len() as int) == parts);
    let mut prompt = "These are a group of semantically related personal notes from a user:".to_string();
    prompt.append(temporal_hint);
    prompt.append("\n\n");
    prompt.append(block.as_str());
    prompt.append("\n\nGenerate a brief, gentle insight about what these notes reveal. \
        Keep it to 2-3 sentences. Be observational, not prescriptive. \
        Also suggest a short title (5 words max). \
        Format your response as:\nTITLE: <title>\nINSIGHT: <insight>");
    prompt
}

/// The index of the first of `ls` that starts with `label`.
fn first_labelled_index(ls: &Vec<Vec<char>>, label: &[char]) -> (r: Option<usize>)
    ensures
        match r {
            Some(k) => k < ls@.len() && first_labelled(views(ls@), label@) == Some(ls@[k as int]@),
            None => first_labelled(views(ls@), label@) is None,
        },
{
    let ghost all = views(ls@);
    assert(all.skip(0) == all);
    let mut k: usize = 0;
    while k < ls.len()
        invariant
            k <= ls@.len(),
            all == views(ls@),
            first_labelled(all, label@) == first_labelled(all.skip(k as int), label@),
        decreases ls@.len() - k,
    {
        let ghost rest = all.skip(k as int);
        assert(rest[0] == ls@[k as int]@);
        if starts_with_chars(ls[k].as_slice(), label) {
            return Some(k);
        }
        assert(rest.drop_first() == all.skip(k + 1));
        k = k + 1;
    }
    assert(all.skip(ls@.len() as int).len() == 0);
    None
}

/// The character views of `ls`.
pub open spec fn views(ls: Seq<Vec<char>>) -> Seq<Seq<char>> {
    ls.map_values(|l: Vec<char>| l@)
}

/// Whether `pat` occurs in `s` at `i`.
fn matches_at(s: &Vec<char>, pat: &[char], i: usize) -> (b: bool)
    requires
        i <= s@.len(),
    ensures
        b == (pat@.len() <= s@.len() - i && s@.subrange(i as int, i + pat@.len()) == pat@),
{
    let n = s.len();
    if pat.len() > n - i {
        return false;
    }
    let mut j: usize = 0;
    while j < pat.len()
        invariant
            n == s@.len(),
            i <= n,
            j <= pat@.len() <= n - i,
            forall|t: int| 0 <= t < j ==> s@[i + t] == pat@[t],
        decreases pat@.len() - j,
    {
        if s[i + j] != pat[j] {
            assert(s@.subrange(i as int, i + pat@.len())[j as int] != pat@[j as int]);
            return false;
        }
        j = j + 1;
    }
    assert(s@.subrange(i as int, i + pat@.len()) == pat@);
    true
}

/// `s` with every occurrence of `pat` removed, as [`remove_all`] describes.
fn remove_all_chars(s: &Vec<char>, pat: &[char]) -> (r: Vec<char>)
    requires
        pat@.len() > 0,
    ensures
        r@ == remove_all(s@, pat@),
{
    let mut r: Vec<char> = Vec::new();
    let mut i: usize = 0;
    assert(s@.skip(0) == s@);
    assert(r@ + remove_all(s@, pat@) == remove_all(s@, pat@));
    while i < s.len()
        invariant
            i <= s@.len(),
            pat@.len() > 0,
            r@ + remove_all(s@.skip(i as int), pat@) == remove_all(s@, pat@),
        decreases s@.len() - i,
    {
        let ghost rest = s@.skip(i as int);
        if matches_at(s, pat, i) {
            assert(rest.take(pat@.len() as int) == s@.subrange(i as int, i + pat@.len()));
            assert(rest.skip(pat@.len() as int) == s@.skip(i + pat@.len()));
            i = i + pat.len();
        } else {
            assert(rest.len() < pat@.len() || rest.take(pat@.len() as int) != pat@) by {
                if rest.len() >= pat@.len() {
                    assert(rest.take(pat@.len() as int) == s@.subrange(i as int, i + pat@.len()));
                }
            }
            assert(rest.skip(1) == s@.skip(i + 1));
            assert(remove_all(rest, pat@) == seq![s@[i as int]] + remove_all(s@.skip(i + 1), pat@)) by {
                if rest.len() < pat@.len() {
                    lemma_remove_all_short(rest, pat@);
                    lemma_remove_all_short(s@.skip(i + 1), pat@);
                    assert(rest == seq![s@[i as int]] + s@.skip(i + 1));
                }
            }
            r.push(s[i]);
            assert(r@ + remove_all(s@.skip(i + 1), pat@) == remove_all(s@, pat@));
            i = i + 1;
        }
    }
    assert(s@.skip(s@.len() as int) == Seq::<char>::empty());
    assert(r@ + Seq::<char>::empty() == r@);
    r
}

/// Shorter than the pattern, nothing is removed.
proof fn lemma_remove_all_short(s: Seq<char>, pat: Seq<char>)
    requires
        s.len() < pat.len(),
    ensures
        remove_all(s, pat) == s,
{
}

/// The labelled line `l` with its label `label` removed, trimmed.
fn unlabelled(l: &Vec<char>, label: &[char]) -> (t: String)
    requires
        label@.len() > 0,
    ensures
        t@ == trim(remove_all(l@, label@)),
{
    let removed = remove_all_chars(l, label);
    let t = trim_chars(removed.as_slice());
    string_of(t.as_slice())
}

/// Reads a title and a body from an answer in the line-labelled format, as
/// [`line_title`] and [`line_body`] describe.
pub fn parse_insight_lines(response: &str) -> (r: (String, String))
    ensures
        r.0@ == line_title(response@),
        r.1@ == line_body(response@),
{
    proof {
        reveal_strlit("TITLE:");
        reveal_strlit("INSIGHT:");
        reveal_strlit("Pattern detected");
    }
    let ls = lines(response);
    proof {
        assert(views(ls@) == lines_of(response@));
    }
    let title_label = chars_of("TITLE:");
    let body_label = chars_of("INSIGHT:");
    let title = match first_labelled_index(&ls, title_label.as_slice()) {
        Some(k) => unlabelled(&ls[k], title_label.as_slice()),
        None => "Pattern detected".to_string(),
    };
    let body = match first_labelled_index(&ls, body_label.as_slice()) {
        Some(k) => unlabelled(&ls[k], body_label.as_slice()),
        None => response.to_string(),
    };
    (title, body)
}

} // verus!
