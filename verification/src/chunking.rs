//! Sentence-boundary chunking of notes.

use vstd::prelude::*;
use vstd::utf8::encode_utf8;

use crate::ids::{is_utc_rfc3339_text, is_uuid_v4_text, new_id, now_rfc3339};
use crate::models::NoteChunk;
use crate::text::{
    byte_len_at_least, chars_of, is_ws, lemma_occurs_in_self, lemma_occurs_in_trans,
    lemma_trim_end_length, lemma_trim_occurs, lemma_trim_start_offset, occurs_at, occurs_in,
    string_of, trim, trim_chars, trim_start,
};

verus! {

broadcast use vstd::string::group_string_axioms;

/// Chunks whose trimmed text is shorter than this many bytes are dropped.
pub const MIN_CHUNK_LENGTH: usize = 20;

/// Notes of at least this many bytes are split into sentences.
pub const LONG_NOTE_THRESHOLD: usize = 200;

/// The length in bytes of the UTF-8 encoding of `s`.
pub open spec fn byte_len(s: Seq<char>) -> nat {
    encode_utf8(s).len()
}

/// Characters that end a sentence.
pub open spec fn is_terminator(c: char) -> bool {
    c == '.' || c == '!' || c == '?'
}

/// Scanning `text` left to right: the sentences completed so far (trimmed,
/// empty ones left out) and the text of the sentence still open.
pub open spec fn sentence_scan(text: Seq<char>) -> (Seq<Seq<char>>, Seq<char>)
    decreases text.len(),
{
    if text.len() == 0 {
        (Seq::empty(), Seq::empty())
    } else {
        let (done, open) = sentence_scan(text.drop_last());
        let current = open.push(text.last());
        if is_terminator(text.last()) {
            let t = trim(current);
            (if t.len() > 0 {
                done.push(t)
            } else {
                done
            }, Seq::empty())
        } else {
            (done, current)
        }
    }
}

/// The sentences of `text`: each piece up to and including a terminator,
/// then the rest, all trimmed, empty ones left out.
pub open spec fn sentences(text: Seq<char>) -> Seq<Seq<char>> {
    let (done, open) = sentence_scan(text);
    let t = trim(open);
    if t.len() > 0 {
        done.push(t)
    } else {
        done
    }
}

/// The candidate chunks of a note: the whole note when it is shorter than
/// [`LONG_NOTE_THRESHOLD`] bytes, its sentences otherwise.
pub open spec fn candidate_chunks(content: Seq<char>) -> Seq<Seq<char>> {
    if byte_len(content) < LONG_NOTE_THRESHOLD {
        seq![content]
    } else {
        sentences(content)
    }
}

/// The trimmed candidates whose byte length reaches [`MIN_CHUNK_LENGTH`], in
/// order.
pub open spec fn kept_chunks(candidates: Seq<Seq<char>>) -> Seq<Seq<char>>
    decreases candidates.len(),
{
    if candidates.len() == 0 {
        Seq::empty()
    } else {
        let prev = kept_chunks(candidates.drop_last());
        let t = trim(candidates.last());
        if byte_len(t) >= MIN_CHUNK_LENGTH {
            prev.push(t)
        } else {
            prev
        }
    }
}

/// The texts of the chunks of a note, in order.
pub open spec fn chunk_texts(content: Seq<char>) -> Seq<Seq<char>> {
    kept_chunks(candidate_chunks(content))
}

/// Whether `v` is a list of strings with the given character views.
pub open spec fn texts_are(v: Seq<String>, s: Seq<Seq<char>>) -> bool {
    v.len() == s.len() && forall|k: int| 0 <= k < v.len() ==> (#[trigger] v[k])@ == s[k]
}

/// Splits notes into the chunks that are embedded and searched.
pub struct ChunkingService;

impl ChunkingService {
    pub fn new() -> (s: Self) {
        ChunkingService
    }

    /// The chunks of note `note_id`: the whole note when it is short, its
    /// sentences otherwise; trimmed, with those shorter than
    /// [`MIN_CHUNK_LENGTH`] bytes dropped, numbered from 0 in order. Each gets a
    /// fresh id and the current time; no embedding is recorded yet.
    pub fn chunk(&self, note_id: &str, content: &str) -> (chunks: Vec<NoteChunk>)
        ensures
            chunks@.len() == chunk_texts(content@).len(),
            forall|i: int|
                0 <= i < chunks@.len() ==> {
                    &&& (#[trigger] chunks@[i]).content@ == chunk_texts(content@)[i]
                    &&& chunks@[i].chunk_index == i
                    &&& chunks@[i].note_id@ == note_id@
                    &&& is_uuid_v4_text(chunks@[i].id@)
                    &&& is_utc_rfc3339_text(chunks@[i].created_at@)
                    &&& chunks@[i].embedding_model is None
                    &&& chunks@[i].clustering_embedding_model is None
                    &&& byte_len(chunks@[i].content@) >= MIN_CHUNK_LENGTH
                },
    {
        let texts = self.chunk_texts(content);
        let mut chunks: Vec<NoteChunk> = Vec::new();
        let mut i: usize = 0;
        while i < texts.len()
            invariant
                i <= texts@.len(),
                texts_are(texts@, chunk_texts(content@)),
                chunks@.len() == i,
                forall|k: int|
                    0 <= k < i ==> {
                        &&& (#[trigger] chunks@[k]).content@ == chunk_texts(content@)[k]
                        &&& chunks@[k].chunk_index == k
                        &&& chunks@[k].note_id@ == note_id@
                        &&& is_uuid_v4_text(chunks@[k].id@)
                        &&& is_utc_rfc3339_text(chunks@[k].created_at@)
                        &&& chunks@[k].embedding_model is None
                        &&& chunks@[k].clustering_embedding_model is None
                        &&& byte_len(chunks@[k].content@) >= MIN_CHUNK_LENGTH
                    },
            decreases texts@.len() - i,
        {
            proof {
                lemma_kept_chunks_long(candidate_chunks(content@), i as int);
            }
            chunks.push(
                NoteChunk {
                    id: new_id(),
                    note_id: note_id.to_string(),
                    chunk_index: i,
                    content: texts[i].clone(),
                    embedding_model: None,
                    clustering_embedding_model: None,
                    created_at: now_rfc3339(),
                },
            );
            i = i + 1;
        }
        chunks
    }

    /// The texts the chunks of a note are made of, in order.
    pub fn chunk_texts(&self, content: &str) -> (texts: Vec<String>)
        ensures
            texts_are(texts@, chunk_texts(content@)),
    {
        let all = chars_of(content);
        let candidates: Vec<String> = if !byte_len_at_least(&all, LONG_NOTE_THRESHOLD) {
            let mut one: Vec<String> = Vec::new();
            one.push(content.to_string());
            assert(one@.len() == 1 && one@[0]@ == content@);
            assert(candidate_chunks(content@) == seq![content@]);
            one
        } else {
            self.split_sentences(content)
        };
        let ghost cands = candidate_chunks(content@);
        let mut texts: Vec<String> = Vec::new();
        let mut k: usize = 0;
        while k < candidates.len()
            invariant
                k <= candidates@.len(),
                texts_are(candidates@, cands),
                texts_are(texts@, kept_chunks(cands.take(k as int))),
            decreases candidates@.len() - k,
        {
            assert(cands.take(k + 1).drop_last() == cands.take(k as int));
            assert(cands.take(k + 1).last() == candidates@[k as int]@);
            let c = chars_of(candidates[k].as_str());
            let t = trim_chars(&c);
            if byte_len_at_least(&t, MIN_CHUNK_LENGTH) {
                texts.push(string_of(&t));
            }
            k = k + 1;
        }
        assert(cands.take(candidates@.len() as int) == cands);
        texts
    }

    /// The sentences of `text`: pieces ending at '.', '!' or '?', and the
    /// rest, each trimmed, empty ones left out.
    pub fn split_sentences(&self, text: &str) -> (sentences_out: Vec<String>)
        ensures
            texts_are(sentences_out@, sentences(text@)),
    {
        let chars = chars_of(text);
        let mut done: Vec<String> = Vec::new();
        let mut current: Vec<char> = Vec::new();
        let mut k: usize = 0;
        while k < chars.len()
            invariant
                k <= chars@.len(),
                chars@ == text@,
                texts_are(done@, sentence_scan(chars@.take(k as int)).0),
                current@ == sentence_scan(chars@.take(k as int)).1,
            decreases chars@.len() - k,
        {
            let ch = chars[k];
            assert(chars@.take(k + 1).drop_last() == chars@.take(k as int));
            assert(chars@.take(k + 1).last() == ch);
            current.push(ch);
            if ch == '.' || ch == '!' || ch == '?' {
                let trimmed = trim_chars(&current);
                if trimmed.len() > 0 {
                    done.push(string_of(&trimmed));
                }
                current = Vec::new();
            }
            k = k + 1;
        }
        assert(chars@.take(chars@.len() as int) == chars@);
        let remaining = trim_chars(&current);
        if remaining.len() > 0 {
            done.push(string_of(&remaining));
        }
        done
    }
}

/// A text occurs in any text it is a prefix of.
proof fn lemma_prefix_occurs(s: Seq<char>, k: int)
    requires
        0 <= k <= s.len(),
    ensures
        occurs_in(s, s.take(k)),
{
    assert(s.subrange(0, k) == s.take(k));
    assert(occurs_at(s, s.take(k), 0));
}

/// A suffix of a text occurs in it.
proof fn lemma_suffix_occurs(s: Seq<char>, k: int)
    requires
        0 <= k <= s.len(),
    ensures
        occurs_in(s, s.skip(k)),
{
    assert(s.subrange(k, s.len() as int) == s.skip(k));
    assert(occurs_at(s, s.skip(k), k));
}

/// While scanning, every completed sentence occurs in the text scanned, and
/// the open sentence is the text's tail.
proof fn lemma_sentence_scan_pieces(text: Seq<char>)
    ensures
        forall|i: int|
            0 <= i < sentence_scan(text).0.len() ==> occurs_in(text, #[trigger] sentence_scan(text).0[i]),
        sentence_scan(text).1.len() <= text.len(),
        sentence_scan(text).1 == text.skip(text.len() - sentence_scan(text).1.len()),
    decreases text.len(),
{
    if text.len() == 0 {
        assert(text.skip(0) == text);
    } else {
        let prev = text.drop_last();
        lemma_sentence_scan_pieces(prev);
        let (done, open) = sentence_scan(prev);
        let m = prev.len() - open.len();
        let current = open.push(text.last());
        assert(current == text.skip(m));
        lemma_prefix_occurs(text, prev.len() as int);
        assert(text.take(prev.len() as int) == prev);
        assert forall|i: int| 0 <= i < done.len() implies occurs_in(text, #[trigger] done[i]) by {
            lemma_occurs_in_trans(text, prev, done[i]);
        }
        if is_terminator(text.last()) {
            let t = trim(current);
            lemma_trim_occurs(current);
            lemma_suffix_occurs(text, m);
            lemma_occurs_in_trans(text, current, t);
            assert(text.skip(text.len() as int) == Seq::<char>::empty());
        }
    }
}

/// Every sentence of a text occurs in it.
proof fn lemma_sentences_occur(text: Seq<char>)
    ensures
        forall|i: int| 0 <= i < sentences(text).len() ==> occurs_in(text, #[trigger] sentences(text)[i]),
{
    lemma_sentence_scan_pieces(text);
    let (done, open) = sentence_scan(text);
    let t = trim(open);
    if t.len() > 0 {
        lemma_trim_occurs(open);
        lemma_suffix_occurs(text, text.len() - open.len());
        lemma_occurs_in_trans(text, open, t);
    }
}

/// When every candidate occurs in `content`, so does every kept chunk.
proof fn lemma_kept_chunks_occur(content: Seq<char>, candidates: Seq<Seq<char>>)
    requires
        forall|j: int| 0 <= j < candidates.len() ==> occurs_in(content, #[trigger] candidates[j]),
    ensures
        forall|i: int|
            0 <= i < kept_chunks(candidates).len() ==> occurs_in(content, #[trigger] kept_chunks(candidates)[i]),
    decreases candidates.len(),
{
    if candidates.len() > 0 {
        let rest = candidates.drop_last();
        assert forall|j: int| 0 <= j < rest.len() implies occurs_in(content, #[trigger] rest[j]) by {
            assert(rest[j] == candidates[j]);
        }
        lemma_kept_chunks_occur(content, rest);
        let last = candidates.last();
        assert(occurs_in(content, candidates[candidates.len() - 1]));
        lemma_trim_occurs(last);
        lemma_occurs_in_trans(content, last, trim(last));
        let prev = kept_chunks(rest);
        let kept = kept_chunks(candidates);
        assert forall|i: int| 0 <= i < kept.len() implies occurs_in(content, #[trigger] kept[i]) by {
            if i < prev.len() {
                assert(kept[i] == prev[i]);
            } else {
                assert(kept[i] == trim(last));
            }
        }
    }
}

/// Chunks are pieces of their note: the text of every chunk occurs in the
/// note's content, unchanged.
pub proof fn law_chunks_are_pieces_of_the_note(content: Seq<char>)
    ensures
        forall|i: int|
            0 <= i < chunk_texts(content).len() ==> occurs_in(content, #[trigger] chunk_texts(content)[i]),
{
    let cands = candidate_chunks(content);
    if byte_len(content) < LONG_NOTE_THRESHOLD {
        lemma_occurs_in_self(content);
        assert forall|j: int| 0 <= j < cands.len() implies occurs_in(content, #[trigger] cands[j]) by {
            assert(cands[j] == content);
        }
    } else {
        lemma_sentences_occur(content);
    }
    lemma_kept_chunks_occur(content, cands);
}

/// Every kept chunk reaches the minimum length.
proof fn lemma_kept_chunks_long(candidates: Seq<Seq<char>>, i: int)
    requires
        0 <= i < kept_chunks(candidates).len(),
    ensures
        byte_len(kept_chunks(candidates)[i]) >= MIN_CHUNK_LENGTH,
    decreases candidates.len(),
{
    if candidates.len() > 0 {
        let prev = kept_chunks(candidates.drop_last());
        if i < prev.len() {
            lemma_kept_chunks_long(candidates.drop_last(), i);
        }
    }
}

} // verus!

verus! {

/// Whether no character of `s` but possibly its last is '.', '!' or '?'.
pub open spec fn stops_only_at_end(s: Seq<char>) -> bool {
    forall|k: int| 0 <= k < s.len() - 1 ==> !(#[trigger] s[k] == '.' || s[k] == '!' || s[k] == '?')
}

/// Whether no character of `s` is '.', '!' or '?'.
pub open spec fn no_stops(s: Seq<char>) -> bool {
    forall|k: int| 0 <= k < s.len() ==> !(#[trigger] s[k] == '.' || s[k] == '!' || s[k] == '?')
}

/// Trimming keeps a text free of inner sentence ends.
proof fn lemma_trim_keeps_stops_at_end(s: Seq<char>)
    requires
        stops_only_at_end(s),
    ensures
        stops_only_at_end(trim(s)),
{
    let a = lemma_trim_start_offset(s);
    let b = lemma_trim_end_length(trim_start(s));
    assert(trim(s) == s.skip(a).take(b));
    assert forall|k: int| 0 <= k < trim(s).len() - 1 implies !(#[trigger] trim(s)[k] == '.' || trim(s)[k] == '!'
        || trim(s)[k] == '?') by {
        assert(trim(s)[k] == s[a + k]);
    }
}

/// While scanning, the open sentence holds no sentence end, and every
/// completed sentence holds one at most as its last character.
proof fn lemma_sentence_scan_stops(text: Seq<char>)
    ensures
        no_stops(sentence_scan(text).1),
        forall|i: int|
            0 <= i < sentence_scan(text).0.len() ==> stops_only_at_end(#[trigger] sentence_scan(text).0[i]),
    decreases text.len(),
{
    if text.len() > 0 {
        lemma_sentence_scan_stops(text.drop_last());
        let (done, open) = sentence_scan(text.drop_last());
        let current = open.push(text.last());
        if is_terminator(text.last()) {
            assert(stops_only_at_end(current)) by {
                assert forall|k: int| 0 <= k < current.len() - 1 implies !(#[trigger] current[k] == '.'
                    || current[k] == '!' || current[k] == '?') by {
                    assert(current[k] == open[k]);
                }
            }
            lemma_trim_keeps_stops_at_end(current);
        } else {
            assert(no_stops(current)) by {
                assert forall|k: int| 0 <= k < current.len() implies !(#[trigger] current[k] == '.'
                    || current[k] == '!' || current[k] == '?') by {
                    if k < open.len() {
                        assert(current[k] == open[k]);
                    }
                }
            }
        }
    }
}

/// Kept chunks keep the property of their candidates.
proof fn lemma_kept_chunks_stops(candidates: Seq<Seq<char>>)
    requires
        forall|j: int| 0 <= j < candidates.len() ==> stops_only_at_end(#[trigger] candidates[j]),
    ensures
        forall|i: int| 0 <= i < kept_chunks(candidates).len() ==> stops_only_at_end(#[trigger] kept_chunks(candidates)[i]),
    decreases candidates.len(),
{
    if candidates.len() > 0 {
        let rest = candidates.drop_last();
        assert forall|j: int| 0 <= j < rest.len() implies stops_only_at_end(#[trigger] rest[j]) by {
            assert(rest[j] == candidates[j]);
        }
        lemma_kept_chunks_stops(rest);
        let last = candidates.last();
        assert(stops_only_at_end(candidates[candidates.len() - 1]));
        lemma_trim_keeps_stops_at_end(last);
        let prev = kept_chunks(rest);
        let kept = kept_chunks(candidates);
        assert forall|i: int| 0 <= i < kept.len() implies stops_only_at_end(#[trigger] kept[i]) by {
            if i < prev.len() {
                assert(kept[i] == prev[i]);
            } else {
                assert(kept[i] == trim(last));
            }
        }
    }
}

/// A long note is cut at every sentence end: for a note of at least
/// [`LONG_NOTE_THRESHOLD`] bytes, no chunk holds a '.', '!' or '?' anywhere but
/// as its last character.
pub proof fn law_long_notes_are_cut_at_every_sentence_end(content: Seq<char>)
    ensures
        byte_len(content) >= LONG_NOTE_THRESHOLD ==> forall|i: int, k: int|
            0 <= i < chunk_texts(content).len() && 0 <= k < chunk_texts(content)[i].len() - 1 ==> !(
            #[trigger] chunk_texts(content)[i][k] == '.' || chunk_texts(content)[i][k] == '!'
                || chunk_texts(content)[i][k] == '?'),
{
    if byte_len(content) >= LONG_NOTE_THRESHOLD {
        lemma_sentence_scan_stops(content);
        let (done, open) = sentence_scan(content);
        assert(stops_only_at_end(open)) by {
            assert forall|k: int| 0 <= k < open.len() - 1 implies !(#[trigger] open[k] == '.' || open[k] == '!'
                || open[k] == '?') by {
                assert(no_stops(open));
            }
        }
        lemma_trim_keeps_stops_at_end(open);
        let cands = candidate_chunks(content);
        assert forall|j: int| 0 <= j < cands.len() implies stops_only_at_end(#[trigger] cands[j]) by {
            if j < done.len() {
                assert(cands[j] == done[j]);
            } else {
                assert(cands[j] == trim(open));
            }
        }
        lemma_kept_chunks_stops(cands);
        let texts = chunk_texts(content);
        assert forall|i: int, k: int| 0 <= i < texts.len() && 0 <= k < texts[i].len() - 1 implies !(
            #[trigger] texts[i][k] == '.' || texts[i][k] == '!' || texts[i][k] == '?') by {
            assert(stops_only_at_end(texts[i]));
        }
    }
}

/// Whether `s` is non-empty and ends with '.', '!' or '?'.
pub open spec fn ends_with_stop(s: Seq<char>) -> bool {
    s.len() > 0 && (s.last() == '.' || s.last() == '!' || s.last() == '?')
}

/// Trimming a text that ends with a sentence end keeps that end.
proof fn lemma_trim_keeps_stop_end(s: Seq<char>)
    requires
        ends_with_stop(s),
    ensures
        ends_with_stop(trim(s)),
    decreases s.len(),
{
    lemma_trim_start_keeps_stop_end(s);
    let t = trim_start(s);
    assert(!is_ws(t.last()));
}

/// `trim_start` of a text that ends with a sentence end keeps that end.
proof fn lemma_trim_start_keeps_stop_end(s: Seq<char>)
    requires
        ends_with_stop(s),
    ensures
        ends_with_stop(trim_start(s)),
    decreases s.len(),
{
    if s.len() > 1 && is_ws(s[0]) {
        assert(s.drop_first().last() == s.last());
        lemma_trim_start_keeps_stop_end(s.drop_first());
    }
}

/// While scanning, every completed sentence ends with a sentence end.
proof fn lemma_sentence_scan_ends(text: Seq<char>)
    ensures
        forall|i: int|
            0 <= i < sentence_scan(text).0.len() ==> ends_with_stop(#[trigger] sentence_scan(text).0[i]),
    decreases text.len(),
{
    if text.len() > 0 {
        lemma_sentence_scan_ends(text.drop_last());
        let (done, open) = sentence_scan(text.drop_last());
        let current = open.push(text.last());
        if is_terminator(text.last()) {
            lemma_trim_keeps_stop_end(current);
        }
    }
}

/// When every candidate ends with a sentence end, so does every kept chunk.
proof fn lemma_kept_chunks_end_with_stop(candidates: Seq<Seq<char>>)
    requires
        forall|j: int| 0 <= j < candidates.len() ==> ends_with_stop(#[trigger] candidates[j]),
    ensures
        forall|i: int| 0 <= i < kept_chunks(candidates).len() ==> ends_with_stop(#[trigger] kept_chunks(candidates)[i]),
    decreases candidates.len(),
{
    if candidates.len() > 0 {
        let rest = candidates.drop_last();
        assert forall|j: int| 0 <= j < rest.len() implies ends_with_stop(#[trigger] rest[j]) by {
            assert(rest[j] == candidates[j]);
        }
        lemma_kept_chunks_end_with_stop(rest);
        let last = candidates.last();
        assert(ends_with_stop(candidates[candidates.len() - 1]));
        lemma_trim_keeps_stop_end(last);
        let prev = kept_chunks(rest);
        let kept = kept_chunks(candidates);
        assert forall|i: int| 0 <= i < kept.len() implies ends_with_stop(#[trigger] kept[i]) by {
            if i < prev.len() {
                assert(kept[i] == prev[i]);
            }
        }
    }
}

/// Only the last chunk of a long note may be an unfinished sentence: for a
/// note of at least [`LONG_NOTE_THRESHOLD`] bytes, every chunk but the last
/// ends with '.', '!' or '?'.
pub proof fn law_long_note_chunks_are_whole_sentences(content: Seq<char>)
    ensures
        byte_len(content) >= LONG_NOTE_THRESHOLD ==> forall|i: int|
            0 <= i < chunk_texts(content).len() - 1 ==> {
                let c = #[trigger] chunk_texts(content)[i];
                c.len() > 0 && (c.last() == '.' || c.last() == '!' || c.last() == '?')
            },
{
    if byte_len(content) >= LONG_NOTE_THRESHOLD {
        lemma_sentence_scan_ends(content);
        let (done, open) = sentence_scan(content);
        let cands = candidate_chunks(content);
        let rest = cands.drop_last();
        if cands.len() > 0 {
            assert forall|j: int| 0 <= j < rest.len() implies ends_with_stop(#[trigger] rest[j]) by {
                assert(rest[j] == cands[j]);
                assert(j < done.len());
                assert(cands[j] == done[j]);
            }
            lemma_kept_chunks_end_with_stop(rest);
            let prev = kept_chunks(rest);
            let kept = kept_chunks(cands);
            assert forall|i: int| 0 <= i < kept.len() - 1 implies ends_with_stop(#[trigger] kept[i]) by {
                assert(kept[i] == prev[i]);
            }
            assert forall|i: int| 0 <= i < kept.len() - 1 implies {
                let c = #[trigger] kept[i];
                c.len() > 0 && (c.last() == '.' || c.last() == '!' || c.last() == '?')
            } by {
                assert(ends_with_stop(kept[i]));
            }
        }
    }
}

} // verus!
