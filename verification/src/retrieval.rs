//! Choosing which notes answer a query.
//!
//! Similarity scores are floating-point and are computed and sorted by the
//! caller; here each candidate arrives in descending score order, marked with
//! whether its score clears the relevance threshold.

use vstd::prelude::*;
use vstd::string::StringExecFns;

use crate::text::{lowercase_of, to_lowercase};

verus! {

broadcast use vstd::string::group_string_axioms;

/// How many candidates are considered.
pub const TOP_K: usize = 5;

/// The default number of notes with stored embeddings from which retrieval
/// is semantic; below it, full-text. The threshold is tunable: see
/// [`use_semantic_search_at`].
pub const SEMANTIC_THRESHOLD: usize = 25;

/// A candidate note, in descending order of similarity to the query.
#[derive(Clone, Debug)]
pub struct RankedNote {
    pub note_id: String,
    /// Whether the similarity exceeds the relevance threshold.
    pub relevant: bool,
}

/// A candidate as the selection sees it: its note id and its relevance.
pub open spec fn candidates(ranked: Seq<RankedNote>) -> Seq<(Seq<char>, bool)> {
    ranked.map_values(|r: RankedNote| (r.note_id@, r.relevant))
}

/// The ids of the relevant candidates among the first [`TOP_K`], in order.
pub open spec fn top_relevant_ids(ranked: Seq<(Seq<char>, bool)>) -> Seq<Seq<char>> {
    let top = if ranked.len() > TOP_K {
        ranked.take(TOP_K as int)
    } else {
        ranked
    };
    relevant_ids(top)
}

/// The ids of the relevant candidates of `ranked`, in order.
pub open spec fn relevant_ids(ranked: Seq<(Seq<char>, bool)>) -> Seq<Seq<char>>
    decreases ranked.len(),
{
    if ranked.len() == 0 {
        Seq::empty()
    } else {
        let prev = relevant_ids(ranked.drop_last());
        if ranked.last().1 {
            prev.push(ranked.last().0)
        } else {
            prev
        }
    }
}

/// `ranked` with every candidate dropped whose note id equals that of the
/// candidate kept just before it, as `Vec::dedup_by_key` on the note id does.
pub open spec fn dedup_adjacent(ranked: Seq<(Seq<char>, bool)>) -> Seq<(Seq<char>, bool)>
    decreases ranked.len(),
{
    if ranked.len() == 0 {
        Seq::empty()
    } else {
        let prev = dedup_adjacent(ranked.drop_last());
        if prev.len() > 0 && prev.last().0 == ranked.last().0 {
            prev
        } else {
            prev.push(ranked.last())
        }
    }
}

/// After deduplication no two neighbouring candidates share a note id, and
/// every candidate kept comes from the input.
pub proof fn law_dedup_leaves_no_adjacent_repeats(ranked: Seq<(Seq<char>, bool)>)
    ensures
        forall|k: int|
            0 <= k < dedup_adjacent(ranked).len() - 1 ==> (#[trigger] dedup_adjacent(ranked)[k]).0
                != dedup_adjacent(ranked)[k + 1].0,
        forall|k: int|
            0 <= k < dedup_adjacent(ranked).len() ==> ranked.contains(#[trigger] dedup_adjacent(ranked)[k]),
        dedup_adjacent(ranked).len() <= ranked.len(),
    decreases ranked.len(),
{
    if ranked.len() > 0 {
        let rest = ranked.drop_last();
        law_dedup_leaves_no_adjacent_repeats(rest);
        let prev = dedup_adjacent(rest);
        let out = dedup_adjacent(ranked);
        assert forall|k: int| 0 <= k < out.len() implies ranked.contains(#[trigger] out[k]) by {
            if k < prev.len() {
                assert(out[k] == prev[k]);
                assert(rest.contains(prev[k]));
                let j = choose|j: int| 0 <= j < rest.len() && rest[j] == prev[k];
                assert(ranked[j] == prev[k]);
            } else {
                assert(out[k] == ranked[ranked.len() - 1]);
            }
        }
        assert forall|k: int| 0 <= k < out.len() - 1 implies (#[trigger] out[k]).0 != out[k + 1].0 by {
            if k + 1 < prev.len() {
                assert(out[k] == prev[k] && out[k + 1] == prev[k + 1]);
            }
        }
    }
}

/// Whether `v` is a list of strings with the given character views.
pub open spec fn ids_are(v: Seq<String>, s: Seq<Seq<char>>) -> bool {
    v.len() == s.len() && forall|k: int| 0 <= k < v.len() ==> (#[trigger] v[k])@ == s[k]
}

/// Whether a knowledge base with `embedded_notes` notes that have stored
/// embeddings is searched semantically, with the switch at `threshold` notes.
pub open spec fn semantic_mode_at(embedded_notes: int, threshold: int) -> bool {
    embedded_notes >= threshold
}

/// Whether a knowledge base with this many embedded notes is searched
/// semantically under the default threshold [`SEMANTIC_THRESHOLD`].
pub open spec fn semantic_mode(embedded_notes: int) -> bool {
    semantic_mode_at(embedded_notes, SEMANTIC_THRESHOLD as int)
}

/// Whether retrieval should be semantic for a knowledge base with
/// `embedded_notes` notes that have stored embeddings, switching at
/// `threshold` notes: full-text below it, semantic from it on.
pub fn use_semantic_search_at(embedded_notes: usize, threshold: usize) -> (b: bool)
    ensures
        b == semantic_mode_at(embedded_notes as int, threshold as int),
{
    embedded_notes >= threshold
}

/// Whether retrieval should be semantic for a knowledge base with this many
/// notes that have stored embeddings, under the default threshold
/// [`SEMANTIC_THRESHOLD`] (25 notes).
pub fn use_semantic_search(embedded_notes: usize) -> (b: bool)
    ensures
        b == semantic_mode(embedded_notes as int),
{
    use_semantic_search_at(embedded_notes, SEMANTIC_THRESHOLD)
}

/// Retrieval adapts one way only: once a knowledge base is searched
/// semantically, so is every larger one; full-text search is kept for small
/// ones.
pub proof fn law_semantic_search_once_large_enough(n: int, m: int, threshold: int)
    requires
        0 <= n <= m,
    ensures
        semantic_mode_at(n, threshold) ==> semantic_mode_at(m, threshold),
        !semantic_mode_at(m, threshold) ==> !semantic_mode_at(n, threshold),
        semantic_mode(n) ==> semantic_mode(m),
        !semantic_mode(m) ==> !semantic_mode(n),
{
}

/// The relevant note ids among the first [`TOP_K`] candidates, in order.
pub fn top_note_ids(ranked: &Vec<RankedNote>) -> (ids: Vec<String>)
    ensures
        ids_are(ids@, top_relevant_ids(candidates(ranked@))),
        ids@.len() <= TOP_K,
{
    let ghost all = candidates(ranked@);
    let limit = if ranked.len() > TOP_K {
        TOP_K
    } else {
        ranked.len()
    };
    let ghost top = if all.len() > TOP_K {
        all.take(TOP_K as int)
    } else {
        all
    };
    assert(top.len() == limit);
    let mut ids: Vec<String> = Vec::new();
    let mut k: usize = 0;
    while k < limit
        invariant
            k <= limit <= ranked@.len(),
            all == candidates(ranked@),
            limit <= TOP_K,
            top.len() == limit,
            forall|t: int| 0 <= t < limit ==> top[t] == all[t],
            ids_are(ids@, relevant_ids(top.take(k as int))),
            ids@.len() <= k,
        decreases limit - k,
    {
        assert(top.take(k + 1).drop_last() == top.take(k as int));
        assert(top.take(k + 1).last() == all[k as int]);
        if ranked[k].relevant {
            ids.push(ranked[k].note_id.clone());
        }
        k = k + 1;
    }
    assert(top.take(limit as int) == top);
    ids
}

/// Candidates with adjacent repeats of a note id removed, keeping the first
/// of each run.
pub fn dedup_by_note(ranked: &Vec<RankedNote>) -> (out: Vec<RankedNote>)
    ensures
        candidates(out@) == dedup_adjacent(candidates(ranked@)),
{
    let ghost all = candidates(ranked@);
    let mut out: Vec<RankedNote> = Vec::new();
    let mut k: usize = 0;
    while k < ranked.len()
        invariant
            k <= ranked@.len(),
            all == candidates(ranked@),
            candidates(out@) == dedup_adjacent(all.take(k as int)),
        decreases ranked@.len() - k,
    {
        assert(all.take(k + 1).drop_last() == all.take(k as int));
        assert(all.take(k + 1).last() == all[k as int]);
        let repeat = out.len() > 0 && out[out.len() - 1].note_id == ranked[k].note_id;
        if !repeat {
            let ghost before = out@;
            out.push(RankedNote { note_id: ranked[k].note_id.clone(), relevant: ranked[k].relevant });
            assert(candidates(out@) == candidates(before).push(all[k as int]));
        }
        k = k + 1;
    }
    assert(all.take(ranked@.len() as int) == all);
    out
}

/// The notes that answer a chat query, from chunk candidates in descending
/// similarity order: adjacent repeats of a note dropped, then the relevant
/// ones among the first [`TOP_K`].
pub fn chat_note_ids(ranked_chunks: &Vec<RankedNote>) -> (ids: Vec<String>)
    ensures
        ids_are(ids@, top_relevant_ids(dedup_adjacent(candidates(ranked_chunks@)))),
        ids@.len() <= TOP_K,
{
    let deduped = dedup_by_note(ranked_chunks);
    top_note_ids(&deduped)
}

/// Finds notes by semantic similarity to a query.
pub struct RetrievalService;

impl RetrievalService {
    pub fn new() -> (s: Self) {
        RetrievalService
    }

    /// The notes to fetch for a query, from note candidates in descending
    /// similarity order: the relevant ones among the first [`TOP_K`].
    pub fn select_note_ids(&self, ranked: &Vec<RankedNote>) -> (ids: Vec<String>)
        ensures
            ids_are(ids@, top_relevant_ids(candidates(ranked@))),
    {
        top_note_ids(ranked)
    }
}

/// The `LIKE` pattern of a full-text search: the lowercased query between
/// `%` wildcards.
pub fn fulltext_pattern(query: &str) -> (p: String)
    ensures
        p@ == "%"@ + lowercase_of(query@) + "%"@,
{
    let lower = to_lowercase(query);
    let mut p = "%".to_string();
    p.append(lower.as_str());
    p.append("%");
    p
}

} // verus!

verus! {

/// Whether candidate `i` opens a run: it is the first one, or its note differs
/// from that of the candidate before it.
pub open spec fn opens_run(ranked: Seq<(Seq<char>, bool)>, i: int) -> bool {
    i == 0 || ranked[i - 1].0 != ranked[i].0
}

/// How many of the first `k` candidates open a run.
pub open spec fn runs_opened(ranked: Seq<(Seq<char>, bool)>, k: nat) -> nat
    decreases k,
{
    if k == 0 {
        0
    } else {
        runs_opened(ranked, (k - 1) as nat) + if opens_run(ranked, k - 1) {
            1nat
        } else {
            0nat
        }
    }
}

/// Run openings among the first `k` candidates do not depend on the ones
/// after them.
proof fn lemma_runs_opened_prefix(ranked: Seq<(Seq<char>, bool)>, n: int, k: nat)
    requires
        k <= n <= ranked.len(),
    ensures
        runs_opened(ranked.take(n), k) == runs_opened(ranked, k),
    decreases k,
{
    if k > 0 {
        lemma_runs_opened_prefix(ranked, n, (k - 1) as nat);
        if k - 1 > 0 {
            assert(ranked.take(n)[k - 2] == ranked[k - 2]);
        }
        assert(ranked.take(n)[k - 1] == ranked[k - 1]);
    }
}

/// A later count is at least an earlier one.
proof fn lemma_runs_opened_monotone(ranked: Seq<(Seq<char>, bool)>, a: nat, b: nat)
    requires
        a <= b,
    ensures
        runs_opened(ranked, a) <= runs_opened(ranked, b),
    decreases b,
{
    if a < b {
        lemma_runs_opened_monotone(ranked, a, (b - 1) as nat);
    }
}

/// Counting run openings one candidate further.
proof fn lemma_runs_opened_step(ranked: Seq<(Seq<char>, bool)>, k: nat)
    requires
        0 < k <= ranked.len(),
    ensures
        runs_opened(ranked, k) == runs_opened(ranked, (k - 1) as nat) + if opens_run(ranked, k - 1) {
            1nat
        } else {
            0nat
        },
{
}

/// Deduplication keeps exactly the first candidate of each run of equal
/// adjacent note ids, in order: the result has one candidate per run, and the
/// candidate opening a run is found at the position given by the number of
/// runs opened before it. In particular a kept candidate's relevance is that
/// of the first, best-ranked candidate of its run.
pub proof fn law_dedup_keeps_first_of_each_run(ranked: Seq<(Seq<char>, bool)>)
    ensures
        dedup_adjacent(ranked).len() == runs_opened(ranked, ranked.len()),
        forall|i: int|
            0 <= i < ranked.len() && opens_run(ranked, i) ==> dedup_adjacent(ranked)[runs_opened(
                ranked,
                i as nat,
            ) as int] == #[trigger] ranked[i],
        ranked.len() > 0 ==> dedup_adjacent(ranked).last().0 == ranked.last().0,
    decreases ranked.len(),
{
    if ranked.len() > 0 {
        let n = ranked.len() as int;
        let rest = ranked.drop_last();
        law_dedup_keeps_first_of_each_run(rest);
        let prev = dedup_adjacent(rest);
        let out = dedup_adjacent(ranked);
        assert(rest == ranked.take(n - 1));
        lemma_runs_opened_prefix(ranked, n - 1, (n - 1) as nat);
        let c = runs_opened(rest, (n - 1) as nat);
        assert(prev.len() == c);
        lemma_runs_opened_step(ranked, n as nat);
        let opens = opens_run(ranked, n - 1);
        assert(opens <==> !(prev.len() > 0 && prev.last().0 == ranked.last().0)) by {
            if n > 1 {
                assert(rest.last() == ranked[n - 2]);
            }
        }
        if opens {
            assert(out == prev.push(ranked.last()));
        } else {
            assert(out == prev);
        }
        assert forall|i: int| 0 <= i < n && opens_run(ranked, i) implies out[runs_opened(ranked, i as nat) as int]
            == #[trigger] ranked[i] by {
            if i < n - 1 {
                lemma_runs_opened_prefix(ranked, n - 1, i as nat);
                lemma_runs_opened_prefix(ranked, n - 1, (i + 1) as nat);
                assert(rest[i] == ranked[i]);
                if i > 0 {
                    assert(rest[i - 1] == ranked[i - 1]);
                }
                assert(opens_run(rest, i));
                lemma_runs_opened_step(rest, (i + 1) as nat);
                lemma_runs_opened_monotone(rest, (i + 1) as nat, (n - 1) as nat);
                assert(prev[runs_opened(rest, i as nat) as int] == rest[i]);
            } else {
                assert(opens);
            }
        }
    }
}

} // verus!
