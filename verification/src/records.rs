//! Building the records that are stored: notes, sessions and insights.

use vstd::prelude::*;

use crate::ids::{is_utc_rfc3339_text, is_uuid_v4_text, new_id, now_rfc3339};
use crate::json::{from_json_list, json_string_list, json_string_list_parse, string_views, to_json_list};
use crate::models::{ChatSession, Insight, Note};

verus! {

broadcast use vstd::string::group_string_axioms;

/// A new note with a fresh id, logged now. When the time of the thought is
/// not given, it is the logging time.
pub fn new_note(content: &str, thought_at: Option<String>) -> (n: Note)
    ensures
        is_uuid_v4_text(n.id@),
        is_utc_rfc3339_text(n.logged_at@),
        n.content@ == content@,
        n.sentiment is None,
        match thought_at {
            Some(t) => n.thought_at@ == t@,
            None => n.thought_at@ == n.logged_at@,
        },
{
    let id = new_id();
    let logged_at = now_rfc3339();
    let thought_at = match thought_at {
        Some(t) => t,
        None => logged_at.clone(),
    };
    Note { id, content: content.to_string(), thought_at, logged_at, sentiment: None }
}

/// Note `id` after its content is replaced: the time of the thought is the
/// new one when given, else kept; the logging time is kept; the sentiment is
/// cleared.
pub fn edited_note(id: &str, existing: &Note, content: &str, thought_at: Option<String>) -> (n: Note)
    ensures
        n.id@ == id@,
        n.content@ == content@,
        n.logged_at@ == existing.logged_at@,
        n.sentiment is None,
        match thought_at {
            Some(t) => n.thought_at@ == t@,
            None => n.thought_at@ == existing.thought_at@,
        },
{
    let thought_at = match thought_at {
        Some(t) => t,
        None => existing.thought_at.clone(),
    };
    Note {
        id: id.to_string(),
        content: content.to_string(),
        thought_at,
        logged_at: existing.logged_at.clone(),
        sentiment: None,
    }
}

/// A new session with a fresh id, created and updated now.
pub fn new_session(name: &str) -> (s: ChatSession)
    ensures
        is_uuid_v4_text(s.id@),
        is_utc_rfc3339_text(s.created_at@),
        s.name@ == name@,
        s.created_at@ == s.updated_at@,
{
    let id = new_id();
    let now = now_rfc3339();
    ChatSession { id, name: name.to_string(), created_at: now.clone(), updated_at: now }
}

/// A stored insight as read back, with its note ids still in JSON text.
#[derive(Clone, Debug)]
pub struct InsightRow {
    pub id: String,
    pub title: String,
    pub body: String,
    pub created_at: String,
    pub note_ids_json: String,
}

/// The insights that can be rebuilt from `rows`, in order: those whose note
/// ids read as a JSON list of strings.
pub open spec fn readable_rows(rows: Seq<InsightRow>) -> Seq<InsightRow>
    decreases rows.len(),
{
    if rows.len() == 0 {
        Seq::empty()
    } else {
        let prev = readable_rows(rows.drop_last());
        if json_string_list_parse(rows.last().note_ids_json@) is Some {
            prev.push(rows.last())
        } else {
            prev
        }
    }
}

/// Whether `i` is the insight stored as `row`.
pub open spec fn insight_of_row(i: Insight, row: InsightRow) -> bool {
    &&& i.id@ == row.id@
    &&& i.title@ == row.title@
    &&& i.body@ == row.body@
    &&& i.created_at@ == row.created_at@
    &&& json_string_list_parse(row.note_ids_json@) == Some(string_views(i.note_ids@))
}

/// Rebuilds stored insights, silently leaving out the rows whose note ids are
/// not a JSON list of strings.
pub fn insights_from_rows(rows: &Vec<InsightRow>) -> (out: Vec<Insight>)
    ensures
        out@.len() == readable_rows(rows@).len(),
        forall|k: int| 0 <= k < out@.len() ==> insight_of_row(#[trigger] out@[k], readable_rows(rows@)[k]),
{
    let mut out: Vec<Insight> = Vec::new();
    let mut k: usize = 0;
    while k < rows.len()
        invariant
            k <= rows@.len(),
            out@.len() == readable_rows(rows@.take(k as int)).len(),
            forall|t: int|
                0 <= t < out@.len() ==> insight_of_row(
                    #[trigger] out@[t],
                    readable_rows(rows@.take(k as int))[t],
                ),
        decreases rows@.len() - k,
    {
        assert(rows@.take(k + 1).drop_last() == rows@.take(k as int));
        assert(rows@.take(k + 1).last() == rows@[k as int]);
        let row = &rows[k];
        if let Some(note_ids) = from_json_list(row.note_ids_json.as_str()) {
            out.push(
                Insight {
                    id: row.id.clone(),
                    title: row.title.clone(),
                    body: row.body.clone(),
                    created_at: row.created_at.clone(),
                    note_ids,
                },
            );
        }
        k = k + 1;
    }
    assert(rows@.take(rows@.len() as int) == rows@);
    out
}

/// A cluster that has no insight yet, with the JSON text of its note ids.
#[derive(Clone, Debug)]
pub struct PendingCluster {
    pub note_ids: Vec<String>,
    pub note_ids_json: String,
}

/// Whether an existing insight has the note ids whose JSON text is `json`.
pub open spec fn covered(json: Seq<char>, existing: Seq<Insight>) -> bool {
    exists|k: int| 0 <= k < existing.len() && json_string_list(string_views(#[trigger] existing[k].note_ids@)) == json
}

/// The clusters of `clusters`, in order, whose note-id JSON text is not that
/// of an existing insight.
pub open spec fn uncovered(clusters: Seq<Seq<Seq<char>>>, existing: Seq<Insight>) -> Seq<Seq<Seq<char>>>
    decreases clusters.len(),
{
    if clusters.len() == 0 {
        Seq::empty()
    } else {
        let prev = uncovered(clusters.drop_last(), existing);
        if covered(json_string_list(clusters.last()), existing) {
            prev
        } else {
            prev.push(clusters.last())
        }
    }
}

/// The note-id lists of `clusters`.
pub open spec fn cluster_views(clusters: Seq<Vec<String>>) -> Seq<Seq<Seq<char>>> {
    clusters.map_values(|c: Vec<String>| string_views(c@))
}

/// Whether the JSON text of `cluster`'s note ids is that of an existing
/// insight's note ids, which is so exactly when an existing insight has the
/// same note ids.
fn has_insight(cluster: &Vec<String>, existing: &[Insight]) -> (b: bool)
    ensures
        b == covered(json_string_list(string_views(cluster@)), existing@),
        b <==> exists|e: int|
            0 <= e < existing@.len() && string_views(#[trigger] existing@[e].note_ids@) == string_views(cluster@),
{
    let json = to_json_list(cluster);
    let mut k: usize = 0;
    while k < existing.len()
        invariant
            k <= existing@.len(),
            json@ == json_string_list(string_views(cluster@)),
            json_string_list_parse(json@) == Some(string_views(cluster@)),
            forall|t: int|
                0 <= t < k ==> json_string_list(string_views(#[trigger] existing@[t].note_ids@)) != json@,
            forall|t: int|
                0 <= t < k ==> string_views(#[trigger] existing@[t].note_ids@) != string_views(cluster@),
        decreases existing@.len() - k,
    {
        let other = to_json_list(&existing[k].note_ids);
        if other == json {
            assert(string_views(existing@[k as int].note_ids@) == string_views(cluster@));
            return true;
        }
        k = k + 1;
    }
    false
}

/// The clusters that still need an insight, in order, each with the JSON text
/// of its note ids: those whose text differs from that of every existing
/// insight. In particular no cluster with exactly the note ids of an existing
/// insight is kept, and each JSON text reads back as its cluster's note ids.
pub fn pending_clusters(clusters: &Vec<Vec<String>>, existing: &[Insight]) -> (out: Vec<PendingCluster>)
    ensures
        out@.len() == uncovered(cluster_views(clusters@), existing@).len(),
        forall|k: int|
            0 <= k < out@.len() ==> {
                &&& string_views((#[trigger] out@[k]).note_ids@) == uncovered(cluster_views(clusters@), existing@)[k]
                &&& out@[k].note_ids_json@ == json_string_list(string_views(out@[k].note_ids@))
                &&& json_string_list_parse(out@[k].note_ids_json@) == Some(string_views(out@[k].note_ids@))
            },
        forall|k: int, e: int|
            0 <= k < out@.len() && 0 <= e < existing@.len() ==> string_views(
                (#[trigger] out@[k]).note_ids@,
            ) != string_views(#[trigger] existing@[e].note_ids@),
        forall|i: int|
            0 <= i < clusters@.len() ==> ((exists|j: int|
                0 <= j < out@.len() && string_views(#[trigger] out@[j].note_ids@) == string_views(
                    (#[trigger] clusters@[i])@,
                )) <==> !(exists|e: int|
                0 <= e < existing@.len() && string_views(#[trigger] existing@[e].note_ids@) == string_views(
                    clusters@[i]@,
                ))),
{
    let ghost all = cluster_views(clusters@);
    let mut out: Vec<PendingCluster> = Vec::new();
    let mut k: usize = 0;
    while k < clusters.len()
        invariant
            k <= clusters@.len(),
            all == cluster_views(clusters@),
            out@.len() == uncovered(all.take(k as int), existing@).len(),
            forall|t: int|
                0 <= t < out@.len() ==> {
                    &&& string_views((#[trigger] out@[t]).note_ids@) == uncovered(all.take(k as int), existing@)[t]
                    &&& out@[t].note_ids_json@ == json_string_list(string_views(out@[t].note_ids@))
                    &&& json_string_list_parse(out@[t].note_ids_json@) == Some(string_views(out@[t].note_ids@))
                    &&& !covered(out@[t].note_ids_json@, existing@)
                },
            forall|t: int|
                0 <= t < k && !(exists|e: int|
                    0 <= e < existing@.len() && string_views(#[trigger] existing@[e].note_ids@)
                        == string_views(clusters@[t]@)) ==> exists|j: int|
                    0 <= j < out@.len() && string_views(#[trigger] out@[j].note_ids@) == string_views(
                        (#[trigger] clusters@[t])@,
                    ),
        decreases clusters@.len() - k,
    {
        assert(all.take(k + 1).drop_last() == all.take(k as int));
        assert(all.take(k + 1).last() == all[k as int]);
        let json = to_json_list(&clusters[k]);
        if !has_insight(&clusters[k], existing) {
            let ids = clusters[k].clone();
            let ghost before = out@;
            out.push(PendingCluster { note_ids: ids, note_ids_json: json });
            assert(string_views(out@[out@.len() - 1].note_ids@) == string_views(clusters@[k as int]@));
            assert forall|t: int|
                0 <= t < k + 1 && !(exists|e: int|
                    0 <= e < existing@.len() && string_views(#[trigger] existing@[e].note_ids@)
                        == string_views(clusters@[t]@)) implies exists|j: int|
                    0 <= j < out@.len() && string_views(#[trigger] out@[j].note_ids@) == string_views(
                        (#[trigger] clusters@[t])@,
                    ) by {
                if t < k {
                    let j = choose|j: int|
                        0 <= j < before.len() && string_views(#[trigger] before[j].note_ids@) == string_views(
                            (#[trigger] clusters@[t])@,
                        );
                    assert(out@[j] == before[j]);
                } else {
                    assert(string_views(out@[out@.len() - 1].note_ids@) == string_views(clusters@[t]@));
                }
            }
        }
        k = k + 1;
    }
    assert(all.take(clusters@.len() as int) == all);
    assert forall|i: int| 0 <= i < clusters@.len() implies ((exists|j: int|
        0 <= j < out@.len() && string_views(#[trigger] out@[j].note_ids@) == string_views(
            (#[trigger] clusters@[i])@,
        )) <==> !(exists|e: int|
        0 <= e < existing@.len() && string_views(#[trigger] existing@[e].note_ids@) == string_views(
            clusters@[i]@,
        ))) by {
        if exists|j: int| 0 <= j < out@.len() && string_views(#[trigger] out@[j].note_ids@) == string_views(
            (#[trigger] clusters@[i])@,
        ) {
            let j = choose|j: int|
                0 <= j < out@.len() && string_views(#[trigger] out@[j].note_ids@) == string_views(
                    (#[trigger] clusters@[i])@,
                );
            if exists|e: int|
                0 <= e < existing@.len() && string_views(#[trigger] existing@[e].note_ids@) == string_views(
                    clusters@[i]@,
                ) {
                let e = choose|e: int|
                    0 <= e < existing@.len() && string_views(#[trigger] existing@[e].note_ids@)
                        == string_views(clusters@[i]@);
                assert(json_string_list(string_views(existing@[e].note_ids@)) == out@[j].note_ids_json@);
                assert(covered(out@[j].note_ids_json@, existing@));
            }
        }
    }
    assert forall|k: int, e: int|
        0 <= k < out@.len() && 0 <= e < existing@.len() implies string_views(
            (#[trigger] out@[k]).note_ids@,
        ) != string_views(#[trigger] existing@[e].note_ids@) by {
        if string_views(out@[k].note_ids@) == string_views(existing@[e].note_ids@) {
            assert(json_string_list(string_views(existing@[e].note_ids@)) == out@[k].note_ids_json@);
        }
    }
    out
}

/// A new insight about the notes `note_ids`, with a fresh id, created now.
pub fn new_insight(title: String, body: String, note_ids: Vec<String>) -> (i: Insight)
    ensures
        is_uuid_v4_text(i.id@),
        is_utc_rfc3339_text(i.created_at@),
        i.title@ == title@,
        i.body@ == body@,
        i.note_ids@ == note_ids@,
{
    Insight { id: new_id(), title, body, created_at: now_rfc3339(), note_ids }
}

} // verus!
