use soma::records::{edited_note, insights_from_rows, new_insight, new_note, new_session, pending_clusters, InsightRow};
use soma::Insight;

#[test]
fn new_note_defaults_thought_time_to_logging_time() {
    let n = new_note("hello", None);
    assert_eq!(n.thought_at, n.logged_at);
    assert_eq!(n.content, "hello");
    assert_eq!(n.id.len(), 36);
    let m = new_note("x", Some("2024-01-01T00:00:00Z".to_string()));
    assert_eq!(m.thought_at, "2024-01-01T00:00:00Z");
}

#[test]
fn edited_note_keeps_logging_time_and_old_thought_time() {
    let n = new_note("original", Some("t0".to_string()));
    let e = edited_note(&n.id, &n, "updated content", None);
    assert_eq!(e.id, n.id);
    assert_eq!(e.content, "updated content");
    assert_eq!(e.thought_at, "t0");
    assert_eq!(e.logged_at, n.logged_at);
    assert!(e.sentiment.is_none());
}

#[test]
fn new_session_is_created_and_updated_at_once() {
    let s = new_session("New chat");
    assert_eq!(s.created_at, s.updated_at);
    assert_eq!(s.name, "New chat");
}

fn row(id: &str, json: &str) -> InsightRow {
    InsightRow {
        id: id.to_string(),
        title: "T".to_string(),
        body: "B".to_string(),
        created_at: "2024-01-01T00:00:00Z".to_string(),
        note_ids_json: json.to_string(),
    }
}

#[test]
fn rows_with_invalid_note_ids_are_skipped() {
    let rows = vec![row("good", "[\"n1\",\"n2\"]"), row("bad", "not-valid-json")];
    let insights = insights_from_rows(&rows);
    assert_eq!(insights.len(), 1);
    assert_eq!(insights[0].id, "good");
    assert_eq!(insights[0].note_ids, vec!["n1".to_string(), "n2".to_string()]);
}

#[test]
fn clusters_with_existing_insights_are_not_pending() {
    let existing = vec![new_insight("t".to_string(), "b".to_string(), vec!["a".to_string(), "b".to_string()])];
    let clusters = vec![
        vec!["a".to_string(), "b".to_string()],
        vec!["c".to_string(), "d".to_string()],
    ];
    let pending = pending_clusters(&clusters, &existing);
    assert_eq!(pending.len(), 1);
    assert_eq!(pending[0].note_ids, vec!["c".to_string(), "d".to_string()]);
    assert_eq!(pending[0].note_ids_json, "[\"c\",\"d\"]");
}

#[test]
fn new_insight_keeps_its_parts() {
    let i: Insight = new_insight("Title".to_string(), "Body".to_string(), vec!["n".to_string()]);
    assert_eq!(i.title, "Title");
    assert_eq!(i.body, "Body");
    assert_eq!(i.note_ids, vec!["n".to_string()]);
    assert_eq!(i.id.len(), 36);
}

#[test]
fn row_with_invalid_note_ids_json_is_silently_skipped() {
    let rows = vec![row("bad", "not-valid-json")];
    let all = insights_from_rows(&rows);
    assert_eq!(all.len(), 0, "row with invalid note_ids JSON must be silently dropped");
}

#[test]
fn note_ids_vec_survives_json_roundtrip() {
    let ids = vec!["alpha".to_string(), "beta".to_string(), "gamma".to_string()];
    let pending = pending_clusters(&vec![ids.clone()], &[]);
    let rows = vec![InsightRow {
        id: "i2".to_string(),
        title: "T".to_string(),
        body: "B".to_string(),
        created_at: "2024-01-01T00:00:00Z".to_string(),
        note_ids_json: pending[0].note_ids_json.clone(),
    }];
    let loaded = insights_from_rows(&rows);
    assert_eq!(loaded[0].note_ids, ids);
}

#[test]
fn note_ids_json_escapes_like_serde_json() {
    let ids = vec![
        "a\"b".to_string(),
        "c\\d".to_string(),
        "line\nnext\ttab".to_string(),
        "\u{1}\u{1f}".to_string(),
        "é/x".to_string(),
    ];
    let pending = pending_clusters(&vec![ids.clone()], &[]);
    assert_eq!(
        pending[0].note_ids_json,
        "[\"a\\\"b\",\"c\\\\d\",\"line\\nnext\\ttab\",\"\\u0001\\u001f\",\"é/x\"]"
    );
    assert_eq!(pending_clusters(&vec![vec![]], &[])[0].note_ids_json, "[]");
}

#[test]
fn fresh_ids_and_times_have_their_documented_form() {
    let n = new_note("x", None);
    let b: Vec<char> = n.id.chars().collect();
    assert_eq!(b.len(), 36);
    for (i, c) in b.iter().enumerate() {
        if [8, 13, 18, 23].contains(&i) {
            assert_eq!(*c, '-');
        } else {
            assert!(c.is_ascii_hexdigit() && !c.is_ascii_uppercase());
        }
    }
    assert_eq!(b[14], '4');
    assert!(n.logged_at.ends_with("+00:00"));
    assert!(n.logged_at.len() >= 25);
}
