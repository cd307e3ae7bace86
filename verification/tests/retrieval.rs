use soma::retrieval::{chat_note_ids, fulltext_pattern, top_note_ids, use_semantic_search, use_semantic_search_at, RankedNote};
use soma::RetrievalService;

fn ranked(items: &[(&str, bool)]) -> Vec<RankedNote> {
    items.iter().map(|(id, relevant)| RankedNote { note_id: id.to_string(), relevant: *relevant }).collect()
}

#[test]
fn top_five_then_threshold() {
    let r = ranked(&[("a", true), ("b", false), ("c", true), ("d", true), ("e", true), ("f", true)]);
    assert_eq!(top_note_ids(&r), vec!["a", "c", "d", "e"]);
    assert_eq!(RetrievalService::new().select_note_ids(&r), vec!["a", "c", "d", "e"]);
}

#[test]
fn chat_drops_adjacent_repeats_before_taking_five() {
    let r = ranked(&[
        ("a", true),
        ("a", true),
        ("b", true),
        ("a", true),
        ("c", false),
        ("d", true),
        ("e", true),
    ]);
    // After dropping the adjacent repeat: a b a c d e; first five: a b a c d.
    assert_eq!(chat_note_ids(&r), vec!["a", "b", "a", "d"]);
}

#[test]
fn semantic_search_needs_twenty_five_embedded_notes() {
    assert!(!use_semantic_search(3));
    assert!(!use_semantic_search(24));
    assert!(use_semantic_search(25));
    assert!(use_semantic_search(1000));
}

#[test]
fn semantic_search_threshold_is_tunable() {
    assert!(!use_semantic_search_at(9, 10));
    assert!(use_semantic_search_at(10, 10));
    assert!(use_semantic_search_at(0, 0));
}

#[test]
fn fulltext_pattern_wraps_lowercased_query() {
    assert_eq!(fulltext_pattern("Spicy FOOD"), "%spicy food%");
}

#[test]
fn semantic_mode_stays_on_as_notes_grow() {
    let first = (0..50usize).find(|&n| use_semantic_search(n)).unwrap();
    assert!((first..60).all(use_semantic_search));
    assert!((0..first).all(|n| !use_semantic_search(n)));
}
