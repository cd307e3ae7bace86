use soma::insight_loop::{next_insight_action, InsightAction, InsightEvent};

#[test]
fn no_pending_clusters_finish_at_once() {
    assert_eq!(next_insight_action(0, 0, InsightEvent::Begin), InsightAction::Finish);
}

#[test]
fn clusters_are_fetched_generated_and_saved_in_order() {
    assert_eq!(next_insight_action(0, 2, InsightEvent::Begin), InsightAction::FetchNotes(0));
    assert_eq!(next_insight_action(0, 2, InsightEvent::NotesFetched(3)), InsightAction::Generate(0));
    assert_eq!(next_insight_action(0, 2, InsightEvent::Generated), InsightAction::Save(0));
    assert_eq!(next_insight_action(0, 2, InsightEvent::Saved), InsightAction::FetchNotes(1));
    assert_eq!(next_insight_action(1, 2, InsightEvent::Saved), InsightAction::Finish);
}

#[test]
fn cluster_without_notes_is_skipped() {
    assert_eq!(next_insight_action(0, 2, InsightEvent::NotesFetched(0)), InsightAction::FetchNotes(1));
    assert_eq!(next_insight_action(1, 2, InsightEvent::NotesFetched(0)), InsightAction::Finish);
}

#[test]
fn failed_generation_moves_to_the_next_cluster() {
    assert_eq!(next_insight_action(0, 3, InsightEvent::GenerationFailed), InsightAction::FetchNotes(1));
    assert_eq!(next_insight_action(2, 3, InsightEvent::GenerationFailed), InsightAction::Finish);
}
