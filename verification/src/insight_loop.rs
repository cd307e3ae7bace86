//! The decisions of the insight-generation loop: for each pending cluster,
//! fetch its notes, skip it when none are found, ask the model, go on to the
//! next cluster when the model fails, and store the insight otherwise.

use vstd::prelude::*;

verus! {

/// What the insight loop does next.
#[derive(Clone, Copy, Debug, PartialEq, Eq, Structural)]
pub enum InsightAction {
    /// Fetch the notes of pending cluster `k`.
    FetchNotes(usize),
    /// Ask the model for an insight about the notes of pending cluster `k`.
    Generate(usize),
    /// Store the insight the model gave for pending cluster `k`.
    Save(usize),
    /// Every pending cluster has been handled.
    Finish,
}

/// What the last action gave back.
#[derive(Clone, Copy, Debug, PartialEq, Eq, Structural)]
pub enum InsightEvent {
    /// The loop starts.
    Begin,
    /// The notes of the current cluster were fetched; this many were found.
    NotesFetched(usize),
    /// The model call for the current cluster failed.
    GenerationFailed,
    /// The model gave an insight for the current cluster.
    Generated,
    /// The insight for the current cluster was stored.
    Saved,
}

/// The step after cluster `k` of `total` is done: the next cluster's notes,
/// or the end.
pub open spec fn after_cluster(k: int, total: int) -> InsightAction {
    if k + 1 < total {
        InsightAction::FetchNotes((k + 1) as usize)
    } else {
        InsightAction::Finish
    }
}

/// The action that follows `event` while cluster `current` of `total`
/// pending clusters is handled.
pub open spec fn insight_next(current: int, total: int, event: InsightEvent) -> InsightAction {
    match event {
        InsightEvent::Begin => if 0 < total {
            InsightAction::FetchNotes(0)
        } else {
            InsightAction::Finish
        },
        InsightEvent::NotesFetched(n) => if n == 0 {
            after_cluster(current, total)
        } else {
            InsightAction::Generate(current as usize)
        },
        InsightEvent::GenerationFailed => after_cluster(current, total),
        InsightEvent::Generated => InsightAction::Save(current as usize),
        InsightEvent::Saved => after_cluster(current, total),
    }
}

/// The cluster an action works on, if any.
pub open spec fn action_cluster(a: InsightAction) -> Option<int> {
    match a {
        InsightAction::FetchNotes(k) => Some(k as int),
        InsightAction::Generate(k) => Some(k as int),
        InsightAction::Save(k) => Some(k as int),
        InsightAction::Finish => None,
    }
}

/// The next action of the insight loop, as [`insight_next`] says: clusters
/// are handled one after another from the first; a cluster whose notes are
/// all gone is skipped, a failed model call moves on to the next cluster,
/// and a generated insight is stored before moving on. The action never
/// names a cluster beyond the pending ones, nor one before the current one.
pub fn next_insight_action(current: usize, total: usize, event: InsightEvent) -> (a: InsightAction)
    requires
        event is Begin || current < total,
    ensures
        a == insight_next(current as int, total as int, event),
        action_cluster(a) matches Some(k) ==> 0 <= k < total,
        !(event is Begin) ==> (action_cluster(a) matches Some(k) ==> current <= k <= current + 1),
{
    let after = if current < total && current + 1 < total {
        InsightAction::FetchNotes(current + 1)
    } else {
        InsightAction::Finish
    };
    match event {
        InsightEvent::Begin => if 0 < total {
            InsightAction::FetchNotes(0)
        } else {
            InsightAction::Finish
        },
        InsightEvent::NotesFetched(n) => if n == 0 {
            after
        } else {
            InsightAction::Generate(current)
        },
        InsightEvent::GenerationFailed => after,
        InsightEvent::Generated => InsightAction::Save(current),
        InsightEvent::Saved => after,
    }
}

/// The loop always ends: whatever an action gives back, the next action is
/// the end, a later step on the same cluster (fetch, then generate, then
/// save), or a step on a later cluster. The work left, [`progress`], is
/// smaller after the step than [`progress_before`] it.
pub proof fn law_insight_loop_moves_forward(current: int, total: int, event: InsightEvent)
    requires
        0 <= current < total <= usize::MAX,
        !(event is Begin),
    ensures
        insight_next(current, total, event) is Finish || progress(insight_next(current, total, event), total)
            < progress_before(current, total, event),
{
}

/// How much work is left once action `a` is chosen, counted in steps.
pub open spec fn progress(a: InsightAction, total: int) -> int {
    match a {
        InsightAction::FetchNotes(k) => 3 * (total - k),
        InsightAction::Generate(k) => 3 * (total - k) - 1,
        InsightAction::Save(k) => 3 * (total - k) - 2,
        InsightAction::Finish => 0,
    }
}

/// How much work was left when the action that gave `event` on cluster
/// `current` was chosen.
pub open spec fn progress_before(current: int, total: int, event: InsightEvent) -> int {
    match event {
        InsightEvent::Begin => 3 * total + 1,
        InsightEvent::NotesFetched(_) => 3 * (total - current),
        InsightEvent::GenerationFailed => 3 * (total - current) - 1,
        InsightEvent::Generated => 3 * (total - current) - 1,
        InsightEvent::Saved => 3 * (total - current) - 2,
    }
}

} // verus!
