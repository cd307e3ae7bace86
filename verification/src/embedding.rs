//! Task-aware input preparation for the embedding model.

use vstd::prelude::*;
use vstd::string::StringExecFns;

use crate::text::{chars_of, has_prefix, starts_with_chars};

verus! {

broadcast use vstd::string::group_string_axioms;

/// What the resulting embedding will be used for.
#[derive(Clone, Copy, Debug, PartialEq, Eq, Structural)]
pub enum EmbedTask {
    /// Stored chunk content, used for similarity search against chat queries.
    Document,
    /// An ephemeral chat query, embedded to search against stored document embeddings.
    Query,
    /// Stored chunk content, used as clustering input for the insight engine.
    Clustering,
}

/// The model family that expects task-instruction prefixes.
pub open spec fn nomic_model_family() -> Seq<char> {
    "nomic-embed-text"@
}

/// The task-instruction prefix nomic-embed-text was trained with; the
/// trailing space is part of it.
pub open spec fn nomic_prefix_text(task: EmbedTask) -> Seq<char> {
    match task {
        EmbedTask::Document => "search_document: "@,
        EmbedTask::Query => "search_query: "@,
        EmbedTask::Clustering => "clustering: "@,
    }
}

/// The text sent to the embedding endpoint: prefixed for nomic-embed-text
/// models (any name starting with "nomic-embed-text"), unchanged otherwise.
pub open spec fn prepared_input(model: Seq<char>, task: EmbedTask, text: Seq<char>) -> Seq<char> {
    if has_prefix(model, nomic_model_family()) {
        nomic_prefix_text(task) + text
    } else {
        text
    }
}

impl EmbedTask {
    /// The prefix nomic-embed-text was trained with for `self`.
    /// Other embedding models take no prefix; see [`prepare_input`].
    pub(crate) fn nomic_prefix(self) -> (p: &'static str)
        ensures
            p@ == nomic_prefix_text(self),
    {
        match self {
            EmbedTask::Document => "search_document: ",
            EmbedTask::Query => "search_query: ",
            EmbedTask::Clustering => "clustering: ",
        }
    }
}

/// Returns the text that should actually be sent to the embedding endpoint.
///
/// For nomic-embed-text the task-instruction prefix is prepended; every other
/// model gets the text unchanged, since a model never trained on such a prefix
/// would be fed out-of-distribution text.
pub fn prepare_input(model: &str, task: EmbedTask, text: &str) -> (input: String)
    ensures
        input@ == prepared_input(model@, task, text@),
{
    let m = chars_of(model);
    let family = chars_of("nomic-embed-text");
    if starts_with_chars(&m, &family) {
        let mut input = task.nomic_prefix().to_string();
        input.append(text);
        input
    } else {
        text.to_string()
    }
}

} // verus!
