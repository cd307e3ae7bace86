//! The records the application stores and exchanges.

use vstd::prelude::*;

verus! {

/// A captured thought. `thought_at` is when it happened, `logged_at` when it
/// was entered.
#[derive(Clone, Debug, PartialEq, Eq)]
pub struct Note {
    pub id: String,
    pub content: String,
    pub thought_at: String,
    pub logged_at: String,
    pub sentiment: Option<String>,
}

/// A sentence-level piece of a note, the unit that is embedded and searched.
/// The embedding vectors themselves are kept beside it by the application;
/// this record holds the text and the names of the models used for them.
#[derive(Clone, Debug, PartialEq, Eq)]
pub struct NoteChunk {
    pub id: String,
    pub note_id: String,
    pub chunk_index: usize,
    pub content: String,
    pub embedding_model: Option<String>,
    pub clustering_embedding_model: Option<String>,
    pub created_at: String,
}

/// A generated observation about a group of related notes.
#[derive(Clone, Debug, PartialEq, Eq)]
pub struct Insight {
    pub id: String,
    pub title: String,
    pub body: String,
    pub created_at: String,
    pub note_ids: Vec<String>,
}

/// One message of a chat session.
#[derive(Clone, Debug, PartialEq, Eq)]
pub struct ChatMessage {
    pub session_id: String,
    pub role: String,
    pub content: String,
    pub timestamp: String,
}

/// A named chat session.
#[derive(Clone, Debug, PartialEq, Eq)]
pub struct ChatSession {
    pub id: String,
    pub name: String,
    pub created_at: String,
    pub updated_at: String,
}

/// One message sent to the language model.
#[derive(Clone, Debug, PartialEq, Eq)]
pub struct Message {
    pub role: String,
    pub content: String,
}

} // verus!
