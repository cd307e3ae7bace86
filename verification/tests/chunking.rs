use soma::chunking::{LONG_NOTE_THRESHOLD, MIN_CHUNK_LENGTH};
use soma::ChunkingService;

// ~243 chars: reliably above LONG_NOTE_THRESHOLD (200).
const LONG_TEXT: &str = "The quick brown fox jumps over the lazy dog and then runs away quickly. \
    The second sentence is also quite long and contains many interesting words indeed. \
    The third and final sentence ensures that the total character count exceeds two hundred.";

#[test]
fn short_note_under_threshold_produces_single_chunk() {
    let svc = ChunkingService::new();
    // 47 chars: < LONG_NOTE_THRESHOLD (200), >= MIN_CHUNK_LENGTH (20)
    let content = "A note that is at least twenty characters long.";
    let chunks = svc.chunk("n1", content);
    assert_eq!(chunks.len(), 1);
    assert_eq!(chunks[0].content, content.trim());
    assert_eq!(chunks[0].note_id, "n1");
    assert_eq!(chunks[0].chunk_index, 0);
}

#[test]
fn long_note_splits_into_multiple_chunks() {
    let svc = ChunkingService::new();
    assert!(
        LONG_TEXT.len() >= LONG_NOTE_THRESHOLD,
        "test invariant: LONG_TEXT must be >= LONG_NOTE_THRESHOLD chars"
    );
    let chunks = svc.chunk("n1", LONG_TEXT);
    assert!(chunks.len() > 1, "note over threshold should split into multiple chunks");
}

#[test]
fn chunks_shorter_than_min_chunk_length_are_filtered_out() {
    let svc = ChunkingService::new();
    // "Ok." is 3 chars, below MIN_CHUNK_LENGTH (20), so it must be dropped.
    let content = "Ok. This sentence is long enough to pass the minimum chunk length filter. \
        And this third sentence also clears twenty characters easily. \
        We need additional text here to push the total past the two hundred character threshold.";
    assert!(content.len() > LONG_NOTE_THRESHOLD, "test invariant: content must exceed threshold");
    let chunks = svc.chunk("n1", content);
    assert!(
        !chunks.iter().any(|c| c.content == "Ok."),
        "sentences shorter than MIN_CHUNK_LENGTH must be filtered"
    );
}

#[test]
fn content_without_sentence_terminator_produces_single_chunk() {
    let svc = ChunkingService::new();
    // 250 'a' chars, no '.', '!', or '?': the whole thing is the remaining text
    let content = "a".repeat(250);
    let chunks = svc.chunk("n1", &content);
    assert_eq!(chunks.len(), 1);
}

#[test]
fn chunk_indices_are_sequential_starting_at_zero() {
    let svc = ChunkingService::new();
    let chunks = svc.chunk("n1", LONG_TEXT);
    assert!(chunks.len() > 1);
    for (expected_idx, chunk) in chunks.iter().enumerate() {
        assert_eq!(chunk.chunk_index, expected_idx);
    }
}

#[test]
fn empty_content_produces_no_chunks() {
    let svc = ChunkingService::new();
    assert_eq!(svc.chunk("n1", "").len(), 0);
}

#[test]
fn content_shorter_than_min_chunk_length_produces_no_chunks() {
    let svc = ChunkingService::new();
    // "Hi!" is 3 chars < MIN_CHUNK_LENGTH (20).
    assert_eq!(svc.chunk("n1", "Hi!").len(), 0);
}

#[test]
fn question_mark_and_exclamation_also_split_sentences() {
    let svc = ChunkingService::new();
    let content =
        "Is this a question with sufficient length to be really quite interesting to read? \
         Absolutely yes this exclamation mark sentence certainly confirms it without any doubt! \
         And here is one more final sentence with a period at the very end to complete things.";
    assert!(content.len() > LONG_NOTE_THRESHOLD, "test invariant: content must exceed threshold");
    let chunks = svc.chunk("n1", content);
    assert!(chunks.len() > 1, "? and ! should split sentences just like .");
}

#[test]
fn split_sentences_trims_and_drops_empty_pieces() {
    let svc = ChunkingService::new();
    let s = svc.split_sentences("  One.  ..Two!  three");
    assert_eq!(s, vec!["One.", ".", ".", "Two!", "three"]);
}

#[test]
fn threshold_counts_bytes_not_characters() {
    let svc = ChunkingService::new();
    // 100 two-byte characters: 200 bytes, so the note is split.
    let content = format!("{}. {}", "é".repeat(60), "é".repeat(40));
    let texts = svc.chunk_texts(&content);
    assert_eq!(texts.len(), 2);
    // Each chunk is at least MIN_CHUNK_LENGTH bytes.
    assert!(texts.iter().all(|t| t.len() >= MIN_CHUNK_LENGTH));
}

#[test]
fn chunks_carry_fresh_ids_and_no_models() {
    let svc = ChunkingService::new();
    let chunks = svc.chunk("n9", LONG_TEXT);
    for c in &chunks {
        assert_eq!(c.id.len(), 36);
        assert_eq!(c.note_id, "n9");
        assert!(c.embedding_model.is_none());
        assert!(c.clustering_embedding_model.is_none());
    }
    assert_ne!(chunks[0].id, chunks[1].id);
}

#[test]
fn every_chunk_is_a_piece_of_its_note() {
    let content = "  Woke up early and went for a long run by the river.   Felt great afterwards!\n\
        Then coffee, too much of it? Maybe. Work was slow but the evening walk by the water         cleared my head completely, and I slept well for the first time in weeks.  ";
    let chunks = ChunkingService::new().chunk("n1", content);
    assert!(chunks.len() >= 3);
    for c in &chunks {
        assert!(content.contains(&c.content), "chunk {:?} must occur in the note", c.content);
    }
}
