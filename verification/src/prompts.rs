//! Prompt templates sent to the language model.

use vstd::prelude::*;
use vstd::string::StringExecFns;

use crate::models::Note;
use crate::text::join;

verus! {

broadcast use vstd::string::group_string_axioms;

/// How a note is presented to the model: `[<thought_at>] <content>`.
pub open spec fn note_line(n: Note) -> Seq<char> {
    "["@ + n.thought_at@ + "] "@ + n.content@
}

/// The presentation lines of `notes`, in order.
pub open spec fn note_lines(notes: Seq<Note>) -> Seq<Seq<char>> {
    notes.map_values(|n: Note| note_line(n))
}

/// The notes as one block, one line per note.
pub open spec fn notes_block(notes: Seq<Note>) -> Seq<char> {
    join(note_lines(notes), "\n"@)
}

/// The fixed opening of the chat system prompt.
pub open spec fn chat_preamble() -> Seq<char> {
    "You are SOMA, a personal memory assistant. \
    The user has shared thoughts, ideas, and experiences with you. \
    Answer based ONLY on the following notes from the user's knowledge base. \
    If the answer is not in the notes, say so honestly.\n\nUser's notes:\n"@
}

/// What stands in the chat system prompt in place of an empty note list.
pub open spec fn no_notes_text() -> Seq<char> {
    "No relevant notes found."@
}

/// The chat system prompt for the given context notes.
pub open spec fn chat_system_prompt_text(notes: Seq<Note>) -> Seq<char> {
    chat_preamble() + if notes.len() == 0 {
        no_notes_text()
    } else {
        notes_block(notes)
    }
}

/// Text before the first message in the session title prompt.
pub open spec fn title_prompt_head() -> Seq<char> {
    "Create a very short title (5 words or fewer) for a chat session that starts with this message:\n\n\""@
}

/// Text after the first message in the session title prompt.
pub open spec fn title_prompt_tail() -> Seq<char> {
    "\"\n\nRespond with ONLY the title. No quotes, no explanation, no punctuation at the start or end."@
}

/// The session title prompt for a session's first message.
pub open spec fn session_title_prompt_text(first: Seq<char>) -> Seq<char> {
    title_prompt_head() + first + title_prompt_tail()
}

/// Text before the notes in the insight prompt.
pub open spec fn insight_prompt_head() -> Seq<char> {
    "These are a group of semantically related personal notes from a user:\n\n"@
}

/// Text after the notes in the insight prompt, with the required answer format.
pub open spec fn insight_prompt_tail() -> Seq<char> {
    "\n\n\
    Generate a brief, gentle insight about what these notes reveal. \
    Keep it to 2-3 sentences. Be observational, not prescriptive. \
    Also suggest a short title (5 words max).\n\n\
    You MUST respond using EXACTLY this format — each label on its own line, uppercase:\n\
    TITLE: <title>\n\
    INSIGHT: <insight>\n\n\
    For example:\n\
    TITLE: Morning Habits and Energy\n\
    INSIGHT: The user consistently reflects on their morning routines and physical activity. \
    These notes suggest a strong connection between daily habits and emotional well-being."@
}

/// The insight prompt for a group of related notes.
pub open spec fn insight_prompt_text(notes: Seq<Note>) -> Seq<char> {
    insight_prompt_head() + notes_block(notes) + insight_prompt_tail()
}

/// Builds the prompts sent to the language model.
pub struct PromptBuilder;

/// `[<thought_at>] <content>` for one note.
fn render_note(n: &Note) -> (s: String)
    ensures
        s@ == note_line(*n),
{
    let mut s = "[".to_string();
    s.append(n.thought_at.as_str());
    s.append("] ");
    s.append(n.content.as_str());
    s
}

/// The lines of `notes` joined by newlines.
fn render_notes(notes: &[Note]) -> (s: String)
    ensures
        s@ == notes_block(notes@),
{
    let ghost lines = note_lines(notes@);
    let mut s = String::new();
    let mut i: usize = 0;
    while i < notes.len()
        invariant
            i <= notes@.len(),
            lines == note_lines(notes@),
            s@ == join(lines.take(i as int), "\n"@),
        decreases notes@.len() - i,
    {
        let line = render_note(&notes[i]);
        proof {
            assert(lines.take(i + 1).drop_last() == lines.take(i as int));
            assert(lines.take(i + 1).last() == line@);
            if i == 0 {
                assert(lines.take(1)[0] == line@);
            }
        }
        if i > 0 {
            s.append("\n");
        }
        s.append(line.as_str());
        i = i + 1;
    }
    assert(lines.take(notes@.len() as int) == lines);
    s
}

impl PromptBuilder {
    /// The system prompt for a chat turn, quoting the retrieved notes or saying
    /// that none were found.
    pub fn chat_system_prompt(context_notes: &[Note]) -> (prompt: String)
        ensures
            prompt@ == chat_system_prompt_text(context_notes@),
    {
        let context = if context_notes.len() == 0 {
            "No relevant notes found.".to_string()
        } else {
            render_notes(context_notes)
        };
        let mut prompt = "You are SOMA, a personal memory assistant. \
            The user has shared thoughts, ideas, and experiences with you. \
            Answer based ONLY on the following notes from the user's knowledge base. \
            If the answer is not in the notes, say so honestly.\n\nUser's notes:\n".to_string();
        prompt.append(context.as_str());
        prompt
    }

    /// The prompt asking for a short title for a session that starts with
    /// `first_message`.
    pub fn session_title_prompt(first_message: &str) -> (prompt: String)
        ensures
            prompt@ == session_title_prompt_text(first_message@),
    {
        let mut prompt = "Create a very short title (5 words or fewer) for a chat session that starts with this message:\n\n\"".to_string();
        prompt.append(first_message);
        prompt.append("\"\n\nRespond with ONLY the title. No quotes, no explanation, no punctuation at the start or end.");
        prompt
    }

    /// The prompt asking for a titled insight about a group of related notes.
    pub fn insight_prompt(notes: &[Note]) -> (prompt: String)
        ensures
            prompt@ == insight_prompt_text(notes@),
    {
        let mut prompt = "These are a group of semantically related personal notes from a user:\n\n".to_string();
        let block = render_notes(notes);
        prompt.append(block.as_str());
        prompt.append("\n\n\
            Generate a brief, gentle insight about what these notes reveal. \
            Keep it to 2-3 sentences. Be observational, not prescriptive. \
            Also suggest a short title (5 words max).\n\n\
            You MUST respond using EXACTLY this format — each label on its own line, uppercase:\n\
            TITLE: <title>\n\
            INSIGHT: <insight>\n\n\
            For example:\n\
            TITLE: Morning Habits and Energy\n\
            INSIGHT: The user consistently reflects on their morning routines and physical activity. \
            These notes suggest a strong connection between daily habits and emotional well-being.");
        prompt
    }
}

} // verus!

verus! {

/// A text found in `a` is found in `a + b` at the same place.
proof fn lemma_occurs_in_prefix(a: Seq<char>, b: Seq<char>, p: Seq<char>, i: int)
    requires
        crate::text::occurs_at(a, p, i),
    ensures
        crate::text::occurs_at(a + b, p, i),
{
    assert((a + b).subrange(i, i + p.len()) == a.subrange(i, i + p.len()));
}

/// A text found in `b` is found in `a + b`, shifted by the length of `a`.
proof fn lemma_occurs_in_suffix(a: Seq<char>, b: Seq<char>, p: Seq<char>, i: int)
    requires
        crate::text::occurs_at(b, p, i),
    ensures
        crate::text::occurs_at(a + b, p, a.len() + i),
{
    assert((a + b).subrange(a.len() + i, a.len() + i + p.len()) == b.subrange(i, i + p.len()));
}

/// Every part of a joined text occurs in it.
proof fn lemma_join_contains(parts: Seq<Seq<char>>, sep: Seq<char>, k: int)
    requires
        0 <= k < parts.len(),
    ensures
        crate::text::occurs_in(join(parts, sep), parts[k]),
    decreases parts.len(),
{
    if parts.len() == 1 {
        assert(crate::text::occurs_at(parts[0], parts[0], 0)) by {
            assert(parts[0].subrange(0, parts[0].len() as int) == parts[0]);
        }
    } else {
        let prev = join(parts.drop_last(), sep);
        if k < parts.len() - 1 {
            lemma_join_contains(parts.drop_last(), sep, k);
            let i = choose|i: int| crate::text::occurs_at(prev, parts.drop_last()[k], i);
            lemma_occurs_in_prefix(prev, sep, parts[k], i);
            lemma_occurs_in_prefix(prev + sep, parts.last(), parts[k], i);
        } else {
            assert(crate::text::occurs_at(parts.last(), parts.last(), 0)) by {
                assert(parts.last().subrange(0, parts.last().len() as int) == parts.last());
            }
            lemma_occurs_in_suffix(prev + sep, parts.last(), parts.last(), 0);
        }
    }
}

/// The chat system prompt quotes every context note, as
/// `[<thought_at>] <content>`, and says "No relevant notes found." when there
/// are none.
pub proof fn law_chat_prompt_quotes_every_note(notes: Seq<Note>)
    ensures
        forall|k: int|
            0 <= k < notes.len() ==> crate::text::occurs_in(
                chat_system_prompt_text(notes),
                note_line(#[trigger] notes[k]),
            ),
        notes.len() == 0 ==> crate::text::occurs_in(chat_system_prompt_text(notes), no_notes_text()),
{
    assert forall|k: int| 0 <= k < notes.len() implies crate::text::occurs_in(
        chat_system_prompt_text(notes),
        note_line(#[trigger] notes[k]),
    ) by {
        lemma_join_contains(note_lines(notes), "\n"@, k);
        let i = choose|i: int| crate::text::occurs_at(notes_block(notes), note_line(notes[k]), i);
        lemma_occurs_in_suffix(chat_preamble(), notes_block(notes), note_line(notes[k]), i);
    }
    if notes.len() == 0 {
        assert(crate::text::occurs_at(no_notes_text(), no_notes_text(), 0)) by {
            assert(no_notes_text().subrange(0, no_notes_text().len() as int) == no_notes_text());
        }
        lemma_occurs_in_suffix(chat_preamble(), no_notes_text(), no_notes_text(), 0);
    }
}

/// The insight prompt quotes every note of the group, as
/// `[<thought_at>] <content>`.
pub proof fn law_insight_prompt_quotes_every_note(notes: Seq<Note>)
    ensures
        forall|k: int|
            0 <= k < notes.len() ==> crate::text::occurs_in(
                insight_prompt_text(notes),
                note_line(#[trigger] notes[k]),
            ),
{
    assert forall|k: int| 0 <= k < notes.len() implies crate::text::occurs_in(
        insight_prompt_text(notes),
        note_line(#[trigger] notes[k]),
    ) by {
        lemma_join_contains(note_lines(notes), "\n"@, k);
        let i = choose|i: int| crate::text::occurs_at(notes_block(notes), note_line(notes[k]), i);
        lemma_occurs_in_suffix(insight_prompt_head(), notes_block(notes), note_line(notes[k]), i);
        lemma_occurs_in_prefix(
            insight_prompt_head() + notes_block(notes),
            insight_prompt_tail(),
            note_line(notes[k]),
            insight_prompt_head().len() + i,
        );
    }
}

/// The session title prompt quotes the session's first message.
pub proof fn law_title_prompt_quotes_message(first: Seq<char>)
    ensures
        crate::text::occurs_in(session_title_prompt_text(first), first),
{
    assert(crate::text::occurs_at(first, first, 0)) by {
        assert(first.subrange(0, first.len() as int) == first);
    }
    lemma_occurs_in_suffix(title_prompt_head(), first, first, 0);
    lemma_occurs_in_prefix(title_prompt_head() + first, title_prompt_tail(), first, title_prompt_head().len() as int);
}

} // verus!

verus! {

/// Every note is shown to the model by the time of the thought and its
/// content: with notes, the chat system prompt is the preamble followed by
/// one line `[<thought_at>] <content>` per note, joined by line breaks, and the
/// insight prompt carries the same lines between its fixed head and tail.
pub proof fn law_prompts_show_thought_time_and_content(notes: Seq<Note>)
    ensures
        notes.len() > 0 ==> chat_system_prompt_text(notes) == chat_preamble() + join(
            notes.map_values(|n: Note| "["@ + n.thought_at@ + "] "@ + n.content@),
            "\n"@,
        ),
        insight_prompt_text(notes) == insight_prompt_head() + join(
            notes.map_values(|n: Note| "["@ + n.thought_at@ + "] "@ + n.content@),
            "\n"@,
        ) + insight_prompt_tail(),
{
    assert(note_lines(notes) =~= notes.map_values(|n: Note| "["@ + n.thought_at@ + "] "@ + n.content@));
}

} // verus!
