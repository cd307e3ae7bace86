//! Chat turns and session titles.

use vstd::prelude::*;

use crate::models::{ChatMessage, Message, Note};
use crate::prompts::{chat_system_prompt_text, session_title_prompt_text, PromptBuilder};
use crate::text::{
    chars_of, same_text, string_of, string_of_range, strip_char, strip_char_chars, trim,
    trim_chars,
};

verus! {

broadcast use vstd::string::group_string_axioms;

/// Longest session title kept, in characters.
pub const SESSION_TITLE_HARD_CAP: usize = 60;

/// The name a session carries until it is titled.
pub open spec fn default_session_name() -> Seq<char> {
    "New chat"@
}

/// A raw title response with surrounding whitespace, then double quotes, then
/// single quotes, then whitespace removed.
pub open spec fn cleaned_title(response: Seq<char>) -> Seq<char> {
    trim(strip_char(strip_char(trim(response), '"'), '\''))
}

/// The session title made from a raw model response: the cleaned text, cut to
/// its first [`SESSION_TITLE_HARD_CAP`] characters, or "New chat" when nothing
/// is left.
pub open spec fn session_title_of(response: Seq<char>) -> Seq<char> {
    let t = cleaned_title(response);
    if t.len() == 0 {
        default_session_name()
    } else if t.len() > SESSION_TITLE_HARD_CAP {
        t.take(SESSION_TITLE_HARD_CAP as int)
    } else {
        t
    }
}

/// Cleans up a raw model response into a usable session title: strips
/// surrounding whitespace and quote characters, caps it at
/// [`SESSION_TITLE_HARD_CAP`] characters, and falls back to "New chat" when
/// nothing is left.
pub fn parse_session_title(response: &str) -> (title: String)
    ensures
        title@ == session_title_of(response@),
        0 < title@.len() <= SESSION_TITLE_HARD_CAP,
{
    proof {
        reveal_strlit("New chat");
    }
    let v = chars_of(response);
    let t1 = trim_chars(&v);
    let t2 = strip_char_chars(&t1, '"');
    let t3 = strip_char_chars(&t2, '\'');
    let t = trim_chars(&t3);
    if t.len() == 0 {
        "New chat".to_string()
    } else if t.len() > SESSION_TITLE_HARD_CAP {
        string_of_range(&t, 0, SESSION_TITLE_HARD_CAP)
    } else {
        string_of(&t)
    }
}

/// Whether a session should be titled from its first message: exactly one
/// message exists in it (the one just saved) and it still carries the default
/// name "New chat".
pub fn should_auto_title(messages: &[ChatMessage], session_name: &str) -> (b: bool)
    ensures
        b == (messages@.len() == 1 && session_name@ == default_session_name()),
{
    messages.len() == 1 && same_text(session_name, "New chat")
}

/// Whether a saved message may start automatic titling at all: it comes from
/// the user and is not blank.
pub fn is_title_candidate(role: &str, content: &str) -> (b: bool)
    ensures
        b == (role@ == "user"@ && trim(content@).len() > 0),
{
    let c = chars_of(content);
    let t = trim_chars(&c);
    same_text(role, "user") && t.len() > 0
}

/// A message with the given role and content.
pub fn message(role: &str, content: String) -> (m: Message)
    ensures
        m.role@ == role@,
        m.content@ == content@,
{
    Message { role: role.to_string(), content }
}

/// The messages of a chat turn: the system prompt built from the context
/// notes, then the user's query.
pub fn chat_messages(query: &str, context_notes: &[Note]) -> (msgs: Vec<Message>)
    ensures
        msgs@.len() == 2,
        msgs@[0].role@ == "system"@,
        msgs@[0].content@ == chat_system_prompt_text(context_notes@),
        msgs@[1].role@ == "user"@,
        msgs@[1].content@ == query@,
{
    let system_prompt = PromptBuilder::chat_system_prompt(context_notes);
    let mut msgs: Vec<Message> = Vec::new();
    msgs.push(message("system", system_prompt));
    msgs.push(message("user", query.to_string()));
    msgs
}

/// The single user message asking for a title for a session that starts with
/// `first_message`.
pub fn session_title_messages(first_message: &str) -> (msgs: Vec<Message>)
    ensures
        msgs@.len() == 1,
        msgs@[0].role@ == "user"@,
        msgs@[0].content@ == session_title_prompt_text(first_message@),
{
    let prompt = PromptBuilder::session_title_prompt(first_message);
    let mut msgs: Vec<Message> = Vec::new();
    msgs.push(message("user", prompt));
    msgs
}

} // verus!

verus! {

/// A session title always starts where the cleaned answer starts: when the
/// cleaned answer is empty the title is "New chat"; otherwise the title is
/// its first characters, as many as it has up to [`SESSION_TITLE_HARD_CAP`].
pub proof fn law_session_title_is_a_prefix(response: Seq<char>)
    ensures
        ({
            let t = cleaned_title(response);
            let title = session_title_of(response);
            &&& t.len() == 0 ==> title == "New chat"@
            &&& t.len() > 0 ==> {
                &&& title.len() == if t.len() < SESSION_TITLE_HARD_CAP { t.len() } else { SESSION_TITLE_HARD_CAP as nat }
                &&& forall|k: int| 0 <= k < title.len() ==> #[trigger] title[k] == t[k]
            }
        }),
{
}

} // verus!
