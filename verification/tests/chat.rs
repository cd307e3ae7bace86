use soma::chat::{parse_session_title, should_auto_title, SESSION_TITLE_HARD_CAP};
use soma::ChatMessage;

fn msg(role: &str) -> ChatMessage {
    ChatMessage {
        session_id: "s1".to_string(),
        role: role.to_string(),
        content: "hello".to_string(),
        timestamp: "t".to_string(),
    }
}

#[test]
fn should_auto_title_true_for_first_message_in_new_chat() {
    assert!(should_auto_title(&[msg("user")], "New chat"));
}

#[test]
fn should_auto_title_false_for_second_message() {
    assert!(!should_auto_title(&[msg("user"), msg("assistant")], "New chat"));
}

#[test]
fn should_auto_title_false_for_manually_renamed_session() {
    assert!(!should_auto_title(&[msg("user")], "My custom title"));
}

#[test]
fn should_auto_title_false_for_empty_message_list() {
    assert!(!should_auto_title(&[], "New chat"));
}

#[test]
fn parse_session_title_trims_whitespace() {
    assert_eq!(parse_session_title("  Goals for Next Month  "), "Goals for Next Month");
}

#[test]
fn parse_session_title_removes_surrounding_double_quotes() {
    assert_eq!(parse_session_title("\"My Session Title\""), "My Session Title");
}

#[test]
fn parse_session_title_removes_surrounding_single_quotes() {
    assert_eq!(parse_session_title("'My Session Title'"), "My Session Title");
}

#[test]
fn parse_session_title_returns_new_chat_for_empty_response() {
    assert_eq!(parse_session_title(""), "New chat");
}

#[test]
fn parse_session_title_returns_new_chat_for_whitespace_only() {
    assert_eq!(parse_session_title("   "), "New chat");
}

#[test]
fn parse_session_title_caps_at_hard_cap() {
    let long = "a".repeat(SESSION_TITLE_HARD_CAP + 20);
    let result = parse_session_title(&long);
    assert_eq!(result.chars().count(), SESSION_TITLE_HARD_CAP);
}

#[test]
fn parse_session_title_leaves_short_title_unchanged() {
    assert_eq!(parse_session_title("Short title"), "Short title");
}
