use soma::insight::{insight_parts_of, parse_insight_response, truncate_title, try_parse_insight_response, TITLE_HARD_CAP};

#[test]
fn parse_insight_response_perfect_format() {
    let (title, body) = parse_insight_response("TITLE: Foo\nINSIGHT: Bar");
    assert_eq!(title, "Foo");
    assert_eq!(body, "Bar");
}

#[test]
fn parse_insight_response_lowercase_labels() {
    let (title, body) = parse_insight_response("Title: Foo\nInsight: Bar");
    assert_eq!(title, "Foo");
    assert_eq!(body, "Bar");
}

#[test]
fn parse_insight_response_both_labels_on_one_line() {
    // Exact real-world malformed output from phi3:mini.
    let input = "Title: Reflections on Habits and Pleasures Insight: The user finds \
        motivation in exercise, enjoys spicy food like biryani but also \
        acknowledges a dependency on caffeine.";
    let (title, body) = parse_insight_response(input);
    assert_eq!(title, "Reflections on Habits and Pleasures", "should extract title before Insight:");
    assert!(
        body.starts_with("The user finds"),
        "body should start with insight text, got: {body}"
    );
    assert!(
        !body.contains("Title:") && !body.contains("title:"),
        "body must not contain the raw label text"
    );
}

#[test]
fn parse_insight_response_only_title_label() {
    // No insight label: title extracted, full response used as body fallback.
    let input = "TITLE: Morning Routines";
    let (title, body) = parse_insight_response(input);
    assert_eq!(title, "Morning Routines");
    assert_eq!(body, input, "body should be the full response when no INSIGHT: label");
}

#[test]
fn parse_insight_response_no_labels_falls_back() {
    let input = "These notes are about morning routines and coffee habits.";
    let (title, body) = parse_insight_response(input);
    assert_eq!(title, "Pattern detected");
    assert_eq!(body, input);
}

#[test]
fn parse_insight_response_truncates_implausibly_long_title() {
    let long_title = "The user seems to explore multiple themes in their journaling \
        including exercise food preferences and caffeine consumption patterns \
        across different days and moods which is very notable";
    let input = format!("Title: {long_title} Insight: Key themes.");
    let (title, body) = parse_insight_response(&input);
    assert!(
        title.chars().count() <= TITLE_HARD_CAP,
        "title longer than {TITLE_HARD_CAP} chars should be truncated, got: {title}"
    );
    assert_ne!(title, "Pattern detected", "a title label was present, should not fall back");
    assert!(body.contains("Key themes"), "body should contain the insight text");
}

#[test]
fn parse_insight_response_empty_input() {
    let (title, body) = parse_insight_response("");
    assert_eq!(title, "Pattern detected");
    assert_eq!(body, "");
}

#[test]
fn parse_insight_response_whitespace_only_input() {
    let (title, body) = parse_insight_response("   \n\t  ");
    assert_eq!(title, "Pattern detected");
    assert_eq!(body, "");
}

#[test]
fn insight_label_before_title_label_is_read_in_either_order() {
    let (title, body) = parse_insight_response("INSIGHT: Bar\nTITLE: Foo");
    assert_eq!(title, "Foo");
    assert_eq!(body, "Bar");
}

#[test]
fn only_insight_label_gives_fallback_title() {
    let (title, body) = parse_insight_response("insight:   spread out  ");
    assert_eq!(title, "Pattern detected");
    assert_eq!(body, "spread out");
}

#[test]
fn long_title_is_cut_at_last_sentence_end() {
    let long_title = format!("{}. {}", "a".repeat(30), "b".repeat(70));
    let (title, _) = parse_insight_response(&format!("TITLE: {long_title}"));
    assert_eq!(title, format!("{}.", "a".repeat(30)));
}

#[test]
fn long_title_without_sentence_end_is_cut_to_sixty_chars() {
    let long_title = "word ".repeat(30);
    let (title, _) = parse_insight_response(&format!("TITLE: {long_title}\nINSIGHT: x"));
    assert_eq!(title, "word ".repeat(12).trim_end());
}

#[test]
fn checked_parse_agrees_on_ascii_answers() {
    assert_eq!(
        try_parse_insight_response("TITLE: Foo\nINSIGHT: Bar"),
        Some(("Foo".to_string(), "Bar".to_string()))
    );
}

#[test]
fn checked_parse_refuses_offsets_shifted_by_lowercasing() {
    // U+1E9E lowercases to a character one byte shorter, so the offset of
    // "insight:" found in the lowercased answer falls inside the 'é' of the
    // answer itself.
    assert_eq!(try_parse_insight_response("\u{1E9E}TITLE: \u{e9}INSIGHT: x"), None);
}

#[test]
fn labels_are_found_in_the_given_lowered_text() {
    // The offsets come from the lowered text and cut the answer itself.
    let r = insight_parts_of("XXXXXX Foo YYYYYYYY Bar", "title: foo insight: bar");
    assert_eq!(r, Some(("Foo".to_string(), "Bar".to_string())));
}

#[test]
fn offsets_off_a_character_boundary_give_none() {
    // "insight:" is found at byte 7 of the lowered text, which falls inside
    // the two bytes of "é" in the answer.
    assert_eq!(insight_parts_of("abcdefé12345678", "title:xinsight:"), None);
}

#[test]
fn reply_format_reads_back_unchanged() {
    let t = "Evening Walks and Rest";
    let b = "You often write about walking after dinner. It seems to settle you.";
    let reply = format!("TITLE: {}\nINSIGHT: {}", t, b);
    assert_eq!(try_parse_insight_response(&reply), Some((t.to_string(), b.to_string())));
    assert_eq!(parse_insight_response(&reply), (t.to_string(), b.to_string()));
}

#[test]
fn truncate_title_keeps_short_and_cuts_long_titles() {
    assert_eq!(truncate_title("Short one"), "Short one");
    let long = "Habits form slowly. The user keeps returning to the same morning routine again and again";
    assert_eq!(truncate_title(long), "Habits form slowly.");
    let no_stop = "a".repeat(90);
    assert_eq!(truncate_title(&no_stop), "a".repeat(60));
}
