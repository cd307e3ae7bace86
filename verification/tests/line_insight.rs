use soma::line_insight::{cluster_insight_prompt, parse_insight_lines};

#[test]
fn line_format_reads_title_and_body() {
    let (title, body) = parse_insight_lines("TITLE: Morning Runs\nINSIGHT: You run most mornings.");
    assert_eq!(title, "Morning Runs");
    assert_eq!(body, "You run most mornings.");
}

#[test]
fn line_format_takes_first_labelled_lines() {
    let answer = "Sure!\r\nTITLE:  First \nTITLE: Second\nINSIGHT: one\nINSIGHT: two\n";
    let (title, body) = parse_insight_lines(answer);
    assert_eq!(title, "First");
    assert_eq!(body, "one");
}

#[test]
fn line_format_labels_are_case_sensitive() {
    let answer = "Title: Foo\nInsight: Bar";
    let (title, body) = parse_insight_lines(answer);
    assert_eq!(title, "Pattern detected");
    assert_eq!(body, answer);
}

#[test]
fn line_format_removes_every_label_occurrence() {
    let (title, _) = parse_insight_lines("TITLE: A TITLE: B");
    assert_eq!(title, "A  B");
}

#[test]
fn line_format_label_must_start_the_line() {
    let answer = "  TITLE: indented\nnothing";
    let (title, body) = parse_insight_lines(answer);
    assert_eq!(title, "Pattern detected");
    assert_eq!(body, answer);
}

#[test]
fn line_format_empty_answer() {
    let (title, body) = parse_insight_lines("");
    assert_eq!(title, "Pattern detected");
    assert_eq!(body, "");
}

#[test]
fn cluster_prompt_quotes_notes_and_hint() {
    let notes = vec![
        ("ran 5k".to_string(), "2024-01-01T07:00:00Z".to_string()),
        ("ran again".to_string(), "2024-01-02T07:30:00Z".to_string()),
    ];
    let prompt = cluster_insight_prompt(&notes, " (written in the morning)");
    let expected = "These are a group of semantically related personal notes from a user: (written in the morning)\n\n\
        [2024-01-01T07:00:00Z] ran 5k\n[2024-01-02T07:30:00Z] ran again\n\n\
        Generate a brief, gentle insight about what these notes reveal. \
        Keep it to 2-3 sentences. Be observational, not prescriptive. \
        Also suggest a short title (5 words max). \
        Format your response as:\nTITLE: <title>\nINSIGHT: <insight>";
    assert_eq!(prompt, expected);
}

#[test]
fn cluster_prompt_without_notes_or_hint() {
    let prompt = cluster_insight_prompt(&[], "");
    assert!(prompt.starts_with("These are a group of semantically related personal notes from a user:\n\n\n\n"));
}
