use soma::parse::{first_word_of, lines, parse_u64};
use soma::settings::{contains_text, model_is_installed, models_available};
use soma::sql::{notes_by_ids_sql, placeholders};
use soma::temporal::{temporal_description, time_of_day_label};
use soma::AppSettings;

fn chars(s: &str) -> Vec<char> {
    s.chars().collect()
}

#[test]
fn u64_parsing_follows_std() {
    for s in ["0", "42", "+7", "18446744073709551615", "", "+", "-1", "1 ", "18446744073709551616", "1a"] {
        assert_eq!(parse_u64(&chars(s)), s.parse::<u64>().ok(), "input {s:?}");
    }
}

#[test]
fn lines_follow_std() {
    for s in ["", "a", "a\n", "a\r\nb", "\n", "a\n\nb\r", "x\ry\n"] {
        let got: Vec<String> = lines(s).into_iter().map(|l| l.into_iter().collect()).collect();
        let want: Vec<String> = s.lines().map(|l| l.to_string()).collect();
        assert_eq!(got, want, "input {s:?}");
    }
}

#[test]
fn first_word_follows_split_whitespace() {
    for s in ["", "   ", "  16376648 kB", "word", "\u{3000}x y"] {
        let got: Option<String> = first_word_of(&chars(s)).map(|w| w.into_iter().collect());
        let want = s.split_whitespace().next().map(|w| w.to_string());
        assert_eq!(got, want, "input {s:?}");
    }
}

#[test]
fn placeholders_are_numbered_from_one() {
    assert_eq!(placeholders(0), "");
    assert_eq!(placeholders(1), "?1");
    assert_eq!(placeholders(12).split(", ").last(), Some("?12"));
    assert_eq!(placeholders(3), "?1, ?2, ?3");
    assert!(notes_by_ids_sql(2).ends_with("WHERE id IN (?1, ?2)"));
}

#[test]
fn hours_are_named() {
    assert_eq!(time_of_day_label(2), "late at night");
    assert_eq!(time_of_day_label(7), "in the morning");
    assert_eq!(time_of_day_label(12), "around midday");
    assert_eq!(time_of_day_label(15), "in the afternoon");
    assert_eq!(time_of_day_label(20), "in the evening");
    assert_eq!(time_of_day_label(23), "at night");
    assert_eq!(temporal_description(7), "You tend to write about this in the morning");
}

#[test]
fn default_settings_use_phi3_and_nomic() {
    let s = AppSettings::default();
    assert_eq!(s.active_model, "phi3:mini");
    assert_eq!(s.embedding_model, "nomic-embed-text");
}

#[test]
fn setting_active_model_keeps_embedding_model() {
    let mut s = AppSettings::default();
    s.set_active_model("llama3:latest".to_string());
    assert_eq!(s.active_model, "llama3:latest");
    assert_eq!(s.embedding_model, "nomic-embed-text");
}

#[test]
fn models_are_checked_in_tags_answer() {
    let s = AppSettings::default();
    assert!(models_available("{\"models\":[{\"name\":\"phi3:mini\"},{\"name\":\"nomic-embed-text:latest\"}]}", &s));
    assert!(!models_available("{\"models\":[{\"name\":\"phi3:mini\"}]}", &s));
    assert!(contains_text("abc", ""));
    assert!(model_is_installed(&["a".to_string(), "phi3:mini".to_string()], "phi3:mini"));
    assert!(!model_is_installed(&[], "phi3:mini"));
}
