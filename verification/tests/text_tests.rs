use transcript_backend::model::Word;
use transcript_backend::text::{compute_wps, join_all, join_nonempty, sentence_text, sort_words};

fn word(id: i64, text: &str, overwrite: &str, starts_at: i64, ends_at: i64, hidden: bool) -> Word {
    Word {
        id,
        sentence_id: 1,
        text: text.to_string(),
        overwrite: overwrite.to_string(),
        starts_at,
        ends_at,
        probability: 900,
        hidden,
    }
}

#[test]
fn sentence_text_joins_in_time_order() {
    let words = vec![
        word(2, "there", "", 2000, 5000, false),
        word(1, "hi", "", 0, 2000, false),
    ];
    let text = sentence_text(&words);
    assert_eq!(text, "hi there");
}

#[test]
fn sentence_text_skips_hidden_words() {
    let words = vec![
        word(1, "hi", "", 0, 2000, false),
        word(2, "there", "", 2000, 5000, true),
    ];
    let text = sentence_text(&words);
    assert_eq!(text, "hi");
}

#[test]
fn sentence_text_prefers_overwrite() {
    let words = vec![
        word(1, "hi", "hello", 0, 2000, false),
        word(2, "there", "", 2000, 5000, false),
    ];
    let text = sentence_text(&words);
    assert_eq!(text, "hello there");
}

#[test]
fn sentence_text_of_no_words_is_empty() {
    let words: Vec<Word> = Vec::new();
    assert_eq!(sentence_text(&words), "");
}

#[test]
fn sort_words_is_stable_on_ties() {
    let words = vec![
        word(1, "a", "", 100, 200, false),
        word(2, "b", "", 100, 300, false),
        word(3, "c", "", 50, 80, false),
    ];
    let sorted = sort_words(&words);
    assert_eq!(sorted[0].id, 3);
    assert_eq!(sorted[1].id, 1);
    assert_eq!(sorted[2].id, 2);
}

#[test]
fn join_all_keeps_empty_pieces() {
    let texts = vec!["a".to_string(), "".to_string(), "b".to_string()];
    assert_eq!(join_all(&texts), "a  b");
}

#[test]
fn join_nonempty_drops_empty_pieces() {
    let texts = vec!["a".to_string(), "".to_string(), "b".to_string()];
    assert_eq!(join_nonempty(&texts), "a b");
}

#[test]
fn words_per_second_is_count_over_span() {
    // Two words over five seconds: 0.4 words per second, in thousandths.
    assert_eq!(compute_wps(2, 0, 5000), 400);
}

#[test]
fn words_per_second_is_zero_without_words_or_span() {
    assert_eq!(compute_wps(0, 0, 5000), 0);
    assert_eq!(compute_wps(3, 5000, 5000), 0);
    assert_eq!(compute_wps(3, 5000, 1000), 0);
}
