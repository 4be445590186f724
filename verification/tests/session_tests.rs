use mnemonic_practice::errors::PhraseError;
use mnemonic_practice::generate::generate;
use mnemonic_practice::session::{PracticeSession, SessionState};
use mnemonic_practice::words::words_from_csv;

fn words(ws: &[&str]) -> Vec<String> {
    ws.iter().map(|w| w.to_string()).collect()
}

#[test]
fn mistake_resets_counter_and_round_restarts() {
    let mut s = PracticeSession::new(words(&["apple", "brave", "cedar"]));
    assert_eq!(s.submit("apple"), SessionState::AwaitingWord { index: 1 });
    assert_eq!(s.submit("brave"), SessionState::AwaitingWord { index: 2 });
    assert_eq!(s.submit("wrong"), SessionState::Mistake);
    assert_eq!(s.successes(), 0);
    s.restart();
    assert_eq!(s.state(), SessionState::AwaitingWord { index: 0 });
}

#[test]
fn completing_the_phrase_increments_counter_once() {
    let mut s = PracticeSession::new(words(&["apple", "brave", "cedar"]));
    assert_eq!(s.submit("apple"), SessionState::AwaitingWord { index: 1 });
    assert_eq!(s.submit("brave"), SessionState::AwaitingWord { index: 2 });
    assert_eq!(s.submit("cedar"), SessionState::Completed);
    assert_eq!(s.successes(), 1);
}

#[test]
fn counter_accumulates_across_rounds_until_a_mistake() {
    let mut s = PracticeSession::new(words(&["one", "two"]));
    s.submit("one");
    s.submit("two");
    assert_eq!(s.successes(), 1);
    s.restart();
    s.submit("one");
    s.submit("two");
    assert_eq!(s.successes(), 2);
    s.restart();
    s.submit("oops");
    assert_eq!(s.successes(), 0);
}

#[test]
fn input_is_compared_after_trimming_surrounding_whitespace() {
    let mut s = PracticeSession::new(words(&["apple", "brave"]));
    assert_eq!(s.submit("  apple \n"), SessionState::AwaitingWord { index: 1 });
    // matching is exact and case-sensitive beyond that
    assert_eq!(s.submit("Brave"), SessionState::Mistake);
}

#[test]
fn session_exposes_its_phrase() {
    let s = PracticeSession::new(words(&["apple", "brave"]));
    assert_eq!(s.word_count(), 2);
    assert_eq!(s.word_at(0), "apple");
    assert_eq!(s.word_at(1), "brave");
}

#[test]
fn generate_draws_count_distinct_words_from_source() {
    let source = words(&["a", "b", "c", "d", "e", "f", "g", "h"]);
    let phrase = generate(&source, 5).unwrap();
    assert_eq!(phrase.len(), 5);
    for w in &phrase {
        assert!(source.contains(w));
    }
    let mut sorted = phrase.clone();
    sorted.sort();
    sorted.dedup();
    assert_eq!(sorted.len(), 5);
}

#[test]
fn generate_of_the_whole_source_is_a_permutation() {
    let source = words(&["a", "b", "c", "d"]);
    let mut phrase = generate(&source, 4).unwrap();
    phrase.sort();
    assert_eq!(phrase, words(&["a", "b", "c", "d"]));
}

#[test]
fn generate_with_too_few_words_fails() {
    let source = words(&["a", "b", "c"]);
    assert_eq!(generate(&source, 4).unwrap_err(), PhraseError::InsufficientWords);
    let empty: Vec<String> = Vec::new();
    assert_eq!(generate(&empty, 1).unwrap_err(), PhraseError::InsufficientWords);
}

#[test]
fn generate_of_zero_words_is_empty() {
    let source = words(&["a", "b"]);
    assert_eq!(generate(&source, 0).unwrap(), Vec::<String>::new());
}

#[test]
fn csv_words_come_from_the_first_field() {
    let text = "apple,1\nbrave,2\ncedar,3\n";
    assert_eq!(words_from_csv(text), words(&["apple", "brave", "cedar"]));
}

#[test]
fn csv_single_column_and_empty_input() {
    assert_eq!(words_from_csv("apple\nbrave\n"), words(&["apple", "brave"]));
    assert_eq!(words_from_csv(""), Vec::<String>::new());
}

#[test]
fn csv_quoted_fields_are_unescaped() {
    let text = "\"two words\",x\nplain,y\n";
    assert_eq!(words_from_csv(text), words(&["two words", "plain"]));
}
