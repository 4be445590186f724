use mnemonic_practice::errors::PhraseError;
use mnemonic_practice::lines::{decode_phrase, encode_phrase};
use mnemonic_practice::names::{backup_name, is_backup_name, parse_backup_name};
use mnemonic_practice::registry::{list_backups, next_backup_number, str_leq};
use mnemonic_practice::store::Directory;

fn words(ws: &[&str]) -> Vec<String> {
    ws.iter().map(|w| w.to_string()).collect()
}

#[test]
fn backup_name_is_zero_padded() {
    assert_eq!(backup_name(1), "phrase.001.txt");
    assert_eq!(backup_name(42), "phrase.042.txt");
    assert_eq!(backup_name(999), "phrase.999.txt");
    assert_eq!(backup_name(1234), "phrase.1234.txt");
}

#[test]
fn parse_backup_name_round_trip() {
    assert_eq!(parse_backup_name("phrase.004.txt"), Some(4));
    assert_eq!(parse_backup_name(&backup_name(77)), Some(77));
    assert_eq!(parse_backup_name("phrase.0001.txt"), Some(1));
}

#[test]
fn parse_backup_name_rejects_malformed() {
    assert_eq!(parse_backup_name("phrase.txt"), None);
    assert_eq!(parse_backup_name("phrase..txt"), None);
    assert_eq!(parse_backup_name("phrase.abc.txt"), None);
    assert_eq!(parse_backup_name("phrase.1x2.txt"), None);
    assert_eq!(parse_backup_name("notes.001.txt"), None);
    assert_eq!(parse_backup_name("phrase.001.log"), None);
    // a numeric token too large for a sequence number is skipped
    assert_eq!(parse_backup_name("phrase.99999999999.txt"), None);
}

#[test]
fn backup_shape_check() {
    assert!(is_backup_name("phrase.001.txt"));
    assert!(is_backup_name("phrase.abc.txt"));
    assert!(!is_backup_name("phrase.txt"));
    assert!(!is_backup_name("word.001.txt"));
}

#[test]
fn next_number_is_max_plus_one_with_gaps_kept() {
    let names = words(&["phrase.001.txt", "phrase.003.txt"]);
    assert_eq!(next_backup_number(&names), Some(4));
}

#[test]
fn next_number_skips_malformed_and_active() {
    let names = words(&["phrase.txt", "phrase.abc.txt", "words.csv"]);
    assert_eq!(next_backup_number(&names), Some(1));
    let empty: Vec<String> = Vec::new();
    assert_eq!(next_backup_number(&empty), Some(1));
}

#[test]
fn next_number_overflow_is_reported() {
    let names = words(&["phrase.4294967295.txt"]);
    assert_eq!(next_backup_number(&names), None);
}

#[test]
fn listing_is_sorted_and_filtered() {
    let names = words(&[
        "phrase.010.txt",
        "phrase.txt",
        "notes.txt",
        "phrase.002.txt",
        "phrase.abc.txt",
    ]);
    let listed = list_backups(&names);
    assert_eq!(listed, words(&["phrase.002.txt", "phrase.010.txt", "phrase.abc.txt"]));
}

#[test]
fn string_order_is_lexicographic() {
    assert!(str_leq("phrase.001.txt", "phrase.002.txt"));
    assert!(!str_leq("phrase.010.txt", "phrase.002.txt"));
    assert!(str_leq("abc", "abcd"));
    assert!(str_leq("abc", "abc"));
    assert!(!str_leq("abd", "abc"));
}

#[test]
fn encode_and_decode_round_trip() {
    let p = words(&["apple", "brave", "cedar"]);
    let text = encode_phrase(&p);
    assert_eq!(text, "apple\nbrave\ncedar\n");
    assert_eq!(decode_phrase(&text), p);
    let empty: Vec<String> = Vec::new();
    assert_eq!(encode_phrase(&empty), "");
    assert_eq!(decode_phrase(""), empty);
    // a final line ending is optional when reading
    assert_eq!(decode_phrase("apple\nbrave"), words(&["apple", "brave"]));
}

#[test]
fn save_fresh_then_load_round_trips() {
    let mut d = Directory::new();
    let p = words(&["apple", "brave", "cedar"]);
    let created = d.save(&p).unwrap();
    assert_eq!(created, None);
    assert_eq!(d.load().unwrap(), p);
    assert_eq!(d.read("phrase.txt").unwrap(), "apple\nbrave\ncedar\n");
}

#[test]
fn save_over_existing_creates_backup_of_old_phrase() {
    let mut d = Directory::new();
    let pa = words(&["alpha", "beta"]);
    let pb = words(&["gamma", "delta"]);
    d.save(&pa).unwrap();
    let created = d.save(&pb).unwrap();
    assert_eq!(created, Some("phrase.001.txt".to_string()));
    assert_eq!(d.read("phrase.001.txt").unwrap(), encode_phrase(&pa));
    assert_eq!(d.load().unwrap(), pb);
}

#[test]
fn rotation_uses_max_plus_one() {
    let mut d = Directory::new();
    d.write("phrase.001.txt", "one\n".to_string());
    d.write("phrase.003.txt", "three\n".to_string());
    d.write("phrase.txt", "active\n".to_string());
    let created = d.rotate().unwrap();
    assert_eq!(created, Some("phrase.004.txt".to_string()));
    assert_eq!(d.read("phrase.004.txt").unwrap(), "active\n");
    assert!(!d.contains("phrase.txt"));
}

#[test]
fn rotation_without_active_is_a_no_op() {
    let mut d = Directory::new();
    d.write("phrase.001.txt", "one\n".to_string());
    let created = d.rotate().unwrap();
    assert_eq!(created, None);
    assert!(d.contains("phrase.001.txt"));
}

#[test]
fn rotation_overflow_fails_and_preserves_active() {
    let mut d = Directory::new();
    d.write("phrase.4294967295.txt", "old\n".to_string());
    d.write("phrase.txt", "active\n".to_string());
    let err = d.save(&words(&["next"])).unwrap_err();
    assert_eq!(err, PhraseError::BackupRotationFailure);
    assert_eq!(d.read("phrase.txt").unwrap(), "active\n");
}

#[test]
fn load_without_active_fails() {
    let d = Directory::new();
    assert_eq!(d.load().unwrap_err(), PhraseError::NoActivePhrase);
}

#[test]
fn swap_with_missing_active_consumes_backup() {
    let mut d = Directory::new();
    d.write("phrase.001.txt", "apple\nbrave\n".to_string());
    d.swap("phrase.001.txt").unwrap();
    assert_eq!(d.load().unwrap(), words(&["apple", "brave"]));
    assert!(!d.contains("phrase.001.txt"));
}

#[test]
fn swap_with_empty_active_consumes_backup() {
    let mut d = Directory::new();
    d.write("phrase.txt", "".to_string());
    d.write("phrase.002.txt", "cedar\n".to_string());
    d.swap("phrase.002.txt").unwrap();
    assert_eq!(d.read("phrase.txt").unwrap(), "cedar\n");
    assert!(!d.contains("phrase.002.txt"));
}

#[test]
fn swap_exchanges_contents() {
    let mut d = Directory::new();
    d.write("phrase.txt", "alpha\n".to_string());
    d.write("phrase.001.txt", "beta\n".to_string());
    d.swap("phrase.001.txt").unwrap();
    assert_eq!(d.read("phrase.txt").unwrap(), "beta\n");
    assert_eq!(d.read("phrase.001.txt").unwrap(), "alpha\n");
}

#[test]
fn swap_with_missing_backup_fails() {
    let mut d = Directory::new();
    d.write("phrase.txt", "alpha\n".to_string());
    let err = d.swap("phrase.009.txt").unwrap_err();
    assert_eq!(err, PhraseError::BackupNotFound);
    assert_eq!(d.read("phrase.txt").unwrap(), "alpha\n");
}

#[test]
fn error_messages_name_the_failure() {
    assert_eq!(PhraseError::NoActivePhrase.message(), "no active phrase to practice");
    assert_eq!(PhraseError::InsufficientWords.message(), "not enough words to build a phrase");
}
