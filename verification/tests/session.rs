use std::collections::HashSet;

use tmbedit::scan::ReportedMatch;
use tmbedit::session::{SpellCheckSession, SpellError};

fn dictionary(words: &[&str]) -> HashSet<String> {
    words.iter().map(|w| w.to_string()).collect()
}

fn check(known: &HashSet<String>, word: &str) -> bool {
    known.contains(word)
}

fn suggest(known: &HashSet<String>, word: &str) -> Vec<String> {
    let mut near: Vec<String> =
        known.iter().filter(|w| w.len() == word.len()).map(|w| w.to_string()).collect();
    near.sort();
    near
}

fn hit(word: &str, index: usize, length: usize) -> ReportedMatch {
    ReportedMatch { word: word.to_string(), index, length }
}

#[test]
fn new_session_is_not_initialized() {
    let session: SpellCheckSession<HashSet<String>> = SpellCheckSession::new();
    assert!(!session.is_initialized());
}

#[test]
fn check_text_fails_before_init() {
    let session: SpellCheckSession<HashSet<String>> = SpellCheckSession::new();
    assert_eq!(session.check_text("Helo", check), Err(SpellError::NotInitialized));
}

#[test]
fn get_suggestions_fails_before_init() {
    let session: SpellCheckSession<HashSet<String>> = SpellCheckSession::new();
    assert_eq!(session.get_suggestions("Helo", suggest), Err(SpellError::NotInitialized));
}

#[test]
fn custom_words_alone_do_not_initialize() {
    let mut session: SpellCheckSession<HashSet<String>> = SpellCheckSession::new();
    session.add_custom_word("fyne".to_string());
    assert!(!session.is_initialized());
    assert_eq!(session.check_text("fyne", check), Err(SpellError::NotInitialized));
}

#[test]
fn not_initialized_says_so() {
    assert_eq!(SpellError::NotInitialized.message(), "Spell checker not initialized");
}

#[test]
fn check_text_after_init_reports_misspellings() {
    let mut session = SpellCheckSession::new();
    session.init(dictionary(&["this", "is"]), vec![]);
    assert!(session.is_initialized());
    assert_eq!(
        session.check_text("Helo wrold, this is fyne.", check),
        Ok(vec![hit("Helo", 0, 4), hit("wrold", 5, 5), hit("fyne", 20, 4)])
    );
}

#[test]
fn init_takes_the_custom_words() {
    let mut session = SpellCheckSession::new();
    session.init(dictionary(&[]), vec!["Helo".to_string(), "fyne".to_string()]);
    assert_eq!(session.check_text("Helo wrold fyne", check), Ok(vec![hit("wrold", 5, 5)]));
}

#[test]
fn init_replaces_earlier_custom_words() {
    let mut session = SpellCheckSession::new();
    session.add_custom_word("Helo".to_string());
    session.init(dictionary(&[]), vec!["fyne".to_string()]);
    assert_eq!(session.check_text("Helo fyne", check), Ok(vec![hit("Helo", 0, 4)]));
}

#[test]
fn added_custom_word_is_no_longer_reported() {
    let mut session = SpellCheckSession::new();
    session.init(dictionary(&[]), vec![]);
    assert_eq!(session.check_text("fyne", check), Ok(vec![hit("fyne", 0, 4)]));
    session.add_custom_word("fyne".to_string());
    assert_eq!(session.check_text("fyne", check), Ok(vec![]));
}

#[test]
fn get_suggestions_hands_back_what_the_dictionary_suggests() {
    let mut session = SpellCheckSession::new();
    session.init(dictionary(&["fine", "wine", "world"]), vec![]);
    assert_eq!(
        session.get_suggestions("fyne", suggest),
        Ok(vec!["fine".to_string(), "wine".to_string()])
    );
}
