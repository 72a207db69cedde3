use std::cell::RefCell;
use std::collections::HashSet;

use tmbedit::scan::{report, scan, ReportedMatch};
use tmbedit::tokenizer::{tokenize, TextSpan};
use tmbedit::words::CustomWordSet;

struct Stub {
    known: HashSet<String>,
    asked: RefCell<Vec<String>>,
}

fn stub(known: &[&str]) -> Stub {
    Stub { known: known.iter().map(|w| w.to_string()).collect(), asked: RefCell::new(Vec::new()) }
}

fn ask(stub: &Stub, word: &str) -> bool {
    stub.asked.borrow_mut().push(word.to_string());
    stub.known.contains(word)
}

fn custom(words: &[&str]) -> CustomWordSet {
    CustomWordSet::from_words(words.iter().map(|w| w.to_string()).collect())
}

fn hit(word: &str, index: usize, length: usize) -> ReportedMatch {
    ReportedMatch { word: word.to_string(), index, length }
}

#[test]
fn misspelled_words_are_reported_in_order() {
    let dictionary = stub(&["this", "is"]);
    let found = scan("Helo wrold, this is fyne.", &custom(&[]), &dictionary, ask);
    assert_eq!(found, vec![hit("Helo", 0, 4), hit("wrold", 5, 5), hit("fyne", 20, 4)]);
}

#[test]
fn index_counts_utf16_units_not_bytes() {
    let dictionary = stub(&[]);
    let found = scan("café naïve", &custom(&[]), &dictionary, ask);
    assert_eq!(found, vec![hit("café", 0, 4), hit("naïve", 5, 5)]);
}

#[test]
fn characters_outside_the_basic_plane_count_twice() {
    let dictionary = stub(&[]);
    let found = scan("😀 wrold 𝄞𝄞 fyne", &custom(&[]), &dictionary, ask);
    assert_eq!(found, vec![hit("wrold", 3, 5), hit("fyne", 14, 4)]);
}

#[test]
fn empty_text_reports_nothing() {
    let dictionary = stub(&[]);
    assert!(scan("", &custom(&[]), &dictionary, ask).is_empty());
    assert!(dictionary.asked.borrow().is_empty());
}

#[test]
fn text_without_words_reports_nothing() {
    let dictionary = stub(&[]);
    assert!(scan("  ... ’ ' !!", &custom(&[]), &dictionary, ask).is_empty());
    assert!(dictionary.asked.borrow().is_empty());
}

#[test]
fn recognized_words_are_not_reported() {
    let dictionary = stub(&["all", "good", "here"]);
    assert!(scan("all good here", &custom(&[]), &dictionary, ask).is_empty());
}

#[test]
fn custom_word_is_not_reported_and_not_looked_up() {
    let dictionary = stub(&[]);
    let found = scan("fyne wrold", &custom(&["fyne"]), &dictionary, ask);
    assert_eq!(found, vec![hit("wrold", 5, 5)]);
    assert_eq!(*dictionary.asked.borrow(), vec!["wrold".to_string(), "wrold".to_string()]);
}

#[test]
fn custom_word_wins_whatever_the_dictionary_says() {
    for known in [&[][..], &["fyne"][..]] {
        let dictionary = stub(known);
        assert!(scan("fyne", &custom(&["fyne"]), &dictionary, ask).is_empty());
        assert!(dictionary.asked.borrow().is_empty());
    }
}

#[test]
fn custom_word_still_advances_the_offsets() {
    let dictionary = stub(&[]);
    let found = scan("ééé fyne wrold", &custom(&["ééé", "fyne"]), &dictionary, ask);
    assert_eq!(found, vec![hit("wrold", 9, 5)]);
}

#[test]
fn word_is_looked_up_as_written_first() {
    let dictionary = stub(&["don’t"]);
    assert!(scan("don’t", &custom(&[]), &dictionary, ask).is_empty());
    assert_eq!(*dictionary.asked.borrow(), vec!["don’t".to_string()]);
}

#[test]
fn typographic_apostrophe_is_looked_up_straight_second() {
    let dictionary = stub(&["don't"]);
    assert!(scan("don’t", &custom(&[]), &dictionary, ask).is_empty());
    assert_eq!(*dictionary.asked.borrow(), vec!["don’t".to_string(), "don't".to_string()]);
}

#[test]
fn both_apostrophes_are_accepted_when_the_dictionary_knows_the_straight_one() {
    let dictionary = stub(&["don't"]);
    assert!(scan("don't", &custom(&[]), &dictionary, ask).is_empty());
    assert!(scan("don’t", &custom(&[]), &dictionary, ask).is_empty());
}

#[test]
fn both_apostrophes_are_reported_when_nothing_knows_them() {
    let dictionary = stub(&[]);
    assert_eq!(scan("don't", &custom(&[]), &dictionary, ask), vec![hit("don't", 0, 5)]);
    assert_eq!(scan("don’t", &custom(&[]), &dictionary, ask), vec![hit("don’t", 0, 5)]);
}

#[test]
fn custom_words_match_only_as_written() {
    let dictionary = stub(&[]);
    assert!(scan("don't", &custom(&["don't"]), &dictionary, ask).is_empty());
    assert_eq!(scan("don’t", &custom(&["don't"]), &dictionary, ask), vec![hit("don’t", 0, 5)]);
}

#[test]
fn straight_form_is_not_looked_up_typographic() {
    let dictionary = stub(&["don’t"]);
    assert_eq!(scan("don't", &custom(&[]), &dictionary, ask), vec![hit("don't", 0, 5)]);
}

#[test]
fn matches_never_overlap_and_indices_grow() {
    let dictionary = stub(&["ok"]);
    let text = "zzq 😀 ok y'all's naïve— dogs' ’tis x_1 ééé";
    let found = scan(text, &custom(&["naïve"]), &dictionary, ask);
    assert!(!found.is_empty());
    for pair in found.windows(2) {
        assert!(pair[0].index + pair[0].length < pair[1].index);
    }
}

#[test]
fn index_equals_the_utf16_length_of_the_text_before_the_word() {
    let dictionary = stub(&[]);
    let text = "日本語 wrold 😀😀 fyne l’été 𝄞x";
    let units: Vec<u16> = text.encode_utf16().collect();
    let found = scan(text, &custom(&[]), &dictionary, ask);
    assert_eq!(found.len(), 5);
    for m in &found {
        let word: Vec<u16> = m.word.encode_utf16().collect();
        assert_eq!(m.length, word.len());
        assert_eq!(&units[m.index..m.index + m.length], &word[..]);
    }
}

#[test]
fn scanning_twice_gives_the_same_matches() {
    let dictionary = stub(&["this", "is"]);
    let words = custom(&["wrold"]);
    let text = "Helo wrold, this is fyne.";
    let first = scan(text, &words, &dictionary, ask);
    let second = scan(text, &words, &dictionary, ask);
    assert_eq!(first, second);
    assert_eq!(first, vec![hit("Helo", 0, 4), hit("fyne", 20, 4)]);
}

#[test]
fn scan_is_report_on_the_tokens() {
    let dictionary = stub(&["is"]);
    let text = "this is it";
    let spans = tokenize(text);
    let by_report = report(text, &spans, &custom(&["it"]), &dictionary, ask);
    let by_scan = scan(text, &custom(&["it"]), &dictionary, ask);
    assert_eq!(by_report, by_scan);
    assert_eq!(by_scan, vec![hit("this", 0, 4)]);
}

#[test]
fn report_places_given_spans() {
    let dictionary = stub(&[]);
    let text = "é😀ab";
    let spans = vec![
        TextSpan { text: "é", native_start: 0, native_length: 2 },
        TextSpan { text: "ab", native_start: 6, native_length: 2 },
    ];
    let found = report(text, &spans, &custom(&[]), &dictionary, ask);
    assert_eq!(found, vec![hit("é", 0, 1), hit("ab", 3, 2)]);
}

fn sample_text(seed: &mut u64, length: usize) -> String {
    let alphabet = [
        'a', 'b', 'c', ' ', ' ', '\'', '’', '.', 'é', '日', '😀', '𝄞', '\u{300}', '\n', '-',
    ];
    let mut text = String::new();
    for _ in 0..length {
        *seed = seed.wrapping_mul(6364136223846793005).wrapping_add(1442695040888963407);
        text.push(alphabet[((*seed >> 33) as usize) % alphabet.len()]);
    }
    text
}

#[test]
fn matches_are_placed_as_a_fresh_encoding_places_them() {
    let dictionary = stub(&["a", "ab", "b'c", "é"]);
    let words = custom(&["c", "ba"]);
    let mut seed = 0xfeed_u64;
    for round in 0..800 {
        let text = sample_text(&mut seed, round % 50);
        let units: Vec<u16> = text.encode_utf16().collect();
        let found = scan(&text, &words, &dictionary, ask);
        let mut last_end = 0;
        for m in &found {
            let word: Vec<u16> = m.word.encode_utf16().collect();
            assert!(m.index >= last_end, "text: {:?}", text);
            assert_eq!(m.length, word.len());
            assert_eq!(&units[m.index..m.index + m.length], &word[..], "text: {:?}", text);
            assert!(!words.contains(&m.word));
            assert!(!dictionary.known.contains(&m.word));
            assert!(!dictionary.known.contains(&m.word.replace("’", "'")));
            last_end = m.index + m.length;
        }
        let reported: Vec<&str> = found.iter().map(|m| m.word.as_str()).collect();
        let expected: Vec<&str> = tokenize(&text)
            .iter()
            .map(|s| s.text)
            .filter(|w| {
                !words.contains(w)
                    && !dictionary.known.contains(*w)
                    && !dictionary.known.contains(&w.replace("’", "'"))
            })
            .collect();
        assert_eq!(reported, expected, "text: {:?}", text);
    }
}

#[test]
fn a_clone_of_a_match_equals_the_match() {
    let m = hit("wrold", 5, 5);
    assert_eq!(m.clone(), m);
}
