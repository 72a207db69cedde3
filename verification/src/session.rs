//! The state of a spell-check session: the dictionary, once it is loaded,
//! and the custom words.

use vstd::prelude::*;
use crate::scan::{is_scan_outcome, match_views, may_be_asked, scan, ReportedMatch};
use crate::tokenizer::word_spans;
use crate::words::CustomWordSet;

verus! {

/// Why a request to the session failed.
#[derive(Clone, Copy, Debug, PartialEq, Eq, Structural)]
pub enum SpellError {
    /// No dictionary has been loaded yet.
    NotInitialized,
}

impl SpellError {
    /// The error in words.
    pub fn message(&self) -> (text: String)
        ensures
            text@ == "Spell checker not initialized"@,
    {
        "Spell checker not initialized".to_owned()
    }
}

/// A spell-check session over a dictionary of type `D`. The session owns
/// the dictionary and the custom words; whoever shares it between threads
/// guards it as a whole.
pub struct SpellCheckSession<D> {
    dictionary: Option<D>,
    custom_words: CustomWordSet,
}

impl<D> SpellCheckSession<D> {
    /// The dictionary, once one is loaded.
    pub closed spec fn dictionary(&self) -> Option<D> {
        self.dictionary
    }

    /// The custom words, in the order in which they were added.
    pub closed spec fn custom_words(&self) -> Seq<Seq<char>> {
        self.custom_words@
    }

    /// A session without dictionary and without custom words.
    pub fn new() -> (session: Self)
        ensures
            session.dictionary() is None,
            session.custom_words() == Seq::<Seq<char>>::empty(),
    {
        SpellCheckSession { dictionary: None, custom_words: CustomWordSet::new() }
    }

    /// Takes a loaded dictionary and replaces the custom words.
    pub fn init(&mut self, dictionary: D, custom_words: Vec<String>)
        ensures
            final(self).dictionary() == Some(dictionary),
            final(self).custom_words() == custom_words@.map_values(|w: String| w@),
    {
        self.dictionary = Some(dictionary);
        self.custom_words = CustomWordSet::from_words(custom_words);
    }

    /// Tells whether a dictionary is loaded.
    pub fn is_initialized(&self) -> (ready: bool)
        ensures
            ready == self.dictionary() is Some,
    {
        self.dictionary.is_some()
    }

    /// Adds a custom word. The dictionary stays as it is.
    pub fn add_custom_word(&mut self, word: String)
        ensures
            final(self).dictionary() == old(self).dictionary(),
            final(self).custom_words() == old(self).custom_words().push(word@),
    {
        self.custom_words.add(word);
    }

    /// Scans a text against the session's dictionary and custom words.
    /// Without a dictionary the scan fails and nothing is looked up.
    pub fn check_text<F: Fn(&D, &str) -> bool>(&self, text: &str, check: F) -> (result: Result<
        Vec<ReportedMatch>,
        SpellError,
    >)
        requires
            self.dictionary() matches Some(d) ==> forall|word: &str|
                may_be_asked(self.custom_words(), word_spans(text@), word@) ==> call_requires(
                    check,
                    (&d, word),
                ),
        ensures
            self.dictionary() is None ==> result == Err::<Vec<ReportedMatch>, SpellError>(
                SpellError::NotInitialized,
            ),
            self.dictionary() matches Some(d) ==> result matches Ok(matches) && is_scan_outcome(
                text@,
                self.custom_words(),
                &d,
                check,
                match_views(matches@),
            ),
    {
        match &self.dictionary {
            None => Err(SpellError::NotInitialized),
            Some(dictionary) => Ok(scan(text, &self.custom_words, dictionary, check)),
        }
    }

    /// Asks the dictionary for corrections of a word, through `suggest`.
    /// Without a dictionary the request fails and `suggest` is not called.
    pub fn get_suggestions<F: Fn(&D, &str) -> Vec<String>>(&self, word: &str, suggest: F) -> (result:
        Result<Vec<String>, SpellError>)
        requires
            self.dictionary() matches Some(d) ==> call_requires(suggest, (&d, word)),
        ensures
            self.dictionary() is None ==> result == Err::<Vec<String>, SpellError>(
                SpellError::NotInitialized,
            ),
            self.dictionary() matches Some(d) ==> result matches Ok(suggestions) && call_ensures(
                suggest,
                (&d, word),
                suggestions,
            ),
    {
        match &self.dictionary {
            None => Err(SpellError::NotInitialized),
            Some(dictionary) => Ok(suggest(dictionary, word)),
        }
    }
}

} // verus!
