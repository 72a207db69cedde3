//! Spell-check scanning for a text editor: finds the words of a text, places
//! them in UTF-16 code units, and reports those that neither the user's custom
//! words nor the dictionary accept.

pub mod cursor;
pub mod encoding;
pub mod scan;
pub mod session;
pub mod tokenizer;
pub mod words;
