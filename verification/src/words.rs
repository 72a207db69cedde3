//! The user's custom words, and the two spellings of the apostrophe.

use vstd::prelude::*;
use vstd::std_specs::iter::IteratorSpec;
use vstd::string::*;
use crate::encoding::lemma_encode_injective;

verus! {

/// `String::push` appends one character to the end of the string.
pub assume_specification[ String::push ](s: &mut String, ch: char)
    ensures
        final(s)@ == old(s)@.push(ch),
;

/// Tells whether two texts are the same, character for character.
pub fn same_text(a: &str, b: &str) -> (same: bool)
    ensures
        same == (a@ == b@),
{
    let x = a.as_bytes();
    let y = b.as_bytes();
    if x.len() != y.len() {
        return false;
    }
    let mut i: usize = 0;
    while i < x.len()
        invariant
            i <= x.len(),
            x.len() == y.len(),
            x@ == a.spec_bytes(),
            y@ == b.spec_bytes(),
            forall|k: int| 0 <= k < i ==> x@[k] == y@[k],
        decreases x.len() - i,
    {
        if x[i] != y[i] {
            return false;
        }
        i = i + 1;
    }
    proof {
        assert(x@ =~= y@);
        lemma_encode_injective(a@, b@);
    }
    true
}

/// The straight apostrophe in place of the typographic one; every other
/// character as it is.
pub open spec fn normalize_char(c: char) -> char {
    if c == '\u{2019}' {
        '\''
    } else {
        c
    }
}

/// A word with every typographic apostrophe replaced by the straight one.
pub open spec fn normalized(word: Seq<char>) -> Seq<char> {
    word.map_values(|c: char| normalize_char(c))
}

/// Replaces every typographic apostrophe of a word by the straight one.
pub fn normalize_apostrophes(word: &str) -> (out: String)
    ensures
        out@ == normalized(word@),
{
    let mut out = String::new();
    let mut rest = word.chars();
    proof {
        assert(word@.skip(0) =~= word@);
        assert(out@ =~= normalized(word@.take(0)));
    }
    loop
        invariant
            out@.len() <= word@.len(),
            rest.remaining() == word@.skip(out@.len() as int),
            out@ == normalized(word@.take(out@.len() as int)),
        ensures
            out@ == normalized(word@),
        decreases word@.len() - out@.len(),
    {
        let ghost i = out@.len() as int;
        match rest.next() {
            None => {
                assert(word@.take(i) =~= word@);
                break ;
            },
            Some(c) => {
                if c == '\u{2019}' {
                    out.push('\'');
                } else {
                    out.push(c);
                }
                proof {
                    assert(word@.skip(i).drop_first() =~= word@.skip(i + 1));
                    assert(out@ =~= normalized(word@.take(i + 1)));
                }
            },
        }
    }
    out
}

/// The words that the user has declared correct, in the order in which
/// they were added. A word is in the set when it equals one of them
/// character for character.
pub struct CustomWordSet {
    words: Vec<String>,
}

impl View for CustomWordSet {
    type V = Seq<Seq<char>>;

    closed spec fn view(&self) -> Seq<Seq<char>> {
        self.words@.map_values(|w: String| w@)
    }
}

impl CustomWordSet {
    /// A set without words.
    pub fn new() -> (set: CustomWordSet)
        ensures
            set@ == Seq::<Seq<char>>::empty(),
    {
        let set = CustomWordSet { words: Vec::new() };
        assert(set@ =~= Seq::<Seq<char>>::empty());
        set
    }

    /// The set of the given words, in their order.
    pub fn from_words(words: Vec<String>) -> (set: CustomWordSet)
        ensures
            set@ == words@.map_values(|w: String| w@),
    {
        CustomWordSet { words }
    }

    /// Adds a word at the end. A word that is already there is added again.
    pub fn add(&mut self, word: String)
        ensures
            final(self)@ == old(self)@.push(word@),
    {
        self.words.push(word);
        assert(self@ =~= old(self)@.push(word@));
    }

    /// Number of words, counting repetitions.
    pub fn len(&self) -> (n: usize)
        ensures
            n == self@.len(),
    {
        self.words.len()
    }

    /// Tells whether `word` is one of the custom words.
    pub fn contains(&self, word: &str) -> (found: bool)
        ensures
            found == self@.contains(word@),
    {
        let mut i: usize = 0;
        while i < self.words.len()
            invariant
                i <= self.words.len(),
                forall|k: int| 0 <= k < i ==> self@[k] != word@,
            decreases self.words.len() - i,
        {
            if same_text(self.words[i].as_str(), word) {
                assert(self@[i as int] == word@);
                return true;
            }
            i = i + 1;
        }
        false
    }
}

} // verus!
