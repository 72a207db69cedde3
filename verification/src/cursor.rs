//! From byte offsets to UTF-16 offsets, in one pass over the text.

use vstd::prelude::*;
use crate::encoding::{
    chars_before, is_boundary, lemma_chars_before, lemma_len_bounds, lemma_prefix_monotonic,
    substring, utf16_length, utf16_offset,
};

verus! {

/// How far a scan has come in its text: `utf16_pos` is the UTF-16
/// offset that corresponds to the byte offset `native_pos`. A cursor only
/// moves forward.
#[derive(Clone, Copy, Debug)]
pub struct ScanCursor {
    pub native_pos: usize,
    pub utf16_pos: usize,
}

impl ScanCursor {
    /// Whether the cursor stands at a character boundary of `text` and
    /// holds the UTF-16 offset of that boundary.
    pub open spec fn tracks(&self, text: Seq<char>) -> bool {
        &&& is_boundary(text, self.native_pos as int)
        &&& self.utf16_pos == utf16_offset(text, self.native_pos as int)
    }

    /// A cursor at the beginning of a text.
    pub fn new() -> (cursor: ScanCursor)
        ensures
            cursor.native_pos == 0,
            cursor.utf16_pos == 0,
            forall|text: Seq<char>| #[trigger] cursor.tracks(text),
    {
        let cursor = ScanCursor { native_pos: 0, utf16_pos: 0 };
        proof {
            assert forall|text: Seq<char>| #[trigger] cursor.tracks(text) by {
                assert(text.take(0) =~= Seq::<char>::empty());
                lemma_chars_before(text, 0);
            }
        }
        cursor
    }

    /// Moves the cursor to the byte offset `native_start` and returns the
    /// UTF-16 offset that corresponds to it. Only the text between the old
    /// position and the new one is read.
    pub fn advance_to(&mut self, text: &str, native_start: usize) -> (index: usize)
        requires
            old(self).tracks(text@),
            is_boundary(text@, native_start as int),
            old(self).native_pos <= native_start,
        ensures
            final(self).tracks(text@),
            final(self).native_pos == native_start,
            final(self).utf16_pos == index,
            index == utf16_offset(text@, native_start as int),
            old(self).utf16_pos <= index,
    {
        let ghost i = chars_before(text@, self.native_pos as int);
        let ghost j = chars_before(text@, native_start as int);
        proof {
            if j < i {
                lemma_prefix_monotonic(text@, j, i);
            }
            lemma_prefix_monotonic(text@, i, j);
            lemma_len_bounds(text@.take(j));
        }
        let gap = substring(text, self.native_pos, native_start, Ghost(i), Ghost(j));
        let units = utf16_length(gap);
        self.utf16_pos = self.utf16_pos + units;
        self.native_pos = native_start;
        self.utf16_pos
    }
}

} // verus!
