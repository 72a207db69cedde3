//! Lengths of text in UTF-8 bytes and UTF-16 code units, and the parts of
//! a `str` between byte offsets.

use vstd::prelude::*;
use vstd::std_specs::iter::IteratorSpec;
use vstd::string::*;
use vstd::utf8::*;

verus! {

/// Number of bytes that the UTF-8 encoding of one character occupies.
pub open spec fn utf8_units(c: char) -> nat {
    let v = c as u32;
    if v < 0x80 {
        1
    } else if v < 0x800 {
        2
    } else if v < 0x10000 {
        3
    } else {
        4
    }
}

/// Number of UTF-16 code units that one character occupies: two outside the
/// Basic Multilingual Plane, one inside it.
pub open spec fn utf16_units(c: char) -> nat {
    if (c as u32) < 0x10000 {
        1
    } else {
        2
    }
}

/// Length of a text in UTF-8 bytes.
pub open spec fn utf8_len(s: Seq<char>) -> nat
    decreases s.len(),
{
    if s.len() == 0 {
        0
    } else {
        utf8_len(s.drop_last()) + utf8_units(s.last())
    }
}

/// Length of a text in UTF-16 code units.
pub open spec fn utf16_len(s: Seq<char>) -> nat
    decreases s.len(),
{
    if s.len() == 0 {
        0
    } else {
        utf16_len(s.drop_last()) + utf16_units(s.last())
    }
}

/// Both lengths are additive over concatenation.
pub proof fn lemma_len_concat(a: Seq<char>, b: Seq<char>)
    ensures
        utf8_len(a + b) == utf8_len(a) + utf8_len(b),
        utf16_len(a + b) == utf16_len(a) + utf16_len(b),
    decreases b.len(),
{
    if b.len() == 0 {
        assert(a + b =~= a);
    } else {
        assert((a + b).drop_last() =~= a + b.drop_last());
        assert((a + b).last() == b.last());
        lemma_len_concat(a, b.drop_last());
    }
}

/// Every character takes at least one unit in either encoding, and never
/// more UTF-16 units than UTF-8 bytes.
pub proof fn lemma_len_bounds(s: Seq<char>)
    ensures
        s.len() <= utf16_len(s) <= utf8_len(s),
    decreases s.len(),
{
    if s.len() > 0 {
        lemma_len_bounds(s.drop_last());
    }
}

/// The lengths of the prefixes of a text grow with the prefix, by at least
/// one unit for each character, and by the length of what lies between.
pub proof fn lemma_prefix_monotonic(s: Seq<char>, i: int, j: int)
    requires
        0 <= i <= j <= s.len(),
    ensures
        utf8_len(s.take(i)) + (j - i) <= utf8_len(s.take(j)),
        utf16_len(s.take(i)) + (j - i) <= utf16_len(s.take(j)),
        utf8_len(s.take(j)) == utf8_len(s.take(i)) + utf8_len(s.subrange(i, j)),
        utf16_len(s.take(j)) == utf16_len(s.take(i)) + utf16_len(s.subrange(i, j)),
{
    assert(s.take(j) =~= s.take(i) + s.subrange(i, j));
    lemma_len_concat(s.take(i), s.subrange(i, j));
    lemma_len_bounds(s.subrange(i, j));
}

/// Extending a prefix by one character adds that character's units.
pub proof fn lemma_prefix_step(s: Seq<char>, i: int)
    requires
        0 <= i < s.len(),
    ensures
        utf8_len(s.take(i + 1)) == utf8_len(s.take(i)) + utf8_units(s[i]),
        utf16_len(s.take(i + 1)) == utf16_len(s.take(i)) + utf16_units(s[i]),
{
    assert(s.take(i + 1).drop_last() =~= s.take(i));
}

/// Computes the number of UTF-8 bytes of one character.
pub fn utf8_width(c: char) -> (n: usize)
    ensures
        n == utf8_units(c),
{
    let v = c as u32;
    if v < 0x80 {
        1
    } else if v < 0x800 {
        2
    } else if v < 0x10000 {
        3
    } else {
        4
    }
}

/// Computes the number of UTF-16 code units of one character.
pub fn utf16_width(c: char) -> (n: usize)
    ensures
        n == utf16_units(c),
{
    if (c as u32) < 0x10000 {
        1
    } else {
        2
    }
}

/// The UTF-8 encoding of a concatenation is the concatenation of the
/// encodings.
pub proof fn lemma_encode_concat(a: Seq<char>, b: Seq<char>)
    ensures
        encode_utf8(a + b) =~= encode_utf8(a) + encode_utf8(b),
    decreases a.len(),
{
    if a.len() == 0 {
        assert(a + b =~= b);
    } else {
        assert((a + b).drop_first() =~= a.drop_first() + b);
        lemma_encode_concat(a.drop_first(), b);
    }
}

/// `utf8_len` is the length of the UTF-8 encoding.
pub proof fn lemma_encoded_len(s: Seq<char>)
    ensures
        encode_utf8(s).len() == utf8_len(s),
    decreases s.len(),
{
    if s.len() > 0 {
        let c = s.last();
        let one = seq![c];
        assert(s =~= s.drop_last() + one);
        lemma_encode_concat(s.drop_last(), one);
        lemma_encoded_len(s.drop_last());
        assert(one.drop_first() =~= Seq::<char>::empty());
        assert(encode_utf8(one) =~= encode_scalar(c as u32)) by {
            reveal_with_fuel(encode_utf8, 2);
        }
        char_is_scalar(c);
        assert(encode_scalar(c as u32).len() == utf8_units(c));
    }
}

/// Two texts with the same UTF-8 encoding are the same text.
pub proof fn lemma_encode_injective(a: Seq<char>, b: Seq<char>)
    requires
        encode_utf8(a) == encode_utf8(b),
    ensures
        a == b,
{
    encode_utf8_decode_utf8(a);
    encode_utf8_decode_utf8(b);
}

/// The byte offset at which character `i` of a text starts is a character
/// boundary of its encoding, and it splits the encoding into the encodings
/// of the characters before and after it.
pub proof fn lemma_split_encoding(s: Seq<char>, i: int)
    requires
        0 <= i <= s.len(),
    ensures
        utf8_len(s.take(i)) <= encode_utf8(s).len(),
        is_char_boundary(encode_utf8(s), utf8_len(s.take(i)) as int),
        encode_utf8(s).subrange(0, utf8_len(s.take(i)) as int) == encode_utf8(s.take(i)),
        encode_utf8(s).subrange(utf8_len(s.take(i)) as int, encode_utf8(s).len() as int)
            == encode_utf8(s.skip(i)),
    decreases i,
{
    let bytes = encode_utf8(s);
    let p = utf8_len(s.take(i)) as int;
    assert(s =~= s.take(i) + s.skip(i));
    lemma_encode_concat(s.take(i), s.skip(i));
    lemma_encoded_len(s.take(i));
    lemma_encoded_len(s);
    assert(bytes.subrange(0, p) =~= encode_utf8(s.take(i)));
    assert(bytes.subrange(p, bytes.len() as int) =~= encode_utf8(s.skip(i)));
    encode_utf8_valid_utf8(s);
    if i > 0 {
        let rest = s.drop_first();
        encode_utf8_first_scalar(s);
        assert(pop_first_scalar(bytes) =~= encode_utf8(rest));
        lemma_split_encoding(rest, i - 1);
        assert(s.take(i) =~= seq![s[0]] + rest.take(i - 1));
        lemma_len_concat(seq![s[0]], rest.take(i - 1));
        lemma_prefix_step(s, 0);
        assert(s.take(1) =~= seq![s[0]]);
        assert(s.take(0) =~= Seq::<char>::empty());
        assert(length_of_first_scalar(bytes) == utf8_units(s[0]));
        assert(p - length_of_first_scalar(bytes) == utf8_len(rest.take(i - 1)));
        assert(p > 0) by {
            lemma_len_bounds(s.take(i));
        }
    } else {
        assert(s.take(0) =~= Seq::<char>::empty());
    }
}

/// Length of a `str` in bytes.
pub fn byte_len(text: &str) -> (n: usize)
    ensures
        n == utf8_len(text@),
{
    proof {
        lemma_encoded_len(text@);
    }
    text.as_bytes().len()
}

/// The part of `text` between the byte offsets `start` and `end`, at which
/// the characters `i` and `j` start.
pub(crate) fn substring<'a>(
    text: &'a str,
    start: usize,
    end: usize,
    Ghost(i): Ghost<int>,
    Ghost(j): Ghost<int>,
) -> (part: &'a str)
    requires
        0 <= i <= j <= text@.len(),
        start == utf8_len(text@.take(i)),
        end == utf8_len(text@.take(j)),
    ensures
        part@ == text@.subrange(i, j),
{
    proof {
        lemma_split_encoding(text@, i);
        lemma_prefix_monotonic(text@, i, j);
    }
    let (_, tail) = text.split_at(start);
    proof {
        lemma_encode_injective(tail@, text@.skip(i));
        lemma_split_encoding(tail@, j - i);
        assert(text@.skip(i).take(j - i) =~= text@.subrange(i, j));
    }
    let (part, _) = tail.split_at(end - start);
    proof {
        lemma_encode_injective(part@, text@.subrange(i, j));
    }
    part
}

/// Whether `pos` is a byte offset at which a character of `text` starts,
/// or the end of the text.
pub open spec fn is_boundary(text: Seq<char>, pos: int) -> bool {
    exists|i: int| 0 <= i <= text.len() && utf8_len(#[trigger] text.take(i)) == pos
}

/// Number of characters of `text` that lie before the byte offset `pos`,
/// where `pos` is a boundary.
pub open spec fn chars_before(text: Seq<char>, pos: int) -> int {
    choose|i: int| 0 <= i <= text.len() && utf8_len(#[trigger] text.take(i)) == pos
}

/// The offset at which character `i` starts is a boundary, and `i`
/// characters lie before it.
pub proof fn lemma_chars_before(text: Seq<char>, i: int)
    requires
        0 <= i <= text.len(),
    ensures
        is_boundary(text, utf8_len(text.take(i)) as int),
        chars_before(text, utf8_len(text.take(i)) as int) == i,
{
    let pos = utf8_len(text.take(i)) as int;
    let k = chars_before(text, pos);
    if k < i {
        lemma_prefix_monotonic(text, k, i);
    } else if i < k {
        lemma_prefix_monotonic(text, i, k);
    }
}

/// The boundaries of a text are the character boundaries of its UTF-8
/// encoding, as `str::is_char_boundary` tells them.
pub proof fn lemma_boundary_of_encoding(text: Seq<char>, pos: int)
    ensures
        is_boundary(text, pos) <==> (0 <= pos <= encode_utf8(text).len() && is_char_boundary(
            encode_utf8(text),
            pos,
        )),
{
    let bytes = encode_utf8(text);
    encode_utf8_valid_utf8(text);
    if is_boundary(text, pos) {
        lemma_split_encoding(text, chars_before(text, pos));
    }
    if 0 <= pos <= bytes.len() && is_char_boundary(bytes, pos) {
        let head = bytes.subrange(0, pos);
        let before = decode_utf8(head);
        let after = decode_utf8(bytes.subrange(pos, bytes.len() as int));
        valid_utf8_split(bytes, pos);
        decode_utf8_split(bytes, pos);
        encode_utf8_decode_utf8(text);
        decode_utf8_encode_utf8(head);
        lemma_encoded_len(before);
        assert(text =~= before + after);
        assert(text.take(before.len() as int) =~= before);
    }
}

/// The offset in UTF-16 code units that corresponds to the byte offset
/// `pos` of `text`: the UTF-16 length of the characters that lie before it.
pub open spec fn utf16_offset(text: Seq<char>, pos: int) -> nat {
    utf16_len(text.take(chars_before(text, pos)))
}

/// Counts the UTF-16 code units of a text.
pub fn utf16_length(text: &str) -> (n: usize)
    ensures
        n == utf16_len(text@),
{
    let total = byte_len(text);
    let mut units: usize = 0;
    let mut rest = text.chars();
    let ghost mut i: int = 0;
    proof {
        assert(text@.skip(0) =~= text@);
        assert(text@.take(0) =~= Seq::<char>::empty());
    }
    loop
        invariant
            0 <= i <= text@.len(),
            rest.remaining() == text@.skip(i),
            units == utf16_len(text@.take(i)),
            total == utf8_len(text@),
        ensures
            units == utf16_len(text@),
        decreases text@.len() - i,
    {
        match rest.next() {
            None => {
                assert(text@.take(i) =~= text@);
                break ;
            },
            Some(c) => {
                proof {
                    lemma_prefix_step(text@, i);
                    lemma_prefix_monotonic(text@, i + 1, text@.len() as int);
                    lemma_len_bounds(text@.take(i + 1));
                    assert(text@.take(text@.len() as int) =~= text@);
                    assert(text@.skip(i).drop_first() =~= text@.skip(i + 1));
                }
                units = units + utf16_width(c);
                proof {
                    i = i + 1;
                }
            },
        }
    }
    units
}

} // verus!
