use tmbedit::encoding::{byte_len, utf16_length, utf16_width, utf8_width};

#[test]
fn utf8_width_at_the_edges_of_each_class() {
    assert_eq!(utf8_width('\0'), 1);
    assert_eq!(utf8_width('\u{7f}'), 1);
    assert_eq!(utf8_width('\u{80}'), 2);
    assert_eq!(utf8_width('\u{7ff}'), 2);
    assert_eq!(utf8_width('\u{800}'), 3);
    assert_eq!(utf8_width('\u{ffff}'), 3);
    assert_eq!(utf8_width('\u{10000}'), 4);
    assert_eq!(utf8_width('\u{10ffff}'), 4);
}

#[test]
fn utf8_width_agrees_with_std() {
    for c in ['a', 'é', 'ï', '’', '€', '𝄞', '😀', '\u{d7ff}', '\u{e000}'] {
        assert_eq!(utf8_width(c), c.len_utf8());
    }
}

#[test]
fn utf16_width_is_two_outside_the_basic_plane() {
    assert_eq!(utf16_width('a'), 1);
    assert_eq!(utf16_width('é'), 1);
    assert_eq!(utf16_width('\u{ffff}'), 1);
    assert_eq!(utf16_width('\u{10000}'), 2);
    assert_eq!(utf16_width('😀'), 2);
}

#[test]
fn utf16_width_agrees_with_std() {
    for c in ['a', 'é', '’', '€', '𝄞', '😀', '\u{d7ff}', '\u{e000}'] {
        assert_eq!(utf16_width(c), c.len_utf16());
    }
}

#[test]
fn byte_len_counts_bytes() {
    assert_eq!(byte_len(""), 0);
    assert_eq!(byte_len("café"), 5);
    assert_eq!(byte_len("a😀b"), 6);
}

#[test]
fn utf16_length_of_empty_text_is_zero() {
    assert_eq!(utf16_length(""), 0);
}

#[test]
fn utf16_length_counts_code_units() {
    assert_eq!(utf16_length("hello"), 5);
    assert_eq!(utf16_length("café "), 5);
    assert_eq!(utf16_length("naïve"), 5);
    assert_eq!(utf16_length("don’t"), 5);
    assert_eq!(utf16_length("a😀b"), 4);
    assert_eq!(utf16_length("𝄞𝄞"), 4);
}

#[test]
fn utf16_length_agrees_with_std() {
    for text in ["", "plain", "café naïve", "日本語 text", "😀 emoji 😀", "don’t"] {
        assert_eq!(utf16_length(text), text.encode_utf16().count());
    }
}
