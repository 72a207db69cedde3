use tmbedit::cursor::ScanCursor;

#[test]
fn new_cursor_stands_at_the_beginning() {
    let cursor = ScanCursor::new();
    assert_eq!(cursor.native_pos, 0);
    assert_eq!(cursor.utf16_pos, 0);
}

#[test]
fn advance_over_ascii_keeps_both_offsets_equal() {
    let mut cursor = ScanCursor::new();
    assert_eq!(cursor.advance_to("Helo wrold", 5), 5);
    assert_eq!(cursor.native_pos, 5);
    assert_eq!(cursor.utf16_pos, 5);
}

#[test]
fn advance_counts_a_two_byte_character_once() {
    let mut cursor = ScanCursor::new();
    assert_eq!(cursor.advance_to("café naïve", 6), 5);
    assert_eq!(cursor.native_pos, 6);
    assert_eq!(cursor.utf16_pos, 5);
}

#[test]
fn advance_counts_a_character_outside_the_basic_plane_twice() {
    let mut cursor = ScanCursor::new();
    assert_eq!(cursor.advance_to("😀 word", 5), 3);
}

#[test]
fn advance_in_steps_adds_up() {
    let text = "a😀 bé cd";
    let mut cursor = ScanCursor::new();
    assert_eq!(cursor.advance_to(text, 0), 0);
    assert_eq!(cursor.advance_to(text, 6), 4);
    assert_eq!(cursor.advance_to(text, 10), 7);
    assert_eq!(cursor.advance_to(text, 12), 9);
    assert_eq!(cursor.native_pos, 12);
    assert_eq!(cursor.utf16_pos, 9);
}

#[test]
fn advance_to_the_same_place_changes_nothing() {
    let mut cursor = ScanCursor::new();
    assert_eq!(cursor.advance_to("één", 2), 1);
    assert_eq!(cursor.advance_to("één", 2), 1);
    assert_eq!(cursor.native_pos, 2);
}

#[test]
fn cursor_never_moves_back() {
    let text = "x é 😀 y";
    let mut cursor = ScanCursor::new();
    let mut last = 0;
    for start in [0, 2, 5, 10] {
        let index = cursor.advance_to(text, start);
        assert!(index >= last);
        assert_eq!(index, text[..start].encode_utf16().count());
        last = index;
    }
}
