use bezy::text_buffer::TextBuffer;

#[test]
fn text_buffer_add_and_backspace() {
    let mut b = TextBuffer::new();
    b.add_text("ab");
    assert_eq!(b.text(), "ab");
    assert_eq!(b.cursor_position(), 2);
    assert!(b.backspace());
    assert_eq!(b.text(), "a");
    assert_eq!(b.cursor_position(), 1);
}

#[test]
fn text_buffer_insert_in_middle() {
    let mut b = TextBuffer::default();
    b.add_text("hello");
    b.set_cursor_position(2);
    b.add_text("XY");
    assert_eq!(b.text(), "heXYllo");
    assert_eq!(b.cursor_position(), 4);
}

#[test]
fn text_buffer_backspace_at_start() {
    let mut b = TextBuffer::new();
    assert!(!b.backspace());
    b.add_text("ab");
    b.set_cursor_position(0);
    assert!(!b.backspace());
    assert_eq!(b.text(), "ab");
}

#[test]
fn text_buffer_cursor_clamped() {
    let mut b = TextBuffer::new();
    b.add_text("abc");
    b.set_cursor_position(99);
    assert_eq!(b.cursor_position(), 3);
    b.set_cursor_position(1);
    assert_eq!(b.cursor_position(), 1);
}

#[test]
fn text_buffer_typing_then_backspace_restores() {
    let mut b = TextBuffer::new();
    b.add_text("xyz");
    b.set_cursor_position(1);
    b.add_text("q");
    assert!(b.backspace());
    assert_eq!(b.text(), "xyz");
    assert_eq!(b.cursor_position(), 1);
}

#[test]
fn text_buffer_multibyte_backspace() {
    let mut b = TextBuffer::new();
    b.add_text("aé");
    // The cursor moves by bytes: 'é' takes two.
    assert_eq!(b.cursor_position(), 3);
    // Backspace removes the whole of 'é' and moves back by its two bytes.
    assert!(b.backspace());
    assert_eq!(b.text(), "a");
    assert_eq!(b.cursor_position(), 1);
}

#[test]
fn text_buffer_backspace_inside_multibyte_char() {
    let mut b = TextBuffer::new();
    b.add_text("aéb");
    // One byte into 'é': the byte before the cursor belongs to 'é'.
    b.set_cursor_position(2);
    assert!(b.backspace());
    assert_eq!(b.text(), "ab");
    assert_eq!(b.cursor_position(), 1);
}

#[test]
fn text_buffer_backspace_four_byte_char() {
    let mut b = TextBuffer::new();
    b.add_text("x😀y");
    b.set_cursor_position(5);
    assert!(b.backspace());
    assert_eq!(b.text(), "xy");
    assert_eq!(b.cursor_position(), 1);
}

#[test]
fn text_buffer_backspaces_undo_typed_ascii() {
    let mut b = TextBuffer::new();
    b.add_text("héllo");
    b.set_cursor_position(3);
    b.add_text("abc");
    assert_eq!(b.text(), "héabcllo");
    for _ in 0..3 {
        assert!(b.backspace());
    }
    assert_eq!(b.text(), "héllo");
    assert_eq!(b.cursor_position(), 3);
}

#[test]
fn text_buffer_cursor_stays_within_text() {
    let mut b = TextBuffer::new();
    b.add_text("ab");
    b.set_cursor_position(usize::MAX);
    assert!(b.cursor_position() <= b.text().len());
    assert!(b.backspace());
    assert!(b.cursor_position() <= b.text().len());
}
