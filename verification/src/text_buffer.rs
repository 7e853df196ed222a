//! A buffer for text editing: a string and a cursor.
//!
//! The cursor is a byte offset into the UTF-8 encoding of the text, as
//! `String` positions are; the contracts speak of that encoding.
use vstd::prelude::*;
use vstd::string::*;
use vstd::utf8::*;

verus! {

broadcast use vstd::utf8::group_utf8_lib;

/// Calls `String::insert_str`.  Its documentation: inserts a string slice at
/// a byte position, panicking unless the position lies on a char boundary.
/// The contract states that the new encoding is the old one with the slice's
/// bytes spliced in at `idx`.
#[verifier::external_body]
fn string_insert_str(s: &mut String, idx: usize, text: &str)
    requires
        is_char_boundary(encode_utf8(old(s)@), idx as int),
    ensures
        encode_utf8(final(s)@) == encode_utf8(old(s)@).take(idx as int) + text.spec_bytes()
            + encode_utf8(old(s)@).skip(idx as int),
{
    s.insert_str(idx, text)
}

/// Calls `String::remove`.  Its documentation: removes the char starting at
/// a byte position and returns it, panicking when the position is not a char
/// boundary or not before the end.  The contract states which char comes back
/// and that its bytes are cut out of the encoding.
#[verifier::external_body]
fn string_remove(s: &mut String, idx: usize) -> (r: char)
    requires
        idx < encode_utf8(old(s)@).len(),
        is_char_boundary(encode_utf8(old(s)@), idx as int),
    ensures
        r == decode_first_scalar(encode_utf8(old(s)@).skip(idx as int)) as char,
        encode_utf8(final(s)@) == encode_utf8(old(s)@).take(idx as int) + encode_utf8(
            old(s)@,
        ).skip(idx + length_of_first_scalar(encode_utf8(old(s)@).skip(idx as int))),
{
    s.remove(idx)
}

/// A char starting at a boundary strictly inside valid UTF-8 fits before
/// the end.
proof fn lemma_first_scalar_fits(bytes: Seq<u8>, at: int)
    requires
        valid_utf8(bytes),
        0 <= at < bytes.len(),
        is_char_boundary(bytes, at),
    ensures
        1 <= length_of_first_scalar(bytes.skip(at)),
        at + length_of_first_scalar(bytes.skip(at)) <= bytes.len(),
{
    valid_utf8_split(bytes, at);
    assert(bytes.skip(at) =~= bytes.subrange(at, bytes.len() as int));
}

/// The bytes and cursor after inserting `inserted` at `cursor`.
pub open spec fn spec_add_text(bytes: Seq<u8>, cursor: nat, inserted: Seq<u8>) -> (Seq<u8>, nat) {
    (bytes.take(cursor as int) + inserted + bytes.skip(cursor as int), cursor + inserted.len())
}

/// The nearest char boundary at or before byte `i`: the start of the char
/// that byte `i` belongs to.
pub open spec fn char_start(bytes: Seq<u8>, i: int) -> int
    decreases i,
{
    if i <= 0 || is_char_boundary(bytes, i) {
        i
    } else {
        char_start(bytes, i - 1)
    }
}

/// The bytes and cursor after a backspace: nothing at the start, else the
/// whole char that holds the byte before the cursor is cut out and the
/// cursor moves to where that char began.
pub open spec fn spec_backspace(bytes: Seq<u8>, cursor: nat) -> (Seq<u8>, nat) {
    if cursor == 0 {
        (bytes, cursor)
    } else {
        let at = char_start(bytes, cursor - 1);
        (bytes.take(at) + bytes.skip(at + length_of_first_scalar(bytes.skip(at))), at as nat)
    }
}

/// `n` backspaces in a row.
pub open spec fn spec_backspaces(bytes: Seq<u8>, cursor: nat, n: nat) -> (Seq<u8>, nat)
    decreases n,
{
    if n == 0 {
        (bytes, cursor)
    } else {
        let (b, c) = spec_backspace(bytes, cursor);
        spec_backspaces(b, c, (n - 1) as nat)
    }
}

/// The start of the char holding byte `i` is a boundary at or before `i`,
/// and that char reaches past `i` without passing the end.
proof fn lemma_char_start(bytes: Seq<u8>, i: int)
    requires
        valid_utf8(bytes),
        0 <= i < bytes.len(),
    ensures
        0 <= char_start(bytes, i) <= i,
        is_char_boundary(bytes, char_start(bytes, i)),
        i < char_start(bytes, i) + length_of_first_scalar(bytes.skip(char_start(bytes, i))),
        char_start(bytes, i) + length_of_first_scalar(bytes.skip(char_start(bytes, i)))
            <= bytes.len(),
    decreases i,
{
    let s = char_start(bytes, i);
    if i > 0 && !is_char_boundary(bytes, i) {
        lemma_char_start(bytes, i - 1);
        assert(is_continuation_byte(bytes[i]));
    }
    lemma_first_scalar_fits(bytes, s);
    let t = bytes.skip(s);
    let len = length_of_first_scalar(t);
    if s + len <= i {
        // The byte just after the char at `s` starts a char, yet it lies in
        // (s, i], where every byte continues a char.
        valid_utf8_split(bytes, s);
        assert(t =~= bytes.subrange(s, bytes.len() as int));
        assert(pop_first_scalar(t) =~= t.subrange(len, t.len() as int));
        assert(is_char_boundary(t, len)) by {
            is_char_boundary_start_end_of_seq(pop_first_scalar(t));
        }
        is_char_boundary_iff_not_is_continuation_byte(t, len);
        lemma_continuation_between(bytes, s, i, s + len);
        assert(t[len] == bytes[s + len]);
    }
}

/// Every byte strictly after the start of the char holding byte `i`, up to
/// `i`, continues a char.
proof fn lemma_continuation_between(bytes: Seq<u8>, i: int, hi: int, j: int)
    requires
        valid_utf8(bytes),
        0 <= i <= hi < bytes.len(),
        char_start(bytes, hi) == i,
        i < j <= hi,
    ensures
        is_continuation_byte(bytes[j]),
    decreases hi,
{
    if hi > 0 && !is_char_boundary(bytes, hi) {
        if j == hi {
            is_char_boundary_iff_not_is_continuation_byte(bytes, hi);
        } else {
            lemma_continuation_between(bytes, i, hi - 1, j);
        }
    }
}

/// A string being edited, with a cursor.
pub struct TextBuffer {
    text: String,
    cursor_position: usize,
}

impl TextBuffer {
    /// The encoding of the text fits in memory, and the cursor lies within
    /// it.
    pub open spec fn wf(&self) -> bool {
        &&& self.bytes().len() <= usize::MAX
        &&& self.cursor() <= self.bytes().len()
    }

    /// The text, as characters.
    pub closed spec fn text_view(&self) -> Seq<char> {
        self.text@
    }

    /// The UTF-8 encoding of the text.
    pub open spec fn bytes(&self) -> Seq<u8> {
        encode_utf8(self.text_view())
    }

    /// The cursor, a byte offset.
    pub closed spec fn cursor(&self) -> nat {
        self.cursor_position as nat
    }

    /// Create an empty buffer with the cursor at the start.
    pub fn new() -> (r: Self)
        ensures
            r.wf(),
            r.text_view() == Seq::<char>::empty(),
            r.cursor() == 0,
    {
        let text = String::new();
        proof {
            assert(encode_utf8(text@) =~= Seq::<u8>::empty());
        }
        TextBuffer { text, cursor_position: 0 }
    }

    /// Insert `text` at the cursor and move the cursor past it.
    pub fn add_text(&mut self, text: &str)
        requires
            old(self).wf(),
            is_char_boundary(old(self).bytes(), old(self).cursor() as int),
            old(self).bytes().len() + text.spec_bytes().len() <= usize::MAX,
        ensures
            final(self).wf(),
            (final(self).bytes(), final(self).cursor()) == spec_add_text(
                old(self).bytes(),
                old(self).cursor(),
                text.spec_bytes(),
            ),
    {
        string_insert_str(&mut self.text, self.cursor_position, text);
        self.cursor_position = self.cursor_position + text.len();
    }

    /// Remove the character before the cursor (like pressing backspace):
    /// the whole char that holds the byte before the cursor, with the cursor
    /// moving back to where that char began.  Returns false, and changes
    /// nothing, when the cursor is at the start.
    pub fn backspace(&mut self) -> (r: bool)
        requires
            old(self).wf(),
        ensures
            final(self).wf(),
            r == (old(self).cursor() > 0),
            (final(self).bytes(), final(self).cursor()) == spec_backspace(
                old(self).bytes(),
                old(self).cursor(),
            ),
            !r ==> final(self).text_view() == old(self).text_view(),
    {
        if self.cursor_position == 0 {
            return false;
        }
        let ghost bytes = self.bytes();
        let mut start: usize = self.cursor_position - 1;
        while start > 0 && !self.text.as_str().is_char_boundary(start)
            invariant
                bytes == self.bytes(),
                start < self.cursor() <= bytes.len(),
                char_start(bytes, start as int) == char_start(bytes, self.cursor() - 1),
            decreases start,
        {
            start = start - 1;
        }
        proof {
            lemma_char_start(bytes, self.cursor() - 1);
        }
        let _ = string_remove(&mut self.text, start);
        self.cursor_position = start;
        true
    }

    /// The current text.
    pub fn text(&self) -> (r: &str)
        ensures
            r@ == self.text_view(),
    {
        self.text.as_str()
    }

    /// The current cursor position.
    pub fn cursor_position(&self) -> (r: usize)
        ensures
            r == self.cursor(),
    {
        self.cursor_position
    }

    /// Move the cursor to `position`, clamped to the length of the text in
    /// bytes.
    pub fn set_cursor_position(&mut self, position: usize)
        requires
            old(self).wf(),
        ensures
            final(self).wf(),
            final(self).text_view() == old(self).text_view(),
            final(self).cursor() == if position <= old(self).bytes().len() {
                position as nat
            } else {
                old(self).bytes().len()
            },
    {
        let len = self.text.as_str().len();
        self.cursor_position = if position <= len { position } else { len };
    }
}

impl Default for TextBuffer {
    /// An empty buffer with the cursor at the start.
    fn default() -> (r: Self)
        ensures
            r.wf(),
            r.text_view() == Seq::<char>::empty(),
            r.cursor() == 0,
    {
        TextBuffer::new()
    }
}

/// The cursor of a buffer never passes the end of its text.
pub proof fn lemma_cursor_within_text(buffer: TextBuffer)
    requires
        buffer.wf(),
    ensures
        buffer.cursor() <= buffer.bytes().len(),
{
}

/// Typing an ASCII string and then pressing backspace once for each of its
/// characters restores the text and the cursor.
pub proof fn lemma_backspaces_undo_ascii_text(buffer: TextBuffer, text: Seq<char>)
    requires
        buffer.wf(),
        is_char_boundary(buffer.bytes(), buffer.cursor() as int),
        is_ascii_chars(text),
    ensures
        ({
            let (bytes, cursor) = spec_add_text(buffer.bytes(), buffer.cursor(), encode_utf8(text));
            spec_backspaces(bytes, cursor, text.len()) == (buffer.bytes(), buffer.cursor())
        }),
{
    lemma_backspaces_undo_ascii(buffer.bytes(), buffer.cursor(), text);
}

/// The same over the text itself: a buffer left by typing an ASCII string
/// into `before` and pressing backspace once per character holds the text
/// and the cursor of `before`.  `after` is any buffer whose bytes and
/// cursor are those that `add_text` and then `backspace` describe.
pub proof fn lemma_backspaces_restore_text(before: TextBuffer, text: Seq<char>, after: TextBuffer)
    requires
        before.wf(),
        is_char_boundary(before.bytes(), before.cursor() as int),
        is_ascii_chars(text),
        ({
            let (bytes, cursor) = spec_add_text(before.bytes(), before.cursor(), encode_utf8(text));
            (after.bytes(), after.cursor()) == spec_backspaces(bytes, cursor, text.len())
        }),
    ensures
        after.text_view() == before.text_view(),
        after.cursor() == before.cursor(),
{
    lemma_backspaces_undo_ascii_text(before, text);
    encode_utf8_decode_utf8(before.text_view());
    encode_utf8_decode_utf8(after.text_view());
}

proof fn lemma_backspaces_undo_ascii(bytes: Seq<u8>, cursor: nat, text: Seq<char>)
    requires
        valid_utf8(bytes),
        is_char_boundary(bytes, cursor as int),
        is_ascii_chars(text),
    ensures
        ({
            let (b, c) = spec_add_text(bytes, cursor, encode_utf8(text));
            spec_backspaces(b, c, text.len()) == (bytes, cursor)
        }),
    decreases text.len(),
{
    let k = cursor as int;
    is_char_boundary_len_bound(bytes, k);
    if text.len() == 0 {
        assert(encode_utf8(text) =~= Seq::<u8>::empty());
        assert(bytes.take(k) + Seq::<u8>::empty() + bytes.skip(k) =~= bytes);
    } else {
        lemma_backspace_after_ascii(bytes, cursor, text);
        lemma_backspaces_undo_ascii(bytes, cursor, text.drop_last());
    }
}

/// One backspace after typing a non-empty ASCII string takes back its last
/// character.
proof fn lemma_backspace_after_ascii(bytes: Seq<u8>, cursor: nat, text: Seq<char>)
    requires
        valid_utf8(bytes),
        is_char_boundary(bytes, cursor as int),
        is_ascii_chars(text),
        text.len() > 0,
    ensures
        ({
            let (b, c) = spec_add_text(bytes, cursor, encode_utf8(text));
            spec_backspace(b, c) == spec_add_text(bytes, cursor, encode_utf8(text.drop_last()))
        }),
{
    let k = cursor as int;
    is_char_boundary_len_bound(bytes, k);
    let e = encode_utf8(text);
    let shorter = text.drop_last();
    assert(is_ascii_chars(shorter));
    is_ascii_chars_encode_utf8(text);
    is_ascii_chars_encode_utf8(shorter);
    let n = e.len() as int;
    let (b, c) = spec_add_text(bytes, cursor, e);
    let at = k + n - 1;
    assert(b[at] == e[n - 1]);
    assert(text[n - 1] as u8 == e[n - 1]);
    assert(!is_continuation_byte(b[at]));
    valid_utf8_split(bytes, k);
    assert(bytes.take(k) =~= bytes.subrange(0, k));
    assert(bytes.skip(k) =~= bytes.subrange(k, bytes.len() as int));
    valid_utf8_concat(bytes.take(k), e);
    valid_utf8_concat(bytes.take(k) + e, bytes.skip(k));
    is_char_boundary_iff_not_is_continuation_byte(b, at);
    assert(char_start(b, at) == at);
    assert(b.skip(at)[0] == b[at]);
    assert(length_of_first_scalar(b.skip(at)) == 1);
    assert(e.take(n - 1) =~= encode_utf8(shorter));
    assert(b.take(at) =~= bytes.take(k) + encode_utf8(shorter));
    assert(b.skip(at + 1) =~= bytes.skip(k));
}

/// A char boundary lies within the byte sequence.
proof fn is_char_boundary_len_bound(bytes: Seq<u8>, index: int)
    requires
        valid_utf8(bytes),
        is_char_boundary(bytes, index),
    ensures
        0 <= index <= bytes.len(),
    decreases bytes.len(),
{
    if index != 0 {
        is_char_boundary_len_bound(pop_first_scalar(bytes), index - length_of_first_scalar(bytes));
    }
}

} // verus!
