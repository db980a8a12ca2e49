//! The text buffer: an ordered sequence of Unicode scalar values with
//! line-aware indexing, stored in a rope. Every line terminator is held
//! internally as the two-character sequence carriage-return + line-feed;
//! loading normalizes terminators in, saving reduces each to a single
//! line feed.

use vstd::prelude::*;
use vstd::string::StrSliceExecFns;
use vstd::utf8::{valid_utf8, decode_utf8, encode_utf8};
use crate::rope::{
    rope_chars,
    rope_from_str,
    rope_len_chars,
    rope_len_lines,
    rope_char_at,
    rope_insert_char,
    rope_insert_str,
    rope_remove,
};
use crate::text::{
    count_nl,
    line_count,
    nav_line_count,
    line_start,
    line_end,
    line_end_from,
    content_end_from,
    spec_line_len,
    spec_content_len,
    spec_abs_offset,
    spec_offset_to_position,
    crlf_ok,
    normalize,
    strip_cr,
    splice,
    lemma_line_start_bounds,
    lemma_line_end_from_bounds,
    lemma_content_end_from_bounds,
    lemma_line_start_count,
    lemma_line_start_le_offset,
    lemma_line_end_from_locate,
    lemma_count_nl_step,
    lemma_count_nl_prefix_mono,
    lemma_count_nl_zero,
    lemma_normalize_crlf,
    lemma_strip_normalize,
    lemma_strip_cr_id,
};

verus! {

/// The buffer's failure taxonomy: a non-text file at load, or an index
/// outside the buffer handed to an edit operation.
#[derive(Debug, Clone, Copy, PartialEq, Eq, Structural)]
pub enum EditorError {
    DecodeError,
    OutOfRange,
}

/// Relies on std's `String::from_utf8`: succeeds exactly on valid UTF-8
/// input and yields the text those bytes encode.
#[verifier::external_body]
fn decode_utf8_bytes(bytes: Vec<u8>) -> (r: Option<String>)
    ensures
        r is Some <==> valid_utf8(bytes@),
        r matches Some(s) ==> s@ == decode_utf8(bytes@),
{
    String::from_utf8(bytes).ok()
}

/// Relies on std's `String::push`: appends the given character.
#[verifier::external_body]
pub(crate) fn push_char(s: &mut String, c: char)
    ensures
        final(s)@ == old(s)@.push(c),
{
    s.push(c)
}

/// Mutable character storage with line-aware indexing. Its view is the
/// sequence of characters held.
#[derive(Debug)]
pub struct TextBuffer {
    rope: ropey::Rope,
}

impl View for TextBuffer {
    type V = Seq<char>;

    closed spec fn view(&self) -> Seq<char> {
        rope_chars(self.rope)
    }
}

impl TextBuffer {
    /// Construct a buffer from already-decoded text, normalizing every line
    /// terminator to the internal two-character form.
    pub fn load_text(s: &str) -> (buf: TextBuffer)
        ensures
            buf@ == normalize(s@),
            crlf_ok(buf@),
    {
        let n = s.unicode_len();
        let mut t = String::new();
        let mut i: usize = 0;
        while i < n
            invariant
                n == s@.len(),
                i <= n,
                t@ == normalize(s@.take(i as int)),
            decreases n - i,
        {
            let c = s.get_char(i);
            proof {
                assert(s@.take(i + 1).drop_last() =~= s@.take(i as int));
                assert(s@.take(i + 1).last() == s@[i as int]);
            }
            if c == '\r' {
                proof {
                    assert(normalize(s@.take(i + 1)) =~= t@);
                }
            } else if c == '\n' {
                push_char(&mut t, '\r');
                push_char(&mut t, '\n');
                proof {
                    assert(normalize(s@.take(i + 1)) =~= t@);
                }
            } else {
                push_char(&mut t, c);
                proof {
                    assert(normalize(s@.take(i + 1)) =~= t@);
                }
            }
            i += 1;
        }
        proof {
            assert(s@.take(n as int) =~= s@);
            lemma_normalize_crlf(s@);
        }
        TextBuffer { rope: rope_from_str(t.as_str()) }
    }

    /// Decode raw file bytes and construct a normalized buffer; fails
    /// exactly on bytes that are not valid UTF-8.
    pub fn load(bytes: Vec<u8>) -> (r: Result<TextBuffer, EditorError>)
        ensures
            r is Ok <==> valid_utf8(bytes@),
            r matches Ok(buf) ==> buf@ == normalize(decode_utf8(bytes@)) && crlf_ok(buf@),
            r is Err ==> r == Err::<TextBuffer, EditorError>(EditorError::DecodeError),
    {
        match decode_utf8_bytes(bytes) {
            Some(s) => Ok(Self::load_text(s.as_str())),
            None => Err(EditorError::DecodeError),
        }
    }

    /// Serialize the buffer for writing: every carriage return is dropped,
    /// so each internal terminator leaves as a single line feed, and the
    /// characters are encoded back to UTF-8 bytes.
    pub fn save(&self) -> (out: Vec<u8>)
        ensures
            out@ == encode_utf8(strip_cr(self@)),
    {
        let n = self.len_chars();
        let mut t = String::new();
        let mut i: usize = 0;
        while i < n
            invariant
                n == self@.len(),
                i <= n,
                t@ == strip_cr(self@.take(i as int)),
            decreases n - i,
        {
            let c = self.char_at(i);
            proof {
                assert(self@.take(i + 1).drop_last() =~= self@.take(i as int));
                assert(self@.take(i + 1).last() == self@[i as int]);
            }
            if c != '\r' {
                push_char(&mut t, c);
            }
            i += 1;
        }
        proof {
            assert(self@.take(n as int) =~= self@);
        }
        t.as_str().as_bytes_vec()
    }

    /// The whole buffer as a string, internal terminators included.
    pub fn to_text(&self) -> (out: String)
        ensures
            out@ == self@,
    {
        let n = self.len_chars();
        let mut t = String::new();
        let mut i: usize = 0;
        while i < n
            invariant
                n == self@.len(),
                i <= n,
                t@ == self@.take(i as int),
            decreases n - i,
        {
            push_char(&mut t, self.char_at(i));
            proof {
                assert(self@.take(i + 1) =~= self@.take(i as int).push(self@[i as int]));
            }
            i += 1;
        }
        proof {
            assert(self@.take(n as int) =~= self@);
        }
        t
    }

    /// Number of characters held.
    pub fn len_chars(&self) -> (n: usize)
        ensures
            n == self@.len(),
    {
        rope_len_chars(&self.rope)
    }

    /// The character at index `i`.
    pub fn char_at(&self, i: usize) -> (c: char)
        requires
            i < self@.len(),
        ensures
            c == self@[i as int],
    {
        rope_char_at(&self.rope, i)
    }

    /// Scan forward from `from` to just past the line feed ending the
    /// current line, or to the end of the buffer.
    fn scan_line_end(&self, from: usize) -> (e: usize)
        requires
            from <= self@.len(),
        ensures
            e == line_end_from(self@, from as int),
    {
        let n = self.len_chars();
        let mut i = from;
        let mut found: bool = false;
        while i < n && !found
            invariant
                from <= i <= n,
                n == self@.len(),
                !found ==> line_end_from(self@, from as int) == line_end_from(self@, i as int),
                found ==> i >= 1 && line_end_from(self@, from as int) == i,
            decreases n - i, (if found { 0int } else { 1int }),
        {
            if self.char_at(i) == '\n' {
                found = true;
            }
            i += 1;
        }
        i
    }

    /// Scan forward from `from` to the first carriage return or line feed:
    /// the end of the line's content.
    fn scan_content_end(&self, from: usize) -> (e: usize)
        requires
            from <= self@.len(),
        ensures
            e == content_end_from(self@, from as int),
    {
        let n = self.len_chars();
        let mut i = from;
        let mut done: bool = false;
        while i < n && !done
            invariant
                from <= i <= n,
                n == self@.len(),
                !done ==> content_end_from(self@, from as int) == content_end_from(
                    self@,
                    i as int,
                ),
                done ==> content_end_from(self@, from as int) == i,
            decreases n - i, (if done { 0int } else { 1int }),
        {
            let c = self.char_at(i);
            if c == '\r' || c == '\n' {
                done = true;
            } else {
                i += 1;
            }
        }
        i
    }

    /// Offset of the first character of line `row`; rows past the last
    /// line start at the end of the buffer. Lines after the target row are
    /// never visited.
    pub fn line_start_of(&self, row: usize) -> (o: usize)
        ensures
            o == line_start(self@, row as int),
    {
        let n = self.len_chars();
        let mut r: usize = 0;
        let mut o: usize = 0;
        while r < row
            invariant
                r <= row,
                n == self@.len(),
                o == line_start(self@, r as int),
                o <= n,
            decreases row - r,
        {
            proof {
                lemma_line_start_bounds(self@, r + 1);
            }
            if o < n {
                o = self.scan_line_end(o);
                proof {
                    lemma_line_end_from_bounds(self@, line_start(self@, r as int));
                }
            }
            r += 1;
        }
        o
    }

    /// Length of line `row`, its terminator included; the final line has
    /// no terminator, and rows past the last line have length zero.
    pub fn line_length(&self, row: usize) -> (l: usize)
        ensures
            l == spec_line_len(self@, row as int),
    {
        let st = self.line_start_of(row);
        let n = self.len_chars();
        proof {
            lemma_line_start_bounds(self@, row as int);
        }
        if st >= n {
            0
        } else {
            proof {
                lemma_line_end_from_bounds(self@, st as int);
            }
            self.scan_line_end(st) - st
        }
    }

    /// Length of line `row` without its terminator: the columns the cursor
    /// may stand before on that line.
    pub fn line_content_len(&self, row: usize) -> (l: usize)
        ensures
            l == spec_content_len(self@, row as int),
    {
        let st = self.line_start_of(row);
        proof {
            lemma_line_start_bounds(self@, row as int);
            lemma_content_end_from_bounds(self@, st as int);
        }
        self.scan_content_end(st) - st
    }

    /// The characters of line `row`, terminator included.
    pub fn line(&self, row: usize) -> (s: String)
        ensures
            s@ == self@.subrange(line_start(self@, row as int), line_end(self@, row as int)),
    {
        let st = self.line_start_of(row);
        let n = self.len_chars();
        proof {
            lemma_line_start_bounds(self@, row as int);
        }
        let e = if st >= n {
            st
        } else {
            proof {
                lemma_line_end_from_bounds(self@, st as int);
            }
            self.scan_line_end(st)
        };
        let mut s = String::new();
        let mut i = st;
        while i < e
            invariant
                st <= i <= e <= self@.len(),
                s@ == self@.subrange(st as int, i as int),
            decreases e - i,
        {
            push_char(&mut s, self.char_at(i));
            proof {
                assert(self@.subrange(st as int, i + 1) =~= self@.subrange(st as int, i as int).push(
                    self@[i as int],
                ));
            }
            i += 1;
        }
        proof {
            if st >= n {
                assert(self@.subrange(st as int, st as int) =~= s@);
            }
        }
        s
    }

    /// The canonical mapping from a (column, absolute row) position to an
    /// absolute character offset: the lengths of all lines strictly before
    /// the row, plus the column. The offset must land inside the buffer.
    pub fn absolute_char_offset(&self, col: usize, row: usize) -> (o: usize)
        requires
            spec_abs_offset(self@, col as int, row as int) <= self@.len(),
        ensures
            o == spec_abs_offset(self@, col as int, row as int),
    {
        proof {
            lemma_line_start_bounds(self@, row as int);
        }
        let st = self.line_start_of(row);
        let n = self.len_chars();
        st + col
    }

    /// The mapping from a (column, absolute row) position to an absolute
    /// offset, clamped to the end of the buffer; positions past the
    /// buffer's characters land at its length.
    pub fn clamped_offset(&self, col: usize, row: usize) -> (o: usize)
        ensures
            o == (if spec_abs_offset(self@, col as int, row as int) <= self@.len() {
                spec_abs_offset(self@, col as int, row as int)
            } else {
                self@.len() as int
            }),
    {
        proof {
            lemma_line_start_bounds(self@, row as int);
        }
        let st = self.line_start_of(row);
        let n = self.len_chars();
        if col > n - st {
            n
        } else {
            st + col
        }
    }

    /// The inverse mapping: the (column, row) position of an absolute
    /// offset.
    #[verifier::rlimit(50)]
    pub fn offset_to_position(&self, o: usize) -> (pos: (usize, usize))
        requires
            o <= self@.len(),
        ensures
            (pos.0 as int, pos.1 as int) == spec_offset_to_position(self@, o as int),
    {
        let ghost s = self@;
        let mut i: usize = 0;
        let mut r: usize = 0;
        let mut ls: usize = 0;
        proof {
            assert(s.take(0) =~= Seq::<char>::empty());
        }
        while i < o
            invariant
                i <= o <= s.len(),
                s == self@,
                r == count_nl(s.take(i as int)),
                r <= i,
                ls == line_start(s, r as int),
                ls <= i,
            decreases o - i,
        {
            proof {
                lemma_count_nl_step(s, i as int);
            }
            if self.char_at(i) == '\n' {
                proof {
                    lemma_count_nl_prefix_mono(s, i as int, s.len() as int);
                    assert(s.take(s.len() as int) =~= s);
                    lemma_line_start_count(s, r as int);
                    lemma_count_nl_prefix_mono(s, ls as int, i as int);
                    lemma_count_nl_zero(s.subrange(ls as int, i as int));
                    assert forall|k: int| ls <= k < i implies s[k] != '\n' by {
                        assert(s.subrange(ls as int, i as int)[k - ls] == s[k]);
                    }
                    lemma_line_end_from_locate(s, ls as int, i as int);
                    assert(line_start(s, r + 1) == i + 1);
                }
                r += 1;
                ls = i + 1;
            }
            i += 1;
        }
        (o - ls, r)
    }

    /// Insert one character at an absolute offset; fails with `OutOfRange`
    /// exactly when the offset lies past the end of the buffer.
    pub fn insert_char(&mut self, offset: usize, ch: char) -> (r: Result<(), EditorError>)
        ensures
            offset <= old(self)@.len() ==> r is Ok && final(self)@ == splice(
                old(self)@,
                offset as int,
                offset as int,
                seq![ch],
            ),
            offset > old(self)@.len() ==> r == Err::<(), EditorError>(EditorError::OutOfRange)
                && final(self)@ == old(self)@,
    {
        if offset <= self.len_chars() {
            rope_insert_char(&mut self.rope, offset, ch);
            Ok(())
        } else {
            Err(EditorError::OutOfRange)
        }
    }

    /// Insert the characters of a text at an absolute offset; fails with
    /// `OutOfRange` exactly when the offset lies past the end.
    pub fn insert_text(&mut self, offset: usize, s: &str) -> (r: Result<(), EditorError>)
        ensures
            offset <= old(self)@.len() ==> r is Ok && final(self)@ == splice(
                old(self)@,
                offset as int,
                offset as int,
                s@,
            ),
            offset > old(self)@.len() ==> r == Err::<(), EditorError>(EditorError::OutOfRange)
                && final(self)@ == old(self)@,
    {
        if offset <= self.len_chars() {
            rope_insert_str(&mut self.rope, offset, s);
            Ok(())
        } else {
            Err(EditorError::OutOfRange)
        }
    }

    /// Remove the characters in `[start, end)`; fails with `OutOfRange`
    /// exactly when the range is reversed or runs past the end.
    pub fn remove_range(&mut self, start: usize, end: usize) -> (r: Result<(), EditorError>)
        ensures
            start <= end <= old(self)@.len() ==> r is Ok && final(self)@ == splice(
                old(self)@,
                start as int,
                end as int,
                Seq::empty(),
            ),
            !(start <= end <= old(self)@.len()) ==> r == Err::<(), EditorError>(
                EditorError::OutOfRange,
            ) && final(self)@ == old(self)@,
    {
        if start <= end && end <= self.len_chars() {
            rope_remove(&mut self.rope, start, end);
            Ok(())
        } else {
            Err(EditorError::OutOfRange)
        }
    }

    /// Total number of lines: one more than the number of line feeds.
    pub fn line_count(&self) -> (n: usize)
        ensures
            n == line_count(self@),
    {
        rope_len_lines(&self.rope)
    }

    /// Number of rows the cursor may stand on: the empty final line opened
    /// by a trailing terminator is not navigable.
    pub fn nav_lines(&self) -> (n: usize)
        ensures
            n == nav_line_count(self@),
    {
        let len = self.len_chars();
        if len == 0 {
            1
        } else if self.char_at(len - 1) == '\n' {
            proof {
                assert(self@.drop_last().len() == self@.len() - 1);
                assert(count_nl(self@) >= 1);
            }
            self.line_count() - 1
        } else {
            self.line_count()
        }
    }
}

/// Coordinate round trip: for every offset within the buffer, translating
/// it to a (column, row) position and back through the canonical
/// column/row-to-offset translation yields the offset again.
pub proof fn lemma_offset_position_roundtrip(s: Seq<char>, o: int)
    requires
        0 <= o <= s.len(),
    ensures
        spec_abs_offset(
            s,
            spec_offset_to_position(s, o).0,
            spec_offset_to_position(s, o).1,
        ) == o,
{
    lemma_line_start_le_offset(s, o);
}

/// One insert undone by the matching delete restores the text.
pub proof fn lemma_insert_remove_roundtrip(s: Seq<char>, i: int, c: char)
    requires
        0 <= i <= s.len(),
    ensures
        splice(splice(s, i, i, seq![c]), i, i + 1, Seq::empty()) == s,
{
    assert(splice(splice(s, i, i, seq![c]), i, i + 1, Seq::empty()) =~= s);
}

/// A list of character inserts, each given as an absolute offset and the
/// character placed there, applied first to last.
pub open spec fn apply_inserts(s: Seq<char>, es: Seq<(int, char)>) -> Seq<char>
    decreases es.len(),
{
    if es.len() == 0 {
        s
    } else {
        apply_inserts(splice(s, es[0].0, es[0].0, seq![es[0].1]), es.skip(1))
    }
}

/// Each insert lands inside the text as it stands when its turn comes.
pub open spec fn inserts_valid(s: Seq<char>, es: Seq<(int, char)>) -> bool
    decreases es.len(),
{
    if es.len() == 0 {
        true
    } else {
        0 <= es[0].0 <= s.len() && inserts_valid(
            splice(s, es[0].0, es[0].0, seq![es[0].1]),
            es.skip(1),
        )
    }
}

/// The exact reversal of a list of inserts: each one deleted again, last
/// insert first.
pub open spec fn undo_inserts(s: Seq<char>, es: Seq<(int, char)>) -> Seq<char>
    decreases es.len(),
{
    if es.len() == 0 {
        s
    } else {
        undo_inserts(
            splice(s, es.last().0, es.last().0 + 1, Seq::empty()),
            es.drop_last(),
        )
    }
}

proof fn lemma_apply_inserts_push(s: Seq<char>, es: Seq<(int, char)>, e: (int, char))
    requires
        inserts_valid(s, es.push(e)),
    ensures
        inserts_valid(s, es),
        0 <= e.0 <= apply_inserts(s, es).len(),
        apply_inserts(s, es.push(e)) == splice(apply_inserts(s, es), e.0, e.0, seq![e.1]),
    decreases es.len(),
{
    if es.len() == 0 {
        assert(es.push(e)[0] == e);
        assert(es.push(e).skip(1) =~= Seq::<(int, char)>::empty());
        assert(apply_inserts(s, es.push(e)) == apply_inserts(
            splice(s, e.0, e.0, seq![e.1]),
            Seq::<(int, char)>::empty(),
        ));
        assert(apply_inserts(splice(s, e.0, e.0, seq![e.1]), Seq::<(int, char)>::empty()) == splice(
            s,
            e.0,
            e.0,
            seq![e.1],
        ));
    } else {
        assert(es.push(e)[0] == es[0]);
        let s1 = splice(s, es[0].0, es[0].0, seq![es[0].1]);
        assert(es.push(e).skip(1) =~= es.skip(1).push(e));
        assert(apply_inserts(s, es.push(e)) == apply_inserts(s1, es.skip(1).push(e)));
        assert(inserts_valid(s1, es.skip(1).push(e)));
        lemma_apply_inserts_push(s1, es.skip(1), e);
        assert(apply_inserts(s, es) == apply_inserts(s1, es.skip(1)));
    }
}

/// Edit idempotence: any list of character inserts followed by its exact
/// reversal as deletes restores the text, so the buffer's saved output is
/// the one the unedited text would have given.
pub proof fn lemma_edit_roundtrip(s: Seq<char>, es: Seq<(int, char)>)
    requires
        inserts_valid(s, es),
    ensures
        undo_inserts(apply_inserts(s, es), es) == s,
        strip_cr(undo_inserts(apply_inserts(s, es), es)) == strip_cr(s),
    decreases es.len(),
{
    if es.len() > 0 {
        let front = es.drop_last();
        let e = es.last();
        assert(front.push(e) =~= es);
        lemma_apply_inserts_push(s, front, e);
        lemma_insert_remove_roundtrip(apply_inserts(s, front), e.0, e.1);
        lemma_edit_roundtrip(s, front);
    }
}

/// A carriage return among the characters puts the carriage-return byte
/// into their encoding.
proof fn lemma_cr_char_gives_cr_byte(s: Seq<char>, j: int)
    requires
        0 <= j < s.len(),
        s[j] == '\r',
    ensures
        exists|i: int| 0 <= i < encode_utf8(s).len() && #[trigger] encode_utf8(s)[i] == 13,
    decreases j,
{
    let enc0 = vstd::utf8::encode_scalar(s[0] as u32);
    let rest = vstd::utf8::encode_utf8(s.drop_first());
    assert(encode_utf8(s) == enc0 + rest);
    assert(enc0.len() >= 1);
    if j == 0 {
        assert(s[0] as u32 == 13);
        assert(vstd::utf8::has_width_1_encoding(13));
        assert((13u32 & 0x7F) == 13u32) by (bit_vector);
        assert(vstd::utf8::leading_byte_width_1(13) == 13);
        assert(encode_utf8(s)[0] == 13);
    } else {
        lemma_cr_char_gives_cr_byte(s.drop_first(), j - 1);
        let i0 = choose|i: int| 0 <= i < rest.len() && #[trigger] rest[i] == 13;
        assert(encode_utf8(s)[enc0.len() + i0] == 13);
    }
}

/// Bytes without the carriage-return byte decode to characters without a
/// carriage return.
proof fn lemma_no_cr_bytes_no_cr_chars(bytes: Seq<u8>)
    requires
        valid_utf8(bytes),
        forall|i: int| 0 <= i < bytes.len() ==> #[trigger] bytes[i] != 13,
    ensures
        forall|j: int|
            0 <= j < decode_utf8(bytes).len() ==> #[trigger] decode_utf8(bytes)[j] != '\r',
{
    vstd::utf8::decode_utf8_encode_utf8(bytes);
    let s = decode_utf8(bytes);
    assert forall|j: int| 0 <= j < s.len() implies #[trigger] s[j] != '\r' by {
        if s[j] == '\r' {
            lemma_cr_char_gives_cr_byte(s, j);
            assert(false);
        }
    }
}

/// Terminator round trip: saving a freshly loaded buffer yields the source
/// bytes back whenever the source held line-feed terminators alone (no
/// carriage-return byte anywhere), because normalization only adds
/// carriage returns and saving strips every one of them.
pub proof fn lemma_load_save_roundtrip(bytes: Seq<u8>)
    requires
        valid_utf8(bytes),
        forall|i: int| 0 <= i < bytes.len() ==> #[trigger] bytes[i] != 13,
    ensures
        encode_utf8(strip_cr(normalize(decode_utf8(bytes)))) == bytes,
{
    lemma_no_cr_bytes_no_cr_chars(bytes);
    lemma_strip_normalize(decode_utf8(bytes));
    lemma_strip_cr_id(decode_utf8(bytes));
    vstd::utf8::decode_utf8_encode_utf8(bytes);
}

} // verus!
