//! The editor: a text buffer, a cursor model and a viewport height, driven
//! one input event at a time. `step` applies a key to the state and says
//! whether the session continues, quits, or has bytes to persist; the
//! column clamp is re-applied after every keystroke.

use vstd::prelude::*;
use vstd::utf8::encode_utf8;
use crate::buffer::TextBuffer;
use crate::cursor::{CursorModel, CursorMovement, cursor_wf, spec_move, spec_clamp};
use crate::render::{
    DrawSpan,
    render,
    render_plain,
    spec_render,
    spec_render_plain,
    spans_match,
    gspan_match,
};
use crate::syntax::{
    ts_new_parser,
    ts_set_rust_language,
    ts_parse,
    ts_root_node,
    leaf_tokens,
    rust_tokens_of,
};
use crate::text::{
    count_nl,
    nav_line_count,
    line_start,
    spec_content_len,
    spec_line_len,
    spec_abs_offset,
    crlf_ok,
    strip_cr,
    splice,
    lemma_line_start_bounds,
    lemma_content_end_from_bounds,
    lemma_content_end_le_line_end,
    lemma_line_end_from_bounds,
    lemma_content_region_plain,
    lemma_line_start_terminated,
    lemma_nl_after_line_start,
    lemma_crlf_splice,
    lemma_count_nl_splice,
};

verus! {

/// One input event, as the event source hands it over: a key code, with
/// the control modifier where it matters.
#[derive(Debug, Clone, Copy, PartialEq, Eq, Structural)]
pub enum KeyInput {
    Esc,
    Up,
    Down,
    Left,
    Right,
    Enter,
    Backspace,
    Delete,
    Char { c: char, ctrl: bool },
    Other,
}

/// What a step asks of the surrounding loop: keep going, stop, or write
/// these bytes to the file.
#[derive(Debug)]
pub enum StepOutcome {
    Continue,
    Quit,
    Save(Vec<u8>),
}

/// The editor's abstract state: the buffer text, the viewport-relative
/// cursor, the scroll offset and the viewport height.
pub struct EdState {
    pub text: Seq<char>,
    pub col: int,
    pub row: int,
    pub scroll: int,
    pub height: int,
}

/// The editor invariant: the text obeys the terminator discipline and the
/// cursor obeys its bounds against text and viewport.
pub open spec fn ed_wf(v: EdState) -> bool {
    crlf_ok(v.text) && cursor_wf(v.text, v.height, v.col, v.row, v.scroll)
}

pub open spec fn with_cursor(v: EdState, t: (int, int, int)) -> EdState {
    EdState { text: v.text, col: t.0, row: t.1, scroll: t.2, height: v.height }
}

pub open spec fn move_state(v: EdState, m: CursorMovement) -> EdState {
    with_cursor(v, spec_move(v.text, v.height, v.col, v.row, v.scroll, m))
}

pub open spec fn clamp_state(v: EdState) -> EdState {
    with_cursor(v, spec_clamp(v.text, v.col, v.row, v.scroll))
}

/// The absolute character offset the cursor stands at.
pub open spec fn cursor_offset(v: EdState) -> int {
    spec_abs_offset(v.text, v.col, v.scroll + v.row)
}

/// A typed character lands at the cursor offset and the cursor moves
/// right. Carriage return and line feed are not text characters — the
/// event source delivers Enter separately — so they leave the state alone.
pub open spec fn spec_insert_char_state(v: EdState, c: char) -> EdState {
    if c == '\r' || c == '\n' {
        v
    } else {
        let idx = cursor_offset(v);
        let v1 = EdState { text: splice(v.text, idx, idx, seq![c]), ..v };
        move_state(v1, CursorMovement::Right)
    }
}

/// Enter places the two-character terminator at the cursor offset, moves
/// the cursor down (scrolling at the viewport bottom), and returns the
/// column to 0.
pub open spec fn spec_enter_state(v: EdState) -> EdState {
    let idx = cursor_offset(v);
    let v1 = EdState { text: splice(v.text, idx, idx, seq!['\r', '\n']), ..v };
    let v2 = move_state(v1, CursorMovement::Down);
    EdState { col: 0, ..v2 }
}

/// Backspace with the column past 0 removes the character before the
/// cursor and moves left. At column 0 of any line but the first it moves
/// up, sets the column to the previous line's content length, and removes
/// the two-character terminator that separated the two lines. At the very
/// first character of the document it is a no-op.
pub open spec fn spec_backspace_state(v: EdState) -> EdState {
    let ln = v.scroll + v.row;
    let idx = cursor_offset(v);
    if v.col > 0 {
        let v1 = EdState { text: splice(v.text, idx - 1, idx, Seq::empty()), ..v };
        move_state(v1, CursorMovement::Left)
    } else if ln != 0 {
        let v1 = move_state(v, CursorMovement::Up);
        let v2 = EdState { col: spec_content_len(v.text, ln - 1), ..v1 };
        EdState { text: splice(v.text, idx - 2, idx, Seq::empty()), ..v2 }
    } else {
        v
    }
}

/// Delete-forward removes the character at the cursor offset without
/// moving the cursor; at the end of the buffer it is a no-op, and where
/// that character is the line's terminator the whole two-character
/// terminator goes, merging the next line on.
pub open spec fn spec_delete_state(v: EdState) -> EdState {
    let idx = cursor_offset(v);
    if idx >= v.text.len() {
        v
    } else if v.text[idx] == '\r' {
        EdState { text: splice(v.text, idx, idx + 2, Seq::empty()), ..v }
    } else {
        EdState { text: splice(v.text, idx, idx + 1, Seq::empty()), ..v }
    }
}

/// The key that asks for a save: the character 's' with control held.
pub open spec fn is_save_key(k: KeyInput) -> bool {
    match k {
        KeyInput::Char { c, ctrl } => ctrl && c == 's',
        _ => false,
    }
}

/// The whole state machine: what one key does to the editor state. Every
/// key but Esc ends with the column clamp.
pub open spec fn spec_step(v: EdState, k: KeyInput) -> EdState {
    match k {
        KeyInput::Esc => v,
        KeyInput::Up => clamp_state(move_state(v, CursorMovement::Up)),
        KeyInput::Down => clamp_state(move_state(v, CursorMovement::Down)),
        KeyInput::Left => clamp_state(move_state(v, CursorMovement::Left)),
        KeyInput::Right => clamp_state(move_state(v, CursorMovement::Right)),
        KeyInput::Enter => clamp_state(spec_enter_state(v)),
        KeyInput::Backspace => clamp_state(spec_backspace_state(v)),
        KeyInput::Delete => clamp_state(spec_delete_state(v)),
        KeyInput::Char { c, ctrl } => if ctrl && c == 's' {
            clamp_state(v)
        } else {
            clamp_state(spec_insert_char_state(v, c))
        },
        KeyInput::Other => clamp_state(v),
    }
}

proof fn lemma_count_nl_single(c: char)
    ensures
        count_nl(seq![c]) == (if c == '\n' {
            1nat
        } else {
            0nat
        }),
{
    assert(count_nl(Seq::<char>::empty()) == 0);
    assert(seq![c].drop_last() =~= Seq::<char>::empty());
    assert(seq![c].last() == c);
    assert(count_nl(seq![c]) == count_nl(seq![c].drop_last()) + (if c == '\n' {
        1nat
    } else {
        0nat
    }));
}

proof fn lemma_count_nl_crlf()
    ensures
        count_nl(seq!['\r', '\n']) == 1,
{
    assert(count_nl(Seq::<char>::empty()) == 0);
    assert(seq!['\r'].drop_last() =~= Seq::<char>::empty());
    assert(seq!['\r'].last() == '\r');
    assert(count_nl(seq!['\r']) == 0);
    assert(seq!['\r', '\n'].drop_last() =~= seq!['\r']);
    assert(seq!['\r', '\n'].last() == '\n');
    assert(count_nl(seq!['\r', '\n']) == count_nl(seq!['\r']) + 1nat);
}

proof fn lemma_crlf_ok_single(c: char)
    requires
        c != '\r' && c != '\n',
    ensures
        crlf_ok(seq![c]),
{
}

proof fn lemma_crlf_ok_crlf()
    ensures
        crlf_ok(seq!['\r', '\n']),
{
}

/// At a well-formed cursor position the offset lies inside the buffer, the
/// character before it (if the column is positive) is line content, and
/// splicing there cannot separate a carriage return from its line feed.
proof fn lemma_cursor_splice_ok(s: Seq<char>, col: int, ln: int)
    requires
        crlf_ok(s),
        0 <= col,
        0 <= ln <= count_nl(s),
        col <= spec_content_len(s, ln),
    ensures
        0 <= spec_abs_offset(s, col, ln) <= s.len(),
        spec_abs_offset(s, col, ln) == 0 || s[spec_abs_offset(s, col, ln) - 1] != '\r',
        spec_abs_offset(s, col, ln) == s.len() || s[spec_abs_offset(s, col, ln)] != '\n',
        col > 0 ==> s[spec_abs_offset(s, col, ln) - 1] != '\r' && s[spec_abs_offset(s, col, ln) - 1]
            != '\n',
{
    let ls = line_start(s, ln);
    let idx = ls + col;
    lemma_line_start_bounds(s, ln);
    lemma_content_end_from_bounds(s, ls);
    if col > 0 {
        lemma_content_region_plain(s, ls, idx - 1);
    } else if ln >= 1 {
        lemma_line_start_terminated(s, ln);
    }
    if idx < s.len() && s[idx] == '\n' {
        assert(1 <= idx && s[idx - 1] == '\r');
        if col > 0 {
            assert(false);
        } else if ln >= 1 {
            lemma_line_start_terminated(s, ln);
            assert(false);
        } else {
            assert(line_start(s, 0) == 0);
            assert(false);
        }
    }
}

/// The terminator that ends the line before line `ln` stands just before
/// that line's start, and removing it cannot break the discipline.
proof fn lemma_merge_region(s: Seq<char>, ln: int)
    requires
        crlf_ok(s),
        1 <= ln <= count_nl(s),
    ensures
        2 <= line_start(s, ln) <= s.len(),
        s[line_start(s, ln) - 1] == '\n',
        s[line_start(s, ln) - 2] == '\r',
        line_start(s, ln) - 2 == 0 || s[line_start(s, ln) - 3] != '\r',
        line_start(s, ln) == s.len() || s[line_start(s, ln)] != '\n',
{
    let idx = line_start(s, ln);
    lemma_line_start_terminated(s, ln);
    if idx - 2 > 0 && s[idx - 3] == '\r' {
        assert(s[idx - 2] == '\n');
        assert(false);
    }
    if idx < s.len() && s[idx] == '\n' {
        assert(s[idx - 1] == '\r');
        assert(false);
    }
}

/// The terminal-resident editor: buffer, cursor and viewport height.
pub struct Editor {
    buffer: TextBuffer,
    cursor: CursorModel,
    height: usize,
}

impl View for Editor {
    type V = EdState;

    closed spec fn view(&self) -> EdState {
        EdState {
            text: self.buffer@,
            col: self.cursor.col as int,
            row: self.cursor.row as int,
            scroll: self.cursor.scroll as int,
            height: self.height as int,
        }
    }
}

impl Editor {
    /// An editor over a loaded buffer, cursor at the top left, viewport of
    /// the given height.
    pub fn new(buffer: TextBuffer, height: usize) -> (ed: Editor)
        requires
            height >= 1,
            crlf_ok(buffer@),
        ensures
            ed@ == (EdState {
                text: buffer@,
                col: 0,
                row: 0,
                scroll: 0,
                height: height as int,
            }),
            ed_wf(ed@),
    {
        proof {
            lemma_content_end_from_bounds(buffer@, 0);
            assert(line_start(buffer@, 0) == 0);
        }
        Editor { buffer, cursor: CursorModel::origin(), height }
    }

    /// The buffer, for reading lines, lengths and positions.
    pub fn buffer(&self) -> (b: &TextBuffer)
        ensures
            b@ == self@.text,
    {
        &self.buffer
    }

    /// Viewport-relative cursor column.
    pub fn cursor_col(&self) -> (c: usize)
        ensures
            c == self@.col,
    {
        self.cursor.col
    }

    /// Viewport-relative cursor row.
    pub fn cursor_row(&self) -> (r: usize)
        ensures
            r == self@.row,
    {
        self.cursor.row
    }

    /// Absolute row of the first visible line.
    pub fn scroll_offset(&self) -> (s: usize)
        ensures
            s == self@.scroll,
    {
        self.cursor.scroll
    }

    /// The viewport height the editor was built with.
    pub fn viewport_height(&self) -> (h: usize)
        ensures
            h == self@.height,
    {
        self.height
    }

    /// How many rows of the visible window `[scroll, scroll + height)`
    /// show a line of content: rows at or past the final line's row do
    /// not count.
    pub fn get_visible_lines_len(&self) -> (n: usize)
        ensures
            n == (if self@.scroll >= count_nl(self@.text) {
                0int
            } else if count_nl(self@.text) - self@.scroll < self@.height {
                count_nl(self@.text) - self@.scroll
            } else {
                self@.height
            }),
    {
        let lines = self.buffer.line_count();
        if self.cursor.scroll >= lines - 1 {
            0
        } else {
            let below = (lines - 1) - self.cursor.scroll;
            if below < self.height {
                below
            } else {
                self.height
            }
        }
    }

    /// The bytes to persist: the buffer with each internal terminator
    /// reduced to a single line feed, encoded as UTF-8.
    pub fn save(&self) -> (out: Vec<u8>)
        ensures
            out@ == encode_utf8(strip_cr(self@.text)),
    {
        self.buffer.save()
    }

    fn move_and_clamp(&mut self, m: CursorMovement)
        requires
            ed_wf(old(self)@),
        ensures
            final(self)@ == clamp_state(move_state(old(self)@, m)),
            ed_wf(final(self)@),
    {
        self.cursor.attempt_cursor_move(&self.buffer, self.height, m);
        self.cursor.clamp_to_line(&self.buffer);
    }

    fn insert_char_at_cursor(&mut self, c: char)
        requires
            ed_wf(old(self)@),
        ensures
            final(self)@ == clamp_state(spec_insert_char_state(old(self)@, c)),
            ed_wf(final(self)@),
    {
        if c == '\r' || c == '\n' {
            self.cursor.clamp_to_line(&self.buffer);
        } else {
            let ghost s = self@.text;
            let ghost ln = self@.scroll + self@.row;
            let idx = self.cursor.index_in_buffer(&self.buffer);
            proof {
                lemma_cursor_splice_ok(s, self@.col, ln);
                lemma_crlf_ok_single(c);
                lemma_crlf_splice(s, idx as int, idx as int, seq![c]);
                lemma_count_nl_splice(s, idx as int, idx as int, seq![c]);
                lemma_count_nl_single(c);
                assert(s.take(idx as int) =~= s.take(idx as int) + Seq::<char>::empty());
            }
            let _ = self.buffer.insert_char(idx, c);
            self.cursor.attempt_cursor_move(&self.buffer, self.height, CursorMovement::Right);
            self.cursor.clamp_to_line(&self.buffer);
        }
    }

    fn enter_at_cursor(&mut self)
        requires
            ed_wf(old(self)@),
        ensures
            final(self)@ == clamp_state(spec_enter_state(old(self)@)),
            ed_wf(final(self)@),
    {
        let ghost s = self@.text;
        let ghost ln = self@.scroll + self@.row;
        let idx = self.cursor.index_in_buffer(&self.buffer);
        proof {
            lemma_cursor_splice_ok(s, self@.col, ln);
            lemma_crlf_ok_crlf();
            lemma_crlf_splice(s, idx as int, idx as int, seq!['\r', '\n']);
            lemma_count_nl_splice(s, idx as int, idx as int, seq!['\r', '\n']);
            lemma_count_nl_crlf();
            reveal_strlit("\r\n");
            assert("\r\n"@ =~= seq!['\r', '\n']);
        }
        let _ = self.buffer.insert_text(idx, "\r\n");
        self.cursor.attempt_cursor_move(&self.buffer, self.height, CursorMovement::Down);
        self.cursor.col = 0;
        self.cursor.clamp_to_line(&self.buffer);
    }

    fn backspace_at_cursor(&mut self)
        requires
            ed_wf(old(self)@),
        ensures
            final(self)@ == clamp_state(spec_backspace_state(old(self)@)),
            ed_wf(final(self)@),
    {
        let ghost s = self@.text;
        let ln = self.cursor.line_number(&self.buffer);
        let idx = self.cursor.index_in_buffer(&self.buffer);
        if self.cursor.col > 0 {
            proof {
                lemma_cursor_splice_ok(s, self@.col, ln as int);
                lemma_line_start_bounds(s, ln as int);
                lemma_content_end_from_bounds(s, line_start(s, ln as int));
                if self@.col >= 2 {
                    lemma_content_region_plain(s, line_start(s, ln as int), idx - 2);
                } else if ln >= 1 {
                    lemma_line_start_terminated(s, ln as int);
                }
                lemma_crlf_splice(s, idx - 1, idx as int, Seq::empty());
                lemma_count_nl_splice(s, idx - 1, idx as int, Seq::empty());
                assert(s.subrange(idx - 1, idx as int) =~= seq![s[idx - 1]]);
                lemma_count_nl_single(s[idx - 1]);
            }
            let _ = self.buffer.remove_range(idx - 1, idx);
            self.cursor.attempt_cursor_move(&self.buffer, self.height, CursorMovement::Left);
            self.cursor.clamp_to_line(&self.buffer);
        } else if ln != 0 {
            proof {
                lemma_merge_region(s, ln as int);
                lemma_crlf_splice(s, idx - 2, idx as int, Seq::empty());
                lemma_count_nl_splice(s, idx - 2, idx as int, Seq::empty());
                assert(s.subrange(idx - 2, idx as int) =~= seq!['\r', '\n']);
                lemma_count_nl_crlf();
            }
            self.cursor.attempt_cursor_move(&self.buffer, self.height, CursorMovement::Up);
            let cl = self.buffer.line_content_len(ln - 1);
            self.cursor.col = cl;
            let _ = self.buffer.remove_range(idx - 2, idx);
            self.cursor.clamp_to_line(&self.buffer);
        } else {
            self.cursor.clamp_to_line(&self.buffer);
        }
    }

    /// Produce the draw spans for the visible window: reparse the whole
    /// buffer text, extract the leaf tokens, and render them. The flag
    /// says whether the syntax index was used: when it is set, the spans
    /// realize the renderer's algorithm over exactly the tokens that
    /// parsing this text yields; when the grammar or the parse is
    /// unavailable, it is clear and the spans are the visible window as
    /// one untagged span.
    pub fn redraw(&self) -> (r: (Vec<DrawSpan>, bool))
        requires
            ed_wf(self@),
            self@.scroll + self@.height <= usize::MAX,
        ensures
            r.1 ==> spans_match(
                r.0@,
                spec_render(self@.text, self@.scroll, self@.height, rust_tokens_of(self@.text)),
                self@.text,
            ),
            !r.1 ==> r.0@.len() == 1 && gspan_match(
                r.0@[0],
                spec_render_plain(self@.text, self@.scroll, self@.height),
                self@.text,
            ),
    {
        let scroll = self.cursor.scroll;
        let height = self.height;
        let text = self.buffer.to_text();
        let mut parser = ts_new_parser();
        if ts_set_rust_language(&mut parser) {
            match ts_parse(&mut parser, text.as_str()) {
                Some(tree) => {
                    let root = ts_root_node(&tree);
                    let tokens = leaf_tokens(root);
                    proof {
                        assert(tokens@ == rust_tokens_of(self@.text));
                    }
                    let spans = render(&self.buffer, scroll, height, &tokens);
                    (spans, true)
                },
                None => (render_plain(&self.buffer, scroll, height), false),
            }
        } else {
            (render_plain(&self.buffer, scroll, height), false)
        }
    }

    fn delete_at_cursor(&mut self)
        requires
            ed_wf(old(self)@),
        ensures
            final(self)@ == clamp_state(spec_delete_state(old(self)@)),
            ed_wf(final(self)@),
    {
        let ghost s = self@.text;
        let ln = self.cursor.line_number(&self.buffer);
        let idx = self.cursor.index_in_buffer(&self.buffer);
        let n = self.buffer.len_chars();
        proof {
            lemma_cursor_splice_ok(s, self@.col, ln as int);
        }
        if idx >= n {
            self.cursor.clamp_to_line(&self.buffer);
        } else if self.buffer.char_at(idx) == '\r' {
            proof {
                assert(idx + 1 < s.len() && s[idx + 1] == '\n');
                lemma_nl_after_line_start(s, ln as int, idx + 1);
                if idx + 2 < s.len() && s[idx + 2] == '\n' {
                    assert(s[idx + 1] == '\r');
                    assert(false);
                }
                lemma_crlf_splice(s, idx as int, idx + 2, Seq::empty());
                lemma_count_nl_splice(s, idx as int, idx + 2, Seq::empty());
                assert(s.subrange(idx as int, idx + 2) =~= seq!['\r', '\n']);
                lemma_count_nl_crlf();
            }
            let _ = self.buffer.remove_range(idx, idx + 2);
            self.cursor.clamp_to_line(&self.buffer);
        } else {
            proof {
                if idx + 1 < s.len() && s[idx + 1] == '\n' {
                    assert(s[idx as int] == '\r');
                    assert(false);
                }
                lemma_crlf_splice(s, idx as int, idx + 1, Seq::empty());
                lemma_count_nl_splice(s, idx as int, idx + 1, Seq::empty());
                assert(s.subrange(idx as int, idx + 1) =~= seq![s[idx as int]]);
                lemma_count_nl_single(s[idx as int]);
            }
            let _ = self.buffer.remove_range(idx, idx + 1);
            self.cursor.clamp_to_line(&self.buffer);
        }
    }

    /// Apply one input event. The state moves exactly as the state machine
    /// `spec_step` says; the cursor invariant holds afterwards. Esc asks to
    /// quit, control-s hands back the bytes to persist, everything else
    /// continues.
    pub fn step(&mut self, k: KeyInput) -> (out: StepOutcome)
        requires
            ed_wf(old(self)@),
        ensures
            ed_wf(final(self)@),
            final(self)@ == spec_step(old(self)@, k),
            (out is Quit <==> k is Esc),
            (out is Save <==> is_save_key(k)),
            (out matches StepOutcome::Save(bytes) ==> bytes@ == encode_utf8(
                strip_cr(old(self)@.text),
            )),
    {
        match k {
            KeyInput::Esc => StepOutcome::Quit,
            KeyInput::Up => {
                self.move_and_clamp(CursorMovement::Up);
                StepOutcome::Continue
            },
            KeyInput::Down => {
                self.move_and_clamp(CursorMovement::Down);
                StepOutcome::Continue
            },
            KeyInput::Left => {
                self.move_and_clamp(CursorMovement::Left);
                StepOutcome::Continue
            },
            KeyInput::Right => {
                self.move_and_clamp(CursorMovement::Right);
                StepOutcome::Continue
            },
            KeyInput::Enter => {
                self.enter_at_cursor();
                StepOutcome::Continue
            },
            KeyInput::Backspace => {
                self.backspace_at_cursor();
                StepOutcome::Continue
            },
            KeyInput::Delete => {
                self.delete_at_cursor();
                StepOutcome::Continue
            },
            KeyInput::Char { c, ctrl } => {
                if ctrl && c == 's' {
                    let bytes = self.buffer.save();
                    self.cursor.clamp_to_line(&self.buffer);
                    StepOutcome::Save(bytes)
                } else {
                    self.insert_char_at_cursor(c);
                    StepOutcome::Continue
                }
            },
            KeyInput::Other => {
                self.cursor.clamp_to_line(&self.buffer);
                StepOutcome::Continue
            },
        }
    }
}

/// The cursor column never passes the current line's length: the content
/// length is bounded by the full line length, terminator included.
pub proof fn lemma_cursor_col_bounded(v: EdState)
    requires
        ed_wf(v),
    ensures
        v.col <= spec_line_len(v.text, v.scroll + v.row),
{
    let ln = v.scroll + v.row;
    let ls = line_start(v.text, ln);
    lemma_line_start_bounds(v.text, ln);
    if ls < v.text.len() {
        lemma_content_end_le_line_end(v.text, ls);
        lemma_line_end_from_bounds(v.text, ls);
    } else {
        lemma_content_end_from_bounds(v.text, ls);
    }
}

/// Backspace at the very first character of the document is a no-op.
pub proof fn lemma_backspace_at_origin_noop(v: EdState)
    requires
        ed_wf(v),
        v.col == 0,
        v.scroll + v.row == 0,
    ensures
        spec_step(v, KeyInput::Backspace) == v,
{
}

/// Right at the end of a line's content is a no-op: it never wraps to the
/// next line.
pub proof fn lemma_right_at_line_end_noop(v: EdState)
    requires
        ed_wf(v),
        v.col == spec_content_len(v.text, v.scroll + v.row),
    ensures
        spec_step(v, KeyInput::Right) == v,
{
}

/// Delete-forward at the end of the buffer is a no-op.
pub proof fn lemma_delete_at_end_noop(v: EdState)
    requires
        ed_wf(v),
        cursor_offset(v) >= v.text.len(),
    ensures
        spec_step(v, KeyInput::Delete) == v,
{
}

/// Down at the last navigable row is a no-op.
pub proof fn lemma_down_at_last_row_noop(v: EdState)
    requires
        ed_wf(v),
        v.scroll + v.row + 1 >= nav_line_count(v.text),
    ensures
        spec_step(v, KeyInput::Down) == v,
{
}

} // verus!
