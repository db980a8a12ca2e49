//! The cursor model: a viewport-relative (column, row) position plus the
//! scroll offset (the absolute row of the first visible line). All reads
//! and writes of the cursor go through this model; the display layer is
//! never consulted. The absolute row is `scroll + row`, and after every
//! keystroke the column is clamped to the current line's length.

use vstd::prelude::*;
use crate::buffer::TextBuffer;
use crate::text::{
    count_nl,
    nav_line_count,
    spec_content_len,
    spec_abs_offset,
    line_start,
    lemma_line_start_bounds,
    lemma_content_end_from_bounds,
    lemma_count_nl_le_len,
};

verus! {

/// One step of cursor movement.
#[derive(Debug, Clone, Copy, PartialEq, Eq, Structural)]
pub enum CursorMovement {
    Up,
    Down,
    Left,
    Right,
}

/// Viewport-relative cursor position and scroll offset.
#[derive(Debug, Clone, Copy, PartialEq, Eq, Structural)]
pub struct CursorModel {
    pub col: usize,
    pub row: usize,
    pub scroll: usize,
}

/// The cursor invariant against a buffer text and a viewport height: the
/// row fits the viewport, the absolute row lies within the buffer's lines,
/// and the column does not pass the current line's content.
pub open spec fn cursor_wf(s: Seq<char>, height: int, col: int, row: int, scroll: int) -> bool {
    &&& height >= 1
    &&& 0 <= col && 0 <= row && 0 <= scroll
    &&& row < height
    &&& scroll + row <= count_nl(s)
    &&& col <= spec_content_len(s, scroll + row)
}

/// What one movement does to the cursor, as (column, row, scroll).
///
/// Up scrolls when the viewport row is already 0 and is a no-op at the top
/// of the buffer. Down refuses to leave the last navigable row and scrolls
/// when the viewport row is at the bottom. Left and Right move by one
/// column, saturating at 0, and Right refuses the move at the end of the
/// line's content; it never wraps to the next line.
pub open spec fn spec_move(
    s: Seq<char>,
    height: int,
    col: int,
    row: int,
    scroll: int,
    m: CursorMovement,
) -> (int, int, int) {
    let ln = scroll + row;
    match m {
        CursorMovement::Up => if row == 0 {
            if scroll > 0 {
                (col, 0int, scroll - 1)
            } else {
                (col, 0int, 0int)
            }
        } else {
            (col, row - 1, scroll)
        },
        CursorMovement::Down => if ln < nav_line_count(s) - 1 {
            if row + 1 == height {
                (col, row, scroll + 1)
            } else {
                (col, row + 1, scroll)
            }
        } else {
            (col, row, scroll)
        },
        CursorMovement::Left => if col > 0 {
            (col - 1, row, scroll)
        } else {
            (0int, row, scroll)
        },
        CursorMovement::Right => if col < spec_content_len(s, ln) {
            (col + 1, row, scroll)
        } else {
            (col, row, scroll)
        },
    }
}

/// The clamp applied after every keystroke: the column never passes the
/// current line's content length.
pub open spec fn spec_clamp(s: Seq<char>, col: int, row: int, scroll: int) -> (int, int, int) {
    let cl = spec_content_len(s, scroll + row);
    if col <= cl {
        (col, row, scroll)
    } else {
        (cl, row, scroll)
    }
}

impl CursorModel {
    /// The cursor at the top left of an unscrolled viewport.
    pub fn origin() -> (c: CursorModel)
        ensures
            c.col == 0 && c.row == 0 && c.scroll == 0,
    {
        CursorModel { col: 0, row: 0, scroll: 0 }
    }

    /// The absolute row the cursor stands on.
    pub fn line_number(&self, buf: &TextBuffer) -> (ln: usize)
        requires
            self.scroll + self.row <= count_nl(buf@),
        ensures
            ln == self.scroll + self.row,
    {
        proof {
            lemma_count_nl_le_len(buf@);
        }
        let n = buf.len_chars();
        self.scroll + self.row
    }

    /// The absolute character offset the cursor stands at, by the
    /// canonical column/row-to-offset translation.
    pub fn index_in_buffer(&self, buf: &TextBuffer) -> (o: usize)
        requires
            self.scroll + self.row <= count_nl(buf@),
            self.col <= spec_content_len(buf@, self.scroll + self.row),
        ensures
            o == spec_abs_offset(buf@, self.col as int, self.scroll + self.row),
            o <= buf@.len(),
    {
        let ln = self.line_number(buf);
        proof {
            lemma_line_start_bounds(buf@, ln as int);
            lemma_content_end_from_bounds(buf@, line_start(buf@, ln as int));
        }
        buf.absolute_char_offset(self.col, ln)
    }

    /// Clamp the column to the current line's content length.
    pub fn clamp_to_line(&mut self, buf: &TextBuffer)
        requires
            old(self).scroll + old(self).row <= count_nl(buf@),
        ensures
            (final(self).col as int, final(self).row as int, final(self).scroll as int)
                == spec_clamp(
                buf@,
                old(self).col as int,
                old(self).row as int,
                old(self).scroll as int,
            ),
            final(self).col <= spec_content_len(buf@, final(self).scroll + final(self).row),
            final(self).row == old(self).row,
            final(self).scroll == old(self).scroll,
    {
        let ln = self.line_number(buf);
        let cl = buf.line_content_len(ln);
        if self.col > cl {
            self.col = cl;
        }
    }

    /// Apply one movement against the buffer and viewport height.
    pub fn attempt_cursor_move(&mut self, buf: &TextBuffer, height: usize, m: CursorMovement)
        requires
            height >= 1,
            old(self).row < height,
            old(self).scroll + old(self).row <= count_nl(buf@),
        ensures
            (final(self).col as int, final(self).row as int, final(self).scroll as int)
                == spec_move(
                buf@,
                height as int,
                old(self).col as int,
                old(self).row as int,
                old(self).scroll as int,
                m,
            ),
            final(self).row < height,
            final(self).scroll + final(self).row <= count_nl(buf@),
    {
        match m {
            CursorMovement::Up => {
                if self.row == 0 {
                    if self.scroll > 0 {
                        self.scroll = self.scroll - 1;
                    }
                } else {
                    self.row = self.row - 1;
                }
            },
            CursorMovement::Down => {
                let ln = self.line_number(buf);
                let nav = buf.nav_lines();
                if ln < nav - 1 {
                    proof {
                        lemma_count_nl_le_len(buf@);
                    }
                    if self.row + 1 == height {
                        self.scroll = self.scroll + 1;
                    } else {
                        self.row = self.row + 1;
                    }
                }
            },
            CursorMovement::Left => {
                if self.col > 0 {
                    self.col = self.col - 1;
                }
            },
            CursorMovement::Right => {
                let ln = self.line_number(buf);
                let cl = buf.line_content_len(ln);
                if self.col < cl {
                    self.col = self.col + 1;
                }
            },
        }
    }
}

} // verus!
