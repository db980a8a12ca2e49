use tedit::buffer::TextBuffer;
use tedit::editor::{Editor, KeyInput};
use tedit::render::{render, render_plain, DrawSpan, Token, PALETTE_SIZE};

fn tok(tag: u16, start: (usize, usize), end: (usize, usize)) -> Token {
    Token { tag, start_row: start.0, start_col: start.1, end_row: end.0, end_col: end.1 }
}

fn check_contiguous(buf: &TextBuffer, spans: &[DrawSpan], first_start: usize) {
    let text = buf.to_text();
    let mut expected_start = first_start;
    for sp in spans {
        assert_eq!(sp.start, expected_start);
        assert!(sp.start <= sp.end);
        assert!(sp.end <= buf.len_chars());
        let slice: String = text.chars().skip(sp.start).take(sp.end - sp.start).collect();
        assert_eq!(sp.text, slice);
        if let Some(c) = sp.color {
            assert!(c < PALETTE_SIZE);
        }
        expected_start = sp.end;
    }
}

#[test]
fn render_plain_covers_the_visible_window() {
    // internal text "ab\r\ncd\r\nef\r\n"; two visible lines make [0, 8)
    let buf = TextBuffer::load_text("ab\ncd\nef\n");
    let spans = render_plain(&buf, 0, 2);
    assert_eq!(spans.len(), 1);
    assert_eq!(spans[0].start, 0);
    assert_eq!(spans[0].end, 8);
    assert_eq!(spans[0].text, "ab\r\ncd\r\n");
    assert_eq!(spans[0].color, None);
}

#[test]
fn render_plain_scrolled_window() {
    let buf = TextBuffer::load_text("ab\ncd\nef\n");
    let spans = render_plain(&buf, 1, 2);
    assert_eq!(spans.len(), 1);
    assert_eq!(spans[0].start, 4);
    assert_eq!(spans[0].end, 12);
    assert_eq!(spans[0].text, "cd\r\nef\r\n");
}

#[test]
fn render_emits_tagged_spans_and_untagged_gaps() {
    // internal text "ab\r\ncd\r\n"
    let buf = TextBuffer::load_text("ab\ncd\n");
    let tokens = vec![tok(1, (0, 0), (0, 2)), tok(2, (1, 0), (1, 2))];
    let spans = render(&buf, 0, 10, &tokens);
    assert_eq!(spans.len(), 3);
    assert_eq!((spans[0].start, spans[0].end), (0, 2));
    assert_eq!(spans[0].color, Some(1));
    assert_eq!(spans[0].text, "ab");
    assert_eq!((spans[1].start, spans[1].end), (2, 4));
    assert_eq!(spans[1].color, None);
    assert_eq!(spans[1].text, "\r\n");
    assert_eq!((spans[2].start, spans[2].end), (4, 6));
    assert_eq!(spans[2].color, Some(2));
    assert_eq!(spans[2].text, "cd");
    check_contiguous(&buf, &spans, 0);
}

#[test]
fn render_orders_tokens_by_start_offset() {
    let buf = TextBuffer::load_text("ab\ncd\n");
    let in_order = vec![tok(1, (0, 0), (0, 2)), tok(2, (1, 0), (1, 2))];
    let reversed = vec![tok(2, (1, 0), (1, 2)), tok(1, (0, 0), (0, 2))];
    let a = render(&buf, 0, 10, &in_order);
    let b = render(&buf, 0, 10, &reversed);
    assert_eq!(a.len(), b.len());
    for (x, y) in a.iter().zip(b.iter()) {
        assert_eq!((x.start, x.end, x.color, x.text.clone()), (y.start, y.end, y.color, y.text.clone()));
    }
}

#[test]
fn render_discards_tokens_outside_visible_rows() {
    let buf = TextBuffer::load_text("ab\ncd\nef\n");
    let tokens = vec![tok(1, (2, 0), (2, 2))];
    let spans = render(&buf, 0, 2, &tokens);
    assert_eq!(spans.len(), 0);
    let visible = render(&buf, 1, 2, &tokens);
    assert_eq!(visible.len(), 2);
    assert_eq!(visible[0].color, None);
    assert_eq!((visible[1].start, visible[1].end), (8, 10));
    check_contiguous(&buf, &visible, 4);
}

#[test]
fn render_never_duplicates_overlapping_tokens() {
    let buf = TextBuffer::load_text("abcdef\n");
    let tokens = vec![tok(1, (0, 0), (0, 4)), tok(2, (0, 2), (0, 6))];
    let spans = render(&buf, 0, 10, &tokens);
    assert_eq!(spans.len(), 2);
    assert_eq!((spans[0].start, spans[0].end), (0, 4));
    assert_eq!(spans[0].text, "abcd");
    assert_eq!((spans[1].start, spans[1].end), (4, 6));
    assert_eq!(spans[1].text, "ef");
    check_contiguous(&buf, &spans, 0);
}

#[test]
fn render_clamps_positions_past_the_buffer() {
    let buf = TextBuffer::load_text("ab\n");
    let tokens = vec![tok(3, (0, 1), (9, 99))];
    let spans = render(&buf, 0, 10, &tokens);
    assert_eq!(spans.len(), 2);
    assert_eq!((spans[0].start, spans[0].end), (0, 1));
    assert_eq!(spans[0].color, None);
    assert_eq!((spans[1].start, spans[1].end), (1, 4));
    assert_eq!(spans[1].color, Some(3));
    check_contiguous(&buf, &spans, 0);
}

#[test]
fn render_handles_reversed_token_spans() {
    let buf = TextBuffer::load_text("abcd\n");
    let tokens = vec![tok(0, (0, 3), (0, 1))];
    let spans = render(&buf, 0, 10, &tokens);
    assert_eq!(spans.len(), 2);
    assert_eq!((spans[1].start, spans[1].end), (3, 3));
    check_contiguous(&buf, &spans, 0);
}

#[test]
fn palette_color_is_tag_modulo_palette_size() {
    let buf = TextBuffer::load_text("abcdef\n");
    let tokens = vec![tok(14, (0, 0), (0, 2))];
    let spans = render(&buf, 0, 10, &tokens);
    assert_eq!(spans[0].color, Some(2));
    let tokens2 = vec![tok(12, (0, 0), (0, 2))];
    let spans2 = render(&buf, 0, 10, &tokens2);
    assert_eq!(spans2[0].color, Some(0));
}

#[test]
fn redraw_colors_parsed_source_without_duplication() {
    let buf = TextBuffer::load_text("fn main() {\n    let x = 1;\n}\n");
    let ed = Editor::new(buf, 24);
    let (spans, with_syntax) = ed.redraw();
    assert!(with_syntax);
    assert!(spans.len() > 0);
    assert!(spans.iter().any(|sp| sp.color.is_some()));
    check_contiguous(ed.buffer(), &spans, 0);
}

#[test]
fn redraw_of_scrolled_editor_starts_at_the_viewport_top() {
    let buf = TextBuffer::load_text("fn a() {}\nfn b() {}\nfn c() {}\n");
    let mut ed = Editor::new(buf, 2);
    ed.step(KeyInput::Down);
    ed.step(KeyInput::Down);
    assert_eq!(ed.scroll_offset(), 1);
    let (spans, with_syntax) = ed.redraw();
    assert!(with_syntax);
    let first_start = ed.buffer().absolute_char_offset(0, 1);
    check_contiguous(ed.buffer(), &spans, first_start);
}
