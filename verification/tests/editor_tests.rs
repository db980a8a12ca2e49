use tedit::buffer::TextBuffer;
use tedit::editor::{Editor, KeyInput, StepOutcome};

fn editor_from(text: &str, height: usize) -> Editor {
    Editor::new(TextBuffer::load_text(text), height)
}

fn press(ed: &mut Editor, k: KeyInput) {
    match ed.step(k) {
        StepOutcome::Continue => (),
        _ => panic!("expected the session to continue"),
    }
}

fn ch(c: char) -> KeyInput {
    KeyInput::Char { c, ctrl: false }
}

#[test]
fn insert_moves_cursor_right() {
    // buffer "ab\ncd\n", cursor at absolute offset 0: insert 'X'
    let mut ed = editor_from("ab\ncd\n", 10);
    press(&mut ed, ch('X'));
    assert_eq!(ed.save(), b"Xab\ncd\n".to_vec());
    assert_eq!(ed.cursor_col(), 1);
    assert_eq!(ed.cursor_row(), 0);
}

#[test]
fn down_then_right_twice_lands_after_second_character() {
    let mut ed = editor_from("ab\ncd\n", 10);
    press(&mut ed, ch('X'));
    press(&mut ed, KeyInput::Down);
    press(&mut ed, KeyInput::Right);
    press(&mut ed, KeyInput::Right);
    assert_eq!(ed.cursor_row(), 1);
    assert_eq!(ed.cursor_col(), 2);
    // a further Right is refused at the end of the line's content
    press(&mut ed, KeyInput::Right);
    assert_eq!(ed.cursor_col(), 2);
}

#[test]
fn backspace_at_line_start_merges_lines() {
    // the scenario whole: insert, move down, backspace at column 0 of "cd"
    let mut ed = editor_from("ab\ncd\n", 10);
    press(&mut ed, ch('X'));
    press(&mut ed, KeyInput::Down);
    press(&mut ed, KeyInput::Right);
    press(&mut ed, KeyInput::Right);
    press(&mut ed, KeyInput::Left);
    press(&mut ed, KeyInput::Left);
    assert_eq!(ed.cursor_col(), 0);
    press(&mut ed, KeyInput::Backspace);
    assert_eq!(ed.save(), b"Xabcd\n".to_vec());
    assert_eq!(ed.cursor_col(), 3);
    assert_eq!(ed.cursor_row(), 0);
}

#[test]
fn down_scrolls_at_viewport_bottom_and_stops_at_last_row() {
    // viewport height 2, 5 lines, cursor at viewport row 1 (absolute row 1)
    let mut ed = editor_from("l1\nl2\nl3\nl4\nl5\n", 2);
    press(&mut ed, KeyInput::Down);
    assert_eq!(ed.cursor_row(), 1);
    assert_eq!(ed.scroll_offset(), 0);
    press(&mut ed, KeyInput::Down);
    assert_eq!(ed.cursor_row(), 1);
    assert_eq!(ed.scroll_offset(), 1);
    press(&mut ed, KeyInput::Down);
    assert_eq!(ed.cursor_row(), 1);
    assert_eq!(ed.scroll_offset(), 2);
    // absolute row 3; one more Down reaches the last navigable row 4
    press(&mut ed, KeyInput::Down);
    assert_eq!(ed.scroll_offset(), 3);
    // and there Down is a no-op
    press(&mut ed, KeyInput::Down);
    assert_eq!(ed.cursor_row(), 1);
    assert_eq!(ed.scroll_offset(), 3);
}

#[test]
fn visible_lines_len_counts_content_rows_in_window() {
    let mut ed = editor_from("l1\nl2\nl3\nl4\nl5\n", 2);
    assert_eq!(ed.get_visible_lines_len(), 2);
    for _ in 0..4 {
        press(&mut ed, KeyInput::Down);
    }
    assert_eq!(ed.scroll_offset(), 3);
    assert_eq!(ed.get_visible_lines_len(), 2);
    let tall = editor_from("l1\nl2\nl3\nl4\nl5\n", 10);
    assert_eq!(tall.get_visible_lines_len(), 5);
    let empty = editor_from("", 10);
    assert_eq!(empty.get_visible_lines_len(), 0);
}

#[test]
fn backspace_at_document_origin_is_noop() {
    let mut ed = editor_from("ab\ncd\n", 10);
    press(&mut ed, KeyInput::Backspace);
    assert_eq!(ed.save(), b"ab\ncd\n".to_vec());
    assert_eq!(ed.cursor_col(), 0);
    assert_eq!(ed.cursor_row(), 0);
    assert_eq!(ed.scroll_offset(), 0);
}

#[test]
fn right_at_end_of_last_line_is_noop() {
    let mut ed = editor_from("ab", 10);
    press(&mut ed, KeyInput::Right);
    press(&mut ed, KeyInput::Right);
    assert_eq!(ed.cursor_col(), 2);
    press(&mut ed, KeyInput::Right);
    assert_eq!(ed.cursor_col(), 2);
}

#[test]
fn down_at_last_navigable_row_is_noop() {
    let mut ed = editor_from("ab\ncd\n", 10);
    press(&mut ed, KeyInput::Down);
    press(&mut ed, KeyInput::Down);
    assert_eq!(ed.cursor_row(), 1);
    assert_eq!(ed.scroll_offset(), 0);
}

#[test]
fn up_at_top_of_document_is_noop() {
    let mut ed = editor_from("ab\ncd\n", 10);
    press(&mut ed, KeyInput::Up);
    assert_eq!(ed.cursor_row(), 0);
    assert_eq!(ed.scroll_offset(), 0);
}

#[test]
fn up_at_viewport_top_scrolls_back() {
    let mut ed = editor_from("l1\nl2\nl3\nl4\nl5\n", 2);
    press(&mut ed, KeyInput::Down);
    press(&mut ed, KeyInput::Down);
    assert_eq!(ed.scroll_offset(), 1);
    press(&mut ed, KeyInput::Up);
    assert_eq!(ed.cursor_row(), 0);
    assert_eq!(ed.scroll_offset(), 1);
    press(&mut ed, KeyInput::Up);
    assert_eq!(ed.cursor_row(), 0);
    assert_eq!(ed.scroll_offset(), 0);
}

#[test]
fn enter_splits_line_and_moves_to_column_zero() {
    let mut ed = editor_from("ab\n", 10);
    press(&mut ed, KeyInput::Right);
    press(&mut ed, KeyInput::Enter);
    assert_eq!(ed.save(), b"a\nb\n".to_vec());
    assert_eq!(ed.cursor_col(), 0);
    assert_eq!(ed.cursor_row(), 1);
}

#[test]
fn backspace_mid_line_removes_previous_character() {
    let mut ed = editor_from("abc\n", 10);
    press(&mut ed, KeyInput::Right);
    press(&mut ed, KeyInput::Right);
    press(&mut ed, KeyInput::Backspace);
    assert_eq!(ed.save(), b"ac\n".to_vec());
    assert_eq!(ed.cursor_col(), 1);
}

#[test]
fn backspace_removes_empty_line() {
    let mut ed = editor_from("ab\n\ncd\n", 10);
    press(&mut ed, KeyInput::Down);
    assert_eq!(ed.cursor_row(), 1);
    assert_eq!(ed.cursor_col(), 0);
    press(&mut ed, KeyInput::Backspace);
    assert_eq!(ed.save(), b"ab\ncd\n".to_vec());
    assert_eq!(ed.cursor_row(), 0);
    assert_eq!(ed.cursor_col(), 2);
}

#[test]
fn delete_forward_removes_character_under_cursor() {
    let mut ed = editor_from("abc\n", 10);
    press(&mut ed, KeyInput::Right);
    press(&mut ed, KeyInput::Delete);
    assert_eq!(ed.save(), b"ac\n".to_vec());
    assert_eq!(ed.cursor_col(), 1);
}

#[test]
fn delete_forward_at_line_end_merges_the_next_line() {
    let mut ed = editor_from("ab\ncd\n", 10);
    press(&mut ed, KeyInput::Right);
    press(&mut ed, KeyInput::Right);
    press(&mut ed, KeyInput::Delete);
    assert_eq!(ed.save(), b"abcd\n".to_vec());
    assert_eq!(ed.cursor_col(), 2);
    assert_eq!(ed.cursor_row(), 0);
}

#[test]
fn delete_forward_at_end_of_buffer_is_noop() {
    let mut ed = editor_from("ab", 10);
    press(&mut ed, KeyInput::Right);
    press(&mut ed, KeyInput::Right);
    press(&mut ed, KeyInput::Delete);
    assert_eq!(ed.save(), b"ab".to_vec());
    assert_eq!(ed.cursor_col(), 2);
}

#[test]
fn inserts_then_matching_backspaces_restore_saved_output() {
    let mut ed = editor_from("ab\ncd\n", 10);
    let before = ed.save();
    for c in ['x', 'y', 'z'] {
        press(&mut ed, ch(c));
    }
    assert_eq!(ed.save(), b"xyzab\ncd\n".to_vec());
    for _ in 0..3 {
        press(&mut ed, KeyInput::Backspace);
    }
    assert_eq!(ed.save(), before);
}

#[test]
fn control_s_hands_back_the_bytes_to_persist() {
    let mut ed = editor_from("ab\ncd\n", 10);
    press(&mut ed, ch('X'));
    match ed.step(KeyInput::Char { c: 's', ctrl: true }) {
        StepOutcome::Save(bytes) => assert_eq!(bytes, b"Xab\ncd\n".to_vec()),
        _ => panic!("expected a save outcome"),
    }
    // the buffer itself is untouched by saving
    assert_eq!(ed.save(), b"Xab\ncd\n".to_vec());
}

#[test]
fn escape_quits_without_touching_state() {
    let mut ed = editor_from("ab\n", 10);
    match ed.step(KeyInput::Esc) {
        StepOutcome::Quit => (),
        _ => panic!("expected the session to quit"),
    }
    assert_eq!(ed.save(), b"ab\n".to_vec());
    assert_eq!(ed.cursor_col(), 0);
}

#[test]
fn typed_line_feed_is_not_inserted() {
    let mut ed = editor_from("ab\n", 10);
    press(&mut ed, ch('\n'));
    press(&mut ed, ch('\r'));
    assert_eq!(ed.save(), b"ab\n".to_vec());
    assert_eq!(ed.cursor_col(), 0);
}

#[test]
fn control_character_without_s_is_inserted_as_text() {
    let mut ed = editor_from("ab\n", 10);
    press(&mut ed, KeyInput::Char { c: 'q', ctrl: true });
    assert_eq!(ed.save(), b"qab\n".to_vec());
}

#[test]
fn column_clamps_when_moving_to_a_shorter_line() {
    let mut ed = editor_from("abcd\nx\n", 10);
    for _ in 0..4 {
        press(&mut ed, KeyInput::Right);
    }
    assert_eq!(ed.cursor_col(), 4);
    press(&mut ed, KeyInput::Down);
    assert_eq!(ed.cursor_row(), 1);
    assert_eq!(ed.cursor_col(), 1);
}

#[test]
fn cursor_column_never_passes_line_length() {
    // drive the editor through a mixed key sequence and check the
    // invariant at every step
    let keys = [
        ch('x'),
        KeyInput::Down,
        KeyInput::Right,
        KeyInput::Enter,
        KeyInput::Right,
        KeyInput::Backspace,
        KeyInput::Up,
        KeyInput::Backspace,
        ch('y'),
        KeyInput::Down,
        KeyInput::Down,
        KeyInput::Left,
        KeyInput::Backspace,
        KeyInput::Up,
        KeyInput::Up,
    ];
    let mut ed = editor_from("abcd\nef\n\nlongest line\nz", 3);
    for k in keys {
        press(&mut ed, k);
        let row = ed.scroll_offset() + ed.cursor_row();
        assert!(ed.cursor_col() <= ed.buffer().line_length(row));
        assert!(ed.cursor_col() <= ed.buffer().line_content_len(row));
    }
}
