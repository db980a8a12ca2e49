use tedit::buffer::{TextBuffer, EditorError};

#[test]
fn load_save_roundtrip_lf_only() {
    let bytes: Vec<u8> = b"ab\ncd\n".to_vec();
    let buf = TextBuffer::load(bytes.clone()).unwrap();
    assert_eq!(buf.save(), bytes);
}

#[test]
fn load_save_roundtrip_no_trailing_newline() {
    let bytes: Vec<u8> = b"alpha\nbeta".to_vec();
    let buf = TextBuffer::load(bytes.clone()).unwrap();
    assert_eq!(buf.save(), bytes);
}

#[test]
fn load_save_roundtrip_empty() {
    let buf = TextBuffer::load(Vec::new()).unwrap();
    assert_eq!(buf.save(), Vec::<u8>::new());
}

#[test]
fn load_save_roundtrip_multibyte() {
    let bytes: Vec<u8> = "héllo\nwörld\n".as_bytes().to_vec();
    let buf = TextBuffer::load(bytes.clone()).unwrap();
    assert_eq!(buf.save(), bytes);
}

#[test]
fn load_normalizes_crlf_sources() {
    let buf = TextBuffer::load(b"a\r\nb\r\n".to_vec()).unwrap();
    assert_eq!(buf.to_text(), "a\r\nb\r\n");
    assert_eq!(buf.save(), b"a\nb\n".to_vec());
}

#[test]
fn load_stores_two_character_terminators() {
    let buf = TextBuffer::load(b"ab\ncd\n".to_vec()).unwrap();
    assert_eq!(buf.to_text(), "ab\r\ncd\r\n");
    assert_eq!(buf.len_chars(), 8);
    assert_eq!(buf.char_at(2), '\r');
    assert_eq!(buf.char_at(3), '\n');
}

#[test]
fn load_rejects_invalid_utf8() {
    let r = TextBuffer::load(vec![0xff, 0xfe, 0x41]);
    assert_eq!(r.unwrap_err(), EditorError::DecodeError);
}

#[test]
fn line_metrics_with_trailing_terminator() {
    let buf = TextBuffer::load_text("ab\ncd\n");
    assert_eq!(buf.line_count(), 3);
    assert_eq!(buf.nav_lines(), 2);
    assert_eq!(buf.line_length(0), 4);
    assert_eq!(buf.line_content_len(0), 2);
    assert_eq!(buf.line_length(1), 4);
    assert_eq!(buf.line_length(2), 0);
    assert_eq!(buf.line(0), "ab\r\n");
    assert_eq!(buf.line(2), "");
}

#[test]
fn line_metrics_final_line_without_terminator() {
    let buf = TextBuffer::load_text("ab\ncd");
    assert_eq!(buf.line_count(), 2);
    assert_eq!(buf.nav_lines(), 2);
    assert_eq!(buf.line_length(1), 2);
    assert_eq!(buf.line_content_len(1), 2);
    assert_eq!(buf.line(1), "cd");
}

#[test]
fn line_metrics_empty_buffer() {
    let buf = TextBuffer::load_text("");
    assert_eq!(buf.line_count(), 1);
    assert_eq!(buf.nav_lines(), 1);
    assert_eq!(buf.line_length(0), 0);
    assert_eq!(buf.line_content_len(0), 0);
}

#[test]
fn absolute_char_offset_sums_line_lengths() {
    // internal text: "ab\r\ncd\r\n"
    let buf = TextBuffer::load_text("ab\ncd\n");
    assert_eq!(buf.absolute_char_offset(0, 0), 0);
    assert_eq!(buf.absolute_char_offset(2, 0), 2);
    assert_eq!(buf.absolute_char_offset(0, 1), 4);
    assert_eq!(buf.absolute_char_offset(1, 1), 5);
    assert_eq!(buf.absolute_char_offset(0, 2), 8);
}

#[test]
fn offset_to_position_inverts_offsets() {
    let buf = TextBuffer::load_text("ab\ncd\n");
    assert_eq!(buf.offset_to_position(0), (0, 0));
    assert_eq!(buf.offset_to_position(2), (2, 0));
    assert_eq!(buf.offset_to_position(4), (0, 1));
    assert_eq!(buf.offset_to_position(5), (1, 1));
    for o in 0..=buf.len_chars() {
        let (col, row) = buf.offset_to_position(o);
        assert_eq!(buf.absolute_char_offset(col, row), o);
    }
}

#[test]
fn insert_then_remove_restores_saved_output() {
    let mut buf = TextBuffer::load_text("ab\ncd\n");
    let before = buf.save();
    assert!(buf.insert_char(2, 'X').is_ok());
    assert_eq!(buf.save(), b"abX\ncd\n".to_vec());
    assert!(buf.remove_range(2, 3).is_ok());
    assert_eq!(buf.save(), before);
}

#[test]
fn insert_text_places_characters() {
    let mut buf = TextBuffer::load_text("ad");
    assert!(buf.insert_text(1, "bc").is_ok());
    assert_eq!(buf.to_text(), "abcd");
}

#[test]
fn insert_char_out_of_range() {
    let mut buf = TextBuffer::load_text("ab");
    assert_eq!(buf.insert_char(3, 'x').unwrap_err(), EditorError::OutOfRange);
    assert_eq!(buf.to_text(), "ab");
}

#[test]
fn insert_text_out_of_range() {
    let mut buf = TextBuffer::load_text("ab");
    assert_eq!(buf.insert_text(5, "y").unwrap_err(), EditorError::OutOfRange);
    assert_eq!(buf.to_text(), "ab");
}

#[test]
fn remove_range_out_of_range() {
    let mut buf = TextBuffer::load_text("ab");
    assert_eq!(buf.remove_range(0, 3).unwrap_err(), EditorError::OutOfRange);
    assert_eq!(buf.remove_range(2, 1).unwrap_err(), EditorError::OutOfRange);
    assert_eq!(buf.to_text(), "ab");
}
