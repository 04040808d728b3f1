use cursortab::decode::{
    decode_stream_cpp_response, decode_stream_next_cursor_response, StreamCppResponse,
    StreamNextCursorResponse,
};
use cursortab::encode::{
    encode_cpp_file_diff_history, encode_cpp_intent_info, encode_current_file_info,
    encode_cursor_position, encode_stream_cpp_request, encode_stream_next_cursor_request,
};
use cursortab::frame::{frame_message, parse_frames, remaining_after_frames};

#[test]
fn cursor_position_small_values() {
    assert_eq!(encode_cursor_position(1, 2), vec![0x08, 0x01, 0x10, 0x02]);
}

#[test]
fn cursor_position_zero_is_written() {
    assert_eq!(encode_cursor_position(0, 0), vec![0x08, 0x00, 0x10, 0x00]);
}

#[test]
fn cursor_position_multi_byte_varint() {
    // 300 = 0b1_0010_1100 -> 0xac 0x02
    assert_eq!(encode_cursor_position(300, 0), vec![0x08, 0xac, 0x02, 0x10, 0x00]);
}

#[test]
fn cursor_position_negative_is_ten_bytes() {
    let out = encode_cursor_position(-1, 0);
    let mut expected = vec![0x08];
    expected.extend_from_slice(&[0xff; 9]);
    expected.push(0x01);
    expected.extend_from_slice(&[0x10, 0x00]);
    assert_eq!(out, expected);
}

#[test]
fn current_file_info_fields() {
    let out = encode_current_file_info("a.rs", "x", 1, 0, 7);
    assert_eq!(
        out,
        vec![
            0x0a, 0x04, b'a', b'.', b'r', b's', 0x12, 0x01, b'x', 0x1a, 0x04, 0x08, 0x01, 0x10,
            0x00
        ]
    );
}

#[test]
fn current_file_info_leaves_out_empty_strings() {
    let out = encode_current_file_info("", "", 2, 3, 0);
    assert_eq!(out, vec![0x1a, 0x04, 0x08, 0x02, 0x10, 0x03]);
}

#[test]
fn current_file_info_utf8_contents() {
    let out = encode_current_file_info("", "é", 0, 0, 0);
    assert_eq!(out, vec![0x12, 0x02, 0xc3, 0xa9, 0x1a, 0x04, 0x08, 0x00, 0x10, 0x00]);
}

#[test]
fn file_diff_history_repeats_field_two() {
    let out = encode_cpp_file_diff_history("f", &["d1".to_string(), "d2".to_string()]);
    assert_eq!(out, vec![0x0a, 0x01, b'f', 0x12, 0x02, b'd', b'1', 0x12, 0x02, b'd', b'2']);
}

#[test]
fn intent_info_source() {
    assert_eq!(
        encode_cpp_intent_info("typing"),
        vec![0x0a, 0x06, b't', b'y', b'p', b'i', b'n', b'g']
    );
    assert_eq!(encode_cpp_intent_info(""), Vec::<u8>::new());
}

#[test]
fn stream_cpp_request_layout() {
    let out = encode_stream_cpp_request(&[0x01], &[vec![0x02]], "ws", "typing");
    let mut expected = vec![0x0a, 0x01, 0x01, 0x3a, 0x01, 0x02, 0x58, 0x00, 0x30, 0x00];
    expected.extend_from_slice(&[0x82, 0x01, 0x08, 0x0a, 0x06]);
    expected.extend_from_slice(b"typing");
    expected.extend_from_slice(&[0x92, 0x01, 0x02, b'w', b's']);
    assert_eq!(out, expected);
}

#[test]
fn stream_cpp_request_skips_empty_parts() {
    let out = encode_stream_cpp_request(&[], &[vec![]], "", "");
    assert_eq!(out, vec![0x58, 0x00, 0x30, 0x00]);
}

#[test]
fn stream_next_cursor_request_layout() {
    let out = encode_stream_next_cursor_request(&[0x05], &["d".to_string()], &[vec![0x06]], "w");
    assert_eq!(
        out,
        vec![
            0x0a, 0x01, 0x05, 0x12, 0x01, b'd', 0x3a, 0x01, 0x06, 0x58, 0x00, 0x30, 0x00, 0x92,
            0x01, 0x01, b'w'
        ]
    );
}

#[test]
fn frame_message_prefix() {
    assert_eq!(frame_message(b"abc"), vec![0, 0, 0, 0, 3, b'a', b'b', b'c']);
    assert_eq!(frame_message(b""), vec![0, 0, 0, 0, 0]);
}

#[test]
fn frame_message_long_length_big_endian() {
    let msg = vec![7u8; 0x0102];
    let out = frame_message(&msg);
    assert_eq!(&out[..5], &[0, 0, 0, 0x01, 0x02]);
    assert_eq!(out.len(), 5 + 0x0102);
}

#[test]
fn frames_roundtrip() {
    let mut data = frame_message(b"one");
    data.extend(frame_message(b"two"));
    assert_eq!(parse_frames(&data), vec![b"one".to_vec(), b"two".to_vec()]);
    assert_eq!(remaining_after_frames(&data), Vec::<u8>::new());
}

#[test]
fn frames_skip_compressed_and_keep_partial() {
    let mut data = vec![1, 0, 0, 0, 2, 9, 9];
    data.extend(frame_message(b"ok"));
    data.extend_from_slice(&[0, 0, 0, 0, 5, b'x']);
    assert_eq!(parse_frames(&data), vec![b"ok".to_vec()]);
    assert_eq!(remaining_after_frames(&data), vec![0, 0, 0, 0, 5, b'x']);
}

#[test]
fn frames_short_header_is_left_over() {
    assert_eq!(parse_frames(&[0, 0, 0]), Vec::<Vec<u8>>::new());
    assert_eq!(remaining_after_frames(&[0, 0, 0]), vec![0, 0, 0]);
}

fn cpp(data: &[u8]) -> StreamCppResponse {
    decode_stream_cpp_response(data)
}

#[test]
fn decode_cpp_all_fields() {
    let mut data = vec![0x0a, 0x02, b'h', b'i'];
    data.extend_from_slice(&[0x10, 0x05]); // suggestion_start_line = 5
    data.extend_from_slice(&[0x20, 0x01]); // done_stream = true
    data.extend_from_slice(&[0x5a, 0x04, 0x08, 0x03, 0x10, 0x07]); // range 3..=7
    let r = cpp(&data);
    assert_eq!(r.text, "hi");
    assert_eq!(r.suggestion_start_line, Some(5));
    assert_eq!(r.done_stream, Some(true));
    assert_eq!(r.start_line, Some(3));
    assert_eq!(r.end_line_inclusive, Some(7));
}

#[test]
fn decode_cpp_empty_is_default() {
    let r = cpp(&[]);
    assert_eq!(r.text, "");
    assert_eq!(r.suggestion_start_line, None);
    assert_eq!(r.done_stream, None);
    assert_eq!(r.start_line, None);
    assert_eq!(r.end_line_inclusive, None);
}

#[test]
fn decode_cpp_skips_unknown_fields() {
    // field 3 varint, field 5 fixed32, field 6 fixed64, field 7 bytes, then done = false
    let mut data = vec![0x18, 0x96, 0x01];
    data.extend_from_slice(&[0x2d, 1, 2, 3, 4]);
    data.extend_from_slice(&[0x31, 1, 2, 3, 4, 5, 6, 7, 8]);
    data.extend_from_slice(&[0x3a, 0x01, 0xff]);
    data.extend_from_slice(&[0x20, 0x00]);
    let r = cpp(&data);
    assert_eq!(r.done_stream, Some(false));
    assert_eq!(r.text, "");
}

#[test]
fn decode_cpp_truncated_text_is_ignored() {
    let r = cpp(&[0x0a, 0x05, b'a']);
    assert_eq!(r.text, "");
}

#[test]
fn decode_cpp_later_field_wins() {
    let r = cpp(&[0x0a, 0x01, b'a', 0x0a, 0x01, b'b']);
    assert_eq!(r.text, "b");
}

#[test]
fn decode_cpp_invalid_utf8_is_replaced() {
    let r = cpp(&[0x0a, 0x02, b'a', 0xff]);
    assert_eq!(r.text, "a\u{fffd}");
}

#[test]
fn decode_cpp_line_range_cut_short_unsets_line() {
    // range with start_line = 4 then a start_line varint cut short
    let r = cpp(&[0x5a, 0x03, 0x08, 0x04, 0x08]);
    assert_eq!(r.start_line, None);
}

#[test]
fn decode_cpp_start_line_truncates_to_i32() {
    // 2^32 + 9 read as an int32 line
    let r = cpp(&[0x10, 0x89, 0x80, 0x80, 0x80, 0x10]);
    assert_eq!(r.suggestion_start_line, Some(9));
}

#[test]
fn decode_cpp_bad_tag_stops() {
    let r = cpp(&[0x20, 0x01, 0x80]);
    assert_eq!(r.done_stream, Some(true));
}

fn next(data: &[u8]) -> StreamNextCursorResponse {
    decode_stream_next_cursor_response(data)
}

#[test]
fn decode_next_cursor_fields() {
    let r = next(&[0x10, 0x2a, 0x18, 0x01]);
    assert_eq!(r.line_number, 42);
    assert!(r.is_not_in_range);
}

#[test]
fn decode_next_cursor_defaults() {
    let r = next(&[]);
    assert_eq!(r.line_number, 0);
    assert!(!r.is_not_in_range);
}

#[test]
fn decode_next_cursor_cut_short_counts_as_zero() {
    let r = next(&[0x10, 0x05, 0x10]);
    assert_eq!(r.line_number, 0);
}

#[test]
fn decode_next_cursor_reads_encoded_line() {
    // the int32 field 2 as the encoder writes it, for a negative value
    let mut data = vec![0x10];
    data.extend_from_slice(&[0xfb, 0xff, 0xff, 0xff, 0xff, 0xff, 0xff, 0xff, 0xff, 0x01]);
    assert_eq!(next(&data).line_number, -5);
}

#[test]
fn varint_of_eleven_bytes_fails_after_ten() {
    // a varint that never ends within ten bytes: the tag cannot be read
    let data = vec![0x80u8; 11];
    let r = next(&data);
    assert_eq!(r.line_number, 0);
}

#[test]
fn several_frames_read_back_in_order() {
    let msgs: Vec<Vec<u8>> = vec![b"a".to_vec(), vec![], b"ccc".to_vec()];
    let mut data = Vec::new();
    for m in &msgs {
        data.extend(frame_message(m));
    }
    assert_eq!(parse_frames(&data), msgs);
    assert_eq!(remaining_after_frames(&data), Vec::<u8>::new());
    assert_eq!(parse_frames(&[]), Vec::<Vec<u8>>::new());
}

#[test]
fn decode_cpp_cut_short_text_keeps_earlier() {
    let r = cpp(&[0x0a, 0x01, b'a', 0x0a, 0x05, b'b']);
    assert_eq!(r.text, "a");
    assert_eq!(r.start_line, None);
}
