use cursortab::auth::cursor_db_candidates;
use cursortab::buffer::BufferState;
use cursortab::certs::certificate_candidates;
use cursortab::checksum::checksum_at;
use cursortab::decode::{StreamCppResponse, StreamNextCursorResponse};
use cursortab::frame::frame_message;
use cursortab::session::{
    accumulate_suggestion, build_next_cursor_request, build_sync_request, check_request_size,
    classify_request,
    cursor_after_accept, first_ghost_hint, predict_next_line, RequestKind,
};
use cursortab::stream::{CppStream, NextCursorStream};
use cursortab::text::{decimal_string, join_with_newlines, split_lines};

fn s(v: &[&str]) -> Vec<String> {
    v.iter().map(|x| x.to_string()).collect()
}

fn msg(text: &str, start: Option<i32>, end: Option<i32>, done: Option<bool>) -> StreamCppResponse {
    StreamCppResponse {
        text: text.to_string(),
        suggestion_start_line: None,
        done_stream: done,
        start_line: start,
        end_line_inclusive: end,
    }
}

#[test]
fn new_buffer_is_blank() {
    let b = BufferState::new();
    assert!(b.lines.is_empty());
    assert_eq!((b.row, b.col, b.version, b.id), (0, 0, 0, 0));
    assert_eq!(b.path, "");
    assert!(b.diff_history.is_empty());
}

#[test]
fn contents_joins_lines() {
    let mut b = BufferState::new();
    b.lines = s(&["a", "bc", ""]);
    assert_eq!(b.contents(), "a\nbc\n");
    b.lines = vec![];
    assert_eq!(b.contents(), "");
}

#[test]
fn sync_keeps_history_of_same_buffer() {
    let mut b = BufferState::new();
    b.apply_sync(3, "p".to_string(), s(&["x"]), 5, 2);
    assert_eq!((b.id, b.row, b.col), (3, 4, 2));
    b.diff_history.push("d".to_string());
    b.version = 2;
    b.apply_sync(3, "p".to_string(), s(&["y"]), 1, 0);
    assert_eq!(b.diff_history, s(&["d"]));
    assert_eq!(b.version, 2);
    assert_eq!(b.lines, s(&["y"]));
    b.apply_sync(4, "q".to_string(), s(&["z"]), 1, 0);
    assert!(b.diff_history.is_empty());
    assert_eq!(b.version, 0);
    assert_eq!(b.path, "q");
}

#[test]
fn record_accept_writes_diff() {
    let mut b = BufferState::new();
    b.lines = s(&["l0", "l1", "l2"]);
    b.record_accept(1, 1, &s(&["n1", "n2"]));
    assert_eq!(b.diff_history, s(&["2-|l1\n2+|n1\n3+|n2\n"]));
    assert_eq!(b.version, 1);
}

#[test]
fn record_accept_end_past_buffer_stops_at_last_line() {
    let mut b = BufferState::new();
    b.lines = s(&["a", "b"]);
    b.record_accept(0, 10, &s(&["c"]));
    assert_eq!(b.diff_history, s(&["1-|a\n2-|b\n1+|c\n"]));
}

#[test]
fn record_accept_negative_end_reads_as_large() {
    let mut b = BufferState::new();
    b.lines = s(&["a", "b"]);
    b.record_accept(1, -1, &s(&[]));
    assert_eq!(b.diff_history, s(&["2-|b\n"]));
}

#[test]
fn history_keeps_last_three() {
    let mut b = BufferState::new();
    b.lines = s(&["a"]);
    for i in 0..5 {
        b.record_accept(0, 0, &s(&[&format!("v{}", i)]));
    }
    assert_eq!(b.diff_history.len(), 3);
    assert_eq!(b.diff_history[2], "1-|a\n1+|v4\n");
    assert_eq!(b.diff_history[0], "1-|a\n1+|v2\n");
    assert_eq!(b.version, 5);
}

#[test]
fn decimal_numbers() {
    assert_eq!(decimal_string(0), "0");
    assert_eq!(decimal_string(7), "7");
    assert_eq!(decimal_string(1234567890), "1234567890");
}

#[test]
fn join_and_split_lines() {
    assert_eq!(join_with_newlines(&s(&["x", "y"])), "x\ny");
    assert_eq!(split_lines("a\r\nb\n\nc"), s(&["a", "b", "", "c"]));
    assert_eq!(split_lines("a\n"), s(&["a"]));
    assert_eq!(split_lines(""), Vec::<String>::new());
    assert_eq!(split_lines("x\r"), s(&["x\r"]));
    assert_eq!(split_lines("\n"), s(&[""]));
}

#[test]
fn split_matches_std_lines() {
    for t in ["a\r\nb", "\r\n\r\n", "x\ry\n", "ä\nö\r\n", "tail"] {
        let expected: Vec<String> = t.lines().map(|l| l.to_string()).collect();
        assert_eq!(split_lines(t), expected);
    }
}

#[test]
fn suggestion_from_messages() {
    let msgs = vec![
        msg("foo\n", Some(3), None, None),
        msg("bar", None, Some(4), None),
        msg("", None, None, Some(true)),
    ];
    let (start, end, lines) = accumulate_suggestion(&msgs).unwrap();
    assert_eq!((start, end), (2, 3));
    assert_eq!(lines, s(&["foo", "bar"]));
}

#[test]
fn suggestion_end_defaults_to_start() {
    let msgs = vec![msg("x", Some(1), None, None)];
    assert_eq!(accumulate_suggestion(&msgs), Some((0, 0, s(&["x"]))));
}

#[test]
fn suggestion_needs_start_and_lines() {
    assert_eq!(accumulate_suggestion(&[]), None);
    assert_eq!(accumulate_suggestion(&[msg("x", None, Some(1), None)]), None);
    assert_eq!(accumulate_suggestion(&[msg("", Some(1), None, None)]), None);
}

#[test]
fn suggestion_last_start_wins() {
    let msgs = vec![msg("a", Some(1), None, None), msg("", Some(9), None, None)];
    assert_eq!(accumulate_suggestion(&msgs), Some((8, 8, s(&["a"]))));
}

#[test]
fn ghost_hint_after_common_prefix() {
    let lines = s(&["same", "let x = 1;"]);
    let repl = s(&["same", "let x = 10;"]);
    assert_eq!(first_ghost_hint(&lines, 0, &repl), Some((1, 9, "0;".to_string())));
}

#[test]
fn ghost_hint_skips_shortened_lines_and_stops_at_end() {
    let lines = s(&["abcd"]);
    assert_eq!(first_ghost_hint(&lines, 0, &s(&["ab", "zz"])), None);
    assert_eq!(first_ghost_hint(&lines, 1, &s(&["zz"])), None);
    assert_eq!(first_ghost_hint(&lines, -1, &s(&["zz"])), None);
}

#[test]
fn ghost_hint_counts_characters() {
    let lines = s(&["é"]);
    assert_eq!(first_ghost_hint(&lines, 0, &s(&["éx"])), Some((0, 1, "x".to_string())));
}

#[test]
fn cursor_goes_to_end_of_last_line_in_bytes() {
    assert_eq!(cursor_after_accept(4, &s(&["a", "héllo"])), (6, 6));
    assert_eq!(cursor_after_accept(0, &s(&[])), (0, 0));
}

#[test]
fn next_line_prediction() {
    let m = |l: i32, o: bool| StreamNextCursorResponse { line_number: l, is_not_in_range: o };
    assert_eq!(predict_next_line(&[m(5, false), m(0, false)]), Some(4));
    assert_eq!(predict_next_line(&[m(5, false), m(7, true)]), None);
    assert_eq!(predict_next_line(&[]), None);
    assert_eq!(predict_next_line(&[m(0, false)]), None);
}

#[test]
fn request_names() {
    assert_eq!(classify_request("cursortab_sync"), Some(RequestKind::Sync));
    assert_eq!(classify_request("cursortab_tab_key"), Some(RequestKind::TabKey));
    assert_eq!(classify_request("other"), None);
    assert_eq!(classify_request(""), None);
}

#[test]
fn sync_request_for_buffer() {
    let mut b = BufferState::new();
    b.path = "p".to_string();
    b.lines = s(&["x"]);
    b.row = 0;
    b.col = 1;
    let out = build_sync_request(&b, "w");
    let file = vec![0x0a, 0x01, b'p', 0x12, 0x01, b'x', 0x1a, 0x04, 0x08, 0x01, 0x10, 0x01];
    let hist = vec![0x0a, 0x01, b'p'];
    let mut expected = vec![0x0a, file.len() as u8];
    expected.extend(file);
    expected.extend([0x3a, hist.len() as u8]);
    expected.extend(hist);
    expected.extend([0x58, 0x00, 0x30, 0x00, 0x82, 0x01, 0x08, 0x0a, 0x06]);
    expected.extend(b"typing");
    expected.extend([0x92, 0x01, 0x01, b'w']);
    assert_eq!(out, expected);
}

#[test]
fn next_cursor_request_carries_history() {
    let mut b = BufferState::new();
    b.diff_history = s(&["d"]);
    let out = build_next_cursor_request(&b, "");
    let file = vec![0x1a, 0x04, 0x08, 0x01, 0x10, 0x00];
    let hist = vec![0x12, 0x01, b'd'];
    let mut expected = vec![0x0a, file.len() as u8];
    expected.extend(file);
    expected.extend([0x12, 0x01, b'd']);
    expected.extend([0x3a, hist.len() as u8]);
    expected.extend(hist);
    expected.extend([0x58, 0x00, 0x30, 0x00]);
    assert_eq!(out, expected);
}

#[test]
fn cpp_stream_across_chunks() {
    let mut data = frame_message(&[0x0a, 0x01, b'a']);
    data.extend(frame_message(&[0x0a, 0x01, b'b', 0x20, 0x01]));
    data.extend(frame_message(&[0x0a, 0x01, b'c']));
    let mut st = CppStream::new();
    assert!(!st.on_chunk(&data[..3]));
    assert_eq!(st.pending_len(), 3);
    assert!(!st.on_chunk(&data[3..10]));
    assert!(st.on_chunk(&data[10..]));
    let results = st.into_results();
    assert_eq!(results.len(), 2);
    assert_eq!(results[0].text, "a");
    assert_eq!(results[1].text, "b");
    assert_eq!(results[1].done_stream, Some(true));
}

#[test]
fn next_cursor_stream_stops_out_of_range() {
    let mut data = frame_message(&[0x10, 0x03]);
    data.extend(frame_message(&[0x18, 0x01]));
    data.extend(frame_message(&[0x10, 0x09]));
    let mut st = NextCursorStream::new();
    assert!(st.on_chunk(&data));
    let r = st.into_results();
    assert_eq!(r.len(), 2);
    assert_eq!(r[0].line_number, 3);
    assert!(r[1].is_not_in_range);
}

#[test]
fn checksum_known_values() {
    assert_eq!(checksum_at(0, "hi"), "paaoq6+0hi");
    assert_eq!(checksum_at(1700000000123, ""), "pDAB55Pt");
}

#[test]
fn db_candidates() {
    let (l, m) = cursor_db_candidates("/home/u");
    assert_eq!(l, "/home/u/.config/Cursor/User/globalStorage/state.vscdb");
    assert_eq!(m, "/home/u/Library/Application Support/Cursor/User/globalStorage/state.vscdb");
}

#[test]
fn checksum_is_eight_chars_then_machine_id() {
    for ts in [0u64, 1, 1700000000123, u64::MAX] {
        let c = checksum_at(ts, "machine");
        assert_eq!(c.len(), 8 + "machine".len());
        assert!(c.ends_with("machine"));
    }
}

#[test]
fn contents_split_gives_lines_back() {
    let mut b = BufferState::new();
    b.lines = s(&["a", "", "bc", ""]);
    let text = b.contents();
    let back: Vec<String> = text.split('\n').map(String::from).collect();
    assert_eq!(back, b.lines);
    assert_eq!(text.len(), 3 + 3);
}

#[test]
fn request_size_check() {
    let mut b = BufferState::new();
    b.lines = s(&["x"]);
    assert!(check_request_size(&b, "w"));
    b.row = i32::MAX as i64;
    assert!(!check_request_size(&b, "w"));
    b.row = 0;
    b.diff_history = s(&["d1", "d2"]);
    assert!(check_request_size(&b, ""));
}

#[test]
fn certificate_places() {
    assert_eq!(
        certificate_candidates(None),
        s(&["/etc/ssl/certs/ca-bundle.crt", "/etc/ssl/certs/ca-certificates.crt"])
    );
    assert_eq!(
        certificate_candidates(Some("/x.pem".to_string())),
        s(&["/x.pem", "/etc/ssl/certs/ca-bundle.crt", "/etc/ssl/certs/ca-certificates.crt"])
    );
}
