//! Encoding the request messages of the completion service as protobuf.
//! Each field is a key (the field number shifted left by three, or-ed with
//! the wire type) followed by its value; empty strings and empty nested
//! messages are left out.

use vstd::prelude::*;
use vstd::utf8::encode_utf8;
use crate::bytes_buf::{
    bytes_mut_contents, bytes_mut_new, bytes_mut_put_u8, bytes_mut_put_slice, bytes_mut_to_vec,
};
use crate::varint::{varint_bytes, write_varint, lemma_varint_len};
use crate::text::string_texts;
use bytes::BytesMut;

verus! {

/// The key of a field: its number shifted left by three bits, or-ed with
/// the wire type, in 32 bits.
pub open spec fn tag_spec(field: u32, wire: u32) -> u32 {
    (field << 3u32) | wire
}

/// The encoded key of a field.
pub open spec fn key_bytes(field: u32, wire: u32) -> Seq<u8> {
    varint_bytes(tag_spec(field, wire) as u64)
}

/// A length-delimited field (bytes, a string, or a nested message); left
/// out where `data` is empty.
pub open spec fn bytes_field(field: u32, data: Seq<u8>) -> Seq<u8> {
    if data.len() == 0 {
        Seq::empty()
    } else {
        key_bytes(field, 2) + varint_bytes(data.len() as u64) + data
    }
}

/// A string field: its UTF-8 bytes as a length-delimited field.
pub open spec fn string_field(field: u32, s: Seq<char>) -> Seq<u8> {
    bytes_field(field, encode_utf8(s))
}

/// A boolean field, always written: the value as one byte, 1 or 0.
pub open spec fn bool_field(field: u32, v: bool) -> Seq<u8> {
    key_bytes(field, 0) + seq![if v { 1u8 } else { 0u8 }]
}

/// An `int32` field, always written: the value sign-extended to 64 bits, as
/// a varint (ten bytes for a negative value).
pub open spec fn i32_field(field: u32, v: i32) -> Seq<u8> {
    key_bytes(field, 0) + varint_bytes(v as u64)
}

/// A string field repeated once for each string of `ds`, in order.
pub open spec fn repeated_string_field(field: u32, ds: Seq<Seq<char>>) -> Seq<u8>
    decreases ds.len(),
{
    if ds.len() == 0 {
        Seq::empty()
    } else {
        repeated_string_field(field, ds.drop_last()) + string_field(field, ds.last())
    }
}

/// A nested-message field repeated once for each message of `ms`, in order
/// (empty ones left out).
pub open spec fn repeated_bytes_field(field: u32, ms: Seq<Seq<u8>>) -> Seq<u8>
    decreases ms.len(),
{
    if ms.len() == 0 {
        Seq::empty()
    } else {
        repeated_bytes_field(field, ms.drop_last()) + bytes_field(field, ms.last())
    }
}

/// The bytes of a slice of byte vectors.
pub open spec fn byte_seqs(ms: Seq<Vec<u8>>) -> Seq<Seq<u8>> {
    ms.map_values(|m: Vec<u8>| m@)
}

/// CursorPosition: line (1) and column (2).
pub open spec fn cursor_position_spec(line: i32, column: i32) -> Seq<u8> {
    i32_field(1, line) + i32_field(2, column)
}

/// CurrentFileInfo: relative workspace path (1), contents (2), cursor
/// position (3).
pub open spec fn current_file_info_spec(
    path: Seq<char>,
    contents: Seq<char>,
    line: i32,
    column: i32,
) -> Seq<u8> {
    string_field(1, path) + string_field(2, contents) + bytes_field(
        3,
        cursor_position_spec(line, column),
    )
}

/// CppFileDiffHistory: file name (1), diff history (2, repeated).
pub open spec fn file_diff_history_spec(file_name: Seq<char>, diffs: Seq<Seq<char>>) -> Seq<u8> {
    string_field(1, file_name) + repeated_string_field(2, diffs)
}

/// CppIntentInfo: source (1).
pub open spec fn intent_info_spec(source: Seq<char>) -> Seq<u8> {
    string_field(1, source)
}

/// StreamCppRequest: current file (1), file diff histories (7, repeated),
/// is_debug (11) and give_debug_output (6) both false, intent info (16),
/// workspace id (18).
pub open spec fn stream_cpp_request_spec(
    current_file: Seq<u8>,
    histories: Seq<Seq<u8>>,
    workspace_id: Seq<char>,
    source: Seq<char>,
) -> Seq<u8> {
    bytes_field(1, current_file) + repeated_bytes_field(7, histories) + bool_field(11, false)
        + bool_field(6, false) + bytes_field(16, intent_info_spec(source)) + string_field(
        18,
        workspace_id,
    )
}

/// StreamNextCursorPredictionRequest: current file (1), diff history (2,
/// repeated), file diff histories (7, repeated), is_debug (11) and
/// give_debug_output (6) both false, workspace id (18).
pub open spec fn stream_next_cursor_request_spec(
    current_file: Seq<u8>,
    diffs: Seq<Seq<char>>,
    histories: Seq<Seq<u8>>,
    workspace_id: Seq<char>,
) -> Seq<u8> {
    bytes_field(1, current_file) + repeated_string_field(2, diffs) + repeated_bytes_field(
        7,
        histories,
    ) + bool_field(11, false) + bool_field(6, false) + string_field(18, workspace_id)
}

/// What strings take at most, each with its key and length, as fields.
pub open spec fn strings_size(ds: Seq<Seq<char>>) -> nat
    decreases ds.len(),
{
    if ds.len() == 0 {
        0
    } else {
        strings_size(ds.drop_last()) + encode_utf8(ds.last()).len() + 20
    }
}

/// A field's key and the length of a length-delimited field take at most
/// ten bytes each; a boolean field at most eleven, an `int32` field at most
/// twenty.
pub proof fn lemma_field_sizes(field: u32, wire: u32, data: Seq<u8>, text: Seq<char>, v: bool, n: i32)
    ensures
        key_bytes(field, wire).len() <= 10,
        bytes_field(field, data).len() <= 20 + data.len(),
        string_field(field, text).len() <= 20 + encode_utf8(text).len(),
        bool_field(field, v).len() <= 11,
        i32_field(field, n).len() <= 20,
{
    lemma_varint_len(tag_spec(field, wire) as u64);
    lemma_varint_len(tag_spec(field, 0) as u64);
    lemma_varint_len(tag_spec(field, 2) as u64);
    lemma_varint_len(data.len() as u64);
    lemma_varint_len(encode_utf8(text).len() as u64);
    lemma_varint_len(n as u64);
}

/// Repeated string fields take at most `strings_size` bytes.
pub proof fn lemma_repeated_strings_size(field: u32, ds: Seq<Seq<char>>)
    ensures
        repeated_string_field(field, ds).len() <= strings_size(ds),
    decreases ds.len(),
{
    if ds.len() > 0 {
        lemma_repeated_strings_size(field, ds.drop_last());
        lemma_field_sizes(field, 2, Seq::empty(), ds.last(), false, 0);
    }
}

/// A nested message repeated once is that one field.
pub proof fn lemma_repeated_one(field: u32, m: Seq<u8>)
    ensures
        repeated_bytes_field(field, seq![m]) == bytes_field(field, m),
{
    assert(seq![m].drop_last().len() == 0);
    assert(repeated_bytes_field(field, seq![m].drop_last()) == Seq::<u8>::empty());
    assert(seq![m].last() == m);
    assert(Seq::<u8>::empty() + bytes_field(field, m) == bytes_field(field, m));
}

fn tag(field: u32, wire: u32) -> (t: u32)
    ensures
        t == tag_spec(field, wire),
{
    (field << 3) | wire
}

fn write_tag(buf: &mut BytesMut, field: u32, wire: u32)
    requires
        bytes_mut_contents(*old(buf)).len() + key_bytes(field, wire).len() <= isize::MAX,
    ensures
        bytes_mut_contents(*final(buf)) == bytes_mut_contents(*old(buf)) + key_bytes(field, wire),
{
    write_varint(buf, tag(field, wire) as u64);
}

fn write_bytes_field(buf: &mut BytesMut, field: u32, data: &[u8])
    requires
        bytes_mut_contents(*old(buf)).len() + bytes_field(field, data@).len() <= isize::MAX,
    ensures
        bytes_mut_contents(*final(buf)) == bytes_mut_contents(*old(buf)) + bytes_field(
            field,
            data@,
        ),
{
    if data.is_empty() {
        proof {
            assert(bytes_mut_contents(*buf) + Seq::<u8>::empty() == bytes_mut_contents(*buf));
        }
        return;
    }
    let ghost start = bytes_mut_contents(*buf);
    write_tag(buf, field, 2);
    write_varint(buf, data.len() as u64);
    bytes_mut_put_slice(buf, data);
    proof {
        assert(start + key_bytes(field, 2) + varint_bytes(data@.len() as u64) + data@ == start
            + bytes_field(field, data@));
    }
}

fn write_string_field(buf: &mut BytesMut, field: u32, s: &str)
    requires
        bytes_mut_contents(*old(buf)).len() + string_field(field, s@).len() <= isize::MAX,
    ensures
        bytes_mut_contents(*final(buf)) == bytes_mut_contents(*old(buf)) + string_field(field, s@),
{
    write_bytes_field(buf, field, s.as_bytes());
}

fn write_bool_field(buf: &mut BytesMut, field: u32, v: bool)
    requires
        bytes_mut_contents(*old(buf)).len() + bool_field(field, v).len() <= isize::MAX,
    ensures
        bytes_mut_contents(*final(buf)) == bytes_mut_contents(*old(buf)) + bool_field(field, v),
{
    let ghost start = bytes_mut_contents(*buf);
    write_tag(buf, field, 0);
    bytes_mut_put_u8(buf, if v { 1 } else { 0 });
    proof {
        assert(start + key_bytes(field, 0) + seq![if v { 1u8 } else { 0u8 }] == start + bool_field(
            field,
            v,
        ));
    }
}

fn write_i32_field(buf: &mut BytesMut, field: u32, v: i32)
    requires
        bytes_mut_contents(*old(buf)).len() + i32_field(field, v).len() <= isize::MAX,
    ensures
        bytes_mut_contents(*final(buf)) == bytes_mut_contents(*old(buf)) + i32_field(field, v),
{
    let ghost start = bytes_mut_contents(*buf);
    write_tag(buf, field, 0);
    write_varint(buf, v as u64);
    proof {
        assert(start + key_bytes(field, 0) + varint_bytes(v as u64) == start + i32_field(field, v));
    }
}

fn write_message_field(buf: &mut BytesMut, field: u32, inner: &[u8])
    requires
        bytes_mut_contents(*old(buf)).len() + bytes_field(field, inner@).len() <= isize::MAX,
    ensures
        bytes_mut_contents(*final(buf)) == bytes_mut_contents(*old(buf)) + bytes_field(
            field,
            inner@,
        ),
{
    if inner.is_empty() {
        proof {
            assert(bytes_mut_contents(*buf) + Seq::<u8>::empty() == bytes_mut_contents(*buf));
        }
        return;
    }
    let ghost start = bytes_mut_contents(*buf);
    write_tag(buf, field, 2);
    write_varint(buf, inner.len() as u64);
    bytes_mut_put_slice(buf, inner);
    proof {
        assert(start + key_bytes(field, 2) + varint_bytes(inner@.len() as u64) + inner@ == start
            + bytes_field(field, inner@));
    }
}

/// Encodes a CursorPosition message.
pub fn encode_cursor_position(line: i32, column: i32) -> (out: Vec<u8>)
    ensures
        out@ == cursor_position_spec(line, column),
{
    let mut buf = bytes_mut_new();
    proof {
        crate::varint::lemma_varint_len(tag_spec(1, 0) as u64);
        crate::varint::lemma_varint_len(tag_spec(2, 0) as u64);
        crate::varint::lemma_varint_len(line as u64);
        crate::varint::lemma_varint_len(column as u64);
    }
    write_i32_field(&mut buf, 1, line);
    write_i32_field(&mut buf, 2, column);
    proof {
        assert(Seq::<u8>::empty() + i32_field(1, line) + i32_field(2, column)
            == cursor_position_spec(line, column));
    }
    bytes_mut_to_vec(&buf)
}

proof fn lemma_repeated_string_prefix(field: u32, ds: Seq<Seq<char>>, i: int)
    requires
        0 <= i <= ds.len(),
    ensures
        repeated_string_field(field, ds.take(i)).len() <= repeated_string_field(field, ds).len(),
    decreases ds.len(),
{
    if i < ds.len() {
        assert(ds.drop_last().take(i) == ds.take(i));
        lemma_repeated_string_prefix(field, ds.drop_last(), i);
    } else {
        assert(ds.take(i) == ds);
    }
}

proof fn lemma_repeated_bytes_prefix(field: u32, ms: Seq<Seq<u8>>, i: int)
    requires
        0 <= i <= ms.len(),
    ensures
        repeated_bytes_field(field, ms.take(i)).len() <= repeated_bytes_field(field, ms).len(),
    decreases ms.len(),
{
    if i < ms.len() {
        assert(ms.drop_last().take(i) == ms.take(i));
        lemma_repeated_bytes_prefix(field, ms.drop_last(), i);
    } else {
        assert(ms.take(i) == ms);
    }
}

fn write_repeated_strings(buf: &mut BytesMut, field: u32, ds: &[String])
    requires
        bytes_mut_contents(*old(buf)).len() + repeated_string_field(field, string_texts(ds@)).len()
            <= isize::MAX,
    ensures
        bytes_mut_contents(*final(buf)) == bytes_mut_contents(*old(buf)) + repeated_string_field(
            field,
            string_texts(ds@),
        ),
{
    let ghost start = bytes_mut_contents(*buf);
    let ghost all = string_texts(ds@);
    let mut i: usize = 0;
    proof {
        assert(all.take(0) == Seq::<Seq<char>>::empty());
        assert(start + Seq::<u8>::empty() == start);
    }
    while i < ds.len()
        invariant
            i <= ds@.len(),
            all == string_texts(ds@),
            all.len() == ds@.len(),
            start.len() + repeated_string_field(field, all).len() <= isize::MAX,
            bytes_mut_contents(*buf) == start + repeated_string_field(field, all.take(i as int)),
        decreases ds@.len() - i,
    {
        let d = &ds[i];
        proof {
            assert(all.take(i + 1).drop_last() == all.take(i as int));
            assert(all.take(i + 1).last() == d@);
            lemma_repeated_string_prefix(field, all, i + 1);
        }
        write_string_field(buf, field, d.as_str());
        proof {
            assert(start + repeated_string_field(field, all.take(i as int)) + string_field(field, d@)
                == start + repeated_string_field(field, all.take(i + 1)));
        }
        i = i + 1;
    }
    proof {
        assert(all.take(ds@.len() as int) == all);
    }
}

fn write_repeated_messages(buf: &mut BytesMut, field: u32, ms: &[Vec<u8>])
    requires
        bytes_mut_contents(*old(buf)).len() + repeated_bytes_field(field, byte_seqs(ms@)).len()
            <= isize::MAX,
    ensures
        bytes_mut_contents(*final(buf)) == bytes_mut_contents(*old(buf)) + repeated_bytes_field(
            field,
            byte_seqs(ms@),
        ),
{
    let ghost start = bytes_mut_contents(*buf);
    let ghost all = byte_seqs(ms@);
    let mut i: usize = 0;
    proof {
        assert(all.take(0) == Seq::<Seq<u8>>::empty());
        assert(start + Seq::<u8>::empty() == start);
    }
    while i < ms.len()
        invariant
            i <= ms@.len(),
            all == byte_seqs(ms@),
            all.len() == ms@.len(),
            start.len() + repeated_bytes_field(field, all).len() <= isize::MAX,
            bytes_mut_contents(*buf) == start + repeated_bytes_field(field, all.take(i as int)),
        decreases ms@.len() - i,
    {
        let m = &ms[i];
        proof {
            assert(all.take(i + 1).drop_last() == all.take(i as int));
            assert(all.take(i + 1).last() == m@);
            lemma_repeated_bytes_prefix(field, all, i + 1);
        }
        write_message_field(buf, field, m.as_slice());
        proof {
            assert(start + repeated_bytes_field(field, all.take(i as int)) + bytes_field(field, m@)
                == start + repeated_bytes_field(field, all.take(i + 1)));
        }
        i = i + 1;
    }
    proof {
        assert(all.take(ms@.len() as int) == all);
    }
}

/// Encodes a CurrentFileInfo message. The file version is not part of the
/// message and is not written.
pub fn encode_current_file_info(
    relative_workspace_path: &str,
    contents: &str,
    cursor_line: i32,
    cursor_col: i32,
    file_version: i32,
) -> (out: Vec<u8>)
    requires
        current_file_info_spec(relative_workspace_path@, contents@, cursor_line, cursor_col).len()
            <= isize::MAX,
    ensures
        out@ == current_file_info_spec(relative_workspace_path@, contents@, cursor_line, cursor_col),
{
    let mut buf = bytes_mut_new();
    write_string_field(&mut buf, 1, relative_workspace_path);
    write_string_field(&mut buf, 2, contents);
    let cursor = encode_cursor_position(cursor_line, cursor_col);
    write_message_field(&mut buf, 3, cursor.as_slice());
    let _ = file_version;
    proof {
        assert(Seq::<u8>::empty() + string_field(1, relative_workspace_path@) + string_field(
            2,
            contents@,
        ) + bytes_field(3, cursor@) == current_file_info_spec(
            relative_workspace_path@,
            contents@,
            cursor_line,
            cursor_col,
        ));
    }
    bytes_mut_to_vec(&buf)
}

/// Encodes a CppFileDiffHistory message.
pub fn encode_cpp_file_diff_history(file_name: &str, diff_history: &[String]) -> (out: Vec<u8>)
    requires
        file_diff_history_spec(file_name@, string_texts(diff_history@)).len() <= isize::MAX,
    ensures
        out@ == file_diff_history_spec(file_name@, string_texts(diff_history@)),
{
    let mut buf = bytes_mut_new();
    write_string_field(&mut buf, 1, file_name);
    write_repeated_strings(&mut buf, 2, diff_history);
    proof {
        assert(Seq::<u8>::empty() + string_field(1, file_name@) + repeated_string_field(
            2,
            string_texts(diff_history@),
        ) == file_diff_history_spec(file_name@, string_texts(diff_history@)));
    }
    bytes_mut_to_vec(&buf)
}

/// Encodes a CppIntentInfo message.
pub fn encode_cpp_intent_info(source: &str) -> (out: Vec<u8>)
    requires
        intent_info_spec(source@).len() <= isize::MAX,
    ensures
        out@ == intent_info_spec(source@),
{
    let mut buf = bytes_mut_new();
    write_string_field(&mut buf, 1, source);
    proof {
        assert(Seq::<u8>::empty() + string_field(1, source@) == intent_info_spec(source@));
    }
    bytes_mut_to_vec(&buf)
}

/// Encodes a StreamCppRequest message from an encoded CurrentFileInfo and
/// encoded CppFileDiffHistory messages.
pub fn encode_stream_cpp_request(
    current_file: &[u8],
    file_diff_histories: &[Vec<u8>],
    workspace_id: &str,
    source: &str,
) -> (out: Vec<u8>)
    requires
        stream_cpp_request_spec(
            current_file@,
            byte_seqs(file_diff_histories@),
            workspace_id@,
            source@,
        ).len() <= isize::MAX,
    ensures
        out@ == stream_cpp_request_spec(
            current_file@,
            byte_seqs(file_diff_histories@),
            workspace_id@,
            source@,
        ),
{
    let ghost hs = byte_seqs(file_diff_histories@);
    let mut buf = bytes_mut_new();
    write_message_field(&mut buf, 1, current_file);
    write_repeated_messages(&mut buf, 7, file_diff_histories);
    write_bool_field(&mut buf, 11, false);
    write_bool_field(&mut buf, 6, false);
    let intent = encode_cpp_intent_info(source);
    write_message_field(&mut buf, 16, intent.as_slice());
    write_string_field(&mut buf, 18, workspace_id);
    proof {
        assert(Seq::<u8>::empty() + bytes_field(1, current_file@) + repeated_bytes_field(7, hs)
            + bool_field(11, false) + bool_field(6, false) + bytes_field(16, intent@)
            + string_field(18, workspace_id@) == stream_cpp_request_spec(
            current_file@,
            hs,
            workspace_id@,
            source@,
        ));
    }
    bytes_mut_to_vec(&buf)
}

/// Encodes a StreamNextCursorPredictionRequest message from an encoded
/// CurrentFileInfo, the diff history, and encoded CppFileDiffHistory
/// messages.
pub fn encode_stream_next_cursor_request(
    current_file: &[u8],
    diff_history: &[String],
    file_diff_histories: &[Vec<u8>],
    workspace_id: &str,
) -> (out: Vec<u8>)
    requires
        stream_next_cursor_request_spec(
            current_file@,
            string_texts(diff_history@),
            byte_seqs(file_diff_histories@),
            workspace_id@,
        ).len() <= isize::MAX,
    ensures
        out@ == stream_next_cursor_request_spec(
            current_file@,
            string_texts(diff_history@),
            byte_seqs(file_diff_histories@),
            workspace_id@,
        ),
{
    let ghost ds = string_texts(diff_history@);
    let ghost hs = byte_seqs(file_diff_histories@);
    let mut buf = bytes_mut_new();
    write_message_field(&mut buf, 1, current_file);
    write_repeated_strings(&mut buf, 2, diff_history);
    write_repeated_messages(&mut buf, 7, file_diff_histories);
    write_bool_field(&mut buf, 11, false);
    write_bool_field(&mut buf, 6, false);
    write_string_field(&mut buf, 18, workspace_id);
    proof {
        assert(Seq::<u8>::empty() + bytes_field(1, current_file@) + repeated_string_field(2, ds)
            + repeated_bytes_field(7, hs) + bool_field(11, false) + bool_field(6, false)
            + string_field(18, workspace_id@) == stream_next_cursor_request_spec(
            current_file@,
            ds,
            hs,
            workspace_id@,
        ));
    }
    bytes_mut_to_vec(&buf)
}

} // verus!
