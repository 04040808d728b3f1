//! The decisions taken on the plugin's two requests: on each edit, what to
//! ask the service and which suggestion to show; on the accept key, where
//! the cursor goes, what the history records, and where the next edit is
//! predicted.

use vstd::prelude::*;
use vstd::utf8::{encode_utf8, is_ascii_chars, is_ascii_chars_encode_utf8};
use crate::buffer::BufferState;
use crate::decode::{CppResponseView, StreamCppResponse, StreamNextCursorResponse};
use crate::encode::{
    current_file_info_spec, file_diff_history_spec, stream_cpp_request_spec,
    stream_next_cursor_request_spec, byte_seqs, cursor_position_spec, intent_info_spec,
    strings_size, lemma_field_sizes, lemma_repeated_strings_size, lemma_repeated_one, encode_current_file_info,
    encode_cpp_file_diff_history, encode_stream_cpp_request, encode_stream_next_cursor_request,
};
use crate::text::{
    join_lines, string_texts, lines_of, split_lines, common_prefix_len, common_prefix_count,
    same_text, lemma_common_prefix_len_bound, line_bytes, lemma_join_lines_bytes,
    lemma_common_prefix_of_prefix, lemma_common_prefix_symmetric,
};

verus! {

/// The intent that a request made on an edit declares.
pub open spec fn typing_source() -> Seq<char> {
    seq!['t', 'y', 'p', 'i', 'n', 'g']
}

/// The encoded CurrentFileInfo of a buffer: its path, its text, and the
/// cursor with a 1-based line (both cut to 32 bits).
pub open spec fn file_info_of(b: BufferState) -> Seq<u8> {
    current_file_info_spec(
        b.path@,
        join_lines(string_texts(b.lines@)),
        ((b.row as i32) + 1) as i32,
        b.col as i32,
    )
}

/// The encoded CppFileDiffHistory of a buffer: its path and its history.
pub open spec fn history_of(b: BufferState) -> Seq<u8> {
    file_diff_history_spec(b.path@, string_texts(b.diff_history@))
}

/// The completion request for a buffer.
pub open spec fn sync_request_spec(b: BufferState, workspace_id: Seq<char>) -> Seq<u8> {
    stream_cpp_request_spec(file_info_of(b), seq![history_of(b)], workspace_id, typing_source())
}

/// The next-cursor request for a buffer.
pub open spec fn next_cursor_request_spec(b: BufferState, workspace_id: Seq<char>) -> Seq<u8> {
    stream_next_cursor_request_spec(
        file_info_of(b),
        string_texts(b.diff_history@),
        seq![history_of(b)],
        workspace_id,
    )
}

/// Whether the requests for a buffer fit in memory at all, and its 1-based
/// cursor line in 32 bits.
pub open spec fn requests_fit(b: BufferState, workspace_id: Seq<char>) -> bool {
    &&& (b.row as i32) < i32::MAX
    &&& file_info_of(b).len() <= isize::MAX
    &&& history_of(b).len() <= isize::MAX
    &&& sync_request_spec(b, workspace_id).len() <= isize::MAX
    &&& next_cursor_request_spec(b, workspace_id).len() <= isize::MAX
}

/// A bound on the size of both requests for a buffer: a few hundred bytes
/// of keys and lengths, twice the path, the lines with a newline each, twice
/// the history with twenty bytes for each record, and the workspace id, all
/// counted in UTF-8 bytes.
pub open spec fn request_size_bound(b: BufferState, workspace_id: Seq<char>) -> nat {
    400 + 2 * encode_utf8(b.path@).len() + line_bytes(string_texts(b.lines@)) + 2 * strings_size(
        string_texts(b.diff_history@),
    ) + encode_utf8(workspace_id).len()
}

/// Both requests for a buffer fit where its cursor line does and the bound
/// on their size does.
pub proof fn lemma_requests_fit(b: BufferState, workspace_id: Seq<char>)
    requires
        (b.row as i32) < i32::MAX,
        request_size_bound(b, workspace_id) <= isize::MAX,
    ensures
        requests_fit(b, workspace_id),
{
    let path = b.path@;
    let lines = string_texts(b.lines@);
    let diffs = string_texts(b.diff_history@);
    let contents = join_lines(lines);
    let row = ((b.row as i32) + 1) as i32;
    let col = b.col as i32;
    let cursor = cursor_position_spec(row, col);
    let p = encode_utf8(path).len();
    let lb = line_bytes(lines);
    let ds = strings_size(diffs);
    let w = encode_utf8(workspace_id).len();
    assert(cursor.len() <= 40) by {
        lemma_field_sizes(1, 0, Seq::empty(), path, false, row);
        lemma_field_sizes(2, 0, Seq::empty(), path, false, col);
    }
    let info = file_info_of(b);
    assert(info.len() <= 100 + p + lb) by {
        lemma_field_sizes(1, 2, Seq::empty(), path, false, 0);
        lemma_field_sizes(2, 2, Seq::empty(), contents, false, 0);
        lemma_field_sizes(3, 2, cursor, path, false, 0);
        lemma_join_lines_bytes(lines);
    }
    let hist = history_of(b);
    assert(hist.len() <= 20 + p + ds) by {
        lemma_field_sizes(1, 2, Seq::empty(), path, false, 0);
        lemma_repeated_strings_size(2, diffs);
    }
    let intent = intent_info_spec(typing_source());
    assert(intent.len() <= 26) by {
        assert(is_ascii_chars(typing_source()));
        is_ascii_chars_encode_utf8(typing_source());
        lemma_field_sizes(1, 2, Seq::empty(), typing_source(), false, 0);
    }
    assert(sync_request_spec(b, workspace_id).len() <= 400 + 2 * p + lb + ds + w) by {
        lemma_field_sizes(1, 2, info, workspace_id, false, 0);
        lemma_field_sizes(7, 2, hist, workspace_id, false, 0);
        lemma_repeated_one(7, hist);
        lemma_field_sizes(11, 0, hist, workspace_id, false, 0);
        lemma_field_sizes(6, 0, hist, workspace_id, false, 0);
        lemma_field_sizes(16, 2, intent, workspace_id, false, 0);
        lemma_field_sizes(18, 2, hist, workspace_id, false, 0);
    }
    assert(next_cursor_request_spec(b, workspace_id).len() <= 400 + 2 * p + lb + 2 * ds + w) by {
        lemma_field_sizes(1, 2, info, workspace_id, false, 0);
        lemma_repeated_strings_size(2, diffs);
        lemma_field_sizes(7, 2, hist, workspace_id, false, 0);
        lemma_repeated_one(7, hist);
        lemma_field_sizes(11, 0, hist, workspace_id, false, 0);
        lemma_field_sizes(6, 0, hist, workspace_id, false, 0);
        lemma_field_sizes(18, 2, hist, workspace_id, false, 0);
    }
}

proof fn lemma_line_bytes_prefix(lines: Seq<Seq<char>>, i: int)
    requires
        0 <= i <= lines.len(),
    ensures
        line_bytes(lines.take(i)) <= line_bytes(lines),
    decreases lines.len(),
{
    if i < lines.len() {
        assert(lines.drop_last().take(i) == lines.take(i));
        lemma_line_bytes_prefix(lines.drop_last(), i);
    } else {
        assert(lines.take(i) == lines);
    }
}

proof fn lemma_strings_size_prefix(ds: Seq<Seq<char>>, i: int)
    requires
        0 <= i <= ds.len(),
    ensures
        strings_size(ds.take(i)) <= strings_size(ds),
    decreases ds.len(),
{
    if i < ds.len() {
        assert(ds.drop_last().take(i) == ds.take(i));
        lemma_strings_size_prefix(ds.drop_last(), i);
    } else {
        assert(ds.take(i) == ds);
    }
}

fn add_bounded(total: usize, x: usize) -> (r: Option<usize>)
    requires
        total <= isize::MAX,
    ensures
        match r {
            Some(t) => t == total + x && t <= isize::MAX,
            None => total + x > isize::MAX,
        },
{
    let limit: usize = isize::MAX as usize;
    if x > limit - total {
        None
    } else {
        Some(total + x)
    }
}

/// Whether the requests for `buffer` can be built, judged by the 1-based
/// cursor line and `request_size_bound`: where it says so, they can.
pub fn check_request_size(buffer: &BufferState, workspace_id: &str) -> (r: bool)
    ensures
        r == ((buffer.row as i32) < i32::MAX && request_size_bound(*buffer, workspace_id@)
            <= isize::MAX),
        r ==> requests_fit(*buffer, workspace_id@),
{
    let ghost lines = string_texts(buffer.lines@);
    let ghost diffs = string_texts(buffer.diff_history@);
    let row: i32 = #[verifier::truncate] (buffer.row as i32);
    if row == i32::MAX {
        return false;
    }
    let p = buffer.path.as_str().as_bytes().len();
    let w = workspace_id.as_bytes().len();
    let ghost pw = 400 + 2 * p + w;
    let mut total: usize = 400;
    total = match add_bounded(total, p) {
        Some(t) => t,
        None => return false,
    };
    total = match add_bounded(total, p) {
        Some(t) => t,
        None => return false,
    };
    total = match add_bounded(total, w) {
        Some(t) => t,
        None => return false,
    };
    proof {
        assert(lines.take(0) == Seq::<Seq<char>>::empty());
    }
    let mut i: usize = 0;
    while i < buffer.lines.len()
        invariant
            i <= buffer.lines@.len(),
            lines == string_texts(buffer.lines@),
            lines.len() == buffer.lines@.len(),
            pw == 400 + 2 * encode_utf8(buffer.path@).len() + encode_utf8(workspace_id@).len(),
            total == pw + line_bytes(lines.take(i as int)),
            total <= isize::MAX,
        decreases buffer.lines@.len() - i,
    {
        let n = buffer.lines[i].as_str().as_bytes().len();
        proof {
            assert(lines.take(i + 1).drop_last() == lines.take(i as int));
            assert(lines.take(i + 1).last() == buffer.lines@[i as int]@);
            lemma_line_bytes_prefix(lines, i + 1);
        }
        total = match add_bounded(total, n) {
            Some(t) => t,
            None => return false,
        };
        total = match add_bounded(total, 1) {
            Some(t) => t,
            None => return false,
        };
        i = i + 1;
    }
    proof {
        assert(lines.take(lines.len() as int) == lines);
        assert(diffs.take(0) == Seq::<Seq<char>>::empty());
    }
    let ghost base = total;
    let mut k: usize = 0;
    while k < buffer.diff_history.len()
        invariant
            k <= buffer.diff_history@.len(),
            diffs == string_texts(buffer.diff_history@),
            diffs.len() == buffer.diff_history@.len(),
            base == pw + line_bytes(lines),
            lines == string_texts(buffer.lines@),
            pw == 400 + 2 * encode_utf8(buffer.path@).len() + encode_utf8(workspace_id@).len(),
            total == base + 2 * strings_size(diffs.take(k as int)),
            total <= isize::MAX,
        decreases buffer.diff_history@.len() - k,
    {
        let n = buffer.diff_history[k].as_str().as_bytes().len();
        proof {
            assert(diffs.take(k + 1).drop_last() == diffs.take(k as int));
            assert(diffs.take(k + 1).last() == buffer.diff_history@[k as int]@);
            lemma_strings_size_prefix(diffs, k + 1);
        }
        total = match add_bounded(total, n) {
            Some(t) => t,
            None => return false,
        };
        total = match add_bounded(total, n) {
            Some(t) => t,
            None => return false,
        };
        total = match add_bounded(total, 40) {
            Some(t) => t,
            None => return false,
        };
        k = k + 1;
    }
    proof {
        assert(diffs.take(diffs.len() as int) == diffs);
        lemma_requests_fit(*buffer, workspace_id@);
    }
    true
}

fn file_messages(buffer: &BufferState) -> (r: (Vec<u8>, Vec<u8>))
    requires
        (buffer.row as i32) < i32::MAX,
        file_info_of(*buffer).len() <= isize::MAX,
        history_of(*buffer).len() <= isize::MAX,
    ensures
        r.0@ == file_info_of(*buffer),
        r.1@ == history_of(*buffer),
{
    let contents = buffer.contents();
    let row: i32 = #[verifier::truncate] (buffer.row as i32);
    let col: i32 = #[verifier::truncate] (buffer.col as i32);
    let version: i32 = #[verifier::truncate] (buffer.version as i32);
    let file_info = encode_current_file_info(
        buffer.path.as_str(),
        contents.as_str(),
        row + 1,
        col,
        version,
    );
    let diff_hist = encode_cpp_file_diff_history(
        buffer.path.as_str(),
        buffer.diff_history.as_slice(),
    );
    (file_info, diff_hist)
}

/// The completion request made on an edit of `buffer`.
pub fn build_sync_request(buffer: &BufferState, workspace_id: &str) -> (out: Vec<u8>)
    requires
        requests_fit(*buffer, workspace_id@),
    ensures
        out@ == sync_request_spec(*buffer, workspace_id@),
{
    let (file_info, diff_hist) = file_messages(buffer);
    let histories = vec![diff_hist];
    proof {
        reveal_strlit("typing");
        assert("typing"@ =~= typing_source());
        assert(byte_seqs(histories@) =~= seq![history_of(*buffer)]);
    }
    encode_stream_cpp_request(file_info.as_slice(), histories.as_slice(), workspace_id, "typing")
}

/// The next-cursor request made once a suggestion is accepted.
pub fn build_next_cursor_request(buffer: &BufferState, workspace_id: &str) -> (out: Vec<u8>)
    requires
        requests_fit(*buffer, workspace_id@),
    ensures
        out@ == next_cursor_request_spec(*buffer, workspace_id@),
{
    let (file_info, diff_hist) = file_messages(buffer);
    let histories = vec![diff_hist];
    proof {
        assert(byte_seqs(histories@) =~= seq![history_of(*buffer)]);
    }
    encode_stream_next_cursor_request(
        file_info.as_slice(),
        buffer.diff_history.as_slice(),
        histories.as_slice(),
        workspace_id,
    )
}

/// The messages of a completion stream, as values.
pub open spec fn cpp_views(msgs: Seq<StreamCppResponse>) -> Seq<CppResponseView> {
    msgs.map_values(|m: StreamCppResponse| m@)
}

/// The 0-based start line of the last message that gives one.
pub open spec fn last_start(msgs: Seq<CppResponseView>) -> Option<i64>
    decreases msgs.len(),
{
    if msgs.len() == 0 {
        None
    } else {
        match msgs.last().start_line {
            Some(s) => Some((s - 1) as i64),
            None => last_start(msgs.drop_last()),
        }
    }
}

/// The 0-based inclusive end line of the last message that gives one.
pub open spec fn last_end(msgs: Seq<CppResponseView>) -> Option<i64>
    decreases msgs.len(),
{
    if msgs.len() == 0 {
        None
    } else {
        match msgs.last().end_line_inclusive {
            Some(e) => Some((e - 1) as i64),
            None => last_end(msgs.drop_last()),
        }
    }
}

/// The texts of all messages, one after the other.
pub open spec fn all_text(msgs: Seq<CppResponseView>) -> Seq<char>
    decreases msgs.len(),
{
    if msgs.len() == 0 {
        Seq::empty()
    } else {
        all_text(msgs.drop_last()) + msgs.last().text
    }
}

/// The suggestion that a completion stream makes: the lines `start..=end`
/// (0-based; `end` is `start` where no message gives one) are to be
/// replaced by the lines of all the text. There is none where no message
/// gives a start line, or where the text has no line.
pub open spec fn suggestion_spec(msgs: Seq<CppResponseView>) -> Option<(i64, i64, Seq<Seq<char>>)> {
    match last_start(msgs) {
        None => None,
        Some(start) => {
            let end = match last_end(msgs) {
                Some(e) => e,
                None => start,
            };
            let lines = lines_of(all_text(msgs));
            if lines.len() == 0 {
                None
            } else {
                Some((start, end, lines))
            }
        },
    }
}

/// The start line of a stream is that of the last message that gives one,
/// less one.
pub proof fn lemma_last_start_at(msgs: Seq<CppResponseView>, j: int, start: i32)
    requires
        0 <= j < msgs.len(),
        msgs[j].start_line == Some(start),
        forall|k: int| j < k < msgs.len() ==> (#[trigger] msgs[k]).start_line is None,
    ensures
        last_start(msgs) == Some((start - 1) as i64),
    decreases msgs.len(),
{
    if j < msgs.len() - 1 {
        assert(msgs.last() == msgs[msgs.len() - 1]);
        assert(msgs.drop_last()[j] == msgs[j]);
        assert forall|k: int| j < k < msgs.drop_last().len() implies (
        #[trigger] msgs.drop_last()[k]).start_line is None by {
            assert(msgs.drop_last()[k] == msgs[k]);
        }
        lemma_last_start_at(msgs.drop_last(), j, start);
    }
}

/// A stream where no message gives a start line has none.
pub proof fn lemma_last_start_none(msgs: Seq<CppResponseView>)
    requires
        forall|k: int| 0 <= k < msgs.len() ==> (#[trigger] msgs[k]).start_line is None,
    ensures
        last_start(msgs) is None,
    decreases msgs.len(),
{
    if msgs.len() > 0 {
        assert(msgs.last() == msgs[msgs.len() - 1]);
        assert forall|k: int| 0 <= k < msgs.drop_last().len() implies (
        #[trigger] msgs.drop_last()[k]).start_line is None by {
            assert(msgs.drop_last()[k] == msgs[k]);
        }
        lemma_last_start_none(msgs.drop_last());
    }
}

/// The end line of a stream is that of the last message that gives one,
/// less one.
pub proof fn lemma_last_end_at(msgs: Seq<CppResponseView>, j: int, end: i32)
    requires
        0 <= j < msgs.len(),
        msgs[j].end_line_inclusive == Some(end),
        forall|k: int| j < k < msgs.len() ==> (#[trigger] msgs[k]).end_line_inclusive is None,
    ensures
        last_end(msgs) == Some((end - 1) as i64),
    decreases msgs.len(),
{
    if j < msgs.len() - 1 {
        assert(msgs.last() == msgs[msgs.len() - 1]);
        assert(msgs.drop_last()[j] == msgs[j]);
        assert forall|k: int| j < k < msgs.drop_last().len() implies (
        #[trigger] msgs.drop_last()[k]).end_line_inclusive is None by {
            assert(msgs.drop_last()[k] == msgs[k]);
        }
        lemma_last_end_at(msgs.drop_last(), j, end);
    }
}

/// A stream where no message gives an end line has none.
pub proof fn lemma_last_end_none(msgs: Seq<CppResponseView>)
    requires
        forall|k: int| 0 <= k < msgs.len() ==> (#[trigger] msgs[k]).end_line_inclusive is None,
    ensures
        last_end(msgs) is None,
    decreases msgs.len(),
{
    if msgs.len() > 0 {
        assert(msgs.last() == msgs[msgs.len() - 1]);
        assert forall|k: int| 0 <= k < msgs.drop_last().len() implies (
        #[trigger] msgs.drop_last()[k]).end_line_inclusive is None by {
            assert(msgs.drop_last()[k] == msgs[k]);
        }
        lemma_last_end_none(msgs.drop_last());
    }
}

/// The text of a stream is the texts of its parts one after the other.
pub proof fn lemma_all_text_concat(a: Seq<CppResponseView>, b: Seq<CppResponseView>)
    ensures
        all_text(a + b) == all_text(a) + all_text(b),
    decreases b.len(),
{
    if b.len() == 0 {
        assert(a + b == a);
        assert(all_text(a) + Seq::<char>::empty() == all_text(a));
    } else {
        assert((a + b).drop_last() == a + b.drop_last());
        assert((a + b).last() == b.last());
        lemma_all_text_concat(a, b.drop_last());
        assert(all_text(a) + all_text(b.drop_last()) + b.last().text == all_text(a) + (all_text(
            b.drop_last(),
        ) + b.last().text));
    }
}

/// Where the last message of a stream gives both a start line `s` and an
/// end line `e`, and the text has a line, the suggestion replaces lines
/// `s - 1` to `e - 1` by the lines of the text.
pub proof fn lemma_suggestion_of_last_message(msgs: Seq<CppResponseView>, s: i32, e: i32)
    requires
        msgs.len() > 0,
        msgs.last().start_line == Some(s),
        msgs.last().end_line_inclusive == Some(e),
        lines_of(all_text(msgs)).len() > 0,
    ensures
        suggestion_spec(msgs) == Some(((s - 1) as i64, (e - 1) as i64, lines_of(all_text(msgs)))),
{
    lemma_last_start_at(msgs, msgs.len() - 1, s);
    lemma_last_end_at(msgs, msgs.len() - 1, e);
}

/// Where no message gives an end line, the suggestion ends where it starts.
pub proof fn lemma_suggestion_end_defaults_to_start(msgs: Seq<CppResponseView>)
    requires
        forall|k: int| 0 <= k < msgs.len() ==> (#[trigger] msgs[k]).end_line_inclusive is None,
        suggestion_spec(msgs) is Some,
    ensures
        match suggestion_spec(msgs) {
            Some((start, end, _)) => start == end,
            None => false,
        },
{
    lemma_last_end_none(msgs);
}

/// Where no message gives a start line, there is no suggestion.
pub proof fn lemma_no_start_no_suggestion(msgs: Seq<CppResponseView>)
    requires
        forall|k: int| 0 <= k < msgs.len() ==> (#[trigger] msgs[k]).start_line is None,
    ensures
        suggestion_spec(msgs) is None,
{
    lemma_last_start_none(msgs);
}

/// The suggestion of a completion stream (see `suggestion_spec`).
pub fn accumulate_suggestion(msgs: &[StreamCppResponse]) -> (r: Option<(i64, i64, Vec<String>)>)
    ensures
        match (r, suggestion_spec(cpp_views(msgs@))) {
            (Some((s, e, l)), Some((s2, e2, l2))) => s == s2 && e == e2 && string_texts(l@) == l2,
            (None, None) => true,
            _ => false,
        },
{
    let ghost views = cpp_views(msgs@);
    let mut start_line: Option<i64> = None;
    let mut end_line: Option<i64> = None;
    let mut text = String::new();
    let mut i: usize = 0;
    proof {
        assert(views.take(0) == Seq::<CppResponseView>::empty());
    }
    while i < msgs.len()
        invariant
            i <= msgs@.len(),
            views == cpp_views(msgs@),
            views.len() == msgs@.len(),
            start_line == last_start(views.take(i as int)),
            end_line == last_end(views.take(i as int)),
            text@ == all_text(views.take(i as int)),
        decreases msgs@.len() - i,
    {
        let msg = &msgs[i];
        proof {
            assert(views.take(i + 1).drop_last() == views.take(i as int));
            assert(views.take(i + 1).last() == msg@);
        }
        if let Some(s) = msg.start_line {
            start_line = Some(s as i64 - 1);
        }
        if let Some(e) = msg.end_line_inclusive {
            end_line = Some(e as i64 - 1);
        }
        text.append(msg.text.as_str());
        i = i + 1;
    }
    proof {
        assert(views.take(msgs@.len() as int) == views);
    }
    let start = match start_line {
        Some(s) => s,
        None => {
            return None;
        },
    };
    let end = match end_line {
        Some(e) => e,
        None => start,
    };
    let replacement = split_lines(text.as_str());
    if replacement.len() == 0 {
        return None;
    }
    Some((start, end, replacement))
}

/// Where the first changed line of a suggestion differs from the buffer:
/// going through the suggested lines, from buffer line `base` on, the first
/// that differs from the buffer's line and does not merely end early gives
/// its buffer line, the number of characters at the front that both have,
/// and the characters of the suggested line after them. There is none
/// once the suggestion runs past the end of the buffer.
pub open spec fn ghost_hint_from(
    lines: Seq<Seq<char>>,
    base: int,
    repl: Seq<Seq<char>>,
    i: int,
) -> Option<(i64, i64, Seq<char>)>
    decreases repl.len() - i,
{
    if i < 0 || i >= repl.len() {
        None
    } else if base + i >= lines.len() {
        None
    } else {
        let existing = lines[base + i];
        let new_line = repl[i];
        let p = common_prefix_len(existing, new_line);
        if new_line == existing || new_line.skip(p as int).len() == 0 {
            ghost_hint_from(lines, base, repl, i + 1)
        } else {
            Some(((base + i) as i64, p as i64, new_line.skip(p as int)))
        }
    }
}

/// A suggested line that is the same as its buffer line gets no inline
/// text: the search goes on with the next line.
pub proof fn lemma_ghost_hint_skips_unchanged(
    lines: Seq<Seq<char>>,
    base: int,
    repl: Seq<Seq<char>>,
    i: int,
)
    requires
        0 <= i < repl.len(),
        base + i < lines.len(),
        repl[i] == lines[base + i],
    ensures
        ghost_hint_from(lines, base, repl, i) == ghost_hint_from(lines, base, repl, i + 1),
{
}

/// A suggested line that only cuts its buffer line short gets no inline
/// text: the search goes on with the next line.
pub proof fn lemma_ghost_hint_skips_shortened(
    lines: Seq<Seq<char>>,
    base: int,
    repl: Seq<Seq<char>>,
    i: int,
    k: int,
)
    requires
        0 <= i < repl.len(),
        0 <= base + i < lines.len(),
        0 <= k < lines[base + i].len(),
        repl[i] == lines[base + i].take(k),
    ensures
        ghost_hint_from(lines, base, repl, i) == ghost_hint_from(lines, base, repl, i + 1),
{
    lemma_common_prefix_of_prefix(lines[base + i], k);
    assert(repl[i].skip(k).len() == 0);
}

/// A suggested line that goes on after what it shares with its buffer line
/// gets the rest of it as inline text, at that line and after the shared
/// characters.
pub proof fn lemma_ghost_hint_extends(
    lines: Seq<Seq<char>>,
    base: int,
    repl: Seq<Seq<char>>,
    i: int,
    extra: Seq<char>,
)
    requires
        0 <= i < repl.len(),
        0 <= base + i < lines.len(),
        extra.len() > 0,
        repl[i] == lines[base + i] + extra,
    ensures
        ghost_hint_from(lines, base, repl, i) == Some(
            ((base + i) as i64, lines[base + i].len() as i64, extra),
        ),
{
    let existing = lines[base + i];
    let new_line = repl[i];
    assert(new_line.take(existing.len() as int) == existing);
    lemma_common_prefix_of_prefix(new_line, existing.len() as int);
    lemma_common_prefix_symmetric(existing, new_line);
    assert(new_line.skip(existing.len() as int) == extra);
    assert(new_line.len() != existing.len());
}

/// Leaving out the first suggested line and starting one buffer line later
/// changes nothing about the later lines' hint.
pub proof fn lemma_ghost_hint_shift(lines: Seq<Seq<char>>, base: int, repl: Seq<Seq<char>>, i: int)
    requires
        0 <= i,
        repl.len() > 0,
    ensures
        ghost_hint_from(lines, base, repl, i + 1) == ghost_hint_from(
            lines,
            base + 1,
            repl.drop_first(),
            i,
        ),
    decreases repl.len() - i,
{
    if i + 1 < repl.len() {
        assert(repl.drop_first()[i] == repl[i + 1]);
        assert(base + (i + 1) == (base + 1) + i);
        lemma_ghost_hint_shift(lines, base, repl, i + 1);
    }
}

/// The inline text to show for a suggestion whose first line replaces
/// buffer line `start` (read as unsigned): its line, its column in
/// characters, and the text (see `ghost_hint_from`).
pub fn first_ghost_hint(lines: &[String], start: i64, replacement: &[String]) -> (r: Option<
    (i64, i64, String),
>)
    ensures
        match (
            r,
            ghost_hint_from(
                string_texts(lines@),
                start as usize as int,
                string_texts(replacement@),
                0,
            ),
        ) {
            (Some((l, c, g)), Some((l2, c2, g2))) => l == l2 && c == c2 && g@ == g2,
            (None, None) => true,
            _ => false,
        },
{
    let ghost ls = string_texts(lines@);
    let ghost rs = string_texts(replacement@);
    let base: usize = #[verifier::truncate] (start as usize);
    let mut i: usize = 0;
    while i < replacement.len()
        invariant
            i <= replacement@.len(),
            ls == string_texts(lines@),
            rs == string_texts(replacement@),
            base == start as usize,
            i == 0 || base + i <= lines@.len(),
            ghost_hint_from(ls, base as int, rs, 0) == ghost_hint_from(ls, base as int, rs, i as int),
        decreases replacement@.len() - i,
    {
        if base >= lines.len() || i >= lines.len() - base {
            return None;
        }
        let buf_line = base + i;
        let existing = &lines[buf_line];
        let new_line = &replacement[i];
        proof {
            assert(ls[buf_line as int] == existing@);
            assert(rs[i as int] == new_line@);
        }
        if same_text(new_line.as_str(), existing.as_str()) {
            i = i + 1;
            continue;
        }
        let prefix_len = common_prefix_count(existing.as_str(), new_line.as_str());
        proof {
            lemma_common_prefix_len_bound(existing@, new_line@);
        }
        let n = new_line.as_str().unicode_len();
        if prefix_len >= n {
            proof {
                assert(new_line@.skip(prefix_len as int).len() == 0);
            }
            i = i + 1;
            continue;
        }
        let ghost_text = String::from_str(new_line.as_str().substring_char(prefix_len, n));
        proof {
            assert(new_line@.subrange(prefix_len as int, n as int) == new_line@.skip(
                prefix_len as int,
            ));
        }
        return Some((
            #[verifier::truncate] (buf_line as i64),
            #[verifier::truncate] (prefix_len as i64),
            ghost_text,
        ));
    }
    None
}

/// Where the cursor goes once a suggestion is accepted, as the editor takes
/// it (1-based line, 0-based byte column): the end of the last new line,
/// `start` being the first line replaced (0-based).
pub fn cursor_after_accept(start: i64, replacement: &[String]) -> (r: (i64, i64))
    requires
        replacement@.len() <= i64::MAX,
        i64::MIN <= start + replacement@.len() - 1,
        start + replacement@.len() <= i64::MAX,
    ensures
        r.0 == start + replacement@.len(),
        replacement@.len() == 0 ==> r.1 == 0,
        replacement@.len() > 0 ==> r.1 == (encode_utf8(replacement@.last()@).len() as usize) as i64,
{
    let n = replacement.len() as i64;
    let last_line = start + n - 1;
    let last_col = if replacement.len() > 0 {
        #[verifier::truncate] (replacement[replacement.len() - 1].as_str().len() as i64)
    } else {
        0
    };
    (last_line + 1, last_col)
}

/// The 0-based line where the next edit is predicted, from the messages of
/// a next-cursor stream: the last non-zero line number, less one; none once
/// a message says the prediction is out of range.
pub open spec fn predicted_line_from(msgs: Seq<(i32, bool)>, acc: Option<i64>) -> Option<i64>
    decreases msgs.len(),
{
    if msgs.len() == 0 {
        acc
    } else if msgs[0].1 {
        None
    } else {
        predicted_line_from(
            msgs.drop_first(),
            if msgs[0].0 != 0 { Some((msgs[0].0 - 1) as i64) } else { acc },
        )
    }
}

/// Whether no message of a next-cursor stream says the prediction is out of
/// range.
pub open spec fn all_in_range(msgs: Seq<(i32, bool)>) -> bool {
    forall|k: int| 0 <= k < msgs.len() ==> !(#[trigger] msgs[k]).1
}

proof fn lemma_prediction_zeros_keep(msgs: Seq<(i32, bool)>, acc: Option<i64>)
    requires
        all_in_range(msgs),
        forall|k: int| 0 <= k < msgs.len() ==> (#[trigger] msgs[k]).0 == 0,
    ensures
        predicted_line_from(msgs, acc) == acc,
    decreases msgs.len(),
{
    if msgs.len() > 0 {
        assert(!msgs[0].1 && msgs[0].0 == 0);
        assert forall|k: int| 0 <= k < msgs.drop_first().len() implies !(
        #[trigger] msgs.drop_first()[k]).1 && msgs.drop_first()[k].0 == 0 by {
            assert(msgs.drop_first()[k] == msgs[k + 1]);
        }
        lemma_prediction_zeros_keep(msgs.drop_first(), acc);
    }
}

proof fn lemma_prediction_last_from(msgs: Seq<(i32, bool)>, acc: Option<i64>, j: int)
    requires
        all_in_range(msgs),
        0 <= j < msgs.len(),
        msgs[j].0 != 0,
        forall|k: int| j < k < msgs.len() ==> (#[trigger] msgs[k]).0 == 0,
    ensures
        predicted_line_from(msgs, acc) == Some((msgs[j].0 - 1) as i64),
    decreases msgs.len(),
{
    let rest = msgs.drop_first();
    assert(!msgs[0].1);
    assert forall|k: int| 0 <= k < rest.len() implies !(#[trigger] rest[k]).1 by {
        assert(rest[k] == msgs[k + 1]);
    }
    if j == 0 {
        assert forall|k: int| 0 <= k < rest.len() implies (#[trigger] rest[k]).0 == 0 by {
            assert(rest[k] == msgs[k + 1]);
        }
        lemma_prediction_zeros_keep(rest, Some((msgs[0].0 - 1) as i64));
    } else {
        let acc2 = if msgs[0].0 != 0 { Some((msgs[0].0 - 1) as i64) } else { acc };
        assert(rest[j - 1] == msgs[j]);
        assert forall|k: int| j - 1 < k < rest.len() implies (#[trigger] rest[k]).0 == 0 by {
            assert(rest[k] == msgs[k + 1]);
        }
        lemma_prediction_last_from(rest, acc2, j - 1);
    }
}

/// Where no message is out of range, the predicted line is the last
/// non-zero line number, less one.
pub proof fn lemma_prediction_is_last_line(msgs: Seq<(i32, bool)>, j: int)
    requires
        all_in_range(msgs),
        0 <= j < msgs.len(),
        msgs[j].0 != 0,
        forall|k: int| j < k < msgs.len() ==> (#[trigger] msgs[k]).0 == 0,
    ensures
        predicted_line_from(msgs, None) == Some((msgs[j].0 - 1) as i64),
{
    lemma_prediction_last_from(msgs, None, j);
}

/// Where no message is out of range and none gives a line, no line is
/// predicted.
pub proof fn lemma_prediction_without_line(msgs: Seq<(i32, bool)>)
    requires
        all_in_range(msgs),
        forall|k: int| 0 <= k < msgs.len() ==> (#[trigger] msgs[k]).0 == 0,
    ensures
        predicted_line_from(msgs, None) is None,
{
    lemma_prediction_zeros_keep(msgs, None);
}

proof fn lemma_prediction_out_of_range_from(msgs: Seq<(i32, bool)>, acc: Option<i64>, j: int)
    requires
        0 <= j < msgs.len(),
        msgs[j].1,
    ensures
        predicted_line_from(msgs, acc) is None,
    decreases msgs.len(),
{
    if !msgs[0].1 {
        let acc2 = if msgs[0].0 != 0 { Some((msgs[0].0 - 1) as i64) } else { acc };
        assert(msgs.drop_first()[j - 1] == msgs[j]);
        lemma_prediction_out_of_range_from(msgs.drop_first(), acc2, j - 1);
    }
}

/// Where some message says the prediction is out of range, no line is
/// predicted, whatever the others say.
pub proof fn lemma_prediction_out_of_range(msgs: Seq<(i32, bool)>, j: int)
    requires
        0 <= j < msgs.len(),
        msgs[j].1,
    ensures
        predicted_line_from(msgs, None) is None,
{
    lemma_prediction_out_of_range_from(msgs, None, j);
}

/// The messages of a next-cursor stream, as values.
pub open spec fn next_cursor_views(msgs: Seq<StreamNextCursorResponse>) -> Seq<(i32, bool)> {
    msgs.map_values(|m: StreamNextCursorResponse| (m.line_number, m.is_not_in_range))
}

/// The line where the next edit is predicted (see `predicted_line_from`).
pub fn predict_next_line(msgs: &[StreamNextCursorResponse]) -> (r: Option<i64>)
    ensures
        r == predicted_line_from(next_cursor_views(msgs@), None),
{
    let ghost views = next_cursor_views(msgs@);
    let mut predicted: Option<i64> = None;
    let mut i: usize = 0;
    proof {
        assert(views.skip(0) == views);
    }
    while i < msgs.len()
        invariant
            i <= msgs@.len(),
            views == next_cursor_views(msgs@),
            views.len() == msgs@.len(),
            predicted_line_from(views, None) == predicted_line_from(views.skip(i as int), predicted),
        decreases msgs@.len() - i,
    {
        let msg = &msgs[i];
        proof {
            assert(views.skip(i as int)[0] == (msg.line_number, msg.is_not_in_range));
            assert(views.skip(i as int).drop_first() == views.skip(i + 1));
        }
        if msg.is_not_in_range {
            return None;
        }
        if msg.line_number != 0 {
            predicted = Some(msg.line_number as i64 - 1);
        }
        i = i + 1;
    }
    predicted
}

/// The requests that the plugin answers.
#[derive(Debug, Clone, Copy, PartialEq, Eq)]
pub enum RequestKind {
    /// The buffer changed: ask for a completion.
    Sync,
    /// The accept key was pressed.
    TabKey,
}

/// Which request a method name asks for: `cursortab_sync` or
/// `cursortab_tab_key`; none for any other name.
pub fn classify_request(name: &str) -> (r: Option<RequestKind>)
    ensures
        r == Some(RequestKind::Sync) <==> name@ == "cursortab_sync"@,
        r == Some(RequestKind::TabKey) <==> name@ == "cursortab_tab_key"@,
        r is None <==> name@ != "cursortab_sync"@ && name@ != "cursortab_tab_key"@,
{
    proof {
        reveal_strlit("cursortab_sync");
        reveal_strlit("cursortab_tab_key");
        assert("cursortab_sync"@.len() != "cursortab_tab_key"@.len());
    }
    if same_text(name, "cursortab_sync") {
        Some(RequestKind::Sync)
    } else if same_text(name, "cursortab_tab_key") {
        Some(RequestKind::TabKey)
    } else {
        None
    }
}

} // verus!
