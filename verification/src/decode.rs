//! Decoding the two streamed responses of the completion service.

use vstd::prelude::*;
use vstd::utf8::{
    valid_utf8, decode_utf8, encode_utf8, is_ascii_chars, is_ascii_chars_encode_utf8,
    encode_utf8_valid_utf8, encode_utf8_decode_utf8,
};
use crate::varint::{
    read_varint, read_varint_spec, varint_bytes, lemma_varint_roundtrip, lemma_varint_len,
};
use crate::encode::{i32_field, key_bytes, tag_spec, bytes_field, bool_field};
use crate::wire::{
    read_length_delimited, read_length_delimited_spec, skip_field, skip_field_spec,
    lemma_reads_in_bounds,
};

verus! {

/// The text that `String::from_utf8_lossy` makes of `bytes`.
pub uninterp spec fn utf8_lossy(bytes: Seq<u8>) -> Seq<char>;

/// The text of a payload: the text that valid UTF-8 encodes; otherwise
/// what `String::from_utf8_lossy` makes of it.
pub open spec fn payload_text(bytes: Seq<u8>) -> Seq<char> {
    if valid_utf8(bytes) {
        decode_utf8(bytes)
    } else {
        utf8_lossy(bytes)
    }
}

/// A payload of ASCII bytes reads as the characters of those bytes.
pub proof fn lemma_ascii_payload(bytes: Seq<u8>)
    requires
        forall|i: int| 0 <= i < bytes.len() ==> #[trigger] bytes[i] < 0x80,
    ensures
        payload_text(bytes) == bytes.map_values(|b: u8| b as char),
{
    let chars = bytes.map_values(|b: u8| b as char);
    assert(is_ascii_chars(chars));
    is_ascii_chars_encode_utf8(chars);
    assert(encode_utf8(chars) =~= bytes);
    encode_utf8_valid_utf8(chars);
    encode_utf8_decode_utf8(chars);
}

/// `String::from_utf8_lossy`, made an owned `String`. Its result is named by
/// `utf8_lossy`; the one fact stated of it is the documented one that valid
/// UTF-8 comes back as the text it encodes. What replaces invalid
/// sequences is left unsaid.
#[verifier::external_body]
fn text_from_utf8_lossy(bytes: &[u8]) -> (s: String)
    ensures
        s@ == utf8_lossy(bytes@),
        valid_utf8(bytes@) ==> s@ == decode_utf8(bytes@),
{
    String::from_utf8_lossy(bytes).into_owned()
}

/// One message of the completion stream: a piece of suggested text, the
/// line where the suggestion starts, whether the stream is done, and the
/// range of lines that the suggestion replaces.
#[derive(Debug)]
pub struct StreamCppResponse {
    pub text: String,
    pub suggestion_start_line: Option<i32>,
    pub done_stream: Option<bool>,
    pub start_line: Option<i32>,
    pub end_line_inclusive: Option<i32>,
}

/// What a completion message says, as plain values.
pub struct CppResponseView {
    pub text: Seq<char>,
    pub suggestion_start_line: Option<i32>,
    pub done_stream: Option<bool>,
    pub start_line: Option<i32>,
    pub end_line_inclusive: Option<i32>,
}

impl View for StreamCppResponse {
    type V = CppResponseView;

    open spec fn view(&self) -> CppResponseView {
        CppResponseView {
            text: self.text@,
            suggestion_start_line: self.suggestion_start_line,
            done_stream: self.done_stream,
            start_line: self.start_line,
            end_line_inclusive: self.end_line_inclusive,
        }
    }
}

/// The message with no field set.
pub open spec fn empty_cpp_view() -> CppResponseView {
    CppResponseView {
        text: Seq::empty(),
        suggestion_start_line: None,
        done_stream: None,
        start_line: None,
        end_line_inclusive: None,
    }
}

impl Default for StreamCppResponse {
    fn default() -> (r: Self)
        ensures
            r@ == empty_cpp_view(),
    {
        StreamCppResponse {
            text: String::new(),
            suggestion_start_line: None,
            done_stream: None,
            start_line: None,
            end_line_inclusive: None,
        }
    }
}

/// A varint read as a line number: its low 32 bits, taken as signed.
pub open spec fn line_of(v: Option<u64>) -> Option<i32> {
    match v {
        Some(x) => Some(x as i32),
        None => None,
    }
}

/// The fields of a line range (start = 1, inclusive end = 2, both varints)
/// in `s`, written over `r`. A field whose varint is cut short leaves its
/// line unset; other fields are passed over; the reading stops at a tag
/// that cannot be read.
pub open spec fn line_range_fields(s: Seq<u8>, r: CppResponseView) -> CppResponseView
    decreases s.len(),
{
    if s.len() == 0 {
        r
    } else {
        let (tag, n) = read_varint_spec(s);
        match tag {
            None => r,
            Some(t) => {
                let rest = s.skip(n as int);
                let (v, m) = read_varint_spec(rest);
                let (_, k) = skip_field_spec(rest, t & 7);
                proof {
                    lemma_reads_in_bounds(s, 0);
                    lemma_reads_in_bounds(rest, t & 7);
                }
                if t >> 3 == 1 && t & 7 == 0 {
                    line_range_fields(
                        rest.skip(m as int),
                        CppResponseView { start_line: line_of(v), ..r },
                    )
                } else if t >> 3 == 2 && t & 7 == 0 {
                    line_range_fields(
                        rest.skip(m as int),
                        CppResponseView { end_line_inclusive: line_of(v), ..r },
                    )
                } else {
                    line_range_fields(rest.skip(k as int), r)
                }
            },
        }
    }
}

/// The fields of a completion message in `s`, written over `r`: text (1,
/// length-delimited, read by `payload_text`), suggestion start line (2, varint), done flag (4,
/// varint) and line range (11, a nested message). A later field overrides
/// an earlier one; a field whose value is cut short changes nothing; other
/// fields are passed over; the reading stops at a tag that cannot be read.
/// The field number is the tag's value above its three low bits, cut to 32
/// bits.
pub open spec fn cpp_fields(s: Seq<u8>, r: CppResponseView) -> CppResponseView
    decreases s.len(),
{
    if s.len() == 0 {
        r
    } else {
        let (tag, n) = read_varint_spec(s);
        match tag {
            None => r,
            Some(t) => {
                let rest = s.skip(n as int);
                let field = (t >> 3) as u32;
                let wire = t & 7;
                let (v, m) = read_varint_spec(rest);
                let (d, l) = read_length_delimited_spec(rest);
                let (_, k) = skip_field_spec(rest, wire);
                proof {
                    lemma_reads_in_bounds(s, 0);
                    lemma_reads_in_bounds(rest, wire);
                }
                if field == 1 && wire == 2 {
                    cpp_fields(
                        rest.skip(l as int),
                        match d {
                            Some(b) => CppResponseView { text: payload_text(b), ..r },
                            None => r,
                        },
                    )
                } else if field == 2 && wire == 0 {
                    cpp_fields(
                        rest.skip(m as int),
                        match v {
                            Some(x) => CppResponseView { suggestion_start_line: Some(x as i32), ..r },
                            None => r,
                        },
                    )
                } else if field == 4 && wire == 0 {
                    cpp_fields(
                        rest.skip(m as int),
                        match v {
                            Some(x) => CppResponseView { done_stream: Some(x != 0), ..r },
                            None => r,
                        },
                    )
                } else if field == 11 && wire == 2 {
                    cpp_fields(
                        rest.skip(l as int),
                        match d {
                            Some(inner) => line_range_fields(inner, r),
                            None => r,
                        },
                    )
                } else {
                    cpp_fields(rest.skip(k as int), r)
                }
            },
        }
    }
}

/// The completion message that `data` encodes.
pub open spec fn decode_cpp_spec(data: Seq<u8>) -> CppResponseView {
    cpp_fields(data, empty_cpp_view())
}

fn decode_line_range(inner: &[u8], resp: &mut StreamCppResponse)
    ensures
        final(resp)@ == line_range_fields(inner@, old(resp)@),
{
    let mut pos: usize = 0;
    proof {
        assert(inner@.skip(0) == inner@);
    }
    loop
        invariant
            pos <= inner@.len(),
            line_range_fields(inner@, old(resp)@) == line_range_fields(
                inner@.skip(pos as int),
                resp@,
            ),
        decreases inner@.len() - pos,
    {
        if pos >= inner.len() {
            proof {
                assert(inner@.skip(pos as int).len() == 0);
            }
            return;
        }
        let (itag, p) = read_varint(inner, pos);
        let ghost s = inner@.skip(pos as int);
        proof {
            lemma_reads_in_bounds(s, 0);
            assert(s.skip(p - pos) == inner@.skip(p as int));
        }
        let itag = match itag {
            Some(v) => v,
            None => {
                return;
            },
        };
        proof {
            lemma_reads_in_bounds(inner@.skip(p as int), itag & 7);
        }
        match (itag >> 3, itag & 0x7) {
            (1, 0) => {
                let (v, q) = read_varint(inner, p);
                resp.start_line = match v {
                    Some(v) => Some(#[verifier::truncate] (v as i32)),
                    None => None,
                };
                proof {
                    assert(inner@.skip(p as int).skip(q - p) == inner@.skip(q as int));
                }
                pos = q;
            },
            (2, 0) => {
                let (v, q) = read_varint(inner, p);
                resp.end_line_inclusive = match v {
                    Some(v) => Some(#[verifier::truncate] (v as i32)),
                    None => None,
                };
                proof {
                    assert(inner@.skip(p as int).skip(q - p) == inner@.skip(q as int));
                }
                pos = q;
            },
            (_, w) => {
                let (_, q) = skip_field(inner, p, w);
                proof {
                    assert(inner@.skip(p as int).skip(q - p) == inner@.skip(q as int));
                }
                pos = q;
            },
        }
    }
}

/// Decodes one completion message. Fields that cannot be read leave the
/// message as far as it got (see `cpp_fields`).
pub fn decode_stream_cpp_response(data: &[u8]) -> (resp: StreamCppResponse)
    ensures
        resp@ == decode_cpp_spec(data@),
{
    let mut resp = StreamCppResponse::default();
    let mut pos: usize = 0;
    proof {
        assert(data@.skip(0) == data@);
    }
    loop
        invariant
            pos <= data@.len(),
            decode_cpp_spec(data@) == cpp_fields(data@.skip(pos as int), resp@),
        decreases data@.len() - pos,
    {
        if pos >= data.len() {
            proof {
                assert(data@.skip(pos as int).len() == 0);
            }
            return resp;
        }
        let (tag, p) = read_varint(data, pos);
        let ghost s = data@.skip(pos as int);
        proof {
            lemma_reads_in_bounds(s, 0);
            assert(s.skip(p - pos) == data@.skip(p as int));
        }
        let tag_val = match tag {
            Some(v) => v,
            None => {
                return resp;
            },
        };
        let field = (tag_val >> 3) as u32;
        let wire = tag_val & 0x7;
        proof {
            lemma_reads_in_bounds(data@.skip(p as int), wire);
        }
        match (field, wire) {
            (1, 2) => {
                let (b, q) = read_length_delimited(data, p);
                if let Some(b) = b {
                    resp.text = text_from_utf8_lossy(b);
                }
                proof {
                    assert(data@.skip(p as int).skip(q - p) == data@.skip(q as int));
                }
                pos = q;
            },
            (2, 0) => {
                let (v, q) = read_varint(data, p);
                if let Some(v) = v {
                    resp.suggestion_start_line = Some(#[verifier::truncate] (v as i32));
                }
                proof {
                    assert(data@.skip(p as int).skip(q - p) == data@.skip(q as int));
                }
                pos = q;
            },
            (4, 0) => {
                let (v, q) = read_varint(data, p);
                if let Some(v) = v {
                    resp.done_stream = Some(v != 0);
                }
                proof {
                    assert(data@.skip(p as int).skip(q - p) == data@.skip(q as int));
                }
                pos = q;
            },
            (11, 2) => {
                let (inner, q) = read_length_delimited(data, p);
                if let Some(inner) = inner {
                    decode_line_range(inner, &mut resp);
                }
                proof {
                    assert(data@.skip(p as int).skip(q - p) == data@.skip(q as int));
                }
                pos = q;
            },
            (_, w) => {
                let (_, q) = skip_field(data, p, w);
                proof {
                    assert(data@.skip(p as int).skip(q - p) == data@.skip(q as int));
                }
                pos = q;
            },
        }
    }
}

/// One message of the next-cursor stream: the predicted line (1-based, 0
/// for none) and whether the prediction fell outside the file.
#[derive(Debug)]
pub struct StreamNextCursorResponse {
    pub line_number: i32,
    pub is_not_in_range: bool,
}

impl Default for StreamNextCursorResponse {
    fn default() -> (r: Self)
        ensures
            r.line_number == 0,
            !r.is_not_in_range,
    {
        StreamNextCursorResponse { line_number: 0, is_not_in_range: false }
    }
}

/// The fields of a next-cursor message in `s`, written over `(line_number,
/// is_not_in_range)`: the line number (2, varint) and the out-of-range flag
/// (3, varint). A varint cut short counts as 0; other fields are passed
/// over; the reading stops at a tag that cannot be read.
pub open spec fn next_cursor_fields(s: Seq<u8>, r: (i32, bool)) -> (i32, bool)
    decreases s.len(),
{
    if s.len() == 0 {
        r
    } else {
        let (tag, n) = read_varint_spec(s);
        match tag {
            None => r,
            Some(t) => {
                let rest = s.skip(n as int);
                let field = (t >> 3) as u32;
                let wire = t & 7;
                let (v, m) = read_varint_spec(rest);
                let x: u64 = match v {
                    Some(x) => x,
                    None => 0,
                };
                let (_, k) = skip_field_spec(rest, wire);
                proof {
                    lemma_reads_in_bounds(s, 0);
                    lemma_reads_in_bounds(rest, wire);
                }
                if field == 2 && wire == 0 {
                    next_cursor_fields(rest.skip(m as int), (x as i32, r.1))
                } else if field == 3 && wire == 0 {
                    next_cursor_fields(rest.skip(m as int), (r.0, x != 0))
                } else {
                    next_cursor_fields(rest.skip(k as int), r)
                }
            },
        }
    }
}

/// The next-cursor message that `data` encodes, as `(line_number,
/// is_not_in_range)`.
pub open spec fn decode_next_cursor_spec(data: Seq<u8>) -> (i32, bool) {
    next_cursor_fields(data, (0, false))
}

/// Decodes one next-cursor message (see `next_cursor_fields`).
pub fn decode_stream_next_cursor_response(data: &[u8]) -> (resp: StreamNextCursorResponse)
    ensures
        (resp.line_number, resp.is_not_in_range) == decode_next_cursor_spec(data@),
{
    let mut resp = StreamNextCursorResponse::default();
    let mut pos: usize = 0;
    proof {
        assert(data@.skip(0) == data@);
    }
    loop
        invariant
            pos <= data@.len(),
            decode_next_cursor_spec(data@) == next_cursor_fields(
                data@.skip(pos as int),
                (resp.line_number, resp.is_not_in_range),
            ),
        decreases data@.len() - pos,
    {
        if pos >= data.len() {
            proof {
                assert(data@.skip(pos as int).len() == 0);
            }
            return resp;
        }
        let (tag, p) = read_varint(data, pos);
        let ghost s = data@.skip(pos as int);
        proof {
            lemma_reads_in_bounds(s, 0);
            assert(s.skip(p - pos) == data@.skip(p as int));
        }
        let tag_val = match tag {
            Some(v) => v,
            None => {
                return resp;
            },
        };
        let field = (tag_val >> 3) as u32;
        let wire = tag_val & 0x7;
        proof {
            lemma_reads_in_bounds(data@.skip(p as int), wire);
        }
        match (field, wire) {
            (2, 0) => {
                let (v, q) = read_varint(data, p);
                resp.line_number = #[verifier::truncate] (v.unwrap_or(0) as i32);
                proof {
                    assert(data@.skip(p as int).skip(q - p) == data@.skip(q as int));
                }
                pos = q;
            },
            (3, 0) => {
                let (v, q) = read_varint(data, p);
                resp.is_not_in_range = v.unwrap_or(0) != 0;
                proof {
                    assert(data@.skip(p as int).skip(q - p) == data@.skip(q as int));
                }
                pos = q;
            },
            (_, w) => {
                let (_, q) = skip_field(data, p, w);
                proof {
                    assert(data@.skip(p as int).skip(q - p) == data@.skip(q as int));
                }
                pos = q;
            },
        }
    }
}

/// A next-cursor message that holds just the line number `n`, encoded as
/// an `int32` field, is read back as `n`, in range.
pub proof fn lemma_next_cursor_line_roundtrip(n: i32)
    ensures
        decode_next_cursor_spec(i32_field(2, n)) == (n, false),
{
    let key = key_bytes(2, 0);
    let value = varint_bytes(n as u64);
    let s = i32_field(2, n);
    assert(tag_spec(2, 0) == 16u32) by (bit_vector);
    lemma_varint_roundtrip(16, value);
    assert(key == varint_bytes(16));
    assert(s == key + value);
    assert(s.skip(key.len() as int) == value);
    assert((16u64 >> 3u64) as u32 == 2u32 && 16u64 & 7u64 == 0u64) by (bit_vector);
    lemma_varint_roundtrip(n as u64, Seq::empty());
    assert(value + Seq::<u8>::empty() == value);
    assert(value.skip(value.len() as int) == Seq::<u8>::empty());
    assert(((n as u64) as i32) == n) by (bit_vector);
    assert(varint_bytes(16) == seq![16u8]);
    assert(read_varint_spec(s) == (Some(16u64), 1nat));
    assert(read_varint_spec(value) == (Some(n as u64), value.len()));
    assert(s.skip(1) == value);
    assert(next_cursor_fields(Seq::<u8>::empty(), (n, false)) == (n, false));
}

/// A complete length-delimited field, of any number, is passed over by the
/// next-cursor reading: the message reads as what follows it.
pub proof fn lemma_next_cursor_skips_bytes_field(
    field: u32,
    d: Seq<u8>,
    rest: Seq<u8>,
    r: (i32, bool),
)
    requires
        field < 0x2000_0000,
        0 < d.len() <= u32::MAX,
    ensures
        next_cursor_fields(bytes_field(field, d) + rest, r) == next_cursor_fields(rest, r),
{
    let tag = tag_spec(field, 2);
    let key = key_bytes(field, 2);
    let vlen = varint_bytes(d.len() as u64);
    let s = bytes_field(field, d) + rest;
    let rest1 = vlen + d + rest;
    assert(s == key + rest1);
    lemma_varint_roundtrip(tag as u64, rest1);
    assert(s.skip(key.len() as int) == rest1);
    assert(field < 0x2000_0000 ==> ((((field << 3u32) | 2u32) as u64) >> 3u64) as u32 == field
        && (((field << 3u32) | 2u32) as u64) & 7u64 == 2u64) by (bit_vector);
    assert(vlen + d + rest == vlen + (d + rest));
    lemma_varint_roundtrip(d.len() as u64, d + rest);
    assert(((d.len() as u64) as usize) == d.len());
    assert(rest1.subrange(vlen.len() as int, (vlen.len() + d.len()) as int) == d);
    assert(rest1.skip((vlen.len() + d.len()) as int) == rest);
    lemma_varint_len(tag as u64);
}

/// A complete varint field of a number other than 2 and 3 is passed over by
/// the next-cursor reading: the message reads as what follows it.
pub proof fn lemma_next_cursor_skips_varint_field(field: u32, n: i32, rest: Seq<u8>, r: (i32, bool))
    requires
        field < 0x2000_0000,
        field != 2,
        field != 3,
    ensures
        next_cursor_fields(i32_field(field, n) + rest, r) == next_cursor_fields(rest, r),
{
    let tag = tag_spec(field, 0);
    let key = key_bytes(field, 0);
    let value = varint_bytes(n as u64);
    let s = i32_field(field, n) + rest;
    let rest1 = value + rest;
    assert(s == key + rest1);
    lemma_varint_roundtrip(tag as u64, rest1);
    assert(s.skip(key.len() as int) == rest1);
    assert(field < 0x2000_0000 ==> ((((field << 3u32) | 0u32) as u64) >> 3u64) as u32 == field
        && (((field << 3u32) | 0u32) as u64) & 7u64 == 0u64) by (bit_vector);
    lemma_varint_roundtrip(n as u64, rest);
    assert(rest1.skip(value.len() as int) == rest);
    lemma_varint_len(tag as u64);
}

/// A line number after an unknown field is still read: a message of a
/// length-delimited field 1 and then the line number `n` reads as `n`, in
/// range.
pub proof fn lemma_next_cursor_line_after_unknown_field(d: Seq<u8>, n: i32)
    requires
        0 < d.len() <= u32::MAX,
    ensures
        decode_next_cursor_spec(bytes_field(1, d) + i32_field(2, n)) == (n, false),
{
    lemma_next_cursor_skips_bytes_field(1, d, i32_field(2, n), (0, false));
    lemma_next_cursor_line_roundtrip(n);
}

proof fn lemma_read_key(field: u32, wire: u32, rest: Seq<u8>)
    requires
        field < 0x2000_0000,
        wire < 8,
    ensures
        read_varint_spec(key_bytes(field, wire) + rest) == (
            Some(tag_spec(field, wire) as u64),
            key_bytes(field, wire).len(),
        ),
        ((tag_spec(field, wire) as u64) >> 3) as u32 == field,
        (tag_spec(field, wire) as u64) & 7 == wire as u64,
        (key_bytes(field, wire) + rest).skip(key_bytes(field, wire).len() as int) == rest,
        key_bytes(field, wire).len() >= 1,
{
    lemma_varint_roundtrip(tag_spec(field, wire) as u64, rest);
    lemma_varint_len(tag_spec(field, wire) as u64);
    assert(field < 0x2000_0000 && wire < 8 ==> ((((field << 3u32) | wire) as u64) >> 3u64) as u32
        == field && (((field << 3u32) | wire) as u64) & 7u64 == wire as u64) by (bit_vector);
}

proof fn lemma_read_payload(d: Seq<u8>, rest: Seq<u8>)
    requires
        d.len() <= u32::MAX,
    ensures
        read_length_delimited_spec(varint_bytes(d.len() as u64) + d + rest) == (
            Some(d),
            varint_bytes(d.len() as u64).len() + d.len(),
        ),
        (varint_bytes(d.len() as u64) + d + rest).skip(
            (varint_bytes(d.len() as u64).len() + d.len()) as int,
        ) == rest,
{
    let vlen = varint_bytes(d.len() as u64);
    let s = vlen + d + rest;
    assert(s == vlen + (d + rest));
    lemma_varint_roundtrip(d.len() as u64, d + rest);
    assert(((d.len() as u64) as usize) == d.len());
    assert(s.subrange(vlen.len() as int, (vlen.len() + d.len()) as int) == d);
    assert(s.skip((vlen.len() + d.len()) as int) == rest);
}

/// A complete length-delimited field of a number other than 1 (text) and
/// 11 (line range) is passed over: the message reads as what follows it.
pub proof fn lemma_cpp_skips_bytes_field(field: u32, d: Seq<u8>, rest: Seq<u8>, r: CppResponseView)
    requires
        field < 0x2000_0000,
        field != 1,
        field != 11,
        0 < d.len() <= u32::MAX,
    ensures
        cpp_fields(bytes_field(field, d) + rest, r) == cpp_fields(rest, r),
{
    let rest1 = varint_bytes(d.len() as u64) + d + rest;
    assert(bytes_field(field, d) + rest == key_bytes(field, 2) + rest1);
    lemma_read_key(field, 2, rest1);
    lemma_read_payload(d, rest);
}

/// A complete varint field of a number other than 2 (start line) and 4
/// (done) is passed over: the message reads as what follows it.
pub proof fn lemma_cpp_skips_varint_field(field: u32, n: i32, rest: Seq<u8>, r: CppResponseView)
    requires
        field < 0x2000_0000,
        field != 2,
        field != 4,
    ensures
        cpp_fields(i32_field(field, n) + rest, r) == cpp_fields(rest, r),
{
    let value = varint_bytes(n as u64);
    assert(i32_field(field, n) + rest == key_bytes(field, 0) + (value + rest));
    lemma_read_key(field, 0, value + rest);
    lemma_varint_roundtrip(n as u64, rest);
    assert((value + rest).skip(value.len() as int) == rest);
}

/// A text field sets the text to what its payload reads as; the rest of the
/// message is read after it.
pub proof fn lemma_cpp_reads_text(t: Seq<u8>, rest: Seq<u8>, r: CppResponseView)
    requires
        0 < t.len() <= u32::MAX,
    ensures
        cpp_fields(bytes_field(1, t) + rest, r) == cpp_fields(
            rest,
            CppResponseView { text: payload_text(t), ..r },
        ),
{
    let rest1 = varint_bytes(t.len() as u64) + t + rest;
    assert(bytes_field(1, t) + rest == key_bytes(1, 2) + rest1);
    lemma_read_key(1, 2, rest1);
    lemma_read_payload(t, rest);
}

/// A start-line field sets the suggestion's start line to its value; the
/// rest of the message is read after it.
pub proof fn lemma_cpp_reads_start_line(n: i32, rest: Seq<u8>, r: CppResponseView)
    ensures
        cpp_fields(i32_field(2, n) + rest, r) == cpp_fields(
            rest,
            CppResponseView { suggestion_start_line: Some(n), ..r },
        ),
{
    let value = varint_bytes(n as u64);
    assert(i32_field(2, n) + rest == key_bytes(2, 0) + (value + rest));
    lemma_read_key(2, 0, value + rest);
    lemma_varint_roundtrip(n as u64, rest);
    assert((value + rest).skip(value.len() as int) == rest);
    assert(((n as u64) as i32) == n) by (bit_vector);
}

/// A done field marks the stream done or not as its value says; the rest
/// of the message is read after it.
pub proof fn lemma_cpp_reads_done(v: bool, rest: Seq<u8>, r: CppResponseView)
    ensures
        cpp_fields(bool_field(4, v) + rest, r) == cpp_fields(
            rest,
            CppResponseView { done_stream: Some(v), ..r },
        ),
{
    let b: u8 = if v { 1 } else { 0 };
    assert(varint_bytes(b as u64) == seq![b]);
    assert(bool_field(4, v) + rest == key_bytes(4, 0) + (varint_bytes(b as u64) + rest));
    lemma_read_key(4, 0, varint_bytes(b as u64) + rest);
    lemma_varint_roundtrip(b as u64, rest);
    assert((varint_bytes(b as u64) + rest).skip(1) == rest);
}

/// A line-range field holding a start line `a` and an end line `b` sets
/// both; the rest of the message is read after it.
pub proof fn lemma_cpp_reads_line_range(a: i32, b: i32, rest: Seq<u8>, r: CppResponseView)
    ensures
        cpp_fields(bytes_field(11, i32_field(1, a) + i32_field(2, b)) + rest, r) == cpp_fields(
            rest,
            CppResponseView { start_line: Some(a), end_line_inclusive: Some(b), ..r },
        ),
{
    let inner = i32_field(1, a) + i32_field(2, b);
    lemma_varint_len(tag_spec(1, 0) as u64);
    lemma_varint_len(tag_spec(2, 0) as u64);
    lemma_varint_len(a as u64);
    lemma_varint_len(b as u64);
    let rest1 = varint_bytes(inner.len() as u64) + inner + rest;
    assert(bytes_field(11, inner) + rest == key_bytes(11, 2) + rest1);
    lemma_read_key(11, 2, rest1);
    lemma_read_payload(inner, rest);
    let va = varint_bytes(a as u64);
    let vb = varint_bytes(b as u64);
    let second = i32_field(2, b);
    assert(inner == key_bytes(1, 0) + (va + second));
    lemma_read_key(1, 0, va + second);
    lemma_varint_roundtrip(a as u64, second);
    assert((va + second).skip(va.len() as int) == second);
    assert(second == key_bytes(2, 0) + (vb + Seq::<u8>::empty()));
    lemma_read_key(2, 0, vb + Seq::<u8>::empty());
    lemma_varint_roundtrip(b as u64, Seq::empty());
    assert((vb + Seq::<u8>::empty()).skip(vb.len() as int) == Seq::<u8>::empty());
    assert(((a as u64) as i32) == a) by (bit_vector);
    assert(((b as u64) as i32) == b) by (bit_vector);
    let ra = CppResponseView { start_line: Some(a), ..r };
    let rb = CppResponseView { end_line_inclusive: Some(b), ..ra };
    assert(line_range_fields(Seq::<u8>::empty(), rb) == rb);
    assert(line_range_fields(second, ra) == rb);
    assert(line_range_fields(inner, r) == rb);
}

/// A line-number field sets the predicted line to its value, and an
/// out-of-range field sets the flag as its value says; the rest of the
/// message is read after each.
pub proof fn lemma_next_cursor_reads_fields(n: i32, v: bool, rest: Seq<u8>, r: (i32, bool))
    ensures
        next_cursor_fields(i32_field(2, n) + rest, r) == next_cursor_fields(rest, (n, r.1)),
        next_cursor_fields(bool_field(3, v) + rest, r) == next_cursor_fields(rest, (r.0, v)),
{
    let value = varint_bytes(n as u64);
    assert(i32_field(2, n) + rest == key_bytes(2, 0) + (value + rest));
    lemma_read_key(2, 0, value + rest);
    lemma_varint_roundtrip(n as u64, rest);
    assert((value + rest).skip(value.len() as int) == rest);
    assert(((n as u64) as i32) == n) by (bit_vector);
    let b: u8 = if v { 1 } else { 0 };
    assert(varint_bytes(b as u64) == seq![b]);
    assert(bool_field(3, v) + rest == key_bytes(3, 0) + (varint_bytes(b as u64) + rest));
    lemma_read_key(3, 0, varint_bytes(b as u64) + rest);
    lemma_varint_roundtrip(b as u64, rest);
    assert((varint_bytes(b as u64) + rest).skip(1) == rest);
}

/// Complete fixed-size fields (eight bytes for wire type 1, four for wire
/// type 5), of any number, are passed over by both readings.
pub proof fn lemma_fixed_fields_skipped(
    field: u32,
    d8: Seq<u8>,
    d4: Seq<u8>,
    rest: Seq<u8>,
    r: CppResponseView,
    q: (i32, bool),
)
    requires
        field < 0x2000_0000,
        d8.len() == 8,
        d4.len() == 4,
    ensures
        cpp_fields(key_bytes(field, 1) + d8 + rest, r) == cpp_fields(rest, r),
        cpp_fields(key_bytes(field, 5) + d4 + rest, r) == cpp_fields(rest, r),
        next_cursor_fields(key_bytes(field, 1) + d8 + rest, q) == next_cursor_fields(rest, q),
        next_cursor_fields(key_bytes(field, 5) + d4 + rest, q) == next_cursor_fields(rest, q),
{
    assert(key_bytes(field, 1) + d8 + rest == key_bytes(field, 1) + (d8 + rest));
    assert(key_bytes(field, 5) + d4 + rest == key_bytes(field, 5) + (d4 + rest));
    lemma_read_key(field, 1, d8 + rest);
    lemma_read_key(field, 5, d4 + rest);
    assert((d8 + rest).skip(8) == rest);
    assert((d4 + rest).skip(4) == rest);
}

} // verus!
