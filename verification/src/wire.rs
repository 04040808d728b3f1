//! Reading the fields of a protobuf message: length-delimited payloads and
//! fields that the decoders pass over.

use vstd::prelude::*;
use crate::varint::{read_varint, read_varint_spec, read_varint_from, lemma_read_varint_consumes};

verus! {

/// A length-delimited payload at the front of `s`: a varint length, then
/// that many bytes. Where the length is missing, or more than what follows,
/// there is no payload and only the varint is consumed.
pub open spec fn read_length_delimited_spec(s: Seq<u8>) -> (Option<Seq<u8>>, nat) {
    let (len, n) = read_varint_spec(s);
    match len {
        None => (None, n),
        Some(len) => {
            let l = len as usize;
            if s.len() - n < l {
                (None, n)
            } else {
                (Some(s.subrange(n as int, n + l)), (n + l) as nat)
            }
        },
    }
}

/// How many bytes passing over a field of wire type `wire` consumes, and
/// whether the field was complete: a varint (0), eight bytes (1), a
/// length-delimited payload (2) or four bytes (5). Other wire types, and
/// fixed-size fields cut short, consume nothing.
pub open spec fn skip_field_spec(s: Seq<u8>, wire: u64) -> (bool, nat) {
    if wire == 0 {
        let (v, n) = read_varint_spec(s);
        (v is Some, n)
    } else if wire == 1 {
        if s.len() < 8 { (false, 0) } else { (true, 8) }
    } else if wire == 2 {
        let (d, n) = read_length_delimited_spec(s);
        (d is Some, n)
    } else if wire == 5 {
        if s.len() < 4 { (false, 0) } else { (true, 4) }
    } else {
        (false, 0)
    }
}

/// No reading consumes more than there is.
pub proof fn lemma_reads_in_bounds(s: Seq<u8>, wire: u64)
    ensures
        read_varint_spec(s).1 <= s.len(),
        s.len() > 0 ==> read_varint_spec(s).1 >= 1,
        read_length_delimited_spec(s).1 <= s.len(),
        skip_field_spec(s, wire).1 <= s.len(),
{
    lemma_read_varint_consumes(s, 0, 0);
}

/// Reads the length-delimited payload that starts at `pos`: the payload, if
/// there is one, and the position after what was consumed.
pub(crate) fn read_length_delimited(buf: &[u8], pos: usize) -> (r: (Option<&[u8]>, usize))
    requires
        pos <= buf@.len(),
    ensures
        r.1 == pos + read_length_delimited_spec(buf@.skip(pos as int)).1,
        match (r.0, read_length_delimited_spec(buf@.skip(pos as int)).0) {
            (Some(d), Some(e)) => d@ == e,
            (None, None) => true,
            _ => false,
        },
{
    proof {
        lemma_reads_in_bounds(buf@.skip(pos as int), 0);
    }
    let (len, p) = read_varint(buf, pos);
    match len {
        None => (None, p),
        Some(len) => {
            let len = len as usize;
            if buf.len() - p < len {
                return (None, p);
            }
            let data = vstd::slice::slice_subrange(buf, p, p + len);
            proof {
                assert(data@ == buf@.skip(pos as int).subrange(
                    (p - pos) as int,
                    (p - pos) + len,
                ));
            }
            (Some(data), p + len)
        },
    }
}

/// Passes over a field of wire type `wire` that starts at `pos`: whether it
/// was complete, and the position after what was consumed.
pub(crate) fn skip_field(buf: &[u8], pos: usize, wire: u64) -> (r: (bool, usize))
    requires
        pos <= buf@.len(),
    ensures
        r.0 == skip_field_spec(buf@.skip(pos as int), wire).0,
        r.1 == pos + skip_field_spec(buf@.skip(pos as int), wire).1,
{
    if wire == 0 {
        let (v, p) = read_varint(buf, pos);
        (v.is_some(), p)
    } else if wire == 1 {
        if buf.len() - pos < 8 {
            return (false, pos);
        }
        (true, pos + 8)
    } else if wire == 2 {
        let (d, p) = read_length_delimited(buf, pos);
        (d.is_some(), p)
    } else if wire == 5 {
        if buf.len() - pos < 4 {
            return (false, pos);
        }
        (true, pos + 4)
    } else {
        (false, pos)
    }
}

} // verus!
