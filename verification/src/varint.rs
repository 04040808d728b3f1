//! Protobuf base-128 varints: seven payload bits per byte, least
//! significant group first, the high bit set on every byte but the last.

use vstd::prelude::*;
use crate::bytes_buf::{bytes_mut_contents, bytes_mut_put_u8};
use bytes::BytesMut;

verus! {

/// The encoding of `v` as a varint.
pub open spec fn varint_bytes(v: u64) -> Seq<u8>
    decreases v,
{
    if v < 0x80 {
        seq![v as u8]
    } else {
        proof {
            assert(v >= 0x80 ==> v >> 7u64 < v) by (bit_vector);
        }
        seq![((v as u8) & 0x7f) | 0x80] + varint_bytes(v >> 7u64)
    }
}

/// Reading a varint from the front of `s` when `shift` bits have been
/// gathered into `acc` already: the value (`None` where the input ends, or
/// where a tenth byte still asks for more) and the number of bytes consumed,
/// which is the same whether or not a value came out.
pub open spec fn read_varint_from(s: Seq<u8>, shift: u32, acc: u64) -> (Option<u64>, nat)
    decreases s.len(),
{
    if s.len() == 0 {
        (None, 0)
    } else {
        let byte = s[0];
        let acc2 = acc | (((byte & 0x7f) as u64) << shift);
        if byte & 0x80 == 0 {
            (Some(acc2), 1)
        } else if shift + 7 >= 64 {
            (None, 1)
        } else {
            let r = read_varint_from(s.drop_first(), (shift + 7) as u32, acc2);
            (r.0, r.1 + 1)
        }
    }
}

/// The varint at the front of `s`: its value, if any, and the bytes consumed.
pub open spec fn read_varint_spec(s: Seq<u8>) -> (Option<u64>, nat) {
    read_varint_from(s, 0, 0)
}

/// The bits of `v` below bit `s`.
pub open spec fn low_bits(v: u64, s: u32) -> u64 {
    v & !(0xffff_ffff_ffff_ffffu64 << s)
}

/// A varint is at least one byte long, and at most ten.
pub proof fn lemma_varint_len(v: u64)
    ensures
        1 <= varint_bytes(v).len() <= 10,
{
    assert(v >> 63u64 < 0x80) by (bit_vector);
    assert((7 * (10 - 1)) as u64 == 63u64);
    lemma_varint_len_steps(v, 10);
}

proof fn lemma_varint_len_steps(v: u64, k: u64)
    requires
        1 <= k <= 10,
        v >> ((7 * (k - 1)) as u64) < 0x80,
    ensures
        1 <= varint_bytes(v).len() <= k,
    decreases v,
{
    if v >= 0x80 {
        assert(v >= 0x80 ==> v >> 7u64 < v) by (bit_vector);
        if k == 1 {
            assert(v >> 0u64 == v) by (bit_vector);
            assert((7 * (k - 1)) as u64 == 0u64);
        }
        assert(k >= 2);
        let m: u64 = (7 * (k - 2)) as u64;
        assert(m <= 56 ==> (v >> 7u64) >> m == v >> ((m + 7) as u64)) by (bit_vector);
        lemma_varint_len_steps(v >> 7u64, (k - 1) as u64);
    }
}

/// The bits that a reading has gathered, continued over the varint of the
/// bits above them, give the whole value back.
proof fn lemma_read_varint_tail(v: u64, s: u32, rest: Seq<u8>)
    requires
        s % 7 == 0,
        s <= 63,
    ensures
        read_varint_from(varint_bytes(v >> s) + rest, s, low_bits(v, s)) == (
            Some(v),
            varint_bytes(v >> s).len(),
        ),
    decreases 64 - s,
{
    let w = v >> s;
    let bytes = varint_bytes(w) + rest;
    if w < 0x80 {
        let b = w as u8;
        assert(bytes[0] == b);
        assert(w < 0x80 ==> (w as u8) & 0x80 == 0) by (bit_vector);
        assert(s <= 63 && v >> s < 0x80 ==> (v & !(0xffff_ffff_ffff_ffffu64 << s)) | (
        ((((v >> s) as u8) & 0x7f) as u64) << s) == v) by (bit_vector);
    } else {
        let b = ((w as u8) & 0x7f) | 0x80;
        assert(bytes[0] == b);
        assert((((w as u8) & 0x7fu8) | 0x80u8) & 0x80u8 != 0) by (bit_vector);
        assert(s <= 63 && v >> s >= 0x80 ==> s <= 56) by (bit_vector);
        assert(s <= 56 && v >> s >= 0x80 ==> (v & !(0xffff_ffff_ffff_ffffu64 << s)) | (
        ((((((v >> s) as u8) & 0x7f) | 0x80) & 0x7f) as u64) << s) == (v & !(
        0xffff_ffff_ffff_ffffu64 << ((s + 7) as u32)))) by (bit_vector);
        assert(s <= 56 ==> (v >> s) >> 7u64 == v >> ((s + 7) as u32)) by (bit_vector);
        let s2 = (s + 7) as u32;
        assert(bytes.drop_first() == varint_bytes(v >> s2) + rest);
        lemma_read_varint_tail(v, s2, rest);
    }
}

/// Reading back the varint of `v`, whatever follows it, gives `v` and
/// consumes exactly its bytes.
pub proof fn lemma_varint_roundtrip(v: u64, rest: Seq<u8>)
    ensures
        read_varint_spec(varint_bytes(v) + rest) == (Some(v), varint_bytes(v).len()),
{
    assert(low_bits(v, 0) == 0 && v >> 0u32 == v) by (bit_vector);
    lemma_read_varint_tail(v, 0, rest);
}

/// A reading of a non-empty input consumes at least one byte, and never more
/// than there are.
pub proof fn lemma_read_varint_consumes(s: Seq<u8>, shift: u32, acc: u64)
    ensures
        read_varint_from(s, shift, acc).1 <= s.len(),
        s.len() > 0 ==> read_varint_from(s, shift, acc).1 >= 1,
        read_varint_from(s, shift, acc).0 is Some ==> read_varint_from(s, shift, acc).1 >= 1,
    decreases s.len(),
{
    if s.len() > 0 {
        let byte = s[0];
        let acc2 = acc | (((byte & 0x7f) as u64) << shift);
        if byte & 0x80 != 0 && shift + 7 < 64 {
            lemma_read_varint_consumes(s.drop_first(), (shift + 7) as u32, acc2);
        }
    }
}

proof fn lemma_read_unended_from(s: Seq<u8>, j: nat, acc: u64)
    requires
        j <= 9,
        j <= s.len(),
        forall|k: int| j <= k < s.len() && k < 10 ==> (#[trigger] s[k]) & 0x80 != 0,
    ensures
        read_varint_from(s.skip(j as int), (7 * j) as u32, acc).0 is None,
        read_varint_from(s.skip(j as int), (7 * j) as u32, acc).1 == (if s.len() < 10 {
            s.len()
        } else {
            10
        }) - j,
    decreases 9 - j,
{
    let t = s.skip(j as int);
    if t.len() > 0 {
        assert(t[0] == s[j as int]);
        let acc2 = acc | (((t[0] & 0x7f) as u64) << ((7 * j) as u32));
        if j < 9 {
            assert(t.drop_first() == s.skip((j + 1) as int));
            assert((7 * j) as u32 + 7 == (7 * (j + 1)) as u32);
            lemma_read_unended_from(s, j + 1, acc2);
        }
    }
}

/// A varint whose bytes all ask for more reads as nothing: where the input
/// ends first, it consumes all of it; otherwise it gives up after ten
/// bytes.
pub proof fn lemma_read_varint_unended(s: Seq<u8>)
    requires
        forall|k: int| 0 <= k < s.len() && k < 10 ==> (#[trigger] s[k]) & 0x80 != 0,
    ensures
        read_varint_spec(s).0 is None,
        read_varint_spec(s).1 == if s.len() < 10 { s.len() } else { 10 },
{
    lemma_read_unended_from(s, 0, 0);
    assert(s.skip(0) == s);
}

/// Appends the varint of `v` to `buf`.
pub(crate) fn write_varint(buf: &mut BytesMut, v: u64)
    requires
        bytes_mut_contents(*old(buf)).len() + varint_bytes(v).len() <= isize::MAX,
    ensures
        bytes_mut_contents(*final(buf)) == bytes_mut_contents(*old(buf)) + varint_bytes(v),
{
    let ghost start = bytes_mut_contents(*buf);
    let ghost orig = v;
    let ghost mut written: Seq<u8> = Seq::empty();
    let mut v = v;
    while v >= 0x80
        invariant
            bytes_mut_contents(*buf) == start + written,
            written + varint_bytes(v) == varint_bytes(orig),
            start.len() + written.len() + varint_bytes(v).len() <= isize::MAX,
        decreases v,
    {
        let b: u8 = (v as u8 & 0x7f) | 0x80;
        bytes_mut_put_u8(buf, b);
        proof {
            assert(v >= 0x80 ==> v >> 7u64 < v) by (bit_vector);
            assert(varint_bytes(v) == seq![b] + varint_bytes(v >> 7u64));
            assert(written.push(b) + varint_bytes(v >> 7u64) == written + varint_bytes(v));
            written = written.push(b);
        }
        v = v >> 7;
    }
    bytes_mut_put_u8(buf, v as u8);
    proof {
        assert(varint_bytes(v) == seq![v as u8]);
    }
}

/// Reads the varint that starts at `pos`: the value, if there is one, and
/// the position just after the bytes consumed.
pub(crate) fn read_varint(buf: &[u8], pos: usize) -> (r: (Option<u64>, usize))
    requires
        pos <= buf@.len(),
    ensures
        r.0 == read_varint_spec(buf@.skip(pos as int)).0,
        r.1 == pos + read_varint_spec(buf@.skip(pos as int)).1,
{
    let mut result: u64 = 0;
    let mut shift: u32 = 0;
    let mut i: usize = pos;
    loop
        invariant
            pos <= i <= buf@.len(),
            shift < 64,
            read_varint_spec(buf@.skip(pos as int)) == ({
                let r = read_varint_from(buf@.skip(i as int), shift, result);
                (r.0, r.1 + (i - pos) as nat)
            }),
        decreases buf@.len() - i,
    {
        if i >= buf.len() {
            return (None, i);
        }
        let byte = buf[i];
        proof {
            assert(buf@.skip(i as int)[0] == byte);
            assert(buf@.skip(i as int).drop_first() == buf@.skip(i + 1));
        }
        i = i + 1;
        result = result | (((byte & 0x7f) as u64) << shift);
        if byte & 0x80 == 0 {
            return (Some(result), i);
        }
        shift = shift + 7;
        if shift >= 64 {
            return (None, i);
        }
    }
}

} // verus!
