//! The framing of streamed messages: each message goes behind a five-byte
//! prefix, a flag byte (0: not compressed) and the length as a big-endian
//! 32-bit integer.

use vstd::prelude::*;

verus! {

/// A 32-bit integer as four bytes, most significant first.
pub open spec fn be32_bytes(x: u32) -> Seq<u8> {
    seq![(x >> 24u32) as u8, (x >> 16u32) as u8, (x >> 8u32) as u8, x as u8]
}

/// The 32-bit integer that four bytes encode, most significant first.
pub open spec fn be32_value(b0: u8, b1: u8, b2: u8, b3: u8) -> u32 {
    ((b0 as u32) << 24u32) | ((b1 as u32) << 16u32) | ((b2 as u32) << 8u32) | (b3 as u32)
}

/// `msg` behind its prefix: the flag 0 and the length, cut to 32 bits.
pub open spec fn frame_spec(msg: Seq<u8>) -> Seq<u8> {
    seq![0u8] + be32_bytes(msg.len() as u32) + msg
}

/// The length that the prefix at the front of `s` announces.
pub open spec fn frame_len(s: Seq<u8>) -> usize {
    be32_value(s[1], s[2], s[3], s[4]) as usize
}

/// The payloads of the uncompressed frames at the front of `s`, in order,
/// up to the first frame that is not complete. Compressed frames are passed
/// over.
pub open spec fn frames_from(s: Seq<u8>) -> Seq<Seq<u8>>
    decreases s.len(),
{
    if s.len() < 5 {
        Seq::empty()
    } else {
        let len = frame_len(s);
        let body = s.skip(5);
        if body.len() < len {
            Seq::empty()
        } else {
            let tail = frames_from(body.skip(len as int));
            if s[0] == 0 {
                seq![body.take(len as int)] + tail
            } else {
                tail
            }
        }
    }
}

/// What is left of `s` once every complete frame at its front is taken:
/// an incomplete frame, or nothing.
pub open spec fn remaining_spec(s: Seq<u8>) -> Seq<u8>
    decreases s.len(),
{
    if s.len() < 5 {
        s
    } else {
        let len = frame_len(s);
        if s.len() - 5 < len {
            s
        } else {
            remaining_spec(s.skip(5 + len))
        }
    }
}

proof fn lemma_be32_roundtrip(x: u32)
    ensures
        be32_value((x >> 24u32) as u8, (x >> 16u32) as u8, (x >> 8u32) as u8, x as u8) == x,
{
    assert(((((x >> 24u32) as u8) as u32) << 24u32) | ((((x >> 16u32) as u8) as u32) << 16u32)
        | ((((x >> 8u32) as u8) as u32) << 8u32) | ((x as u8) as u32) == x) by (bit_vector);
}

/// A framed message is read back as itself, and nothing of it is left over,
/// whatever follows it.
pub proof fn lemma_frame_roundtrip(msg: Seq<u8>, rest: Seq<u8>)
    requires
        msg.len() <= u32::MAX,
    ensures
        frames_from(frame_spec(msg) + rest) == seq![msg] + frames_from(rest),
        remaining_spec(frame_spec(msg) + rest) == remaining_spec(rest),
{
    let s = frame_spec(msg) + rest;
    let x = msg.len() as u32;
    lemma_be32_roundtrip(x);
    assert(s[1] == (x >> 24u32) as u8);
    assert(s[2] == (x >> 16u32) as u8);
    assert(s[3] == (x >> 8u32) as u8);
    assert(s[4] == x as u8);
    assert(frame_len(s) == msg.len());
    assert(s.skip(5) == msg + rest);
    assert((msg + rest).take(msg.len() as int) == msg);
    assert((msg + rest).skip(msg.len() as int) == rest);
    assert(s.skip((5 + msg.len()) as int) == rest);
}

/// A complete frame whose flag byte is not 0 (a compressed frame, or the
/// end-of-stream frame that closes every stream) yields no message: the
/// frames read, and what is left, are those of what follows it.
pub proof fn lemma_flagged_frame_passed_over(flag: u8, body: Seq<u8>, rest: Seq<u8>)
    requires
        flag != 0,
        body.len() <= u32::MAX,
    ensures
        frames_from(seq![flag] + be32_bytes(body.len() as u32) + body + rest) == frames_from(rest),
        remaining_spec(seq![flag] + be32_bytes(body.len() as u32) + body + rest) == remaining_spec(
            rest,
        ),
{
    let s = seq![flag] + be32_bytes(body.len() as u32) + body + rest;
    let x = body.len() as u32;
    lemma_be32_roundtrip(x);
    assert(s[0] == flag);
    assert(s[1] == (x >> 24u32) as u8);
    assert(s[2] == (x >> 16u32) as u8);
    assert(s[3] == (x >> 8u32) as u8);
    assert(s[4] == x as u8);
    assert(frame_len(s) == body.len());
    assert(s.skip(5) == body + rest);
    assert((body + rest).skip(body.len() as int) == rest);
    assert(s.skip((5 + body.len()) as int) == rest);
}

/// A framed message is five bytes longer than the message: the flag 0,
/// then the length in four bytes, most significant first, then the message.
pub proof fn lemma_frame_prefix(msg: Seq<u8>)
    requires
        msg.len() <= u32::MAX,
    ensures
        frame_spec(msg).len() == msg.len() + 5,
        frame_spec(msg)[0] == 0,
        frame_spec(msg)[1] * 0x100_0000 + frame_spec(msg)[2] * 0x1_0000 + frame_spec(msg)[3] * 0x100
            + frame_spec(msg)[4] == msg.len(),
        frame_spec(msg).skip(5) == msg,
{
    let x = msg.len() as u32;
    let f = frame_spec(msg);
    assert(f[1] == (x >> 24u32) as u8);
    assert(f[2] == (x >> 16u32) as u8);
    assert(f[3] == (x >> 8u32) as u8);
    assert(f[4] == x as u8);
    let (b0, b1, b2, b3) = ((x >> 24u32) as u8, (x >> 16u32) as u8, (x >> 8u32) as u8, x as u8);
    assert(b0 as u64 * 0x100_0000u64 + b1 as u64 * 0x1_0000u64 + b2 as u64 * 0x100u64 + b3 as u64
        == x as u64) by (bit_vector)
        requires
            b0 == (x >> 24u32) as u8,
            b1 == (x >> 16u32) as u8,
            b2 == (x >> 8u32) as u8,
            b3 == x as u8,
    ;
    assert(f.skip(5) == msg);
}

/// Messages framed one after the other.
pub open spec fn frames_concat(msgs: Seq<Seq<u8>>) -> Seq<u8>
    decreases msgs.len(),
{
    if msgs.len() == 0 {
        Seq::empty()
    } else {
        frame_spec(msgs[0]) + frames_concat(msgs.drop_first())
    }
}

/// One framed message is read back as itself, with nothing left over.
pub proof fn lemma_single_frame(msg: Seq<u8>)
    requires
        msg.len() <= u32::MAX,
    ensures
        frames_from(frame_spec(msg)) == seq![msg],
        remaining_spec(frame_spec(msg)) == Seq::<u8>::empty(),
{
    lemma_frame_roundtrip(msg, Seq::empty());
    assert(frame_spec(msg) + Seq::<u8>::empty() == frame_spec(msg));
    assert(seq![msg] + Seq::<Seq<u8>>::empty() == seq![msg]);
}

/// Messages framed one after the other are read back all, in order, none
/// merged, split or dropped, with nothing left over.
pub proof fn lemma_frames_of_concat(msgs: Seq<Seq<u8>>)
    requires
        forall|i: int| 0 <= i < msgs.len() ==> #[trigger] msgs[i].len() <= u32::MAX,
    ensures
        frames_from(frames_concat(msgs)) == msgs,
        remaining_spec(frames_concat(msgs)) == Seq::<u8>::empty(),
    decreases msgs.len(),
{
    if msgs.len() > 0 {
        let rest = msgs.drop_first();
        assert(msgs[0].len() <= u32::MAX);
        assert forall|i: int| 0 <= i < rest.len() implies #[trigger] rest[i].len() <= u32::MAX by {
            assert(rest[i] == msgs[i + 1]);
        }
        lemma_frames_of_concat(rest);
        lemma_frame_roundtrip(msgs[0], frames_concat(rest));
        assert(seq![msgs[0]] + rest == msgs);
    }
}

/// What is left holds no complete frame: reading it again finds no frame
/// and leaves it as it is.
pub proof fn lemma_remaining_is_incomplete(s: Seq<u8>)
    ensures
        frames_from(remaining_spec(s)) == Seq::<Seq<u8>>::empty(),
        remaining_spec(remaining_spec(s)) == remaining_spec(s),
    decreases s.len(),
{
    if s.len() >= 5 {
        let len = frame_len(s);
        if s.len() - 5 >= len {
            lemma_remaining_is_incomplete(s.skip(5 + len));
        }
    }
}

/// Frames read chunk by chunk, where each reading keeps what it left over
/// in front of the next chunk, are the frames of the whole: no frame is
/// lost, split or read twice.
pub proof fn lemma_frames_across_chunks(a: Seq<u8>, b: Seq<u8>)
    ensures
        frames_from(a + b) == frames_from(a) + frames_from(remaining_spec(a) + b),
        remaining_spec(a + b) == remaining_spec(remaining_spec(a) + b),
    decreases a.len(),
{
    if a.len() >= 5 {
        let len = frame_len(a);
        let ab = a + b;
        assert(ab[0] == a[0] && ab[1] == a[1] && ab[2] == a[2] && ab[3] == a[3] && ab[4] == a[4]);
        assert(frame_len(ab) == len);
        if a.len() - 5 >= len {
            let a2 = a.skip(5 + len);
            lemma_frames_across_chunks(a2, b);
            assert(ab.skip(5).skip(len as int) == a2 + b);
            assert(a.skip(5).skip(len as int) == a2);
            assert(ab.skip(5).take(len as int) == a.skip(5).take(len as int));
            assert(ab.skip(5 + len) == a2 + b);
            if a[0] == 0 {
                assert(frames_from(ab) == seq![a.skip(5).take(len as int)] + frames_from(a2 + b));
                assert(frames_from(a) == seq![a.skip(5).take(len as int)] + frames_from(a2));
                assert(seq![a.skip(5).take(len as int)] + frames_from(a2) + frames_from(
                    remaining_spec(a2) + b,
                ) == seq![a.skip(5).take(len as int)] + (frames_from(a2) + frames_from(
                    remaining_spec(a2) + b,
                )));
            }
        } else {
            assert(remaining_spec(a) == a);
            assert(frames_from(a) == Seq::<Seq<u8>>::empty());
            assert(Seq::<Seq<u8>>::empty() + frames_from(a + b) == frames_from(a + b));
        }
    } else {
        assert(remaining_spec(a) == a);
        assert(frames_from(a) == Seq::<Seq<u8>>::empty());
        assert(Seq::<Seq<u8>>::empty() + frames_from(a + b) == frames_from(a + b));
    }
}

fn push_all(out: &mut Vec<u8>, src: &[u8])
    ensures
        final(out)@ == old(out)@ + src@,
{
    let ghost start = out@;
    let mut i: usize = 0;
    while i < src.len()
        invariant
            i <= src@.len(),
            out@ == start + src@.take(i as int),
        decreases src@.len() - i,
    {
        out.push(src[i]);
        proof {
            assert(src@.take(i + 1) == src@.take(i as int).push(src@[i as int]));
        }
        i = i + 1;
    }
    proof {
        assert(src@.take(src@.len() as int) == src@);
    }
}

/// `msg` behind the five-byte prefix. The length is cut to 32 bits, as the
/// format has no room for more.
pub fn frame_message(msg: &[u8]) -> (out: Vec<u8>)
    requires
        msg@.len() + 5 <= isize::MAX,
    ensures
        out@ == frame_spec(msg@),
{
    let mut out: Vec<u8> = Vec::with_capacity(5 + msg.len());
    out.push(0u8);
    let len: u32 = #[verifier::truncate] (msg.len() as u32);
    out.push((len >> 24u32) as u8);
    out.push((len >> 16u32) as u8);
    out.push((len >> 8u32) as u8);
    out.push(len as u8);
    push_all(&mut out, msg);
    proof {
        assert(out@ == seq![0u8] + be32_bytes(len) + msg@);
    }
    out
}

/// The payloads of the uncompressed frames at the front of `data`, up to
/// the first frame that is not complete.
pub fn parse_frames(data: &[u8]) -> (out: Vec<Vec<u8>>)
    ensures
        out@.len() == frames_from(data@).len(),
        forall|i: int| 0 <= i < out@.len() ==> #[trigger] out@[i]@ == frames_from(data@)[i],
{
    let mut out: Vec<Vec<u8>> = Vec::new();
    let mut pos: usize = 0;
    let ghost mut found: Seq<Seq<u8>> = Seq::empty();
    proof {
        assert(data@.skip(0) == data@);
    }
    while data.len() - pos >= 5
        invariant
            pos <= data@.len(),
            frames_from(data@) == found + frames_from(data@.skip(pos as int)),
            out@.len() == found.len(),
            forall|i: int| 0 <= i < out@.len() ==> #[trigger] out@[i]@ == found[i],
        ensures
            frames_from(data@.skip(pos as int)) == Seq::<Seq<u8>>::empty(),
        decreases data@.len() - pos,
    {
        let ghost s = data@.skip(pos as int);
        let compressed = data[pos];
        let len = (((data[pos + 1] as u32) << 24u32) | ((data[pos + 2] as u32) << 16u32) | ((
        data[pos + 3] as u32) << 8u32) | (data[pos + 4] as u32)) as usize;
        proof {
            assert(s[0] == compressed);
            assert(len == frame_len(s));
            assert(s.skip(5) == data@.skip(pos + 5));
        }
        let body = pos + 5;
        if data.len() - body < len {
            proof {
                assert(frames_from(s) == Seq::<Seq<u8>>::empty());
                assert(found + Seq::<Seq<u8>>::empty() == found);
            }
            break;
        }
        proof {
            assert(s.skip(5).skip(len as int) == data@.skip(body + len));
        }
        if compressed == 0 {
            let frame = vstd::slice::slice_to_vec(vstd::slice::slice_subrange(data, body, body + len));
            proof {
                assert(frame@ == s.skip(5).take(len as int));
                assert(found + frames_from(s) == found.push(frame@) + frames_from(
                    data@.skip(body + len),
                ));
                found = found.push(frame@);
            }
            out.push(frame);
        }
        pos = body + len;
    }
    proof {
        assert(found + Seq::<Seq<u8>>::empty() == found);
    }
    out
}

/// What is left of `data` once every complete frame at its front is taken.
pub fn remaining_after_frames(data: &[u8]) -> (out: Vec<u8>)
    ensures
        out@ == remaining_spec(data@),
{
    let mut offset: usize = 0;
    proof {
        assert(data@.skip(0) == data@);
    }
    while data.len() - offset >= 5
        invariant
            offset <= data@.len(),
            remaining_spec(data@) == remaining_spec(data@.skip(offset as int)),
        ensures
            remaining_spec(data@.skip(offset as int)) == data@.skip(offset as int),
        decreases data@.len() - offset,
    {
        let ghost s = data@.skip(offset as int);
        let len = (((data[offset + 1] as u32) << 24u32) | ((data[offset + 2] as u32) << 16u32) | ((
        data[offset + 3] as u32) << 8u32) | (data[offset + 4] as u32)) as usize;
        proof {
            assert(len == frame_len(s));
        }
        if len > data.len() - offset - 5 {
            break;
        }
        proof {
            assert(s.skip(5 + len) == data@.skip(offset + 5 + len));
        }
        offset = offset + 5 + len;
    }
    let out = vstd::slice::slice_to_vec(vstd::slice::slice_subrange(data, offset, data.len()));
    proof {
        assert(out@ == data@.skip(offset as int));
    }
    out
}

} // verus!
