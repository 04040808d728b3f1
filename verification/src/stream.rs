//! The decisions taken on each chunk of a streamed response: the chunk goes
//! behind what the previous chunks left over, every complete frame is
//! decoded, and the stream ends at the message that says so.

use vstd::prelude::*;
use crate::decode::{
    CppResponseView, StreamCppResponse, StreamNextCursorResponse, decode_cpp_spec,
    decode_next_cursor_spec, decode_stream_cpp_response, decode_stream_next_cursor_response,
};
use crate::frame::{
    frames_from, remaining_spec, parse_frames, remaining_after_frames, lemma_frames_across_chunks,
};

verus! {

/// The completion messages decoded from `frames`, in order, up to and
/// including the first that marks the stream done; and whether there was
/// such a message.
pub open spec fn cpp_until_done(frames: Seq<Seq<u8>>) -> (Seq<CppResponseView>, bool)
    decreases frames.len(),
{
    if frames.len() == 0 {
        (Seq::empty(), false)
    } else {
        let m = decode_cpp_spec(frames[0]);
        if m.done_stream == Some(true) {
            (seq![m], true)
        } else {
            let rest = cpp_until_done(frames.drop_first());
            (seq![m] + rest.0, rest.1)
        }
    }
}

/// The next-cursor messages decoded from `frames`, in order, up to and
/// including the first that says the prediction is out of range; and
/// whether there was such a message.
pub open spec fn next_cursor_until_out_of_range(frames: Seq<Seq<u8>>) -> (Seq<(i32, bool)>, bool)
    decreases frames.len(),
{
    if frames.len() == 0 {
        (Seq::empty(), false)
    } else {
        let m = decode_next_cursor_spec(frames[0]);
        if m.1 {
            (seq![m], true)
        } else {
            let rest = next_cursor_until_out_of_range(frames.drop_first());
            (seq![m] + rest.0, rest.1)
        }
    }
}

/// The state of a completion stream: the bytes of an incomplete frame, and
/// the messages received so far.
pub struct CppStream {
    leftover: Vec<u8>,
    results: Vec<StreamCppResponse>,
}

impl CppStream {
    /// The bytes kept for the next chunk.
    pub closed spec fn pending(&self) -> Seq<u8> {
        self.leftover@
    }

    /// The messages received so far.
    pub closed spec fn received(&self) -> Seq<CppResponseView> {
        self.results@.map_values(|r: StreamCppResponse| r@)
    }

    /// A stream that has received nothing.
    pub fn new() -> (s: Self)
        ensures
            s.pending() == Seq::<u8>::empty(),
            s.received() == Seq::<CppResponseView>::empty(),
    {
        CppStream { leftover: Vec::new(), results: Vec::new() }
    }

    /// The length of the bytes kept for the next chunk.
    pub fn pending_len(&self) -> (n: usize)
        ensures
            n == self.pending().len(),
    {
        self.leftover.len()
    }

    /// Takes in one chunk: decodes each complete frame of what was kept
    /// followed by the chunk, stopping after the message that marks the
    /// stream done, and tells whether it came. Unless it came, what is left
    /// of the bytes is kept for the next chunk.
    pub fn on_chunk(&mut self, chunk: &[u8]) -> (done: bool)
        requires
            old(self).pending().len() + chunk@.len() <= isize::MAX,
        ensures
            final(self).received() == old(self).received() + cpp_until_done(
                frames_from(old(self).pending() + chunk@),
            ).0,
            done == cpp_until_done(frames_from(old(self).pending() + chunk@)).1,
            !done ==> final(self).pending() == remaining_spec(old(self).pending() + chunk@),
    {
        let ghost bytes = self.leftover@ + chunk@;
        let ghost before = self.received();
        let mut i: usize = 0;
        while i < chunk.len()
            invariant
                i <= chunk@.len(),
                self.leftover@ == old(self).leftover@ + chunk@.take(i as int),
                self.results == old(self).results,
            decreases chunk@.len() - i,
        {
            self.leftover.push(chunk[i]);
            proof {
                assert(chunk@.take(i + 1) == chunk@.take(i as int).push(chunk@[i as int]));
            }
            i = i + 1;
        }
        proof {
            assert(chunk@.take(chunk@.len() as int) == chunk@);
        }
        let frames = parse_frames(self.leftover.as_slice());
        let ghost all = frames_from(bytes);
        let mut k: usize = 0;
        let ghost mut got: Seq<CppResponseView> = Seq::empty();
        proof {
            assert(all.skip(0) == all);
            assert(before + Seq::<CppResponseView>::empty() == before);
        }
        while k < frames.len()
            invariant
                k <= frames@.len(),
                frames@.len() == all.len(),
                all == frames_from(bytes),
                bytes == self.leftover@,
                bytes == old(self).leftover@ + chunk@,
                before == old(self).received(),
                forall|j: int| 0 <= j < frames@.len() ==> #[trigger] frames@[j]@ == all[j],
                self.received() == before + got,
                cpp_until_done(all) == ({
                    let r = cpp_until_done(all.skip(k as int));
                    (got + r.0, r.1)
                }),
            decreases frames@.len() - k,
        {
            let msg = decode_stream_cpp_response(frames[k].as_slice());
            let done = match msg.done_stream {
                Some(d) => d,
                None => false,
            };
            let ghost m = msg@;
            proof {
                let rk = all.skip(k as int);
                assert(rk[0] == all[k as int]);
                assert(rk.drop_first() == all.skip(k + 1));
                assert(decode_cpp_spec(rk[0]) == m);
                if done {
                    assert(cpp_until_done(rk) == (seq![m], true));
                    assert(got + seq![m] == got.push(m));
                }
            }
            let ghost prev = self.results@;
            let ghost prev_received = self.received();
            self.results.push(msg);
            proof {
                assert(self.received() =~= prev_received.push(m));
                assert(prev_received.push(m) == before + got.push(m));
                assert(got + (seq![m] + cpp_until_done(all.skip(k + 1)).0) == got.push(m)
                    + cpp_until_done(all.skip(k + 1)).0);
                got = got.push(m);
            }
            if done {
                proof {
                    assert(got + Seq::<CppResponseView>::empty() == got);
                }
                return true;
            }
            k = k + 1;
        }
        proof {
            assert(all.skip(k as int).len() == 0);
            assert(got + Seq::<CppResponseView>::empty() == got);
        }
        self.leftover = remaining_after_frames(self.leftover.as_slice());
        false
    }

    /// The messages received, as values.
    pub fn into_results(self) -> (r: Vec<StreamCppResponse>)
        ensures
            r@.map_values(|m: StreamCppResponse| m@) == self.received(),
    {
        self.results
    }
}

/// The state of a next-cursor stream: the bytes of an incomplete frame, and
/// the messages received so far.
pub struct NextCursorStream {
    leftover: Vec<u8>,
    results: Vec<StreamNextCursorResponse>,
}

impl NextCursorStream {
    /// The bytes kept for the next chunk.
    pub closed spec fn pending(&self) -> Seq<u8> {
        self.leftover@
    }

    /// The messages received so far, as `(line_number, is_not_in_range)`.
    pub closed spec fn received(&self) -> Seq<(i32, bool)> {
        self.results@.map_values(|r: StreamNextCursorResponse| (r.line_number, r.is_not_in_range))
    }

    /// A stream that has received nothing.
    pub fn new() -> (s: Self)
        ensures
            s.pending() == Seq::<u8>::empty(),
            s.received() == Seq::<(i32, bool)>::empty(),
    {
        NextCursorStream { leftover: Vec::new(), results: Vec::new() }
    }

    /// The length of the bytes kept for the next chunk.
    pub fn pending_len(&self) -> (n: usize)
        ensures
            n == self.pending().len(),
    {
        self.leftover.len()
    }

    /// Takes in one chunk: decodes each complete frame of what was kept
    /// followed by the chunk, stopping after the message that says the
    /// prediction is out of range, and tells whether it came. Unless it
    /// came, what is left of the bytes is kept for the next chunk.
    pub fn on_chunk(&mut self, chunk: &[u8]) -> (out_of_range: bool)
        requires
            old(self).pending().len() + chunk@.len() <= isize::MAX,
        ensures
            final(self).received() == old(self).received() + next_cursor_until_out_of_range(
                frames_from(old(self).pending() + chunk@),
            ).0,
            out_of_range == next_cursor_until_out_of_range(
                frames_from(old(self).pending() + chunk@),
            ).1,
            !out_of_range ==> final(self).pending() == remaining_spec(
                old(self).pending() + chunk@,
            ),
    {
        let ghost bytes = self.leftover@ + chunk@;
        let ghost before = self.received();
        let mut i: usize = 0;
        while i < chunk.len()
            invariant
                i <= chunk@.len(),
                self.leftover@ == old(self).leftover@ + chunk@.take(i as int),
                self.results == old(self).results,
            decreases chunk@.len() - i,
        {
            self.leftover.push(chunk[i]);
            proof {
                assert(chunk@.take(i + 1) == chunk@.take(i as int).push(chunk@[i as int]));
            }
            i = i + 1;
        }
        proof {
            assert(chunk@.take(chunk@.len() as int) == chunk@);
        }
        let frames = parse_frames(self.leftover.as_slice());
        let ghost all = frames_from(bytes);
        let mut k: usize = 0;
        let ghost mut got: Seq<(i32, bool)> = Seq::empty();
        proof {
            assert(all.skip(0) == all);
            assert(before + Seq::<(i32, bool)>::empty() == before);
        }
        while k < frames.len()
            invariant
                k <= frames@.len(),
                frames@.len() == all.len(),
                all == frames_from(bytes),
                bytes == self.leftover@,
                bytes == old(self).leftover@ + chunk@,
                before == old(self).received(),
                forall|j: int| 0 <= j < frames@.len() ==> #[trigger] frames@[j]@ == all[j],
                self.received() == before + got,
                next_cursor_until_out_of_range(all) == ({
                    let r = next_cursor_until_out_of_range(all.skip(k as int));
                    (got + r.0, r.1)
                }),
            decreases frames@.len() - k,
        {
            let msg = decode_stream_next_cursor_response(frames[k].as_slice());
            let not_in_range = msg.is_not_in_range;
            let ghost m = (msg.line_number, msg.is_not_in_range);
            proof {
                let rk = all.skip(k as int);
                assert(rk[0] == all[k as int]);
                assert(rk.drop_first() == all.skip(k + 1));
                assert(decode_next_cursor_spec(rk[0]) == m);
                if not_in_range {
                    assert(next_cursor_until_out_of_range(rk) == (seq![m], true));
                    assert(got + seq![m] == got.push(m));
                }
            }
            let ghost prev = self.results@;
            let ghost prev_received = self.received();
            self.results.push(msg);
            proof {
                assert(self.received() =~= prev_received.push(m));
                assert(prev_received.push(m) == before + got.push(m));
                assert(got + (seq![m] + next_cursor_until_out_of_range(all.skip(k + 1)).0)
                    == got.push(m) + next_cursor_until_out_of_range(all.skip(k + 1)).0);
                got = got.push(m);
            }
            if not_in_range {
                proof {
                    assert(got + Seq::<(i32, bool)>::empty() == got);
                }
                return true;
            }
            k = k + 1;
        }
        proof {
            assert(all.skip(k as int).len() == 0);
            assert(got + Seq::<(i32, bool)>::empty() == got);
        }
        self.leftover = remaining_after_frames(self.leftover.as_slice());
        false
    }

    /// The messages received.
    pub fn into_results(self) -> (r: Vec<StreamNextCursorResponse>)
        ensures
            r@.map_values(|m: StreamNextCursorResponse| (m.line_number, m.is_not_in_range))
                == self.received(),
    {
        self.results
    }
}

proof fn lemma_cpp_until_done_append(x: Seq<Seq<u8>>, y: Seq<Seq<u8>>)
    requires
        !cpp_until_done(x).1,
    ensures
        cpp_until_done(x + y) == (cpp_until_done(x).0 + cpp_until_done(y).0, cpp_until_done(y).1),
    decreases x.len(),
{
    if x.len() == 0 {
        assert(x + y == y);
        assert(Seq::<CppResponseView>::empty() + cpp_until_done(y).0 == cpp_until_done(y).0);
    } else {
        assert((x + y)[0] == x[0]);
        assert((x + y).drop_first() == x.drop_first() + y);
        lemma_cpp_until_done_append(x.drop_first(), y);
        let m = decode_cpp_spec(x[0]);
        assert(seq![m] + cpp_until_done(x.drop_first()).0 + cpp_until_done(y).0 == seq![m] + (
        cpp_until_done(x.drop_first()).0 + cpp_until_done(y).0));
    }
}

proof fn lemma_next_cursor_until_append(x: Seq<Seq<u8>>, y: Seq<Seq<u8>>)
    requires
        !next_cursor_until_out_of_range(x).1,
    ensures
        next_cursor_until_out_of_range(x + y) == (
            next_cursor_until_out_of_range(x).0 + next_cursor_until_out_of_range(y).0,
            next_cursor_until_out_of_range(y).1,
        ),
    decreases x.len(),
{
    if x.len() == 0 {
        assert(x + y == y);
        assert(Seq::<(i32, bool)>::empty() + next_cursor_until_out_of_range(y).0
            == next_cursor_until_out_of_range(y).0);
    } else {
        assert((x + y)[0] == x[0]);
        assert((x + y).drop_first() == x.drop_first() + y);
        lemma_next_cursor_until_append(x.drop_first(), y);
        let m = decode_next_cursor_spec(x[0]);
        assert(seq![m] + next_cursor_until_out_of_range(x.drop_first()).0
            + next_cursor_until_out_of_range(y).0 == seq![m] + (next_cursor_until_out_of_range(
            x.drop_first(),
        ).0 + next_cursor_until_out_of_range(y).0));
    }
}

/// A completion stream fed chunk `a` and then chunk `b` receives what it
/// would receive from `a` and `b` joined into one chunk, keeps the same
/// bytes, and ends at the same message: how the bytes are cut into chunks
/// does not matter.
pub proof fn lemma_cpp_chunks_compose(kept: Seq<u8>, a: Seq<u8>, b: Seq<u8>)
    requires
        !cpp_until_done(frames_from(kept + a)).1,
    ensures
        cpp_until_done(frames_from(kept + a)).0 + cpp_until_done(
            frames_from(remaining_spec(kept + a) + b),
        ).0 == cpp_until_done(frames_from(kept + (a + b))).0,
        cpp_until_done(frames_from(remaining_spec(kept + a) + b)).1 == cpp_until_done(
            frames_from(kept + (a + b)),
        ).1,
        remaining_spec(remaining_spec(kept + a) + b) == remaining_spec(kept + (a + b)),
{
    assert(kept + (a + b) == (kept + a) + b);
    lemma_frames_across_chunks(kept + a, b);
    lemma_cpp_until_done_append(
        frames_from(kept + a),
        frames_from(remaining_spec(kept + a) + b),
    );
}

/// A next-cursor stream fed chunk `a` and then chunk `b` receives what it
/// would receive from `a` and `b` joined into one chunk, keeps the same
/// bytes, and ends at the same message.
pub proof fn lemma_next_cursor_chunks_compose(kept: Seq<u8>, a: Seq<u8>, b: Seq<u8>)
    requires
        !next_cursor_until_out_of_range(frames_from(kept + a)).1,
    ensures
        next_cursor_until_out_of_range(frames_from(kept + a)).0 + next_cursor_until_out_of_range(
            frames_from(remaining_spec(kept + a) + b),
        ).0 == next_cursor_until_out_of_range(frames_from(kept + (a + b))).0,
        next_cursor_until_out_of_range(frames_from(remaining_spec(kept + a) + b)).1
            == next_cursor_until_out_of_range(frames_from(kept + (a + b))).1,
        remaining_spec(remaining_spec(kept + a) + b) == remaining_spec(kept + (a + b)),
{
    assert(kept + (a + b) == (kept + a) + b);
    lemma_frames_across_chunks(kept + a, b);
    lemma_next_cursor_until_append(
        frames_from(kept + a),
        frames_from(remaining_spec(kept + a) + b),
    );
}

/// The completion messages that frames decode to.
pub open spec fn decoded_cpp(frames: Seq<Seq<u8>>) -> Seq<CppResponseView> {
    frames.map_values(|f: Seq<u8>| decode_cpp_spec(f))
}

/// Where no frame marks the stream done, every frame's message is
/// received, in order, and the stream goes on.
pub proof fn lemma_cpp_until_done_none(frames: Seq<Seq<u8>>)
    requires
        forall|k: int|
            0 <= k < frames.len() ==> decode_cpp_spec(#[trigger] frames[k]).done_stream != Some(
                true,
            ),
    ensures
        cpp_until_done(frames) == (decoded_cpp(frames), false),
    decreases frames.len(),
{
    if frames.len() > 0 {
        assert forall|k: int| 0 <= k < frames.drop_first().len() implies decode_cpp_spec(
            #[trigger] frames.drop_first()[k],
        ).done_stream != Some(true) by {
            assert(frames.drop_first()[k] == frames[k + 1]);
        }
        lemma_cpp_until_done_none(frames.drop_first());
        assert(decode_cpp_spec(frames[0]).done_stream != Some(true));
        assert(seq![decode_cpp_spec(frames[0])] + decoded_cpp(frames.drop_first()) =~= decoded_cpp(
            frames,
        ));
    } else {
        assert(decoded_cpp(frames) =~= Seq::<CppResponseView>::empty());
    }
}

/// The stream ends at the first frame that marks it done: the messages of
/// the frames up to and including it are received, in order, and no later
/// one.
pub proof fn lemma_cpp_until_done_first(frames: Seq<Seq<u8>>, j: int)
    requires
        0 <= j < frames.len(),
        decode_cpp_spec(frames[j]).done_stream == Some(true),
        forall|k: int|
            0 <= k < j ==> decode_cpp_spec(#[trigger] frames[k]).done_stream != Some(true),
    ensures
        cpp_until_done(frames) == (decoded_cpp(frames.take(j + 1)), true),
    decreases j,
{
    if j == 0 {
        assert(decoded_cpp(frames.take(1)) =~= seq![decode_cpp_spec(frames[0])]);
    } else {
        let rest = frames.drop_first();
        assert(rest[j - 1] == frames[j]);
        assert forall|k: int| 0 <= k < j - 1 implies decode_cpp_spec(#[trigger] rest[k]).done_stream
            != Some(true) by {
            assert(rest[k] == frames[k + 1]);
        }
        assert(decode_cpp_spec(frames[0]).done_stream != Some(true));
        lemma_cpp_until_done_first(rest, j - 1);
        assert(seq![decode_cpp_spec(frames[0])] + decoded_cpp(rest.take(j)) =~= decoded_cpp(
            frames.take(j + 1),
        ));
    }
}

/// The next-cursor messages that frames decode to.
pub open spec fn decoded_next_cursor(frames: Seq<Seq<u8>>) -> Seq<(i32, bool)> {
    frames.map_values(|f: Seq<u8>| decode_next_cursor_spec(f))
}

/// Where no frame says the prediction is out of range, every frame's
/// message is received, in order, and the stream goes on.
pub proof fn lemma_next_cursor_until_none(frames: Seq<Seq<u8>>)
    requires
        forall|k: int| 0 <= k < frames.len() ==> !decode_next_cursor_spec(#[trigger] frames[k]).1,
    ensures
        next_cursor_until_out_of_range(frames) == (decoded_next_cursor(frames), false),
    decreases frames.len(),
{
    if frames.len() > 0 {
        assert forall|k: int| 0 <= k < frames.drop_first().len() implies !decode_next_cursor_spec(
            #[trigger] frames.drop_first()[k],
        ).1 by {
            assert(frames.drop_first()[k] == frames[k + 1]);
        }
        lemma_next_cursor_until_none(frames.drop_first());
        assert(!decode_next_cursor_spec(frames[0]).1);
        assert(seq![decode_next_cursor_spec(frames[0])] + decoded_next_cursor(frames.drop_first())
            =~= decoded_next_cursor(frames));
    } else {
        assert(decoded_next_cursor(frames) =~= Seq::<(i32, bool)>::empty());
    }
}

/// The stream ends at the first frame that says the prediction is out of
/// range: the messages of the frames up to and including it are received,
/// in order, and no later one.
pub proof fn lemma_next_cursor_until_first(frames: Seq<Seq<u8>>, j: int)
    requires
        0 <= j < frames.len(),
        decode_next_cursor_spec(frames[j]).1,
        forall|k: int| 0 <= k < j ==> !decode_next_cursor_spec(#[trigger] frames[k]).1,
    ensures
        next_cursor_until_out_of_range(frames) == (decoded_next_cursor(frames.take(j + 1)), true),
    decreases j,
{
    if j == 0 {
        assert(decoded_next_cursor(frames.take(1)) =~= seq![decode_next_cursor_spec(frames[0])]);
    } else {
        let rest = frames.drop_first();
        assert(rest[j - 1] == frames[j]);
        assert forall|k: int| 0 <= k < j - 1 implies !decode_next_cursor_spec(
            #[trigger] rest[k],
        ).1 by {
            assert(rest[k] == frames[k + 1]);
        }
        assert(!decode_next_cursor_spec(frames[0]).1);
        lemma_next_cursor_until_first(rest, j - 1);
        assert(seq![decode_next_cursor_spec(frames[0])] + decoded_next_cursor(rest.take(j))
            =~= decoded_next_cursor(frames.take(j + 1)));
    }
}

} // verus!
