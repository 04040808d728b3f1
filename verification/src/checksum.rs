//! The checksum header that the service expects: six bytes of a
//! millisecond timestamp, scrambled, in base64, followed by a machine id.

use vstd::prelude::*;
use base64::engine::general_purpose::STANDARD;
use base64::Engine;

verus! {

/// The character of the standard base64 alphabet for a six-bit value:
/// `A`-`Z`, `a`-`z`, `0`-`9`, `+`, `/`.
pub open spec fn base64_digit(v: u8) -> char {
    if v < 26 {
        (65 + v) as char
    } else if v < 52 {
        (97 + v - 26) as char
    } else if v < 62 {
        (48 + v - 52) as char
    } else if v == 62 {
        '+'
    } else {
        '/'
    }
}

/// Standard base64 with padding: each group of three bytes becomes four
/// characters of six bits each, most significant first; a last group of
/// one or two bytes is filled with zero bits and ends in `==` or `=`.
pub open spec fn base64_standard(bytes: Seq<u8>) -> Seq<char>
    decreases bytes.len(),
{
    if bytes.len() == 0 {
        Seq::empty()
    } else if bytes.len() == 1 {
        let a = bytes[0];
        seq![base64_digit(a >> 2u8), base64_digit((a & 3) << 4u8), '=', '=']
    } else if bytes.len() == 2 {
        let (a, b) = (bytes[0], bytes[1]);
        seq![
            base64_digit(a >> 2u8),
            base64_digit(((a & 3) << 4u8) | (b >> 4u8)),
            base64_digit((b & 15) << 2u8),
            '=',
        ]
    } else {
        let (a, b, c) = (bytes[0], bytes[1], bytes[2]);
        seq![
            base64_digit(a >> 2u8),
            base64_digit(((a & 3) << 4u8) | (b >> 4u8)),
            base64_digit(((b & 15) << 2u8) | (c >> 6u8)),
            base64_digit(c & 63),
        ] + base64_standard(bytes.skip(3))
    }
}

/// Base64 gives four characters for each group of three bytes begun.
pub proof fn lemma_base64_len(bytes: Seq<u8>)
    ensures
        base64_standard(bytes).len() == 4 * ((bytes.len() + 2) / 3),
    decreases bytes.len(),
{
    if bytes.len() >= 3 {
        lemma_base64_len(bytes.skip(3));
    }
}

/// `Engine::encode` of the `STANDARD` engine of `base64`: standard base64
/// with padding (RFC 4648), as `base64_standard` states it. It panics where
/// the length of the result does not fit in `usize`, which `requires` rules
/// out.
#[verifier::external_body]
fn base64_encode(bytes: &[u8]) -> (s: String)
    requires
        4 * ((bytes@.len() + 2) / 3) <= usize::MAX,
    ensures
        s@ == base64_standard(bytes@),
{
    STANDARD.encode(bytes)
}

/// Bits 40 to 0 of a timestamp as six bytes, most significant first.
pub open spec fn timestamp_bytes(ts: u64) -> Seq<u8> {
    seq![
        ((ts >> 40u64) & 0xff) as u8,
        ((ts >> 32u64) & 0xff) as u8,
        ((ts >> 24u64) & 0xff) as u8,
        ((ts >> 16u64) & 0xff) as u8,
        ((ts >> 8u64) & 0xff) as u8,
        (ts & 0xff) as u8,
    ]
}

/// The six bytes of a timestamp spell its low 48 bits, most significant
/// first.
pub proof fn lemma_timestamp_bytes(ts: u64)
    ensures
        timestamp_bytes(ts).len() == 6,
        timestamp_bytes(ts)[0] * 0x100_0000_0000 + timestamp_bytes(ts)[1] * 0x1_0000_0000
            + timestamp_bytes(ts)[2] * 0x100_0000 + timestamp_bytes(ts)[3] * 0x1_0000
            + timestamp_bytes(ts)[4] * 0x100 + timestamp_bytes(ts)[5] == ts % 0x1_0000_0000_0000,
{
    let t = timestamp_bytes(ts);
    let (b0, b1, b2, b3, b4, b5) = (t[0], t[1], t[2], t[3], t[4], t[5]);
    assert(b0 as u64 * 0x100_0000_0000u64 + b1 as u64 * 0x1_0000_0000u64 + b2 as u64 * 0x100_0000u64
        + b3 as u64 * 0x1_0000u64 + b4 as u64 * 0x100u64 + b5 as u64 == ts & 0xffff_ffff_ffffu64)
        by (bit_vector)
        requires
            b0 == ((ts >> 40u64) & 0xff) as u8,
            b1 == ((ts >> 32u64) & 0xff) as u8,
            b2 == ((ts >> 24u64) & 0xff) as u8,
            b3 == ((ts >> 16u64) & 0xff) as u8,
            b4 == ((ts >> 8u64) & 0xff) as u8,
            b5 == (ts & 0xff) as u8,
    ;
    assert(ts & 0xffff_ffff_ffffu64 == ts % 0x1_0000_0000_0000u64) by (bit_vector);
}

/// The scrambling of `bytes`, the first at position `i`, with key `w`: each
/// byte becomes its xor with the key plus its position, modulo 256, and is
/// the key of the next.
pub open spec fn scramble_from(bytes: Seq<u8>, w: u8, i: nat) -> Seq<u8>
    decreases bytes.len(),
{
    if bytes.len() == 0 {
        Seq::empty()
    } else {
        let b = (((bytes[0] ^ w) as nat + i) % 256) as u8;
        seq![b] + scramble_from(bytes.drop_first(), b, i + 1)
    }
}

/// The scrambling of `bytes` with the first key 165.
pub open spec fn scramble(bytes: Seq<u8>) -> Seq<u8> {
    scramble_from(bytes, 165, 0)
}

/// Undoing the scrambling of `bytes`, the first at position `i`, with key
/// `w`: each byte less its position, modulo 256, xor the key, where each
/// scrambled byte is the key of the next.
pub open spec fn unscramble_from(bytes: Seq<u8>, w: u8, i: nat) -> Seq<u8>
    decreases bytes.len(),
{
    if bytes.len() == 0 {
        Seq::empty()
    } else {
        seq![(((bytes[0] as int - i) % 256) as u8) ^ w] + unscramble_from(
            bytes.drop_first(),
            bytes[0],
            i + 1,
        )
    }
}

/// The scrambling loses nothing: undoing it with the same first key gives
/// the bytes back, and it keeps their number.
pub proof fn lemma_scramble_undone(bytes: Seq<u8>, w: u8, i: nat)
    ensures
        unscramble_from(scramble_from(bytes, w, i), w, i) == bytes,
        scramble_from(bytes, w, i).len() == bytes.len(),
    decreases bytes.len(),
{
    if bytes.len() > 0 {
        let y = bytes[0];
        let x = y ^ w;
        let b = ((x as nat + i) % 256) as u8;
        let e = scramble_from(bytes, w, i);
        lemma_scramble_undone(bytes.drop_first(), b, i + 1);
        assert(e[0] == b);
        assert(e.drop_first() == scramble_from(bytes.drop_first(), b, i + 1));
        assert(((b as int - i) % 256) == x as int) by (nonlinear_arith)
            requires
                b as int == (x as int + i) % 256,
                0 <= x < 256,
                i >= 0,
        {
            assert((x as int + i) % 256 - i == x as int - 256 * ((x as int + i) / 256));
        }
        assert((x ^ w) == y) by (bit_vector)
            requires
                x == y ^ w,
        ;
        assert(seq![bytes[0]] + bytes.drop_first() == bytes);
    }
}

/// The checksum for timestamp `ts` (milliseconds since the Unix epoch) and
/// a machine id.
pub open spec fn checksum_spec(ts: u64, machine_id: Seq<char>) -> Seq<char> {
    base64_standard(scramble(timestamp_bytes(ts))) + machine_id
}

/// The checksum for timestamp `ts` (milliseconds since the Unix epoch) and
/// `machine_id`: eight characters of base64, then the machine id.
pub fn checksum_at(ts: u64, machine_id: &str) -> (s: String)
    ensures
        s@ == checksum_spec(ts, machine_id@),
        s@.len() == 8 + machine_id@.len(),
{
    let ts_bytes: Vec<u8> = vec![
        #[verifier::truncate] (((ts >> 40) & 0xff) as u8),
        #[verifier::truncate] (((ts >> 32) & 0xff) as u8),
        #[verifier::truncate] (((ts >> 24) & 0xff) as u8),
        #[verifier::truncate] (((ts >> 16) & 0xff) as u8),
        #[verifier::truncate] (((ts >> 8) & 0xff) as u8),
        #[verifier::truncate] ((ts & 0xff) as u8),
    ];
    let ghost raw = ts_bytes@;
    proof {
        assert(raw == timestamp_bytes(ts));
        assert(raw.skip(0) == raw);
        assert(Seq::<u8>::empty() + scramble_from(raw, 165, 0) == scramble_from(raw, 165, 0));
    }
    let mut out: Vec<u8> = Vec::new();
    let mut w: u8 = 165;
    let mut i: usize = 0;
    while i < ts_bytes.len()
        invariant
            i <= ts_bytes@.len(),
            out@.len() == i,
            ts_bytes@ == raw,
            raw.len() == 6,
            scramble(raw) == out@ + scramble_from(raw.skip(i as int), w, i as nat),
        decreases ts_bytes@.len() - i,
    {
        let b = (ts_bytes[i] ^ w).wrapping_add(#[verifier::truncate] (i as u8));
        proof {
            assert(raw.skip(i as int)[0] == ts_bytes@[i as int]);
            assert(raw.skip(i as int).drop_first() == raw.skip(i + 1));
            assert(out@.push(b) + scramble_from(raw.skip(i + 1), b, (i + 1) as nat) == out@ + (
            seq![b] + scramble_from(raw.skip(i + 1), b, (i + 1) as nat)));
        }
        out.push(b);
        w = b;
        i = i + 1;
    }
    proof {
        assert(out@ + Seq::<u8>::empty() == out@);
    }
    proof {
        lemma_base64_len(out@);
    }
    let mut s = base64_encode(out.as_slice());
    s.append(machine_id);
    s
}

} // verus!
