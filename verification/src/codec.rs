//! The wire framing: a frame is a 4-byte big-endian payload length
//! followed by that many payload bytes.

use vstd::prelude::*;

verus! {

/// The largest payload a frame may carry.
pub const MAX_FRAME_LEN: usize = 16 * 1024 * 1024;

/// Why a buffer does not (yet) hold a frame.
#[derive(Clone, Copy, Debug, PartialEq, Eq, Structural)]
pub enum FrameError {
    /// More bytes are needed before the next frame is complete.
    Incomplete,
    /// The announced length exceeds the frame size limit.
    TooLong,
}

/// The four big-endian bytes of a 32-bit length.
pub open spec fn be32_bytes(n: int) -> Seq<u8>
    recommends
        0 <= n < 0x100000000,
{
    seq![
        (n / 0x1000000 % 0x100) as u8,
        (n / 0x10000 % 0x100) as u8,
        (n / 0x100 % 0x100) as u8,
        (n % 0x100) as u8,
    ]
}

/// The length announced by four big-endian bytes.
pub open spec fn be32_val(b: Seq<u8>) -> int
    recommends
        b.len() == 4,
{
    b[0] * 0x1000000 + b[1] * 0x10000 + b[2] * 0x100 + b[3]
}

/// A payload's frame: its length, big-endian, then its bytes.
pub open spec fn frame_bytes(payload: Seq<u8>) -> Seq<u8> {
    be32_bytes(payload.len() as int) + payload
}

/// What decoding the front of a buffer yields: the first frame's
/// payload and the number of bytes it occupied, or why there is none.
pub open spec fn parse_frame(buf: Seq<u8>) -> Result<(Seq<u8>, int), FrameError> {
    if buf.len() < 4 {
        Err(FrameError::Incomplete)
    } else {
        let len = be32_val(buf.subrange(0, 4));
        if len > MAX_FRAME_LEN {
            Err(FrameError::TooLong)
        } else if buf.len() < 4 + len {
            Err(FrameError::Incomplete)
        } else {
            Ok((buf.subrange(4, 4 + len), 4 + len))
        }
    }
}

/// Frame a payload for the wire.
pub fn encode_frame(payload: &Vec<u8>) -> (r: Vec<u8>)
    requires
        payload@.len() <= MAX_FRAME_LEN,
    ensures
        r@ == frame_bytes(payload@),
{
    let n = payload.len();
    let mut out: Vec<u8> = Vec::with_capacity(4 + n);
    out.push((n / 0x1000000 % 0x100) as u8);
    out.push((n / 0x10000 % 0x100) as u8);
    out.push((n / 0x100 % 0x100) as u8);
    out.push((n % 0x100) as u8);
    out.extend_from_slice(payload.as_slice());
    proof {
        assert(out@ =~= frame_bytes(payload@));
    }
    out
}

/// Decode the first frame at the front of a buffer. `Incomplete` asks
/// the caller to read more bytes; `TooLong` is fatal for the
/// connection.
pub fn decode_frame(buf: &Vec<u8>) -> (r: Result<(Vec<u8>, usize), FrameError>)
    ensures
        match r {
            Ok(frame) => parse_frame(buf@) == Ok::<(Seq<u8>, int), FrameError>(
                (frame.0@, frame.1 as int),
            ),
            Err(e) => parse_frame(buf@) == Err::<(Seq<u8>, int), FrameError>(e),
        },
{
    if buf.len() < 4 {
        return Err(FrameError::Incomplete);
    }
    let len: usize = (buf[0] as usize) * 0x1000000 + (buf[1] as usize) * 0x10000 + (buf[2] as usize)
        * 0x100 + (buf[3] as usize);
    proof {
        assert(buf@.subrange(0, 4)[0] == buf@[0]);
        assert(buf@.subrange(0, 4)[1] == buf@[1]);
        assert(buf@.subrange(0, 4)[2] == buf@[2]);
        assert(buf@.subrange(0, 4)[3] == buf@[3]);
        assert(len == be32_val(buf@.subrange(0, 4)));
    }
    if len > MAX_FRAME_LEN {
        return Err(FrameError::TooLong);
    }
    if buf.len() - 4 < len {
        return Err(FrameError::Incomplete);
    }
    let mut payload: Vec<u8> = Vec::with_capacity(len);
    let mut k: usize = 0;
    while k < len
        invariant
            k <= len,
            len <= MAX_FRAME_LEN,
            len + 4 <= buf@.len(),
            payload@ == buf@.subrange(4, 4 + k as int),
        decreases len - k,
    {
        payload.push(buf[4 + k]);
        proof {
            assert(payload@ =~= buf@.subrange(4, 4 + (k + 1) as int));
        }
        k = k + 1;
    }
    Ok((payload, 4 + len))
}

/// The four big-endian bytes of a 32-bit length announce that length.
pub proof fn lemma_be32_round_trip(n: int)
    requires
        0 <= n < 0x100000000,
    ensures
        be32_val(be32_bytes(n)) == n,
{
    let m = n as u64;
    assert((m / 0x1000000 % 0x100) * 0x1000000 + (m / 0x10000 % 0x100) * 0x10000 + (m / 0x100
        % 0x100) * 0x100 + (m % 0x100) == m) by (bit_vector)
        requires
            m < 0x100000000,
    ;
}

/// The codec round-trips exactly: decoding a buffer that starts with
/// a payload's frame yields that payload and consumes just the frame,
/// whatever follows it.
pub proof fn lemma_frame_round_trip(payload: Seq<u8>, extra: Seq<u8>)
    requires
        payload.len() <= MAX_FRAME_LEN,
    ensures
        parse_frame(frame_bytes(payload) + extra) == Ok::<(Seq<u8>, int), FrameError>(
            (payload, 4 + payload.len() as int),
        ),
{
    let buf = frame_bytes(payload) + extra;
    assert(buf.subrange(0, 4) =~= be32_bytes(payload.len() as int));
    lemma_be32_round_trip(payload.len() as int);
    assert(be32_val(buf.subrange(0, 4)) == payload.len());
    assert(buf.subrange(4, 4 + payload.len() as int) =~= payload);
}

} // verus!
