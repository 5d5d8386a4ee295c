//! Framing: each message travels as
//! `[length][seq|flags][payload][checksum hi][checksum lo][0x7e]`,
//! where `length` counts the whole frame and the checksum covers the
//! length byte, the header byte and the payload.
use vstd::prelude::*;
use vstd::slice::slice_subrange;
use vstd::slice::slice_to_vec;
use crate::msgblock::crc_of;
use crate::msgblock::klipper_crc;

verus! {

/// The byte that ends every frame.
pub const SYNC: u8 = 0x7e;

/// Length of a frame with an empty payload.
pub const MIN_FRAME_LEN: u8 = 5;

/// Largest payload that a one-byte length can frame.
pub const MAX_PAYLOAD: usize = 250;

/// High nibble of the header byte of frames the host sends.
pub const MESSAGE_DEST: u8 = 0x10;

/// Why a frame was rejected.
#[derive(Debug, Clone, Copy, PartialEq, Eq, Structural)]
pub enum FrameError {
    /// Fewer bytes than the frame needs are at hand.
    Truncated,
    /// The length byte is below the minimum frame length.
    BadLength,
    /// The transmitted checksum differs from the computed one.
    BadChecksum,
    /// The last byte is not the sync byte.
    BadSync,
}

/// A validated frame.
#[derive(Debug, Clone, PartialEq, Eq)]
pub struct Frame {
    /// Sequence number, the low nibble of the header byte.
    pub sequence: u8,
    /// The high nibble of the header byte.
    pub reserved: u8,
    pub payload: Vec<u8>,
}

/// The frame that carries `payload` with sequence number `seq`.
pub open spec fn frame_spec(seq: u8, payload: Seq<u8>) -> Seq<u8> {
    let head = seq![(payload.len() + 5) as u8, MESSAGE_DEST | seq] + payload;
    let c = crc_of(head);
    head + seq![(c >> 8u16) as u8, (c & 0xff) as u8, SYNC]
}

/// Checks the frame at the start of `b`; gives its length.
pub open spec fn frame_check(b: Seq<u8>) -> Result<nat, FrameError> {
    if b.len() == 0 {
        Err(FrameError::Truncated)
    } else if b[0] < MIN_FRAME_LEN {
        Err(FrameError::BadLength)
    } else if b.len() < b[0] {
        Err(FrameError::Truncated)
    } else {
        let n = b[0] as int;
        let c = crc_of(b.take(n - 3));
        if b[n - 3] != (c >> 8u16) as u8 || b[n - 2] != (c & 0xff) as u8 {
            Err(FrameError::BadChecksum)
        } else if b[n - 1] != SYNC {
            Err(FrameError::BadSync)
        } else {
            Ok(n as nat)
        }
    }
}

/// Payload of the frame at the start of `b`.
pub open spec fn frame_payload(b: Seq<u8>) -> Seq<u8> {
    b.subrange(2, b[0] - 3)
}

/// Sequence number of the frame at the start of `b`.
pub open spec fn frame_sequence(b: Seq<u8>) -> u8 {
    b[1] & 0x0f
}

/// Reserved nibble of the frame at the start of `b`.
pub open spec fn frame_reserved(b: Seq<u8>) -> u8 {
    b[1] >> 4u8
}

impl Frame {
    /// This frame is the one at the start of `b`.
    pub open spec fn read_from(self, b: Seq<u8>) -> bool {
        &&& self.sequence == frame_sequence(b)
        &&& self.reserved == frame_reserved(b)
        &&& self.payload@ == frame_payload(b)
    }
}

/// Frames `payload` with sequence number `seq`.
pub fn encode_frame(seq: u8, payload: &[u8]) -> (r: Vec<u8>)
    requires
        seq < 16,
        payload@.len() <= MAX_PAYLOAD,
    ensures
        r@ == frame_spec(seq, payload@),
{
    let mut out: Vec<u8> = Vec::new();
    out.push((payload.len() + 5) as u8);
    out.push(MESSAGE_DEST | seq);
    let mut i: usize = 0;
    while i < payload.len()
        invariant
            i <= payload@.len(),
            out@ == seq![(payload@.len() + 5) as u8, MESSAGE_DEST | seq] + payload@.take(i as int),
        decreases payload@.len() - i,
    {
        out.push(payload[i]);
        i += 1;
        assert(out@ =~= seq![(payload@.len() + 5) as u8, MESSAGE_DEST | seq] + payload@.take(
            i as int,
        ));
    }
    let ghost head = out@;
    assert(head =~= seq![(payload@.len() + 5) as u8, MESSAGE_DEST | seq] + payload@);
    let c = klipper_crc(out.as_slice());
    out.push((c >> 8u16) as u8);
    out.push((c & 0xff) as u16 as u8);
    out.push(SYNC);
    assert(out@ =~= frame_spec(seq, payload@));
    out
}

/// Checks the frame that starts at `pos`; gives its length.
pub fn check_frame(bytes: &[u8], pos: usize) -> (r: Result<usize, FrameError>)
    requires
        pos <= bytes@.len(),
    ensures
        match frame_check(bytes@.skip(pos as int)) {
            Ok(n) => r == Ok::<usize, FrameError>(n as usize),
            Err(e) => r == Err::<usize, FrameError>(e),
        },
{
    let ghost b = bytes@.skip(pos as int);
    let avail = bytes.len() - pos;
    if avail == 0 {
        return Err(FrameError::Truncated);
    }
    let n = bytes[pos];
    if n < MIN_FRAME_LEN {
        return Err(FrameError::BadLength);
    }
    if avail < n as usize {
        return Err(FrameError::Truncated);
    }
    let end = pos + n as usize;
    let body = slice_subrange(bytes, pos, end - 3);
    assert(body@ =~= b.take(n - 3));
    let c = klipper_crc(body);
    if bytes[end - 3] != (c >> 8u16) as u8 || bytes[end - 2] != (c & 0xff) as u16 as u8 {
        return Err(FrameError::BadChecksum);
    }
    if bytes[end - 1] != SYNC {
        return Err(FrameError::BadSync);
    }
    Ok(n as usize)
}

/// Decodes the frame at the start of `bytes`; gives it with its length.
pub fn decode_frame(bytes: &[u8]) -> (r: Result<(Frame, usize), FrameError>)
    ensures
        match frame_check(bytes@) {
            Ok(n) => r matches Ok((f, m)) && m == n && f.read_from(bytes@),
            Err(e) => r == Err::<(Frame, usize), FrameError>(e),
        },
{
    assert(bytes@.skip(0) =~= bytes@);
    match check_frame(bytes, 0) {
        Ok(n) => {
            let payload = slice_to_vec(slice_subrange(bytes, 2, n - 3));
            let f = Frame { sequence: bytes[1] & 0x0f, reserved: bytes[1] >> 4u8, payload };
            Ok((f, n))
        },
        Err(e) => Err(e),
    }
}

/// Framing a payload and checking the result gives a valid frame that
/// carries the same sequence number and payload.
pub proof fn lemma_frame_round_trip(seq: u8, payload: Seq<u8>)
    requires
        seq < 16,
        payload.len() <= MAX_PAYLOAD,
    ensures
        frame_check(frame_spec(seq, payload)) == Ok::<nat, FrameError>(payload.len() + 5),
        frame_payload(frame_spec(seq, payload)) == payload,
        frame_sequence(frame_spec(seq, payload)) == seq,
        frame_reserved(frame_spec(seq, payload)) == MESSAGE_DEST >> 4u8,
{
    let f = frame_spec(seq, payload);
    let head = seq![(payload.len() + 5) as u8, MESSAGE_DEST | seq] + payload;
    let n = payload.len() + 5;
    assert(f.take(n - 3) =~= head);
    assert(frame_payload(f) =~= payload);
    assert((MESSAGE_DEST | seq) & 0x0f == seq && (MESSAGE_DEST | seq) >> 4u8 == MESSAGE_DEST >> 4u8)
        by (bit_vector)
        requires
            seq < 16,
            MESSAGE_DEST == 0x10,
    ;
}

/// A valid frame at the front of a stream is read whole, with nothing
/// dropped before it, whatever bytes follow it; those stay for the next
/// read.
pub proof fn lemma_frame_then_rest(seq: u8, payload: Seq<u8>, rest: Seq<u8>)
    requires
        seq < 16,
        payload.len() <= MAX_PAYLOAD,
    ensures
        frame_check(frame_spec(seq, payload) + rest) == Ok::<nat, FrameError>(payload.len() + 5),
        resync_skip(frame_spec(seq, payload) + rest) == 0,
        frame_payload(frame_spec(seq, payload) + rest) == payload,
        frame_sequence(frame_spec(seq, payload) + rest) == seq,
        (frame_spec(seq, payload) + rest).skip(payload.len() + 5 as int) == rest,
{
    let f = frame_spec(seq, payload);
    let b = f + rest;
    let n = payload.len() + 5;
    lemma_frame_round_trip(seq, payload);
    assert(b.take(n - 3) =~= f.take(n - 3));
    assert(frame_payload(b) =~= frame_payload(f));
    assert(b.skip(n as int) =~= rest);
}

/// The first part of a valid frame, cut anywhere before its end, is kept
/// whole: it asks for more input and nothing of it is dropped.
pub proof fn lemma_partial_frame_kept(seq: u8, payload: Seq<u8>, k: int)
    requires
        seq < 16,
        payload.len() <= MAX_PAYLOAD,
        0 <= k < payload.len() + 5,
    ensures
        frame_check(frame_spec(seq, payload).take(k)) == Err::<nat, FrameError>(FrameError::Truncated),
        resync_skip(frame_spec(seq, payload).take(k)) == 0,
{
    let f = frame_spec(seq, payload);
    assert(f[0] == (payload.len() + 5) as u8);
}

/// `b` with bit `bit` of byte `i` inverted.
pub open spec fn flip_bit(b: Seq<u8>, i: int, bit: u8) -> Seq<u8> {
    b.update(i, b[i] ^ (1u8 << bit))
}

/// Inverting any single bit of a valid frame's checksum or sync byte makes
/// the frame fail its check: a checksum bit gives `BadChecksum`, a sync bit
/// `BadSync`.
pub proof fn lemma_trailer_corruption_rejected(seq: u8, payload: Seq<u8>, i: int, bit: u8)
    requires
        seq < 16,
        payload.len() <= MAX_PAYLOAD,
        payload.len() + 2 <= i < payload.len() + 5,
        bit < 8,
    ensures
        i < payload.len() + 4 ==> frame_check(flip_bit(frame_spec(seq, payload), i, bit)) == Err::<
            nat,
            FrameError,
        >(FrameError::BadChecksum),
        i == payload.len() + 4 ==> frame_check(flip_bit(frame_spec(seq, payload), i, bit))
            == Err::<nat, FrameError>(FrameError::BadSync),
{
    let f = frame_spec(seq, payload);
    let g = flip_bit(f, i, bit);
    let n = payload.len() + 5;
    lemma_frame_round_trip(seq, payload);
    assert(g.take(n - 3) =~= f.take(n - 3));
    let x = f[i];
    assert(x ^ (1u8 << bit) != x) by (bit_vector)
        requires
            bit < 8,
    ;
}

/// Number of bytes up to and including the first sync byte of `b`, or all
/// of `b` if it holds none.
pub open spec fn through_sync(b: Seq<u8>) -> nat
    decreases b.len(),
{
    if b.len() == 0 {
        0
    } else if b[0] == SYNC {
        1
    } else {
        1 + through_sync(b.drop_first())
    }
}

/// Number of bytes dropped before the next frame can be read or more input
/// is needed. When the frame that would start at the front is invalid, the
/// bytes through the next sync byte are dropped, and the next frame is
/// looked for after it.
pub open spec fn resync_skip(b: Seq<u8>) -> nat
    decreases b.len(),
{
    if b.len() == 0 {
        0
    } else {
        match frame_check(b) {
            Ok(_) => 0,
            Err(FrameError::Truncated) => 0,
            Err(_) => {
                let k = through_sync(b);
                if 1 <= k <= b.len() {
                    k + resync_skip(b.skip(k as int))
                } else {
                    b.len()
                }
            },
        }
    }
}

/// Position just after the first sync byte at or after `from`, or the end.
fn skip_through_sync(buf: &Vec<u8>, from: usize) -> (r: usize)
    requires
        from < buf@.len(),
    ensures
        r == from + through_sync(buf@.skip(from as int)),
        from < r <= buf@.len(),
{
    let mut i: usize = from;
    while i < buf.len()
        invariant
            from <= i <= buf@.len(),
            through_sync(buf@.skip(from as int)) == (i - from) + through_sync(buf@.skip(i as int)),
        decreases buf@.len() - i,
    {
        assert(buf@.skip(i as int).drop_first() =~= buf@.skip(i + 1));
        if buf[i] == SYNC {
            return i + 1;
        }
        i += 1;
    }
    assert(buf@.skip(i as int).len() == 0);
    i
}

/// Turns a byte stream, which may arrive in any pieces, into frames.
#[derive(Debug)]
pub struct FrameDecoder {
    /// Bytes received and not yet consumed.
    pub buf: Vec<u8>,
    /// Number of bytes dropped while resynchronising (saturating).
    pub discarded: u64,
}

impl FrameDecoder {
    pub fn new() -> (r: FrameDecoder)
        ensures
            r.buf@ == Seq::<u8>::empty(),
            r.discarded == 0,
    {
        FrameDecoder { buf: Vec::new(), discarded: 0 }
    }

    /// Appends received bytes.
    pub fn push(&mut self, data: &[u8])
        ensures
            final(self).buf@ == old(self).buf@ + data@,
            final(self).discarded == old(self).discarded,
    {
        let ghost start = self.buf@;
        let mut i: usize = 0;
        while i < data.len()
            invariant
                i <= data@.len(),
                self.buf@ == start + data@.take(i as int),
                self.discarded == old(self).discarded,
            decreases data@.len() - i,
        {
            self.buf.push(data[i]);
            i += 1;
            assert(self.buf@ =~= start + data@.take(i as int));
        }
        assert(data@.take(i as int) =~= data@);
    }

    /// The decoder went from `pre` to `post` and gave `r` when asked for the
    /// next frame: bytes that start no valid frame were dropped and counted,
    /// then the first frame, if complete, was taken.
    pub open spec fn next_frame_post(pre: FrameDecoder, post: FrameDecoder, r: Option<Frame>) -> bool {
        let b = pre.buf@;
        let rest = b.skip(resync_skip(b) as int);
        &&& post.discarded == if pre.discarded + resync_skip(b) > u64::MAX {
            u64::MAX as int
        } else {
            pre.discarded + resync_skip(b)
        }
        &&& match frame_check(rest) {
            Ok(n) => r matches Some(f) && f.read_from(rest) && post.buf@ == rest.skip(n as int),
            Err(_) => r is None && post.buf@ == rest,
        }
    }

    /// Takes the next valid frame, dropping the bytes before it that start
    /// no valid frame. Gives `None` when the buffered bytes end before a
    /// frame is complete; they stay buffered.
    pub fn next_frame(&mut self) -> (r: Option<Frame>)
        ensures
            Self::next_frame_post(*old(self), *final(self), r),
    {
        let ghost b = self.buf@;
        let total = self.buf.len();
        let mut start: usize = 0;
        assert(b.skip(0) =~= b);
        loop
            invariant
                start <= b.len(),
                b == old(self).buf@,
                self.buf@ == b,
                total == b.len(),
                self.discarded == old(self).discarded,
                resync_skip(b) == start + resync_skip(b.skip(start as int)),
            decreases b.len() - start,
        {
            let ghost here = b.skip(start as int);
            let checked = check_frame(self.buf.as_slice(), start);
            match checked {
                Ok(n) => {
                    assert(resync_skip(here) == 0);
                    let rest_slice = slice_subrange(self.buf.as_slice(), start, self.buf.len());
                    assert(rest_slice@ =~= here);
                    let decoded = decode_frame(rest_slice);
                    let tail = self.buf.split_off(start + n);
                    self.buf = tail;
                    assert(self.buf@ =~= here.skip(n as int));
                    self.add_discarded(start);
                    match decoded {
                        Ok((f, _)) => {
                            return Some(f);
                        },
                        Err(_) => {
                            return None;
                        },
                    }
                },
                Err(FrameError::Truncated) => {
                    assert(resync_skip(here) == 0);
                    let tail = self.buf.split_off(start);
                    self.buf = tail;
                    assert(self.buf@ =~= here);
                    self.add_discarded(start);
                    return None;
                },
                Err(_) => {
                    assert(here.len() == b.len() - start);
                    let next = skip_through_sync(&self.buf, start);
                    assert(here.skip(next - start) =~= b.skip(next as int));
                    start = next;
                },
            }
        }
    }

    fn add_discarded(&mut self, n: usize)
        ensures
            final(self).buf == old(self).buf,
            final(self).discarded == if old(self).discarded + n > u64::MAX {
                u64::MAX as int
            } else {
                old(self).discarded + n
            },
    {
        if n as u64 > u64::MAX - self.discarded {
            self.discarded = u64::MAX;
        } else {
            self.discarded = self.discarded + n as u64;
        }
    }
}

} // verus!
