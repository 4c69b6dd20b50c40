//! Framing of encoded messages on a byte stream: each message is preceded by
//! its length as a 4-byte big-endian integer.
use vstd::prelude::*;
use std::marker::PhantomData;

verus! {

/// The big-endian integer in the first four bytes of `b`.
pub open spec fn be_u32_value(b: Seq<u8>) -> nat {
    (b[0] as nat) * 16777216 + (b[1] as nat) * 65536 + (b[2] as nat) * 256 + (b[3] as nat)
}

/// The four big-endian bytes of `n`.
pub open spec fn be_bytes(n: u32) -> Seq<u8> {
    seq![
        (n / 16777216) as u8,
        ((n / 65536) % 256) as u8,
        ((n / 256) % 256) as u8,
        (n % 256) as u8,
    ]
}

/// A frame: the length header (the length taken modulo 2^32, as a `u32` cast
/// takes it), then the bytes.
pub open spec fn frame(bytes: Seq<u8>) -> Seq<u8> {
    be_bytes(bytes.len() as u32) + bytes
}

/// One step of the decoder on the buffered bytes `buf`, given the length of the
/// frame whose header it has already read (if any): with no pending length and
/// at least four bytes buffered, it reads (and removes) the header.
pub open spec fn decode_step(pending: Option<usize>, buf: Seq<u8>) -> (Option<usize>, Seq<u8>) {
    match pending {
        None => if buf.len() < 4 {
            (None, buf)
        } else {
            (Some(be_u32_value(buf) as usize), buf.skip(4))
        },
        Some(n) => (Some(n), buf),
    }
}

/// The length of a complete frame body at the front of the buffer, if one is there.
pub open spec fn ready_len(pending: Option<usize>, buf: Seq<u8>) -> Option<usize> {
    match pending {
        Some(n) => if buf.len() >= n {
            Some(n)
        } else {
            None
        },
        None => None,
    }
}

/// One `decode` of a frame on the decoder state `(pending, buf)`:
/// `decode_frame_len`, then, when a body is complete, `frame_decoded`. Gives
/// the body, if one is complete, and the state afterwards.
pub open spec fn decode_call(pending: Option<usize>, buf: Seq<u8>) -> (Option<Seq<u8>>, Option<usize>, Seq<u8>) {
    let (p, b) = decode_step(pending, buf);
    match ready_len(p, b) {
        Some(n) => (Some(b.take(n as int)), None, b.skip(n as int)),
        None => (None, p, b),
    }
}

/// The size that shrinks with every decode that gives a body.
pub open spec fn decode_measure(pending: Option<usize>, buf: Seq<u8>) -> nat {
    2 * buf.len() + if pending is Some { 1nat } else { 0nat }
}

/// Decoding again and again, as a stream reader does once bytes arrive, until
/// a decode gives no body: the bodies in order, and the state then.
pub open spec fn drain(pending: Option<usize>, buf: Seq<u8>) -> (Seq<Seq<u8>>, Option<usize>, Seq<u8>)
    decreases decode_measure(pending, buf),
{
    let (r, p, b) = decode_call(pending, buf);
    match r {
        Some(body) => if decode_measure(p, b) < decode_measure(pending, buf) {
            let (rest, p2, b2) = drain(p, b);
            (seq![body] + rest, p2, b2)
        } else {
            (seq![body], p, b)
        },
        None => (Seq::empty(), p, b),
    }
}

/// The bytes arriving in `chunks`, one after another, each followed by a drain:
/// all the bodies decoded, in order, and the state at the end.
pub open spec fn feed(pending: Option<usize>, buf: Seq<u8>, chunks: Seq<Seq<u8>>) -> (Seq<Seq<u8>>, Option<usize>, Seq<u8>)
    decreases chunks.len(),
{
    if chunks.len() == 0 {
        (Seq::empty(), pending, buf)
    } else {
        let (out, p, b) = drain(pending, buf + chunks[0]);
        let (out2, p2, b2) = feed(p, b, chunks.drop_first());
        (out + out2, p2, b2)
    }
}

/// The frames of `bodies`, one after another.
pub open spec fn frames(bodies: Seq<Seq<u8>>) -> Seq<u8>
    decreases bodies.len(),
{
    if bodies.len() == 0 {
        Seq::empty()
    } else {
        frame(bodies[0]) + frames(bodies.drop_first())
    }
}

/// Every body fits the length header.
pub open spec fn framable(bodies: Seq<Seq<u8>>) -> bool {
    forall|i: int| 0 <= i < bodies.len() ==> (#[trigger] bodies[i]).len() <= u32::MAX
}

/// The codec that frames messages on a byte stream. It remembers the length of
/// a frame whose header it has read and whose body has not fully arrived.
pub struct CborCodec<TEncode, TDecode> {
    msg_len: Option<usize>,
    e: PhantomData<TEncode>,
    d: PhantomData<TDecode>,
}

impl<TEncode, TDecode> CborCodec<TEncode, TDecode> {
    /// The length of the frame in progress, if its header has been read.
    pub closed spec fn pending(self) -> Option<usize> {
        self.msg_len
    }

    /// A codec with no frame in progress.
    pub fn new() -> (c: Self)
        ensures
            c.pending() is None,
    {
        CborCodec { e: PhantomData, d: PhantomData, msg_len: None }
    }

    /// Reads a length header from the front of `src` if none is pending and
    /// four bytes are there, then reports the length of the frame body when all
    /// of it is buffered (the body then starts at the front of `src`).
    pub fn decode_frame_len(&mut self, src: &mut Vec<u8>) -> (r: Option<usize>)
        ensures
            (final(self).pending(), final(src)@) == decode_step(old(self).pending(), old(src)@),
            r == ready_len(final(self).pending(), final(src)@),
    {
        if self.msg_len.is_none() {
            if src.len() < 4 {
                return None;
            }
            let b0 = src[0] as u32;
            let b1 = src[1] as u32;
            let b2 = src[2] as u32;
            let b3 = src[3] as u32;
            let n: u32 = b0 * 16777216 + b1 * 65536 + b2 * 256 + b3;
            let rest = src.split_off(4);
            *src = rest;
            self.msg_len = Some(n as usize);
        }
        match self.msg_len {
            Some(n) => if src.len() >= n {
                Some(n)
            } else {
                None
            },
            None => None,
        }
    }

    /// Removes the decoded frame body from the front of `src`; no frame is
    /// pending afterwards.
    pub fn frame_decoded(&mut self, src: &mut Vec<u8>)
        requires
            old(self).pending() matches Some(n) && old(src)@.len() >= n,
        ensures
            final(self).pending() is None,
            final(src)@ == old(src)@.skip(old(self).pending().unwrap() as int),
    {
        let n = self.msg_len.unwrap();
        let rest = src.split_off(n);
        *src = rest;
        self.msg_len = None;
    }

    /// Appends the frame of `bytes` to `dst`.
    pub fn encode_frame(&self, bytes: &[u8], dst: &mut Vec<u8>)
        ensures
            final(dst)@ == old(dst)@ + frame(bytes@),
    {
        #[verifier::truncate]
        let n: u32 = bytes.len() as u32;
        dst.push((n / 16777216) as u8);
        dst.push(((n / 65536) % 256) as u8);
        dst.push(((n / 256) % 256) as u8);
        dst.push((n % 256) as u8);
        let mut i: usize = 0;
        let ghost start = dst@;
        while i < bytes.len()
            invariant
                i <= bytes@.len(),
                dst@ == start + bytes@.subrange(0, i as int),
            decreases bytes@.len() - i,
        {
            dst.push(bytes[i]);
            i = i + 1;
            assert(dst@ =~= start + bytes@.subrange(0, i as int));
        }
        assert(bytes@.subrange(0, bytes@.len() as int) =~= bytes@);
        assert(start =~= old(dst)@ + be_bytes(bytes@.len() as u32));
    }
}

impl<TEncode, TDecode> Default for CborCodec<TEncode, TDecode> {
    /// A codec with no frame in progress.
    fn default() -> (c: Self)
        ensures
            c.pending() is None,
    {
        CborCodec::new()
    }
}

proof fn lemma_be_round_trip(n: u32)
    ensures
        be_u32_value(be_bytes(n)) == n,
{
    assert((n / 16777216) * 16777216 + ((n / 65536) % 256) * 65536 + ((n / 256) % 256) * 256 + n
        % 256 == n) by (bit_vector);
    assert(((n / 16777216) as u8) as nat == n / 16777216) by (bit_vector);
    assert((((n / 65536) % 256) as u8) as nat == (n / 65536) % 256) by (bit_vector);
    assert((((n / 256) % 256) as u8) as nat == (n / 256) % 256) by (bit_vector);
    assert(((n % 256) as u8) as nat == n % 256) by (bit_vector);
}

/// Round trip: a fresh decoder fed the frame of `bytes`, followed by anything
/// else, reports exactly `bytes` as the first frame body and keeps the rest.
pub proof fn lemma_frame_round_trip(bytes: Seq<u8>, rest: Seq<u8>)
    requires
        bytes.len() <= u32::MAX,
    ensures
        ({
            let (pending, buf) = decode_step(None, frame(bytes) + rest);
            &&& pending == Some(bytes.len() as usize)
            &&& ready_len(pending, buf) == Some(bytes.len() as usize)
            &&& buf.take(bytes.len() as int) == bytes
            &&& buf.skip(bytes.len() as int) == rest
        }),
{
    let n = bytes.len() as u32;
    lemma_be_round_trip(n);
    let all = frame(bytes) + rest;
    assert(all.take(4) =~= be_bytes(n));
    assert(be_u32_value(all) == be_u32_value(be_bytes(n)));
    assert(all.skip(4) =~= bytes + rest);
    assert((bytes + rest).take(bytes.len() as int) =~= bytes);
    assert((bytes + rest).skip(bytes.len() as int) =~= rest);
}

/// The decoder state, with the bytes `rest` still to come, stands at the start
/// of the frames of `bodies`: before a header, or after the header of the first.
spec fn at_frames(pending: Option<usize>, buf: Seq<u8>, rest: Seq<u8>, bodies: Seq<Seq<u8>>) -> bool {
    match pending {
        None => buf + rest == frames(bodies),
        Some(n) => bodies.len() > 0 && n == bodies[0].len() && buf + rest == bodies[0] + frames(
            bodies.drop_first(),
        ),
    }
}

proof fn lemma_frames_first(bodies: Seq<Seq<u8>>)
    requires
        bodies.len() > 0,
    ensures
        frames(bodies) == be_bytes(bodies[0].len() as u32) + (bodies[0] + frames(bodies.drop_first())),
        frames(bodies).len() >= 4,
{
    assert(frames(bodies) =~= be_bytes(bodies[0].len() as u32) + (bodies[0] + frames(
        bodies.drop_first(),
    )));
}

proof fn lemma_drain(pending: Option<usize>, buf: Seq<u8>, rest: Seq<u8>, bodies: Seq<Seq<u8>>) -> (k: int)
    requires
        framable(bodies),
        at_frames(pending, buf, rest, bodies),
    ensures
        0 <= k <= bodies.len(),
        drain(pending, buf).0 == bodies.take(k),
        at_frames(drain(pending, buf).1, drain(pending, buf).2, rest, bodies.skip(k)),
        decode_call(drain(pending, buf).1, drain(pending, buf).2).0 is None,
        rest.len() == 0 ==> k == bodies.len() && drain(pending, buf).1 is None && drain(
            pending,
            buf,
        ).2.len() == 0,
    decreases decode_measure(pending, buf),
{
    match pending {
        None => {
            if buf.len() < 4 {
                assert(bodies.skip(0) =~= bodies);
                assert(bodies.take(0) =~= Seq::<Seq<u8>>::empty());
                if rest.len() == 0 {
                    assert(buf + rest =~= buf);
                    if bodies.len() > 0 {
                        lemma_frames_first(bodies);
                    }
                }
                0
            } else {
                lemma_frames_first(bodies);
                let n0 = bodies[0].len();
                let h = be_bytes(n0 as u32);
                let tail = bodies[0] + frames(bodies.drop_first());
                assert(bodies.len() > 0) by {
                    if bodies.len() == 0 {
                        assert((buf + rest).len() >= 4);
                    }
                }
                assert(bodies[0].len() <= u32::MAX);
                assert((buf + rest).take(4) =~= buf.take(4));
                assert((h + tail).take(4) =~= h);
                lemma_be_round_trip(n0 as u32);
                assert(be_u32_value(buf) == be_u32_value(h)) by {
                    assert(buf[0] == h[0] && buf[1] == h[1] && buf[2] == h[2] && buf[3] == h[3]) by {
                        assert(buf.take(4)[0] == h[0]);
                        assert(buf.take(4)[1] == h[1]);
                        assert(buf.take(4)[2] == h[2]);
                        assert(buf.take(4)[3] == h[3]);
                    }
                }
                let b = buf.skip(4);
                assert(b + rest =~= (buf + rest).skip(4));
                assert((h + tail).skip(4) =~= tail);
                let p = Some(n0 as usize);
                assert(decode_call(None, buf) == decode_call(p, b));
                assert(decode_measure(p, b) < decode_measure(None, buf));
                let k = lemma_drain(p, b, rest, bodies);
                assert(drain(None, buf) == drain(p, b));
                k
            }
        },
        Some(n) => {
            let b0 = bodies[0];
            let tail = bodies.drop_first();
            if buf.len() >= n {
                assert(buf.take(n as int) =~= (buf + rest).take(n as int));
                assert((b0 + frames(tail)).take(n as int) =~= b0);
                assert(buf.skip(n as int) + rest =~= (buf + rest).skip(n as int));
                assert((b0 + frames(tail)).skip(n as int) =~= frames(tail));
                let b = buf.skip(n as int);
                assert(framable(tail)) by {
                    assert forall|i: int| 0 <= i < tail.len() implies (#[trigger] tail[i]).len() <= u32::MAX by {
                        assert(tail[i] == bodies[i + 1]);
                    }
                }
                assert(decode_measure(None, b) < decode_measure(pending, buf));
                let k1 = lemma_drain(None, b, rest, tail);
                let k = k1 + 1;
                assert(bodies.take(k) =~= seq![b0] + tail.take(k1));
                assert(bodies.skip(k) =~= tail.skip(k1));
                k
            } else {
                assert(bodies.skip(0) =~= bodies);
                assert(bodies.take(0) =~= Seq::<Seq<u8>>::empty());
                if rest.len() == 0 {
                    assert(buf + rest =~= buf);
                    assert((b0 + frames(tail)).len() >= n);
                }
                0
            }
        },
    }
}

proof fn lemma_drained_end(pending: Option<usize>, buf: Seq<u8>, bodies: Seq<Seq<u8>>)
    requires
        at_frames(pending, buf, Seq::empty(), bodies),
        decode_call(pending, buf).0 is None,
    ensures
        bodies.len() == 0,
        pending is None,
        buf.len() == 0,
{
    assert(buf + Seq::<u8>::empty() =~= buf);
    match pending {
        None => {
            if bodies.len() > 0 {
                lemma_frames_first(bodies);
            }
        },
        Some(n) => {
            assert((bodies[0] + frames(bodies.drop_first())).len() >= n);
        },
    }
}

proof fn lemma_skip_framable(bodies: Seq<Seq<u8>>, k: int)
    requires
        framable(bodies),
        0 <= k <= bodies.len(),
    ensures
        framable(bodies.skip(k)),
{
    assert forall|i: int| 0 <= i < bodies.skip(k).len() implies (#[trigger] bodies.skip(k)[i]).len()
        <= u32::MAX by {
        assert(bodies.skip(k)[i] == bodies[i + k]);
    }
}

proof fn lemma_feed(pending: Option<usize>, buf: Seq<u8>, chunks: Seq<Seq<u8>>, bodies: Seq<Seq<u8>>)
    requires
        framable(bodies),
        at_frames(pending, buf, chunks.flatten(), bodies),
        decode_call(pending, buf).0 is None,
    ensures
        feed(pending, buf, chunks) == (bodies, None::<usize>, Seq::<u8>::empty()),
    decreases chunks.len(),
{
    if chunks.len() == 0 {
        lemma_drained_end(pending, buf, bodies);
        assert(bodies =~= Seq::<Seq<u8>>::empty());
        assert(buf =~= Seq::<u8>::empty());
    } else {
        let c0 = chunks[0];
        let later = chunks.drop_first().flatten();
        assert(chunks.flatten() == c0 + later);
        assert((buf + c0) + later =~= buf + (c0 + later));
        let k = lemma_drain(pending, buf + c0, later, bodies);
        let d = drain(pending, buf + c0);
        lemma_skip_framable(bodies, k);
        lemma_feed(d.1, d.2, chunks.drop_first(), bodies.skip(k));
        assert(bodies.take(k) + bodies.skip(k) =~= bodies);
    }
}

/// Frames decode in order: decoding again and again over the frames of
/// `bodies` gives the bodies one after another, then nothing, leaving no bytes.
pub proof fn lemma_frames_decode_in_order(bodies: Seq<Seq<u8>>)
    requires
        framable(bodies),
    ensures
        drain(None, frames(bodies)) == (bodies, None::<usize>, Seq::<u8>::empty()),
{
    assert(frames(bodies) + Seq::<u8>::empty() =~= frames(bodies));
    let k = lemma_drain(None, frames(bodies), Seq::empty(), bodies);
    assert(bodies.take(k) =~= bodies);
}

/// However the bytes of the frames of `bodies` arrive, in whatever chunks, a
/// fresh decoder draining after each chunk gives the same bodies in order, and
/// ends with no frame pending and no bytes left.
pub proof fn lemma_chunked_decode(bodies: Seq<Seq<u8>>, chunks: Seq<Seq<u8>>)
    requires
        framable(bodies),
        chunks.flatten() == frames(bodies),
    ensures
        feed(None, Seq::empty(), chunks) == (bodies, None::<usize>, Seq::<u8>::empty()),
{
    assert(Seq::<u8>::empty() + chunks.flatten() =~= chunks.flatten());
    lemma_feed(None, Seq::empty(), chunks, bodies);
}

/// A frame is the body's length as four big-endian bytes (most significant
/// first), then the body.
pub proof fn lemma_frame_layout(bytes: Seq<u8>)
    requires
        bytes.len() <= u32::MAX,
    ensures
        frame(bytes).len() == bytes.len() + 4,
        (frame(bytes)[0] as nat) * 16777216 + (frame(bytes)[1] as nat) * 65536 + (frame(bytes)[2] as nat)
            * 256 + (frame(bytes)[3] as nat) == bytes.len(),
        frame(bytes).skip(4) == bytes,
{
    lemma_be_round_trip(bytes.len() as u32);
    assert(frame(bytes).skip(4) =~= bytes);
}

} // verus!
