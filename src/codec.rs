//! Delimiting frames in the byte stream of a connection.
use vstd::prelude::*;

use crate::request::{
    parse_request, subscriptions_from, topics_from, Error, Request, RequestFrame, RequestView,
};
use crate::wire::{
    length_field, lemma_varint_bound, lemma_varint_prefix, pow128, read_length_field, varint,
    LengthField,
};

verus! {

/// What the front of a connection's buffer reads as: `Ok(None)` while the
/// first frame is incomplete, else the first request and the length of its
/// frame, or the error that ends the stream.
pub open spec fn spec_decode(buf: Seq<u8>) -> Result<Option<(RequestView, nat)>, Error> {
    match length_field(buf) {
        LengthField::Incomplete => Ok(None),
        LengthField::TooLarge => Err(Error::FrameTooLarge),
        LengthField::Complete { value, size } => {
            let n = 1 + size + value;
            if buf.len() < n {
                Ok(None)
            } else {
                match parse_request(buf.take(n as int)) {
                    Ok(r) => Ok(Some((r, n))),
                    Err(e) => Err(e),
                }
            }
        },
    }
}

/// Reads the first frame of `src`: `Ok(None)` until it has fully arrived,
/// else the request and how many bytes its frame took, which the caller then
/// drops from the front of its buffer.
pub fn decode(src: &[u8]) -> (r: Result<Option<(Request, usize)>, Error>)
    ensures
        match spec_decode(src@) {
            Ok(None) => r matches Ok(None),
            Ok(Some((v, n))) => r matches Ok(Some((x, m))) && x@ == v && m == n,
            Err(e) => r matches Err(x) && x == e,
        },
{
    let (value, size) = match read_length_field(src) {
        Ok(field) => field,
        Err(true) => return Err(Error::FrameTooLarge),
        Err(false) => return Ok(None),
    };
    let n = 1 + size + value;
    if src.len() < n {
        return Ok(None);
    }
    match Request::from_bytes(vstd::slice::slice_subrange(src, 0, n)) {
        Ok(r) => Ok(Some((r, n))),
        Err(e) => Err(e),
    }
}

/// What a connection has read so far: the requests in order (an error is
/// the last entry), the bytes not yet making a whole frame, and whether an
/// error has ended the stream.
pub struct StreamState {
    pub requests: Seq<Result<RequestView, Error>>,
    pub buffer: Seq<u8>,
    pub failed: bool,
}

pub open spec fn empty_stream() -> StreamState {
    StreamState { requests: seq![], buffer: seq![], failed: false }
}

/// Reads every whole frame at the front of `buf`, stopping at the first
/// incomplete frame or error.
pub open spec fn drain(buf: Seq<u8>) -> StreamState
    decreases buf.len(),
{
    match spec_decode(buf) {
        Ok(None) => StreamState { requests: seq![], buffer: buf, failed: false },
        Err(e) => StreamState { requests: seq![Err(e)], buffer: seq![], failed: true },
        Ok(Some((r, n))) => if 0 < n <= buf.len() {
            let rest = drain(buf.skip(n as int));
            StreamState { requests: seq![Ok(r)] + rest.requests, ..rest }
        } else {
            StreamState { requests: seq![], buffer: buf, failed: false }
        },
    }
}

/// The state after `chunk` arrives; a failed stream reads nothing more.
pub open spec fn feed(s: StreamState, chunk: Seq<u8>) -> StreamState {
    if s.failed {
        s
    } else {
        let d = drain(s.buffer + chunk);
        StreamState { requests: s.requests + d.requests, buffer: d.buffer, failed: d.failed }
    }
}

pub open spec fn feed_all(s: StreamState, chunks: Seq<Seq<u8>>) -> StreamState
    decreases chunks.len(),
{
    if chunks.len() == 0 {
        s
    } else {
        feed_all(feed(s, chunks[0]), chunks.drop_first())
    }
}

pub open spec fn concat(chunks: Seq<Seq<u8>>) -> Seq<u8>
    decreases chunks.len(),
{
    if chunks.len() == 0 {
        seq![]
    } else {
        chunks[0] + concat(chunks.drop_first())
    }
}

/// A state that has read all it can: it has failed, or its leftover bytes
/// do not yet make a frame. Every state reached by feeding is settled.
pub open spec fn settled(s: StreamState) -> bool {
    s.failed || spec_decode(s.buffer) matches Ok(None)
}

proof fn lemma_drain_settled(x: Seq<u8>)
    ensures
        settled(drain(x)),
    decreases x.len(),
{
    lemma_frame_positive(x);
    if let Ok(Some((_, n))) = spec_decode(x) {
        lemma_drain_settled(x.skip(n as int));
    }
}

/// Feeding a stream from its start, piece by piece, reads as feeding the
/// joined bytes.
pub proof fn lemma_stream_reentry(chunks: Seq<Seq<u8>>)
    ensures
        feed_all(empty_stream(), chunks) == feed(empty_stream(), concat(chunks)),
{
    lemma_framing_reentry(empty_stream(), chunks);
}

proof fn lemma_frame_positive(buf: Seq<u8>)
    ensures
        spec_decode(buf) matches Ok(Some((_, n))) ==> 0 < n <= buf.len(),
{
}

/// Once the first frame of a buffer is decided, more bytes behind it change
/// nothing about it.
proof fn lemma_decode_prefix(x: Seq<u8>, t: Seq<u8>)
    requires
        !(spec_decode(x) matches Ok(None)),
    ensures
        spec_decode(x + t) == spec_decode(x),
{
    assert(x.len() > 0);
    assert((x + t).skip(1) =~= x.skip(1) + t);
    lemma_varint_prefix(x.skip(1), t, 4);
    if let LengthField::Complete { value, size } = length_field(x) {
        let n = 1 + size + value;
        assert((x + t).take(n as int) =~= x.take(n as int));
    }
}

proof fn lemma_drain_extend(x: Seq<u8>, t: Seq<u8>)
    ensures
        drain(x).failed ==> drain(x + t) == drain(x),
        !drain(x).failed ==> drain(x + t) == (StreamState {
            requests: drain(x).requests + drain(drain(x).buffer + t).requests,
            buffer: drain(drain(x).buffer + t).buffer,
            failed: drain(drain(x).buffer + t).failed,
        }),
    decreases x.len(),
{
    lemma_frame_positive(x);
    match spec_decode(x) {
        Ok(None) => {
            assert(seq![] + drain(x + t).requests =~= drain(x + t).requests);
        },
        Err(e) => {
            lemma_decode_prefix(x, t);
        },
        Ok(Some((r, n))) => {
            lemma_decode_prefix(x, t);
            assert((x + t).skip(n as int) =~= x.skip(n as int) + t);
            lemma_drain_extend(x.skip(n as int), t);
            let d = drain(x.skip(n as int));
            if !d.failed {
                let e = drain(d.buffer + t);
                assert(seq![Ok(r)] + (d.requests + e.requests) =~= (seq![Ok(r)] + d.requests)
                    + e.requests);
            }
        },
    }
}

/// Feeding two pieces one after the other reads the same as feeding them
/// joined.
pub proof fn lemma_feed_split(s: StreamState, a: Seq<u8>, b: Seq<u8>)
    ensures
        feed(feed(s, a), b) == feed(s, a + b),
{
    if !s.failed {
        let x = s.buffer + a;
        assert(s.buffer + (a + b) =~= x + b);
        lemma_drain_extend(x, b);
        let d = drain(x);
        if !d.failed {
            let e = drain(d.buffer + b);
            assert(s.requests + d.requests + e.requests =~= s.requests + (d.requests
                + e.requests));
        }
    }
}

/// However a byte stream is cut into pieces, feeding the pieces in order
/// yields the same requests, remainder and failure as feeding it whole.
pub proof fn lemma_framing_reentry(s: StreamState, chunks: Seq<Seq<u8>>)
    requires
        settled(s),
    ensures
        feed_all(s, chunks) == feed(s, concat(chunks)),
    decreases chunks.len(),
{
    if chunks.len() == 0 {
        if !s.failed {
            assert(s.buffer + seq![] =~= s.buffer);
            assert(s.requests + seq![] =~= s.requests);
        }
    } else {
        lemma_drain_settled(s.buffer + chunks[0]);
        lemma_framing_reentry(feed(s, chunks[0]), chunks.drop_first());
        lemma_feed_split(s, chunks[0], concat(chunks.drop_first()));
    }
}

/// Whether `f` is exactly one whole frame that reads without error.
pub open spec fn whole_frame(f: Seq<u8>) -> bool {
    spec_decode(f) matches Ok(Some((_, n))) && n == f.len()
}

/// The request that a whole frame reads as.
pub open spec fn frame_request(f: Seq<u8>) -> RequestView {
    match spec_decode(f) {
        Ok(Some((r, _))) => r,
        _ => arbitrary(),
    }
}

pub open spec fn frame_requests(frames: Seq<Seq<u8>>) -> Seq<Result<RequestView, Error>> {
    Seq::new(frames.len(), |i: int| Ok(frame_request(frames[i])))
}

/// One step of `drain` on a buffer whose first frame reads.
proof fn lemma_drain_step(x: Seq<u8>, r: RequestView, n: nat)
    requires
        spec_decode(x) == Ok::<Option<(RequestView, nat)>, Error>(Some((r, n))),
        0 < n <= x.len(),
    ensures
        drain(x) == (StreamState {
            requests: seq![Ok(r)] + drain(x.skip(n as int)).requests,
            ..drain(x.skip(n as int))
        }),
{
}

proof fn lemma_drain_frames(frames: Seq<Seq<u8>>)
    requires
        forall|i: int| 0 <= i < frames.len() ==> whole_frame(#[trigger] frames[i]),
    ensures
        drain(concat(frames)) == (StreamState {
            requests: frame_requests(frames),
            buffer: seq![],
            failed: false,
        }),
    decreases frames.len(),
{
    if frames.len() == 0 {
        assert(frame_requests(frames) =~= seq![]);
        assert(concat(frames) =~= seq![]);
    } else {
        let first = frames[0];
        let rest = frames.drop_first();
        assert(whole_frame(first));
        assert forall|i: int| 0 <= i < rest.len() implies whole_frame(#[trigger] rest[i]) by {
            assert(rest[i] == frames[i + 1]);
        }
        let x = first + concat(rest);
        assert(concat(frames) == x);
        lemma_decode_prefix(first, concat(rest));
        assert(x.skip(first.len() as int) =~= concat(rest));
        lemma_drain_step(x, frame_request(first), first.len());
        lemma_drain_frames(rest);
        assert(frame_requests(frames) =~= seq![Ok(frame_request(first))] + frame_requests(rest));
    }
}

/// A stream made of whole, valid frames, cut into pieces anywhere and fed
/// piece by piece, yields each frame's request in order and leaves nothing
/// behind.
pub proof fn lemma_whole_frames_reentry(frames: Seq<Seq<u8>>, chunks: Seq<Seq<u8>>)
    requires
        forall|i: int| 0 <= i < frames.len() ==> whole_frame(#[trigger] frames[i]),
        concat(chunks) == concat(frames),
    ensures
        feed_all(empty_stream(), chunks) == (StreamState {
            requests: frame_requests(frames),
            buffer: seq![],
            failed: false,
        }),
{
    lemma_stream_reentry(chunks);
    lemma_drain_frames(frames);
    assert(seq![] + concat(chunks) =~= concat(chunks));
    assert(Seq::<Result<RequestView, Error>>::empty() + frame_requests(frames) =~= frame_requests(
        frames,
    ));
}

proof fn lemma_varint_too_large(s: Seq<u8>, budget: nat)
    ensures
        varint(s, budget) == LengthField::TooLarge ==> s.len() >= budget && forall|i: int|
            0 <= i < budget ==> s[i] >= 128,
    decreases budget,
{
    if varint(s, budget) == LengthField::TooLarge && budget > 1 {
        lemma_varint_too_large(s.drop_first(), (budget - 1) as nat);
        assert forall|i: int| 0 <= i < budget implies s[i] >= 128 by {
            if i > 0 {
                assert(s[i] == s.drop_first()[i - 1]);
            }
        }
    }
}

proof fn lemma_subscriptions_never_too_large(f: Seq<u8>, pos: int)
    ensures
        subscriptions_from(f, pos) != Err::<Seq<(Seq<char>, crate::qos::Qos)>, Error>(
            Error::FrameTooLarge,
        ),
    decreases f.len() - pos,
{
    if 0 <= pos < f.len() {
        if let Ok((_, p)) = crate::request::text_at(f, pos, crate::request::TextType::Topic) {
            if p < f.len() {
                lemma_subscriptions_never_too_large(f, p + 1);
            }
        }
    }
}

proof fn lemma_topics_never_too_large(f: Seq<u8>, pos: int)
    ensures
        topics_from(f, pos) != Err::<Seq<Seq<char>>, Error>(Error::FrameTooLarge),
    decreases f.len() - pos,
{
    if 0 <= pos < f.len() {
        if let Ok((_, p)) = crate::request::text_at(f, pos, crate::request::TextType::Topic) {
            lemma_topics_never_too_large(f, p);
        }
    }
}

/// Reading a frame's packet never fails with `FrameTooLarge`: only the
/// Remaining Length field does.
proof fn lemma_parse_never_too_large(f: Seq<u8>)
    ensures
        parse_request(f) != Err::<RequestView, Error>(Error::FrameTooLarge),
{
    reveal(parse_request);
    if let Some(s) = crate::request::body_start(f) {
        lemma_subscriptions_never_too_large(f, s + 2);
        lemma_topics_never_too_large(f, s + 2);
    }
}

/// Decoding fails with `FrameTooLarge` exactly when the four bytes of the
/// Remaining Length field all announce another byte, so that its value would
/// reach 128^4; a field that reads holds less than 128^4.
pub proof fn lemma_remaining_length_bound(buf: Seq<u8>)
    ensures
        spec_decode(buf) == Err::<Option<(RequestView, nat)>, Error>(Error::FrameTooLarge) <==> (
        buf.len() >= 5 && forall|i: int| 1 <= i <= 4 ==> buf[i] >= 128),
        length_field(buf) matches LengthField::Complete { value, .. } ==> value < pow128(4),
{
    if buf.len() > 0 {
        lemma_varint_bound(buf.skip(1), 4);
        lemma_varint_too_large(buf.skip(1), 4);
        if let LengthField::Complete { value, size } = length_field(buf) {
            let n = 1 + size + value;
            if buf.len() >= n {
                lemma_parse_never_too_large(buf.take(n as int));
            }
        }
        if spec_decode(buf) == Err::<Option<(RequestView, nat)>, Error>(Error::FrameTooLarge) {
            assert forall|i: int| 1 <= i <= 4 implies buf[i] >= 128 by {
                assert(buf[i] == buf.skip(1)[i - 1]);
            }
        }
    }
    if buf.len() >= 5 && (forall|i: int| 1 <= i <= 4 ==> buf[i] >= 128) {
        let s = buf.skip(1);
        assert(s[0] >= 128 && s[1] >= 128 && s[2] >= 128 && s[3] >= 128) by {
            assert(s[0] == buf[1] && s[1] == buf[2] && s[2] == buf[3] && s[3] == buf[4]);
        }
        assert(s.drop_first()[0] == s[1]);
        assert(s.drop_first().drop_first()[0] == s[2]);
        assert(s.drop_first().drop_first().drop_first()[0] == s[3]);
        assert(varint(s.drop_first().drop_first().drop_first(), 1) == LengthField::TooLarge);
        assert(varint(s.drop_first().drop_first(), 2) == LengthField::TooLarge);
        assert(varint(s.drop_first(), 3) == LengthField::TooLarge);
        assert(varint(s, 4) == LengthField::TooLarge);
    }
}

} // verus!
