//! The wire format between peers, length-prefixed frames over a byte stream, and
//! what becomes of a link to a peer.
//!
//! A frame is a payload's length as four big-endian bytes, then the payload.
//! TCP is a byte stream, not a message stream: the prefix answers "where does
//! one message end?", however the stream is chopped into reads.

use vstd::prelude::*;

verus! {

/// Frames larger than this are a protocol error: the connection is dropped.
pub const MAX_FRAME_BYTES: u32 = 8 * 1024 * 1024;

/// Maximum number of messages waiting for a single peer. With frames allowed
/// to approach [`MAX_FRAME_BYTES`], this deliberately small queue keeps the
/// per-peer memory bound practical. A saturated link is treated like packet
/// loss; a later heartbeat will retry replication.
pub const OUTBOUND_QUEUE_CAPACITY: usize = 4;

/// Maximum number of decoded frames waiting for the single-writer driver.
pub const INBOUND_QUEUE_CAPACITY: usize = 8;

/// A frame that is not let through.
#[derive(Clone, Copy, Debug, PartialEq, Eq)]
pub enum FrameError {
    Oversize { len: u32 },
}

/// A length as four bytes, the most significant first.
pub open spec fn be_bytes(len: u32) -> Seq<u8> {
    seq![
        (len / 0x100_0000) as u8,
        (len / 0x1_0000 % 0x100) as u8,
        (len / 0x100 % 0x100) as u8,
        (len % 0x100) as u8,
    ]
}

/// The length that the first four bytes give.
pub open spec fn be_value(bytes: Seq<u8>) -> nat {
    (bytes[0] * 0x100_0000 + bytes[1] * 0x1_0000 + bytes[2] * 0x100 + bytes[3]) as nat
}

/// A length reads back from its four bytes.
proof fn lemma_be_reads_back(len: u32, rest: Seq<u8>)
    ensures
        be_value(be_bytes(len) + rest) == len,
{
    let b = be_bytes(len);
    let all = b + rest;
    assert(all[0] == b[0] && all[1] == b[1] && all[2] == b[2] && all[3] == b[3]);
    assert(len / 0x100_0000 < 0x100);
    assert(len == (len / 0x100_0000) * 0x100_0000 + (len / 0x1_0000 % 0x100) * 0x1_0000 + (len
        / 0x100 % 0x100) * 0x100 + len % 0x100);
}

/// The frame of a payload.
pub open spec fn frame(payload: Seq<u8>) -> Seq<u8> {
    be_bytes(payload.len() as u32) + payload
}

/// Whether this is what framing the payload gives.
pub open spec fn encoded(payload: Seq<u8>, out: Result<Seq<u8>, FrameError>) -> bool {
    out == if payload.len() <= MAX_FRAME_BYTES {
        Ok(frame(payload))
    } else {
        Err(
            FrameError::Oversize {
                len: if payload.len() <= u32::MAX {
                    payload.len() as u32
                } else {
                    u32::MAX
                },
            },
        )
    }
}

/// Frames a payload; one that is longer than [`MAX_FRAME_BYTES`] is refused,
/// with its length, or the greatest length that can be told.
pub fn encode_frame(payload: &[u8]) -> (out: Result<Vec<u8>, FrameError>)
    ensures
        match out {
            Ok(bytes) => payload@.len() <= MAX_FRAME_BYTES && bytes@ == frame(payload@),
            Err(FrameError::Oversize { len }) => payload@.len() > MAX_FRAME_BYTES && len == (if payload@.len()
                <= u32::MAX {
                payload@.len() as int
            } else {
                u32::MAX as int
            }),
        },
        encoded(
            payload@,
            match out {
                Ok(bytes) => Ok(bytes@),
                Err(e) => Err(e),
            },
        ),
{
    if payload.len() as u64 > u32::MAX as u64 {
        return Err(FrameError::Oversize { len: u32::MAX });
    }
    let len: u32 = payload.len() as u32;
    if len > MAX_FRAME_BYTES {
        return Err(FrameError::Oversize { len });
    }
    let mut out: Vec<u8> = Vec::new();
    out.push((len / 0x100_0000) as u8);
    out.push((len / 0x1_0000 % 0x100) as u8);
    out.push((len / 0x100 % 0x100) as u8);
    out.push((len % 0x100) as u8);
    assert(out@ =~= be_bytes(len));
    out.extend_from_slice(payload);
    assert(out@ =~= frame(payload@));
    Ok(out)
}

/// What the next frame of a stream is.
pub enum Next {
    /// Not all of it has arrived.
    Incomplete,
    /// It announces a length beyond [`MAX_FRAME_BYTES`].
    Oversize { len: u32 },
    /// It is complete; the rest of the stream follows.
    Frame { payload: Seq<u8>, rest: Seq<u8> },
}

/// The next frame of the stream.
pub open spec fn next(stream: Seq<u8>) -> Next {
    if stream.len() < 4 {
        Next::Incomplete
    } else if be_value(stream) > MAX_FRAME_BYTES {
        Next::Oversize { len: be_value(stream) as u32 }
    } else if stream.len() < 4 + be_value(stream) {
        Next::Incomplete
    } else {
        let end = (4 + be_value(stream)) as int;
        Next::Frame { payload: stream.subrange(4, end), rest: stream.skip(end) }
    }
}

/// All the complete frames at the head of a stream, what remains behind them,
/// and the announced length where an oversize frame stops the decoding.
pub open spec fn drained(stream: Seq<u8>) -> (Seq<Seq<u8>>, Seq<u8>, Option<u32>)
    decreases stream.len(),
{
    match next(stream) {
        Next::Incomplete => (Seq::empty(), stream, None),
        Next::Oversize { len } => (Seq::empty(), stream, Some(len)),
        Next::Frame { payload, rest } => if rest.len() < stream.len() {
            let (more, left, oversize) = drained(rest);
            (seq![payload] + more, left, oversize)
        } else {
            (Seq::empty(), stream, None)
        },
    }
}

/// Incremental frame decoder: takes bytes as they come.
#[derive(Debug)]
pub struct FrameDecoder {
    pub buf: Vec<u8>,
}

impl Default for FrameDecoder {
    fn default() -> (decoder: Self)
        ensures
            decoder@ == Seq::<u8>::empty(),
    {
        FrameDecoder { buf: Vec::new() }
    }
}

impl View for FrameDecoder {
    type V = Seq<u8>;

    /// The bytes that no frame has been taken from yet.
    open spec fn view(&self) -> Seq<u8> {
        self.buf@
    }
}

impl FrameDecoder {
    pub fn push_bytes(&mut self, chunk: &[u8])
        ensures
            final(self)@ == old(self)@ + chunk@,
    {
        self.buf.extend_from_slice(chunk);
        assert(self.buf@ =~= old(self)@ + chunk@);
    }

    /// `Ok(Some)` = one complete frame's payload; `Ok(None)` = need more bytes;
    /// `Err` = protocol error: the caller must drop the connection.
    pub fn next_frame(&mut self) -> (out: Result<Option<Vec<u8>>, FrameError>)
        ensures
            match next(old(self)@) {
                Next::Incomplete => out matches Ok(None) && final(self)@ == old(self)@,
                Next::Oversize { len } => out matches Err(FrameError::Oversize { len: told })
                    && told == len && final(self)@ == old(self)@,
                Next::Frame { payload, rest } => out matches Ok(Some(bytes)) && bytes@ == payload
                    && final(self)@ == rest,
            },
    {
        if self.buf.len() < 4 {
            return Ok(None);
        }
        let len: u64 = (self.buf[0] as u64) * 0x100_0000 + (self.buf[1] as u64) * 0x1_0000 + (
        self.buf[2] as u64) * 0x100 + (self.buf[3] as u64);
        if len > MAX_FRAME_BYTES as u64 {
            return Err(FrameError::Oversize { len: len as u32 });
        }
        let total: usize = 4 + (len as usize);
        if self.buf.len() < total {
            return Ok(None);
        }
        let rest = self.buf.split_off(total);
        let payload = self.buf.split_off(4);
        self.buf = rest;
        assert(payload@ =~= old(self)@.subrange(4, total as int));
        assert(self@ =~= old(self)@.skip(total as int));
        Ok(Some(payload))
    }

    /// Takes all the complete frames there are. With a protocol error the
    /// caller must drop the connection, once it has seen the frames before it.
    pub fn take_frames(&mut self) -> (out: Taken)
        ensures
            out@ == drained(old(self)@).0,
            final(self)@ == drained(old(self)@).1,
            match out.error {
                Some(FrameError::Oversize { len }) => drained(old(self)@).2 == Some(len),
                None => drained(old(self)@).2 is None,
            },
    {
        let mut frames: Vec<Vec<u8>> = Vec::new();
        let ghost whole = drained(self@);
        let ghost mut left: nat = self@.len();
        assert(views(frames@) + drained(self@).0 =~= whole.0);
        loop
            invariant
                left == self@.len(),
                whole == (
                    views(frames@) + drained(self@).0,
                    drained(self@).1,
                    drained(self@).2,
                ),
                whole == drained(old(self)@),
            decreases left,
        {
            let ghost before = self@;
            let ghost taken = views(frames@);
            match self.next_frame() {
                Err(e) => {
                    assert(views(frames@) + drained(self@).0 =~= views(frames@));
                    return Taken { frames, error: Some(e) };
                },
                Ok(None) => {
                    assert(views(frames@) + drained(self@).0 =~= views(frames@));
                    return Taken { frames, error: None };
                },
                Ok(Some(payload)) => {
                    frames.push(payload);
                    proof {
                        assert(views(frames@) =~= taken.push(payload@));
                        assert(taken + (seq![payload@] + drained(self@).0) =~= taken.push(payload@)
                            + drained(self@).0);
                        left = self@.len();
                    }
                },
            }
        }
    }
}

/// The complete frames of a stream, and the protocol error behind them, if any.
#[derive(Debug)]
pub struct Taken {
    pub frames: Vec<Vec<u8>>,
    pub error: Option<FrameError>,
}

/// Payloads as sequences of bytes.
pub open spec fn views(payloads: Seq<Vec<u8>>) -> Seq<Seq<u8>> {
    payloads.map_values(|payload: Vec<u8>| payload@)
}

impl View for Taken {
    type V = Seq<Seq<u8>>;

    /// The payloads.
    open spec fn view(&self) -> Seq<Seq<u8>> {
        views(self.frames@)
    }
}

/// The frames of the payloads, one after the other.
pub open spec fn stream_of(payloads: Seq<Seq<u8>>) -> Seq<u8>
    decreases payloads.len(),
{
    if payloads.len() == 0 {
        Seq::empty()
    } else {
        frame(payloads[0]) + stream_of(payloads.skip(1))
    }
}

/// What has been framed is what is decoded, frame by frame, with nothing left
/// over.
pub proof fn law_frames_read_back(payloads: Seq<Seq<u8>>)
    requires
        forall|i: int|
            0 <= i < payloads.len() ==> (#[trigger] payloads[i]).len() <= MAX_FRAME_BYTES,
    ensures
        drained(stream_of(payloads)) == (payloads, Seq::<u8>::empty(), None::<u32>),
    decreases payloads.len(),
{
    let stream = stream_of(payloads);
    if payloads.len() == 0 {
        assert(payloads =~= Seq::empty());
    } else {
        let first = payloads[0];
        let rest = stream_of(payloads.skip(1));
        law_frames_read_back(payloads.skip(1));
        lemma_be_reads_back(first.len() as u32, first + rest);
        assert(stream =~= be_bytes(first.len() as u32) + (first + rest));
        assert(stream.subrange(4, 4 + first.len() as int) =~= first);
        assert(stream.skip(4 + first.len() as int) =~= rest);
        assert(next(stream) == (Next::Frame { payload: first, rest }));
        assert(seq![first] + payloads.skip(1) =~= payloads);
    }
}

/// However a stream is chopped into reads, the same frames come out: decoding
/// what has arrived so far, and going on when more arrives, is decoding it all
/// at once. After an oversize frame nothing more comes out either way.
pub proof fn law_chunking_does_not_matter(first: Seq<u8>, more: Seq<u8>)
    ensures
        ({
            let (some, left, oversize) = drained(first);
            let (others, end, failed) = drained(left + more);
            let all = drained(first + more);
            match oversize {
                None => all == (some + others, end, failed),
                Some(len) => all.0 == some && all.2 == Some(len),
            }
        }),
    decreases first.len(),
{
    let all = first + more;
    match next(first) {
        Next::Incomplete => {
            assert(drained(first).0 + drained(first + more).0 =~= drained(first + more).0);
        },
        Next::Oversize { len } => {
            assert(be_value(all) == be_value(first));
        },
        Next::Frame { payload, rest } => {
            let end = (4 + be_value(first)) as int;
            assert(be_value(all) == be_value(first));
            assert(all.subrange(4, end) =~= payload);
            assert(all.skip(end) =~= rest + more);
            law_chunking_does_not_matter(rest, more);
            let (some, left, oversize) = drained(rest);
            let (others, stop, failed) = drained(left + more);
            assert(seq![payload] + (some + others) =~= (seq![payload] + some) + others);
        },
    }
}

/// How long a link waits after a failed dial.
pub const REDIAL_MS: u64 = 200;

/// The link to a peer: it is being dialed, it is up, or it waits to be dialed
/// again.
#[derive(Clone, Copy, Debug, PartialEq, Eq)]
pub enum Link {
    Dialing,
    Up,
    Waiting,
}

/// What happens to a link.
#[derive(Clone, Copy, Debug, PartialEq, Eq)]
pub enum LinkEvent {
    Dialed,
    DialFailed,
    /// The time to wait is over.
    WaitOver,
    /// There is a message for the peer.
    Message { encodable: bool },
    /// The message could not be written: it is lost.
    WriteFailed,
    /// There will be no more messages.
    Closed,
}

/// What is to be done about it.
#[derive(Clone, Copy, Debug, PartialEq, Eq)]
pub enum LinkAction {
    Dial,
    /// Receive the next message.
    Receive,
    /// Write the message, then receive the next.
    Write,
    /// Drop the message, and go on as before.
    Drop,
    /// Wait so long. A message that comes meanwhile does not start this anew.
    Wait { ms: u64 },
    Stop,
}

/// What becomes of a link, and what is to be done. Links are fire-and-forget: a
/// failed write means dialing again at once, a failed dial means waiting, and
/// whatever comes while the link is not up is dropped.
pub open spec fn link_next(link: Link, event: LinkEvent) -> (Link, LinkAction) {
    match (link, event) {
        (_, LinkEvent::Closed) => (link, LinkAction::Stop),
        (_, LinkEvent::Dialed) => (Link::Up, LinkAction::Receive),
        (_, LinkEvent::DialFailed) => (Link::Waiting, LinkAction::Wait { ms: REDIAL_MS }),
        (_, LinkEvent::WaitOver) => (Link::Dialing, LinkAction::Dial),
        (_, LinkEvent::WriteFailed) => (Link::Dialing, LinkAction::Dial),
        (Link::Up, LinkEvent::Message { encodable }) => (
            Link::Up,
            if encodable {
                LinkAction::Write
            } else {
                LinkAction::Drop
            },
        ),
        (_, LinkEvent::Message { .. }) => (link, LinkAction::Drop),
    }
}

impl Link {
    /// What is to be done about the event.
    pub fn next(&mut self, event: LinkEvent) -> (action: LinkAction)
        ensures
            (*final(self), action) == link_next(*old(self), event),
    {
        match event {
            LinkEvent::Closed => LinkAction::Stop,
            LinkEvent::Dialed => {
                *self = Link::Up;
                LinkAction::Receive
            },
            LinkEvent::DialFailed => {
                *self = Link::Waiting;
                LinkAction::Wait { ms: REDIAL_MS }
            },
            LinkEvent::WaitOver | LinkEvent::WriteFailed => {
                *self = Link::Dialing;
                LinkAction::Dial
            },
            LinkEvent::Message { encodable } => match *self {
                Link::Up if encodable => LinkAction::Write,
                _ => LinkAction::Drop,
            },
        }
    }
}

/// The link after the first `n` events.
pub open spec fn link_after(link: Link, events: Seq<LinkEvent>, n: int) -> Link
    decreases n,
{
    if n <= 0 {
        link
    } else {
        link_next(link_after(link, events, n - 1), events[n - 1]).0
    }
}

/// What is done about the `i`-th event.
pub open spec fn link_action(link: Link, events: Seq<LinkEvent>, i: int) -> LinkAction {
    link_next(link_after(link, events, i), events[i]).1
}

/// Each write is for the message that has just come, and is asked for while the
/// link is up and the message can be encoded, and only then.
pub proof fn law_each_write_is_for_the_message_that_comes(
    link: Link,
    events: Seq<LinkEvent>,
    i: int,
)
    requires
        0 <= i < events.len(),
    ensures
        link_action(link, events, i) is Write <==> events[i] == (LinkEvent::Message {
            encodable: true,
        }) && link_after(link, events, i) is Up,
{
}

/// A message is written at most once: after a failed write the link is dialed,
/// and whatever is written later is a message that came once the link was up
/// again.
pub proof fn law_a_message_is_written_at_most_once(
    link: Link,
    events: Seq<LinkEvent>,
    i: int,
    j: int,
)
    requires
        0 <= i < j < events.len(),
        events[i] is WriteFailed,
    ensures
        link_action(link, events, i) == LinkAction::Dial,
        link_action(link, events, j) is Write ==> {
            &&& events[j] == (LinkEvent::Message { encodable: true })
            &&& link_after(link, events, j) is Up
            &&& exists|k: int| i < k < j && #[trigger] events[k] is Dialed
        },
{
    assert(link_after(link, events, i + 1) is Dialing);
    if link_after(link, events, j) is Up {
        lemma_up_means_dialed(link, events, i + 1, j);
    }
}

/// A link that is not up comes up by being dialed, and not otherwise.
proof fn lemma_up_means_dialed(link: Link, events: Seq<LinkEvent>, i: int, j: int)
    requires
        0 <= i <= j <= events.len(),
        !(link_after(link, events, i) is Up),
        link_after(link, events, j) is Up,
    ensures
        exists|k: int| i <= k < j && #[trigger] events[k] is Dialed,
    decreases j - i,
{
    if i < j {
        if link_after(link, events, j - 1) is Up {
            lemma_up_means_dialed(link, events, i, j - 1);
        } else {
            assert(events[j - 1] is Dialed);
        }
    }
}

/// Between a failed dial and the next that succeeds every message is dropped,
/// and the link is dialed only when the time to wait is over, or a write has
/// failed that was still under way.
pub proof fn law_messages_are_dropped_while_disconnected(
    link: Link,
    events: Seq<LinkEvent>,
    i: int,
    j: int,
)
    requires
        0 <= i < j < events.len(),
        events[i] is DialFailed,
        forall|k: int| i < k < j ==> !(#[trigger] events[k] is Dialed),
    ensures
        link_action(link, events, i) == (LinkAction::Wait { ms: REDIAL_MS }),
        events[j] is Message ==> link_action(link, events, j) is Drop,
        link_action(link, events, j) is Dial ==> events[j] is WaitOver || events[j] is WriteFailed,
{
    assert(link_after(link, events, i + 1) is Waiting);
    if link_after(link, events, j) is Up {
        lemma_up_means_dialed(link, events, i + 1, j);
    }
}

/// A frame is four bytes that give the payload's length, the most significant
/// first, and then the payload, whole.
pub proof fn law_a_frame_is_length_and_payload(payload: Seq<u8>)
    requires
        payload.len() <= u32::MAX,
    ensures
        frame(payload).len() == payload.len() + 4,
        frame(payload)[0] * 256 * 256 * 256 + frame(payload)[1] * 256 * 256 + frame(payload)[2] * 256
            + frame(payload)[3] == payload.len(),
        frame(payload).skip(4) == payload,
{
    lemma_be_reads_back(payload.len() as u32, payload);
    assert(frame(payload).skip(4) =~= payload);
}

/// The length that a stream announces first.
pub open spec fn announced(stream: Seq<u8>) -> int {
    stream[0] * 256 * 256 * 256 + stream[1] * 256 * 256 + stream[2] * 256 + stream[3]
}

/// Nothing is lost or made up: the frames that come out, and what remains behind
/// them, are the stream. What remains is no complete frame: it is too short to
/// announce a length, or shorter than it announces, or announces more than 8 MiB,
/// and just then the length is reported.
pub proof fn law_frames_and_rest_are_the_stream(stream: Seq<u8>)
    ensures
        ({
            let (frames, rest, oversize) = drained(stream);
            &&& stream == stream_of(frames) + rest
            &&& forall|i: int|
                0 <= i < frames.len() ==> (#[trigger] frames[i]).len() <= 8 * 1024 * 1024
            &&& rest.len() < 4 || announced(rest) > 8 * 1024 * 1024 || rest.len() < 4 + announced(
                rest,
            )
            &&& oversize is Some <==> rest.len() >= 4 && announced(rest) > 8 * 1024 * 1024
            &&& oversize matches Some(len) ==> len == announced(rest)
        }),
    decreases stream.len(),
{
    match next(stream) {
        Next::Frame { payload, rest } => {
            law_frames_and_rest_are_the_stream(rest);
            let (more, left, oversize) = drained(rest);
            let frames = seq![payload] + more;
            assert(frames.skip(1) =~= more);
            assert(be_bytes(payload.len() as u32) =~= stream.take(4)) by {
                lemma_be_is_unique(stream, payload.len() as u32);
            }
            assert(frame(payload) =~= stream.take(4 + payload.len() as int));
            assert(stream =~= frame(payload) + rest);
            assert(stream =~= (frame(payload) + stream_of(more)) + left);
            assert forall|i: int| 0 <= i < frames.len() implies (#[trigger] frames[i]).len() <= 8
                * 1024 * 1024 by {
                if i > 0 {
                    assert(frames[i] == more[i - 1]);
                }
            }
        },
        _ => {
            assert(stream =~= stream_of(Seq::empty()) + stream);
        },
    }
}

proof fn lemma_be_is_unique(bytes: Seq<u8>, len: u32)
    requires
        bytes.len() >= 4,
        be_value(bytes) == len,
    ensures
        be_bytes(len) == bytes.take(4),
{
    let b = be_bytes(len);
    let (w, x, y, z) = (bytes[0] as int, bytes[1] as int, bytes[2] as int, bytes[3] as int);
    assert(len as int == w * 0x100_0000 + x * 0x1_0000 + y * 0x100 + z);
    assert(len as int / 0x100_0000 == w);
    assert(len as int / 0x1_0000 == w * 0x100 + x);
    assert(len as int / 0x100 == w * 0x1_0000 + x * 0x100 + y);
    assert(b =~= bytes.take(4));
}

/// What becomes of a link: once dialed it receives; a failed dial is waited over
/// for 200 ms, and a link that has waited, or whose write failed, is dialed; while
/// it is up a message is written, or dropped if it cannot be encoded, and else
/// every message is dropped, and the link stays as it is; and it stops when there
/// is nothing more to come.
pub proof fn law_a_link_reconnects(link: Link, encodable: bool)
    ensures
        link_next(link, LinkEvent::Dialed) == (Link::Up, LinkAction::Receive),
        link_next(link, LinkEvent::DialFailed) == (Link::Waiting, LinkAction::Wait { ms: 200 }),
        link_next(link, LinkEvent::WaitOver) == (Link::Dialing, LinkAction::Dial),
        link_next(link, LinkEvent::WriteFailed) == (Link::Dialing, LinkAction::Dial),
        link_next(link, LinkEvent::Closed).1 == LinkAction::Stop,
        link_next(link, LinkEvent::Message { encodable }).0 == link,
        link is Up && encodable <==> link_next(link, LinkEvent::Message { encodable }).1
            == LinkAction::Write,
        !(link is Up && encodable) <==> link_next(link, LinkEvent::Message { encodable }).1
            == LinkAction::Drop,
{
}

/// A payload is framed whole if it is at most 8 MiB long, and else refused with its
/// length, as far as that can be told.
pub proof fn law_payloads_up_to_the_limit_are_framed(
    payload: Seq<u8>,
    out: Result<Seq<u8>, FrameError>,
)
    requires
        encoded(payload, out),
    ensures
        out is Ok <==> payload.len() <= 8 * 1024 * 1024,
        out matches Ok(bytes) ==> bytes.len() == payload.len() + 4 && bytes.skip(4) == payload
            && announced(bytes) == payload.len(),
        out matches Err(FrameError::Oversize { len }) ==> (payload.len() <= u32::MAX ==> len
            == payload.len()) && (payload.len() > u32::MAX ==> len == u32::MAX),
{
    if payload.len() <= u32::MAX {
        law_a_frame_is_length_and_payload(payload);
    }
}

} // verus!
