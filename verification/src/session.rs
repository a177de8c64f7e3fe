//! The transport session: one connection's buffers around the codec.
//!
//! The session holds the bytes that came in and do not yet make a whole frame,
//! and the frames that wait to be written. Its owner reads from and writes to
//! the stream and hands the bytes through.

use crate::buffer::{buf_bytes, buf_extend};
use crate::codec::{
    decoded, first_delimiter, frame, is_first_delimiter, lemma_first_delimiter_at,
    lemma_first_delimiter_none, lemma_round_trip, remainder, WorkqCodec,
};
use crate::error::Error;
use crate::text::{holds_delimiter, text_of, DELIMITER};
use tokio_core::io::EasyBuf;
use vstd::prelude::*;

verus! {

/// What a run of decoding steps gets out of a buffer.
pub struct Drained {
    /// The messages of the complete frames, in the order of their frames.
    pub messages: Seq<Seq<char>>,
    /// The bytes that stay behind: the start of a frame not yet complete.
    pub rest: Seq<u8>,
    /// A frame was not valid text. Decoding stopped there, and the frame and
    /// all behind it were thrown away.
    pub broken: bool,
}

/// Decodes `bytes` frame by frame until no complete frame is left or a frame
/// is not valid text.
pub open spec fn drain(bytes: Seq<u8>) -> Drained
    decreases bytes.len(),
    via drain_decreases
{
    match decoded(bytes) {
        Ok(None) => Drained { messages: Seq::empty(), rest: bytes, broken: false },
        Err(_) => Drained { messages: Seq::empty(), rest: Seq::empty(), broken: true },
        Ok(Some(text)) => {
            let behind = drain(remainder(bytes));
            Drained { messages: seq![text] + behind.messages, rest: behind.rest, broken: behind.broken }
        },
    }
}

#[via_fn]
proof fn drain_decreases(bytes: Seq<u8>) {
    lemma_first_delimiter_none(bytes);
}

/// What stays behind after draining holds no delimiter, and nothing stays
/// behind a broken frame.
pub proof fn lemma_drain_rest(bytes: Seq<u8>)
    ensures
        !drain(bytes).rest.contains(DELIMITER),
        drain(bytes).broken ==> drain(bytes).rest.len() == 0,
    decreases bytes.len(),
{
    lemma_first_delimiter_none(bytes);
    match decoded(bytes) {
        Ok(Some(_)) => {
            lemma_drain_rest(remainder(bytes));
        },
        _ => {},
    }
}

/// Bytes without a delimiter drain to nothing and stay as they are.
pub proof fn lemma_drain_incomplete(bytes: Seq<u8>)
    requires
        !bytes.contains(DELIMITER),
    ensures
        drain(bytes) == (Drained { messages: Seq::empty(), rest: bytes, broken: false }),
{
    lemma_first_delimiter_none(bytes);
}

/// Draining does not depend on when the bytes came: draining `held` and then
/// what stayed behind together with `more` gives what draining all of it at
/// once gives. After a broken frame, more bytes change nothing.
pub proof fn lemma_drain_append(held: Seq<u8>, more: Seq<u8>)
    ensures
        drain(held).broken ==> drain(held + more) == drain(held),
        !drain(held).broken ==> {
            let early = drain(held);
            let late = drain(early.rest + more);
            drain(held + more) == (Drained {
                messages: early.messages + late.messages,
                rest: late.rest,
                broken: late.broken,
            })
        },
    decreases held.len(),
{
    lemma_first_delimiter_none(held);
    match first_delimiter(held) {
        None => {
            assert(drain(held).messages + drain(held + more).messages =~= drain(
                held + more,
            ).messages);
        },
        Some(n) => {
            let all = held + more;
            assert(is_first_delimiter(all, n));
            lemma_first_delimiter_at(all, n);
            assert(all.take(n) =~= held.take(n));
            assert(all.skip(n + 1) =~= held.skip(n + 1) + more);
            if let Ok(text) = text_of(held.take(n)) {
                let tail = held.skip(n + 1);
                lemma_drain_append(tail, more);
                if !drain(tail).broken {
                    let late = drain(drain(tail).rest + more);
                    assert(seq![text] + (drain(tail).messages + late.messages) =~= (seq![text]
                        + drain(tail).messages) + late.messages);
                }
            }
        },
    }
}

/// The bytes of several messages on the wire: their frames, one after the
/// other.
pub open spec fn wire(texts: Seq<Seq<char>>) -> Seq<u8>
    decreases texts.len(),
{
    if texts.len() == 0 {
        Seq::empty()
    } else {
        frame(texts.first()) + wire(texts.drop_first())
    }
}

/// Messages without a delimiter come off the wire as they went onto it, in
/// order, followed by whatever the bytes behind them hold.
pub proof fn lemma_drain_wire(texts: Seq<Seq<char>>, behind: Seq<u8>)
    requires
        forall|i: int| 0 <= i < texts.len() ==> !holds_delimiter(#[trigger] texts[i]),
    ensures
        drain(wire(texts) + behind) == (Drained {
            messages: texts + drain(behind).messages,
            rest: drain(behind).rest,
            broken: drain(behind).broken,
        }),
    decreases texts.len(),
{
    if texts.len() == 0 {
        assert(wire(texts) + behind =~= behind);
        assert(texts + drain(behind).messages =~= drain(behind).messages);
    } else {
        let tail = texts.drop_first();
        let after = wire(tail) + behind;
        assert(wire(texts) + behind =~= frame(texts.first()) + after);
        lemma_round_trip(texts.first(), after);
        assert forall|i: int| 0 <= i < tail.len() implies !holds_delimiter(#[trigger] tail[i]) by {
            assert(tail[i] == texts[i + 1]);
        }
        lemma_drain_wire(tail, behind);
        assert(seq![texts.first()] + (tail + drain(behind).messages) =~= texts + drain(
            behind,
        ).messages);
    }
}

/// The state of a session, as contracts see it.
pub struct SessionView {
    /// Bytes that came in and do not yet make a whole frame.
    pub inbound: Seq<u8>,
    /// Frames that wait to be written to the stream.
    pub outbound: Seq<u8>,
    /// The session was torn down.
    pub closed: bool,
}

impl SessionView {
    /// A session right after it was made.
    pub open spec fn fresh() -> SessionView {
        SessionView { inbound: Seq::empty(), outbound: Seq::empty(), closed: false }
    }

    /// What every session keeps: the bytes it holds back contain no complete
    /// frame, and a session that was torn down holds none back.
    pub open spec fn wf(self) -> bool {
        &&& !self.inbound.contains(DELIMITER)
        &&& self.closed ==> self.inbound.len() == 0
    }

    /// What the bytes of one read bring to light.
    pub open spec fn arrivals(self, bytes: Seq<u8>) -> Drained {
        if self.closed {
            Drained { messages: Seq::empty(), rest: self.inbound, broken: false }
        } else {
            drain(self.inbound + bytes)
        }
    }

    /// The session after the bytes of one read.
    pub open spec fn receive(self, bytes: Seq<u8>) -> SessionView {
        let found = self.arrivals(bytes);
        SessionView { inbound: found.rest, outbound: self.outbound, closed: self.closed || found.broken }
    }

    /// The session after one message was sent.
    pub open spec fn send(self, text: Seq<char>) -> SessionView {
        if self.closed {
            self
        } else {
            SessionView { outbound: self.outbound + frame(text), ..self }
        }
    }

    /// The session after its owner took the bytes to write.
    pub open spec fn transmit(self) -> SessionView {
        SessionView { outbound: Seq::empty(), ..self }
    }

    /// The session after it was torn down.
    pub open spec fn close(self) -> SessionView {
        SessionView { inbound: Seq::empty(), outbound: self.outbound, closed: true }
    }

    /// The session after several reads, one after the other, and the messages
    /// that they brought.
    pub open spec fn receive_all(self, chunks: Seq<Seq<u8>>) -> (SessionView, Seq<Seq<char>>)
        decreases chunks.len(),
    {
        if chunks.len() == 0 {
            (self, Seq::empty())
        } else {
            let (before, early) = self.receive_all(chunks.drop_last());
            (before.receive(chunks.last()), early + before.arrivals(chunks.last()).messages)
        }
    }
}

/// The chunks that hand over `bytes` one byte at a time.
pub open spec fn singly(bytes: Seq<u8>) -> Seq<Seq<u8>> {
    Seq::new(bytes.len(), |i: int| seq![bytes[i]])
}

/// Two reads bring what one read of all their bytes brings, and leave the
/// session in the same state.
pub proof fn lemma_receive_in_pieces(s: SessionView, first: Seq<u8>, second: Seq<u8>)
    ensures
        s.receive(first).receive(second) == s.receive(first + second),
        s.arrivals(first).messages + s.receive(first).arrivals(second).messages == s.arrivals(
            first + second,
        ).messages,
        s.arrivals(first + second).broken == (s.arrivals(first).broken || s.receive(first).arrivals(
            second,
        ).broken),
{
    if !s.closed {
        lemma_drain_append(s.inbound + first, second);
        assert((s.inbound + first) + second =~= s.inbound + (first + second));
    }
    assert(s.arrivals(first).messages + s.receive(first).arrivals(second).messages =~= s.arrivals(
        first + second,
    ).messages);
}

/// However the bytes of a stream are cut into reads, the session hands out the
/// messages that one read of all the bytes hands out, and ends in the same
/// state.
pub proof fn lemma_receive_chunked(s: SessionView, chunks: Seq<Seq<u8>>)
    requires
        s.wf(),
    ensures
        s.receive_all(chunks) == (s.receive(chunks.flatten()), s.arrivals(chunks.flatten()).messages),
    decreases chunks.len(),
{
    chunks.lemma_flatten_and_flatten_alt_are_equivalent();
    if chunks.len() == 0 {
        if !s.closed {
            assert(s.inbound + Seq::<u8>::empty() =~= s.inbound);
            lemma_drain_incomplete(s.inbound);
        }
    } else {
        let front = chunks.drop_last();
        front.lemma_flatten_and_flatten_alt_are_equivalent();
        lemma_receive_chunked(s, front);
        lemma_receive_in_pieces(s, front.flatten(), chunks.last());
    }
}

/// Fed one byte at a time, the session hands out the messages that it hands
/// out when fed all the bytes at once.
pub proof fn lemma_receive_byte_by_byte(s: SessionView, bytes: Seq<u8>)
    requires
        s.wf(),
    ensures
        s.receive_all(singly(bytes)) == (s.receive(bytes), s.arrivals(bytes).messages),
{
    lemma_singly_flatten(bytes);
    lemma_receive_chunked(s, singly(bytes));
}

/// Laid end to end, the one-byte chunks of `bytes` are `bytes`.
proof fn lemma_singly_flatten(bytes: Seq<u8>)
    ensures
        singly(bytes).flatten() == bytes,
    decreases bytes.len(),
{
    let chunks = singly(bytes);
    chunks.lemma_flatten_and_flatten_alt_are_equivalent();
    if bytes.len() > 0 {
        let front = bytes.drop_last();
        lemma_singly_flatten(front);
        singly(front).lemma_flatten_and_flatten_alt_are_equivalent();
        assert(chunks.drop_last() =~= singly(front));
        assert(front + chunks.last() =~= bytes);
    }
}

/// No message comes out before its delimiter came in: a read without a
/// delimiter brings no message, whatever the session held back before.
pub proof fn lemma_no_message_before_delimiter(s: SessionView, bytes: Seq<u8>)
    requires
        s.wf(),
        !bytes.contains(DELIMITER),
    ensures
        s.arrivals(bytes).messages.len() == 0,
        !s.closed ==> s.receive(bytes).inbound == s.inbound + bytes,
{
    let all = s.inbound + bytes;
    if all.contains(DELIMITER) {
        let i = choose|i: int| 0 <= i < all.len() && all[i] == DELIMITER;
        if i < s.inbound.len() {
            assert(s.inbound.contains(s.inbound[i]));
        } else {
            assert(bytes.contains(bytes[i - s.inbound.len()]));
        }
    }
    lemma_drain_incomplete(all);
}

/// What one read of a session hands to its owner.
pub struct Received {
    /// The messages that became complete, oldest first.
    pub messages: Vec<String>,
    /// Set when a frame was not valid text and the session was torn down.
    pub fault: Option<Error>,
}

/// One connection's frame buffer and write buffer.
pub struct Session {
    codec: WorkqCodec,
    inbound: EasyBuf,
    outbound: Vec<u8>,
    closed: bool,
}

impl View for Session {
    type V = SessionView;

    closed spec fn view(&self) -> SessionView {
        SessionView {
            inbound: buf_bytes(self.inbound),
            outbound: self.outbound@,
            closed: self.closed,
        }
    }
}

impl Session {
    /// A session with empty buffers.
    pub fn new() -> (s: Session)
        ensures
            s@ == SessionView::fresh(),
            s@.wf(),
    {
        Session { codec: WorkqCodec, inbound: EasyBuf::new(), outbound: Vec::new(), closed: false }
    }

    /// Tells whether the session was torn down.
    pub fn is_closed(&self) -> (r: bool)
        ensures
            r == self@.closed,
    {
        self.closed
    }

    /// Puts the frame of `message` behind the bytes that wait to be written.
    /// A session that was torn down refuses and stays as it is.
    pub fn send(&mut self, message: String) -> (r: Result<(), Error>)
        ensures
            final(self)@ == old(self)@.send(message@),
            r == (if old(self)@.closed {
                Err::<(), Error>(Error::ConnectionFailed)
            } else {
                Ok::<(), Error>(())
            }),
            old(self)@.wf() ==> final(self)@.wf(),
    {
        if self.closed {
            return Err(Error::ConnectionFailed);
        }
        let _ = self.codec.encode(message, &mut self.outbound);
        Ok(())
    }

    /// Takes in the bytes of one read and hands out every message that is now
    /// complete.
    ///
    /// A frame that is not valid text tears the session down: the messages in
    /// front of it are still handed out, the fault is reported, and all the
    /// bytes held back are thrown away. A session that was torn down takes
    /// nothing in.
    pub fn receive(&mut self, bytes: &[u8]) -> (r: Received)
        ensures
            final(self)@ == old(self)@.receive(bytes@),
            r.messages.deep_view() == old(self)@.arrivals(bytes@).messages,
            r.fault == (if old(self)@.arrivals(bytes@).broken {
                Some(Error::InvalidEncoding)
            } else {
                None::<Error>
            }),
            old(self)@.wf() ==> final(self)@.wf(),
    {
        let mut messages: Vec<String> = Vec::new();
        if self.closed {
            assert(messages.deep_view() =~= Seq::<Seq<char>>::empty());
            return Received { messages, fault: None };
        }
        buf_extend(&mut self.inbound, bytes);
        let ghost all = buf_bytes(self.inbound);
        proof {
            lemma_drain_rest(all);
            assert(messages.deep_view() + drain(all).messages =~= drain(all).messages);
        }
        loop
            invariant
                !self.closed,
                self.outbound == old(self).outbound,
                drain(all).messages == messages.deep_view() + drain(
                    buf_bytes(self.inbound),
                ).messages,
                drain(all).rest == drain(buf_bytes(self.inbound)).rest,
                drain(all).broken == drain(buf_bytes(self.inbound)).broken,
                all == buf_bytes(old(self).inbound) + bytes@,
                !old(self).closed,
                !drain(all).rest.contains(DELIMITER),
                drain(all).broken ==> drain(all).rest.len() == 0,
            decreases buf_bytes(self.inbound).len(),
        {
            let ghost before = buf_bytes(self.inbound);
            let ghost sofar = messages.deep_view();
            proof {
                lemma_first_delimiter_none(before);
            }
            match self.codec.decode(&mut self.inbound) {
                Ok(Some(message)) => {
                    messages.push(message);
                    assert(messages.deep_view() =~= sofar.push(message@));
                    assert(sofar.push(message@) + drain(remainder(before)).messages =~= sofar + (
                    seq![message@] + drain(remainder(before)).messages));
                },
                Ok(None) => {
                    assert(messages.deep_view() + Seq::<Seq<char>>::empty() =~= messages.deep_view());
                    return Received { messages, fault: None };
                },
                Err(e) => {
                    self.inbound = EasyBuf::new();
                    self.closed = true;
                    assert(messages.deep_view() + Seq::<Seq<char>>::empty() =~= messages.deep_view());
                    return Received { messages, fault: Some(e) };
                },
            }
        }
    }

    /// Hands over the bytes that wait to be written and forgets them.
    pub fn transmit(&mut self) -> (bytes: Vec<u8>)
        ensures
            bytes@ == old(self)@.outbound,
            final(self)@ == old(self)@.transmit(),
            old(self)@.wf() ==> final(self)@.wf(),
    {
        let mut bytes: Vec<u8> = Vec::new();
        core::mem::swap(&mut bytes, &mut self.outbound);
        bytes
    }

    /// Tears the session down: the bytes held back are thrown away, and
    /// nothing is taken in or sent from now on. What waits to be written
    /// stays until it is taken.
    pub fn close(&mut self)
        ensures
            final(self)@ == old(self)@.close(),
            final(self)@.wf(),
    {
        self.inbound = EasyBuf::new();
        self.closed = true;
    }
}

} // verus!
