//! The pipeline client: many calls in flight on one connection.
//!
//! Requests go out in the order of their calls, and the n-th reply that comes
//! in settles the n-th call still pending. The caller performs the reads and
//! writes; this type decides what they mean.

use crate::error::Error;
use crate::session::{
    lemma_drain_incomplete, lemma_drain_wire, wire, Received, Session, SessionView,
};
use crate::text::holds_delimiter;
use std::collections::VecDeque;
use vstd::prelude::*;

verus! {

/// Where a connection stands in its life.
#[derive(Clone, Copy, Debug, PartialEq, Eq, Structural)]
pub enum State {
    /// The stream is not connected yet.
    Connecting,
    /// Calls are accepted and replies settle them.
    Open,
    /// The connection ended; what was already encoded may still be written.
    Closing,
    /// Nothing is left to do. Calls fail at once.
    Closed,
}

impl State {
    /// How far along its life a connection in this state is.
    pub open spec fn rank(self) -> nat {
        match self {
            State::Connecting => 0,
            State::Open => 1,
            State::Closing => 2,
            State::Closed => 3,
        }
    }
}

/// How one call ended: the handle that the caller gave with the call, and the
/// reply or the failure.
#[derive(Debug)]
pub struct Resolution<H> {
    pub handle: H,
    pub outcome: Result<String, Error>,
}

/// A `Resolution` as contracts see it: the reply as its text.
pub struct Settled<H> {
    pub handle: H,
    pub outcome: Result<Seq<char>, Error>,
}

/// An outcome with the reply as its text.
pub open spec fn outcome_view(outcome: Result<String, Error>) -> Result<Seq<char>, Error> {
    match outcome {
        Ok(text) => Ok(text@),
        Err(e) => Err(e),
    }
}

impl<H> View for Resolution<H> {
    type V = Settled<H>;

    open spec fn view(&self) -> Settled<H> {
        Settled { handle: self.handle, outcome: outcome_view(self.outcome) }
    }
}

impl<H> DeepView for Resolution<H> {
    type V = Settled<H>;

    open spec fn deep_view(&self) -> Settled<H> {
        self.view()
    }
}

/// Pushing a resolution onto a vector pushes its view onto the vector's.
pub proof fn lemma_push_view<H>(
    before: Vec<Resolution<H>>,
    after: Vec<Resolution<H>>,
    last: Resolution<H>,
)
    requires
        after@ == before@.push(last),
    ensures
        after.deep_view() == before.deep_view().push(last@),
{
    assert(after.deep_view() =~= before.deep_view().push(last@));
}

/// The calls at the head of `handles` settled with `texts`, one reply each, in
/// order, as far as both reach.
pub open spec fn replies<H>(handles: Seq<H>, texts: Seq<Seq<char>>) -> Seq<Settled<H>> {
    Seq::new(
        if texts.len() <= handles.len() {
            texts.len()
        } else {
            handles.len()
        },
        |i: int| Settled { handle: handles[i], outcome: Ok(texts[i]) },
    )
}

/// Every call of `handles` failed with `ConnectionFailed`, in order.
pub open spec fn failures<H>(handles: Seq<H>) -> Seq<Settled<H>> {
    Seq::new(handles.len(), |i: int| Settled { handle: handles[i], outcome: Err(Error::ConnectionFailed) })
}

/// The state of a pipeline client, as contracts see it.
pub struct PipelineView<H> {
    pub state: State,
    /// The handles of the calls that were sent and not settled, oldest first.
    pub pending: Seq<H>,
    pub session: SessionView,
}

impl<H> PipelineView<H> {
    /// A client right after it was made.
    pub open spec fn fresh() -> Self {
        PipelineView { state: State::Connecting, pending: Seq::empty(), session: SessionView::fresh() }
    }

    /// What every client keeps: calls are pending only on an open connection,
    /// the session is torn down exactly when the connection ended, and a
    /// client that is closed has nothing left to write.
    pub open spec fn wf(self) -> bool {
        &&& self.session.wf()
        &&& self.session.closed <==> (self.state is Closing || self.state is Closed)
        &&& !(self.state is Open) ==> self.pending.len() == 0
        &&& self.state is Connecting ==> self.session == SessionView::fresh()
        &&& self.state is Closed ==> self.session.outbound.len() == 0
    }

    /// A call made now is sent.
    pub open spec fn accepts(self) -> bool {
        self.state is Open && !self.session.closed
    }

    /// The client after the stream was connected.
    pub open spec fn established(self) -> Self {
        if self.state is Connecting {
            PipelineView { state: State::Open, ..self }
        } else {
            self
        }
    }

    /// The client after a call.
    pub open spec fn call(self, request: Seq<char>, handle: H) -> Self {
        if self.accepts() {
            PipelineView {
                state: self.state,
                pending: self.pending.push(handle),
                session: self.session.send(request),
            }
        } else {
            self
        }
    }

    /// The read of `bytes` ends the connection: a frame in it is not valid
    /// text, or it holds a reply that no call waits for.
    pub open spec fn torn_by(self, bytes: Seq<u8>) -> bool {
        let found = self.session.arrivals(bytes);
        self.state is Open && (found.broken || found.messages.len() > self.pending.len())
    }

    /// How many of the pending calls the read of `bytes` answers.
    pub open spec fn answered(self, bytes: Seq<u8>) -> int {
        let texts = self.session.arrivals(bytes).messages;
        if !(self.state is Open) {
            0
        } else if texts.len() <= self.pending.len() {
            texts.len() as int
        } else {
            self.pending.len() as int
        }
    }

    /// The calls that the read of `bytes` settles, in order: the oldest calls
    /// get the replies, one each; when the read ends the connection, the calls
    /// left over fail.
    pub open spec fn settled(self, bytes: Seq<u8>) -> Seq<Settled<H>> {
        let texts = self.session.arrivals(bytes).messages;
        if !(self.state is Open) {
            Seq::empty()
        } else if self.torn_by(bytes) {
            replies(self.pending, texts) + failures(self.pending.skip(self.answered(bytes)))
        } else {
            replies(self.pending, texts)
        }
    }

    /// The client after the read of `bytes`.
    pub open spec fn receive(self, bytes: Seq<u8>) -> Self {
        if !(self.state is Open) {
            self
        } else if self.torn_by(bytes) {
            PipelineView {
                state: State::Closing,
                pending: Seq::empty(),
                session: self.session.receive(bytes).close(),
            }
        } else {
            PipelineView {
                state: self.state,
                pending: self.pending.skip(self.answered(bytes)),
                session: self.session.receive(bytes),
            }
        }
    }

    /// The client after the connection ended: by the end of the stream, by an
    /// error of the stream, or because the caller shut it down.
    pub open spec fn terminate(self) -> Self {
        PipelineView {
            state: if self.state is Closed {
                State::Closed
            } else {
                State::Closing
            },
            pending: Seq::empty(),
            session: self.session.close(),
        }
    }

    /// The client after the bytes to write were taken.
    pub open spec fn transmit(self) -> Self {
        PipelineView {
            state: if self.state is Closing {
                State::Closed
            } else {
                self.state
            },
            pending: self.pending,
            session: self.session.transmit(),
        }
    }
}

impl<H> PipelineView<H> {
    /// The client after several reads, one after the other, and the calls that
    /// they settled, in order.
    pub open spec fn receive_all(self, chunks: Seq<Seq<u8>>) -> (Self, Seq<Settled<H>>)
        decreases chunks.len(),
    {
        if chunks.len() == 0 {
            (self, Seq::empty())
        } else {
            let (before, early) = self.receive_all(chunks.drop_last());
            (before.receive(chunks.last()), early + before.settled(chunks.last()))
        }
    }
}

/// Replies are dealt out in order: what the first replies leave over goes to
/// the calls behind those that they answered.
proof fn lemma_replies_append<H>(handles: Seq<H>, early: Seq<Seq<char>>, late: Seq<Seq<char>>)
    ensures
        early.len() <= handles.len() ==> replies(handles, early + late) == replies(handles, early)
            + replies(handles.skip(early.len() as int), late),
        early.len() >= handles.len() ==> replies(handles, early + late) == replies(handles, early),
{
    if early.len() <= handles.len() {
        assert(replies(handles, early + late) =~= replies(handles, early) + replies(
            handles.skip(early.len() as int),
            late,
        ));
    }
    if early.len() >= handles.len() {
        assert(replies(handles, early + late) =~= replies(handles, early));
    }
}

/// Two reads settle the calls that one read of all their bytes settles, in
/// the same order, and leave the client in the same state.
pub proof fn lemma_receive_in_pieces<H>(v: PipelineView<H>, first: Seq<u8>, second: Seq<u8>)
    ensures
        v.receive(first).receive(second) == v.receive(first + second),
        v.settled(first) + v.receive(first).settled(second) == v.settled(first + second),
{
    let s = v.session;
    let p = v.pending;
    let mid = v.receive(first);
    let early = s.arrivals(first).messages;
    let late = s.receive(first).arrivals(second).messages;
    crate::session::lemma_receive_in_pieces(s, first, second);
    lemma_replies_append(p, early, late);
    if !(v.state is Open) {
        assert(v.settled(first) + mid.settled(second) =~= v.settled(first + second));
    } else if v.torn_by(first) {
        assert(v.torn_by(first + second));
        assert(v.settled(first) + mid.settled(second) =~= v.settled(first));
        if s.arrivals(first).broken {
            assert(late =~= Seq::empty());
            assert(early + late =~= early);
        } else {
            assert(p.skip(v.answered(first)) =~= p.skip(v.answered(first + second)));
        }
    } else {
        let a = v.answered(first);
        assert(mid.pending == p.skip(a));
        assert(mid.session == s.receive(first));
        assert(mid.torn_by(second) == v.torn_by(first + second));
        assert(p.skip(a).skip(mid.answered(second)) =~= p.skip(v.answered(first + second)));
        if mid.torn_by(second) {
            assert(v.settled(first) + mid.settled(second) =~= v.settled(first + second));
        } else {
            assert(v.settled(first) + mid.settled(second) =~= v.settled(first + second));
        }
    }
}

/// However the bytes of a stream are cut into reads, the client settles the
/// calls that one read of all the bytes settles, in the same order, and ends
/// in the same state.
pub proof fn lemma_receive_chunked<H>(v: PipelineView<H>, chunks: Seq<Seq<u8>>)
    requires
        v.wf(),
    ensures
        v.receive_all(chunks) == (v.receive(chunks.flatten()), v.settled(chunks.flatten())),
    decreases chunks.len(),
{
    chunks.lemma_flatten_and_flatten_alt_are_equivalent();
    if chunks.len() == 0 {
        let none = Seq::<u8>::empty();
        crate::session::lemma_no_message_before_delimiter(v.session, none);
        assert(v.session.inbound + none =~= v.session.inbound);
        assert(v.pending.skip(0) =~= v.pending);
        assert(v.settled(none) =~= Seq::empty());
    } else {
        let front = chunks.drop_last();
        front.lemma_flatten_and_flatten_alt_are_equivalent();
        lemma_receive_chunked(v, front);
        lemma_receive_in_pieces(v, front.flatten(), chunks.last());
    }
}

/// Replies settle calls first in, first out: when the server answers the
/// oldest pending calls in the order in which they were sent, each call gets
/// its own reply, however the reads cut the bytes of the replies (the first
/// of which may have come in before). The calls behind them stay pending and
/// the connection stays open.
pub proof fn lemma_fifo<H>(v: PipelineView<H>, texts: Seq<Seq<char>>, chunks: Seq<Seq<u8>>)
    requires
        v.wf(),
        v.state is Open,
        texts.len() <= v.pending.len(),
        forall|i: int| 0 <= i < texts.len() ==> !holds_delimiter(#[trigger] texts[i]),
        v.session.inbound + chunks.flatten() == wire(texts),
    ensures
        v.receive_all(chunks).1 == replies(v.pending, texts),
        v.receive_all(chunks).1.len() == texts.len(),
        forall|i: int|
            0 <= i < texts.len() ==> #[trigger] v.receive_all(chunks).1[i] == (Settled {
                handle: v.pending[i],
                outcome: Ok(texts[i]),
            }),
        v.receive_all(chunks).0 == (PipelineView {
            state: State::Open,
            pending: v.pending.skip(texts.len() as int),
            session: SessionView { inbound: Seq::empty(), ..v.session },
        }),
{
    let none = Seq::<u8>::empty();
    let bytes = wire(texts);
    lemma_receive_chunked(v, chunks);
    lemma_drain_wire(texts, none);
    lemma_drain_incomplete(none);
    assert(bytes + none =~= bytes);
    assert(texts + Seq::<Seq<char>>::empty() =~= texts);
}

/// The handles of `settled`, in order.
pub open spec fn handles_of<H>(settled: Seq<Settled<H>>) -> Seq<H> {
    Seq::new(settled.len(), |i: int| settled[i].handle)
}

/// No call is dropped and no reply is made up: the calls that a read settles
/// and the calls that stay pending are, in order, the calls that were pending,
/// each one once. When the connection ends, all of them are settled.
pub proof fn lemma_no_call_lost<H>(v: PipelineView<H>, bytes: Seq<u8>)
    ensures
        handles_of(v.settled(bytes)) + v.receive(bytes).pending == v.pending,
        handles_of(failures(v.pending)) == v.pending,
        v.terminate().pending.len() == 0,
{
    assert(handles_of(v.settled(bytes)) + v.receive(bytes).pending =~= v.pending);
    assert(handles_of(failures(v.pending)) =~= v.pending);
}

/// A connection only moves forward through its states: no event takes it
/// back to a state it has left, and nothing leads out of `Closed`.
pub proof fn lemma_state_advances<H>(
    v: PipelineView<H>,
    request: Seq<char>,
    handle: H,
    bytes: Seq<u8>,
)
    ensures
        v.state.rank() <= v.established().state.rank(),
        v.state.rank() <= v.call(request, handle).state.rank(),
        v.state.rank() <= v.receive(bytes).state.rank(),
        v.state.rank() <= v.terminate().state.rank(),
        v.state.rank() <= v.transmit().state.rank(),
        v.state is Closed ==> {
            &&& v.established().state is Closed
            &&& v.call(request, handle).state is Closed
            &&& v.receive(bytes).state is Closed
            &&& v.terminate().state is Closed
            &&& v.transmit().state is Closed
        },
{
}

/// Once the connection has ended, a call changes nothing and no read settles
/// anything: the client never writes or hands out a reply again.
pub proof fn lemma_ended_is_inert<H>(
    v: PipelineView<H>,
    request: Seq<char>,
    handle: H,
    bytes: Seq<u8>,
)
    requires
        v.state is Closing || v.state is Closed,
    ensures
        !v.accepts(),
        v.call(request, handle) == v,
        v.receive(bytes) == v,
        v.settled(bytes).len() == 0,
{
}

/// A pipeline client for one connection. `H` is what the caller gives with a
/// call to know it again when it is settled.
pub struct Pipeline<H> {
    state: State,
    pending: VecDeque<H>,
    session: Session,
}

impl<H> View for Pipeline<H> {
    type V = PipelineView<H>;

    closed spec fn view(&self) -> PipelineView<H> {
        PipelineView { state: self.state, pending: self.pending@, session: self.session@ }
    }
}

impl<H> Pipeline<H> {
    /// A client for a connection that is not established yet.
    pub fn new() -> (p: Self)
        ensures
            p@ == PipelineView::<H>::fresh(),
            p@.wf(),
    {
        Pipeline { state: State::Connecting, pending: VecDeque::new(), session: Session::new() }
    }

    /// Where the connection stands.
    pub fn state(&self) -> (s: State)
        ensures
            s == self@.state,
    {
        self.state
    }

    /// The number of calls that wait for their reply.
    pub fn pending(&self) -> (n: usize)
        ensures
            n == self@.pending.len(),
    {
        self.pending.len()
    }

    /// The stream is connected: a connecting client opens. In any other state
    /// nothing changes.
    pub fn established(&mut self)
        ensures
            final(self)@ == old(self)@.established(),
            old(self)@.wf() ==> final(self)@.wf(),
    {
        match self.state {
            State::Connecting => {
                self.state = State::Open;
            },
            _ => {},
        }
    }

    /// Makes a call: on an open connection the request's frame is put behind
    /// the bytes to write and `handle` joins the end of the queue. Otherwise
    /// the call fails at once with `ConnectionFailed` and nothing changes.
    pub fn call(&mut self, request: String, handle: H) -> (r: Result<(), Error>)
        ensures
            final(self)@ == old(self)@.call(request@, handle),
            r == (if old(self)@.accepts() {
                Ok::<(), Error>(())
            } else {
                Err::<(), Error>(Error::ConnectionFailed)
            }),
            old(self)@.wf() ==> final(self)@.wf(),
    {
        match self.state {
            State::Open => {},
            _ => {
                return Err(Error::ConnectionFailed);
            },
        }
        match self.session.send(request) {
            Ok(()) => {
                self.pending.push_back(handle);
                Ok(())
            },
            Err(e) => Err(e),
        }
    }

    /// Takes in the bytes of one read and settles calls with the replies that
    /// are now complete: the first reply goes to the oldest pending call, the
    /// next to the one after it, and so on.
    ///
    /// A frame that is not valid text, or a reply that no call waits for, ends
    /// the connection: the calls still pending fail with `ConnectionFailed`,
    /// in the order of the queue. A client that is not open takes nothing in.
    pub fn receive(&mut self, bytes: &[u8]) -> (resolved: Vec<Resolution<H>>)
        ensures
            final(self)@ == old(self)@.receive(bytes@),
            resolved.deep_view() == old(self)@.settled(bytes@),
            old(self)@.wf() ==> final(self)@.wf(),
    {
        let mut resolved: Vec<Resolution<H>> = Vec::new();
        match self.state {
            State::Open => {},
            _ => {
                assert(resolved.deep_view() =~= Seq::<Settled<H>>::empty());
                return resolved;
            },
        }
        let Received { messages, fault } = self.session.receive(bytes);
        let ghost texts = messages.deep_view();
        let ghost handles = self.pending@;
        let mut unsolicited = false;
        for message in it: messages.into_iter()
            invariant
                texts.len() == it.seq().len(),
                forall|j: int| 0 <= j < texts.len() ==> texts[j] == it.seq()[j]@,
                self.state == old(self).state,
                old(self).state is Open,
                handles == old(self).pending@,
                self.session@ == old(self).session@.receive(bytes@),
                texts == old(self).session@.arrivals(bytes@).messages,
                fault is Some == old(self).session@.arrivals(bytes@).broken,
                unsolicited == (it.index() > handles.len()),
                self.pending@ == handles.skip(
                    if it.index() <= handles.len() {
                        it.index() as int
                    } else {
                        handles.len() as int
                    },
                ),
                resolved.deep_view() == replies(handles, texts.take(it.index() as int)),
        {
            let ghost before = resolved;
            let ghost i = it.index() as int;
            match self.pending.pop_front() {
                Some(handle) => {
                    resolved.push(Resolution { handle, outcome: Ok(message) });
                    proof {
                        lemma_push_view(before, resolved, resolved@.last());
                    }
                    assert(resolved.deep_view() =~= replies(handles, texts.take(i + 1)));
                    assert(self.pending@ =~= handles.skip(i + 1));
                },
                None => {
                    unsolicited = true;
                    assert(replies(handles, texts.take(i + 1)) =~= before.deep_view());
                },
            }
        }
        assert(texts.take(texts.len() as int) =~= texts);
        if unsolicited || fault.is_some() {
            self.fail_pending(&mut resolved);
            self.session.close();
            self.state = State::Closing;
            assert(self.pending@ =~= Seq::<H>::empty());
        }
        resolved
    }

    /// The connection ended: every pending call fails with
    /// `ConnectionFailed`, in the order of the queue, and the queue is empty
    /// afterwards. Calls made from now on fail at once.
    pub fn terminate(&mut self) -> (resolved: Vec<Resolution<H>>)
        ensures
            final(self)@ == old(self)@.terminate(),
            resolved.deep_view() == failures(old(self)@.pending),
            !final(self)@.accepts(),
            old(self)@.wf() ==> final(self)@.wf(),
    {
        let mut resolved: Vec<Resolution<H>> = Vec::new();
        proof {
            assert(resolved.deep_view() =~= Seq::<Settled<H>>::empty());
        }
        self.fail_pending(&mut resolved);
        self.session.close();
        match self.state {
            State::Closed => {},
            _ => {
                self.state = State::Closing;
            },
        }
        assert(resolved.deep_view() =~= failures(old(self)@.pending));
        assert(self.pending@ =~= Seq::<H>::empty());
        resolved
    }

    /// Hands over the bytes to write and forgets them. A client that was
    /// closing is closed once they are taken.
    pub fn transmit(&mut self) -> (bytes: Vec<u8>)
        ensures
            bytes@ == old(self)@.session.outbound,
            final(self)@ == old(self)@.transmit(),
            old(self)@.wf() ==> final(self)@.wf(),
    {
        let bytes = self.session.transmit();
        match self.state {
            State::Closing => {
                self.state = State::Closed;
            },
            _ => {},
        }
        bytes
    }

    /// Empties the queue into `resolved`, each call failed.
    fn fail_pending(&mut self, resolved: &mut Vec<Resolution<H>>)
        ensures
            final(self).pending@.len() == 0,
            final(self).state == old(self).state,
            final(self).session == old(self).session,
            final(resolved).deep_view() == old(resolved).deep_view() + failures(old(self).pending@),
    {
        let ghost handles = self.pending@;
        let ghost before = resolved.deep_view();
        assert(before + failures(handles.take(0)) =~= before);
        loop
            invariant
                self.state == old(self).state,
                self.session == old(self).session,
                self.pending@.len() <= handles.len(),
                self.pending@ == handles.skip(handles.len() - self.pending@.len()),
                resolved.deep_view() == before + failures(
                    handles.take(handles.len() - self.pending@.len()),
                ),
                handles == old(self).pending@,
                before == old(resolved).deep_view(),
            decreases self.pending@.len(),
        {
            let ghost done = handles.len() - self.pending@.len();
            match self.pending.pop_front() {
                Some(handle) => {
                    let ghost sofar = *resolved;
                    resolved.push(Resolution { handle, outcome: Err(Error::ConnectionFailed) });
                    proof {
                        lemma_push_view(sofar, *resolved, resolved@.last());
                    }
                    assert(resolved.deep_view() =~= before + failures(handles.take(done + 1)));
                    assert(self.pending@ =~= handles.skip(done + 1));
                },
                None => {
                    assert(handles.take(handles.len() as int) =~= handles);
                    return ;
                },
            }
        }
    }
}

} // verus!
