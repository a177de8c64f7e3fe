//! The client: generic calls and the `lease` command on one connection.
//!
//! The client stacks the layers of this crate: commands on top of the
//! validation decorator on top of the pipeline client. It remembers with each
//! pending call what was asked, and reads the reply accordingly.

use crate::error::Error;
use crate::lease::{lease_reply, lease_request, lease_text, lease_verdict};
use crate::pipeline::{failures, lemma_push_view, Pipeline, PipelineView, Resolution, Settled, State};
use crate::text::holds_delimiter;
use crate::validate::Validate;
use vstd::prelude::*;

verus! {

/// What a pending call asked for.
#[derive(Clone, Copy, Debug, PartialEq, Eq, Structural)]
pub enum Command {
    /// A request whose reply is handed back as it is.
    Call,
    /// A lease, which only the reply `[lease]` grants.
    Lease,
}

/// What the client queues for a call: the caller's handle and the command.
pub struct Ticket<H> {
    pub handle: H,
    pub command: Command,
}

/// How a command reads the outcome of its request.
pub open spec fn verdict(command: Command, outcome: Result<Seq<char>, Error>) -> Result<
    Seq<char>,
    Error,
> {
    match command {
        Command::Call => outcome,
        Command::Lease => lease_verdict(outcome),
    }
}

/// The settled calls as their callers see them: each under the caller's
/// handle, its outcome read by its command.
pub open spec fn concluded<H>(settled: Seq<Settled<Ticket<H>>>) -> Seq<Settled<H>> {
    Seq::new(
        settled.len(),
        |i: int|
            Settled {
                handle: settled[i].handle.handle,
                outcome: verdict(settled[i].handle.command, settled[i].outcome),
            },
    )
}

/// A failure is the same failure under every command.
pub proof fn lemma_concluded_failures<H>(tickets: Seq<Ticket<H>>)
    ensures
        concluded(failures(tickets)) == failures(Seq::new(tickets.len(), |i: int| tickets[i].handle)),
{
    assert(concluded(failures(tickets)) =~= failures(
        Seq::new(tickets.len(), |i: int| tickets[i].handle),
    ));
}

/// Reads each outcome by the command of its call.
fn conclude<H>(below: Vec<Resolution<Ticket<H>>>) -> (resolved: Vec<Resolution<H>>)
    ensures
        resolved.deep_view() == concluded(below.deep_view()),
{
    let ghost settled = below.deep_view();
    let mut resolved: Vec<Resolution<H>> = Vec::new();
    for resolution in it: below.into_iter()
        invariant
            settled.len() == it.seq().len(),
            forall|j: int| 0 <= j < settled.len() ==> settled[j] == it.seq()[j]@,
            resolved.deep_view() == concluded(settled.take(it.index() as int)),
    {
        let ghost before = resolved;
        let ghost i = it.index() as int;
        let Resolution { handle: ticket, outcome } = resolution;
        let Ticket { handle, command } = ticket;
        let outcome = match command {
            Command::Call => outcome,
            Command::Lease => lease_reply(outcome),
        };
        resolved.push(Resolution { handle, outcome });
        proof {
            lemma_push_view(before, resolved, resolved@.last());
        }
        assert(resolved.deep_view() =~= concluded(settled.take(i + 1)));
    }
    assert(settled.take(settled.len() as int) =~= settled);
    resolved
}

/// A client for one connection. `H` is what the caller gives with a call to
/// know it again when it is settled.
pub struct Client<H> {
    inner: Validate<Pipeline<Ticket<H>>>,
}

impl<H> View for Client<H> {
    type V = PipelineView<Ticket<H>>;

    closed spec fn view(&self) -> PipelineView<Ticket<H>> {
        self.inner.inner()@
    }
}

impl<H> Client<H> {
    /// A client for a connection that is about to be made. It accepts calls
    /// once `established` has told it that the stream is connected.
    pub fn connect() -> (c: Self)
        ensures
            c@ == PipelineView::<Ticket<H>>::fresh(),
            c@.wf(),
    {
        Client { inner: Validate::new(Pipeline::new()) }
    }

    /// Where the connection stands.
    pub fn state(&self) -> (s: State)
        ensures
            s == self@.state,
    {
        self.inner.state()
    }

    /// The number of calls that wait for their reply.
    pub fn pending(&self) -> (n: usize)
        ensures
            n == self@.pending.len(),
    {
        self.inner.get_ref().pending()
    }

    /// The stream is connected: a connecting client opens.
    pub fn established(&mut self)
        ensures
            final(self)@ == old(self)@.established(),
            old(self)@.wf() ==> final(self)@.wf(),
    {
        self.inner.established();
    }

    /// Sends `request` and queues `handle` for its reply.
    ///
    /// A request that holds the delimiter fails with `InvalidInput` and
    /// leaves the client untouched. On a connection that is not open the
    /// call fails with `ConnectionFailed`, and again nothing changes.
    pub fn call(&mut self, request: String, handle: H) -> (r: Result<(), Error>)
        ensures
            holds_delimiter(request@) ==> r == Err::<(), Error>(Error::InvalidInput) && *final(self)
                == *old(self),
            !holds_delimiter(request@) ==> final(self)@ == old(self)@.call(
                request@,
                Ticket { handle, command: Command::Call },
            ) && r == (if old(self)@.accepts() {
                Ok::<(), Error>(())
            } else {
                Err::<(), Error>(Error::ConnectionFailed)
            }),
            old(self)@.wf() ==> final(self)@.wf(),
    {
        self.inner.call(request, Ticket { handle, command: Command::Call })
    }

    /// Asks for a lease on `names`, for `timeout` milliseconds or ten seconds
    /// when none is given, and queues `handle` for the reply. The call is
    /// settled as granted only by the reply `[lease]`.
    ///
    /// It fails at once as `call` does: with `InvalidInput` when a name holds
    /// the delimiter, with `ConnectionFailed` when the connection is not open.
    pub fn lease(&mut self, names: Vec<String>, timeout: Option<usize>, handle: H) -> (r: Result<
        (),
        Error,
    >)
        ensures
            holds_delimiter(lease_text(names.deep_view(), timeout)) ==> r == Err::<(), Error>(
                Error::InvalidInput,
            ) && *final(self) == *old(self),
            !holds_delimiter(lease_text(names.deep_view(), timeout)) ==> final(self)@ == old(
                self,
            )@.call(
                lease_text(names.deep_view(), timeout),
                Ticket { handle, command: Command::Lease },
            ) && r == (if old(self)@.accepts() {
                Ok::<(), Error>(())
            } else {
                Err::<(), Error>(Error::ConnectionFailed)
            }),
            old(self)@.wf() ==> final(self)@.wf(),
    {
        let request = lease_request(&names, timeout);
        self.inner.call(request, Ticket { handle, command: Command::Lease })
    }

    /// Takes in the bytes of one read and hands out the calls that they
    /// settle, oldest first, each reply read by the command of its call.
    pub fn receive(&mut self, bytes: &[u8]) -> (resolved: Vec<Resolution<H>>)
        ensures
            final(self)@ == old(self)@.receive(bytes@),
            resolved.deep_view() == concluded(old(self)@.settled(bytes@)),
            old(self)@.wf() ==> final(self)@.wf(),
    {
        conclude(self.inner.receive(bytes))
    }

    /// The connection ended: every pending call fails with
    /// `ConnectionFailed`, in the order in which the calls were made.
    pub fn terminate(&mut self) -> (resolved: Vec<Resolution<H>>)
        ensures
            final(self)@ == old(self)@.terminate(),
            resolved.deep_view() == failures(
                Seq::new(old(self)@.pending.len(), |i: int| old(self)@.pending[i].handle),
            ),
            !final(self)@.accepts(),
            old(self)@.wf() ==> final(self)@.wf(),
    {
        proof {
            lemma_concluded_failures(self@.pending);
        }
        conclude(self.inner.terminate())
    }

    /// Hands over the bytes to write and forgets them.
    pub fn transmit(&mut self) -> (bytes: Vec<u8>)
        ensures
            bytes@ == old(self)@.session.outbound,
            final(self)@ == old(self)@.transmit(),
            old(self)@.wf() ==> final(self)@.wf(),
    {
        self.inner.transmit()
    }
}

} // verus!
