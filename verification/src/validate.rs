//! The validation decorator: no delimiter inside a message, in either
//! direction.
//!
//! A request that holds the delimiter would be read as two frames by the
//! server and shift every later reply to the wrong call. The decorator turns
//! such a request away before anything is sent, and does not accept such a
//! reply from the component below it.

use crate::codec::{decoded, lemma_decoded_without_delimiter, lemma_first_delimiter_none, remainder};
use crate::error::Error;
use crate::pipeline::{
    failures, lemma_push_view, outcome_view, Pipeline, PipelineView, Resolution, Settled, State,
};
use crate::session::drain;
use crate::text::{has_delimiter, holds_delimiter};
use vstd::prelude::*;

verus! {

/// What the check of a reply makes of an outcome: a reply that holds the
/// delimiter becomes `InvalidInput`, everything else stays.
pub open spec fn vetted(outcome: Result<Seq<char>, Error>) -> Result<Seq<char>, Error> {
    match outcome {
        Ok(text) => if holds_delimiter(text) {
            Err(Error::InvalidInput)
        } else {
            Ok(text)
        },
        Err(e) => Err(e),
    }
}

/// Each of `settled` with its outcome checked.
pub open spec fn vetted_all<H>(settled: Seq<Settled<H>>) -> Seq<Settled<H>> {
    Seq::new(
        settled.len(),
        |i: int| Settled { handle: settled[i].handle, outcome: vetted(settled[i].outcome) },
    )
}

/// The check before a call: a request that holds the delimiter is refused
/// with `InvalidInput`, any other is let through.
pub fn check_request(request: &str) -> (r: Result<(), Error>)
    ensures
        r == (if holds_delimiter(request@) {
            Err::<(), Error>(Error::InvalidInput)
        } else {
            Ok::<(), Error>(())
        }),
{
    if has_delimiter(request) {
        Err(Error::InvalidInput)
    } else {
        Ok(())
    }
}

/// The check after a call: a reply that holds the delimiter becomes
/// `InvalidInput`; any other reply, and any failure, is handed on as it is.
pub fn check_response(outcome: Result<String, Error>) -> (r: Result<String, Error>)
    ensures
        outcome_view(r) == vetted(outcome_view(outcome)),
        r is Ok ==> r == outcome,
{
    match outcome {
        Ok(text) => {
            if has_delimiter(text.as_str()) {
                Err(Error::InvalidInput)
            } else {
                Ok(text)
            }
        },
        Err(e) => Err(e),
    }
}

/// A component wrapped in the two checks.
pub struct Validate<T> {
    inner: T,
}

impl<T> Validate<T> {
    /// The wrapped component.
    pub closed spec fn inner(&self) -> T {
        self.inner
    }

    /// Create a new `Validate` around `inner`.
    pub fn new(inner: T) -> (v: Validate<T>)
        ensures
            v.inner() == inner,
    {
        Validate { inner: inner }
    }

    /// Borrows the wrapped component.
    pub fn get_ref(&self) -> (inner: &T)
        ensures
            *inner == self.inner(),
    {
        &self.inner
    }

    /// Takes the decorator off.
    pub fn into_inner(self) -> (inner: T)
        ensures
            inner == self.inner(),
    {
        self.inner
    }
}

/// No message that draining hands out holds the delimiter.
pub proof fn lemma_drained_without_delimiter(bytes: Seq<u8>)
    ensures
        forall|i: int|
            0 <= i < drain(bytes).messages.len() ==> !holds_delimiter(
                #[trigger] drain(bytes).messages[i],
            ),
    decreases bytes.len(),
{
    lemma_first_delimiter_none(bytes);
    lemma_decoded_without_delimiter(bytes);
    match decoded(bytes) {
        Ok(Some(text)) => {
            lemma_drained_without_delimiter(remainder(bytes));
            let behind = drain(remainder(bytes)).messages;
            assert forall|i: int| 0 <= i < drain(bytes).messages.len() implies !holds_delimiter(
                #[trigger] drain(bytes).messages[i],
            ) by {
                if i > 0 {
                    assert(drain(bytes).messages[i] == behind[i - 1]);
                }
            }
        },
        _ => {},
    }
}

/// The check of the replies never fires on what a pipeline client settles:
/// the codec took every delimiter as the end of a frame.
pub proof fn lemma_settled_pass<H>(v: PipelineView<H>, bytes: Seq<u8>)
    ensures
        vetted_all(v.settled(bytes)) == v.settled(bytes),
{
    if !v.session.closed {
        lemma_drained_without_delimiter(v.session.inbound + bytes);
    }
    assert(vetted_all(v.settled(bytes)) =~= v.settled(bytes));
}

impl<H> Validate<Pipeline<H>> {
    /// Where the connection stands.
    pub fn state(&self) -> (s: State)
        ensures
            s == self.inner()@.state,
    {
        self.inner.state()
    }

    /// The stream is connected.
    pub fn established(&mut self)
        ensures
            final(self).inner()@ == old(self).inner()@.established(),
            old(self).inner()@.wf() ==> final(self).inner()@.wf(),
    {
        self.inner.established();
    }

    /// Makes a call, unless the request holds the delimiter: then the call
    /// fails with `InvalidInput` and the client below is not touched, so that
    /// nothing of the request is ever written. A request that passes goes to
    /// the client below, whose answer is handed back.
    pub fn call(&mut self, request: String, handle: H) -> (r: Result<(), Error>)
        ensures
            holds_delimiter(request@) ==> r == Err::<(), Error>(Error::InvalidInput) && *final(self)
                == *old(self),
            !holds_delimiter(request@) ==> final(self).inner()@ == old(self).inner()@.call(
                request@,
                handle,
            ) && r == (if old(self).inner()@.accepts() {
                Ok::<(), Error>(())
            } else {
                Err::<(), Error>(Error::ConnectionFailed)
            }),
            old(self).inner()@.wf() ==> final(self).inner()@.wf(),
    {
        match check_request(request.as_str()) {
            Err(e) => Err(e),
            Ok(()) => self.inner.call(request, handle),
        }
    }

    /// Takes in the bytes of one read and hands out what the client below
    /// settles, each reply checked on its way.
    pub fn receive(&mut self, bytes: &[u8]) -> (resolved: Vec<Resolution<H>>)
        ensures
            final(self).inner()@ == old(self).inner()@.receive(bytes@),
            resolved.deep_view() == vetted_all(old(self).inner()@.settled(bytes@)),
            resolved.deep_view() == old(self).inner()@.settled(bytes@),
            old(self).inner()@.wf() ==> final(self).inner()@.wf(),
    {
        let below = self.inner.receive(bytes);
        let ghost settled = below.deep_view();
        proof {
            lemma_settled_pass(old(self).inner()@, bytes@);
        }
        let mut resolved: Vec<Resolution<H>> = Vec::new();
        for resolution in it: below.into_iter()
            invariant
                settled.len() == it.seq().len(),
                forall|j: int| 0 <= j < settled.len() ==> settled[j] == it.seq()[j]@,
                resolved.deep_view() == vetted_all(settled.take(it.index() as int)),
        {
            let ghost before = resolved;
            let ghost i = it.index() as int;
            let Resolution { handle, outcome } = resolution;
            resolved.push(Resolution { handle, outcome: check_response(outcome) });
            proof {
                lemma_push_view(before, resolved, resolved@.last());
            }
            assert(resolved.deep_view() =~= vetted_all(settled.take(i + 1)));
        }
        assert(settled.take(settled.len() as int) =~= settled);
        resolved
    }

    /// The connection ended: every pending call fails, in order.
    pub fn terminate(&mut self) -> (resolved: Vec<Resolution<H>>)
        ensures
            final(self).inner()@ == old(self).inner()@.terminate(),
            resolved.deep_view() == failures(old(self).inner()@.pending),
            !final(self).inner()@.accepts(),
            old(self).inner()@.wf() ==> final(self).inner()@.wf(),
    {
        self.inner.terminate()
    }

    /// Hands over the bytes to write and forgets them.
    pub fn transmit(&mut self) -> (bytes: Vec<u8>)
        ensures
            bytes@ == old(self).inner()@.session.outbound,
            final(self).inner()@ == old(self).inner()@.transmit(),
            old(self).inner()@.wf() ==> final(self).inner()@.wf(),
    {
        self.inner.transmit()
    }
}

} // verus!
