//! The dispatch loop of one subscription.
//!
//! A subscription reads frame after frame from its connection. A message that
//! is a JSON object goes to the handler, and the next read waits until the
//! handler is done; any other message is dropped. The first failed read ends
//! the loop for good: there is no retry and no reconnection.

use vstd::prelude::*;
use vstd::slice::slice_subrange;
use crate::confd::{fits_header, frame, lemma_read_what_was_sent, read, read_result};
use crate::error::{Error, IoFailure};
use crate::json::{decoded, Message};

verus! {

/// Where a subscription's loop stands.
#[derive(Debug, Clone, Copy, PartialEq, Eq, Structural)]
pub enum LoopState {
    /// Waiting for the next frame. Every loop starts here.
    Reading,
    /// Ended by a failed read. Nothing leads back.
    Terminated,
}

/// What the loop's owner does after a read.
#[derive(Debug, PartialEq)]
pub enum Action {
    /// Hand the message to the handler, wait for it, then read again.
    Invoke(Message),
    /// Read again: the message was not an object.
    Discard,
    /// Report the error and stop reading.
    Stop(Error),
    /// Nothing: the loop had ended before.
    Idle,
}

/// The state after a read and what is to be done about it.
pub open spec fn after_read(state: LoopState, outcome: Result<Message, Error>) -> (
    LoopState,
    Action,
) {
    match state {
        LoopState::Reading => match outcome {
            Ok(message) => if message.is_object() {
                (LoopState::Reading, Action::Invoke(message))
            } else {
                (LoopState::Reading, Action::Discard)
            },
            Err(e) => (LoopState::Terminated, Action::Stop(e)),
        },
        LoopState::Terminated => (LoopState::Terminated, Action::Idle),
    }
}

/// Takes the loop one step: `outcome` is what the read returned.
pub fn step(state: LoopState, outcome: Result<Message, Error>) -> (next: (LoopState, Action))
    ensures
        next == after_read(state, outcome),
{
    match state {
        LoopState::Reading => match outcome {
            Ok(message) => if message.is_object() {
                (LoopState::Reading, Action::Invoke(message))
            } else {
                (LoopState::Reading, Action::Discard)
            },
            Err(e) => (LoopState::Terminated, Action::Stop(e)),
        },
        LoopState::Terminated => (LoopState::Terminated, Action::Idle),
    }
}

/// The messages that reach the handler when a connection supplies `stream`
/// and then closes: the objects among the frames before the first failed
/// read, in the order of their arrival.
pub open spec fn deliveries(stream: Seq<u8>) -> Seq<Message>
    decreases stream.len(),
{
    match read_result(stream) {
        Ok((message, taken)) => {
            let later = deliveries(stream.skip(taken as int));
            if message.is_object() {
                seq![message] + later
            } else {
                later
            }
        },
        Err(_) => Seq::empty(),
    }
}

/// The error that ends the loop when a connection supplies `stream` and then
/// closes: that of the first failed read.
pub open spec fn closing_error(stream: Seq<u8>) -> Error
    decreases stream.len(),
{
    match read_result(stream) {
        Ok((_, taken)) => closing_error(stream.skip(taken as int)),
        Err(e) => e,
    }
}

/// Nothing leads out of `Terminated`, and nothing is done there.
pub proof fn lemma_terminated_is_final(outcome: Result<Message, Error>)
    ensures
        after_read(LoopState::Terminated, outcome) == (LoopState::Terminated, Action::Idle),
{
}

/// The handler is invoked for objects and for nothing else, and with the
/// very message that was read.
pub proof fn lemma_invoked_for_objects(state: LoopState, outcome: Result<Message, Error>)
    ensures
        after_read(state, outcome).1 is Invoke <==> state == LoopState::Reading && (
        outcome matches Ok(message) && message.is_object()),
        after_read(state, outcome).1 matches Action::Invoke(message) ==> outcome == Ok::<
            Message,
            Error,
        >(message),
{
}

/// The loop leaves `Reading` on a failed read and on nothing else.
pub proof fn lemma_only_errors_terminate(outcome: Result<Message, Error>)
    ensures
        after_read(LoopState::Reading, outcome).0 == LoopState::Terminated <==> outcome is Err,
        outcome matches Err(e) ==> after_read(LoopState::Reading, outcome).1 == Action::Stop(e),
{
}

/// What one frame at the head of a stream does to the loop. A payload that
/// decodes to an object is delivered, and the loop goes on with what follows.
/// One that decodes to anything else is dropped, and the loop goes on as well.
/// One that does not decode ends the loop: nothing that follows is delivered.
pub proof fn lemma_deliveries_by_frame(payload: Seq<u8>, rest: Seq<u8>)
    requires
        fits_header(payload.len()),
    ensures
        deliveries(frame(payload) + rest) == match decoded(payload) {
            Ok(message) => if message.is_object() {
                seq![message] + deliveries(rest)
            } else {
                deliveries(rest)
            },
            Err(_) => Seq::<Message>::empty(),
        },
        closing_error(frame(payload) + rest) == match decoded(payload) {
            Ok(_) => closing_error(rest),
            Err(e) => e,
        },
{
    let stream = frame(payload) + rest;
    lemma_read_what_was_sent(payload, rest);
    assert(stream.skip(frame(payload).len() as int) =~= rest);
}

/// A connection that closes before a whole frame has arrived delivers
/// nothing, and its loop ends with a transport error.
pub proof fn lemma_closed_early(stream: Seq<u8>)
    requires
        read_result(stream) is Err,
    ensures
        deliveries(stream) == Seq::<Message>::empty(),
        closing_error(stream) == read_result(stream)->Err_0,
        stream.len() == 0 ==> closing_error(stream) == Error::IOError(IoFailure::UnexpectedEof),
{
}

/// Every message that reaches the handler is an object.
pub proof fn lemma_deliveries_are_objects(stream: Seq<u8>)
    ensures
        forall|i: int|
            0 <= i < deliveries(stream).len() ==> (#[trigger] deliveries(stream)[i]).is_object(),
    decreases stream.len(),
{
    match read_result(stream) {
        Ok((message, taken)) => {
            let later = deliveries(stream.skip(taken as int));
            lemma_deliveries_are_objects(stream.skip(taken as int));
            assert forall|i: int| 0 <= i < deliveries(stream).len() implies (
            #[trigger] deliveries(stream)[i]).is_object() by {
                if message.is_object() && i > 0 {
                    assert(deliveries(stream)[i] == later[i - 1]);
                }
            }
        },
        Err(_) => {},
    }
}

/// How a subscription's loop went.
#[derive(Debug, PartialEq)]
pub struct Run {
    /// The messages handed to the handler, first to last.
    pub delivered: Vec<Message>,
    /// The error that ended the loop.
    pub error: Error,
}

/// Runs a subscription's loop over everything that its connection supplied
/// before it closed.
pub fn run(stream: &[u8]) -> (outcome: Run)
    ensures
        outcome.delivered@ == deliveries(stream@),
        outcome.error == closing_error(stream@),
{
    let mut delivered: Vec<Message> = Vec::new();
    let mut position: usize = 0;
    assert(stream@.skip(0) =~= stream@);
    loop
        invariant
            position <= stream.len(),
            deliveries(stream@) == delivered@ + deliveries(stream@.skip(position as int)),
            closing_error(stream@) == closing_error(stream@.skip(position as int)),
        decreases stream.len() - position,
    {
        let ghost rest = stream@.skip(position as int);
        let ghost before = delivered@;
        let unread = slice_subrange(stream, position, stream.len());
        assert(unread@ =~= rest);
        let outcome = match read(unread) {
            Ok((message, taken)) => {
                assert(rest.skip(taken as int) =~= stream@.skip(position + taken));
                position += taken;
                Ok(message)
            },
            Err(e) => Err(e),
        };
        match step(LoopState::Reading, outcome).1 {
            Action::Invoke(message) => {
                delivered.push(message);
                assert(delivered@ + deliveries(stream@.skip(position as int)) =~= before + (
                seq![message] + deliveries(stream@.skip(position as int))));
            },
            Action::Discard => {},
            Action::Stop(error) => {
                assert(delivered@ + Seq::<Message>::empty() =~= delivered@);
                return Run { delivered, error };
            },
            Action::Idle => {},
        }
    }
}

} // verus!
