//! The server's side of one connection: a single request comes in, it is
//! registered, the busiest interval is computed, a single response goes out.
//!
//! The protocol is a state machine that does no input or output itself. Its
//! driver reads from the peer, keeps the shared registry behind its lock and
//! writes to the peer; it tells the machine what happened and does what the
//! machine answers.

use vstd::prelude::*;
use crate::frame::{
    first_frame, leading_frame, lemma_leading_frame_is_frame, lemma_leading_frame_of_frame,
    ProtocolError,
};
use crate::overlap::{maximum_number_jobs, peak_load};
use crate::registry::{ordered_insert, JobRegistry};
use crate::wire::{
    decode_request, decoded_request, encode_response, lemma_parsed_request_of_body,
    lemma_request_round_trip, request_body, request_frame, response_frame, Schema,
};
use crate::{Request, Response};

verus! {

/// The address the server listens on unless told otherwise: `127.0.0.1`.
pub const DEFAULT_ADDRESS: [u8; 4] = [127, 0, 0, 1];

/// The port the server listens on unless told otherwise.
pub const DEFAULT_PORT: u16 = 9696;

/// Where a connection stands.
#[derive(Debug, Clone, Copy, PartialEq, Eq, Structural)]
pub enum ConnState {
    /// Nothing has arrived yet.
    AwaitingRequest,
    /// The request was decoded and waits to be registered.
    RequestReceived(Request),
    /// The answer is computed and waits to be written.
    Computed(Response),
    /// The answer was written.
    ResponseSent,
    /// The connection ended in order.
    Closed,
    /// The connection was given up, for the reason given. Nothing of this
    /// reaches other connections.
    Failed(Failure),
}

/// Why a connection was given up.
#[derive(Debug, Clone, Copy, PartialEq, Eq, Structural)]
pub enum Failure {
    /// What the peer sent is no request frame.
    Protocol(ProtocolError),
    /// Reading from the peer or writing to it failed.
    Transport,
    /// The driver reported something that cannot happen in the state.
    OutOfTurn,
}

/// What the driver reports to the machine.
#[derive(Debug, PartialEq, Eq)]
pub enum Event {
    /// The bytes that the peer sent: its request frame, and whatever came with
    /// it, which is not read.
    FrameReceived(Vec<u8>),
    /// The peer ended the stream before it sent anything.
    EndOfStream,
    /// The request went into the registry; these are the registry's contents
    /// as the insertion left them.
    Registered(Vec<Request>),
    /// The response was written out in full.
    ResponseWritten,
    /// The connection was closed.
    ConnectionClosed,
    /// Reading or writing failed.
    TransportFailed,
}

/// What the machine asks of the driver.
#[derive(Debug, PartialEq, Eq)]
pub enum Action {
    /// Insert the request into the registry, holding the registry's lock for
    /// no longer than that, and report `Registered` with the snapshot.
    Register(Request),
    /// Write these bytes to the peer and report `ResponseWritten`.
    Send(Vec<u8>),
    /// Close the connection and report `ConnectionClosed`.
    Close,
    /// Nothing is left to do.
    Done,
}

/// What the server makes of the bytes that a peer sent: the request of the
/// first frame among them. A connection carries one request, so what follows
/// that frame is never read. Bytes that end before the first frame does are
/// `Truncated`; a first frame whose body is no request is `Malformed`.
pub open spec fn received_request(schema: Schema, bytes: Seq<u8>) -> Result<
    Request,
    ProtocolError,
> {
    match leading_frame(bytes) {
        None => Err(ProtocolError::Truncated),
        Some(frame) => decoded_request(schema, frame),
    }
}

/// One request is served per connection: of a request frame with anything
/// behind it, another request frame included, the first request is received.
pub proof fn lemma_first_request_is_received(schema: Schema, request: Request, rest: Seq<u8>)
    ensures
        received_request(schema, request_frame(schema, request) + rest) == Ok::<
            Request,
            ProtocolError,
        >(request),
{
    lemma_parsed_request_of_body(schema, request);
    lemma_leading_frame_of_frame(request_body(schema, request), rest);
    lemma_request_round_trip(schema, request);
}

/// Bytes behind the first frame never fail a connection.
pub proof fn lemma_received_never_mismatches(schema: Schema, bytes: Seq<u8>)
    ensures
        received_request(schema, bytes) != Err::<Request, ProtocolError>(
            ProtocolError::LengthMismatch,
        ),
{
    if leading_frame(bytes) is Some {
        lemma_leading_frame_is_frame(bytes);
    }
}

/// Reads the request of the first frame among `bytes`.
pub fn receive_request(schema: Schema, bytes: &[u8]) -> (r: Result<Request, ProtocolError>)
    ensures
        r == received_request(schema, bytes@),
{
    match first_frame(bytes) {
        None => Err(ProtocolError::Truncated),
        Some(frame) => decode_request(schema, frame),
    }
}

/// The answer that is owed for a snapshot: its peak load.
pub open spec fn answer(jobs: Seq<Request>) -> Response {
    Response { max_jobs: peak_load(jobs) as usize }
}

/// Whether the machine, in `state` and told `event`, moves to `next` and asks
/// for `action`.
///
/// A connection carries one request and one response, in this order:
/// the first frame is decoded, the request registered, the answer computed over the
/// snapshot and encoded, the response written, the connection closed. A frame
/// that does not decode, a transport failure, or an event that the state does
/// not expect gives the connection up, each with its reason. A peer that
/// leaves without a request is let go. A connection that is closed or given
/// up stays so.
pub open spec fn moves(
    schema: Schema,
    state: ConnState,
    event: Event,
    next: ConnState,
    action: Action,
) -> bool {
    match (state, event) {
        (ConnState::Closed, _) => next == ConnState::Closed && action is Done,
        (ConnState::Failed(reason), _) => next == ConnState::Failed(reason) && action is Done,
        (_, Event::TransportFailed) => next == ConnState::Failed(Failure::Transport)
            && action is Close,
        (ConnState::AwaitingRequest, Event::FrameReceived(bytes)) => match received_request(
            schema,
            bytes@,
        ) {
            Ok(request) => next == ConnState::RequestReceived(request) && action
                == Action::Register(request),
            Err(e) => next == ConnState::Failed(Failure::Protocol(e)) && action is Close,
        },
        (ConnState::AwaitingRequest, Event::EndOfStream) => next == ConnState::Closed
            && action is Close,
        (ConnState::RequestReceived(_), Event::Registered(jobs)) => {
            &&& next == ConnState::Computed(answer(jobs@))
            &&& action matches Action::Send(bytes)
            &&& bytes@ == response_frame(schema, answer(jobs@))
        },
        (ConnState::Computed(_), Event::ResponseWritten) => next == ConnState::ResponseSent
            && action is Close,
        (ConnState::ResponseSent, Event::ConnectionClosed) => next == ConnState::Closed
            && action is Done,
        _ => next == ConnState::Failed(Failure::OutOfTurn) && action is Close,
    }
}

/// Takes the connection one step on: from `state`, told `event`, to the next
/// state and the action that the driver is to perform.
pub fn step(schema: Schema, state: ConnState, event: Event) -> (r: (ConnState, Action))
    ensures
        moves(schema, state, event, r.0, r.1),
{
    match (state, event) {
        (ConnState::Closed, _) => (ConnState::Closed, Action::Done),
        (ConnState::Failed(reason), _) => (ConnState::Failed(reason), Action::Done),
        (_, Event::TransportFailed) => (ConnState::Failed(Failure::Transport), Action::Close),
        (ConnState::AwaitingRequest, Event::FrameReceived(bytes)) => match receive_request(
            schema,
            bytes.as_slice(),
        ) {
            Ok(request) => (ConnState::RequestReceived(request), Action::Register(request)),
            Err(e) => (ConnState::Failed(Failure::Protocol(e)), Action::Close),
        },
        (ConnState::AwaitingRequest, Event::EndOfStream) => (ConnState::Closed, Action::Close),
        (ConnState::RequestReceived(_), Event::Registered(jobs)) => {
            let response = Response { max_jobs: maximum_number_jobs(jobs) };
            let bytes = encode_response(schema, &response);
            (ConnState::Computed(response), Action::Send(bytes))
        },
        (ConnState::Computed(_), Event::ResponseWritten) => (ConnState::ResponseSent, Action::Close),
        (ConnState::ResponseSent, Event::ConnectionClosed) => (ConnState::Closed, Action::Done),
        _ => (ConnState::Failed(Failure::OutOfTurn), Action::Close),
    }
}

/// Serves one request against a registry that the caller holds exclusively:
/// decodes the first frame among the bytes, registers the job, computes the
/// busiest interval over everything registered then, and encodes the answer.
/// Bytes behind the first frame are not read.
///
/// A frame that does not decode is refused with its error and leaves the
/// registry as it was.
///
/// The registry is held for the whole call, the computation and the encoding
/// included. A server that shares its registry between connections does not
/// call this: it drives `step`, and calls `insert_and_snapshot` under its lock
/// when `step` asks for `Register`, so that the lock is held for the insertion
/// and the copy alone.
pub fn process_request(schema: Schema, registry: &mut JobRegistry, frame: &[u8]) -> (r: Result<
    Vec<u8>,
    ProtocolError,
>)
    ensures
        match received_request(schema, frame@) {
            Ok(request) => {
                &&& final(registry)@ == ordered_insert(old(registry)@, request)
                &&& r matches Ok(bytes)
                &&& bytes@ == response_frame(schema, answer(final(registry)@))
            },
            Err(e) => final(registry)@ == old(registry)@ && r == Err::<Vec<u8>, ProtocolError>(e),
        },
{
    match receive_request(schema, frame) {
        Err(e) => Err(e),
        Ok(request) => {
            let jobs = registry.insert_and_snapshot(request);
            let response = Response { max_jobs: maximum_number_jobs(jobs) };
            Ok(encode_response(schema, &response))
        },
    }
}

} // verus!
