//! The request dispatcher.
//!
//! An [`Api`] owns the caller's credential and the active transport
//! connector. It serializes typed requests, hands them to the
//! connector, and maps wire responses back into typed values, wrapping
//! every failure into the unified error type. A failed serialization
//! fails the operation at once, without touching the transport.

use vstd::prelude::*;

use crate::errors::RawTelegramError;
use crate::errors::TelegramError;
use crate::http::HttpRequest;
use crate::http::HttpResponse;
use crate::requests::Request;
use crate::requests::ResponseType;
use crate::stream::NewUpdatesStream;
use crate::stream::UpdatesStream;

verus! {

/// The pluggable transport: one HTTP round trip per call. The rest of
/// the pipeline promises nothing of what a connector returns; the
/// dispatcher states what it does with whatever comes back.
pub trait Connector {
    /// Perform one round trip for the given credential and wire
    /// request, and return the raw response body.
    fn request(&self, token: &str, req: HttpRequest) -> Result<HttpResponse, TelegramError>;

    /// Perform one round trip and report how long it took, in
    /// milliseconds. An implementation on a transport with real
    /// cancellation should stop waiting once `wait_ms` has passed;
    /// correctness does not depend on it, a late outcome is simply
    /// discarded.
    fn request_timed(&self, token: &str, req: HttpRequest, wait_ms: u64) -> (Result<
        HttpResponse,
        TelegramError,
    >, u64);
}

/// Decide the race between a send and a timer: a send that took longer
/// than the wait bound resolves to absence — not an error — and its
/// outcome is discarded; one that finished in time resolves to its
/// own outcome.
pub fn resolve_race<T>(wait_ms: u64, elapsed_ms: u64, outcome: Result<T, TelegramError>) -> (r:
    Result<Option<T>, TelegramError>)
    ensures
        elapsed_ms > wait_ms ==> r == Ok::<Option<T>, TelegramError>(None),
        elapsed_ms <= wait_ms ==> match outcome {
            Ok(v) => r matches Ok(o) && o matches Some(w) && w == v,
            Err(e) => r matches Err(e2) && e2 == e,
        },
{
    if elapsed_ms > wait_ms {
        Ok(None)
    } else {
        match outcome {
            Ok(v) => Ok(Some(v)),
            Err(e) => Err(e),
        }
    }
}

/// Map a wire response to the typed outcome: decode it under the
/// response mapping's contract and wrap any wire-level failure into
/// the unified error. Every typed success is justified by some
/// response body under that contract.
fn complete<R: ResponseType>(resp: HttpResponse) -> (r: Result<R::Type, TelegramError>)
    ensures
        r matches Ok(t) ==> crate::requests::ok_justified::<R>(t),
{
    let ghost body: Option<Seq<u8>> = match resp.body {
        Some(ref b) => Some(b@),
        None => None,
    };
    match R::deserialize(resp) {
        Ok(t) => {
            proof {
                crate::requests::lemma_outcome_justified::<R>(body, t);
            }
            Ok(t)
        },
        Err(e) => Err(TelegramError::from(e)),
    }
}

/// The dispatcher: one credential, one active connector.
pub struct Api<C: Connector> {
    token: String,
    connector: C,
}

impl<C: Connector> Api<C> {
    /// The credential passed at construction, never mutated.
    pub closed spec fn token_spec(&self) -> Seq<char> {
        self.token@
    }

    /// Start an `Api` instance bound to one credential and one
    /// transport connector.
    pub fn create(token: String, connector: C) -> (r: Api<C>)
        ensures
            r.token_spec() == token@,
    {
        Api { token, connector }
    }

    /// A stream of updates from the remote feed, polled through this
    /// dispatcher by a driver loop.
    pub fn stream(&self) -> (r: UpdatesStream)
        ensures
            r.wf(),
            r.last_update_spec() == 0,
            r.buffer_spec() == Seq::<crate::requests::Update>::empty(),
            r.current_spec() is None,
    {
        <UpdatesStream as NewUpdatesStream>::new()
    }

    /// Send a request and wait for its typed response. A request that
    /// fails to serialize fails at once with the replayed cause, and
    /// the transport is not involved; otherwise the connector's
    /// outcome decides, and any typed success is justified by some
    /// response body under the response mapping's contract.
    pub fn send<R: Request>(&self, request: R) -> (r: Result<
        <R::Response as ResponseType>::Type,
        TelegramError,
    >)
        ensures
            request.wire_spec() matches Err(m) ==> (r matches Err(e) && e
                matches TelegramError::Raw { cause } && cause matches RawTelegramError::Detached(
                s,
            ) && s@ == m),
            r matches Ok(t) ==> crate::requests::ok_justified::<R::Response>(t),
    {
        let wire_req = match request.serialize() {
            Ok(w) => w,
            Err(e) => {
                return Err(TelegramError::from(e));
            },
        };
        match self.connector.request(self.token.as_str(), wire_req) {
            Ok(resp) => complete::<R::Response>(resp),
            Err(e) => Err(e),
        }
    }

    /// Send a request, waiting at most `wait_ms` milliseconds: a send
    /// that outlasts the wait resolves to `None`, anything else to its
    /// own outcome, as [`resolve_race`] states. A request that fails
    /// to serialize fails at once with the replayed cause; a typed
    /// success is justified by some response body under the response
    /// mapping's contract.
    pub fn send_timeout<R: Request>(&self, request: R, wait_ms: u64) -> (r: Result<
        Option<<R::Response as ResponseType>::Type>,
        TelegramError,
    >)
        ensures
            request.wire_spec() matches Err(m) ==> (r matches Err(e) && e
                matches TelegramError::Raw { cause } && cause matches RawTelegramError::Detached(
                s,
            ) && s@ == m),
            r matches Ok(o) ==> o matches Some(t) ==> crate::requests::ok_justified::<
                R::Response,
            >(t),
    {
        let wire_req = match request.serialize() {
            Ok(w) => w,
            Err(e) => {
                return Err(TelegramError::from(e));
            },
        };
        let (outcome, elapsed) = self.connector.request_timed(
            self.token.as_str(),
            wire_req,
            wait_ms,
        );
        match resolve_race(wait_ms, elapsed, outcome) {
            Ok(None) => Ok(None),
            Ok(Some(resp)) => {
                match complete::<R::Response>(resp) {
                    Ok(t) => Ok(Some(t)),
                    Err(e) => Err(e),
                }
            },
            Err(e) => Err(e),
        }
    }

    /// Fire and forget: the call is still made, its outcome is
    /// discarded.
    pub fn spawn<R: Request>(&self, request: R) {
        let _ = self.send(request);
    }
}

} // verus!
