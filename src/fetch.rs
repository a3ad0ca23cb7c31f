//! Decisions of the segment fetcher around its HTTP request.
//!
//! The caller sends the request; these functions decide from the response
//! what, if anything, is written to disk or kept in the state.

use crate::error::IgLiveError;
use crate::kind::{is_stream, MediaType};
use crate::state::{others_kept, State, StreamView};
use vstd::prelude::*;
use vstd::string::*;

verus! {

/// A 2xx status.
pub open spec fn is_success(status: u16) -> bool {
    200 <= status <= 299
}

/// The error that a non-success status gives: `StatusNotFound` for 404, and
/// `StatusError` with the status and the URL otherwise.
pub open spec fn refused_with<T>(r: Result<T, IgLiveError>, status: u16, url: Seq<char>) -> bool {
    if status == 404 {
        r == Err::<T, IgLiveError>(IgLiveError::StatusNotFound)
    } else {
        match r {
            Err(IgLiveError::StatusError(code, u)) => code == status && u@ == url,
            _ => false,
        }
    }
}

/// Classifies a response status of a request for `url`.
pub fn check_status(status: u16, url: &str) -> (r: Result<(), IgLiveError>)
    ensures
        is_success(status) ==> r is Ok,
        !is_success(status) ==> refused_with(r, status, url@),
{
    if status == 404 {
        Err(IgLiveError::StatusNotFound)
    } else if status < 200 || status > 299 {
        Err(IgLiveError::StatusError(status, String::from_str(url)))
    } else {
        Ok(())
    }
}

/// The bytes to write for a segment response: the stream's initialization
/// blob followed by the body, or the error that the status gives, in which
/// case nothing is to be written.
pub fn accept_segment_response(
    state: &State,
    kind: MediaType,
    status: u16,
    url: &str,
    body: &Vec<u8>,
) -> (r: Result<Vec<u8>, IgLiveError>)
    requires
        state.wf(),
        is_stream(kind),
    ensures
        !is_success(status) ==> refused_with(r, status, url@),
        is_success(status) ==> match state.stream(kind).init {
            Some(b) => r is Ok && r->Ok_0@ == b + body@,
            None => r == Err::<Vec<u8>, IgLiveError>(IgLiveError::MissingInit),
        },
{
    match check_status(status, url) {
        Ok(()) => state.segment_bytes(kind, body),
        Err(e) => Err(e),
    }
}

/// Keeps the body of an initialization response as the stream's blob, or
/// returns the error that the status gives and keeps nothing.
pub fn accept_init_response(
    state: &mut State,
    kind: MediaType,
    status: u16,
    url: &str,
    body: Vec<u8>,
) -> (r: Result<(), IgLiveError>)
    requires
        old(state).wf(),
        is_stream(kind),
    ensures
        final(state).wf(),
        !is_success(status) ==> refused_with(r, status, url@) && *final(state) == *old(state),
        is_success(status) ==> r is Ok && final(state).stream(kind) == (StreamView {
            init: Some(body@),
            ..old(state).stream(kind)
        }) && others_kept(old(state), final(state), kind),
{
    match check_status(status, url) {
        Ok(()) => {
            state.set_init(kind, body);
            Ok(())
        },
        Err(e) => Err(e),
    }
}

} // verus!
