//! The request/response protocol with the long-lived Python sidecar: request
//! numbering, matching responses to requests, and when to restart it.

use vstd::prelude::*;

use crate::text::{contains_seq, occurs_at, push_str, str_contains};

verus! {

/// Documentation of a CadQuery symbol, as the sidecar returns it.
pub struct DocsResult {
    pub symbol: String,
    pub docstring: String,
}

/// Numbers the requests sent to one sidecar process, from 0 up.
pub struct RequestCounter {
    next_id: u64,
}

impl RequestCounter {
    /// The id the next request gets.
    pub closed spec fn next(&self) -> u64 {
        self.next_id
    }

    /// A counter for a freshly spawned sidecar.
    pub fn new() -> (c: Self)
        ensures
            c.next() == 0,
    {
        RequestCounter { next_id: 0 }
    }

    /// Takes the next request id.
    pub fn issue(&mut self) -> (id: u64)
        requires
            old(self).next() < u64::MAX,
        ensures
            id == old(self).next(),
            final(self).next() == id + 1,
    {
        let id = self.next_id;
        self.next_id = id + 1;
        id
    }
}

/// What to do with a response read from the sidecar.
pub enum ResponseAction {
    /// It answers the request: take its result.
    Accept,
    /// It answers an earlier, abandoned request: skip it and keep waiting.
    Stale,
    /// It answers the request with an error.
    Fail(String),
}

/// Matches a response (its id, and the error it carries if any) against the
/// id of the request waiting for it.
pub fn match_response(expected: u64, id: u64, error: Option<String>) -> (a: ResponseAction)
    ensures
        id != expected ==> a is Stale,
        id == expected ==> match error {
            Some(e) => a == ResponseAction::Fail(e),
            None => a is Accept,
        },
{
    if id != expected {
        ResponseAction::Stale
    } else {
        match error {
            Some(e) => ResponseAction::Fail(e),
            None => ResponseAction::Accept,
        }
    }
}

/// Why waiting for a response ended without one.
#[derive(Clone, Copy, PartialEq, Eq, Debug, Structural)]
pub enum WaitFailure {
    /// The time allowed for the request ran out.
    TimedOut,
    /// The thread reading the sidecar's output has stopped.
    ReaderStopped,
}

/// The error reported when the request timed out.
pub const TIMED_OUT: &'static str = "sidecar request timed out";

/// The error reported when the sidecar process has exited.
pub const PROCESS_EXITED: &'static str = "sidecar process exited";

/// The error reported when the sidecar's output can no longer be read.
pub const READER_STOPPED: &'static str = "sidecar reader stopped";

/// The error text for a wait that ended without a response.
pub open spec fn failure_text(why: WaitFailure, alive: bool) -> Seq<char> {
    match why {
        WaitFailure::TimedOut => if alive {
            TIMED_OUT@
        } else {
            PROCESS_EXITED@
        },
        WaitFailure::ReaderStopped => READER_STOPPED@,
    }
}

/// The error for a wait that ended without a response; `alive` tells whether
/// the sidecar process is still running.
pub fn wait_failure(why: WaitFailure, alive: bool) -> (s: String)
    ensures
        s@ == failure_text(why, alive),
        why == WaitFailure::TimedOut && !alive ==> s@ == PROCESS_EXITED@,
        why == WaitFailure::TimedOut && alive ==> s@ == TIMED_OUT@,
        why == WaitFailure::ReaderStopped ==> s@ == READER_STOPPED@,
{
    let mut s = String::new();
    match why {
        WaitFailure::TimedOut => {
            if alive {
                push_str(&mut s, TIMED_OUT);
            } else {
                push_str(&mut s, PROCESS_EXITED);
            }
        },
        WaitFailure::ReaderStopped => push_str(&mut s, READER_STOPPED),
    }
    s
}

/// Whether an error means the sidecar is gone, so a fresh one may take the
/// request.
pub open spec fn means_sidecar_gone(e: Seq<char>) -> bool {
    contains_seq(e, PROCESS_EXITED@) || contains_seq(e, READER_STOPPED@)
}

/// Whether a request that failed with `error` is worth sending to a freshly
/// spawned sidecar.
pub fn is_restartable(error: &str) -> (b: bool)
    ensures
        b == means_sidecar_gone(error@),
{
    str_contains(error, PROCESS_EXITED) || str_contains(error, READER_STOPPED)
}

/// An error means the sidecar is gone exactly when its text says that the
/// sidecar process exited or that its reader stopped, wherever in the text;
/// nothing else in the text matters.
pub proof fn law_restartable_errors(e: Seq<char>)
    ensures
        contains_seq(e, "sidecar process exited"@) ==> means_sidecar_gone(e),
        contains_seq(e, "sidecar reader stopped"@) ==> means_sidecar_gone(e),
        !contains_seq(e, "sidecar process exited"@) && !contains_seq(e, "sidecar reader stopped"@)
            ==> !means_sidecar_gone(e),
{
}

/// The failures a wait reports when the sidecar is gone, its process exited
/// or its reader stopped, are the errors after which a request is sent to a
/// fresh sidecar.
pub proof fn law_gone_failures_restart(alive: bool)
    ensures
        !alive ==> means_sidecar_gone(failure_text(WaitFailure::TimedOut, alive)),
        means_sidecar_gone(failure_text(WaitFailure::ReaderStopped, alive)),
{
    assert(occurs_at(PROCESS_EXITED@, PROCESS_EXITED@, 0)) by {
        assert(PROCESS_EXITED@.subrange(0, PROCESS_EXITED@.len() as int) =~= PROCESS_EXITED@);
    }
    assert(occurs_at(READER_STOPPED@, READER_STOPPED@, 0)) by {
        assert(READER_STOPPED@.subrange(0, READER_STOPPED@.len() as int) =~= READER_STOPPED@);
    }
}

/// What follows one attempt at a request.
pub enum CallNext<T> {
    /// The request is over, with this outcome.
    Finish(Result<T, String>),
    /// Spawn a fresh sidecar and send the request once more.
    Respawn,
}

/// Decides what follows an attempt at a request: a request is retried once,
/// on a fresh sidecar, when its first attempt found the sidecar gone.
pub fn after_attempt<T>(first_attempt: bool, outcome: Result<T, String>) -> (next: CallNext<T>)
    ensures
        match outcome {
            Ok(v) => next == CallNext::Finish(Ok::<T, String>(v)),
            Err(e) => if first_attempt && means_sidecar_gone(e@) {
                next is Respawn
            } else {
                next == CallNext::<T>::Finish(Err(e))
            },
        },
{
    match outcome {
        Ok(v) => CallNext::Finish(Ok(v)),
        Err(e) => {
            if first_attempt && is_restartable(e.as_str()) {
                CallNext::Respawn
            } else {
                CallNext::Finish(Err(e))
            }
        },
    }
}

} // verus!
