//! Classification of what came back from one HTTP attempt.

use vstd::prelude::*;

verus! {

/// Why a request never produced an HTTP response.
#[derive(Clone, Copy, Debug, PartialEq, Eq, Structural)]
pub enum TransportFailure {
    /// The connection could not be set up or broke for an unnamed reason.
    Network,
    /// The request ran into its timeout.
    Timeout,
    /// The peer reset the connection.
    ConnectionReset,
    /// The webhook's host name did not resolve.
    Dns,
}

/// What an outcome other than success rests on.
#[derive(Clone, Copy, Debug, PartialEq, Eq, Structural)]
pub enum Reason {
    /// The webhook answered with this status code.
    Status(u16),
    /// No response arrived.
    Transport(TransportFailure),
    /// The webhook rejected the request for good, with this status code, and
    /// its answer was longer than the configured maximum.
    OversizedRejection(u16),
}

/// The classified result of one delivery attempt.
#[derive(Clone, Copy, Debug, PartialEq, Eq, Structural)]
pub enum Outcome {
    /// The webhook acknowledged the message.
    Success,
    /// The attempt failed in a way that a later attempt may not.
    Retriable(Reason),
    /// The attempt failed in a way that every later attempt will.
    Permanent(Reason),
}

/// A status code in `[200, 300)`.
pub open spec fn status_is_success(status: u16) -> bool {
    200 <= status < 300
}

/// A status code that asks for another attempt: 408, 425, 429 and all of 5xx.
pub open spec fn status_is_retriable(status: u16) -> bool {
    status == 408 || status == 425 || status == 429 || 500 <= status < 600
}

/// The outcome that a status code stands for. Every code that is neither a
/// success nor retriable is a permanent failure.
pub open spec fn status_outcome(status: u16) -> Outcome {
    if status_is_success(status) {
        Outcome::Success
    } else if status_is_retriable(status) {
        Outcome::Retriable(Reason::Status(status))
    } else {
        Outcome::Permanent(Reason::Status(status))
    }
}

/// The outcome of a response with the given status and body length, where
/// bodies longer than `max_body_len` count as oversized. An oversized body
/// changes the reason of a permanent failure and nothing else.
pub open spec fn response_outcome(status: u16, body_len: u64, max_body_len: u64) -> Outcome {
    if status_outcome(status) is Permanent && body_len > max_body_len {
        Outcome::Permanent(Reason::OversizedRejection(status))
    } else {
        status_outcome(status)
    }
}

/// Classifies a response by its status code alone.
pub fn classify_status(status: u16) -> (outcome: Outcome)
    ensures
        outcome == status_outcome(status),
{
    if 200 <= status && status < 300 {
        Outcome::Success
    } else if status == 408 || status == 425 || status == 429 || (500 <= status && status < 600) {
        Outcome::Retriable(Reason::Status(status))
    } else {
        Outcome::Permanent(Reason::Status(status))
    }
}

/// Classifies a response by its status code and the length of its body.
pub fn classify_response(status: u16, body_len: u64, max_body_len: u64) -> (outcome: Outcome)
    ensures
        outcome == response_outcome(status, body_len, max_body_len),
{
    let by_status = classify_status(status);
    match by_status {
        Outcome::Permanent(_) => {
            if body_len > max_body_len {
                Outcome::Permanent(Reason::OversizedRejection(status))
            } else {
                by_status
            }
        },
        _ => by_status,
    }
}

/// Classifies a request that ended without a response: always retriable.
pub fn classify_transport(failure: TransportFailure) -> (outcome: Outcome)
    ensures
        outcome == Outcome::Retriable(Reason::Transport(failure)),
{
    Outcome::Retriable(Reason::Transport(failure))
}

impl Outcome {
    /// Whether the webhook acknowledged the message.
    pub fn is_success(&self) -> (b: bool)
        ensures
            b == (*self is Success),
    {
        match self {
            Outcome::Success => true,
            _ => false,
        }
    }

    /// Whether another attempt may succeed.
    pub fn is_retriable(&self) -> (b: bool)
        ensures
            b == (*self is Retriable),
    {
        match self {
            Outcome::Retriable(_) => true,
            _ => false,
        }
    }

    /// Whether no further attempt can succeed.
    pub fn is_permanent(&self) -> (b: bool)
        ensures
            b == (*self is Permanent),
    {
        match self {
            Outcome::Permanent(_) => true,
            _ => false,
        }
    }

    /// The reason of a failure, `None` for a success.
    pub open spec fn spec_reason(self) -> Option<Reason> {
        match self {
            Outcome::Success => None,
            Outcome::Retriable(reason) => Some(reason),
            Outcome::Permanent(reason) => Some(reason),
        }
    }

    /// The reason of a failure, `None` for a success.
    pub fn reason(&self) -> (r: Option<Reason>)
        ensures
            r == self.spec_reason(),
    {
        match self {
            Outcome::Success => None,
            Outcome::Retriable(reason) => Some(*reason),
            Outcome::Permanent(reason) => Some(*reason),
        }
    }
}

} // verus!
