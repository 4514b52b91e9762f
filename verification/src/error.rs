//! The kinds of failure the bridge knows, and how the process ends on them.

use vstd::prelude::*;

verus! {

/// Why a configuration was refused.
#[derive(Clone, Copy, Debug, PartialEq, Eq, Structural)]
pub enum ConfigError {
    /// No broker endpoint was given, or an empty one.
    NoBootstrapServers,
    /// The consumer group identifier is empty.
    EmptyGroupId,
    /// No topic was given, or an empty one.
    NoTopics,
    /// The webhook URL is empty.
    EmptyWebhookUrl,
    /// The dead-letter destination is empty.
    EmptyDeadLetterSink,
    /// The retry policy allows no attempt at all.
    ZeroMaxAttempts,
    /// The concurrency limit is zero.
    ZeroConcurrency,
}

/// The kind of an error, as it is named in a log record.
#[derive(Clone, Copy, Debug, PartialEq, Eq, Structural)]
pub enum ErrorKind {
    ConfigError,
    BrokerTransportError,
    WebhookRetriable,
    WebhookPermanent,
    DeadLetterUnavailable,
    ShutdownRequested,
    InvariantViolation,
}

impl ErrorKind {
    /// Whether the process cannot go on after an error of this kind.
    pub open spec fn spec_is_fatal(self) -> bool {
        self is ConfigError || self is InvariantViolation
    }

    /// Whether the process cannot go on after an error of this kind: a
    /// refused configuration and a broken invariant are fatal, everything
    /// else is absorbed.
    #[verifier::when_used_as_spec(spec_is_fatal)]
    pub fn is_fatal(self) -> (b: bool)
        ensures
            b == self.spec_is_fatal(),
    {
        match self {
            ErrorKind::ConfigError => true,
            ErrorKind::InvariantViolation => true,
            _ => false,
        }
    }
}

/// How the process came to its end.
#[derive(Clone, Copy, Debug, PartialEq, Eq, Structural)]
pub enum Termination {
    /// A clean shutdown.
    Clean,
    /// The configuration was refused before start.
    ConfigError,
    /// The broker could not be reached at startup.
    BrokerUnreachable,
    /// An internal invariant was found broken.
    InvariantViolation,
}

impl Termination {
    /// The exit code of the process for this ending.
    pub open spec fn spec_exit_code(self) -> u8 {
        match self {
            Termination::Clean => 0,
            Termination::ConfigError => 64,
            Termination::BrokerUnreachable => 69,
            Termination::InvariantViolation => 70,
        }
    }

    /// The exit code of the process for this ending.
    #[verifier::when_used_as_spec(spec_exit_code)]
    pub fn exit_code(self) -> (code: u8)
        ensures
            code == self.spec_exit_code(),
    {
        match self {
            Termination::Clean => 0,
            Termination::ConfigError => 64,
            Termination::BrokerUnreachable => 69,
            Termination::InvariantViolation => 70,
        }
    }
}

} // verus!
