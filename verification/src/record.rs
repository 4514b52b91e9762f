//! The records that leave the bridge besides requests: the line that is
//! logged for an error, and what is written to the dead-letter sink for a
//! message that was given up.

use crate::envelope::{body_text, json_string, quoted, WebhookEnvelope};
use crate::error::ErrorKind;
use crate::outcome::{Outcome, Reason, TransportFailure};
use crate::pipeline::{failure_kind, Report};
use crate::text::{ascii_text, decimal, decimal_string};
use vstd::prelude::*;
use vstd::string::*;

verus! {

/// The name of a kind of error.
pub open spec fn kind_name(kind: ErrorKind) -> Seq<char> {
    match kind {
        ErrorKind::ConfigError => "ConfigError"@,
        ErrorKind::BrokerTransportError => "BrokerTransportError"@,
        ErrorKind::WebhookRetriable => "WebhookRetriable"@,
        ErrorKind::WebhookPermanent => "WebhookPermanent"@,
        ErrorKind::DeadLetterUnavailable => "DeadLetterUnavailable"@,
        ErrorKind::ShutdownRequested => "ShutdownRequested"@,
        ErrorKind::InvariantViolation => "InvariantViolation"@,
    }
}

/// The name of a failure of the transport.
pub open spec fn transport_name(failure: TransportFailure) -> Seq<char> {
    match failure {
        TransportFailure::Network => "network error"@,
        TransportFailure::Timeout => "timeout"@,
        TransportFailure::ConnectionReset => "connection reset"@,
        TransportFailure::Dns => "dns failure"@,
    }
}

/// The detail of a record: what the failure rests on, in words, and nothing
/// where there is no reason.
pub open spec fn detail_text(reason: Option<Reason>) -> Seq<char> {
    match reason {
        None => Seq::empty(),
        Some(Reason::Status(status)) => "status "@ + ascii_text(decimal(status as int)),
        Some(Reason::Transport(failure)) => transport_name(failure),
        Some(Reason::OversizedRejection(status)) => "oversized rejection, status "@ + ascii_text(
            decimal(status as int),
        ),
    }
}

/// The line that is logged for an error of a partition: one JSON object
/// with the kind, the topic, the partition, the offset, the attempt and the
/// detail.
pub open spec fn log_text(report: Report, topic: Seq<char>, partition: i32) -> Seq<char> {
    "{\"kind\":\""@ + kind_name(report.kind) + "\",\"topic\":"@ + json_string(topic)
        + ",\"partition\":"@ + ascii_text(decimal(partition as int)) + ",\"offset\":"@ + ascii_text(
        decimal(report.offset as int),
    ) + ",\"attempt\":"@ + ascii_text(decimal(report.attempt as int)) + ",\"detail\":"@
        + json_string(detail_text(report.reason)) + "}"@
}

/// What is written to the dead-letter sink for a message that was given up
/// after the attempt with the given index and its outcome: one JSON object
/// with the envelope, the number of attempts, the kind of the failure and
/// its detail.
pub open spec fn dead_letter_text(body: Seq<char>, attempt: u32, outcome: Outcome) -> Seq<char> {
    "{\"envelope\":"@ + body + ",\"attempts\":"@ + ascii_text(decimal(attempt as int))
        + ",\"kind\":\""@ + kind_name(failure_kind(outcome)) + "\",\"detail\":"@ + json_string(
        detail_text(outcome.spec_reason()),
    ) + "}"@
}

impl ErrorKind {
    /// The name of the kind, as it stands in a record.
    pub fn name(self) -> (name: String)
        ensures
            name@ == kind_name(self),
    {
        match self {
            ErrorKind::ConfigError => String::from_str("ConfigError"),
            ErrorKind::BrokerTransportError => String::from_str("BrokerTransportError"),
            ErrorKind::WebhookRetriable => String::from_str("WebhookRetriable"),
            ErrorKind::WebhookPermanent => String::from_str("WebhookPermanent"),
            ErrorKind::DeadLetterUnavailable => String::from_str("DeadLetterUnavailable"),
            ErrorKind::ShutdownRequested => String::from_str("ShutdownRequested"),
            ErrorKind::InvariantViolation => String::from_str("InvariantViolation"),
        }
    }
}

/// The detail of a record.
pub fn detail(reason: Option<Reason>) -> (text: String)
    ensures
        text@ == detail_text(reason),
{
    match reason {
        None => String::new(),
        Some(Reason::Status(status)) => {
            let mut text = String::from_str("status ");
            text.append(decimal_string(status as i64).as_str());
            text
        },
        Some(Reason::Transport(failure)) => match failure {
            TransportFailure::Network => String::from_str("network error"),
            TransportFailure::Timeout => String::from_str("timeout"),
            TransportFailure::ConnectionReset => String::from_str("connection reset"),
            TransportFailure::Dns => String::from_str("dns failure"),
        },
        Some(Reason::OversizedRejection(status)) => {
            let mut text = String::from_str("oversized rejection, status ");
            text.append(decimal_string(status as i64).as_str());
            text
        },
    }
}

/// Puts a log line together from the JSON texts of its two strings.
pub fn assemble_log_line(
    kind: ErrorKind,
    topic_json: &str,
    partition: i32,
    offset: i64,
    attempt: u32,
    detail_json: &str,
) -> (line: String)
    ensures
        line@ == "{\"kind\":\""@ + kind_name(kind) + "\",\"topic\":"@ + topic_json@
            + ",\"partition\":"@ + ascii_text(decimal(partition as int)) + ",\"offset\":"@
            + ascii_text(decimal(offset as int)) + ",\"attempt\":"@ + ascii_text(
            decimal(attempt as int),
        ) + ",\"detail\":"@ + detail_json@ + "}"@,
{
    let mut line = String::from_str("{\"kind\":\"");
    line.append(kind.name().as_str());
    line.append("\",\"topic\":");
    line.append(topic_json);
    line.append(",\"partition\":");
    line.append(decimal_string(partition as i64).as_str());
    line.append(",\"offset\":");
    line.append(decimal_string(offset).as_str());
    line.append(",\"attempt\":");
    line.append(decimal_string(attempt as i64).as_str());
    line.append(",\"detail\":");
    line.append(detail_json);
    line.append("}");
    line
}

/// The line that is logged for an error of a partition.
pub fn log_line(report: &Report, topic: &str, partition: i32) -> (line: String)
    ensures
        line@ == log_text(*report, topic@, partition),
{
    let topic_json = quoted(topic);
    let detail_json = quoted(detail(report.reason).as_str());
    assemble_log_line(
        report.kind,
        topic_json.as_str(),
        partition,
        report.offset,
        report.attempt,
        detail_json.as_str(),
    )
}

/// Puts a dead-letter record together from the body of the request and the
/// JSON text of the detail.
pub fn assemble_dead_letter(
    body: &str,
    attempt: u32,
    kind: ErrorKind,
    detail_json: &str,
) -> (record: String)
    ensures
        record@ == "{\"envelope\":"@ + body@ + ",\"attempts\":"@ + ascii_text(
            decimal(attempt as int),
        ) + ",\"kind\":\""@ + kind_name(kind) + "\",\"detail\":"@ + detail_json@ + "}"@,
{
    let mut record = String::from_str("{\"envelope\":");
    record.append(body);
    record.append(",\"attempts\":");
    record.append(decimal_string(attempt as i64).as_str());
    record.append(",\"kind\":\"");
    record.append(kind.name().as_str());
    record.append("\",\"detail\":");
    record.append(detail_json);
    record.append("}");
    record
}

/// What is written to the dead-letter sink for a message that was given up
/// after the attempt with the given index and its outcome.
pub fn dead_letter_record(
    envelope: &WebhookEnvelope,
    attempt: u32,
    outcome: Outcome,
) -> (record: String)
    ensures
        record@ == dead_letter_text(
            body_text(
                envelope.message@,
                envelope.encoding,
                envelope.topic@,
                envelope.partition as int,
                envelope.offset as int,
                envelope.timestamp as int,
            ),
            attempt,
            outcome,
        ),
{
    let body = envelope.to_json();
    let kind = match outcome {
        Outcome::Permanent(_) => ErrorKind::WebhookPermanent,
        _ => ErrorKind::WebhookRetriable,
    };
    let detail_json = quoted(detail(outcome.reason()).as_str());
    assemble_dead_letter(body.as_str(), attempt, kind, detail_json.as_str())
}

} // verus!
