use webhook_bridge::outcome::{
    classify_response, classify_status, classify_transport, Outcome, Reason, TransportFailure,
};

#[test]
fn statuses_from_200_to_299_are_successes() {
    assert_eq!(classify_status(200), Outcome::Success);
    assert_eq!(classify_status(201), Outcome::Success);
    assert_eq!(classify_status(204), Outcome::Success);
    assert_eq!(classify_status(299), Outcome::Success);
    assert!(classify_status(200).is_success());
    assert_eq!(classify_status(200).reason(), None);
}

#[test]
fn the_listed_statuses_are_retriable() {
    for status in [408u16, 425, 429, 500, 502, 503, 504, 501, 507, 599] {
        let outcome = classify_status(status);
        assert_eq!(outcome, Outcome::Retriable(Reason::Status(status)));
        assert!(outcome.is_retriable());
        assert!(!outcome.is_permanent());
        assert!(!outcome.is_success());
        assert_eq!(outcome.reason(), Some(Reason::Status(status)));
    }
}

#[test]
fn other_client_errors_are_permanent() {
    for status in [400u16, 401, 403, 404, 405, 409, 410, 413, 422, 424, 426, 428, 430, 499] {
        let outcome = classify_status(status);
        assert_eq!(outcome, Outcome::Permanent(Reason::Status(status)));
        assert!(outcome.is_permanent());
        assert!(!outcome.is_retriable());
    }
}

#[test]
fn statuses_outside_the_named_classes_are_permanent() {
    for status in [0u16, 100, 101, 199, 300, 301, 304, 399, 600, 999, u16::MAX] {
        assert_eq!(classify_status(status), Outcome::Permanent(Reason::Status(status)));
    }
}

#[test]
fn every_status_falls_in_exactly_one_class() {
    for status in 0..=u16::MAX {
        let outcome = classify_status(status);
        let classes =
            [outcome.is_success(), outcome.is_retriable(), outcome.is_permanent()];
        assert_eq!(classes.iter().filter(|c| **c).count(), 1);
        assert_eq!(outcome.is_success(), (200..300).contains(&status));
    }
}

#[test]
fn an_oversized_answer_changes_the_reason_of_a_rejection_only() {
    assert_eq!(classify_response(400, 11, 10), Outcome::Permanent(Reason::OversizedRejection(400)));
    assert_eq!(classify_response(400, 10, 10), Outcome::Permanent(Reason::Status(400)));
    assert_eq!(classify_response(503, 11, 10), Outcome::Retriable(Reason::Status(503)));
    assert_eq!(classify_response(200, 11, 10), Outcome::Success);
    assert_eq!(classify_response(200, 0, 0), Outcome::Success);
    assert_eq!(classify_response(404, u64::MAX, u64::MAX), Outcome::Permanent(Reason::Status(404)));
}

#[test]
fn a_request_without_response_is_retriable() {
    for failure in [
        TransportFailure::Network,
        TransportFailure::Timeout,
        TransportFailure::ConnectionReset,
        TransportFailure::Dns,
    ] {
        assert_eq!(classify_transport(failure), Outcome::Retriable(Reason::Transport(failure)));
    }
}
