use webhook_bridge::envelope::{Message, WebhookEnvelope};
use webhook_bridge::error::{ErrorKind, Termination};
use webhook_bridge::outcome::classify_status;
use webhook_bridge::pipeline::{Action, Event, Reaction};
use webhook_bridge::retry::RetryPolicy;
use webhook_bridge::supervisor::Supervisor;

fn answered(status: u16) -> Event {
    Event::Responded { outcome: classify_status(status), sample: 0 }
}

fn nothing() -> Reaction {
    Reaction { action: Action::Nothing, commit: None, abandoned: None, report: None }
}

#[test]
fn happy_path_posts_every_message_and_commits_the_last_offset() {
    let mut supervisor = Supervisor::new(RetryPolicy::default(), None);
    assert!(supervisor.assign("t1", 0));
    let mut bodies: Vec<String> = Vec::new();
    for (offset, payload) in [(10i64, "a"), (11, "b"), (12, "c")] {
        let message = Message {
            topic: "t1".to_string(),
            partition: 0,
            offset,
            key: None,
            payload: payload.as_bytes().to_vec(),
            timestamp: 1_700_000_000_000 + offset,
        };
        assert!(supervisor.may_fetch("t1", 0));
        let reaction = supervisor.handle(&message.topic, message.partition, Event::Fetched { offset });
        assert_eq!(reaction.map(|r| r.action), Some(Action::Post { offset, attempt: 1 }));
        bodies.push(WebhookEnvelope::from_message(&message).to_json());
        let reaction = supervisor.handle("t1", 0, answered(200)).unwrap();
        assert_eq!(reaction.action, Action::Fetch);
        assert_eq!(reaction.commit, Some(offset));
    }
    assert_eq!(
        bodies,
        vec![
            "{\"message\":\"a\",\"topic\":\"t1\",\"partition\":0,\"offset\":10,\"timestamp\":1700000000010}",
            "{\"message\":\"b\",\"topic\":\"t1\",\"partition\":0,\"offset\":11,\"timestamp\":1700000000011}",
            "{\"message\":\"c\",\"topic\":\"t1\",\"partition\":0,\"offset\":12,\"timestamp\":1700000000012}",
        ]
    );
    assert_eq!(supervisor.committed("t1", 0), Some(12));
}

#[test]
fn transient_failure_holds_back_the_next_message_until_success() {
    let mut supervisor = Supervisor::new(RetryPolicy::default(), None);
    supervisor.assign("t1", 0);
    let mut posts = 0;
    let mut delays: Vec<u64> = Vec::new();
    let mut reaction = supervisor.handle("t1", 0, Event::Fetched { offset: 5 }).unwrap();
    for (status, sample) in [(503u16, 200u64), (503, 400), (200, 0)] {
        assert!(matches!(reaction.action, Action::Post { offset: 5, .. }));
        posts += 1;
        assert!(!supervisor.may_fetch("t1", 0));
        reaction = supervisor
            .handle("t1", 0, Event::Responded { outcome: classify_status(status), sample })
            .unwrap();
        if let Action::Sleep { delay_ms, .. } = reaction.action {
            delays.push(delay_ms);
            assert!(!supervisor.may_fetch("t1", 0));
            assert_eq!(supervisor.committed("t1", 0), None);
            reaction = supervisor.handle("t1", 0, Event::BackoffElapsed).unwrap();
        }
    }
    assert_eq!(posts, 3);
    assert_eq!(delays, vec![200, 400]);
    assert_eq!(reaction.action, Action::Fetch);
    assert_eq!(reaction.commit, Some(5));
    assert_eq!(supervisor.committed("t1", 0), Some(5));
    assert!(supervisor.may_fetch("t1", 0));
}

#[test]
fn permanent_failure_is_dead_lettered_and_the_next_message_proceeds() {
    let mut supervisor = Supervisor::new(RetryPolicy::default(), None);
    supervisor.assign("t1", 0);
    let reaction = supervisor.handle("t1", 0, Event::Fetched { offset: 1 }).unwrap();
    assert_eq!(reaction.action, Action::Post { offset: 1, attempt: 1 });
    let reaction = supervisor.handle("t1", 0, answered(400)).unwrap();
    assert!(matches!(reaction.action, Action::DeadLetter { offset: 1, attempt: 1, .. }));
    assert_eq!(reaction.report.map(|r| r.kind), Some(ErrorKind::WebhookPermanent));
    assert_eq!(supervisor.committed("t1", 0), None);
    let reaction = supervisor.handle("t1", 0, Event::DeadLetterStored).unwrap();
    assert_eq!(reaction.action, Action::Fetch);
    assert_eq!(reaction.commit, Some(1));
    let reaction = supervisor.handle("t1", 0, Event::Fetched { offset: 2 }).unwrap();
    assert_eq!(reaction.action, Action::Post { offset: 2, attempt: 1 });
}

#[test]
fn rebalance_does_not_commit_the_message_in_backoff() {
    let mut supervisor = Supervisor::new(RetryPolicy::default(), None);
    assert!(supervisor.assign("t1", 0));
    assert!(supervisor.assign("t1", 1));
    assert!(!supervisor.assign("t1", 1));
    supervisor.handle("t1", 1, Event::Fetched { offset: 76 });
    supervisor.handle("t1", 1, answered(200));
    supervisor.handle("t1", 0, Event::Fetched { offset: 3 });
    supervisor.handle("t1", 1, Event::Fetched { offset: 77 });
    let waiting = supervisor.handle("t1", 1, answered(503)).unwrap();
    assert!(matches!(waiting.action, Action::Sleep { offset: 77, attempt: 1, .. }));
    let revoked = supervisor.handle("t1", 1, Event::Revoked).unwrap();
    assert_eq!(revoked.action, Action::Release);
    assert_eq!(revoked.abandoned, Some(77));
    assert_eq!(revoked.commit, None);
    assert_eq!(supervisor.committed("t1", 1), Some(76));
    assert_eq!(supervisor.handle("t1", 1, Event::BackoffElapsed), Some(nothing()));
    assert_eq!(supervisor.handle("t1", 1, answered(200)), Some(nothing()));
    assert_eq!(supervisor.committed("t1", 1), Some(76));
    // the other partition goes on
    let other = supervisor.handle("t1", 0, answered(200)).unwrap();
    assert_eq!(other.commit, Some(3));
    // the lane of the revoked partition is dropped, and a new owner starts afresh
    assert!(!supervisor.forget("t1", 0));
    assert!(supervisor.forget("t1", 1));
    assert!(!supervisor.forget("t1", 1));
    assert!(!supervisor.has_lane("t1", 1));
    assert_eq!(supervisor.committed("t1", 1), None);
    assert_eq!(supervisor.handle("t1", 1, Event::Fetched { offset: 77 }), None);
    assert!(supervisor.assign("t1", 1));
    let again = supervisor.handle("t1", 1, Event::Fetched { offset: 77 }).unwrap();
    assert_eq!(again.action, Action::Post { offset: 77, attempt: 1 });
}

#[test]
fn shutdown_under_load_drains_every_partition() {
    let mut supervisor = Supervisor::new(RetryPolicy::default(), None);
    for partition in 0..4 {
        supervisor.assign("t1", partition);
    }
    supervisor.handle("t1", 0, Event::Fetched { offset: 100 });
    supervisor.handle("t1", 1, Event::Fetched { offset: 200 });
    supervisor.handle("t1", 1, answered(503));
    supervisor.handle("t1", 2, Event::Fetched { offset: 300 });
    supervisor.handle("t1", 2, answered(404));
    assert_eq!(supervisor.busy(), 3);
    assert!(!supervisor.is_drained());
    let told = supervisor.shutdown();
    assert_eq!(
        told.iter().map(|t| (t.topic.as_str(), t.partition)).collect::<Vec<_>>(),
        vec![("t1", 0), ("t1", 1), ("t1", 2), ("t1", 3)]
    );
    let reactions: Vec<Reaction> = told.iter().map(|t| t.reaction).collect();
    assert_eq!(
        reactions.iter().map(|r| r.action).collect::<Vec<_>>(),
        vec![Action::Nothing, Action::Release, Action::Nothing, Action::Release]
    );
    assert_eq!(
        reactions.iter().map(|r| r.abandoned).collect::<Vec<_>>(),
        vec![None, Some(200), None, None]
    );
    assert!(reactions.iter().all(|r| r.commit.is_none()));
    assert!(!supervisor.is_drained());
    assert!(!supervisor.may_fetch("t1", 3));
    assert_eq!(supervisor.handle("t1", 3, Event::Fetched { offset: 1 }), Some(nothing()));
    // the attempt on its way completes and is committed
    let done = supervisor.handle("t1", 0, answered(200)).unwrap();
    assert_eq!(done.action, Action::Release);
    assert_eq!(done.commit, Some(100));
    // the dead-letter write does not complete in time
    assert!(!supervisor.is_drained());
    let late = supervisor.deadline();
    assert_eq!(
        late.iter().map(|t| t.reaction.abandoned).collect::<Vec<_>>(),
        vec![None, None, Some(300), None]
    );
    assert!(supervisor.is_drained());
    assert_eq!(supervisor.busy(), 0);
    assert_eq!(supervisor.committed("t1", 0), Some(100));
    assert_eq!(supervisor.committed("t1", 1), None);
    assert_eq!(supervisor.committed("t1", 2), None);
    assert_eq!(Termination::Clean.exit_code(), 0);
}

#[test]
fn the_default_limit_is_the_number_of_partitions_up_to_32() {
    let mut supervisor = Supervisor::new(RetryPolicy::default(), None);
    assert_eq!(supervisor.limit(), 0);
    assert_eq!(supervisor.partitions(), 0);
    for partition in 0..40 {
        assert!(supervisor.assign("wide", partition));
        assert_eq!(supervisor.limit(), std::cmp::min(partition as usize + 1, 32));
    }
    assert_eq!(supervisor.partitions(), 40);
    for partition in 0..32 {
        assert!(supervisor.may_fetch("wide", partition));
        let reaction = supervisor.handle("wide", partition, Event::Fetched { offset: 0 }).unwrap();
        assert_eq!(reaction.action, Action::Post { offset: 0, attempt: 1 });
        assert_eq!(supervisor.busy(), partition as usize + 1);
    }
    assert!(!supervisor.may_fetch("wide", 32));
    assert!(!supervisor.may_fetch("wide", 39));
    supervisor.handle("wide", 7, answered(200));
    assert_eq!(supervisor.busy(), 31);
    assert!(supervisor.may_fetch("wide", 32));
    assert!(supervisor.may_fetch("wide", 7));
}

#[test]
fn a_message_over_the_limit_halts_its_lane() {
    let mut supervisor = Supervisor::new(RetryPolicy::default(), Some(1));
    supervisor.assign("a", 0);
    supervisor.assign("b", 0);
    assert_eq!(supervisor.limit(), 1);
    assert!(supervisor.may_fetch("a", 0));
    assert!(supervisor.may_fetch("b", 0));
    supervisor.handle("a", 0, Event::Fetched { offset: 1 });
    assert!(!supervisor.may_fetch("b", 0));
    let reaction = supervisor.handle("b", 0, Event::Fetched { offset: 1 }).unwrap();
    assert_eq!(reaction.action, Action::Halt);
    assert_eq!(reaction.report.map(|r| r.kind), Some(ErrorKind::InvariantViolation));
    assert_eq!(supervisor.busy(), 1);
    assert_eq!(Termination::InvariantViolation.exit_code(), 70);
}

#[test]
fn partitions_are_told_apart_by_topic_and_number() {
    let mut supervisor = Supervisor::new(RetryPolicy::default(), None);
    assert!(supervisor.assign("orders", 0));
    assert!(supervisor.assign("orders", 1));
    assert!(supervisor.assign("order", 0));
    assert!(supervisor.assign("", 0));
    assert!(supervisor.assign("t\u{e9}l\u{e9}", 0));
    assert!(!supervisor.assign("order", 0));
    assert!(!supervisor.assign("t\u{e9}l\u{e9}", 0));
    assert!(supervisor.has_lane("orders", 1));
    assert!(!supervisor.has_lane("orders", 2));
    assert!(!supervisor.has_lane("Orders", 0));
    assert_eq!(supervisor.handle("orders", 2, Event::Shutdown), None);
    supervisor.handle("order", 0, Event::Fetched { offset: 9 });
    supervisor.handle("order", 0, answered(200));
    assert_eq!(supervisor.committed("order", 0), Some(9));
    assert_eq!(supervisor.committed("orders", 0), None);
    assert_eq!(supervisor.partitions(), 5);
}
