//! The delivery pipeline of one partition: a state machine from events to
//! actions.
//!
//! The caller owns the broker client, the HTTP client, the dead-letter sink
//! and the timers. It tells the pipeline what happened, and the pipeline
//! answers with what to do next and with the offset to commit, if one is
//! due. One partition has at most one message in hand: the next one is
//! asked for only after the one before was acknowledged by the webhook or
//! stored in the dead-letter sink.

use crate::error::ErrorKind;
use crate::outcome::{Outcome, Reason};
use crate::retry::{full_jitter, jittered_ms, RetryDecision, RetryPolicy};
use crate::tracker::{
    at_most,
    lemma_begin,
    lemma_settle,
    lemma_settled_prefix_is,
    mark,
    CursorView,
    OffsetCursor,
    Slot,
};
use vstd::prelude::*;

verus! {

/// What the pipeline is doing with the message in hand.
#[derive(Clone, Copy, Debug, PartialEq, Eq, Structural)]
pub enum Phase {
    /// No message is in hand.
    Idle,
    /// The attempt with the given index is on its way to the webhook.
    Sending { offset: i64, attempt: u32 },
    /// The attempt with the given index failed, and the next one waits for
    /// the backoff to pass.
    Waiting { offset: i64, attempt: u32 },
    /// The message was given up after the attempt with the given index and
    /// its outcome, and is on its way to the dead-letter sink.
    DeadLetter { offset: i64, attempt: u32, outcome: Outcome },
}

/// Whether the pipeline takes new messages.
#[derive(Clone, Copy, Debug, PartialEq, Eq, Structural)]
pub enum Mode {
    /// Messages are fetched and delivered.
    Running,
    /// The partition is being revoked or the process is shutting down: the
    /// message in hand may finish its current attempt, no other is taken.
    Draining,
    /// Nothing is in hand and nothing will be taken.
    Stopped,
    /// An invariant was found broken.
    Halted,
}

/// What happened.
#[derive(Clone, Copy, Debug, PartialEq, Eq, Structural)]
pub enum Event {
    /// The broker delivered the message at this offset.
    Fetched { offset: i64 },
    /// The broker delivered the message at this offset although there was
    /// no room for it.
    Overflowed { offset: i64 },
    /// The attempt that was on its way ended. The sample is a random number,
    /// used to pick the wait before the next attempt.
    Responded { outcome: Outcome, sample: u64 },
    /// The backoff has passed.
    BackoffElapsed,
    /// The dead-letter sink has stored the message.
    DeadLetterStored,
    /// The dead-letter sink could not store the message.
    DeadLetterFailed,
    /// The partition is being taken away.
    Revoked,
    /// The process was asked to stop.
    Shutdown,
    /// The time granted for draining is over.
    Deadline,
}

/// What to do next.
#[derive(Clone, Copy, Debug, PartialEq, Eq, Structural)]
pub enum Action {
    /// Nothing: an event that is awaited will follow, or none at all.
    Nothing,
    /// Fetch the next message of the partition.
    Fetch,
    /// Post the message at this offset; it is the attempt with this index.
    Post { offset: i64, attempt: u32 },
    /// Wait this many milliseconds, then report that the backoff has passed.
    Sleep { offset: i64, attempt: u32, delay_ms: u64 },
    /// Write the message at this offset to the dead-letter sink.
    DeadLetter { offset: i64, attempt: u32, outcome: Outcome },
    /// The partition may be given up: nothing is in hand any more.
    Release,
    /// End the process: an invariant was found broken.
    Halt,
}

/// An error as it goes to the log.
#[derive(Clone, Copy, Debug, PartialEq, Eq, Structural)]
pub struct Report {
    pub kind: ErrorKind,
    pub offset: i64,
    /// The index of the attempt that the error belongs to, zero where none
    /// was made.
    pub attempt: u32,
    pub reason: Option<Reason>,
}

/// The answer of the pipeline to one event.
#[derive(Clone, Copy, Debug, PartialEq, Eq, Structural)]
pub struct Reaction {
    pub action: Action,
    /// The offset to commit, where the committed offset has moved.
    pub commit: Option<i64>,
    /// The offset of the message that was abandoned, where one was: it was
    /// in hand and will never be committed by this pipeline.
    pub abandoned: Option<i64>,
    /// The error to log, where there is one.
    pub report: Option<Report>,
}

/// A pipeline after an event, and its answer.
pub struct Step {
    pub next: PipelineView,
    pub reaction: Reaction,
}

/// What a pipeline holds.
pub struct PipelineView {
    pub policy: RetryPolicy,
    pub cursor: CursorView,
    pub phase: Phase,
    pub mode: Mode,
}

/// The answer that asks for an action and nothing else.
pub open spec fn only(action: Action) -> Reaction {
    Reaction { action, commit: None, abandoned: None, report: None }
}

/// The kind of error that a failed attempt is logged as.
pub open spec fn failure_kind(outcome: Outcome) -> ErrorKind {
    if outcome is Permanent {
        ErrorKind::WebhookPermanent
    } else {
        ErrorKind::WebhookRetriable
    }
}

/// The report of a failed attempt.
pub open spec fn failure_report(offset: i64, attempt: u32, outcome: Outcome) -> Report {
    Report {
        kind: failure_kind(outcome),
        offset,
        attempt,
        reason: outcome.spec_reason(),
    }
}

impl Phase {
    /// The offset of the message in hand.
    pub open spec fn in_hand(self) -> Option<i64> {
        match self {
            Phase::Idle => None,
            Phase::Sending { offset, .. } => Some(offset),
            Phase::Waiting { offset, .. } => Some(offset),
            Phase::DeadLetter { offset, .. } => Some(offset),
        }
    }

    /// The index of the last attempt made for the message in hand.
    pub open spec fn attempt(self) -> u32 {
        match self {
            Phase::Idle => 0,
            Phase::Sending { attempt, .. } => attempt,
            Phase::Waiting { attempt, .. } => attempt,
            Phase::DeadLetter { attempt, .. } => attempt,
        }
    }
}

impl PipelineView {
    /// The pipeline of a partition that was just assigned.
    pub open spec fn fresh(policy: RetryPolicy) -> PipelineView {
        PipelineView {
            policy,
            cursor: CursorView::fresh(),
            phase: Phase::Idle,
            mode: Mode::Running,
        }
    }

    /// The invariant of a pipeline: the message in hand is the one offset
    /// in flight, every commit was handed out, and a pipeline that has
    /// stopped holds nothing.
    pub open spec fn wf(self) -> bool {
        &&& self.policy.wf()
        &&& self.cursor.wf()
        &&& self.cursor.flushed == self.cursor.committed
        &&& match self.phase {
            Phase::Idle => self.cursor.window.len() <= 1 && (self.mode is Running
                ==> self.cursor.window.len() == 0) && !(self.mode is Draining),
            Phase::Sending { offset, attempt } => attempt >= 1 && self.holds(offset),
            Phase::Waiting { offset, attempt } => 1 <= attempt < self.policy.spec_max_attempts()
                && self.holds(offset) && self.mode is Running,
            Phase::DeadLetter { offset, attempt, outcome } => attempt >= 1 && self.holds(offset),
        }
    }

    /// The message at the given offset is in hand: it is the one offset in
    /// flight, and the pipeline has not stopped.
    pub open spec fn holds(self, offset: i64) -> bool {
        &&& self.cursor.window == seq![Slot { offset, settled: false }]
        &&& self.mode is Running || self.mode is Draining
    }

    /// The pipeline unchanged, with the given action as its answer.
    pub open spec fn stay(self, action: Action) -> Step {
        Step { next: self, reaction: only(action) }
    }

    /// The message in hand is settled: the committed offset moves to it, and
    /// the pipeline goes on to the next message, or stops where it was
    /// draining.
    pub open spec fn settled(self, offset: i64) -> Step {
        let cursor = self.cursor.settle(offset);
        Step {
            next: PipelineView {
                cursor: cursor.flush(),
                phase: Phase::Idle,
                mode: if self.mode is Running {
                    Mode::Running
                } else {
                    Mode::Stopped
                },
                ..self
            },
            reaction: Reaction {
                action: if self.mode is Running {
                    Action::Fetch
                } else {
                    Action::Release
                },
                commit: cursor.pending_commit(),
                abandoned: None,
                report: None,
            },
        }
    }

    /// The message in hand is abandoned: it stays uncommitted, and the
    /// pipeline stops.
    pub open spec fn abandoned(self, offset: i64, report: Option<Report>) -> Step {
        Step {
            next: PipelineView { phase: Phase::Idle, mode: Mode::Stopped, ..self },
            reaction: Reaction {
                action: Action::Release,
                commit: None,
                abandoned: Some(offset),
                report,
            },
        }
    }

    /// An invariant was found broken at the given offset.
    pub open spec fn halted(self, offset: i64) -> Step {
        Step {
            next: PipelineView { phase: Phase::Idle, mode: Mode::Halted, ..self },
            reaction: Reaction {
                action: Action::Halt,
                commit: None,
                abandoned: self.phase.in_hand(),
                report: Some(
                    Report {
                        kind: ErrorKind::InvariantViolation,
                        offset,
                        attempt: 0,
                        reason: None,
                    },
                ),
            },
        }
    }

    /// A message was fetched.
    pub open spec fn fetched(self, offset: i64) -> Step {
        if self.mode is Draining {
            self.stay(Action::Nothing)
        } else if self.phase is Idle && self.cursor.can_begin(offset) {
            Step {
                next: PipelineView {
                    cursor: self.cursor.begin(offset),
                    phase: Phase::Sending { offset, attempt: 1 },
                    ..self
                },
                reaction: only(Action::Post { offset, attempt: 1 }),
            }
        } else {
            self.halted(offset)
        }
    }

    /// The attempt with the given index ended in the given outcome.
    pub open spec fn responded(
        self,
        offset: i64,
        attempt: u32,
        outcome: Outcome,
        sample: u64,
    ) -> Step {
        match self.policy.decision(attempt, outcome) {
            None => self.settled(offset),
            Some(RetryDecision::Delay(ceiling)) => if self.mode is Running {
                Step {
                    next: PipelineView { phase: Phase::Waiting { offset, attempt }, ..self },
                    reaction: Reaction {
                        action: Action::Sleep {
                            offset,
                            attempt,
                            delay_ms: jittered_ms(ceiling, sample) as u64,
                        },
                        commit: None,
                        abandoned: None,
                        report: Some(failure_report(offset, attempt, outcome)),
                    },
                }
            } else {
                self.abandoned(offset, Some(failure_report(offset, attempt, outcome)))
            },
            Some(RetryDecision::GiveUp) => Step {
                next: PipelineView {
                    phase: Phase::DeadLetter { offset, attempt, outcome },
                    ..self
                },
                reaction: Reaction {
                    action: Action::DeadLetter { offset, attempt, outcome },
                    commit: None,
                    abandoned: None,
                    report: Some(failure_report(offset, attempt, outcome)),
                },
            },
        }
    }

    /// The partition is being revoked, or the process is shutting down.
    pub open spec fn drained(self) -> Step {
        match self.phase {
            Phase::Idle => Step {
                next: PipelineView { mode: Mode::Stopped, ..self },
                reaction: only(Action::Release),
            },
            Phase::Waiting { offset, attempt } => self.abandoned(
                offset,
                Some(
                    Report { kind: ErrorKind::ShutdownRequested, offset, attempt, reason: None },
                ),
            ),
            _ => Step {
                next: PipelineView { mode: Mode::Draining, ..self },
                reaction: only(Action::Nothing),
            },
        }
    }

    /// The time for draining is over.
    pub open spec fn expired(self) -> Step {
        match (self.mode, self.phase.in_hand()) {
            (Mode::Draining, Some(offset)) => self.abandoned(
                offset,
                Some(
                    Report {
                        kind: ErrorKind::ShutdownRequested,
                        offset,
                        attempt: self.phase.attempt(),
                        reason: None,
                    },
                ),
            ),
            _ => self.stay(Action::Nothing),
        }
    }

    /// The pipeline after an event, and its answer to it.
    pub open spec fn step(self, event: Event) -> Step {
        match self.mode {
            Mode::Stopped => self.stay(Action::Nothing),
            Mode::Halted => self.stay(Action::Halt),
            _ => match event {
                Event::Fetched { offset } => self.fetched(offset),
                Event::Overflowed { offset } => self.halted(offset),
                Event::Revoked => self.drained(),
                Event::Shutdown => self.drained(),
                Event::Deadline => self.expired(),
                Event::Responded { outcome, sample } => match self.phase {
                    Phase::Sending { offset, attempt } => self.responded(
                        offset,
                        attempt,
                        outcome,
                        sample,
                    ),
                    _ => self.stay(Action::Nothing),
                },
                Event::BackoffElapsed => match self.phase {
                    Phase::Waiting { offset, attempt } => Step {
                        next: PipelineView {
                            phase: Phase::Sending { offset, attempt: (attempt + 1) as u32 },
                            ..self
                        },
                        reaction: only(Action::Post { offset, attempt: (attempt + 1) as u32 }),
                    },
                    _ => self.stay(Action::Nothing),
                },
                Event::DeadLetterStored => match self.phase {
                    Phase::DeadLetter { offset, .. } => self.settled(offset),
                    _ => self.stay(Action::Nothing),
                },
                Event::DeadLetterFailed => match self.phase {
                    Phase::DeadLetter { offset, attempt, outcome } => Step {
                        next: self,
                        reaction: Reaction {
                            action: Action::DeadLetter { offset, attempt, outcome },
                            commit: None,
                            abandoned: None,
                            report: Some(
                                Report {
                                    kind: ErrorKind::DeadLetterUnavailable,
                                    offset,
                                    attempt,
                                    reason: None,
                                },
                            ),
                        },
                    },
                    _ => self.stay(Action::Nothing),
                },
            },
        }
    }

    /// The pipeline after a sequence of events.
    pub open spec fn run(self, events: Seq<Event>) -> PipelineView
        decreases events.len(),
    {
        if events.len() == 0 {
            self
        } else {
            self.run(events.drop_last()).step(events.last()).next
        }
    }

    /// The answer to the event at position `i` of a sequence of events.
    pub open spec fn reaction_at(self, events: Seq<Event>, i: int) -> Reaction
        recommends
            0 <= i < events.len(),
    {
        self.run(events.take(i)).step(events[i]).reaction
    }
}

/// A pipeline that was just made keeps the invariant.
pub proof fn lemma_fresh_wf(policy: RetryPolicy)
    requires
        policy.wf(),
    ensures
        PipelineView::fresh(policy).wf(),
{
}

/// Settling the message in hand commits exactly its offset and leaves
/// nothing in flight.
pub proof fn lemma_settle_in_hand(s: PipelineView, offset: i64)
    requires
        s.wf(),
        s.holds(offset),
    ensures
        s.cursor.settle(offset).committed == Some(offset),
        s.cursor.settle(offset).highest_delivered == Some(offset),
        s.cursor.settle(offset).pending_commit() == Some(offset),
        s.cursor.settle(offset).window.len() == 0,
        s.cursor.is_in_flight(offset),
        s.settled(offset).next.wf(),
{
    let c = s.cursor;
    assert(c.window[0].offset == offset && !c.window[0].settled);
    assert(c.is_in_flight(offset));
    let marked = mark(c.window, offset);
    assert(marked[0].settled);
    lemma_settled_prefix_is(marked, 1);
    lemma_settle(c, offset);
    assert(c.settle(offset).committed == Some(offset));
    assert(c.committed != Some(c.window[0].offset));
}

/// Every step keeps the invariant.
pub proof fn lemma_step_wf(s: PipelineView, event: Event)
    requires
        s.wf(),
    ensures
        s.step(event).next.wf(),
{
    match s.phase.in_hand() {
        Some(offset) => {
            lemma_settle_in_hand(s, offset);
        },
        None => {},
    }
    match event {
        Event::Fetched { offset } => {
            if s.cursor.can_begin(offset) && s.phase is Idle && s.mode is Running {
                lemma_begin(s.cursor, offset);
                assert(s.cursor.begin(offset).window =~= seq![Slot { offset, settled: false }]);
            }
        },
        _ => {},
    }
}

/// Every sequence of events keeps the invariant. So at every time the
/// committed offset is at most the highest delivered offset, and that one
/// at most the last offset begun.
pub proof fn lemma_run_wf(s: PipelineView, events: Seq<Event>)
    requires
        s.wf(),
    ensures
        s.run(events).wf(),
        at_most(s.run(events).cursor.committed, s.run(events).cursor.highest_delivered),
        at_most(s.run(events).cursor.highest_delivered, s.run(events).cursor.last_begun),
    decreases events.len(),
{
    if events.len() > 0 {
        lemma_run_wf(s, events.drop_last());
        lemma_step_wf(s.run(events.drop_last()), events.last());
    }
}

/// The committed offset moves only when the message in hand is acknowledged
/// by the webhook or stored in the dead-letter sink, and then to the offset
/// of that message, which is handed out for the commit.
pub proof fn lemma_commit_only_when_settled(s: PipelineView, event: Event)
    requires
        s.wf(),
    ensures
        s.step(event).next.cursor.committed != s.cursor.committed ==> {
            &&& s.step(event).next.cursor.committed == s.phase.in_hand()
            &&& s.step(event).reaction.commit == s.phase.in_hand()
            &&& (event matches Event::Responded { outcome, .. } && outcome is Success
                && s.phase is Sending) || (event is DeadLetterStored && s.phase is DeadLetter)
        },
        s.step(event).next.cursor.committed == s.cursor.committed ==> s.step(
            event,
        ).reaction.commit is None,
        s.step(event).reaction.abandoned matches Some(offset) ==> s.phase.in_hand() == Some(offset)
            && s.step(event).next.cursor.committed == s.cursor.committed,
{
    match s.phase.in_hand() {
        Some(offset) => {
            lemma_settle_in_hand(s, offset);
            assert(s.cursor.committed != Some(s.cursor.window[0].offset));
        },
        None => {},
    }
}

/// A message that the webhook acknowledges is committed by the same step.
pub proof fn lemma_acknowledged_is_committed(s: PipelineView, sample: u64)
    requires
        s.wf(),
        s.phase is Sending,
    ensures
        s.step(Event::Responded { outcome: Outcome::Success, sample }).next.cursor.committed
            == s.phase.in_hand(),
        s.step(Event::Responded { outcome: Outcome::Success, sample }).reaction.commit
            == s.phase.in_hand(),
{
    lemma_settle_in_hand(s, s.phase.in_hand()->Some_0);
}

/// No sequence of events moves the committed offset back.
pub proof fn lemma_committed_never_recedes(s: PipelineView, events: Seq<Event>)
    requires
        s.wf(),
    ensures
        at_most(s.cursor.committed, s.run(events).cursor.committed),
    decreases events.len(),
{
    if events.len() > 0 {
        let before = s.run(events.drop_last());
        lemma_committed_never_recedes(s, events.drop_last());
        lemma_run_wf(s, events.drop_last());
        lemma_commit_only_when_settled(before, events.last());
        match before.phase.in_hand() {
            Some(offset) => {
                lemma_settle_in_hand(before, offset);
                assert(before.cursor.is_in_flight(offset));
                lemma_settle(before.cursor, offset);
            },
            None => {},
        }
    }
}

/// Once the webhook has acknowledged a message, the committed offset is at
/// or above the offset of that message, whatever happens afterwards.
pub proof fn lemma_acknowledged_stays_committed(s: PipelineView, events: Seq<Event>, i: int)
    requires
        s.wf(),
        0 <= i < events.len(),
        events[i] matches Event::Responded { outcome, .. } && outcome is Success,
        s.run(events.take(i)).phase is Sending,
    ensures
        at_most(s.run(events.take(i)).phase.in_hand(), s.run(events).cursor.committed),
{
    let before = s.run(events.take(i));
    let after = s.run(events.take(i + 1));
    let sample = events[i]->Responded_sample;
    lemma_run_wf(s, events.take(i));
    lemma_run_take(s, events, i);
    lemma_acknowledged_is_committed(before, sample);
    lemma_step_wf(before, events[i]);
    let rest = events.skip(i + 1);
    lemma_run_split(s, events, i + 1);
    lemma_committed_never_recedes(after, rest);
}

/// An attempt is asked for only while none is on its way, and is on its
/// way from then on: a message never has two attempts at once.
pub proof fn lemma_one_attempt_at_a_time(s: PipelineView, event: Event)
    requires
        s.wf(),
        post_of(s.step(event).reaction) is Some,
    ensures
        !(s.phase is Sending),
        s.step(event).next.phase == (Phase::Sending {
            offset: post_of(s.step(event).reaction)->Some_0.0,
            attempt: post_of(s.step(event).reaction)->Some_0.1,
        }),
{
}

/// A pipeline that does not run asks for no attempt, and never runs again.
pub proof fn lemma_no_post_unless_running(s: PipelineView, event: Event)
    requires
        s.wf(),
        !(s.mode is Running),
    ensures
        post_of(s.step(event).reaction) is None,
        !(s.step(event).next.mode is Running),
{
}

/// After a revocation or a request to stop, no attempt is asked for any
/// more: the attempt on its way is the last one.
pub proof fn lemma_no_post_after_drain(s: PipelineView, events: Seq<Event>, i: int, j: int)
    requires
        s.wf(),
        0 <= i < j < events.len(),
        events[i] is Revoked || events[i] is Shutdown,
    ensures
        post_of(s.reaction_at(events, j)) is None,
{
    lemma_run_wf(s, events.take(i));
    lemma_run_take(s, events, i);
    assert(!(s.run(events.take(i + 1)).mode is Running));
    lemma_not_running_from(s, events, i + 1, j);
    lemma_run_wf(s, events.take(j));
    lemma_no_post_unless_running(s.run(events.take(j)), events[j]);
}

proof fn lemma_not_running_from(s: PipelineView, events: Seq<Event>, i: int, j: int)
    requires
        s.wf(),
        0 <= i <= j <= events.len(),
        !(s.run(events.take(i)).mode is Running),
    ensures
        !(s.run(events.take(j)).mode is Running),
    decreases j - i,
{
    if i < j {
        lemma_not_running_from(s, events, i, j - 1);
        lemma_run_take(s, events, j - 1);
        lemma_run_wf(s, events.take(j - 1));
        lemma_no_post_unless_running(s.run(events.take(j - 1)), events[j - 1]);
    }
}

/// A pipeline that drains has stopped once the deadline has passed, and
/// what it had in hand is not committed.
pub proof fn lemma_stopped_by_deadline(s: PipelineView)
    requires
        s.wf(),
        s.mode is Draining,
    ensures
        s.step(Event::Deadline).next.mode is Stopped,
        s.step(Event::Deadline).next.cursor == s.cursor,
        s.step(Event::Deadline).reaction.abandoned == s.phase.in_hand(),
        s.step(Event::Deadline).reaction.commit is None,
{
}

/// A pipeline that has stopped or halted stays as it is.
pub proof fn lemma_stopped_stays(s: PipelineView, events: Seq<Event>)
    requires
        s.mode is Stopped || s.mode is Halted,
    ensures
        s.run(events) == s,
    decreases events.len(),
{
    if events.len() > 0 {
        lemma_stopped_stays(s, events.drop_last());
    }
}

/// The offset and attempt index that an answer asks to post.
pub open spec fn post_of(reaction: Reaction) -> Option<(i64, u32)> {
    match reaction.action {
        Action::Post { offset, attempt } => Some((offset, attempt)),
        _ => None,
    }
}

/// The order of posts: by offset, and for one offset by attempt index.
pub open spec fn precedes(a: (i64, u32), b: (i64, u32)) -> bool {
    a.0 < b.0 || (a.0 == b.0 && a.1 < b.1)
}

/// A post that the pipeline may still ask for: of an offset above every
/// offset begun, or of the message in hand with a higher attempt index.
spec fn may_post(s: PipelineView, post: (i64, u32)) -> bool {
    ||| s.cursor.can_begin(post.0)
    ||| (s.phase is Sending || s.phase is Waiting) && s.phase.in_hand() == Some(post.0)
        && s.phase.attempt() < post.1
}

proof fn lemma_post_was_possible(s: PipelineView, event: Event)
    requires
        s.wf(),
        post_of(s.step(event).reaction) is Some,
    ensures
        may_post(s, post_of(s.step(event).reaction)->Some_0),
        forall|later: (i64, u32)|
            may_post(s.step(event).next, later) ==> precedes(
                post_of(s.step(event).reaction)->Some_0,
                later,
            ),
{
    match event {
        Event::Fetched { offset } => {
            lemma_begin(s.cursor, offset);
        },
        _ => {},
    }
}

proof fn lemma_may_post_shrinks(s: PipelineView, event: Event, post: (i64, u32))
    requires
        s.wf(),
        may_post(s.step(event).next, post),
    ensures
        may_post(s, post),
{
    match s.phase.in_hand() {
        Some(offset) => {
            lemma_settle_in_hand(s, offset);
            lemma_settle(s.cursor, offset);
            assert(s.cursor.last_begun == Some(offset));
        },
        None => {},
    }
}

proof fn lemma_run_take(s: PipelineView, events: Seq<Event>, i: int)
    requires
        0 <= i < events.len(),
    ensures
        s.run(events.take(i + 1)) == s.run(events.take(i)).step(events[i]).next,
{
    assert(events.take(i + 1).drop_last() =~= events.take(i));
    assert(events.take(i + 1).last() == events[i]);
}

proof fn lemma_run_split(s: PipelineView, events: Seq<Event>, i: int)
    requires
        0 <= i <= events.len(),
    ensures
        s.run(events) == s.run(events.take(i)).run(events.skip(i)),
    decreases events.len() - i,
{
    if i == events.len() {
        assert(events.take(i) =~= events);
        assert(events.skip(i).len() == 0);
    } else {
        let rest = events.skip(i);
        assert(rest.drop_last() =~= events.drop_last().skip(i));
        assert(events.drop_last().take(i) =~= events.take(i));
        lemma_run_split(s, events.drop_last(), i);
    }
}

proof fn lemma_may_post_from(s: PipelineView, events: Seq<Event>, i: int, j: int, post: (i64, u32))
    requires
        s.wf(),
        0 <= i <= j <= events.len(),
        may_post(s.run(events.take(j)), post),
    ensures
        may_post(s.run(events.take(i)), post),
    decreases j - i,
{
    if i < j {
        lemma_run_take(s, events, j - 1);
        lemma_run_wf(s, events.take(j - 1));
        lemma_may_post_shrinks(s.run(events.take(j - 1)), events[j - 1], post);
        lemma_may_post_from(s, events, i, j - 1, post);
    }
}

/// The posts that a pipeline asks for come in ascending order of offset,
/// and those of one offset in ascending order of attempt index: the first
/// attempts of its messages are made at strictly ascending offsets.
pub proof fn lemma_posts_ascend(s: PipelineView, events: Seq<Event>, i: int, j: int)
    requires
        s.wf(),
        0 <= i < j < events.len(),
        post_of(s.reaction_at(events, i)) is Some,
        post_of(s.reaction_at(events, j)) is Some,
    ensures
        precedes(
            post_of(s.reaction_at(events, i))->Some_0,
            post_of(s.reaction_at(events, j))->Some_0,
        ),
{
    let later = post_of(s.reaction_at(events, j))->Some_0;
    lemma_run_wf(s, events.take(j));
    lemma_post_was_possible(s.run(events.take(j)), events[j]);
    lemma_may_post_from(s, events, i + 1, j, later);
    lemma_run_take(s, events, i);
    lemma_run_wf(s, events.take(i));
    lemma_post_was_possible(s.run(events.take(i)), events[i]);
}

/// The events of a run in which every message is acknowledged at its first
/// attempt: each offset is fetched, and the webhook answers with a success.
pub open spec fn acknowledged(offsets: Seq<i64>, samples: Seq<u64>) -> Seq<Event> {
    Seq::new(
        2 * offsets.len(),
        |i: int|
            if i % 2 == 0 {
                Event::Fetched { offset: offsets[i / 2] }
            } else {
                Event::Responded { outcome: Outcome::Success, sample: samples[i / 2] }
            },
    )
}

/// Where the webhook acknowledges every message, the committed offset after
/// any number of messages is the offset of the last one, and so is the
/// highest delivered offset.
pub proof fn lemma_all_acknowledged(policy: RetryPolicy, offsets: Seq<i64>, samples: Seq<u64>)
    requires
        policy.wf(),
        offsets.len() > 0,
        forall|i: int, j: int| 0 <= i < j < offsets.len() ==> offsets[i] < offsets[j],
    ensures
        PipelineView::fresh(policy).run(acknowledged(offsets, samples)).cursor.committed == Some(
            offsets.last(),
        ),
        PipelineView::fresh(policy).run(
            acknowledged(offsets, samples),
        ).cursor.highest_delivered == Some(offsets.last()),
        PipelineView::fresh(policy).run(acknowledged(offsets, samples)).cursor.in_flight()
            == Set::<i64>::empty(),
{
    lemma_acknowledged_prefix(policy, offsets, samples, offsets.len() as int);
    assert(offsets.take(offsets.len() as int) =~= offsets);
    let end = PipelineView::fresh(policy).run(acknowledged(offsets, samples));
    assert(end.cursor.in_flight() =~= Set::<i64>::empty());
}

proof fn lemma_acknowledged_prefix(
    policy: RetryPolicy,
    offsets: Seq<i64>,
    samples: Seq<u64>,
    n: int,
)
    requires
        policy.wf(),
        0 <= n <= offsets.len(),
        forall|i: int, j: int| 0 <= i < j < offsets.len() ==> offsets[i] < offsets[j],
    ensures
        ({
            let end = PipelineView::fresh(policy).run(acknowledged(offsets.take(n), samples));
            &&& end.wf()
            &&& end.phase is Idle
            &&& end.mode is Running
            &&& end.cursor.window.len() == 0
            &&& n == 0 ==> end.cursor.last_begun is None
            &&& n > 0 ==> end.cursor.last_begun == Some(offsets[n - 1])
            &&& n > 0 ==> end.cursor.committed == Some(offsets[n - 1])
            &&& n > 0 ==> end.cursor.highest_delivered == Some(offsets[n - 1])
        }),
    decreases n,
{
    let start = PipelineView::fresh(policy);
    let events = acknowledged(offsets.take(n), samples);
    if n > 0 {
        let before = acknowledged(offsets.take(n - 1), samples);
        lemma_acknowledged_prefix(policy, offsets, samples, n - 1);
        assert(events.drop_last().drop_last() =~= before);
        let offset = offsets[n - 1];
        assert(events.drop_last().last() == Event::Fetched { offset });
        assert(events.last() == Event::Responded {
            outcome: Outcome::Success,
            sample: samples[n - 1],
        });
        let idle = start.run(before);
        if n > 1 {
            assert(offsets[n - 2] < offsets[n - 1]);
        }
        lemma_begin(idle.cursor, offset);
        lemma_step_wf(idle, Event::Fetched { offset });
        let sending = idle.step(Event::Fetched { offset }).next;
        assert(start.run(events.drop_last()) == sending);
        lemma_settle_in_hand(sending, offset);
        lemma_settle(sending.cursor, offset);
    }
}

/// The delivery pipeline of one partition.
#[derive(Clone, Debug)]
pub struct PartitionPipeline {
    policy: RetryPolicy,
    cursor: OffsetCursor,
    phase: Phase,
    mode: Mode,
}

impl View for PartitionPipeline {
    type V = PipelineView;

    closed spec fn view(&self) -> PipelineView {
        PipelineView {
            policy: self.policy,
            cursor: self.cursor@,
            phase: self.phase,
            mode: self.mode,
        }
    }
}

/// The report of a failed attempt.
fn report_failure(offset: i64, attempt: u32, outcome: Outcome) -> (report: Report)
    ensures
        report == failure_report(offset, attempt, outcome),
{
    let kind = match outcome {
        Outcome::Permanent(_) => ErrorKind::WebhookPermanent,
        _ => ErrorKind::WebhookRetriable,
    };
    Report { kind, offset, attempt, reason: outcome.reason() }
}

/// The answer that asks for an action and nothing else.
fn just(action: Action) -> (reaction: Reaction)
    ensures
        reaction == only(action),
{
    Reaction { action, commit: None, abandoned: None, report: None }
}

impl PartitionPipeline {
    /// The pipeline of a partition that was just assigned.
    pub fn new(policy: RetryPolicy) -> (pipeline: PartitionPipeline)
        requires
            policy.wf(),
        ensures
            pipeline@ == PipelineView::fresh(policy),
            pipeline@.wf(),
    {
        PartitionPipeline {
            policy,
            cursor: OffsetCursor::new(),
            phase: Phase::Idle,
            mode: Mode::Running,
        }
    }

    /// What the pipeline is doing with the message in hand.
    pub fn phase(&self) -> (phase: Phase)
        ensures
            phase == self@.phase,
    {
        self.phase
    }

    /// Whether the pipeline takes new messages.
    pub fn mode(&self) -> (mode: Mode)
        ensures
            mode == self@.mode,
    {
        self.mode
    }

    /// The highest offset that is safe to commit.
    pub fn committed(&self) -> (offset: Option<i64>)
        ensures
            offset == self@.cursor.committed,
    {
        self.cursor.committed()
    }

    /// The highest offset that was acknowledged or dead-lettered.
    pub fn highest_delivered(&self) -> (offset: Option<i64>)
        ensures
            offset == self@.cursor.highest_delivered,
    {
        self.cursor.highest_delivered()
    }

    /// Whether a message is in hand.
    pub fn is_busy(&self) -> (busy: bool)
        ensures
            busy == self@.phase.in_hand() is Some,
    {
        match self.phase {
            Phase::Idle => false,
            _ => true,
        }
    }

    fn settle(&mut self, offset: i64) -> (reaction: Reaction)
        requires
            old(self)@.wf(),
            old(self)@.holds(offset),
        ensures
            final(self)@ == old(self)@.settled(offset).next,
            reaction == old(self)@.settled(offset).reaction,
    {
        proof {
            lemma_settle_in_hand(self@, offset);
            lemma_settle(self@.cursor, offset);
        }
        let _ = self.cursor.settle(offset);
        let commit = self.cursor.take_commit();
        self.phase = Phase::Idle;
        match self.mode {
            Mode::Running => Reaction {
                action: Action::Fetch,
                commit,
                abandoned: None,
                report: None,
            },
            _ => {
                self.mode = Mode::Stopped;
                Reaction { action: Action::Release, commit, abandoned: None, report: None }
            },
        }
    }

    fn abandon(&mut self, offset: i64, report: Report) -> (reaction: Reaction)
        ensures
            final(self)@ == old(self)@.abandoned(offset, Some(report)).next,
            reaction == old(self)@.abandoned(offset, Some(report)).reaction,
    {
        self.phase = Phase::Idle;
        self.mode = Mode::Stopped;
        Reaction {
            action: Action::Release,
            commit: None,
            abandoned: Some(offset),
            report: Some(report),
        }
    }

    fn halt(&mut self, offset: i64) -> (reaction: Reaction)
        ensures
            final(self)@ == old(self)@.halted(offset).next,
            reaction == old(self)@.halted(offset).reaction,
    {
        let in_hand = match self.phase {
            Phase::Idle => None,
            Phase::Sending { offset, .. } => Some(offset),
            Phase::Waiting { offset, .. } => Some(offset),
            Phase::DeadLetter { offset, .. } => Some(offset),
        };
        self.phase = Phase::Idle;
        self.mode = Mode::Halted;
        Reaction {
            action: Action::Halt,
            commit: None,
            abandoned: in_hand,
            report: Some(
                Report { kind: ErrorKind::InvariantViolation, offset, attempt: 0, reason: None },
            ),
        }
    }

    fn on_fetched(&mut self, offset: i64) -> (reaction: Reaction)
        requires
            old(self)@.wf(),
            old(self)@.mode is Running || old(self)@.mode is Draining,
        ensures
            final(self)@ == old(self)@.fetched(offset).next,
            reaction == old(self)@.fetched(offset).reaction,
    {
        match self.mode {
            Mode::Draining => {
                return just(Action::Nothing);
            },
            _ => {},
        }
        match self.phase {
            Phase::Idle => match self.cursor.begin(offset) {
                Ok(()) => {
                    self.phase = Phase::Sending { offset, attempt: 1 };
                    just(Action::Post { offset, attempt: 1 })
                },
                Err(_) => self.halt(offset),
            },
            _ => self.halt(offset),
        }
    }

    fn on_responded(
        &mut self,
        offset: i64,
        attempt: u32,
        outcome: Outcome,
        sample: u64,
    ) -> (reaction: Reaction)
        requires
            old(self)@.wf(),
            old(self)@.phase == (Phase::Sending { offset, attempt }),
        ensures
            final(self)@ == old(self)@.responded(offset, attempt, outcome, sample).next,
            reaction == old(self)@.responded(offset, attempt, outcome, sample).reaction,
    {
        match self.policy.next(attempt, outcome) {
            None => self.settle(offset),
            Some(RetryDecision::Delay(ceiling)) => {
                let report = report_failure(offset, attempt, outcome);
                match self.mode {
                    Mode::Running => {
                        self.phase = Phase::Waiting { offset, attempt };
                        Reaction {
                            action: Action::Sleep {
                                offset,
                                attempt,
                                delay_ms: full_jitter(ceiling, sample),
                            },
                            commit: None,
                            abandoned: None,
                            report: Some(report),
                        }
                    },
                    _ => self.abandon(offset, report),
                }
            },
            Some(RetryDecision::GiveUp) => {
                self.phase = Phase::DeadLetter { offset, attempt, outcome };
                Reaction {
                    action: Action::DeadLetter { offset, attempt, outcome },
                    commit: None,
                    abandoned: None,
                    report: Some(report_failure(offset, attempt, outcome)),
                }
            },
        }
    }

    fn on_drain(&mut self) -> (reaction: Reaction)
        requires
            old(self)@.wf(),
        ensures
            final(self)@ == old(self)@.drained().next,
            reaction == old(self)@.drained().reaction,
    {
        match self.phase {
            Phase::Idle => {
                self.mode = Mode::Stopped;
                just(Action::Release)
            },
            Phase::Waiting { offset, attempt } => self.abandon(
                offset,
                Report { kind: ErrorKind::ShutdownRequested, offset, attempt, reason: None },
            ),
            _ => {
                self.mode = Mode::Draining;
                just(Action::Nothing)
            },
        }
    }

    fn on_deadline(&mut self) -> (reaction: Reaction)
        requires
            old(self)@.wf(),
        ensures
            final(self)@ == old(self)@.expired().next,
            reaction == old(self)@.expired().reaction,
    {
        match self.mode {
            Mode::Draining => match self.phase {
                Phase::Idle => just(Action::Nothing),
                Phase::Sending { offset, attempt } => self.abandon(
                    offset,
                    Report { kind: ErrorKind::ShutdownRequested, offset, attempt, reason: None },
                ),
                Phase::Waiting { offset, attempt } => self.abandon(
                    offset,
                    Report { kind: ErrorKind::ShutdownRequested, offset, attempt, reason: None },
                ),
                Phase::DeadLetter { offset, attempt, .. } => self.abandon(
                    offset,
                    Report { kind: ErrorKind::ShutdownRequested, offset, attempt, reason: None },
                ),
            },
            _ => just(Action::Nothing),
        }
    }

    /// Takes an event and answers with what to do next.
    pub fn handle(&mut self, event: Event) -> (reaction: Reaction)
        requires
            old(self)@.wf(),
        ensures
            final(self)@.wf(),
            final(self)@ == old(self)@.step(event).next,
            reaction == old(self)@.step(event).reaction,
    {
        proof {
            lemma_step_wf(self@, event);
        }
        match self.mode {
            Mode::Stopped => {
                return just(Action::Nothing);
            },
            Mode::Halted => {
                return just(Action::Halt);
            },
            _ => {},
        }
        match event {
            Event::Fetched { offset } => self.on_fetched(offset),
            Event::Overflowed { offset } => self.halt(offset),
            Event::Revoked => self.on_drain(),
            Event::Shutdown => self.on_drain(),
            Event::Deadline => self.on_deadline(),
            Event::Responded { outcome, sample } => match self.phase {
                Phase::Sending { offset, attempt } => self.on_responded(
                    offset,
                    attempt,
                    outcome,
                    sample,
                ),
                _ => just(Action::Nothing),
            },
            Event::BackoffElapsed => match self.phase {
                Phase::Waiting { offset, attempt } => {
                    self.phase = Phase::Sending { offset, attempt: attempt + 1 };
                    just(Action::Post { offset, attempt: attempt + 1 })
                },
                _ => just(Action::Nothing),
            },
            Event::DeadLetterStored => match self.phase {
                Phase::DeadLetter { offset, .. } => self.settle(offset),
                _ => just(Action::Nothing),
            },
            Event::DeadLetterFailed => match self.phase {
                Phase::DeadLetter { offset, attempt, outcome } => Reaction {
                    action: Action::DeadLetter { offset, attempt, outcome },
                    commit: None,
                    abandoned: None,
                    report: Some(
                        Report {
                            kind: ErrorKind::DeadLetterUnavailable,
                            offset,
                            attempt,
                            reason: None,
                        },
                    ),
                },
                _ => just(Action::Nothing),
            },
        }
    }
}

} // verus!
