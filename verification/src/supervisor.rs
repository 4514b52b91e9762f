//! The pipelines of all assigned partitions under one supervisor.
//!
//! The supervisor routes each event to the pipeline of its partition, keeps
//! the number of messages in hand under the concurrency limit, and carries
//! a shutdown or a deadline to every partition.

use crate::pipeline::{
    lemma_step_wf,
    Event,
    Mode,
    PartitionPipeline,
    PipelineView,
    Reaction,
    Step,
};
use crate::retry::RetryPolicy;
use crate::text::same_text;
use crate::tracker::at_most;
use vstd::prelude::*;
use vstd::string::*;

verus! {

/// The highest default of the concurrency limit.
pub const MAX_DEFAULT_CONCURRENCY: usize = 32;

/// One assigned partition and its pipeline.
#[derive(Clone, Debug)]
pub struct Lane {
    topic: String,
    partition: i32,
    pipeline: PartitionPipeline,
}

/// The answer of one lane to an event that went to all lanes.
#[derive(Clone, Debug, PartialEq, Eq)]
pub struct Told {
    pub topic: String,
    pub partition: i32,
    pub reaction: Reaction,
}

/// What a lane holds.
pub struct LaneView {
    pub topic: Seq<char>,
    pub partition: i32,
    pub pipeline: PipelineView,
}

impl View for Lane {
    type V = LaneView;

    closed spec fn view(&self) -> LaneView {
        LaneView { topic: self.topic@, partition: self.partition, pipeline: self.pipeline@ }
    }
}

impl LaneView {
    /// Whether the lane has a message in hand.
    pub open spec fn is_busy(self) -> bool {
        self.pipeline.phase.in_hand() is Some
    }

    /// Whether the lane belongs to the given partition.
    pub open spec fn is_for(self, topic: Seq<char>, partition: i32) -> bool {
        self.topic == topic && self.partition == partition
    }
}

/// The number of lanes with a message in hand.
pub open spec fn busy_among(lanes: Seq<LaneView>) -> nat
    decreases lanes.len(),
{
    if lanes.len() == 0 {
        0
    } else {
        busy_among(lanes.drop_last()) + if lanes.last().is_busy() {
            1nat
        } else {
            0nat
        }
    }
}

/// What a supervisor holds.
pub struct SupervisorView {
    pub policy: RetryPolicy,
    /// The configured concurrency limit, if there is one.
    pub configured_limit: Option<usize>,
    pub lanes: Seq<LaneView>,
}

impl SupervisorView {
    /// The invariant of a supervisor: one lane for each partition, every
    /// pipeline sound, and no more messages in hand than the limit allows.
    pub open spec fn wf(self) -> bool {
        &&& self.policy.wf()
        &&& forall|i: int|
            0 <= i < self.lanes.len() ==> (#[trigger] self.lanes[i]).pipeline.wf()
                && self.lanes[i].pipeline.policy == self.policy
        &&& forall|i: int, j: int|
            0 <= i < j < self.lanes.len() ==> !(#[trigger] self.lanes[i]).is_for(
                (#[trigger] self.lanes[j]).topic,
                self.lanes[j].partition,
            )
        &&& self.busy() <= self.limit()
    }

    /// The number of messages in hand.
    pub open spec fn busy(self) -> nat {
        busy_among(self.lanes)
    }

    /// The concurrency limit: the configured one, and without one the
    /// number of assigned partitions, at most 32.
    pub open spec fn limit(self) -> nat {
        match self.configured_limit {
            Some(limit) => limit as nat,
            None => if self.lanes.len() <= MAX_DEFAULT_CONCURRENCY {
                self.lanes.len()
            } else {
                MAX_DEFAULT_CONCURRENCY as nat
            },
        }
    }

    /// Whether the partition has a lane.
    pub open spec fn has_lane(self, topic: Seq<char>, partition: i32) -> bool {
        exists|i: int| 0 <= i < self.lanes.len() && (#[trigger] self.lanes[i]).is_for(topic, partition)
    }

    /// The event as it reaches lane `i`: a message that would take the
    /// number of messages in hand over the limit has overflowed.
    pub open spec fn routed(self, i: int, event: Event) -> Event {
        match event {
            Event::Fetched { offset } => if self.lanes[i].pipeline.mode is Running && self.busy()
                >= self.limit() {
                Event::Overflowed { offset }
            } else {
                event
            },
            _ => event,
        }
    }

    /// What lane `i` does with an event.
    pub open spec fn route(self, i: int, event: Event) -> Step {
        self.lanes[i].pipeline.step(self.routed(i, event))
    }

    /// The supervisor after lane `i` took an event.
    pub open spec fn after(self, i: int, event: Event) -> SupervisorView {
        SupervisorView {
            lanes: self.lanes.update(
                i,
                LaneView { pipeline: self.route(i, event).next, ..self.lanes[i] },
            ),
            ..self
        }
    }

    /// The supervisor after every lane took an event.
    pub open spec fn after_all(self, event: Event) -> SupervisorView {
        SupervisorView {
            lanes: Seq::new(
                self.lanes.len(),
                |i: int|
                    LaneView { pipeline: self.lanes[i].pipeline.step(event).next, ..self.lanes[i] },
            ),
            ..self
        }
    }

    /// Whether an answer is that of lane `i` to an event.
    pub open spec fn answer_of(self, told: Told, i: int, event: Event) -> bool {
        &&& told.topic@ == self.lanes[i].topic
        &&& told.partition == self.lanes[i].partition
        &&& told.reaction == self.lanes[i].pipeline.step(event).reaction
    }

    /// Whether the answers are those of all lanes to an event, in the order
    /// of the lanes.
    pub open spec fn answers_of(self, answers: Seq<Told>, event: Event) -> bool {
        &&& answers.len() == self.lanes.len()
        &&& forall|i: int| 0 <= i < answers.len() ==> self.answer_of(#[trigger] answers[i], i, event)
    }

    /// Whether every lane has come to rest: it has stopped or halted.
    pub open spec fn is_drained(self) -> bool {
        forall|i: int|
            0 <= i < self.lanes.len() ==> (#[trigger] self.lanes[i]).pipeline.mode is Stopped
                || self.lanes[i].pipeline.mode is Halted
    }

    /// Whether the next message of a partition may be fetched: its lane is
    /// running with nothing in hand, and the limit leaves room.
    pub open spec fn may_fetch(self, topic: Seq<char>, partition: i32) -> bool {
        &&& self.busy() < self.limit()
        &&& exists|i: int|
            0 <= i < self.lanes.len() && (#[trigger] self.lanes[i]).is_for(topic, partition)
                && self.lanes[i].pipeline.mode is Running && !self.lanes[i].is_busy()
    }
}

/// No more lanes are busy than there are lanes.
pub proof fn lemma_busy_bound(lanes: Seq<LaneView>)
    ensures
        busy_among(lanes) <= lanes.len(),
    decreases lanes.len(),
{
    if lanes.len() > 0 {
        lemma_busy_bound(lanes.drop_last());
    }
}

proof fn lemma_busy_update(lanes: Seq<LaneView>, i: int, lane: LaneView)
    requires
        0 <= i < lanes.len(),
    ensures
        busy_among(lanes.update(i, lane)) + (if lanes[i].is_busy() {
            1nat
        } else {
            0nat
        }) == busy_among(lanes) + (if lane.is_busy() {
            1nat
        } else {
            0nat
        }),
    decreases lanes.len(),
{
    let changed = lanes.update(i, lane);
    if i == lanes.len() - 1 {
        assert(changed.drop_last() =~= lanes.drop_last());
    } else {
        assert(changed.drop_last() =~= lanes.drop_last().update(i, lane));
        lemma_busy_update(lanes.drop_last(), i, lane);
    }
}

proof fn lemma_busy_remove(lanes: Seq<LaneView>, i: int)
    requires
        0 <= i < lanes.len(),
    ensures
        busy_among(lanes.remove(i)) + (if lanes[i].is_busy() {
            1nat
        } else {
            0nat
        }) == busy_among(lanes),
    decreases lanes.len(),
{
    let rest = lanes.remove(i);
    if i == lanes.len() - 1 {
        assert(rest =~= lanes.drop_last());
    } else {
        assert(rest.drop_last() =~= lanes.drop_last().remove(i));
        assert(rest.last() == lanes.last());
        lemma_busy_remove(lanes.drop_last(), i);
    }
}

proof fn lemma_busy_take(lanes: Seq<LaneView>, i: int)
    requires
        0 <= i < lanes.len(),
    ensures
        busy_among(lanes.take(i + 1)) == busy_among(lanes.take(i)) + (if lanes[i].is_busy() {
            1nat
        } else {
            0nat
        }),
{
    assert(lanes.take(i + 1).drop_last() =~= lanes.take(i));
}

/// A partition has one lane at most.
proof fn lemma_one_lane(s: SupervisorView, i: int, topic: Seq<char>, partition: i32)
    requires
        s.wf(),
        0 <= i < s.lanes.len(),
        s.lanes[i].is_for(topic, partition),
    ensures
        forall|j: int|
            0 <= j < s.lanes.len() && (#[trigger] s.lanes[j]).is_for(topic, partition) ==> j == i,
{
    assert forall|j: int|
        0 <= j < s.lanes.len() && (#[trigger] s.lanes[j]).is_for(topic, partition) implies j
        == i by {
        if j < i {
            assert(!s.lanes[j].is_for(s.lanes[i].topic, s.lanes[i].partition));
        } else if i < j {
            assert(!s.lanes[i].is_for(s.lanes[j].topic, s.lanes[j].partition));
        }
    }
}

/// An event other than a fetched message never puts a message in hand.
proof fn lemma_only_fetch_occupies(s: PipelineView, event: Event)
    requires
        !(event is Fetched),
    ensures
        s.step(event).next.phase.in_hand() is Some ==> s.phase.in_hand() is Some,
{
}

/// Whatever a lane does with an event, the supervisor keeps its invariant:
/// the number of messages in hand stays within the limit.
pub proof fn lemma_after_wf(s: SupervisorView, i: int, event: Event)
    requires
        s.wf(),
        0 <= i < s.lanes.len(),
    ensures
        s.after(i, event).wf(),
{
    let t = s.after(i, event);
    let lane = LaneView { pipeline: s.route(i, event).next, ..s.lanes[i] };
    lemma_step_wf(s.lanes[i].pipeline, s.routed(i, event));
    lemma_busy_update(s.lanes, i, lane);
    if !(s.routed(i, event) is Fetched) {
        lemma_only_fetch_occupies(s.lanes[i].pipeline, s.routed(i, event));
    }
    assert forall|a: int| 0 <= a < t.lanes.len() implies (#[trigger] t.lanes[a]).pipeline.wf()
        && t.lanes[a].pipeline.policy == t.policy by {
        if a != i {
            assert(t.lanes[a] == s.lanes[a]);
        }
    }
    assert forall|a: int, b: int| 0 <= a < b < t.lanes.len() implies !(#[trigger] t.lanes[a]).is_for(
        (#[trigger] t.lanes[b]).topic,
        t.lanes[b].partition,
    ) by {
        assert(t.lanes[a].topic == s.lanes[a].topic && t.lanes[a].partition
            == s.lanes[a].partition);
        assert(t.lanes[b].topic == s.lanes[b].topic && t.lanes[b].partition
            == s.lanes[b].partition);
        assert(!s.lanes[a].is_for(s.lanes[b].topic, s.lanes[b].partition));
    }
}

/// Under a supervisor that keeps its invariant, the committed offset of
/// every partition is at most its highest delivered offset, and below the
/// offset of the message that its lane has in hand.
pub proof fn lemma_every_partition_sound(s: SupervisorView, i: int)
    requires
        s.wf(),
        0 <= i < s.lanes.len(),
    ensures
        at_most(s.lanes[i].pipeline.cursor.committed, s.lanes[i].pipeline.cursor.highest_delivered),
        s.lanes[i].pipeline.phase.in_hand() matches Some(offset) ==> at_most(
            s.lanes[i].pipeline.cursor.committed,
            Some(offset),
        ) && s.lanes[i].pipeline.cursor.committed != Some(offset),
{
    let pipeline = s.lanes[i].pipeline;
    assert(pipeline.wf());
    match pipeline.phase.in_hand() {
        Some(offset) => {
            assert(pipeline.cursor.window[0].offset == offset);
        },
        None => {},
    }
}

/// Once every lane was told to stop and the deadline has passed, every lane
/// has come to rest.
pub proof fn lemma_drained_by_deadline(s: SupervisorView)
    requires
        s.wf(),
    ensures
        s.after_all(Event::Shutdown).after_all(Event::Deadline).is_drained(),
{
    let told = s.after_all(Event::Shutdown);
    let late = told.after_all(Event::Deadline);
    assert forall|i: int| 0 <= i < late.lanes.len() implies (#[trigger] late.lanes[i]).pipeline.mode is Stopped
        || late.lanes[i].pipeline.mode is Halted by {
        assert(s.lanes[i].pipeline.wf());
        lemma_step_wf(s.lanes[i].pipeline, Event::Shutdown);
        assert(told.lanes[i].pipeline == s.lanes[i].pipeline.step(Event::Shutdown).next);
        assert(late.lanes[i].pipeline == told.lanes[i].pipeline.step(Event::Deadline).next);
    }
}

/// The supervisor of all assigned partitions.
#[derive(Clone, Debug)]
pub struct Supervisor {
    policy: RetryPolicy,
    configured_limit: Option<usize>,
    lanes: Vec<Lane>,
}

impl View for Supervisor {
    type V = SupervisorView;

    closed spec fn view(&self) -> SupervisorView {
        SupervisorView {
            policy: self.policy,
            configured_limit: self.configured_limit,
            lanes: Seq::new(self.lanes@.len(), |i: int| self.lanes@[i]@),
        }
    }
}

impl Supervisor {
    /// A supervisor without partitions. Without a configured limit, the
    /// limit follows the number of assigned partitions.
    pub fn new(policy: RetryPolicy, configured_limit: Option<usize>) -> (supervisor: Supervisor)
        requires
            policy.wf(),
        ensures
            supervisor@.wf(),
            supervisor@.policy == policy,
            supervisor@.configured_limit == configured_limit,
            supervisor@.lanes.len() == 0,
    {
        let supervisor = Supervisor { policy, configured_limit, lanes: Vec::new() };
        assert(supervisor@.lanes =~= Seq::empty());
        supervisor
    }

    /// The number of assigned partitions.
    pub fn partitions(&self) -> (n: usize)
        ensures
            n == self@.lanes.len(),
    {
        self.lanes.len()
    }

    /// The concurrency limit.
    pub fn limit(&self) -> (limit: usize)
        ensures
            limit == self@.limit(),
    {
        match self.configured_limit {
            Some(limit) => limit,
            None => if self.lanes.len() <= MAX_DEFAULT_CONCURRENCY {
                self.lanes.len()
            } else {
                MAX_DEFAULT_CONCURRENCY
            },
        }
    }

    /// The number of messages in hand.
    pub fn busy(&self) -> (busy: usize)
        ensures
            busy == self@.busy(),
    {
        let mut busy: usize = 0;
        let mut i: usize = 0;
        while i < self.lanes.len()
            invariant
                i <= self.lanes@.len(),
                busy == busy_among(self@.lanes.take(i as int)),
                busy <= i,
            decreases self.lanes@.len() - i,
        {
            proof {
                lemma_busy_take(self@.lanes, i as int);
            }
            if self.lanes[i].pipeline.is_busy() {
                busy = busy + 1;
            }
            i = i + 1;
        }
        assert(self@.lanes.take(i as int) =~= self@.lanes);
        busy
    }

    /// The index of the lane of a partition.
    fn find(&self, topic: &str, partition: i32) -> (found: Option<usize>)
        ensures
            found matches Some(i) ==> i < self@.lanes.len() && self@.lanes[i as int].is_for(
                topic@,
                partition,
            ),
            found is None ==> !self@.has_lane(topic@, partition),
    {
        let mut i: usize = 0;
        while i < self.lanes.len()
            invariant
                i <= self.lanes@.len(),
                forall|j: int| 0 <= j < i ==> !(#[trigger] self@.lanes[j]).is_for(topic@, partition),
            decreases self.lanes@.len() - i,
        {
            if self.lanes[i].partition == partition && same_text(
                self.lanes[i].topic.as_str(),
                topic,
            ) {
                return Some(i);
            }
            i = i + 1;
        }
        None
    }

    /// Whether the partition has a lane.
    pub fn has_lane(&self, topic: &str, partition: i32) -> (b: bool)
        ensures
            b == self@.has_lane(topic@, partition),
    {
        self.find(topic, partition).is_some()
    }

    /// Whether the next message of the partition may be fetched.
    pub fn may_fetch(&self, topic: &str, partition: i32) -> (b: bool)
        requires
            self@.wf(),
        ensures
            b == self@.may_fetch(topic@, partition),
    {
        if self.busy() >= self.limit() {
            return false;
        }
        match self.find(topic, partition) {
            Some(i) => {
                let free = !self.lanes[i].pipeline.is_busy();
                let running = match self.lanes[i].pipeline.mode() {
                    Mode::Running => true,
                    _ => false,
                };
                proof {
                    lemma_one_lane(self@, i as int, topic@, partition);
                }
                free && running
            },
            None => false,
        }
    }

    /// Whether every partition has come to rest, so that the broker client
    /// may be closed.
    pub fn is_drained(&self) -> (b: bool)
        ensures
            b == self@.is_drained(),
    {
        let mut i: usize = 0;
        while i < self.lanes.len()
            invariant
                i <= self.lanes@.len(),
                forall|j: int|
                    0 <= j < i ==> (#[trigger] self@.lanes[j]).pipeline.mode is Stopped
                        || self@.lanes[j].pipeline.mode is Halted,
            decreases self.lanes@.len() - i,
        {
            match self.lanes[i].pipeline.mode() {
                Mode::Stopped => {},
                Mode::Halted => {},
                _ => {
                    assert(!(self@.lanes[i as int].pipeline.mode is Stopped));
                    return false;
                },
            }
            i = i + 1;
        }
        true
    }

    /// Takes a partition under supervision, with a fresh pipeline. Answers
    /// `false`, and changes nothing, where the partition has a lane already.
    pub fn assign(&mut self, topic: &str, partition: i32) -> (added: bool)
        requires
            old(self)@.wf(),
        ensures
            final(self)@.wf(),
            added == !old(self)@.has_lane(topic@, partition),
            !added ==> final(self)@ == old(self)@,
            added ==> final(self)@ == (SupervisorView {
                lanes: old(self)@.lanes.push(
                    LaneView {
                        topic: topic@,
                        partition,
                        pipeline: PipelineView::fresh(old(self)@.policy),
                    },
                ),
                ..old(self)@
            }),
    {
        match self.find(topic, partition) {
            Some(_) => false,
            None => {
                let ghost before = self@;
                let lane = Lane {
                    topic: topic.to_owned(),
                    partition,
                    pipeline: PartitionPipeline::new(self.policy),
                };
                let ghost fresh = lane@;
                self.lanes.push(lane);
                proof {
                    assert(self@.lanes =~= before.lanes.push(fresh));
                    assert(self@.lanes.drop_last() =~= before.lanes);
                    lemma_busy_bound(before.lanes);
                    assert forall|i: int, j: int| 0 <= i < j < self@.lanes.len() implies !(
                    #[trigger] self@.lanes[i]).is_for(
                        (#[trigger] self@.lanes[j]).topic,
                        self@.lanes[j].partition,
                    ) by {
                        if j < before.lanes.len() {
                            assert(!before.lanes[i].is_for(
                                before.lanes[j].topic,
                                before.lanes[j].partition,
                            ));
                        } else {
                            assert(!before.lanes[i].is_for(topic@, partition));
                        }
                    }
                }
                true
            },
        }
    }

    /// Drops the lane of a partition that has stopped: its cursor is gone,
    /// and a later assignment starts afresh. Answers `false`, and changes
    /// nothing, where the partition has no lane or its lane has not stopped.
    pub fn forget(&mut self, topic: &str, partition: i32) -> (dropped: bool)
        requires
            old(self)@.wf(),
        ensures
            final(self)@.wf(),
            !old(self)@.has_lane(topic@, partition) ==> !dropped && final(self)@ == old(self)@,
            forall|i: int|
                0 <= i < old(self)@.lanes.len() && (#[trigger] old(self)@.lanes[i]).is_for(
                    topic@,
                    partition,
                ) ==> dropped == (old(self)@.lanes[i].pipeline.mode is Stopped) && final(self)@
                    == (if dropped {
                    SupervisorView { lanes: old(self)@.lanes.remove(i), ..old(self)@ }
                } else {
                    old(self)@
                }),
    {
        let ghost before = self@;
        match self.find(topic, partition) {
            Some(i) => {
                proof {
                    lemma_one_lane(before, i as int, topic@, partition);
                }
                match self.lanes[i].pipeline.mode() {
                    Mode::Stopped => {
                        let _ = self.lanes.remove(i);
                        proof {
                            assert(self@.lanes =~= before.lanes.remove(i as int));
                            lemma_busy_remove(before.lanes, i as int);
                            lemma_busy_bound(self@.lanes);
                            assert forall|a: int| 0 <= a < self@.lanes.len() implies (
                            #[trigger] self@.lanes[a]).pipeline.wf() && self@.lanes[a].pipeline.policy
                                == self@.policy by {
                                if a < i {
                                    assert(self@.lanes[a] == before.lanes[a]);
                                } else {
                                    assert(self@.lanes[a] == before.lanes[a + 1]);
                                }
                            }
                            assert forall|a: int, b: int|
                                0 <= a < b < self@.lanes.len() implies !(#[trigger] self@.lanes[a]).is_for(
                                (#[trigger] self@.lanes[b]).topic,
                                self@.lanes[b].partition,
                            ) by {
                                let a0 = if a < i {
                                    a
                                } else {
                                    a + 1
                                };
                                let b0 = if b < i {
                                    b
                                } else {
                                    b + 1
                                };
                                assert(self@.lanes[a] == before.lanes[a0]);
                                assert(self@.lanes[b] == before.lanes[b0]);
                                assert(!before.lanes[a0].is_for(
                                    before.lanes[b0].topic,
                                    before.lanes[b0].partition,
                                ));
                            }
                        }
                        true
                    },
                    _ => false,
                }
            },
            None => false,
        }
    }

    /// Hands an event to the pipeline of a partition and answers with what
    /// to do next; `None`, with nothing changed, where the partition has no
    /// lane. A fetched message that would take the number of messages in
    /// hand over the limit halts its lane.
    pub fn handle(&mut self, topic: &str, partition: i32, event: Event) -> (reaction: Option<
        Reaction,
    >)
        requires
            old(self)@.wf(),
        ensures
            final(self)@.wf(),
            !old(self)@.has_lane(topic@, partition) ==> reaction is None && final(self)@ == old(
                self,
            )@,
            forall|i: int|
                0 <= i < old(self)@.lanes.len() && (#[trigger] old(self)@.lanes[i]).is_for(
                    topic@,
                    partition,
                ) ==> reaction == Some(old(self)@.route(i, event).reaction) && final(self)@ == old(
                    self,
                )@.after(i, event),
    {
        let ghost before = self@;
        match self.find(topic, partition) {
            None => None,
            Some(i) => {
                proof {
                    lemma_one_lane(before, i as int, topic@, partition);
                    lemma_after_wf(before, i as int, event);
                    assert(before.lanes[i as int].pipeline.wf());
                }
                let full = self.busy() >= self.limit();
                let lane = &mut self.lanes[i];
                let routed = match event {
                    Event::Fetched { offset } => {
                        let running = match lane.pipeline.mode() {
                            Mode::Running => true,
                            _ => false,
                        };
                        if running && full {
                            Event::Overflowed { offset }
                        } else {
                            event
                        }
                    },
                    _ => event,
                };
                let reaction = lane.pipeline.handle(routed);
                assert(self@.lanes =~= before.after(i as int, event).lanes);
                Some(reaction)
            },
        }
    }

    /// Hands an event to every pipeline, and answers with the answer of
    /// each, in the order of the lanes.
    fn tell_all(&mut self, event: Event) -> (answers: Vec<Told>)
        requires
            old(self)@.wf(),
            !(event is Fetched),
        ensures
            final(self)@.wf(),
            final(self)@ == old(self)@.after_all(event),
            old(self)@.answers_of(answers@, event),
    {
        let ghost before = self@;
        let mut answers: Vec<Told> = Vec::new();
        let mut i: usize = 0;
        while i < self.lanes.len()
            invariant
                before.wf(),
                !(event is Fetched),
                i <= self.lanes@.len(),
                self@.lanes.len() == before.lanes.len(),
                self@.policy == before.policy,
                self@.configured_limit == before.configured_limit,
                answers@.len() == i,
                busy_among(self@.lanes) <= busy_among(before.lanes),
                forall|j: int|
                    0 <= j < i ==> (#[trigger] self@.lanes[j]) == before.after_all(event).lanes[j],
                forall|j: int| 0 <= j < i ==> before.answer_of(#[trigger] answers@[j], j, event),
                forall|j: int| i <= j < self@.lanes.len() ==> (#[trigger] self@.lanes[j]) == before.lanes[j],
            decreases self.lanes@.len() - i,
        {
            let ghost current = self@;
            proof {
                assert(current.lanes[i as int] == before.lanes[i as int]);
                assert(before.lanes[i as int].pipeline.wf());
                lemma_only_fetch_occupies(before.lanes[i as int].pipeline, event);
                lemma_busy_update(
                    current.lanes,
                    i as int,
                    before.after_all(event).lanes[i as int],
                );
            }
            let lane = &mut self.lanes[i];
            let reaction = lane.pipeline.handle(event);
            let told = Told { topic: lane.topic.clone(), partition: lane.partition, reaction };
            answers.push(told);
            proof {
                assert(self@.lanes =~= current.lanes.update(
                    i as int,
                    before.after_all(event).lanes[i as int],
                ));
            }
            i = i + 1;
        }
        proof {
            assert(self@.lanes =~= before.after_all(event).lanes);
            assert forall|a: int| 0 <= a < self@.lanes.len() implies (#[trigger] self@.lanes[a]).pipeline.wf()
                && self@.lanes[a].pipeline.policy == self@.policy by {
                assert(before.lanes[a].pipeline.wf());
                lemma_step_wf(before.lanes[a].pipeline, event);
            }
            assert forall|a: int, b: int| 0 <= a < b < self@.lanes.len() implies !(
            #[trigger] self@.lanes[a]).is_for((#[trigger] self@.lanes[b]).topic, self@.lanes[b].partition) by {
                assert(!before.lanes[a].is_for(before.lanes[b].topic, before.lanes[b].partition));
            }
        }
        answers
    }

    /// The process was asked to stop: every partition starts to drain.
    /// Answers with the answer of each pipeline, in the order of the lanes.
    pub fn shutdown(&mut self) -> (answers: Vec<Told>)
        requires
            old(self)@.wf(),
        ensures
            final(self)@.wf(),
            final(self)@ == old(self)@.after_all(Event::Shutdown),
            old(self)@.answers_of(answers@, Event::Shutdown),
    {
        self.tell_all(Event::Shutdown)
    }

    /// The time granted for draining is over: every partition that still
    /// drains abandons what it has in hand. Answers with the answer of each
    /// pipeline, in the order of the lanes.
    pub fn deadline(&mut self) -> (answers: Vec<Told>)
        requires
            old(self)@.wf(),
        ensures
            final(self)@.wf(),
            final(self)@ == old(self)@.after_all(Event::Deadline),
            old(self)@.answers_of(answers@, Event::Deadline),
    {
        self.tell_all(Event::Deadline)
    }

    /// The committed offset of a partition, `None` where the partition has
    /// no lane or nothing was committed yet.
    pub fn committed(&self, topic: &str, partition: i32) -> (offset: Option<i64>)
        requires
            self@.wf(),
        ensures
            !self@.has_lane(topic@, partition) ==> offset is None,
            forall|i: int|
                0 <= i < self@.lanes.len() && (#[trigger] self@.lanes[i]).is_for(topic@, partition)
                    ==> offset == self@.lanes[i].pipeline.cursor.committed,
    {
        match self.find(topic, partition) {
            Some(i) => {
                proof {
                    lemma_one_lane(self@, i as int, topic@, partition);
                }
                self.lanes[i].pipeline.committed()
            },
            None => None,
        }
    }
}

} // verus!
