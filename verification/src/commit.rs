//! The commits that wait to be issued.
//!
//! Commits are issued one after the other. While one is on its way, the
//! offsets that become due are kept here, one for each partition: a later
//! offset of a partition takes the place of an earlier one that was not
//! issued yet.

use crate::text::same_text;
use vstd::prelude::*;
use vstd::string::*;

verus! {

/// A commit that waits to be issued.
#[derive(Clone, Debug, PartialEq, Eq)]
pub struct PendingCommit {
    pub topic: String,
    pub partition: i32,
    pub offset: i64,
}

/// The commits that wait to be issued, at most one for each partition.
#[derive(Clone, Debug)]
pub struct CommitQueue {
    waiting: Vec<PendingCommit>,
}

/// Whether a commit is for the given partition.
pub open spec fn is_commit_for(commit: PendingCommit, key: (Seq<char>, i32)) -> bool {
    commit.topic@ == key.0 && commit.partition == key.1
}

/// Whether no two of the commits are for the same partition.
pub open spec fn one_for_each(commits: Seq<PendingCommit>) -> bool {
    forall|i: int, j: int|
        0 <= i < j < commits.len() ==> !is_commit_for(
            #[trigger] commits[i],
            ((#[trigger] commits[j]).topic@, commits[j].partition),
        )
}

/// The position of the commit for a partition among the commits.
pub open spec fn position_of(commits: Seq<PendingCommit>, key: (Seq<char>, i32)) -> int {
    choose|i: int| 0 <= i < commits.len() && is_commit_for(#[trigger] commits[i], key)
}

/// The offset due for each partition that has a commit among the given
/// ones.
pub open spec fn due(commits: Seq<PendingCommit>) -> Map<(Seq<char>, i32), i64> {
    Map::new(
        |key: (Seq<char>, i32)|
            exists|i: int| 0 <= i < commits.len() && is_commit_for(#[trigger] commits[i], key),
        |key: (Seq<char>, i32)| commits[position_of(commits, key)].offset,
    )
}

/// The offset that waits for a partition once an offset was offered: the
/// offered one, unless a higher one waits already.
pub open spec fn superseding(
    waiting: Map<(Seq<char>, i32), i64>,
    key: (Seq<char>, i32),
    offset: i64,
) -> i64 {
    if waiting.dom().contains(key) && waiting[key] >= offset {
        waiting[key]
    } else {
        offset
    }
}

/// Where no two commits are for the same partition, each stands in the map
/// of what is due, and nothing else does.
pub proof fn lemma_due(commits: Seq<PendingCommit>)
    requires
        one_for_each(commits),
    ensures
        forall|i: int|
            0 <= i < commits.len() ==> due(commits).contains_pair(
                ((#[trigger] commits[i]).topic@, commits[i].partition),
                commits[i].offset,
            ),
        forall|key: (Seq<char>, i32)|
            due(commits).dom().contains(key) ==> 0 <= position_of(commits, key) < commits.len()
                && is_commit_for(commits[position_of(commits, key)], key),
{
    assert forall|i: int| 0 <= i < commits.len() implies due(commits).contains_pair(
        ((#[trigger] commits[i]).topic@, commits[i].partition),
        commits[i].offset,
    ) by {
        let key = (commits[i].topic@, commits[i].partition);
        assert(is_commit_for(commits[i], key));
        let p = position_of(commits, key);
        if p < i {
            assert(!is_commit_for(commits[p], (commits[i].topic@, commits[i].partition)));
        } else if i < p {
            assert(!is_commit_for(commits[i], (commits[p].topic@, commits[p].partition)));
        }
    }
}

impl View for CommitQueue {
    type V = Map<(Seq<char>, i32), i64>;

    closed spec fn view(&self) -> Map<(Seq<char>, i32), i64> {
        due(self.waiting@)
    }
}

impl CommitQueue {
    /// The invariant of the queue: at most one commit for each partition.
    pub closed spec fn wf(self) -> bool {
        one_for_each(self.waiting@)
    }

    /// A queue in which nothing waits.
    pub fn new() -> (queue: CommitQueue)
        ensures
            queue.wf(),
            queue@ == Map::<(Seq<char>, i32), i64>::empty(),
    {
        let queue = CommitQueue { waiting: Vec::new() };
        assert(queue@ =~= Map::<(Seq<char>, i32), i64>::empty());
        queue
    }

    /// The number of partitions with a commit that waits.
    pub fn len(&self) -> (n: usize)
        requires
            self.wf(),
        ensures
            n == self@.dom().len(),
            self@.dom().finite(),
    {
        proof {
            lemma_due_size(self.waiting@);
        }
        self.waiting.len()
    }

    /// Puts the commit of an offset in the queue. It takes the place of a
    /// lower offset that waits for the same partition, and is dropped where
    /// that offset or a higher one waits already.
    #[verifier::rlimit(40)]
    pub fn offer(&mut self, topic: &str, partition: i32, offset: i64)
        requires
            old(self).wf(),
        ensures
            final(self).wf(),
            final(self)@ == old(self)@.insert(
                (topic@, partition),
                superseding(old(self)@, (topic@, partition), offset),
            ),
    {
        let ghost before = self.waiting@;
        let ghost key = (topic@, partition);
        proof {
            lemma_due(before);
        }
        let mut i: usize = 0;
        while i < self.waiting.len()
            invariant
                i <= self.waiting@.len(),
                self.waiting@ == before,
                old(self).waiting@ == before,
                one_for_each(before),
                key == (topic@, partition),
                forall|j: int| 0 <= j < i ==> !is_commit_for(#[trigger] before[j], key),
            decreases self.waiting@.len() - i,
        {
            if self.waiting[i].partition == partition && same_text(
                self.waiting[i].topic.as_str(),
                topic,
            ) {
                assert(is_commit_for(before[i as int], key));
                proof {
                    lemma_due(before);
                }
                if self.waiting[i].offset < offset {
                    let entry = &mut self.waiting[i];
                    entry.offset = offset;
                }
                proof {
                    let after = self.waiting@;
                    assert(after.len() == before.len());
                    assert forall|a: int| 0 <= a < after.len() implies (#[trigger] after[a]).topic@
                        == before[a].topic@ && after[a].partition == before[a].partition && (a
                        != i ==> after[a].offset == before[a].offset) by {}
                    assert(one_for_each(after)) by {
                        assert forall|a: int, b: int| 0 <= a < b < after.len() implies !is_commit_for(
                            #[trigger] after[a],
                            ((#[trigger] after[b]).topic@, after[b].partition),
                        ) by {
                            assert(!is_commit_for(before[a], (before[b].topic@, before[b].partition)));
                        }
                    }
                    lemma_due(after);
                    let wanted = due(before).insert(key, superseding(due(before), key, offset));
                    assert(due(before).contains_pair(key, before[i as int].offset));
                    assert(due(after).contains_pair(key, after[i as int].offset));
                    assert forall|k: (Seq<char>, i32)| due(after).dom().contains(k)
                        <==> wanted.dom().contains(k) by {
                        if due(after).dom().contains(k) {
                            let a = position_of(after, k);
                            assert(is_commit_for(before[a], k));
                        }
                        if due(before).dom().contains(k) {
                            let a = position_of(before, k);
                            assert(is_commit_for(after[a], k));
                        }
                    }
                    assert forall|k: (Seq<char>, i32)| due(after).dom().contains(k) implies due(
                        after,
                    )[k] == wanted[k] by {
                        let a = position_of(after, k);
                        assert(due(after).contains_pair(
                            (after[a].topic@, after[a].partition),
                            after[a].offset,
                        ));
                        if k != key {
                            assert(a != i);
                            assert(due(before).contains_pair(
                                (before[a].topic@, before[a].partition),
                                before[a].offset,
                            ));
                        }
                    }
                    assert(due(after) =~= wanted);
                }
                return ;
            }
            i = i + 1;
        }
        self.waiting.push(PendingCommit { topic: topic.to_owned(), partition, offset });
        proof {
            let after = self.waiting@;
            let n = before.len() as int;
            assert(after[n].topic@ == topic@ && after[n].partition == partition && after[n].offset
                == offset);
            assert forall|a: int| 0 <= a < n implies (#[trigger] after[a]) == before[a] by {}
            assert(one_for_each(after)) by {
                assert forall|a: int, b: int| 0 <= a < b < after.len() implies !is_commit_for(
                    #[trigger] after[a],
                    ((#[trigger] after[b]).topic@, after[b].partition),
                ) by {
                    if b < n {
                        assert(!is_commit_for(before[a], (before[b].topic@, before[b].partition)));
                    } else {
                        assert(!is_commit_for(before[a], key));
                    }
                }
            }
            lemma_due(after);
            assert(!due(before).dom().contains(key));
            let wanted = due(before).insert(key, offset);
            assert(due(after).contains_pair((after[n].topic@, after[n].partition), offset));
            assert forall|k: (Seq<char>, i32)| due(after).dom().contains(k)
                <==> wanted.dom().contains(k) by {
                if due(after).dom().contains(k) {
                    let a = position_of(after, k);
                    if a < n {
                        assert(is_commit_for(before[a], k));
                    }
                }
                if due(before).dom().contains(k) {
                    let a = position_of(before, k);
                    assert(is_commit_for(after[a], k));
                }
                if k == key {
                    assert(is_commit_for(after[n], k));
                }
            }
            assert forall|k: (Seq<char>, i32)| due(after).dom().contains(k) implies due(after)[k]
                == wanted[k] by {
                let a = position_of(after, k);
                assert(due(after).contains_pair(
                    (after[a].topic@, after[a].partition),
                    after[a].offset,
                ));
                if a < n {
                    assert(due(before).contains_pair(
                        (before[a].topic@, before[a].partition),
                        before[a].offset,
                    ));
                }
            }
            assert(due(after) =~= wanted);
        }
    }

    /// Takes every commit that waits out of the queue, to be issued.
    pub fn take(&mut self) -> (commits: Vec<PendingCommit>)
        requires
            old(self).wf(),
        ensures
            final(self).wf(),
            final(self)@ == Map::<(Seq<char>, i32), i64>::empty(),
            one_for_each(commits@),
            due(commits@) == old(self)@,
    {
        let mut commits: Vec<PendingCommit> = Vec::new();
        core::mem::swap(&mut commits, &mut self.waiting);
        assert(self@ =~= Map::<(Seq<char>, i32), i64>::empty());
        commits
    }
}

/// Where no two commits are for the same partition, as many partitions
/// have a commit due as there are commits.
proof fn lemma_due_size(commits: Seq<PendingCommit>)
    requires
        one_for_each(commits),
    ensures
        due(commits).dom().finite(),
        due(commits).dom().len() == commits.len(),
    decreases commits.len(),
{
    if commits.len() == 0 {
        assert(due(commits).dom() =~= Set::empty());
    } else {
        let rest = commits.drop_last();
        let last = commits.last();
        let key = (last.topic@, last.partition);
        assert(one_for_each(rest)) by {
            assert forall|i: int, j: int| 0 <= i < j < rest.len() implies !is_commit_for(
                #[trigger] rest[i],
                ((#[trigger] rest[j]).topic@, rest[j].partition),
            ) by {
                assert(!is_commit_for(commits[i], (commits[j].topic@, commits[j].partition)));
            }
        }
        lemma_due_size(rest);
        assert(!due(rest).dom().contains(key)) by {
            if due(rest).dom().contains(key) {
                let i = choose|i: int| 0 <= i < rest.len() && is_commit_for(#[trigger] rest[i], key);
                assert(!is_commit_for(commits[i], (commits[commits.len() - 1].topic@, commits[commits.len() - 1].partition)));
            }
        }
        assert(due(commits).dom() =~= due(rest).dom().insert(key)) by {
            assert forall|k: (Seq<char>, i32)| due(commits).dom().contains(k) <==> due(
                rest,
            ).dom().insert(key).contains(k) by {
                if due(commits).dom().contains(k) {
                    let i = choose|i: int|
                        0 <= i < commits.len() && is_commit_for(#[trigger] commits[i], k);
                    if i < rest.len() {
                        assert(is_commit_for(rest[i], k));
                    }
                }
                if due(rest).dom().contains(k) {
                    let i = choose|i: int| 0 <= i < rest.len() && is_commit_for(#[trigger] rest[i], k);
                    assert(is_commit_for(commits[i], k));
                }
                if k == key {
                    assert(is_commit_for(commits[commits.len() - 1], k));
                }
            }
        }
    }
}

} // verus!
