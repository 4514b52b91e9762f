use webhook_bridge::commit::{CommitQueue, PendingCommit};

fn pending(topic: &str, partition: i32, offset: i64) -> PendingCommit {
    PendingCommit { topic: topic.to_string(), partition, offset }
}

#[test]
fn nothing_waits_in_a_new_queue() {
    let mut queue = CommitQueue::new();
    assert_eq!(queue.len(), 0);
    assert_eq!(queue.take(), Vec::<PendingCommit>::new());
}

#[test]
fn a_later_commit_takes_the_place_of_an_earlier_one() {
    let mut queue = CommitQueue::new();
    queue.offer("t1", 0, 10);
    queue.offer("t1", 0, 11);
    queue.offer("t1", 0, 12);
    assert_eq!(queue.len(), 1);
    assert_eq!(queue.take(), vec![pending("t1", 0, 12)]);
    assert_eq!(queue.len(), 0);
    assert_eq!(queue.take(), Vec::<PendingCommit>::new());
}

#[test]
fn offering_an_offset_twice_is_offering_it_once() {
    let mut queue = CommitQueue::new();
    queue.offer("t1", 0, 10);
    queue.offer("t1", 0, 10);
    assert_eq!(queue.take(), vec![pending("t1", 0, 10)]);
}

#[test]
fn a_commit_never_goes_back() {
    let mut queue = CommitQueue::new();
    queue.offer("t1", 0, 10);
    queue.offer("t1", 0, 7);
    assert_eq!(queue.take(), vec![pending("t1", 0, 10)]);
    queue.offer("t1", 0, 7);
    assert_eq!(queue.take(), vec![pending("t1", 0, 7)]);
}

#[test]
fn each_partition_has_its_own_commit() {
    let mut queue = CommitQueue::new();
    queue.offer("t1", 0, 10);
    queue.offer("t1", 1, 3);
    queue.offer("t2", 0, -1);
    queue.offer("t1", 1, 4);
    queue.offer("t", 10, 5);
    queue.offer("t1", 0, 11);
    assert_eq!(queue.len(), 4);
    assert_eq!(
        queue.take(),
        vec![pending("t1", 0, 11), pending("t1", 1, 4), pending("t2", 0, -1), pending("t", 10, 5)]
    );
}
