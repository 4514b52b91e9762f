use webhook_bridge::tracker::{OffsetCursor, TrackError};

#[test]
fn a_fresh_cursor_has_committed_nothing() {
    let mut cursor = OffsetCursor::new();
    assert_eq!(cursor.committed(), None);
    assert_eq!(cursor.highest_delivered(), None);
    assert_eq!(cursor.last_begun(), None);
    assert_eq!(cursor.in_flight(), Vec::<i64>::new());
    assert_eq!(cursor.take_commit(), None);
}

#[test]
fn settling_in_order_commits_each_offset() {
    let mut cursor = OffsetCursor::new();
    for offset in [10i64, 11, 12] {
        assert_eq!(cursor.begin(offset), Ok(()));
        assert!(cursor.is_in_flight(offset));
        assert_eq!(cursor.settle(offset), Ok(()));
        assert!(!cursor.is_in_flight(offset));
        assert_eq!(cursor.committed(), Some(offset));
        assert_eq!(cursor.highest_delivered(), Some(offset));
        assert_eq!(cursor.take_commit(), Some(offset));
        assert_eq!(cursor.take_commit(), None);
    }
}

#[test]
fn the_committed_offset_waits_for_the_lowest_offset_in_flight() {
    let mut cursor = OffsetCursor::new();
    for offset in [5i64, 6, 7, 9] {
        assert_eq!(cursor.begin(offset), Ok(()));
    }
    assert_eq!(cursor.in_flight(), vec![5, 6, 7, 9]);
    assert_eq!(cursor.settle(7), Ok(()));
    assert_eq!(cursor.committed(), None);
    assert_eq!(cursor.highest_delivered(), Some(7));
    assert_eq!(cursor.settle(6), Ok(()));
    assert_eq!(cursor.committed(), None);
    assert_eq!(cursor.take_commit(), None);
    assert_eq!(cursor.in_flight(), vec![5, 9]);
    assert_eq!(cursor.settle(5), Ok(()));
    assert_eq!(cursor.committed(), Some(7));
    assert_eq!(cursor.highest_delivered(), Some(7));
    assert_eq!(cursor.in_flight(), vec![9]);
    assert_eq!(cursor.settle(9), Ok(()));
    assert_eq!(cursor.committed(), Some(9));
    assert_eq!(cursor.in_flight(), Vec::<i64>::new());
}

#[test]
fn the_committed_offset_is_an_offset_that_was_settled() {
    // 11 does not exist in the partition: the committed offset stops at 10.
    let mut cursor = OffsetCursor::new();
    assert_eq!(cursor.begin(10), Ok(()));
    assert_eq!(cursor.begin(12), Ok(()));
    assert_eq!(cursor.settle(10), Ok(()));
    assert_eq!(cursor.committed(), Some(10));
    assert_eq!(cursor.highest_delivered(), Some(10));
}

#[test]
fn later_commits_stand_for_earlier_ones() {
    let mut cursor = OffsetCursor::new();
    for offset in [1i64, 2, 3] {
        assert_eq!(cursor.begin(offset), Ok(()));
        assert_eq!(cursor.settle(offset), Ok(()));
    }
    assert_eq!(cursor.take_commit(), Some(3));
    assert_eq!(cursor.take_commit(), None);
    assert_eq!(cursor.committed(), Some(3));
}

#[test]
fn an_offset_that_is_not_above_the_last_is_refused() {
    let mut cursor = OffsetCursor::new();
    assert_eq!(cursor.begin(-3), Ok(()));
    assert_eq!(cursor.begin(-3), Err(TrackError::Regression { offset: -3, last: -3 }));
    assert_eq!(cursor.begin(-4), Err(TrackError::Regression { offset: -4, last: -3 }));
    assert_eq!(cursor.begin(i64::MIN), Err(TrackError::Regression { offset: i64::MIN, last: -3 }));
    assert_eq!(cursor.in_flight(), vec![-3]);
    assert_eq!(cursor.settle(-3), Ok(()));
    assert_eq!(cursor.begin(-3), Err(TrackError::Regression { offset: -3, last: -3 }));
    assert_eq!(cursor.begin(i64::MAX), Ok(()));
    assert_eq!(cursor.last_begun(), Some(i64::MAX));
}

#[test]
fn an_offset_that_is_not_in_flight_cannot_be_settled() {
    let mut cursor = OffsetCursor::new();
    assert_eq!(cursor.settle(1), Err(TrackError::NotInFlight { offset: 1 }));
    assert_eq!(cursor.begin(1), Ok(()));
    assert_eq!(cursor.begin(2), Ok(()));
    assert_eq!(cursor.settle(3), Err(TrackError::NotInFlight { offset: 3 }));
    assert_eq!(cursor.settle(2), Ok(()));
    assert_eq!(cursor.settle(2), Err(TrackError::NotInFlight { offset: 2 }));
    assert_eq!(cursor.settle(1), Ok(()));
    assert_eq!(cursor.settle(1), Err(TrackError::NotInFlight { offset: 1 }));
    assert_eq!(cursor.committed(), Some(2));
}

#[test]
fn the_committed_offset_never_passes_the_highest_delivered_offset() {
    let mut cursor = OffsetCursor::new();
    let order = [4i64, 2, 5, 1, 3, 8, 6, 7];
    for offset in 1..=8i64 {
        assert_eq!(cursor.begin(offset), Ok(()));
    }
    let mut settled: Vec<i64> = Vec::new();
    for offset in order {
        assert_eq!(cursor.settle(offset), Ok(()));
        settled.push(offset);
        let committed = cursor.committed();
        let highest = cursor.highest_delivered();
        assert_eq!(highest, settled.iter().copied().max());
        assert!(committed <= highest);
        let contiguous = (1..=8i64).take_while(|o| settled.contains(o)).last();
        assert_eq!(committed, contiguous);
    }
    assert_eq!(cursor.committed(), Some(8));
}
