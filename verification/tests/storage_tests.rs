use rsm_raft::raft_storage::{LogEntry, Storage, VecStorage};

#[test]
fn test_append_entries_success() {
    let mut log = VecStorage::new();
    log.push(1, 1);
    log.push(1, 2);
    log.push(1, 3);

    let result = log.try_append(
        1,
        3,
        vec![LogEntry {
            index: 4,
            term: 1,
            data: 4,
        }],
    );
    assert_eq!(Ok(4), result);
    assert_eq!(4, log.last_index());
    assert_eq!(1, log.last_term());
    let result = log.try_append(
        1,
        3,
        vec![LogEntry {
            index: 4,
            term: 1,
            data: 4,
        }],
    );
    assert_eq!(Ok(4), result);
    assert_eq!(4, log.last_index());
    assert_eq!(1, log.last_term());
    let result = log.try_append(
        1,
        3,
        vec![
            LogEntry {
                index: 4,
                term: 1,
                data: 4,
            },
            LogEntry {
                index: 5,
                term: 2,
                data: 5,
            },
        ],
    );
    assert_eq!(Ok(5), result);
    assert_eq!(5, log.last_index());
    assert_eq!(2, log.last_term());
}

#[test]
fn test_append_entries_failure() {
    let mut log = VecStorage::new();
    log.push(1, 1);
    log.push(1, 2);
    log.push(1, 3);

    let result = log.try_append(
        1,
        4,
        vec![LogEntry {
            index: 5,
            term: 2,
            data: 5,
        }],
    );
    assert_eq!(Err(3), result);
    // Conflict index 3
    // Current
    // [1, 1, 1]
    // Incoming
    // [1, 1, 2, 2]
    let result = log.try_append(
        2,
        3,
        vec![LogEntry {
            index: 4,
            term: 2,
            data: 4,
        }],
    );
    assert_eq!(Err(2), result);
}

#[test]
fn empty_log_has_no_entries() {
    let log: VecStorage<u64> = VecStorage::new();
    assert_eq!(0, log.last_index());
    assert_eq!(0, log.last_term());
    assert!(log.at(0).is_none());
    assert!(log.at(1).is_none());
    assert!(log.slice_to_end(1).is_empty());
    assert!(log.slice(1, 2).is_empty());
    assert_eq!(0, log.current_term());
    assert_eq!(None, log.voted_for());
}

#[test]
fn push_then_read_gives_back_the_entry() {
    let mut log = VecStorage::new();
    log.push(3, 30u64);
    log.push(4, 40);
    assert_eq!(2, log.last_index());
    assert_eq!(4, log.last_term());
    let e = log.at(2).unwrap();
    assert_eq!((2, 4, 40), (e.index, e.term, e.data));
    let e = log.at(1).unwrap();
    assert_eq!((1, 3, 30), (e.index, e.term, e.data));
    assert!(log.at(3).is_none());
}

#[test]
fn slices_follow_log_indexes() {
    let mut log = VecStorage::new();
    for i in 1..=4u64 {
        log.push(1, i * 10);
    }
    let data: Vec<u64> = log.slice(2, 4).iter().map(|e| e.data).collect();
    assert_eq!(vec![20, 30], data);
    let data: Vec<u64> = log.slice_to_end(3).iter().map(|e| e.data).collect();
    assert_eq!(vec![30, 40], data);
    // one past the last entry gives nothing
    assert!(log.slice_to_end(5).is_empty());
    // an index before the first entry gives nothing
    assert!(log.slice(0, 2).is_empty());
    assert!(log.slice_to_end(0).is_empty());
}

#[test]
fn try_append_from_start_appends() {
    let mut log = VecStorage::new();
    let result = log.try_append(0, 0, vec![LogEntry { index: 1, term: 1, data: 7u64 }]);
    assert_eq!(Ok(1), result);
    assert_eq!(7, log.at(1).unwrap().data);
}

#[test]
fn try_append_missing_previous_entry_fails_unchanged() {
    let mut log = VecStorage::new();
    log.push(1, 1u64);
    let result = log.try_append(1, 5, vec![]);
    assert_eq!(Err(1), result);
    assert_eq!(1, log.last_index());
}

#[test]
fn hard_state_is_kept() {
    let mut log: VecStorage<u64> = VecStorage::new();
    log.set_current_term(7);
    log.set_voted_for(Some(3));
    assert_eq!(7, log.current_term());
    assert_eq!(Some(3), log.voted_for());
    log.push(1, 1);
    assert_eq!(7, log.current_term());
}

#[test]
fn cloned_entry_keeps_index_and_term() {
    let e = LogEntry { index: 3, term: 2, data: String::from("x") };
    let c = e.clone();
    assert_eq!((3, 2, "x".to_string()), (c.index, c.term, c.data));
}

#[test]
fn indexes_past_signed_range_lie_before_the_log() {
    let mut log = VecStorage::new();
    for i in 1..=3u64 {
        log.push(1, i);
    }
    // read as signed, u64::MAX is -1: before the first entry
    assert!(log.at(u64::MAX).is_none());
    assert!(log.slice_to_end(u64::MAX).is_empty());
    assert!(log.slice(u64::MAX, 2).is_empty());
}

#[test]
fn retransmitted_append_changes_nothing() {
    let mut log = VecStorage::new();
    log.push(1, 1u64);
    log.push(1, 2);
    let entries = || vec![LogEntry { index: 3, term: 2, data: 3u64 }, LogEntry { index: 4, term: 2, data: 4 }];
    assert_eq!(Ok(4), log.try_append(1, 2, entries()));
    assert_eq!(Ok(4), log.try_append(1, 2, entries()));
    assert_eq!(4, log.last_index());
    let data: Vec<u64> = log.slice_to_end(1).iter().map(|e| e.data).collect();
    assert_eq!(vec![1, 2, 3, 4], data);
}
