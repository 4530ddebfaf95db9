use airdatable::airtable::batching::{batch_ranges, BatchedWrite, MAX_RECORDS_PER_REQUEST};

#[test]
fn no_records_need_no_batch() {
    assert!(batch_ranges(0).is_empty());
}

#[test]
fn batches_hold_at_most_ten_records() {
    assert_eq!(MAX_RECORDS_PER_REQUEST, 10);
    assert_eq!(batch_ranges(1), vec![(0, 1)]);
    assert_eq!(batch_ranges(10), vec![(0, 10)]);
    assert_eq!(batch_ranges(11), vec![(0, 10), (10, 11)]);
    assert_eq!(batch_ranges(25), vec![(0, 10), (10, 20), (20, 25)]);
    assert_eq!(batch_ranges(30), vec![(0, 10), (10, 20), (20, 30)]);
}

#[test]
fn batched_write_walks_the_batches_and_gathers_answers() {
    let mut write: BatchedWrite<u32> = BatchedWrite::new(23);
    assert!(!write.is_done());
    assert_eq!(write.next_batch(), Some((0, 10)));
    write.record_answer(vec![1, 2]);
    assert_eq!(write.next_batch(), Some((10, 20)));
    write.record_answer(vec![]);
    assert_eq!(write.next_batch(), Some((20, 23)));
    write.record_answer(vec![3]);
    assert!(write.is_done());
    assert_eq!(write.next_batch(), None);
    assert_eq!(write.into_returned(), vec![1, 2, 3]);
}

#[test]
fn batched_write_of_nothing_is_done_at_once() {
    let write: BatchedWrite<u32> = BatchedWrite::new(0);
    assert!(write.is_done());
    assert_eq!(write.next_batch(), None);
    assert!(write.into_returned().is_empty());
}
