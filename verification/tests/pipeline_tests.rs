use quadio::pipeline::{upmix, BlockQueue, SampleCursor};

#[test]
fn bounded_queue_refuses_a_third_block_until_one_is_consumed() {
    let mut q = BlockQueue::new(2);
    assert!(q.push(vec![1, 2]).is_ok());
    assert!(q.push(vec![3, 4]).is_ok());
    assert!(q.is_full());

    // The producer is two blocks ahead: the next offer is refused and the
    // block handed back intact — this is the backpressure stall.
    let refused = q.push(vec![5, 6]);
    assert_eq!(refused, Err(vec![5, 6]));
    assert_eq!(q.len(), 2);

    // Once the consumer takes one block, the offer succeeds.
    assert_eq!(q.pop(), Some(vec![1, 2]));
    assert!(q.push(vec![5, 6]).is_ok());
    assert_eq!(q.len(), 2);
}

#[test]
fn queue_delivers_blocks_in_the_order_they_were_pushed() {
    let mut q = BlockQueue::new(3);
    q.push(vec![10]).unwrap();
    q.push(vec![20]).unwrap();
    q.push(vec![30]).unwrap();
    assert_eq!(q.pop(), Some(vec![10]));
    assert_eq!(q.pop(), Some(vec![20]));
    assert_eq!(q.pop(), Some(vec![30]));
    assert_eq!(q.pop(), None);
}

#[test]
fn cursor_drains_a_block_sample_by_sample_then_asks_for_more() {
    let mut c = SampleCursor::new();
    assert_eq!(c.next_sample(), None);

    c.refill(vec![7, 8, 9]);
    assert_eq!(c.next_sample(), Some(7));
    assert_eq!(c.next_sample(), Some(8));
    assert_eq!(c.next_sample(), Some(9));
    assert_eq!(c.next_sample(), None);

    c.refill(vec![1]);
    assert_eq!(c.next_sample(), Some(1));
    assert_eq!(c.next_sample(), None);
}

#[test]
fn upmix_replicates_each_sample_across_all_channels() {
    let block = vec![1, 2, 3];
    assert_eq!(upmix(&block, 2), vec![1, 1, 2, 2, 3, 3]);
    assert_eq!(upmix(&block, 1), vec![1, 2, 3]);
    assert_eq!(upmix(&block, 3), vec![1, 1, 1, 2, 2, 2, 3, 3, 3]);
    let empty: Vec<u32> = Vec::new();
    assert_eq!(upmix(&empty, 4), Vec::<u32>::new());
}
