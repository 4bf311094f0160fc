use lumindd::{LevelQueue, NodeId};

#[test]
fn level_queue_basic() {
    let mut q = LevelQueue::new(4);
    assert!(q.is_empty());
    assert_eq!(q.total_size(), 0);

    q.enqueue(0, NodeId::one());
    q.enqueue(0, NodeId::zero());
    q.enqueue(2, NodeId::one());

    assert!(!q.is_empty());
    assert_eq!(q.total_size(), 3);

    let level0 = q.dequeue_level(0);
    assert_eq!(level0.len(), 2);
    assert_eq!(q.total_size(), 1);

    let level1 = q.dequeue_level(1);
    assert!(level1.is_empty());

    let level2 = q.dequeue_level(2);
    assert_eq!(level2.len(), 1);
    assert!(q.is_empty());
}

#[test]
fn level_queue_out_of_range_dequeue() {
    let mut q = LevelQueue::new(2);
    let nodes = q.dequeue_level(10);
    assert!(nodes.is_empty());
}

#[test]
fn level_queue_peek() {
    let mut q = LevelQueue::new(3);
    q.enqueue(1, NodeId::one());
    assert_eq!(q.peek_level(1).len(), 1);
    assert_eq!(q.peek_level(0).len(), 0);
    assert_eq!(q.peek_level(99).len(), 0);
}

#[test]
fn level_queue_keeps_order() {
    let mut q = LevelQueue::new(2);
    let a = NodeId::from_raw(5, false);
    let b = NodeId::from_raw(6, true);
    q.enqueue(1, a);
    q.enqueue(1, b);
    assert_eq!(q.num_levels(), 2);
    assert_eq!(q.peek_level(1), &[a, b]);
    assert_eq!(q.dequeue_level(1), vec![a, b]);
    assert!(q.peek_level(1).is_empty());
}
