use priority_queue::PriorityQueue;
use std::cmp::Reverse;

#[test]
fn test_priority_queue_resize() {
    let mut queue = PriorityQueue::with_capacity(5);

    queue.push(1, Reverse(10));
    queue.push(2, Reverse(20));
    queue.push(3, Reverse(30));
    queue.push(4, Reverse(40));
    queue.push(5, Reverse(50));

    assert_eq!(queue.capacity(), 5);
    queue.push(6, Reverse(70));

    // past its initial capacity the queue grows by itself
    assert_eq!(queue.into_iter().count(), 6);
}
