use cs_learning::queue::Queue;

#[test]
fn test_queue_operations() {
    let mut queue = Queue::new();
    queue.enqueue(1);
    queue.enqueue(2);
    queue.enqueue(3);

    assert_eq!(queue.dequeue(), Some(1));
    assert_eq!(queue.dequeue(), Some(2));
    assert_eq!(queue.len(), 1);
    assert_eq!(queue.peek(), Some(&3));
}

#[test]
fn test_queue_empty() {
    let mut queue: Queue<i32> = Queue::new();
    assert!(queue.is_empty());
    assert_eq!(queue.dequeue(), None);
    assert_eq!(queue.peek(), None);
}
