use linked_collections::queue::Queue;

#[test]
fn enqueue() {
    let mut queue: Queue<i32> = Queue::new();
    assert_eq!(queue.len(), 0);
    queue.enqueue(1);
    assert_eq!(queue.len(), 1);
    queue.enqueue(2);
    assert_eq!(queue.len(), 2);
    queue.enqueue(3);
    assert_eq!(queue.len(), 3);
    queue.enqueue(4);
    assert_eq!(queue.len(), 4);
    queue.enqueue(5);
    assert_eq!(queue.len(), 5);
}

#[test]
fn dequeue() {
    let mut queue = Queue::from(vec![1, 2, 3, 4, 5]);
    assert_eq!(queue.dequeue().unwrap(), 1);
    assert_eq!(queue.dequeue().unwrap(), 2);
    assert_eq!(queue.dequeue().unwrap(), 3);
    assert_eq!(queue.dequeue().unwrap(), 4);
    assert_eq!(queue.dequeue().unwrap(), 5);
    assert_eq!(queue.dequeue(), None);
}

#[test]
fn enqueue_dequeue() {
    let mut queue = Queue::new();
    queue.enqueue(1);
    queue.enqueue(2);
    assert_eq!(queue.dequeue().unwrap(), 1);
    assert_eq!(queue.dequeue().unwrap(), 2);
    queue.enqueue(3);
    assert_eq!(queue.dequeue().unwrap(), 3);
    queue.enqueue(4);
    assert_eq!(queue.dequeue().unwrap(), 4);
    assert_eq!(queue.dequeue(), None);
}
