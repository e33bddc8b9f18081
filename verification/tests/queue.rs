use alda::error::{Error, ErrorKind};
use alda::queue::{BoundedQueue, Queue};

#[test]
#[allow(unused_must_use)]
fn bounded_queue() {
    let mut queue = BoundedQueue::<i32>::with_capacity(5);
    assert!(queue.is_empty());
    queue.enqueue(1);
    queue.enqueue(2);
    queue.enqueue(3);
    queue.enqueue(4);
    queue.enqueue(5);
    assert!(queue.is_full());
    assert_eq!(queue.tail(), 0);
    assert!(queue.enqueue(6).is_err());
    assert_eq!(queue.dequeue(), Ok(1));
    assert_eq!(queue.head(), 1);
    queue.enqueue(6);
    assert!(queue.is_full());
    assert_eq!(queue.tail(), 1);
    assert_eq!(queue.dequeue(), Ok(2));
    assert_eq!(queue.dequeue(), Ok(3));
    assert_eq!(queue.dequeue(), Ok(4));
    assert_eq!(queue.dequeue(), Ok(5));
}

#[test]
fn bounded_queue_errors() {
    let mut queue = BoundedQueue::<i32>::with_capacity(1);
    assert_eq!(queue.dequeue(), Err(Error::new(ErrorKind::QueueUnderflow)));
    assert_eq!(queue.enqueue(7), Ok(()));
    assert_eq!(queue.enqueue(8), Err(Error::new(ErrorKind::QueueOverflow)));
    assert_eq!(queue.dequeue(), Ok(7));
    assert!(queue.is_empty());
    let mut none = BoundedQueue::<i32>::with_capacity(0);
    assert!(none.is_full());
    assert_eq!(none.enqueue(1), Err(Error::new(ErrorKind::QueueOverflow)));
}

#[test]
fn error_messages() {
    assert_eq!(
        Error::new(ErrorKind::QueueOverflow).message(),
        "failed to enqueue a new element to already full queue."
    );
    assert_eq!(
        ErrorKind::QueueUnderflow.message(),
        "cannot dequeue element from an empty queue"
    );
    assert_eq!(Error::new(ErrorKind::QueueUnderflow).source(), ErrorKind::QueueUnderflow);
}

#[test]
fn test_enqueue() {
    let mut q: Queue<isize> = Queue::new(1);
    assert_eq!(q.get_tail(), 0);
    q.enqueue(1);
    assert_eq!(q.get_tail(), 1);
}

#[test]
fn test_dequeue() {
    let mut q: Queue<isize> = Queue::new(1);
    q.enqueue(2);
    q.enqueue(1);
    assert_eq!(q.dequeue(), Some(2));
    assert_eq!(q.dequeue(), Some(1));
}

#[test]
fn queue_from_vector() {
    let mut q = Queue::from(vec![3, 1, 0, 5], 10);
    assert_eq!(q.capacity(), 10);
    assert_eq!(q.len(), 4);
    assert!(!q.is_empty());
    assert_eq!(q.get_tail(), 4);
    assert_eq!(q.dequeue(), Some(3));
    q.enqueue(9);
    assert_eq!(q.len(), 5);
}
