use data_structures::queues::{
    BoundedQueue, CircularLinkedQueue, DoubleLinkedQueue, LinkedListQueue,
};

#[test]
fn bounded_queue_ok() {
    let mut q = BoundedQueue::new(6);
    q.enqueue(3);
    q.enqueue(2);
    q.enqueue(1);
    assert_eq!(&3, q.peek());
    assert_eq!(3, q.len());
    assert_eq!(3, q.dequeue());

    q.dequeue();
    q.dequeue();
    assert!(q.is_empty());

    let range = 4..=9;
    for (j, i) in range.clone().enumerate() {
        assert_eq!(j, q.len());
        q.enqueue(i);
    }
    assert_eq!(range.clone().count(), q.len());
    for i in range {
        assert_eq!(i, q.dequeue());
    }
    assert!(q.is_empty());
}

#[test]
fn bounded_queue_goes_round_the_ring() {
    let mut q = BoundedQueue::new(3);
    assert_eq!(3, q.max_len());
    let mut next_in = 0;
    let mut next_out = 0;
    for _ in 0..10 {
        while q.len() < q.max_len() {
            q.enqueue(next_in);
            next_in += 1;
        }
        assert_eq!(&next_out, q.peek());
        assert_eq!(next_out, q.dequeue());
        next_out += 1;
        assert_eq!(next_out, q.dequeue());
        next_out += 1;
    }
    assert_eq!(1, q.len());
    assert_eq!(next_out, q.dequeue());
    assert!(q.is_empty());
}

#[test]
fn queues_linked_list_queue_ok() {
    let mut q = LinkedListQueue::new(2, 1);
    q.enqueue(3);
    q.enqueue(2);
    q.enqueue(1);
    assert_eq!(&3, q.peek());
    assert_eq!(3, q.len());
    assert_eq!(3, q.dequeue());

    q.dequeue();
    q.dequeue();
    assert!(q.is_empty());

    let range = 4..=9;
    for (j, i) in range.clone().enumerate() {
        assert_eq!(j, q.len());
        q.enqueue(i);
    }
    assert_eq!(range.clone().count(), q.len());
    for i in range {
        assert_eq!(i, q.dequeue());
    }
    assert!(q.is_empty());
}

#[test]
fn queue_linked_list_queue_ok() {
    let mut q = LinkedListQueue::new(2, 1);
    q.enqueue(3);
    q.enqueue(2);
    q.enqueue(1);
    assert_eq!(&3, q.peek());
    assert_eq!(3, q.len());
    assert_eq!(3, q.dequeue());

    q.dequeue();
    q.dequeue();
    assert!(q.is_empty());

    let range = 4..=9;
    for (j, i) in range.clone().enumerate() {
        assert_eq!(j, q.len());
        q.enqueue(i);
    }
    assert_eq!(range.clone().count(), q.len());
    for i in range {
        assert_eq!(i, q.dequeue());
    }
    assert!(q.is_empty());
}

#[test]
fn circular_linked_queue_ok() {
    let mut q = CircularLinkedQueue::new(2, 1);
    q.enqueue(3);
    q.enqueue(2);
    q.enqueue(1);
    assert_eq!(&3, q.peek());
    assert_eq!(3, q.len());
    assert_eq!(3, q.dequeue());

    q.dequeue();
    q.dequeue();
    assert!(q.is_empty());

    let range = 4..=9;
    for (j, i) in range.clone().enumerate() {
        assert_eq!(j, q.len());
        q.enqueue(i);
    }
    assert_eq!(range.clone().count(), q.len());
    for i in range {
        assert_eq!(i, q.dequeue());
    }
    assert!(q.is_empty());
}

#[test]
fn double_linked_queue_ok() {
    let mut q = DoubleLinkedQueue::new(2, 1);
    q.enqueue(3);
    q.enqueue(2);
    q.enqueue(1);
    assert_eq!(&3, q.peek());
    assert_eq!(3, q.len());
    assert_eq!(3, q.dequeue());

    q.dequeue();
    q.dequeue();
    assert!(q.is_empty());

    let range = 4..=9;
    for (j, i) in range.clone().enumerate() {
        assert_eq!(j, q.len());
        q.enqueue(i);
    }
    assert_eq!(range.clone().count(), q.len());
    for i in range {
        assert_eq!(i, q.dequeue());
    }
    assert!(q.is_empty());
}

#[test]
fn queues_start_empty_by_default() {
    let linked: LinkedListQueue<u8> = LinkedListQueue::default();
    let circular: CircularLinkedQueue<u8> = CircularLinkedQueue::default();
    let double: DoubleLinkedQueue<u8> = DoubleLinkedQueue::default();
    assert!(linked.is_empty() && circular.is_empty() && double.is_empty());
    assert_eq!(0, linked.len() + circular.len() + double.len());
}

#[test]
fn enqueues_then_dequeues_come_back_in_order() {
    let vals = vec!["d", "a", "c", "a", "b"];
    let mut bounded = BoundedQueue::new(vals.len());
    let mut linked = LinkedListQueue::new(2, 1);
    let mut circular = CircularLinkedQueue::new(2, 1);
    let mut double = DoubleLinkedQueue::new(2, 1);
    for v in vals.iter() {
        bounded.enqueue(*v);
        linked.enqueue(*v);
        circular.enqueue(*v);
        double.enqueue(*v);
    }
    for v in vals.iter() {
        assert_eq!(*v, bounded.dequeue());
        assert_eq!(*v, linked.dequeue());
        assert_eq!(*v, circular.dequeue());
        assert_eq!(*v, double.dequeue());
    }
    assert!(bounded.is_empty() && linked.is_empty() && circular.is_empty() && double.is_empty());
}

#[test]
fn linked_queues_take_turns_of_enqueue_and_dequeue() {
    let mut linked = LinkedListQueue::new(3, 1);
    let mut circular = CircularLinkedQueue::new(3, 1);
    let mut double = DoubleLinkedQueue::new(3, 1);
    let mut next_in = 0u32;
    let mut next_out = 0u32;
    for round in 0..50 {
        for _ in 0..(round % 5 + 1) {
            linked.enqueue(next_in);
            circular.enqueue(next_in);
            double.enqueue(next_in);
            next_in += 1;
        }
        while !linked.is_empty() && (next_in - next_out) > (round % 3) {
            assert_eq!(&next_out, circular.peek());
            assert_eq!(next_out, linked.dequeue());
            assert_eq!(next_out, circular.dequeue());
            assert_eq!(next_out, double.dequeue());
            next_out += 1;
        }
        assert_eq!((next_in - next_out) as usize, linked.len());
        assert_eq!(linked.len(), circular.len());
        assert_eq!(linked.len(), double.len());
        assert_eq!(linked.is_empty(), circular.is_empty());
        assert_eq!(linked.is_empty(), double.is_empty());
    }
}
