use data_structures::stacks::{
    ArrayStack, BoundedStack, LinkedListStack, ShadowCopyStack, UnboundedStack,
};

#[test]
fn stacks_array_stack_ok() {
    let mut stack: ArrayStack<usize, 10> = ArrayStack::new();
    stack.push(3);
    stack.push(2);
    stack.push(1);
    assert_eq!(&1, stack.peek());
    assert_eq!(3, stack.len());
    assert_eq!(1, stack.pop());

    stack.pop();
    stack.pop();
    assert!(stack.is_empty());

    let range = 4..=9;
    for i in range.clone() {
        stack.push(i);
    }
    assert_eq!(range.clone().count(), stack.len());
    for i in range.rev() {
        assert_eq!(i, stack.pop());
    }
    assert!(stack.is_empty());
}

#[test]
fn stack_array_stack_ok() {
    let mut stack: ArrayStack<usize, 10> = ArrayStack::new();
    stack.push(3);
    stack.push(2);
    stack.push(1);
    assert_eq!(&1, stack.peek());
    assert_eq!(3, stack.len());
    assert_eq!(1, stack.pop());

    stack.pop();
    stack.pop();
    assert!(stack.is_empty());

    let range = 4..=9;
    for i in range.clone() {
        stack.push(i);
    }
    assert_eq!(range.clone().count(), stack.len());
    for i in range.rev() {
        assert_eq!(i, stack.pop());
    }
    assert!(stack.is_empty());
}

#[test]
fn array_stack_limit_and_default() {
    let stack: ArrayStack<u8, 7> = ArrayStack::default();
    assert_eq!(7, stack.max_len());
    assert_eq!(0, stack.len());
    assert!(stack.is_empty());
}

#[test]
fn bounded_stack_ok() {
    let mut stack = BoundedStack::new(10);
    stack.push(3);
    stack.push(2);
    stack.push(1);
    assert_eq!(&1, stack.peek());
    assert_eq!(3, stack.len());
    assert_eq!(1, stack.pop());

    stack.pop();
    stack.pop();
    assert!(stack.is_empty());

    let range = 4..=9;
    for i in range.clone() {
        stack.push(i);
    }
    assert_eq!(range.clone().count(), stack.len());
    for i in range.rev() {
        assert_eq!(i, stack.pop());
    }
    assert!(stack.is_empty());
}

#[test]
fn bounded_stack_fills_to_its_limit() {
    let mut stack = BoundedStack::new(3);
    assert_eq!(3, stack.max_len());
    stack.push('a');
    stack.push('b');
    stack.push('c');
    assert_eq!(stack.max_len(), stack.len());
    assert_eq!('c', stack.pop());
    assert_eq!('b', stack.pop());
    assert_eq!('a', stack.pop());
    assert!(stack.is_empty());
}

#[test]
fn stacks_linked_list_stack_ok() {
    let mut stack = LinkedListStack::new(2, 1);
    stack.push(3);
    stack.push(2);
    stack.push(1);
    assert_eq!(&1, stack.peek());
    assert_eq!(3, stack.len());
    assert_eq!(1, stack.pop());

    stack.pop();
    stack.pop();
    assert!(stack.is_empty());

    let range = 4..=9;
    for i in range.clone() {
        stack.push(i);
    }
    assert_eq!(range.clone().count(), stack.len());
    for i in range.rev() {
        assert_eq!(i, stack.pop());
    }
    assert!(stack.is_empty());
}

#[test]
fn stack_linked_list_stack_ok() {
    let mut stack = LinkedListStack::new(2, 1);
    stack.push(3);
    stack.push(2);
    stack.push(1);
    assert_eq!(&1, stack.peek());
    assert_eq!(3, stack.len());
    assert_eq!(1, stack.pop());

    stack.pop();
    stack.pop();
    assert!(stack.is_empty());

    let range = 4..=9;
    for i in range.clone() {
        stack.push(i);
    }
    assert_eq!(range.clone().count(), stack.len());
    for i in range.rev() {
        assert_eq!(i, stack.pop());
    }
    assert!(stack.is_empty());
}

#[test]
fn linked_list_stack_reuses_records() {
    let mut stack: LinkedListStack<String> = LinkedListStack::default();
    for round in 0..5 {
        for i in 0..600 {
            stack.push(format!("{round}-{i}"));
        }
        assert_eq!(600, stack.len());
        for i in (0..600).rev() {
            assert_eq!(format!("{round}-{i}"), stack.pop());
        }
        assert!(stack.is_empty());
    }
}

#[test]
fn unbounded_stack_ok() {
    let mut stack = UnboundedStack::new(2);
    stack.push(3);
    stack.push(2);
    stack.push(1);
    assert_eq!(&1, stack.peek());
    assert_eq!(3, stack.len());
    assert_eq!(1, stack.pop());

    stack.pop();
    stack.pop();
    assert!(stack.is_empty());

    let range = 4..=9;
    for i in range.clone() {
        stack.push(i);
    }
    assert_eq!(range.clone().count(), stack.len());
    for i in range.rev() {
        assert_eq!(i, stack.pop());
    }
    assert!(stack.is_empty());
}

#[test]
fn unbounded_stack_peeks_into_the_chunk_below() {
    let mut stack = UnboundedStack::new(3);
    for i in 0..7 {
        stack.push(i);
    }
    assert_eq!(6, stack.pop());
    // The newest chunk is empty now; the top value sits in the full chunk below.
    assert_eq!(&5, stack.peek());
    assert_eq!(6, stack.len());
    assert!(!stack.is_empty());
    stack.push(60);
    assert_eq!(&60, stack.peek());
    assert_eq!(60, stack.pop());
    for i in (0..6).rev() {
        assert_eq!(i, stack.pop());
    }
    assert!(stack.is_empty());
}

#[test]
fn shadow_copy_stack_ok() {
    let mut stack = ShadowCopyStack::new(2);
    stack.push(3);
    stack.push(2);
    stack.push(1);
    assert_eq!(&1, stack.peek());
    assert_eq!(3, stack.len());
    assert_eq!(1, stack.pop());

    stack.pop();
    stack.pop();
    assert!(stack.is_empty());

    let range = 4..=9;
    for i in range.clone() {
        stack.push(i);
    }
    assert_eq!(range.clone().count(), stack.len());
    for i in range.rev() {
        assert_eq!(i, stack.pop());
    }
    assert!(stack.is_empty());
}

#[test]
fn shadow_copy_stack_grows_while_in_use() {
    let mut stack = ShadowCopyStack::new(1);
    let mut held: Vec<u32> = Vec::new();
    for i in 0..2000u32 {
        stack.push(i);
        held.push(i);
        if i % 7 == 3 {
            assert_eq!(held.pop().unwrap(), stack.pop());
        }
        assert_eq!(held.len(), stack.len());
        assert_eq!(held.last().unwrap(), stack.peek());
    }
    while let Some(expected) = held.pop() {
        assert_eq!(expected, stack.pop());
    }
    assert!(stack.is_empty());
}

#[test]
fn pushes_then_pops_come_back_reversed() {
    let vals = vec![17, 4, 4, 23, 0, 9];
    let mut linked = LinkedListStack::new(3, 1);
    let mut chunked = UnboundedStack::new(2);
    let mut bounded = BoundedStack::new(vals.len());
    let mut shadow = ShadowCopyStack::new(2);
    for v in vals.iter() {
        linked.push(*v);
        chunked.push(*v);
        bounded.push(*v);
        shadow.push(*v);
    }
    for v in vals.iter().rev() {
        assert_eq!(*v, linked.pop());
        assert_eq!(*v, chunked.pop());
        assert_eq!(*v, bounded.pop());
        assert_eq!(*v, shadow.pop());
    }
    assert!(linked.is_empty() && chunked.is_empty() && bounded.is_empty() && shadow.is_empty());
}

#[test]
fn shadow_copy_stack_doubles_its_array() {
    let mut stack = ShadowCopyStack::new(4);
    assert_eq!(4, stack.max_len());
    stack.push(1);
    stack.push(2);
    assert_eq!(4, stack.max_len());
    // Three of four slots are taken: the copy starts, and with so few values it is
    // done at once.
    stack.push(3);
    assert_eq!(8, stack.max_len());
    stack.push(4);
    stack.push(5);
    assert_eq!(8, stack.max_len());
    // Six of eight: the copy starts and takes four values over; two are behind.
    stack.push(6);
    assert_eq!(8, stack.max_len());
    // The next push takes the rest over.
    stack.push(7);
    assert_eq!(16, stack.max_len());
    for expected in (1..=7).rev() {
        assert_eq!(expected, stack.pop());
    }
    assert_eq!(16, stack.max_len());
}

#[test]
fn shadow_copy_stack_finishes_a_copy_on_pop() {
    let mut stack = ShadowCopyStack::new(8);
    for i in 0..6 {
        stack.push(i);
    }
    // Four of the six values are in the copy.
    assert_eq!(8, stack.max_len());
    assert_eq!(5, stack.pop());
    assert_eq!(8, stack.max_len());
    // With the next pop the copy holds all that is left, and is swapped in.
    assert_eq!(4, stack.pop());
    assert_eq!(16, stack.max_len());
    assert_eq!(&3, stack.peek());
    assert_eq!(4, stack.len());
}

#[test]
fn unbounded_stack_of_many_chunks_is_given_up_chunk_by_chunk() {
    let mut stack = UnboundedStack::new(1);
    for i in 0..1_000_000u32 {
        stack.push(i);
    }
    assert_eq!(1_000_000, stack.len());
    assert_eq!(&999_999, stack.peek());
    drop(stack);

    let mut stack = UnboundedStack::new(2);
    for i in 0..300_000u32 {
        stack.push(i);
    }
    for i in (100_000..300_000u32).rev() {
        assert_eq!(i, stack.pop());
    }
    assert_eq!(100_000, stack.len());
}
