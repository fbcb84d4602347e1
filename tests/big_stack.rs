use tile_game::big_stack::{BigStack, Drain, PopStep, SpillStack, Stack};

fn test_stack(stack: &mut impl Stack<usize>) {
    // Test pushing items on the stack.
    let n_elts = 10;
    for i in 0..n_elts {
        assert_eq!(stack.len(), i, "Stack length should be {i}");
        stack.push(i);
    }
    assert_eq!(stack.len(), n_elts);

    // Test the rev_drain() method.
    let elts_to_drain = n_elts / 2;
    for (i, item) in stack.rev_drain(elts_to_drain).into_iter().enumerate() {
        assert_eq!(n_elts - 1 - i, item);
    }
    let n_elts = n_elts - elts_to_drain;
    assert_eq!(stack.len(), n_elts);

    // Test the pop() method
    for i in (0..n_elts).rev() {
        assert_eq!(Some(i), stack.pop());
        assert_eq!(stack.len(), i);
    }
}

#[test]
fn test_vec_stack() {
    test_stack(&mut Vec::new());
}

#[test]
fn test_big_stack() {
    test_stack(&mut BigStack::new(5));
}

#[test]
fn spill_stack_pops_every_pushed_value() {
    let mut stack = BigStack::new(5);
    for i in 0..10usize {
        stack.push(i);
    }
    let mut first: Vec<usize> = (0..5).map(|_| stack.pop().unwrap()).collect();
    let mut last: Vec<usize> = (0..5).map(|_| stack.pop().unwrap()).collect();
    assert_eq!(stack.pop(), None);
    assert_eq!(stack.len(), 0);
    first.sort();
    last.sort();
    assert_eq!(first, vec![5, 6, 7, 8, 9]);
    assert_eq!(last, vec![0, 1, 2, 3, 4]);
}

#[test]
fn spill_stack_smallest_capacity() {
    let mut stack = BigStack::new(2);
    for i in 0..7u32 {
        stack.push(i);
        assert_eq!(stack.len(), (i + 1) as usize);
    }
    for i in (0..7u32).rev() {
        assert_eq!(stack.pop(), Some(i));
    }
    assert_eq!(stack.pop(), None);
}

#[test]
fn spill_stack_interleaved() {
    let mut stack = BigStack::new(4);
    let mut model: Vec<u32> = Vec::new();
    for round in 0..20u32 {
        for k in 0..(round % 5 + 1) {
            stack.push(round * 10 + k);
            model.push(round * 10 + k);
        }
        for _ in 0..(round % 3) {
            assert_eq!(stack.pop(), model.pop());
        }
        assert_eq!(stack.len(), model.len());
    }
    while let Some(x) = model.pop() {
        assert_eq!(stack.pop(), Some(x));
    }
    assert_eq!(stack.pop(), None);
}

#[test]
fn spill_stack_hands_out_oldest_half() {
    let mut core = SpillStack::new(4);
    let mut stored: Vec<Vec<u32>> = Vec::new();
    for i in 0..10u32 {
        if let Some(batch) = core.push(i) {
            stored.push(batch);
        }
        assert_eq!(core.len(), (i + 1) as usize);
    }
    assert_eq!(core.batch_size(), 2);
    assert_eq!(stored, vec![vec![0, 1], vec![2, 3], vec![4, 5]]);
    let mut popped = Vec::new();
    loop {
        match core.pop() {
            PopStep::Item(x) => popped.push(x),
            PopStep::Reload => core.reload(stored.pop().unwrap()),
            PopStep::Empty => break,
        }
    }
    assert_eq!(popped, (0..10u32).rev().collect::<Vec<_>>());
    assert!(stored.is_empty());
    assert_eq!(core.len(), 0);
}

#[test]
fn drain_pops_until_empty() {
    let mut stack = BigStack::new(3);
    for i in 0..7u8 {
        stack.push(i);
    }
    {
        let mut drain = Drain::new(&mut stack);
        for i in (0..7u8).rev() {
            assert_eq!(drain.next(), Some(i));
        }
        assert_eq!(drain.next(), None);
        assert_eq!(drain.next(), None);
    }
    assert_eq!(stack.len(), 0);
}

#[test]
fn rev_drain_stops_at_the_bottom() {
    let mut stack: Vec<u8> = vec![1, 2, 3];
    assert_eq!(stack.rev_drain(10), vec![3, 2, 1]);
    assert_eq!(Stack::len(&stack), 0);
}
