use tile_game::unordered_queue::UnorderedQueue;

fn test_queue(queue: &mut impl UnorderedQueue<usize>) {
    let n_elts = 10;
    for i in 0..n_elts {
        assert_eq!(queue.len(), i);
        queue.enqueue(i);
    }
    assert_eq!(queue.len(), n_elts);

    let mut seen = Vec::new();
    while let Some(i) = queue.dequeue() {
        assert!(i < n_elts);
        seen.push(i);
    }
    assert_eq!(queue.len(), 0);
    seen.sort();
    assert_eq!(seen, (0..n_elts).collect::<Vec<_>>());
}

#[test]
pub fn foo_test() {}

#[test]
fn vec_queue_hands_back_everything() {
    test_queue(&mut Vec::new());
}
