//! The queue from which items are popped.

use dfqueue::{MpscQueue, PopResult};

#[test]
fn mpsc_queue_test() {
    let nthreads = 16;
    let top_range = 10;
    let mut q: MpscQueue<u64> = MpscQueue::new();
    match q.pop_inner() {
        PopResult::Empty => {}
        PopResult::Inconsistent | PopResult::Data(..) => panic!(),
    }

    // each producer pushes its values in order, and they take turns
    for i in 0..top_range {
        for id in 0..nthreads {
            q.push(i + (id * top_range));
        }
    }

    let mut seen: Vec<Vec<u64>> = vec![Vec::new(); nthreads as usize];
    for _ in 0..nthreads * top_range {
        match q.pop_inner() {
            PopResult::Data(x) => seen[(x / top_range) as usize].push(x % top_range),
            PopResult::Empty | PopResult::Inconsistent => panic!(),
        }
    }
    for values in seen {
        assert_eq!(values, vec![0, 1, 2, 3, 4, 5, 6, 7, 8, 9]);
    }
    assert!(q.pop().is_none());
}

#[test]
fn pop_of_an_unfinished_push() {
    let mut q: MpscQueue<&str> = MpscQueue::new();
    let a = q.begin_push("a");
    q.push("b");
    assert!(matches!(q.pop_inner(), PopResult::Inconsistent));
    assert_eq!(q.pop(), None);
    assert!(!q.at_head());
    q.finish_push(a);
    assert!(matches!(q.pop_inner(), PopResult::Data("a")));
    assert_eq!(q.pop(), Some("b"));
    assert!(matches!(q.pop_inner(), PopResult::Empty));
    assert!(q.at_head());
}

#[test]
fn push_between_the_steps_of_a_pop() {
    let mut q: MpscQueue<u8> = MpscQueue::new();
    assert_eq!(q.take_next(), None);
    q.push(1);
    assert!(!q.at_head());
    assert_eq!(q.take_next(), Some(1));
}

#[test]
fn order_of_begins_counts() {
    let mut q: MpscQueue<u8> = MpscQueue::new();
    let one = q.begin_push(1);
    let two = q.begin_push(2);
    let three = q.begin_push(3);
    q.finish_push(three);
    q.finish_push(one);
    assert_eq!(q.pop(), Some(1));
    assert!(matches!(q.pop_inner(), PopResult::Inconsistent));
    q.finish_push(two);
    assert_eq!(q.pop(), Some(2));
    assert_eq!(q.pop(), Some(3));
    assert_eq!(q.pop(), None);
}

#[test]
fn taking_the_queue_down() {
    let mut q: MpscQueue<u8> = MpscQueue::new();
    q.push(1);
    q.push(2);
    assert_eq!(q.pop(), Some(1));
    q.push(3);
    let _stuck = q.begin_push(4);
    q.push(5);
    assert_eq!(q.into_values(), vec![2, 3]);
    assert_eq!(MpscQueue::<u8>::new().into_values(), Vec::<u8>::new());
}
