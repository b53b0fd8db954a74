//! The queue whose items are removed after they have been completed.

use dfqueue::{
    DFQueue, DFQueueConsumer, DFQueueProducer, DFQueueShared, PeekResult, PeekStep, PeekedData,
};

fn open<T>() -> (DFQueueProducer<T>, DFQueueConsumer<T>, DFQueueShared<T>) {
    let queue: DFQueue<T> = DFQueue::new();
    let (producer, mut shared) = queue.into_producer();
    let consumer = producer.get_consumer(&mut shared).unwrap();
    (producer, consumer, shared)
}

fn drain(consumer: &DFQueueConsumer<usize>, shared: &mut DFQueueShared<usize>) -> Vec<usize> {
    let mut values = Vec::new();
    while let Some(v) = consumer.peek(shared) {
        values.push(*v);
        v.mark_completed(shared);
        v.release(shared);
    }
    values
}

#[test]
fn simple_test() {
    let queue: DFQueue<usize> = DFQueue::new();

    let (queue_prod, mut shared) = queue.into_producer();
    let queue_cons = queue_prod.get_consumer(&mut shared);
    assert!(queue_cons.is_some(), "First DFQueueConsumer was None!!!");

    // a second call to get_consumer must return None
    assert!(queue_prod.get_consumer(&mut shared).is_none(), "Second DFQueueConsumer wasn't None!!");

    let queue_cons = queue_cons.unwrap();
    let queue_prod2 = queue_prod.obtain_producer(&mut shared);

    let mut expected = Vec::new();
    for _ in 1..20 {
        for (a, b) in [1, 2, 3, 4, 5].iter().zip([10, 11, 12, 13, 14].iter()) {
            let _ = queue_prod.enqueue(&mut shared, *a);
            let _ = queue_prod2.enqueue(&mut shared, *b);
            expected.push(*a);
            expected.push(*b);
        }
    }
    let queued_data = queue_prod.enqueue(&mut shared, 256);
    assert_eq!(*queued_data, 256);
    println!("prod1: queued_data = {:?}", queued_data);
    let queued_data2 = queue_prod2.enqueue(&mut shared, 512);
    println!("prod2: queued_data = {:?}", queued_data2);
    expected.push(256);
    expected.push(512);

    assert!(!queued_data.is_completed(&shared));
    assert_eq!(drain(&queue_cons, &mut shared), expected);
    assert!(queued_data.is_completed(&shared));
    assert!(queued_data2.is_completed(&shared));
}

#[test]
fn one_consumer_only() {
    let queue: DFQueue<u8> = DFQueue::new();
    let (consumer, mut shared) = queue.into_consumer();
    let producer = consumer.obtain_producer(&mut shared);
    assert!(producer.get_consumer(&mut shared).is_none());
    assert!(producer.obtain_producer(&mut shared).get_consumer(&mut shared).is_none());
    // not even after the consumer is gone
    consumer.release(&mut shared);
    assert!(producer.get_consumer(&mut shared).is_none());
}

#[test]
fn empty_queue() {
    let (_producer, consumer, mut shared) = open::<usize>();
    assert!(consumer.peek(&mut shared).is_none());
    assert!(matches!(consumer.peek_result(&mut shared), PeekResult::Empty));
    assert!(matches!(consumer.peek_step(&mut shared), PeekStep::Unreachable));
    assert!(matches!(consumer.peek_end(&shared), PeekResult::Empty));
}

#[test]
fn peek_leaves_the_item() {
    let (producer, consumer, mut shared) = open();
    let a = producer.enqueue(&mut shared, 7usize);
    let b = producer.enqueue(&mut shared, 8usize);
    let first = consumer.peek(&mut shared).unwrap();
    let again = consumer.peek(&mut shared).unwrap();
    assert_eq!((*first, *again), (7, 7));
    assert!(a.is_enqueued(&shared) && b.is_enqueued(&shared));

    // either reference completes the item, and the next peek removes it
    again.mark_completed(&mut shared);
    assert!(a.is_completed(&shared) && !b.is_completed(&shared));
    assert_eq!(*consumer.peek(&mut shared).unwrap(), 8);

    // it is off the queue although the consumer still refers to it
    assert!(!a.is_enqueued(&shared) && !a.has_failed(&shared));
    first.release(&mut shared);
    again.release(&mut shared);
    assert!(!a.is_enqueued(&shared) && !a.has_failed(&shared));
    assert!(b.is_enqueued(&shared) && !b.has_failed(&shared));
}

#[test]
fn removed_item_is_not_enqueued() {
    let (producer, consumer, mut shared) = open();
    let item = producer.enqueue(&mut shared, 4u32);
    let kept = consumer.peek(&mut shared).unwrap();
    kept.mark_completed(&mut shared);
    assert!(item.is_enqueued(&shared));
    assert!(consumer.peek(&mut shared).is_none());
    assert!(!item.is_enqueued(&shared) && item.is_completed(&shared) && !item.has_failed(&shared));
    assert_eq!((*item, *kept), (4, 4));
    kept.release(&mut shared);
    item.release(&mut shared);
}

#[test]
fn first_consumer_finds_the_oldest_item() {
    let queue: DFQueue<usize> = DFQueue::new();
    let (producer, mut shared) = queue.into_producer();
    let other = producer.obtain_producer(&mut shared);
    let _ = other.enqueue(&mut shared, 3);
    let _ = producer.enqueue(&mut shared, 1);
    let _ = other.enqueue(&mut shared, 2);
    let consumer = other.get_consumer(&mut shared).unwrap();
    assert_eq!(*consumer.peek(&mut shared).unwrap(), 3);
    assert_eq!(drain(&consumer, &mut shared), vec![3, 1, 2]);
}

#[test]
fn queue_lives_while_one_holds_it() {
    let (producer, consumer, mut shared) = open();
    let item = producer.enqueue(&mut shared, 6usize);
    let other = producer.obtain_producer(&mut shared);
    consumer.release(&mut shared);
    producer.release(&mut shared);
    assert!(item.is_enqueued(&shared) && !item.has_failed(&shared));
    let late = other.enqueue(&mut shared, 7);
    other.release(&mut shared);
    assert!(!item.is_enqueued(&shared) && item.has_failed(&shared));
    assert!(late.has_failed(&shared));
    assert_eq!((*item, *late), (6, 7));
}

#[test]
fn front_stays_until_it_is_completed() {
    let (producer, consumer, mut shared) = open();
    let first = producer.enqueue(&mut shared, 1usize);
    let seen = consumer.peek(&mut shared).unwrap();
    let _ = producer.enqueue(&mut shared, 2);
    let pending = producer.begin_enqueue(&mut shared, 3);
    assert_eq!(*consumer.peek(&mut shared).unwrap(), 1);
    let _ = producer.finish_enqueue(&mut shared, pending);
    first.release(&mut shared);
    seen.release(&mut shared);
    let again = consumer.peek(&mut shared).unwrap();
    assert_eq!(*again, 1);
    again.mark_completed(&mut shared);
    assert_eq!(drain(&consumer, &mut shared), vec![2, 3]);
}

#[test]
fn completed_after_removal() {
    let (producer, consumer, mut shared) = open();
    let a = producer.enqueue(&mut shared, 1usize);
    let first = consumer.peek(&mut shared).unwrap();
    first.mark_completed(&mut shared);
    assert!(consumer.peek(&mut shared).is_none());
    // marking it once more changes nothing
    first.mark_completed(&mut shared);
    assert!(a.is_completed(&shared));
    first.release(&mut shared);
    assert!(a.is_completed(&shared) && !a.is_enqueued(&shared));
}

#[test]
fn pushes_take_their_place_when_they_begin() {
    let (producer, consumer, mut shared) = open();
    let a = producer.begin_enqueue(&mut shared, 1usize);
    let b = producer.begin_enqueue(&mut shared, 2usize);
    let _ = producer.enqueue(&mut shared, 3usize);

    // two pushes have not finished, and the third one's item is out of reach
    assert!(matches!(consumer.peek_result(&mut shared), PeekResult::Inconsistent));
    assert!(consumer.peek(&mut shared).is_none());

    let b = producer.finish_enqueue(&mut shared, b);
    assert!(b.is_enqueued(&shared));
    assert!(matches!(consumer.peek_result(&mut shared), PeekResult::Inconsistent));

    let _ = producer.finish_enqueue(&mut shared, a);
    assert_eq!(drain(&consumer, &mut shared), vec![1, 2, 3]);
    assert!(matches!(consumer.peek_result(&mut shared), PeekResult::Empty));
}

#[test]
fn push_between_the_steps_of_a_peek() {
    let (producer, consumer, mut shared) = open();
    assert!(matches!(consumer.peek_step(&mut shared), PeekStep::Unreachable));
    let _ = producer.enqueue(&mut shared, 1usize);
    // the queue has data by now, which this peek has missed
    assert!(matches!(consumer.peek_end(&shared), PeekResult::Inconsistent));
    assert_eq!(drain(&consumer, &mut shared), vec![1]);
}

#[test]
fn pending_push_survives_the_removal_before_it() {
    let (producer, consumer, mut shared) = open();
    let _ = producer.enqueue(&mut shared, 1usize);
    let second = producer.begin_enqueue(&mut shared, 2);
    let first = consumer.peek(&mut shared).unwrap();
    first.mark_completed(&mut shared);
    assert!(matches!(consumer.peek_step(&mut shared), PeekStep::Removed));
    assert!(matches!(consumer.peek_result(&mut shared), PeekResult::Inconsistent));
    let third = producer.begin_enqueue(&mut shared, 3);
    let _ = producer.finish_enqueue(&mut shared, third);
    let _ = producer.finish_enqueue(&mut shared, second);
    assert_eq!(drain(&consumer, &mut shared), vec![2, 3]);
}

#[test]
fn failure_and_second_attempt() {
    let (producer, consumer, mut shared) = open();
    let done = producer.enqueue(&mut shared, 1usize);
    let lost = producer.enqueue(&mut shared, 2usize);
    let held: PeekedData<usize> = consumer.peek(&mut shared).unwrap();
    held.mark_completed(&mut shared);
    held.release(&mut shared);

    producer.release(&mut shared);
    assert!(done.is_enqueued(&shared) && lost.is_enqueued(&shared));
    assert!(!done.has_failed(&shared) && !lost.has_failed(&shared));

    // with its last user the queue goes
    consumer.release(&mut shared);
    assert!(!done.is_enqueued(&shared) && !lost.is_enqueued(&shared));
    assert!(!done.has_failed(&shared) && lost.has_failed(&shared));

    // the data is still there to be enqueued again, behind what is there already
    let (producer, consumer, mut other) = open();
    let _ = producer.enqueue(&mut other, 5usize);
    let _ = producer.enqueue(&mut other, *lost);
    assert_eq!(drain(&consumer, &mut other), vec![5, 2]);
    lost.release(&mut shared);
    done.release(&mut shared);
}

#[test]
fn items_are_completed_once_and_in_order() {
    let (producer, consumer, mut shared) = open();
    let a = producer.enqueue(&mut shared, 1usize);
    let slow = producer.begin_enqueue(&mut shared, 2usize);
    let first = consumer.peek(&mut shared).unwrap();
    let again = consumer.peek(&mut shared).unwrap();
    assert_eq!((*first, *again), (1, 1));
    let c = producer.enqueue(&mut shared, 3usize);
    first.mark_completed(&mut shared);
    // to complete an item a second time makes no difference
    again.mark_completed(&mut shared);
    first.release(&mut shared);
    again.release(&mut shared);
    // one item completed, and the second is not linked yet
    assert!(consumer.peek(&mut shared).is_none());
    assert!(a.is_completed(&shared) && !c.is_completed(&shared));
    let b = producer.finish_enqueue(&mut shared, slow);
    let d = producer.begin_enqueue(&mut shared, 4usize);
    let second = consumer.peek(&mut shared).unwrap();
    assert_eq!(*second, 2);
    second.mark_completed(&mut shared);
    let d = producer.finish_enqueue(&mut shared, d);
    assert!(matches!(consumer.peek_step(&mut shared), PeekStep::Removed));
    second.mark_completed(&mut shared);
    second.release(&mut shared);
    // two items completed, so a peek finds the third
    let third = consumer.peek(&mut shared).unwrap();
    assert_eq!(*third, 3);
    third.release(&mut shared);
    assert_eq!(drain(&consumer, &mut shared), vec![3, 4]);
    assert!(b.is_completed(&shared) && c.is_completed(&shared) && d.is_completed(&shared));
}

#[test]
fn item_that_is_being_worked_on_when_the_queue_goes() {
    let (producer, consumer, mut shared) = open();
    let item = producer.enqueue(&mut shared, 4usize);
    let held = consumer.peek(&mut shared).unwrap();
    producer.release(&mut shared);
    consumer.release(&mut shared);
    assert!(!item.is_completed(&shared));
    assert!(!item.is_enqueued(&shared) && !item.has_failed(&shared));
    held.release(&mut shared);
    assert!(!item.is_enqueued(&shared) && item.has_failed(&shared));
}

#[test]
fn unfinished_push_when_the_queue_goes() {
    let (producer, consumer, mut shared) = open();
    let reached = producer.enqueue(&mut shared, 1usize);
    let _stuck = producer.begin_enqueue(&mut shared, 2usize);
    let behind = producer.enqueue(&mut shared, 3usize);
    producer.release(&mut shared);
    consumer.release(&mut shared);
    // the nodes behind the unfinished push are not found, and keep their references
    assert!(reached.has_failed(&shared));
    assert!(behind.is_enqueued(&shared) && !behind.has_failed(&shared));
}

#[test]
fn released_items_make_room() {
    let (producer, consumer, mut shared) = open();
    for i in 0..1000usize {
        let a = producer.enqueue(&mut shared, i);
        let b = producer.enqueue(&mut shared, i + 1);
        b.release(&mut shared);
        assert!(a.is_enqueued(&shared));
        assert_eq!(drain(&consumer, &mut shared), vec![i, i + 1]);
        assert!(a.is_completed(&shared) && !a.is_enqueued(&shared));
        a.release(&mut shared);
    }
}
