//! The three queues under load, with the steps of 1 to 16 producers interleaved.

use std::collections::VecDeque;
use std::time::Instant;

use dfqueue::{DFQueue, MpscQueue};

const NUM_ELEMENTS: u64 = 16384;
const NUM_TRIALS: u64 = 10;

fn median(mut results: Vec<u128>) -> u128 {
    results.sort();
    results[results.len() / 2]
}

#[test]
fn bench_dfqueue() {
    println!("========== DFQueue ========== ");

    for i in [1u64, 2, 4, 8, 16].iter() {
        let mut results: Vec<u128> = Vec::with_capacity(NUM_TRIALS as usize);
        for _ in 0..NUM_TRIALS {
            results.push(run_dfqueue(*i, NUM_ELEMENTS));
        }
        println!("producers={}, elements={}, elapsed={:?}", i, NUM_ELEMENTS, median(results));
    }
}

/// In each round every producer begins a push, then they finish in the opposite order, and then
/// the consumer handles what it can reach.
fn run_dfqueue(producers: u64, elements: u64) -> u128 {
    let queue: DFQueue<(u64, u64)> = DFQueue::new();
    let (queue_prod, mut shared) = queue.into_producer();
    let qcons = queue_prod.get_consumer(&mut shared).unwrap();
    let mut handles = Vec::new();
    for _ in 0..producers {
        handles.push(queue_prod.obtain_producer(&mut shared));
    }

    let start = Instant::now();
    let mut total_received = 0;
    let mut received: Vec<u64> = vec![0; producers as usize];
    for i in 0..(elements / producers) {
        let mut pending = Vec::new();
        for (id, q) in handles.iter().enumerate() {
            pending.push((id, q.begin_enqueue(&mut shared, (id as u64, i))));
        }
        while let Some((id, push)) = pending.pop() {
            if id == 0 {
                // the first of them keeps the others out of reach
                assert!(qcons.peek(&mut shared).is_none());
            }
            let queued = handles[id].finish_enqueue(&mut shared, push);
            assert!(queued.is_enqueued(&shared));
            queued.release(&mut shared);
        }
        while let Some(v) = qcons.peek(&mut shared) {
            let (id, n) = *v;
            assert_eq!(n, received[id as usize]);
            received[id as usize] += 1;
            v.mark_completed(&mut shared);
            v.release(&mut shared);
            total_received += 1;
        }
    }
    assert_eq!(total_received, elements);
    for q in handles {
        q.release(&mut shared);
    }
    start.elapsed().as_nanos()
}

#[test]
fn bench_rust_mutex_queue() {
    println!("========== Standard Rust VecDeque queue ========== ");

    // the queue hands out what a plain double-ended queue hands out
    for i in [1u64, 2, 4, 8, 16].iter() {
        let queue = run_mpsc_queue(*i, NUM_ELEMENTS).1;
        let mut reference: VecDeque<u64> = VecDeque::new();
        for n in 0..(NUM_ELEMENTS / i) {
            for id in 0..*i {
                reference.push_back(n * i + id);
            }
        }
        assert_eq!(queue.len(), reference.len());
        for value in queue {
            assert_eq!(Some(value), reference.pop_front());
        }
    }
}

#[test]
fn bench_rust_mpsc_queue() {
    println!("========== Standard Rust MPSC lockless queue ========== ");

    for i in [1u64, 2, 4, 8, 16].iter() {
        let mut results: Vec<u128> = Vec::with_capacity(NUM_TRIALS as usize);
        for _ in 0..NUM_TRIALS {
            results.push(run_mpsc_queue(*i, NUM_ELEMENTS).0);
        }
        println!("producers={}, elements={}, elapsed={:?}", i, NUM_ELEMENTS, median(results));
    }
}

fn run_mpsc_queue(producers: u64, elements: u64) -> (u128, Vec<u64>) {
    let mut queue: MpscQueue<u64> = MpscQueue::new();
    let start = Instant::now();
    let mut received = Vec::new();
    for i in 0..(elements / producers) {
        let mut pending = Vec::new();
        for id in 0..producers {
            pending.push(queue.begin_push(i * producers + id));
        }
        while let Some(push) = pending.pop() {
            queue.finish_push(push);
        }
        while let Some(value) = queue.pop() {
            received.push(value);
        }
    }
    assert_eq!(received.len() as u64, elements);
    (start.elapsed().as_nanos(), received)
}
