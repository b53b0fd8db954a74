# DFQueue

DFQ is a **D**ecoupled, **F**ault-tolerant **Queue** that permits multiple producers and a single
consumer, written in Verus.

DFQ accepts immutable data items only and does not allow the consumer to immediately remove (pop) or
modify the items in the queue. Instead, DFQ imposes a transactional nature on the consumer, requiring
it to `peek()` into the queue and call `mark_completed()` on a queued item to indicate that that item
can be safely removed from the queue. The consumer removes completed items on the next `peek()`.

The producer that enqueued an item can retain a reference to it. With it the producer can query
whether the item is still on the queue, has been completed, or has failed because the queue is gone.
If a failure has occurred, the producer can enqueue the data again, but of course its position in the
queue is lost.

## Layout

- `src/node_chain.rs`: the linked nodes of a queue. A push takes two steps, between which others may
  act, and a consumer cannot get past a node whose push has not finished.
- `src/mpsc_queue.rs`: `MpscQueue`, from which values are popped.
- `src/dfqueue.rs`: `DFQueue` with its producers and its consumer.
- `src/item.rs`: the items of a queue and the references to them.
- `src/state.rs`: the state that the contracts speak of, and how each operation changes it.
- `src/laws.rs`: what holds however the steps of producers and consumer interleave: first in, first
  out; at most one consumer, which completes the items in that order and each once, and finds the
  first that it has not completed; nothing leaves the queue before it is completed; nothing fails
  while the queue is there; no node is freed that a push still has to write to.
- `src/slab.rs`: the pool that nodes and items live in.
- `app/`: handles that can be used from several threads, and benchmarks.

Operations take the state that producers and consumer share, `DFQueueShared`, as an argument, and
their contracts say exactly how it changes. Producers, the consumer and references to items let go by
their `release` methods; the handles in `app/` do so when they are dropped.
