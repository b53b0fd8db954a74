//! DFQ is a decoupled, fault-tolerant, multi-producer single-consumer queue.
//!
//! DFQ accepts immutable data items only and does not allow the consumer
//! to immediately remove (pop) or modify the items in the queue.
//! In a transactional fashion, the consumer must call [`PeekedData::mark_completed`]
//! on a queued item to indicate that that item can be safely removed from the queue.
//! Because the producer that enqueued that item retains a reference to that item,
//! it is then safe for any entity (any producer or the consumer) to remove it from the queue.
//! Currently, the consumer simply removes completed items from the queue on the next occasion
//! of a consumer method like `peek()`.
//!
//! Each producer retains ownership of the data items it queues, and only those items.
//! Thus, a producer is able to query the status of that item's handling by the consumer,
//! to see if it is still on the queue or if something has gone wrong and it has failed.
//! If a failure has occurred, that producer can enqueue that item again,
//! but of course its position in the queue will be lost.
//!
//! What the producers and the consumer of a queue share is a value of its own,
//! [`DFQueueShared`], which is handed to each of their operations. Contracts ask that it is the one
//! of the queue that the producer, consumer or item belongs to ([`QueueTag`]).
//! A producer, consumer or item that is no longer needed is given to its `release` method, which
//! lets go of the queue or of the item; to merely drop it does not.
//! [`laws`] states what holds however the steps interleave.

mod dfqueue;
mod item;
pub mod laws;
mod mpsc_queue;
mod node_chain;
mod slab;
mod state;

pub use dfqueue::{
    DFQueue, DFQueueConsumer, DFQueueProducer, DFQueueShared, PeekResult, PeekStep, PendingEnqueue,
};
pub use item::{ItemView, PeekedData, QueuedData};
pub use mpsc_queue::{MpscQueue, PopResult};
pub use node_chain::{Chain, Link, PendingPush, QueueTag};
pub use state::DFState;
