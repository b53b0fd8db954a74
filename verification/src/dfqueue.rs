//! The queue from which items are removed only after they have been completed.

use core::marker::PhantomData;
use vstd::prelude::*;

use crate::item::{Items, PeekedData, QueuedData};
use crate::laws::{law_enqueue_appends, law_opened_wf};
use crate::node_chain::{Chain, Link, NodeChain, PendingPush, QueueTag};
use crate::state::{
    dequeued, lemma_begun_wf, lemma_completed_wf, lemma_disowned_wf, lemma_finished_wf,
    lemma_front_peeked_wf, lemma_front_removed_wf, lemma_queue_kept, lemma_released_wf,
    lemma_unpeeked_wf, DFState,
};

verus! {

/// A result of the `peek_result` function.
pub enum PeekResult<T> {
    /// Some data has been successfully peeked
    Data(PeekedData<T>),
    /// The queue is empty
    Empty,
    /// The queue is in an inconsistent state. Peeking data should succeed, but
    /// some pushers have yet to make enough progress in order allow a peek to
    /// succeed. It is recommended that a peek() occur "in the near future" in
    /// order to see if the sender has made progress or not.
    Inconsistent,
}

/// A result of the `peek_step` function.
pub enum PeekStep<T> {
    /// A completed item has been removed from the queue
    Removed,
    /// Some data has been successfully peeked
    Data(PeekedData<T>),
    /// The tail of the queue points to no node
    Unreachable,
}

/// The actual queue, an opaque type that cannot be used directly.
/// The user must use `DFQueueConsumer` and `DFQueueProducer`.
#[verifier::reject_recursive_types(T)]
pub struct DFQueue<T> {
    /// the actual inner queue
    queue: NodeChain<QueuedData<T>>,
    /// whether this queue has a consumer (it can only have one!!)
    has_consumer: bool,
}

impl<T> View for DFQueue<T> {
    type V = Chain<QueuedData<T>>;

    closed spec fn view(&self) -> Chain<QueuedData<T>> {
        self.queue@
    }
}

impl<T> DFQueue<T> {
    /// The nodes of the queue form a chain, and nothing has been put on the queue yet.
    pub closed spec fn wf(&self) -> bool {
        &&& self.queue.wf()
        &&& self.queue@.links.len() == 0
    }

    /// Whether this queue has a consumer.
    pub closed spec fn has_consumer(&self) -> bool {
        self.has_consumer
    }

    /// Creates a new DFQueue.
    ///
    /// This object cannot be used directly, you must obtain a producer or consumer to the queue
    /// using the functions `into_consumer()` or `into_producer()`.
    pub fn new() -> (queue: DFQueue<T>)
        ensures
            queue.wf(),
            queue@.links == Seq::<Link<QueuedData<T>>>::empty(),
            !queue.has_consumer(),
    {
        DFQueue { queue: NodeChain::new(), has_consumer: false }
    }

    /// Consumes the DFQueue and returns the one and only consumer for this DFQueue, together with
    /// what it will share with the producers.
    /// It consumes the DFQueue instance because there is only one consumer allowed per DFQueue.
    pub fn into_consumer(self) -> (r: (DFQueueConsumer<T>, DFQueueShared<T>))
        requires
            self.wf(),
            !self.has_consumer(),
        ensures
            r.1.wf(),
            r.0.tag() == self@.tag,
            r.1@ == DFState::opened(self@, true),
    {
        let tag = self.queue.tag();
        let shared = DFQueueShared::new(self.queue, true);
        (DFQueueConsumer { tag, queue: PhantomData }, shared)
    }

    /// Consumes the DFQueue and returns a producer, together with what it will share with the
    /// other producers and the consumer.
    /// To obtain another DFQueueProducer for this DFQueue, call `obtain_producer()` on the returned DFQueueProducer.
    /// DFQueueProducer does not implement the standard Clone trait, to avoid accidentally cloning it implicity.
    pub fn into_producer(self) -> (r: (DFQueueProducer<T>, DFQueueShared<T>))
        requires
            self.wf(),
        ensures
            r.1.wf(),
            r.0.tag() == self@.tag,
            r.1@ == DFState::opened(self@, self.has_consumer()),
    {
        let tag = self.queue.tag();
        let shared = DFQueueShared::new(self.queue, self.has_consumer);
        (DFQueueProducer { tag, queue: PhantomData }, shared)
    }
}

/// What the producers and the consumer of a queue share: the queue and its items.
///
/// Each of them acts on it in turn. An operation of theirs that takes more than one step can be
/// done step by step, so that others act between its steps.
#[verifier::reject_recursive_types(T)]
pub struct DFQueueShared<T> {
    /// which queue it is
    tag: QueueTag,
    /// the inner queue, until the last producer or consumer lets go of it
    queue: Option<NodeChain<QueuedData<T>>>,
    /// whether this queue has a consumer
    has_consumer: bool,
    /// the number of producers and consumers
    handles: usize,
    /// the items that are on the queue or that a producer or consumer has a reference to
    items: Items<T>,
}

impl<T> View for DFQueueShared<T> {
    type V = DFState<T>;

    closed spec fn view(&self) -> DFState<T> {
        DFState {
            tag: self.tag,
            queue: match self.queue {
                Some(chain) => Some(chain@),
                None => None,
            },
            has_consumer: self.has_consumer,
            handles: self.handles as nat,
            items: self.items@,
        }
    }
}

impl<T> DFQueueShared<T> {
    /// The data structures stand for a state, and it is well formed.
    pub open spec fn wf(&self) -> bool {
        &&& self.consistent()
        &&& self@.wf()
    }

    /// The data structures stand for a state.
    pub closed spec fn consistent(&self) -> bool {
        &&& self.queue matches Some(chain) ==> chain.wf()
        &&& self.items.wf()
    }

    /// A queue that is held on to by one producer or consumer.
    fn new(queue: NodeChain<QueuedData<T>>, has_consumer: bool) -> (shared: Self)
        requires
            queue.wf(),
            queue@.links.len() == 0,
        ensures
            shared.wf(),
            shared@ == DFState::opened(queue@, has_consumer),
    {
        proof {
            law_opened_wf(queue@, has_consumer);
        }
        let tag = queue.tag();
        DFQueueShared { tag, queue: Some(queue), has_consumer, handles: 1, items: Items::new() }
    }

    /// One more producer.
    fn share(&mut self)
        requires
            old(self).wf(),
            0 < old(self)@.handles < usize::MAX,
        ensures
            final(self).wf(),
            final(self)@ == old(self)@.shared(),
    {
        self.handles = self.handles + 1;
        proof {
            lemma_queue_kept(old(self)@, self@);
        }
    }

    /// A producer or consumer lets go of the queue.
    fn release(&mut self)
        requires
            old(self).wf(),
            old(self)@.handles > 0,
        ensures
            final(self).wf(),
            final(self)@ == old(self)@.released(),
    {
        proof {
            lemma_released_wf(self@);
        }
        if self.handles == 1 {
            self.take_down();
        }
        self.handles = self.handles - 1;
    }

    /// Takes the queue down: it lets go of the items that can be reached from its tail.
    fn take_down(&mut self)
        requires
            old(self).consistent(),
            old(self)@.queue is Some,
            old(self)@.queue_wf(),
        ensures
            final(self).consistent(),
            final(self)@ == (DFState {
                queue: None,
                items: dequeued(
                    old(self)@.items,
                    old(self)@.first_ids(old(self)@.chain().reach() as int),
                ),
                ..old(self)@
            }),
    {
        let ghost before = self@;
        let mut chain = self.queue.take().unwrap();
        let ghost mut gone: int = 0;
        assert(dequeued(before.items, before.first_ids(0)) =~= before.items);
        while chain.front().is_some()
            invariant
                chain.wf(),
                self.items.wf(),
                self.queue is None,
                before.queue_wf(),
                self@ == (DFState { queue: None, items: self.items@, ..before }),
                0 <= gone <= before.len(),
                chain@.links == before.chain().links.skip(gone),
                gone + chain@.reach() == before.chain().reach(),
                self.items@ == dequeued(before.items, before.first_ids(gone)),
            decreases chain@.links.len(),
        {
            let ghost id = before.id_at(gone);
            proof {
                assert(chain@.links[0] == before.chain().links[gone]);
                assert(before.items[id].queued);
                assert(!before.first_ids(gone).contains(id));
            }
            let queued = chain.advance();
            queued.release_queued(&mut self.items);
            proof {
                assert forall|k: usize| #[trigger]
                    before.first_ids(gone + 1).contains(k) <==> before.first_ids(gone).contains(k)
                        || k == id by {
                    if before.first_ids(gone).contains(k) {
                        let i = choose|i: int| 0 <= i < gone && #[trigger] before.id_at(i) == k;
                        assert(before.id_at(i) == k && 0 <= i < gone + 1);
                    }
                }
                assert(self.items@ =~= dequeued(before.items, before.first_ids(gone + 1)));
                gone = gone + 1;
            }
        }
    }
}

/// A consumer that can process (peek into) elements in a DFQueue, but not actually remove them.
///
/// This does not provide a `pop()` method like most queues,
/// because we do not permit the consumer to directly remove items from the queue.
/// Instead, we require that an element can only be removed from the queue once it has been marked complete,
/// providing a sort of transactional behavior.
///
/// The consumer counts until it is given to [`DFQueueConsumer::release`]; one that is merely dropped
/// holds on to the queue for ever.
#[must_use]
#[derive(Debug)]
#[verifier::reject_recursive_types(T)]
pub struct DFQueueConsumer<T> {
    /// the queue that it belongs to
    tag: QueueTag,
    queue: PhantomData<T>,
}

impl<T> DFQueueConsumer<T> {
    /// The queue that it belongs to.
    pub closed spec fn tag(self) -> QueueTag {
        self.tag
    }

    /// Returns a new DFQueueProducer for this consumer's queue, since there can be multiple producers.
    pub fn obtain_producer(&self, shared: &mut DFQueueShared<T>) -> (producer: DFQueueProducer<T>)
        requires
            old(shared).wf(),
            self.tag() == old(shared)@.tag,
            0 < old(shared)@.handles < usize::MAX,
        ensures
            final(shared).wf(),
            producer.tag() == self.tag(),
            final(shared)@ == old(shared)@.shared(),
    {
        shared.share();
        DFQueueProducer { tag: self.tag, queue: PhantomData }
    }

    /// Returns the next non-completed element in the queue without actually removing it from the queue,
    /// or `None` if the queue is empty or in a temporarily-inconsistent state.
    /// Completed elements in front of it are removed.
    pub fn peek(&self, shared: &mut DFQueueShared<T>) -> (peeked: Option<PeekedData<T>>)
        requires
            old(shared).wf(),
            self.tag() == old(shared)@.tag,
            old(shared)@.handles > 0,
            old(shared)@.has_consumer,
            old(shared)@.cleaned().chain().reachable() ==> old(shared)@.cleaned().front_refs()
                < usize::MAX,
        ensures
            final(shared).wf(),
            peeked is Some <==> old(shared)@.cleaned().chain().reachable(),
            peeked matches Some(p) ==> {
                &&& p.id() == old(shared)@.cleaned().id_at(0)
                &&& p.data() == old(shared)@.cleaned().chain().links[0].value.data()
                &&& final(shared)@ == old(shared)@.cleaned().front_peeked()
                &&& final(shared)@.lends(p)
            },
            peeked is None ==> final(shared)@ == old(shared)@.cleaned(),
    {
        let peek_result = self.peek_result(shared);
        match peek_result {
            PeekResult::Data(data) => Some(data),
            PeekResult::Empty | PeekResult::Inconsistent => None,
        }
    }

    /// Peeks at this queue and returns a reference to the next non-completed item.
    ///
    /// It is possible for this queue to be in an inconsistent state
    /// where many pushes have succeeded and completely finished,
    /// but a peek cannot return some queued data. This inconsistent state happens
    /// when a pusher is pre-empted at an inopportune moment before completing its push.
    ///
    /// An Inconsistent state means that this queue does indeed have data, but
    /// it does not currently have access to it at this time.
    /// If Inconsistent is returned, try to peek again after a short wait.
    pub fn peek_result(&self, shared: &mut DFQueueShared<T>) -> (result: PeekResult<T>)
        requires
            old(shared).wf(),
            self.tag() == old(shared)@.tag,
            old(shared)@.handles > 0,
            old(shared)@.has_consumer,
            old(shared)@.cleaned().chain().reachable() ==> old(shared)@.cleaned().front_refs()
                < usize::MAX,
        ensures
            final(shared).wf(),
            match result {
                PeekResult::Data(p) => {
                    &&& old(shared)@.cleaned().chain().reachable()
                    &&& p.id() == old(shared)@.cleaned().id_at(0)
                    &&& p.data() == old(shared)@.cleaned().chain().links[0].value.data()
                    &&& final(shared)@ == old(shared)@.cleaned().front_peeked()
                    &&& final(shared)@.lends(p)
                },
                PeekResult::Empty => {
                    &&& old(shared)@.cleaned().len() == 0
                    &&& final(shared)@ == old(shared)@.cleaned()
                },
                PeekResult::Inconsistent => {
                    &&& old(shared)@.cleaned().len() > 0
                    &&& !old(shared)@.cleaned().chain().links[0].linked
                    &&& final(shared)@ == old(shared)@.cleaned()
                },
            },
    {
        let ghost before = shared@;
        loop
            invariant
                shared.wf(),
                self.tag() == shared@.tag,
                shared@.handles > 0,
                shared@.has_consumer,
                before == old(shared)@,
                before.cleaned().chain().reachable() ==> before.cleaned().front_refs()
                    < usize::MAX,
                shared@.cleaned() == before.cleaned(),
            ensures
                shared@ == before.cleaned(),
                !shared@.chain().reachable(),
            decreases shared@.len(),
        {
            match self.peek_step(shared) {
                PeekStep::Removed => {},
                PeekStep::Data(data) => {
                    return PeekResult::Data(data);
                },
                PeekStep::Unreachable => {
                    break;
                },
            }
        }
        self.peek_end(shared)
    }

    /// One round of a peek: looks at the node that the tail points to, and removes it if its item
    /// has been completed.
    pub fn peek_step(&self, shared: &mut DFQueueShared<T>) -> (step: PeekStep<T>)
        requires
            old(shared).wf(),
            self.tag() == old(shared)@.tag,
            old(shared)@.handles > 0,
            old(shared)@.has_consumer,
            old(shared)@.chain().reachable() && !old(shared)@.front_completed() ==> old(
                shared,
            )@.front_refs() < usize::MAX,
        ensures
            final(shared).wf(),
            match step {
                PeekStep::Removed => {
                    &&& old(shared)@.front_completed()
                    &&& final(shared)@ == old(shared)@.front_removed()
                },
                PeekStep::Data(p) => {
                    &&& old(shared)@.chain().reachable()
                    &&& !old(shared)@.front_completed()
                    &&& p.id() == old(shared)@.id_at(0)
                    &&& p.data() == old(shared)@.chain().links[0].value.data()
                    &&& final(shared)@ == old(shared)@.front_peeked()
                    &&& final(shared)@.lends(p)
                },
                PeekStep::Unreachable => {
                    &&& !old(shared)@.chain().reachable()
                    &&& final(shared)@ == old(shared)@
                },
            },
    {
        let chain = shared.queue.as_mut().unwrap();
        match chain.front() {
            None => PeekStep::Unreachable,
            Some(next) => {
                proof {
                    assert(old(shared)@.id_at(0) == next.id());
                }
                if next.completed_in(&shared.items) {
                    proof {
                        lemma_front_removed_wf(old(shared)@);
                    }
                    // the item may go: the stub moves on to its node
                    let removed = chain.advance();
                    removed.release_queued(&mut shared.items);
                    proof {
                        assert(shared.items@ =~= old(shared)@.front_removed().items);
                    }
                    PeekStep::Removed
                } else {
                    proof {
                        lemma_front_peeked_wf(old(shared)@);
                    }
                    PeekStep::Data(next.as_peeked(&mut shared.items))
                }
            },
        }
    }

    /// The end of a peek that found no node to look at: whether the tail is also the head, so that
    /// the queue is empty.
    pub fn peek_end(&self, shared: &DFQueueShared<T>) -> (result: PeekResult<T>)
        requires
            shared.wf(),
            self.tag() == shared@.tag,
            shared@.handles > 0,
            shared@.has_consumer,
        ensures
            match result {
                PeekResult::Data(_) => false,
                PeekResult::Empty => shared@.len() == 0,
                PeekResult::Inconsistent => shared@.len() > 0,
            },
    {
        if shared.queue.as_ref().unwrap().at_head() {
            PeekResult::Empty
        } else {
            PeekResult::Inconsistent
        }
    }

    /// Lets go of the queue.
    pub fn release(self, shared: &mut DFQueueShared<T>)
        requires
            old(shared).wf(),
            self.tag() == old(shared)@.tag,
            old(shared)@.handles > 0,
        ensures
            final(shared).wf(),
            final(shared)@ == old(shared)@.released(),
    {
        shared.release();
    }
}

/// A push of an item that has done its first step.
///
/// It is given back to a producer of its queue to do the second. The consumer cannot get past an
/// item whose push is dropped instead.
#[must_use]
pub struct PendingEnqueue<T> {
    push: PendingPush,
    queued: QueuedData<T>,
}

impl<T> PendingEnqueue<T> {
    /// The push of the node.
    pub closed spec fn push(self) -> PendingPush {
        self.push
    }

    /// The producer's reference to the item.
    pub closed spec fn queued(self) -> QueuedData<T> {
        self.queued
    }
}

/// A producer that can enqueue elements into a DFQueue.
///
/// The producer counts until it is given to [`DFQueueProducer::release`]; one that is merely dropped
/// holds on to the queue for ever.
#[must_use]
#[derive(Debug)]
#[verifier::reject_recursive_types(T)]
pub struct DFQueueProducer<T> {
    /// the queue that it belongs to
    tag: QueueTag,
    queue: PhantomData<T>,
}

impl<T> DFQueueProducer<T> {
    /// The queue that it belongs to.
    pub closed spec fn tag(self) -> QueueTag {
        self.tag
    }

    /// Call this to obtain another DFQueueProducer.
    /// DFQueueProducer does not implement the standard Clone trait, to avoid accidentally cloning it implicity.
    pub fn obtain_producer(&self, shared: &mut DFQueueShared<T>) -> (producer: DFQueueProducer<T>)
        requires
            old(shared).wf(),
            self.tag() == old(shared)@.tag,
            0 < old(shared)@.handles < usize::MAX,
        ensures
            final(shared).wf(),
            producer.tag() == self.tag(),
            final(shared)@ == old(shared)@.shared(),
    {
        shared.share();
        DFQueueProducer { tag: self.tag, queue: PhantomData }
    }

    /// Returns a DFQueueConsumer for this queue, if it hasn't yet been obtained
    /// (either via this function or via `DFQueue::into_consumer()`).
    /// To ensure there is only a single DFQueueConsumer, it will return `None` if there is already a `DFQueueConsumer`.
    pub fn get_consumer(&self, shared: &mut DFQueueShared<T>) -> (consumer: Option<
        DFQueueConsumer<T>,
    >)
        requires
            old(shared).wf(),
            self.tag() == old(shared)@.tag,
            0 < old(shared)@.handles < usize::MAX,
        ensures
            final(shared).wf(),
            consumer is Some <==> !old(shared)@.has_consumer,
            consumer matches Some(c) ==> c.tag() == self.tag() && final(shared)@ == old(
                shared,
            )@.consumed(),
            consumer is None ==> final(shared)@ == old(shared)@,
    {
        match shared.has_consumer {
            true => None,
            false => {
                shared.has_consumer = true;
                shared.handles = shared.handles + 1;
                proof {
                    lemma_queue_kept(old(shared)@, shared@);
                }
                Some(DFQueueConsumer { tag: self.tag, queue: PhantomData })
            },
        }
    }

    /// Pushes the given `data` onto the queue.
    ///
    /// # Returns
    /// Returns a QueuedData instance, an Arc-like reference to the given `data` on the queue.
    /// This ensures that the producer can still retain the given `data` if the queue experiences a failure.
    pub fn enqueue(&self, shared: &mut DFQueueShared<T>, data: T) -> (queued: QueuedData<T>)
        requires
            old(shared).wf(),
            self.tag() == old(shared)@.tag,
            old(shared)@.handles > 0,
        ensures
            final(shared).wf(),
            queued.data() == data,
            !old(shared)@.items.dom().contains(queued.id()),
            !old(shared)@.chain().has_node(final(shared)@.chain().last_node()),
            final(shared)@ == old(shared)@.enqueued(final(shared)@.chain().last_node(), queued),
            final(shared)@.owns(queued),
    {
        let pending = self.begin_enqueue(shared, data);
        let queued = self.finish_enqueue(shared, pending);
        proof {
            law_enqueue_appends(old(shared)@, pending.push().node(), queued);
        }
        queued
    }

    /// The first step of a push, which fixes the place of the item on the queue.
    pub fn begin_enqueue(&self, shared: &mut DFQueueShared<T>, data: T) -> (pending: PendingEnqueue<
        T,
    >)
        requires
            old(shared).wf(),
            self.tag() == old(shared)@.tag,
            old(shared)@.handles > 0,
        ensures
            final(shared).wf(),
            pending.queued().data() == data,
            !old(shared)@.items.dom().contains(pending.queued().id()),
            pending.push().prev() == old(shared)@.chain().last_node(),
            !old(shared)@.chain().has_node(pending.push().node()),
            final(shared)@ == old(shared)@.begun(pending.push().node(), pending.queued()),
            final(shared)@.awaits(pending.push()),
            final(shared)@.owns(pending.queued()),
    {
        let queued = QueuedData::new(shared.tag, &mut shared.items, data);
        let on_queue = queued.clone(&mut shared.items);
        let push = shared.queue.as_mut().unwrap().swap_head(on_queue);
        proof {
            lemma_begun_wf(old(shared)@, push.node(), queued);
            assert(shared.items@ =~= old(shared)@.begun(push.node(), queued).items);
        }
        PendingEnqueue { push, queued }
    }

    /// The second step of a push, after which the consumer can get past the node before.
    pub fn finish_enqueue(
        &self,
        shared: &mut DFQueueShared<T>,
        pending: PendingEnqueue<T>,
    ) -> (queued: QueuedData<T>)
        requires
            old(shared).wf(),
            self.tag() == old(shared)@.tag,
            old(shared)@.awaits(pending.push()),
            old(shared)@.owns(pending.queued()),
        ensures
            final(shared).wf(),
            queued == pending.queued(),
            final(shared)@ == old(shared)@.finished(pending.push().node()),
            final(shared)@.owns(queued),
    {
        proof {
            lemma_finished_wf(shared@, pending.push().node());
        }
        shared.queue.as_mut().unwrap().link(pending.push);
        pending.queued
    }

    /// Lets go of the queue.
    pub fn release(self, shared: &mut DFQueueShared<T>)
        requires
            old(shared).wf(),
            self.tag() == old(shared)@.tag,
            old(shared)@.handles > 0,
        ensures
            final(shared).wf(),
            final(shared)@ == old(shared)@.released(),
    {
        shared.release();
    }
}

impl<T> QueuedData<T> {
    /// Whether this item has been completed (handled) by the DFQueueConsumer.
    /// If an item is completed, it's okay to remove it from the queue (and it will be removed).
    pub fn is_completed(&self, shared: &DFQueueShared<T>) -> (b: bool)
        requires
            shared.wf(),
            shared@.owns(*self),
        ensures
            b == shared@.items[self.id()].completed,
    {
        self.completed_in(&shared.items)
    }

    /// Returns true if this data is still on the queue
    ///
    /// It is until a peek removes it, after it has been completed, or until the queue is taken down
    /// and lets go of it. Whether the consumer still holds a reference to the data makes no
    /// difference.
    pub fn is_enqueued(&self, shared: &DFQueueShared<T>) -> (b: bool)
        requires
            shared.wf(),
            shared@.owns(*self),
        ensures
            b == shared@.items[self.id()].queued,
    {
        self.queued_in(&shared.items)
    }

    /// The logic here is as follows: if the item on the queue has only one reference, and has not been completed,
    /// that means it is no longer on the queue (the consumer crashed or failed).
    /// Again, the producer invoking this function holds one reference, and if the data is indeed enqueued,
    /// that constitutes another reference.
    /// If the reference held in the queue isn't there (only one total), and the item hasn't been completed,
    /// then something went wrong because it's not complete and not on the queue anymore.
    ///
    /// An item that the consumer still refers to has not failed, even if the queue is gone: the
    /// consumer may yet complete it.
    pub fn has_failed(&self, shared: &DFQueueShared<T>) -> (b: bool)
        requires
            shared.wf(),
            shared@.owns(*self),
        ensures
            b == (!shared@.items[self.id()].completed && shared@.items[self.id()].refs() == 1),
    {
        // an item that has been completed could not have possibly failed!
        (!self.is_completed(shared)) && (self.strong_count_in(&shared.items) == 1)
    }

    /// Lets go of the item.
    pub fn release(self, shared: &mut DFQueueShared<T>)
        requires
            old(shared).wf(),
            old(shared)@.owns(self),
        ensures
            final(shared).wf(),
            final(shared)@ == old(shared)@.disowned(self.id()),
    {
        proof {
            lemma_disowned_wf(shared@, self.id());
        }
        self.release_owned(&mut shared.items);
    }
}

impl<T> PeekedData<T> {
    /// Marks the item as completed, so that it can be removed from the queue.
    pub fn mark_completed(&self, shared: &mut DFQueueShared<T>)
        requires
            old(shared).wf(),
            old(shared)@.lends(*self),
        ensures
            final(shared).wf(),
            final(shared)@ == old(shared)@.completed(self.id()),
    {
        proof {
            lemma_completed_wf(shared@, self.id());
        }
        self.complete_in(&mut shared.items);
    }

    /// Lets go of the item.
    pub fn release(self, shared: &mut DFQueueShared<T>)
        requires
            old(shared).wf(),
            old(shared)@.lends(self),
        ensures
            final(shared).wf(),
            final(shared)@ == old(shared)@.unpeeked(self.id()),
    {
        proof {
            lemma_unpeeked_wf(shared@, self.id());
        }
        self.release_peeked(&mut shared.items);
    }
}

} // verus!
