//! The state that the producers and the consumer of one queue share, and how it changes.

use vstd::prelude::*;

use crate::item::{updated, ItemView, PeekedData, QueuedData};
use crate::node_chain::{Chain, PendingPush, QueueTag};

verus! {

/// The items after the queue has let go of those in `gone`.
pub open spec fn dequeued<T>(items: Map<usize, ItemView<T>>, gone: Set<usize>) -> Map<
    usize,
    ItemView<T>,
> {
    Map::new(
        |id: usize|
            items.dom().contains(id) && !(gone.contains(id) && (ItemView {
                queued: false,
                ..items[id]
            }).refs() == 0),
        |id: usize|
            if gone.contains(id) {
                ItemView { queued: false, ..items[id] }
            } else {
                items[id]
            },
    )
}

/// The state of a queue with its items.
#[verifier::ext_equal]
pub struct DFState<T> {
    /// Which queue it is.
    pub tag: QueueTag,
    /// The chain of the references that the queue holds; there is none once the queue is gone.
    pub queue: Option<Chain<QueuedData<T>>>,
    /// Whether a consumer has been handed out.
    pub has_consumer: bool,
    /// The number of producers and consumers that hold on to the queue.
    pub handles: nat,
    /// The items that there are references to.
    pub items: Map<usize, ItemView<T>>,
}

impl<T> DFState<T> {
    /// The chain of a queue that is not gone.
    pub open spec fn chain(self) -> Chain<QueuedData<T>> {
        self.queue->0
    }

    /// The number of items on the queue, whether the consumer can reach them or not.
    pub open spec fn len(self) -> nat {
        self.chain().links.len()
    }

    /// The identity of the `i`-th item on the queue.
    pub open spec fn id_at(self, i: int) -> usize {
        self.chain().links[i].value.id()
    }

    /// Whether the queue holds a reference to the item.
    pub open spec fn on_queue(self, id: usize) -> bool {
        exists|i: int| 0 <= i < self.len() && #[trigger] self.id_at(i) == id
    }

    /// What holds of a queue that is not gone.
    pub open spec fn queue_wf(self) -> bool {
        &&& self.chain().distinct()
        // the items on the queue are items of this queue
        &&& forall|i: int|
            0 <= i < self.len() ==> (#[trigger] self.chain().links[i]).value.tag() == self.tag
        // they are distinct
        &&& forall|i: int, j: int|
            #![trigger self.id_at(i), self.id_at(j)]
            0 <= i < j < self.len() ==> self.id_at(i) != self.id_at(j)
        // every reference on the queue is to an item that knows of it
        &&& forall|i: int|
            #![trigger self.id_at(i)]
            0 <= i < self.len() ==> {
                &&& self.items.dom().contains(self.id_at(i))
                &&& self.items[self.id_at(i)].queued
                &&& self.items[self.id_at(i)].data == self.chain().links[i].value.data()
            }
        &&& forall|id: usize|
            #![trigger self.items[id]]
            self.items.dom().contains(id) ==> {
                // an item is on the queue exactly when it says so
                &&& self.items[id].queued ==> self.on_queue(id)
                // an item that is off the queue has been completed
                &&& !self.items[id].queued ==> self.items[id].completed
            }
    }

    /// What holds of every state.
    pub open spec fn wf(self) -> bool {
        &&& self.queue is Some <==> self.handles > 0
        &&& forall|id: usize| #[trigger]
            self.items.dom().contains(id) ==> self.items[id].refs() > 0
        &&& self.queue is Some ==> self.chain().tag == self.tag && self.queue_wf()
    }

    /// The consumer works its way from front to back: an item on the queue that it holds a
    /// reference to, or that it has completed, is the first one, and can be reached.
    pub open spec fn orderly(self) -> bool {
        self.queue is Some ==> forall|id: usize|
            #![trigger self.items[id]]
            self.items.dom().contains(id) && self.items[id].queued && (self.items[id].completed
                || self.items[id].peeks > 0) ==> self.chain().reachable() && self.id_at(0) == id
    }

    /// Whether `queued` is a producer's reference to an item of this queue.
    pub open spec fn owns(self, queued: QueuedData<T>) -> bool {
        &&& queued.tag() == self.tag
        &&& self.items.dom().contains(queued.id())
        &&& self.items[queued.id()].owned
        &&& self.items[queued.id()].data == queued.data()
    }

    /// Whether `peeked` is a consumer's reference to an item of this queue.
    pub open spec fn lends(self, peeked: PeekedData<T>) -> bool {
        &&& peeked.tag() == self.tag
        &&& self.items.dom().contains(peeked.id())
        &&& self.items[peeked.id()].peeks > 0
        &&& self.items[peeked.id()].data == peeked.data()
    }

    /// Whether `push` is a push onto this queue whose second step is still to come.
    pub open spec fn awaits(self, push: PendingPush) -> bool {
        self.queue is Some && self.chain().awaits(push)
    }

    /// The state of a queue that one producer or consumer holds on to and that has no items.
    pub open spec fn opened(queue: Chain<QueuedData<T>>, has_consumer: bool) -> DFState<T> {
        DFState {
            tag: queue.tag,
            queue: Some(queue),
            has_consumer,
            handles: 1,
            items: Map::empty(),
        }
    }

    /// One more producer.
    pub open spec fn shared(self) -> DFState<T> {
        DFState { handles: self.handles + 1, ..self }
    }

    /// The consumer has been handed out.
    pub open spec fn consumed(self) -> DFState<T> {
        DFState { has_consumer: true, handles: self.handles + 1, ..self }
    }

    /// A new item has been put at the end of the queue, in a node that the one before does not
    /// point to yet.
    pub open spec fn begun(self, node: usize, queued: QueuedData<T>) -> DFState<T> {
        DFState {
            queue: Some(self.chain().pushed(node, queued)),
            items: self.items.insert(
                queued.id(),
                ItemView {
                    data: queued.data(),
                    completed: false,
                    owned: true,
                    queued: true,
                    peeks: 0,
                },
            ),
            ..self
        }
    }

    /// The push that put in `node` has finished.
    pub open spec fn finished(self, node: usize) -> DFState<T> {
        DFState { queue: Some(self.chain().linked_to(node)), ..self }
    }

    /// A new item has been put at the end of the queue.
    pub open spec fn enqueued(self, node: usize, queued: QueuedData<T>) -> DFState<T> {
        DFState {
            queue: Some(self.chain().appended(node, queued)),
            items: self.begun(node, queued).items,
            ..self
        }
    }

    /// Whether the consumer can reach the first item and it has been completed.
    pub open spec fn front_completed(self) -> bool {
        self.chain().reachable() && self.items[self.id_at(0)].completed
    }

    /// The number of references to the first item.
    pub open spec fn front_refs(self) -> nat {
        self.items[self.id_at(0)].refs()
    }

    /// The first item has been taken off the queue.
    pub open spec fn front_removed(self) -> DFState<T> {
        DFState {
            queue: Some(self.chain().advanced()),
            items: dequeued(self.items, Set::empty().insert(self.id_at(0))),
            ..self
        }
    }

    /// The completed items in front have been taken off the queue, up to the first that has not
    /// been completed or that the consumer cannot reach.
    pub open spec fn cleaned(self) -> DFState<T>
        decreases self.len(),
    {
        if self.front_completed() {
            let rest = self.front_removed();
            if rest.front_completed() {
                rest.cleaned()
            } else {
                rest
            }
        } else {
            self
        }
    }

    /// The consumer has got a reference to the first item.
    pub open spec fn front_peeked(self) -> DFState<T> {
        let id = self.id_at(0);
        DFState {
            items: self.items.insert(
                id,
                ItemView { peeks: self.items[id].peeks + 1, ..self.items[id] },
            ),
            ..self
        }
    }

    /// The item has been marked as completed.
    pub open spec fn completed(self, id: usize) -> DFState<T> {
        DFState {
            items: self.items.insert(id, ItemView { completed: true, ..self.items[id] }),
            ..self
        }
    }

    /// The producer has let go of the item.
    pub open spec fn disowned(self, id: usize) -> DFState<T> {
        DFState {
            items: updated(self.items, id, ItemView { owned: false, ..self.items[id] }),
            ..self
        }
    }

    /// The consumer has let go of one of its references to the item.
    pub open spec fn unpeeked(self, id: usize) -> DFState<T> {
        DFState {
            items: updated(
                self.items,
                id,
                ItemView { peeks: (self.items[id].peeks - 1) as nat, ..self.items[id] },
            ),
            ..self
        }
    }

    /// The identities of the first `n` items on the queue.
    pub open spec fn first_ids(self, n: int) -> Set<usize> {
        Set::new(|id: usize| exists|i: int| 0 <= i < n && #[trigger] self.id_at(i) == id)
    }

    /// A producer or consumer has let go of the queue. With the last one the queue is taken down,
    /// and lets go of the items that can be reached from its tail.
    pub open spec fn released(self) -> DFState<T> {
        if self.handles == 1 {
            DFState {
                queue: None,
                handles: 0,
                items: dequeued(self.items, self.first_ids(self.chain().reach() as int)),
                ..self
            }
        } else {
            DFState { handles: (self.handles - 1) as nat, ..self }
        }
    }
}

/// Where the items on the queue in `s`, but for the first `gone`, are those in `t` from the front
/// on, they are on the queue in `t`.
proof fn lemma_stay_on_queue<T>(s: DFState<T>, t: DFState<T>, gone: int)
    requires
        gone >= 0,
        forall|i: int|
            gone <= i < s.len() ==> i - gone < t.len() && t.id_at(i - gone) == #[trigger] s.id_at(i),
    ensures
        forall|id: usize| #[trigger]
            s.on_queue(id) && !s.first_ids(gone).contains(id) ==> t.on_queue(id),
{
    assert forall|id: usize| #[trigger]
        s.on_queue(id) && !s.first_ids(gone).contains(id) implies t.on_queue(id) by {
        let i = choose|i: int| 0 <= i < s.len() && #[trigger] s.id_at(i) == id;
        assert(t.id_at(i - gone) == id);
    }
}

/// A push that begins keeps the state well formed.
pub proof fn lemma_begun_wf<T>(s: DFState<T>, node: usize, queued: QueuedData<T>)
    requires
        s.wf(),
        s.queue is Some,
        !s.chain().has_node(node),
        queued.tag() == s.tag,
        !s.items.dom().contains(queued.id()),
    ensures
        s.begun(node, queued).wf(),
{
    let t = s.begun(node, queued);
    assert forall|i: int|
        0 <= i <= s.len() implies #[trigger] t.chain().before(i) == s.chain().before(i) by {}
    assert forall|i: int| 0 <= i < s.len() implies #[trigger] t.id_at(i) == s.id_at(i) by {}
    assert(t.id_at(s.len() as int) == queued.id());
    lemma_stay_on_queue(s, t, 0);
}

/// A push that finishes keeps the state well formed.
pub proof fn lemma_finished_wf<T>(s: DFState<T>, node: usize)
    requires
        s.wf(),
        s.queue is Some,
    ensures
        s.finished(node).wf(),
{
    let t = s.finished(node);
    assert forall|i: int|
        0 <= i <= s.len() implies #[trigger] t.chain().before(i) == s.chain().before(i) by {}
    assert forall|i: int| 0 <= i < s.len() implies #[trigger] t.id_at(i) == s.id_at(i) by {}
    lemma_stay_on_queue(s, t, 0);
}

/// Taking a completed first item off the queue keeps the state well formed.
pub proof fn lemma_front_removed_wf<T>(s: DFState<T>)
    requires
        s.wf(),
        s.queue is Some,
        s.front_completed(),
    ensures
        s.front_removed().wf(),
{
    let t = s.front_removed();
    assert forall|i: int|
        0 <= i < s.len() implies #[trigger] t.chain().before(i) == s.chain().before(i + 1) by {}
    assert forall|i: int| 0 <= i < t.len() implies #[trigger] t.id_at(i) == s.id_at(i + 1) by {}
    lemma_stay_on_queue(s, t, 1);
}

/// Taking the completed items in front off the queue keeps the state well formed, and leaves none
/// of them in front.
pub proof fn lemma_cleaned_wf<T>(s: DFState<T>)
    requires
        s.wf(),
        s.queue is Some,
    ensures
        s.cleaned().wf(),
        s.cleaned().queue is Some,
        !s.cleaned().front_completed(),
    decreases s.len(),
{
    if s.front_completed() {
        lemma_front_removed_wf(s);
        lemma_cleaned_wf(s.front_removed());
    }
}

/// A look at the first item keeps the state well formed.
pub proof fn lemma_front_peeked_wf<T>(s: DFState<T>)
    requires
        s.wf(),
        s.queue is Some,
        s.chain().reachable(),
    ensures
        s.front_peeked().wf(),
{
    lemma_items_changed(s, s.front_peeked());
}

/// Marking an item keeps the state well formed.
pub proof fn lemma_completed_wf<T>(s: DFState<T>, id: usize)
    requires
        s.wf(),
        s.items.dom().contains(id),
    ensures
        s.completed(id).wf(),
{
    lemma_items_changed(s, s.completed(id));
}

/// A producer that lets go of an item keeps the state well formed.
pub proof fn lemma_disowned_wf<T>(s: DFState<T>, id: usize)
    requires
        s.wf(),
        s.items.dom().contains(id),
    ensures
        s.disowned(id).wf(),
{
    lemma_items_changed(s, s.disowned(id));
}

/// A consumer that lets go of an item keeps the state well formed.
pub proof fn lemma_unpeeked_wf<T>(s: DFState<T>, id: usize)
    requires
        s.wf(),
        s.items.dom().contains(id),
        s.items[id].peeks > 0,
    ensures
        s.unpeeked(id).wf(),
{
    lemma_items_changed(s, s.unpeeked(id));
}

/// The state stays well formed where only items change and none of those on the queue goes.
proof fn lemma_items_changed<T>(s: DFState<T>, t: DFState<T>)
    requires
        s.wf(),
        t == (DFState { items: t.items, ..s }),
        forall|id: usize| #[trigger]
            t.items.dom().contains(id) ==> {
                &&& s.items.dom().contains(id)
                &&& t.items[id].refs() > 0
                &&& t.items[id].data == s.items[id].data
                &&& t.items[id].queued == s.items[id].queued
                &&& s.items[id].completed ==> t.items[id].completed
            },
        forall|id: usize| #[trigger]
            s.items.dom().contains(id) && s.items[id].queued ==> t.items.dom().contains(id),
    ensures
        t.wf(),
{
    if s.queue is Some {
        assert forall|i: int| 0 <= i < s.len() implies #[trigger] t.id_at(i) == s.id_at(i) by {}
        lemma_stay_on_queue(s, t, 0);
        assert(t.queue_wf());
    }
}

/// Letting go of a queue keeps the state well formed.
pub proof fn lemma_released_wf<T>(s: DFState<T>)
    requires
        s.wf(),
        s.handles > 0,
    ensures
        s.released().wf(),
{
    if s.handles > 1 {
        lemma_queue_kept(s, s.released());
    }
}

/// The state stays well formed where neither the queue nor the items change.
pub proof fn lemma_queue_kept<T>(s: DFState<T>, t: DFState<T>)
    requires
        s.wf(),
        s.queue is Some,
        t.tag == s.tag,
        t.queue == s.queue,
        t.items == s.items,
        t.handles > 0,
    ensures
        t.wf(),
{
    assert forall|i: int| 0 <= i < s.len() implies #[trigger] t.id_at(i) == s.id_at(i) by {}
    lemma_stay_on_queue(s, t, 0);
}

} // verus!
