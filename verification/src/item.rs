//! The items of a queue and the references to them.
//!
//! An item lives as long as there is a reference to it. References are held by the producer that
//! enqueued the item, by the queue while the item is on it, and by the consumer for each time that
//! it peeked at the item and has not let go yet.

use core::ops::Deref;
use std::sync::Arc;
use vstd::prelude::*;

use crate::node_chain::QueueTag;
use crate::slab::Slab;

verus! {

/// An item, as a contract sees it.
#[verifier::ext_equal]
pub struct ItemView<T> {
    /// The data that was enqueued.
    pub data: T,
    /// Whether the consumer has marked the item as completed.
    pub completed: bool,
    /// Whether the producer holds a reference.
    pub owned: bool,
    /// Whether the queue holds a reference.
    pub queued: bool,
    /// The number of references that the consumer holds.
    pub peeks: nat,
}

impl<T> ItemView<T> {
    /// The number of references to the item.
    pub open spec fn refs(self) -> nat {
        (if self.owned {
            1nat
        } else {
            0nat
        }) + (if self.queued {
            1nat
        } else {
            0nat
        }) + self.peeks
    }
}

/// The items after the one under `id` has become `after`: an item without references is gone.
pub open spec fn updated<T>(items: Map<usize, ItemView<T>>, id: usize, after: ItemView<T>) -> Map<
    usize,
    ItemView<T>,
> {
    if after.refs() == 0 {
        items.remove(id)
    } else {
        items.insert(id, after)
    }
}

/// What the references to an item share, besides its data.
struct ItemStatus<T> {
    /// Whether this item has been completed.
    completed: bool,
    /// Whether this item is on the queue, that is, whether the queue holds one of the references.
    queued: bool,
    /// The number of references to the item.
    refs: usize,
    /// Who holds those references.
    account: Ghost<ItemView<T>>,
}

/// The items that there are references to.
#[verifier::reject_recursive_types(T)]
pub struct Items<T> {
    table: Slab<ItemStatus<T>>,
}

impl<T> View for Items<T> {
    type V = Map<usize, ItemView<T>>;

    closed spec fn view(&self) -> Map<usize, ItemView<T>> {
        Map::new(
            |id: usize| self.table@.dom().contains(id),
            |id: usize| self.table@[id].account@,
        )
    }
}

impl<T> Items<T> {
    /// The flags and counts agree with the accounts, and every item has a reference.
    pub closed spec fn wf(&self) -> bool {
        &&& self.table.wf()
        &&& forall|id: usize|
            #![trigger self.table@[id]]
            self.table@.dom().contains(id) ==> {
                &&& self.table@[id].completed == self.table@[id].account@.completed
                &&& self.table@[id].queued == self.table@[id].account@.queued
                &&& self.table@[id].refs == self.table@[id].account@.refs()
                &&& self.table@[id].refs >= 1
            }
    }

    /// No items.
    pub fn new() -> (items: Self)
        ensures
            items.wf(),
            items@ == Map::<usize, ItemView<T>>::empty(),
    {
        let items = Items { table: Slab::new() };
        assert(items@ =~= Map::<usize, ItemView<T>>::empty());
        items
    }

    /// A new item, to which there is one reference.
    fn create(&mut self, account: Ghost<ItemView<T>>) -> (id: usize)
        requires
            old(self).wf(),
            !account@.completed,
            !account@.queued,
            account@.refs() == 1,
        ensures
            final(self).wf(),
            !old(self)@.dom().contains(id),
            final(self)@ == old(self)@.insert(id, account@),
    {
        let status = ItemStatus { completed: false, queued: false, refs: 1, account };
        let id: usize = self.table.insert(status);
        assert(self@ =~= old(self)@.insert(id, account@));
        id
    }

    /// One more reference to an item, which is on the queue then or not.
    fn retain(&mut self, id: usize, queued: bool, account: Ghost<ItemView<T>>)
        requires
            old(self).wf(),
            old(self)@.dom().contains(id),
            account@.completed == old(self)@[id].completed,
            account@.queued == queued,
            account@.refs() == old(self)@[id].refs() + 1,
            account@.refs() <= usize::MAX,
        ensures
            final(self).wf(),
            final(self)@ == old(self)@.insert(id, account@),
    {
        let status = self.table.get_mut(id);
        status.refs = status.refs + 1;
        status.queued = queued;
        status.account = account;
        assert(self@ =~= old(self)@.insert(id, account@));
    }

    /// One reference to an item less, which is on the queue then or not; with the last reference
    /// the item goes.
    fn release(&mut self, id: usize, queued: bool, account: Ghost<ItemView<T>>)
        requires
            old(self).wf(),
            old(self)@.dom().contains(id),
            account@.completed == old(self)@[id].completed,
            account@.queued == queued,
            account@.refs() + 1 == old(self)@[id].refs(),
        ensures
            final(self).wf(),
            final(self)@ == updated(old(self)@, id, account@),
    {
        if self.table.get(id).refs == 1 {
            let _ = self.table.remove(id);
        } else {
            let status = self.table.get_mut(id);
            status.refs = status.refs - 1;
            status.queued = queued;
            status.account = account;
        }
        assert(self@ =~= updated(old(self)@, id, account@));
    }
}

/// A special reference type that wraps a data item that has been queued.
/// This is returned to a producer when enqueuing an item onto the queue so that the producer
/// can retain a reference to it in the case of failure.
///
/// The reference counts until it is given to [`QueuedData::release`]; one that is merely dropped
/// counts for ever.
#[must_use]
#[derive(Debug)]
pub struct QueuedData<T> {
    /// the queue that the item was enqueued into
    tag: QueueTag,
    id: usize,
    data: Arc<T>,
}

impl<T> QueuedData<T> {
    /// The queue that the item was enqueued into.
    pub closed spec fn tag(self) -> QueueTag {
        self.tag
    }

    /// The identity of the item among those of its queue.
    pub closed spec fn id(self) -> usize {
        self.id
    }

    /// The data of the item.
    pub closed spec fn data(self) -> T {
        *self.data
    }

    /// A new item, to which the producer holds the only reference.
    pub(crate) fn new(tag: QueueTag, items: &mut Items<T>, data: T) -> (queued: QueuedData<T>)
        requires
            old(items).wf(),
        ensures
            final(items).wf(),
            queued.tag() == tag,
            queued.data() == data,
            !old(items)@.dom().contains(queued.id()),
            final(items)@ == old(items)@.insert(
                queued.id(),
                ItemView { data, completed: false, owned: true, queued: false, peeks: 0 },
            ),
    {
        let id: usize = items.create(
            Ghost(ItemView { data, completed: false, owned: true, queued: false, peeks: 0 }),
        );
        QueuedData { tag, id, data: Arc::new(data) }
    }

    /// Another reference to the same item, for the queue to hold.
    pub(crate) fn clone(&self, items: &mut Items<T>) -> (queued: QueuedData<T>)
        requires
            old(items).wf(),
            old(items)@.dom().contains(self.id()),
            !old(items)@[self.id()].queued,
            old(items)@[self.id()].refs() < usize::MAX,
        ensures
            final(items).wf(),
            queued == *self,
            final(items)@ == old(items)@.insert(
                self.id(),
                ItemView { queued: true, ..old(items)@[self.id()] },
            ),
    {
        let ghost item = items@[self.id];
        items.retain(self.id, true, Ghost(ItemView { queued: true, ..item }));
        QueuedData { tag: self.tag, id: self.id, data: self.data.clone() }
    }

    /// Another reference to the same item, marshalled as a `PeekedData` so that a consumer can
    /// access the data without being able to access the status of the item.
    pub(crate) fn as_peeked(&self, items: &mut Items<T>) -> (peeked: PeekedData<T>)
        requires
            old(items).wf(),
            old(items)@.dom().contains(self.id()),
            old(items)@[self.id()].refs() < usize::MAX,
        ensures
            final(items).wf(),
            peeked.tag() == self.tag(),
            peeked.id() == self.id(),
            peeked.data() == self.data(),
            final(items)@ == old(items)@.insert(
                self.id(),
                ItemView { peeks: old(items)@[self.id()].peeks + 1, ..old(items)@[self.id()] },
            ),
    {
        let ghost item = items@[self.id];
        let queued: bool = self.queued_in(items);
        items.retain(self.id, queued, Ghost(ItemView { peeks: item.peeks + 1, ..item }));
        PeekedData { tag: self.tag, id: self.id, data: self.data.clone() }
    }

    /// Lets go of the reference that the queue holds.
    pub(crate) fn release_queued(self, items: &mut Items<T>)
        requires
            old(items).wf(),
            old(items)@.dom().contains(self.id()),
            old(items)@[self.id()].queued,
        ensures
            final(items).wf(),
            final(items)@ == updated(
                old(items)@,
                self.id(),
                ItemView { queued: false, ..old(items)@[self.id()] },
            ),
    {
        let ghost item = items@[self.id];
        items.release(self.id, false, Ghost(ItemView { queued: false, ..item }));
    }

    /// Lets go of the reference that the producer holds.
    pub(crate) fn release_owned(self, items: &mut Items<T>)
        requires
            old(items).wf(),
            old(items)@.dom().contains(self.id()),
            old(items)@[self.id()].owned,
        ensures
            final(items).wf(),
            final(items)@ == updated(
                old(items)@,
                self.id(),
                ItemView { owned: false, ..old(items)@[self.id()] },
            ),
    {
        let ghost item = items@[self.id];
        let queued: bool = self.queued_in(items);
        items.release(self.id, queued, Ghost(ItemView { owned: false, ..item }));
    }

    /// Whether the item has been completed.
    pub(crate) fn completed_in(&self, items: &Items<T>) -> (b: bool)
        requires
            items.wf(),
            items@.dom().contains(self.id()),
        ensures
            b == items@[self.id()].completed,
    {
        items.table.get(self.id).completed
    }

    /// Whether the item is on the queue.
    pub(crate) fn queued_in(&self, items: &Items<T>) -> (b: bool)
        requires
            items.wf(),
            items@.dom().contains(self.id()),
        ensures
            b == items@[self.id()].queued,
    {
        items.table.get(self.id).queued
    }

    /// The number of references to the item.
    pub(crate) fn strong_count_in(&self, items: &Items<T>) -> (count: usize)
        requires
            items.wf(),
            items@.dom().contains(self.id()),
        ensures
            count == items@[self.id()].refs(),
    {
        items.table.get(self.id).refs
    }
}

impl<T> Deref for QueuedData<T> {
    type Target = T;

    fn deref(&self) -> (data: &T)
        ensures
            *data == self.data(),
    {
        &self.data
    }
}

/// A wrapper around data in the queue that allows a `DFQueueConsumer`
/// to access the data and mark the queued item as completed.
/// Automatically Derefs to the inner type `&T`, just like Arc does.
///
/// The reference counts until it is given to [`PeekedData::release`]; one that is merely dropped
/// counts for ever.
#[must_use]
#[derive(Debug)]
pub struct PeekedData<T> {
    /// the queue that the item was enqueued into
    tag: QueueTag,
    id: usize,
    data: Arc<T>,
}

impl<T> PeekedData<T> {
    /// The queue that the item was enqueued into.
    pub closed spec fn tag(self) -> QueueTag {
        self.tag
    }

    /// The identity of the item among those of its queue.
    pub closed spec fn id(self) -> usize {
        self.id
    }

    /// The data of the item.
    pub closed spec fn data(self) -> T {
        *self.data
    }

    /// Marks the item as completed.
    pub(crate) fn complete_in(&self, items: &mut Items<T>)
        requires
            old(items).wf(),
            old(items)@.dom().contains(self.id()),
        ensures
            final(items).wf(),
            final(items)@ == old(items)@.insert(
                self.id(),
                ItemView { completed: true, ..old(items)@[self.id()] },
            ),
    {
        let ghost item = items@[self.id];
        let status = items.table.get_mut(self.id);
        status.completed = true;
        status.account = Ghost(ItemView { completed: true, ..item });
        assert(items@ =~= old(items)@.insert(self.id, ItemView { completed: true, ..item }));
    }

    /// Lets go of the reference.
    pub(crate) fn release_peeked(self, items: &mut Items<T>)
        requires
            old(items).wf(),
            old(items)@.dom().contains(self.id()),
            old(items)@[self.id()].peeks > 0,
        ensures
            final(items).wf(),
            final(items)@ == updated(
                old(items)@,
                self.id(),
                ItemView {
                    peeks: (old(items)@[self.id()].peeks - 1) as nat,
                    ..old(items)@[self.id()]
                },
            ),
    {
        let ghost item = items@[self.id];
        let queued: bool = items.table.get(self.id).queued;
        items.release(self.id, queued, Ghost(ItemView { peeks: (item.peeks - 1) as nat, ..item }));
    }
}

impl<T> Deref for PeekedData<T> {
    type Target = T;

    fn deref(&self) -> (data: &T)
        ensures
            *data == self.data(),
    {
        &self.data
    }
}

} // verus!
