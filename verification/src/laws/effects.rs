//! What each operation does to the queue and to its items, and what it leaves as it is.

use vstd::prelude::*;

use crate::item::{ItemView, QueuedData};
use crate::laws::{law_peek_cleans, law_reach};
use crate::node_chain::{Chain, PendingPush};
use crate::state::{lemma_front_removed_wf, DFState};

verus! {

/// The item under `id` is the same in both states, or is in neither.
pub open spec fn same_item<T>(s: DFState<T>, t: DFState<T>, id: usize) -> bool {
    &&& s.items.dom().contains(id) <==> t.items.dom().contains(id)
    &&& s.items.dom().contains(id) ==> t.items[id] == s.items[id]
}

/// The queue is the same in both states, and so is who holds on to it.
pub open spec fn same_queue<T>(s: DFState<T>, t: DFState<T>) -> bool {
    &&& t.tag == s.tag
    &&& t.queue == s.queue
    &&& t.has_consumer == s.has_consumer
    &&& t.handles == s.handles
}

/// The queue has let go of the item under `id`: the item is there still, with its data, its mark
/// and the other references, where there is another reference to it, and gone where there is none.
pub open spec fn queue_let_go<T>(s: DFState<T>, t: DFState<T>, id: usize) -> bool {
    let before = s.items[id];
    let after = t.items[id];
    &&& t.items.dom().contains(id) <==> before.owned || before.peeks > 0
    &&& t.items.dom().contains(id) ==> {
        &&& !after.queued
        &&& after.data == before.data
        &&& after.completed == before.completed
        &&& after.owned == before.owned
        &&& after.peeks == before.peeks
    }
}

/// The references to an item are those of its producer, of the queue and of the consumer: the count
/// is one exactly where one of the three has one and the others have none, and grows by one with
/// each.
pub proof fn law_references<T>(item: ItemView<T>)
    ensures
        item.refs() == item.peeks + (if item.owned {
            1int
        } else {
            0int
        }) + (if item.queued {
            1int
        } else {
            0int
        }),
        item.owned ==> (item.refs() == 1 <==> !item.queued && item.peeks == 0),
        item.refs() == 0 <==> !item.owned && !item.queued && item.peeks == 0,
{
}

/// An address is one of the chain exactly when the stub or a node after it has it, the last node is
/// the stub where there is no other, and no two nodes of a chain with distinct addresses share one.
pub proof fn law_addresses<V>(c: Chain<V>, node: usize)
    ensures
        c.has_node(node) <==> c.stub == node || exists|i: int|
            0 <= i < c.links.len() && (#[trigger] c.links[i]).node == node,
        c.last_node() == (if c.links.len() == 0 {
            c.stub
        } else {
            c.links.last().node
        }),
        c.distinct() ==> {
            &&& forall|i: int| 0 <= i < c.links.len() ==> (#[trigger] c.links[i]).node != c.stub
            &&& forall|i: int, j: int|
                #![trigger c.links[i], c.links[j]]
                0 <= i < j < c.links.len() ==> c.links[i].node != c.links[j].node
        },
{
    assert(c.before(0) == c.stub);
    assert forall|i: int|
        0 <= i < c.links.len() implies (#[trigger] c.links[i]).node == c.before(i + 1) by {}
    if c.has_node(node) && c.stub != node {
        let i = choose|i: int| 0 <= i <= c.links.len() && #[trigger] c.before(i) == node;
        assert(c.links[i - 1].node == node);
    }
}

/// A push in one go puts the value behind all others, where the consumer can reach it from the one
/// before, and leaves the others as they are.
pub proof fn law_push_at_once<V>(c: Chain<V>, node: usize, value: V)
    ensures
        c.appended(node, value).tag == c.tag,
        c.appended(node, value).stub == c.stub,
        c.appended(node, value).links.len() == c.links.len() + 1,
        c.appended(node, value).links.last().node == node,
        c.appended(node, value).links.last().value == value,
        c.appended(node, value).links.last().linked,
        forall|j: int|
            0 <= j < c.links.len() ==> #[trigger] c.appended(node, value).links[j] == c.links[j],
{
}

/// The first step of a push puts the value behind all others, where the consumer cannot reach it
/// yet, and leaves the others as they are.
pub proof fn law_first_step_of_push<V>(c: Chain<V>, node: usize, value: V)
    ensures
        c.pushed(node, value).tag == c.tag,
        c.pushed(node, value).stub == c.stub,
        c.pushed(node, value).links.len() == c.links.len() + 1,
        c.pushed(node, value).links.last().node == node,
        c.pushed(node, value).links.last().value == value,
        !c.pushed(node, value).links.last().linked,
        forall|j: int|
            0 <= j < c.links.len() ==> #[trigger] c.pushed(node, value).links[j] == c.links[j],
{
}

/// A push that has done its first step is waited for, behind the node that was last before.
pub proof fn law_first_step_is_waited_for<V>(c: Chain<V>, value: V, push: PendingPush)
    requires
        push.tag() == c.tag,
        push.prev() == c.last_node(),
    ensures
        c.pushed(push.node(), value).awaits_at(push, c.links.len() as int),
        c.pushed(push.node(), value).awaits(push),
{
    assert(c.pushed(push.node(), value).awaits_at(push, c.links.len() as int));
}

/// The second step of a push makes the node before point to the node that the first step put in,
/// wherever that node stands by then, and leaves all others as they are. The push is no longer
/// waited for.
pub proof fn law_second_step_of_push<V>(c: Chain<V>, push: PendingPush, i: int)
    requires
        c.distinct(),
        c.awaits_at(push, i),
    ensures
        c.linked_to(push.node()).tag == c.tag,
        c.linked_to(push.node()).stub == c.stub,
        c.linked_to(push.node()).links.len() == c.links.len(),
        c.linked_to(push.node()).links[i].linked,
        c.linked_to(push.node()).links[i].node == c.links[i].node,
        c.linked_to(push.node()).links[i].value == c.links[i].value,
        forall|j: int|
            0 <= j < c.links.len() && j != i ==> #[trigger] c.linked_to(push.node()).links[j]
                == c.links[j],
        !c.linked_to(push.node()).awaits(push),
{
    let d = c.linked_to(push.node());
    assert(c.before(i + 1) == push.node());
    assert forall|j: int| 0 <= j < c.links.len() && j != i implies #[trigger] d.links[j]
        == c.links[j] by {
        assert(c.before(j + 1) == c.links[j].node);
    }
    assert forall|j: int| !d.awaits_at(push, j) by {
        if d.awaits_at(push, j) && j != i {
            assert(c.before(j + 1) == c.links[j].node);
        }
    }
}

/// Passing the first link makes its node the stub and leaves all others as they are, each one place
/// further in front.
pub proof fn law_passing_first_link<V>(c: Chain<V>)
    requires
        c.links.len() > 0,
    ensures
        c.reachable() <==> c.links[0].linked,
        c.advanced().tag == c.tag,
        c.advanced().stub == c.links[0].node,
        c.advanced().links.len() == c.links.len() - 1,
        forall|j: int|
            0 <= j < c.links.len() - 1 ==> #[trigger] c.advanced().links[j] == c.links[j + 1],
{
}

/// The consumer can reach nothing on a chain of the stub alone.
pub proof fn law_empty_chain<V>(c: Chain<V>)
    requires
        c.links.len() == 0,
    ensures
        !c.reachable(),
        c.values().len() == 0,
        c.reach() == 0,
{
}

/// A queue that is taken down hands out the value of each node up to the first whose push has not
/// finished, in order, and no others.
pub proof fn law_taking_down_hands_out<V>(c: Chain<V>, n: int)
    requires
        0 <= n <= c.links.len(),
        forall|i: int| 0 <= i < n ==> (#[trigger] c.links[i]).linked,
        n < c.links.len() ==> !c.links[n].linked,
    ensures
        c.reach() == n,
        c.values().take(c.reach() as int).len() == n,
        forall|i: int|
            0 <= i < n ==> #[trigger] c.values().take(c.reach() as int)[i] == c.links[i].value,
{
    law_reach(c);
    if c.reach() < n {
        assert(c.links[c.reach() as int].linked);
    }
    if n < c.reach() {
        assert(c.links[n].linked);
    }
}

/// A queue that has just been opened is held exactly once, by a consumer or by a producer, has a
/// consumer exactly when it was opened with one, and has no items.
pub proof fn law_opening<T>(queue: Chain<QueuedData<T>>, has_consumer: bool)
    ensures
        DFState::opened(queue, has_consumer).tag == queue.tag,
        DFState::opened(queue, has_consumer).queue == Some(queue),
        DFState::opened(queue, has_consumer).has_consumer == has_consumer,
        DFState::opened(queue, has_consumer).handles == 1,
        forall|id: usize|
            !(#[trigger] DFState::opened(queue, has_consumer).items.dom().contains(id)),
{
}

/// A producer that is obtained holds on to the queue once more, and changes nothing else.
pub proof fn law_obtaining_producer<T>(s: DFState<T>)
    ensures
        s.shared().handles == s.handles + 1,
        s.shared().tag == s.tag,
        s.shared().queue == s.queue,
        s.shared().has_consumer == s.has_consumer,
        forall|id: usize| #[trigger] same_item(s, s.shared(), id),
{
}

/// The consumer that is handed out holds on to the queue once more, is remembered, and changes
/// nothing else.
pub proof fn law_handing_out_consumer<T>(s: DFState<T>)
    ensures
        s.consumed().has_consumer,
        s.consumed().handles == s.handles + 1,
        s.consumed().tag == s.tag,
        s.consumed().queue == s.queue,
        forall|id: usize| #[trigger] same_item(s, s.consumed(), id),
{
}

/// An item whose push begins is behind all others, with its data; it is on the queue and not
/// completed, and its producer and the queue hold the only references. The others are as they were.
pub proof fn law_beginning_enqueue<T>(s: DFState<T>, node: usize, queued: QueuedData<T>)
    requires
        s.queue is Some,
    ensures
        s.begun(node, queued).queue == Some(s.chain().pushed(node, queued)),
        s.begun(node, queued).tag == s.tag,
        s.begun(node, queued).has_consumer == s.has_consumer,
        s.begun(node, queued).handles == s.handles,
        s.begun(node, queued).items.dom().contains(queued.id()),
        s.begun(node, queued).items[queued.id()].data == queued.data(),
        s.begun(node, queued).items[queued.id()].queued,
        s.begun(node, queued).items[queued.id()].owned,
        !s.begun(node, queued).items[queued.id()].completed,
        s.begun(node, queued).items[queued.id()].peeks == 0,
        forall|id: usize|
            id != queued.id() ==> #[trigger] same_item(s, s.begun(node, queued), id),
{
}

/// A push that finishes puts the item within reach from the one before, and changes neither what is
/// on the queue, nor an item, nor who holds on to the queue.
pub proof fn law_finishing_enqueue<T>(s: DFState<T>, push: PendingPush, i: int)
    requires
        s.wf(),
        s.queue is Some,
        s.chain().awaits_at(push, i),
    ensures
        s.finished(push.node()).queue is Some,
        s.finished(push.node()).tag == s.tag,
        s.finished(push.node()).has_consumer == s.has_consumer,
        s.finished(push.node()).handles == s.handles,
        s.finished(push.node()).chain().tag == s.chain().tag,
        s.finished(push.node()).chain().stub == s.chain().stub,
        s.finished(push.node()).chain().links.len() == s.chain().links.len(),
        s.finished(push.node()).chain().links[i].linked,
        s.finished(push.node()).chain().links[i].node == s.chain().links[i].node,
        s.finished(push.node()).chain().links[i].value == s.chain().links[i].value,
        forall|j: int|
            0 <= j < s.chain().links.len() && j != i ==> #[trigger] s.finished(
                push.node(),
            ).chain().links[j] == s.chain().links[j],
        !s.finished(push.node()).awaits(push),
        forall|id: usize| #[trigger] same_item(s, s.finished(push.node()), id),
{
    law_second_step_of_push(s.chain(), push, i);
}

/// A round of a peek that finds a completed item in front takes it off the queue. The queue lets go
/// of it, and of no other.
pub proof fn law_round_removes<T>(s: DFState<T>)
    requires
        s.wf(),
        s.queue is Some,
        s.chain().links.len() > 0,
        s.chain().links[0].linked,
        s.items[s.chain().links[0].value.id()].completed,
    ensures
        s.chain().reachable(),
        s.front_completed(),
        s.front_removed().queue is Some,
        s.front_removed().tag == s.tag,
        s.front_removed().has_consumer == s.has_consumer,
        s.front_removed().handles == s.handles,
        s.front_removed().chain().tag == s.chain().tag,
        s.front_removed().chain().stub == s.chain().links[0].node,
        s.front_removed().chain().links == s.chain().links.skip(1),
        queue_let_go(s, s.front_removed(), s.chain().links[0].value.id()),
        forall|id: usize|
            id != s.chain().links[0].value.id() ==> #[trigger] same_item(
                s,
                s.front_removed(),
                id,
            ),
{
    assert(s.items.dom().contains(s.id_at(0)));
}

/// A round of a peek that finds an item in front that has not been completed gives the consumer one
/// more reference to it, and changes nothing else: the item stays where it is.
pub proof fn law_round_hands_out<T>(s: DFState<T>)
    requires
        s.wf(),
        s.queue is Some,
        s.chain().links.len() > 0,
        s.chain().links[0].linked,
        !s.items[s.chain().links[0].value.id()].completed,
    ensures
        s.chain().reachable(),
        !s.front_completed(),
        s.id_at(0) == s.chain().links[0].value.id(),
        s.front_refs() == s.items[s.chain().links[0].value.id()].refs(),
        same_queue(s, s.front_peeked()),
        ({
            let before = s.items[s.chain().links[0].value.id()];
            let after = s.front_peeked().items[s.chain().links[0].value.id()];
            &&& s.items.dom().contains(s.chain().links[0].value.id())
            &&& s.front_peeked().items.dom().contains(s.chain().links[0].value.id())
            &&& after.peeks == before.peeks + 1
            &&& after.refs() == before.refs() + 1
            &&& after.data == before.data
            &&& after.data == s.chain().links[0].value.data()
            &&& after.completed == before.completed
            &&& after.owned == before.owned
            &&& after.queued == before.queued
        }),
        forall|id: usize|
            id != s.chain().links[0].value.id() ==> #[trigger] same_item(
                s,
                s.front_peeked(),
                id,
            ),
{
    assert(s.items.dom().contains(s.id_at(0)));
}

/// A round of a peek finds nothing exactly where the queue is empty or the push of the item in front
/// has not finished.
pub proof fn law_round_finds_nothing<T>(s: DFState<T>)
    requires
        s.queue is Some,
    ensures
        s.len() == s.chain().links.len(),
        !s.chain().reachable() <==> s.chain().links.len() == 0 || !s.chain().links[0].linked,
        !s.chain().reachable() ==> !s.front_completed(),
{
}

/// A peek takes the completed items in front off the queue, up to the first that has not been
/// completed or whose push has not finished. The queue lets go of those and of no others, the rest
/// of the queue keeps its order, and nobody gains or loses a hold on the queue.
pub proof fn law_peeking<T>(s: DFState<T>, n: int)
    requires
        s.wf(),
        s.queue is Some,
        0 <= n <= s.chain().links.len(),
        forall|i: int|
            0 <= i < n ==> (#[trigger] s.chain().links[i]).linked
                && s.items[s.chain().links[i].value.id()].completed,
        n < s.chain().links.len() ==> !(s.chain().links[n].linked
            && s.items[s.chain().links[n].value.id()].completed),
    ensures
        s.cleaned().queue is Some,
        s.cleaned().tag == s.tag,
        s.cleaned().has_consumer == s.has_consumer,
        s.cleaned().handles == s.handles,
        s.cleaned().chain().tag == s.chain().tag,
        s.cleaned().chain().stub == s.chain().before(n),
        s.cleaned().chain().links == s.chain().links.skip(n),
        s.cleaned().len() == s.chain().links.len() - n,
        s.cleaned().chain().reachable() <==> n < s.chain().links.len() && s.chain().links[n].linked,
        forall|i: int|
            #![trigger s.chain().links[i]]
            0 <= i < n ==> queue_let_go(s, s.cleaned(), s.chain().links[i].value.id()),
        forall|id: usize|
            (forall|i: int| 0 <= i < n ==> (#[trigger] s.chain().links[i]).value.id() != id)
                ==> #[trigger] same_item(s, s.cleaned(), id),
    decreases s.len(),
{
    let c = s.chain();
    let t = s.cleaned();
    law_peek_cleans(s);
    lemma_peek_keeps_holders(s);
    let m = s.len() - t.len();
    assert(m == n) by {
        if m < n {
            assert(c.links[m].linked && s.items[c.links[m].value.id()].completed);
            assert(t.chain().links[0] == c.links[m]);
            assert(s.id_at(m) == t.id_at(0));
            assert(t.items[t.id_at(0)].completed) by {
                assert forall|i: int| 0 <= i < m implies #[trigger] s.id_at(i) != s.id_at(m) by {}
                assert(!s.first_ids(m).contains(s.id_at(m)));
                assert(s.items.dom().contains(s.id_at(m)));
            }
            assert(t.front_completed());
        }
        if n < m {
            assert(s.id_at(n) == c.links[n].value.id());
        }
    }
    assert forall|i: int|
        #![trigger c.links[i]]
        0 <= i < n implies queue_let_go(s, t, c.links[i].value.id()) by {
        assert(s.id_at(i) == c.links[i].value.id());
        assert(s.items.dom().contains(s.id_at(i)));
        assert(s.first_ids(n).contains(s.id_at(i)));
    }
    assert forall|id: usize|
        (forall|i: int| 0 <= i < n ==> (#[trigger] c.links[i]).value.id() != id)
        implies #[trigger] same_item(s, t, id) by {
        assert(!s.first_ids(n).contains(id)) by {
            if s.first_ids(n).contains(id) {
                let i = choose|i: int| 0 <= i < n && #[trigger] s.id_at(i) == id;
                assert(c.links[i].value.id() == id);
            }
        }
    }
}

/// A peek changes neither who holds on to the queue nor which queue it is, and leaves the stub at
/// the last node that it removed.
proof fn lemma_peek_keeps_holders<T>(s: DFState<T>)
    requires
        s.wf(),
        s.queue is Some,
    ensures
        s.cleaned().tag == s.tag,
        s.cleaned().has_consumer == s.has_consumer,
        s.cleaned().handles == s.handles,
        s.cleaned().chain().tag == s.chain().tag,
        s.cleaned().len() <= s.len(),
        s.cleaned().chain().stub == s.chain().before(s.len() - s.cleaned().len()),
    decreases s.len(),
{
    if s.front_completed() {
        let t = s.front_removed();
        lemma_front_removed_wf(s);
        lemma_peek_keeps_holders(t);
        let n = t.len() - t.cleaned().len();
        assert(s.cleaned() == t.cleaned());
        assert(t.chain().before(n) == s.chain().before(n + 1));
    }
}

/// An item that is marked is completed, whether it is on the queue or not and whether the queue is
/// there or not. Nothing else about it changes, and nothing about any other.
pub proof fn law_marking_completed<T>(s: DFState<T>, id: usize)
    requires
        s.items.dom().contains(id),
    ensures
        same_queue(s, s.completed(id)),
        s.completed(id).items.dom().contains(id),
        s.completed(id).items[id].completed,
        s.completed(id).items[id].data == s.items[id].data,
        s.completed(id).items[id].owned == s.items[id].owned,
        s.completed(id).items[id].queued == s.items[id].queued,
        s.completed(id).items[id].peeks == s.items[id].peeks,
        forall|k: usize| k != id ==> #[trigger] same_item(s, s.completed(id), k),
{
}

/// A producer that lets go of its item takes exactly one off the count of its references, whether
/// the queue is there or not; with the last reference the item goes. Nothing else about it changes,
/// and nothing about any other.
pub proof fn law_producer_lets_go<T>(s: DFState<T>, id: usize)
    requires
        s.items.dom().contains(id),
        s.items[id].owned,
    ensures
        same_queue(s, s.disowned(id)),
        s.disowned(id).items.dom().contains(id) <==> s.items[id].queued || s.items[id].peeks > 0,
        s.disowned(id).items.dom().contains(id) ==> {
            let after = s.disowned(id).items[id];
            &&& !after.owned
            &&& after.refs() == s.items[id].refs() - 1
            &&& after.data == s.items[id].data
            &&& after.completed == s.items[id].completed
            &&& after.queued == s.items[id].queued
            &&& after.peeks == s.items[id].peeks
        },
        forall|k: usize| k != id ==> #[trigger] same_item(s, s.disowned(id), k),
{
}

/// A consumer that lets go of an item takes exactly one off the count of its references, whether the
/// queue is there or not; with the last reference the item goes. Nothing else about it changes, and
/// nothing about any other.
pub proof fn law_consumer_lets_go<T>(s: DFState<T>, id: usize)
    requires
        s.items.dom().contains(id),
        s.items[id].peeks > 0,
    ensures
        same_queue(s, s.unpeeked(id)),
        s.unpeeked(id).items.dom().contains(id) <==> s.items[id].owned || s.items[id].queued
            || s.items[id].peeks > 1,
        s.unpeeked(id).items.dom().contains(id) ==> {
            let after = s.unpeeked(id).items[id];
            &&& after.peeks == s.items[id].peeks - 1
            &&& after.refs() == s.items[id].refs() - 1
            &&& after.data == s.items[id].data
            &&& after.completed == s.items[id].completed
            &&& after.owned == s.items[id].owned
            &&& after.queued == s.items[id].queued
        },
        forall|k: usize| k != id ==> #[trigger] same_item(s, s.unpeeked(id), k),
{
}

/// A producer or consumer that lets go of a queue that others hold on to changes nothing else.
pub proof fn law_letting_go_of_shared_queue<T>(s: DFState<T>)
    requires
        s.handles > 1,
    ensures
        s.released().handles == s.handles - 1,
        s.released().tag == s.tag,
        s.released().queue == s.queue,
        s.released().has_consumer == s.has_consumer,
        forall|id: usize| #[trigger] same_item(s, s.released(), id),
{
}

/// With the last producer or consumer the queue goes, and lets go of every item up to the first
/// whose push has not finished, completed or not. It lets go of no other, and each item keeps its
/// data, its mark and the references of its producer and of the consumer.
pub proof fn law_letting_go_of_last_handle<T>(s: DFState<T>, n: int)
    requires
        s.wf(),
        s.handles == 1,
        0 <= n <= s.chain().links.len(),
        forall|i: int| 0 <= i < n ==> (#[trigger] s.chain().links[i]).linked,
        n < s.chain().links.len() ==> !s.chain().links[n].linked,
    ensures
        s.released().queue is None,
        s.released().handles == 0,
        s.released().tag == s.tag,
        s.released().has_consumer == s.has_consumer,
        forall|i: int|
            #![trigger s.chain().links[i]]
            0 <= i < n ==> queue_let_go(s, s.released(), s.chain().links[i].value.id()),
        forall|id: usize|
            (forall|i: int| 0 <= i < n ==> (#[trigger] s.chain().links[i]).value.id() != id)
                ==> #[trigger] same_item(s, s.released(), id),
{
    let c = s.chain();
    let t = s.released();
    law_taking_down_hands_out(c, n);
    assert forall|i: int|
        #![trigger c.links[i]]
        0 <= i < n implies queue_let_go(s, t, c.links[i].value.id()) by {
        assert(s.id_at(i) == c.links[i].value.id());
        assert(s.items.dom().contains(s.id_at(i)));
        assert(s.first_ids(n).contains(s.id_at(i)));
    }
    assert forall|id: usize|
        (forall|i: int| 0 <= i < n ==> (#[trigger] c.links[i]).value.id() != id)
        implies #[trigger] same_item(s, t, id) by {
        assert(!s.first_ids(n).contains(id)) by {
            if s.first_ids(n).contains(id) {
                let i = choose|i: int| 0 <= i < n && #[trigger] s.id_at(i) == id;
                assert(c.links[i].value.id() == id);
            }
        }
    }
}

/// When the last producer or consumer lets go of a queue on which every push has finished, no item
/// is on the queue afterwards, completed or not. An item that its producer or the consumer refers
/// to is there still, with its data, its mark and those references; the others are gone.
pub proof fn law_nothing_is_on_a_queue_that_is_gone<T>(s: DFState<T>, id: usize)
    requires
        s.wf(),
        s.handles == 1,
        forall|i: int| 0 <= i < s.chain().links.len() ==> (#[trigger] s.chain().links[i]).linked,
        s.items.dom().contains(id),
    ensures
        s.released().queue is None,
        queue_let_go(s, s.released(), id),
{
    law_letting_go_of_last_handle(s, s.chain().links.len() as int);
    assert(s.items[id].refs() > 0);
    if s.items[id].queued {
        assert(s.on_queue(id));
        let i = choose|i: int| 0 <= i < s.len() && #[trigger] s.id_at(i) == id;
        assert(s.chain().links[i].value.id() == id);
    } else {
        assert forall|i: int|
            0 <= i < s.chain().links.len()
            implies (#[trigger] s.chain().links[i]).value.id() != id by {
            assert(s.items[s.id_at(i)].queued);
        }
        assert(same_item(s, s.released(), id));
    }
}

} // verus!
