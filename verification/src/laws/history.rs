//! What a run comes to: the answers that producers and the consumer get, told from what they did.

use vstd::prelude::*;

use crate::item::{PeekedData, QueuedData};
use crate::laws::effects::{
    law_beginning_enqueue, law_consumer_lets_go, law_finishing_enqueue,
    law_letting_go_of_last_handle, law_letting_go_of_shared_queue, law_marking_completed,
    law_nothing_is_on_a_queue_that_is_gone, law_producer_lets_go, law_round_hands_out,
    law_round_removes, law_second_step_of_push, same_item,
};
use crate::laws::{
    law_items_completed_once_in_order, law_opened_wf, law_peek_finds_first_not_completed,
    law_pop_fifo, law_pop_keeps_distinct, law_queue_lives_while_held, law_reach, law_run_keeps_wf,
    law_single_consumer, law_step_keeps_wf, Event, PopEvent,
};
use crate::node_chain::{Chain, Link};
use crate::state::{lemma_cleaned_wf, DFState};

verus! {

/// The number of links that the node before does not point to.
pub open spec fn unlinked<V>(links: Seq<Link<V>>) -> nat
    decreases links.len(),
{
    if links.len() == 0 {
        0
    } else if links.last().linked {
        unlinked(links.drop_last())
    } else {
        unlinked(links.drop_last()) + 1
    }
}

/// None is unlinked exactly when all are linked.
proof fn lemma_unlinked_zero<V>(links: Seq<Link<V>>)
    ensures
        unlinked(links) == 0 <==> forall|i: int|
            0 <= i < links.len() ==> (#[trigger] links[i]).linked,
    decreases links.len(),
{
    if links.len() > 0 {
        let init = links.drop_last();
        lemma_unlinked_zero(init);
        assert(forall|i: int| 0 <= i < init.len() ==> #[trigger] init[i] == links[i]);
        if unlinked(links) == 0 {
            assert forall|i: int| 0 <= i < links.len() implies (#[trigger] links[i]).linked by {
                if i < init.len() {
                    assert(init[i].linked);
                }
            }
        } else if links.last().linked {
            assert(exists|i: int| 0 <= i < init.len() && !(#[trigger] init[i]).linked);
            let i = choose|i: int| 0 <= i < init.len() && !(#[trigger] init[i]).linked;
            assert(!links[i].linked);
        }
    }
}

/// One more link that becomes linked is one unlinked less.
proof fn lemma_unlinked_one_less<V>(links: Seq<Link<V>>, after: Seq<Link<V>>, i: int)
    requires
        after.len() == links.len(),
        0 <= i < links.len(),
        !links[i].linked,
        after[i].linked,
        forall|j: int| 0 <= j < links.len() && j != i ==> #[trigger] after[j] == links[j],
    ensures
        unlinked(after) + 1 == unlinked(links),
    decreases links.len(),
{
    let n = links.len() - 1;
    if i < n {
        lemma_unlinked_one_less(links.drop_last(), after.drop_last(), i);
        assert(after[n] == links[n]);
    } else {
        assert(after.drop_last() =~= links.drop_last());
    }
}

/// A link in front that is linked does not count.
proof fn lemma_unlinked_skip<V>(links: Seq<Link<V>>)
    requires
        links.len() > 0,
        links[0].linked,
    ensures
        unlinked(links.skip(1)) == unlinked(links),
    decreases links.len(),
{
    if links.len() == 1 {
        assert(links.skip(1) =~= Seq::<Link<V>>::empty());
        assert(links.drop_last() =~= Seq::<Link<V>>::empty());
    } else {
        lemma_unlinked_skip(links.drop_last());
        assert(links.skip(1).drop_last() =~= links.drop_last().skip(1));
    }
}

/// The number of pushes that began in the steps.
pub open spec fn begins<T>(es: Seq<Event<T>>) -> nat
    decreases es.len(),
{
    if es.len() == 0 {
        0
    } else if es.last() is BeginEnqueue {
        begins(es.drop_last()) + 1
    } else {
        begins(es.drop_last())
    }
}

/// The number of pushes that finished in the steps.
pub open spec fn finishes<T>(es: Seq<Event<T>>) -> nat
    decreases es.len(),
{
    if es.len() == 0 {
        0
    } else if es.last() is FinishEnqueue {
        finishes(es.drop_last()) + 1
    } else {
        finishes(es.drop_last())
    }
}

/// The number of times that an item was enqueued under `id` in the steps.
pub open spec fn enqueues_of<T>(es: Seq<Event<T>>, id: usize) -> nat
    decreases es.len(),
{
    if es.len() == 0 {
        0
    } else {
        let before = enqueues_of(es.drop_last(), id);
        match es.last() {
            Event::BeginEnqueue { node, queued } => if queued.id() == id {
                before + 1
            } else {
                before
            },
            _ => before,
        }
    }
}

/// The number of times that a producer let go of an item under `id` in the steps.
pub open spec fn producer_releases_of<T>(es: Seq<Event<T>>, id: usize) -> nat
    decreases es.len(),
{
    if es.len() == 0 {
        0
    } else {
        let before = producer_releases_of(es.drop_last(), id);
        match es.last() {
            Event::ReleaseQueued { id: other } => if other == id {
                before + 1
            } else {
                before
            },
            _ => before,
        }
    }
}

/// The number of times that the consumer let go of an item under `id` in the steps.
pub open spec fn consumer_releases_of<T>(es: Seq<Event<T>>, id: usize) -> nat
    decreases es.len(),
{
    if es.len() == 0 {
        0
    } else {
        let before = consumer_releases_of(es.drop_last(), id);
        match es.last() {
            Event::ReleasePeeked { id: other } => if other == id {
                before + 1
            } else {
                before
            },
            _ => before,
        }
    }
}

/// Whether the consumer marked the item under `id` in the steps, after it was enqueued there for the
/// last time; `before` says so of the steps that came earlier.
pub open spec fn marked_since<T>(es: Seq<Event<T>>, id: usize, before: bool) -> bool
    decreases es.len(),
{
    if es.len() == 0 {
        before
    } else {
        match es.last() {
            Event::BeginEnqueue { node, queued } => queued.id() != id && marked_since(
                es.drop_last(),
                id,
                before,
            ),
            Event::MarkCompleted { id: other } => other == id || marked_since(
                es.drop_last(),
                id,
                before,
            ),
            _ => marked_since(es.drop_last(), id, before),
        }
    }
}

/// The data that was enqueued last under `id` in the steps; `before` is that of the steps that came
/// earlier.
pub open spec fn data_since<T>(es: Seq<Event<T>>, id: usize, before: T) -> T
    decreases es.len(),
{
    if es.len() == 0 {
        before
    } else {
        match es.last() {
            Event::BeginEnqueue { node, queued } => if queued.id() == id {
                queued.data()
            } else {
                data_since(es.drop_last(), id, before)
            },
            _ => data_since(es.drop_last(), id, before),
        }
    }
}

/// Whether a producer asked for the consumer in the steps.
pub open spec fn asked_for_consumer<T>(es: Seq<Event<T>>) -> bool {
    exists|i: int| 0 <= i < es.len() && #[trigger] es[i] is GetConsumer
}

/// The number of producers that were obtained in the steps.
pub open spec fn producers<T>(es: Seq<Event<T>>) -> nat
    decreases es.len(),
{
    if es.len() == 0 {
        0
    } else if es.last() is ObtainProducer {
        producers(es.drop_last()) + 1
    } else {
        producers(es.drop_last())
    }
}

/// The number of times that a producer or the consumer let go of the queue in the steps.
pub open spec fn handle_releases<T>(es: Seq<Event<T>>) -> nat
    decreases es.len(),
{
    if es.len() == 0 {
        0
    } else if es.last() is ReleaseHandle {
        handle_releases(es.drop_last()) + 1
    } else {
        handle_releases(es.drop_last())
    }
}

/// The number of producers and consumers that there have been of a queue that was opened for one of
/// them, after the steps: the one that it was opened for, the producers that were obtained, and the
/// consumer if it was asked for and there was none.
pub open spec fn handed_out<T>(has_consumer: bool, es: Seq<Event<T>>) -> nat {
    1 + producers(es) + if !has_consumer && asked_for_consumer(es) {
        1nat
    } else {
        0nat
    }
}

impl<T> DFState<T> {
    /// The number of references that the producer holds to the item under `id`.
    pub open spec fn owned_of(self, id: usize) -> nat {
        if self.items.dom().contains(id) && self.items[id].owned {
            1
        } else {
            0
        }
    }

    /// The number of references that the queue holds to the item under `id`.
    pub open spec fn queued_of(self, id: usize) -> nat {
        if self.items.dom().contains(id) && self.items[id].queued {
            1
        } else {
            0
        }
    }

    /// The number of references that the consumer holds to the item under `id`.
    pub open spec fn peeks_of(self, id: usize) -> nat {
        if self.items.dom().contains(id) {
            self.items[id].peeks
        } else {
            0
        }
    }

    /// Whether the item in front is the one under `id` and the tail points to its node.
    pub open spec fn is_in_front(self, id: usize) -> bool {
        &&& self.queue is Some
        &&& self.chain().links.len() > 0
        &&& self.chain().links[0].linked
        &&& self.chain().links[0].value.id() == id
    }

    /// The number of peeks in the steps that handed out the item under `id`.
    pub open spec fn peeks_at(self, es: Seq<Event<T>>, id: usize) -> nat
        decreases es.len(),
    {
        if es.len() == 0 {
            0
        } else {
            let before = self.peeks_at(es.drop_last(), id);
            let s = self.after(es.drop_last());
            if es.last() is PeekStep && s.is_in_front(id) && !s.items[id].completed {
                before + 1
            } else {
                before
            }
        }
    }

    /// The number of peeks in the steps that took the item under `id` off the queue.
    pub open spec fn removals_of(self, es: Seq<Event<T>>, id: usize) -> nat
        decreases es.len(),
    {
        if es.len() == 0 {
            0
        } else {
            let before = self.removals_of(es.drop_last(), id);
            let s = self.after(es.drop_last());
            if es.last() is PeekStep && s.is_in_front(id) && s.items[id].completed {
                before + 1
            } else {
                before
            }
        }
    }
}

/// However the steps interleave, the pushes that began and have not finished are those of the items
/// that the tail cannot reach through the node before.
pub proof fn law_unfinished_pushes_counted<T>(s: DFState<T>, es: Seq<Event<T>>)
    requires
        s.wf(),
        s.queue is Some,
        s.can_all(es),
        s.after(es).queue is Some,
    ensures
        unlinked(s.after(es).chain().links) + finishes(es) == unlinked(s.chain().links) + begins(
            es,
        ),
    decreases es.len(),
{
    if es.len() > 0 {
        let es0 = es.drop_last();
        let s0 = s.after(es0);
        law_run_keeps_wf(s, es0);
        law_unfinished_pushes_counted(s, es0);
        let links = s0.chain().links;
        let after = s.after(es).chain().links;
        match es.last() {
            Event::BeginEnqueue { node, queued } => {
                assert(after.drop_last() =~= links);
            },
            Event::FinishEnqueue { push } => {
                let i = choose|i: int| s0.chain().awaits_at(push, i);
                law_finishing_enqueue(s0, push, i);
                lemma_unlinked_one_less(links, after, i);
            },
            Event::PeekStep => {
                if s0.front_completed() {
                    lemma_unlinked_skip(links);
                }
            },
            _ => {},
        }
    }
}

/// Once every push that began has finished, the consumer can reach every item on the queue.
pub proof fn law_finished_pushes_are_linked<T>(s: DFState<T>, es: Seq<Event<T>>)
    requires
        s.wf(),
        s.queue is Some,
        s.chain().links.len() == 0,
        s.can_all(es),
        s.after(es).queue is Some,
        begins(es) == finishes(es),
    ensures
        forall|i: int|
            0 <= i < s.after(es).chain().links.len() ==> (#[trigger] s.after(
                es,
            ).chain().links[i]).linked,
        s.after(es).chain().settled(),
{
    law_unfinished_pushes_counted(s, es);
    lemma_unlinked_zero(s.after(es).chain().links);
}

/// Once every push that began has finished, a peek finds the first of the enqueued items that the
/// consumer has not completed, with the data that it was enqueued with, and finds the queue empty
/// exactly where it has completed them all. What it finds has not been completed.
pub proof fn law_peek_after_run<T>(s: DFState<T>, es: Seq<Event<T>>)
    requires
        s.wf(),
        s.queue is Some,
        s.chain().links.len() == 0,
        s.can_all(es),
        s.after(es).queue is Some,
        begins(es) == finishes(es),
    ensures
        s.after(es).cleaned().len() == 0 <==> s.marks(es) == s.entered(es).len(),
        s.after(es).cleaned().chain().reachable() <==> s.marks(es) < s.entered(es).len(),
        s.marks(es) < s.entered(es).len() ==> {
            let t = s.after(es).cleaned();
            &&& t.id_at(0) == s.entered(es)[s.marks(es) as int].id()
            &&& t.chain().links[0].value.data() == s.entered(es)[s.marks(es) as int].data()
            &&& t.items.dom().contains(t.id_at(0))
            &&& !t.items[t.id_at(0)].completed
        },
{
    law_finished_pushes_are_linked(s, es);
    law_items_completed_once_in_order(s, es);
    law_peek_finds_first_not_completed(s, es);
    law_run_keeps_wf(s, es);
    lemma_cleaned_wf(s.after(es));
    let t = s.after(es).cleaned();
    assert(t.chain().values().len() == s.entered(es).len() - s.marks(es));
    if t.len() > 0 {
        assert(t.items.dom().contains(t.id_at(0)));
    }
}

/// What one step does to the references of one item.
proof fn lemma_step_references<T>(s: DFState<T>, e: Event<T>, id: usize)
    requires
        s.wf(),
        s.can(e),
    ensures
        ({
            let t = s.next(e);
            let begun: nat = match e {
                Event::BeginEnqueue { node, queued } => if queued.id() == id {
                    1
                } else {
                    0
                },
                _ => 0,
            };
            let removed: nat = if e is PeekStep && s.is_in_front(id) && s.items[id].completed {
                1
            } else {
                0
            };
            let peeked: nat = if e is PeekStep && s.is_in_front(id) && !s.items[id].completed {
                1
            } else {
                0
            };
            let disowned: nat = if e == (Event::<T>::ReleaseQueued { id }) {
                1
            } else {
                0
            };
            let unpeeked: nat = if e == (Event::<T>::ReleasePeeked { id }) {
                1
            } else {
                0
            };
            &&& t.owned_of(id) + disowned == s.owned_of(id) + begun
            &&& t.peeks_of(id) + unpeeked == s.peeks_of(id) + peeked
            &&& t.queue is Some ==> t.queued_of(id) + removed == s.queued_of(id) + begun
        }),
{
    let t = s.next(e);
    match e {
        Event::BeginEnqueue { node, queued } => {
            law_beginning_enqueue(s, node, queued);
            assert(queued.id() != id ==> same_item(s, t, id));
        },
        Event::FinishEnqueue { push } => {
            let i = choose|i: int| s.chain().awaits_at(push, i);
            law_finishing_enqueue(s, push, i);
            assert(same_item(s, t, id));
        },
        Event::PeekStep => {
            if s.chain().reachable() {
                let front = s.chain().links[0].value.id();
                assert(s.id_at(0) == front && s.items.dom().contains(s.id_at(0)));
                if s.items[front].completed {
                    law_round_removes(s);
                } else {
                    law_round_hands_out(s);
                }
                assert(id != front ==> same_item(s, t, id));
            }
        },
        Event::MarkCompleted { id: other } => {
            law_marking_completed(s, other);
            assert(other != id ==> same_item(s, t, id));
        },
        Event::ReleaseQueued { id: other } => {
            law_producer_lets_go(s, other);
            assert(other != id ==> same_item(s, t, id));
        },
        Event::ReleasePeeked { id: other } => {
            law_consumer_lets_go(s, other);
            assert(other != id ==> same_item(s, t, id));
        },
        Event::ReleaseHandle => {
            if s.handles == 1 {
                let n = s.chain().reach() as int;
                law_reach(s.chain());
                law_letting_go_of_last_handle(s, n);
                if exists|i: int| 0 <= i < n && (#[trigger] s.chain().links[i]).value.id() == id {
                    let i = choose|i: int|
                        0 <= i < n && (#[trigger] s.chain().links[i]).value.id() == id;
                    assert(s.items.dom().contains(s.id_at(i)));
                } else {
                    assert(same_item(s, t, id));
                }
            } else {
                law_letting_go_of_shared_queue(s);
                assert(same_item(s, t, id));
            }
        },
        _ => {},
    }
}

/// Every reference is counted, and counted off once it is let go of, however the steps interleave
/// and whether the queue is there or not. The producer holds a reference for each time that it
/// enqueued the item and has not let go of it; the consumer one for each peek that handed the item
/// out and that it has not let go of; and the queue, as long as it is there, one for each time that
/// the item was enqueued and that no peek has taken it off.
pub proof fn law_references_counted<T>(s: DFState<T>, es: Seq<Event<T>>, id: usize)
    requires
        s.wf(),
        s.can_all(es),
    ensures
        s.after(es).owned_of(id) + producer_releases_of(es, id) == s.owned_of(id) + enqueues_of(
            es,
            id,
        ),
        s.after(es).peeks_of(id) + consumer_releases_of(es, id) == s.peeks_of(id) + s.peeks_at(
            es,
            id,
        ),
        s.after(es).queue is Some ==> s.after(es).queued_of(id) + s.removals_of(es, id)
            == s.queued_of(id) + enqueues_of(es, id),
    decreases es.len(),
{
    if es.len() > 0 {
        let es0 = es.drop_last();
        law_references_counted(s, es0, id);
        law_run_keeps_wf(s, es0);
        lemma_step_references(s.after(es0), es.last(), id);
    }
}

/// An item is completed exactly when the consumer has marked it since it was enqueued, whatever else
/// was done, and has the data that it was enqueued with.
pub proof fn law_completed_is_marked<T>(s: DFState<T>, es: Seq<Event<T>>, id: usize)
    requires
        s.wf(),
        s.can_all(es),
        s.after(es).items.dom().contains(id),
    ensures
        s.after(es).items[id].completed <==> marked_since(es, id, s.items[id].completed),
        s.after(es).items[id].data == data_since(es, id, s.items[id].data),
    decreases es.len(),
{
    if es.len() > 0 {
        let es0 = es.drop_last();
        let s0 = s.after(es0);
        let t = s.after(es);
        let e = es.last();
        law_run_keeps_wf(s, es0);
        match e {
            Event::BeginEnqueue { node, queued } => {
                law_beginning_enqueue(s0, node, queued);
                if queued.id() != id {
                    assert(same_item(s0, t, id));
                    law_completed_is_marked(s, es0, id);
                }
            },
            _ => {
                lemma_step_keeps_content(s0, e, id);
                law_completed_is_marked(s, es0, id);
            },
        }
    }
}

/// A step that does not enqueue creates no item and changes no data, and completes nothing but what
/// it marks.
proof fn lemma_step_keeps_content<T>(s: DFState<T>, e: Event<T>, id: usize)
    requires
        s.wf(),
        s.can(e),
        !(e is BeginEnqueue),
        s.next(e).items.dom().contains(id),
    ensures
        s.items.dom().contains(id),
        s.next(e).items[id].data == s.items[id].data,
        s.next(e).items[id].completed <==> s.items[id].completed || e == (Event::<
            T,
        >::MarkCompleted { id }),
{
}

/// The consumer can use a reference to an item until it lets go of it: whatever else is done, and
/// whatever becomes of the queue, the item is there with its data, as long as the consumer has let go
/// of fewer references to it than it was given.
pub proof fn law_consumer_keeps_data<T>(s: DFState<T>, es: Seq<Event<T>>, peeked: PeekedData<T>)
    requires
        s.wf(),
        s.lends(peeked),
        s.can_all(es),
        consumer_releases_of(es, peeked.id()) < s.items[peeked.id()].peeks,
    ensures
        s.after(es).lends(peeked),
        s.after(es).items[peeked.id()].data == peeked.data(),
    decreases es.len(),
{
    if es.len() > 0 {
        let es0 = es.drop_last();
        let s0 = s.after(es0);
        let id = peeked.id();
        law_consumer_keeps_data(s, es0, peeked);
        law_references_counted(s, es, id);
        law_run_keeps_wf(s, es0);
        assert(s.after(es).items.dom().contains(id));
        match es.last() {
            Event::BeginEnqueue { node, queued } => {
                law_beginning_enqueue(s0, node, queued);
                assert(same_item(s0, s.after(es), id));
            },
            _ => lemma_step_keeps_content(s0, es.last(), id),
        }
    }
}

/// There is a consumer exactly when the queue was opened with one or a producer has asked for one:
/// whoever asks first gets it, and nobody after.
pub proof fn law_first_to_ask_gets_consumer<T>(s: DFState<T>, es: Seq<Event<T>>)
    requires
        s.can_all(es),
    ensures
        s.after(es).has_consumer <==> s.has_consumer || asked_for_consumer(es),
        s.consumers(es) == (if !s.has_consumer && asked_for_consumer(es) {
            1nat
        } else {
            0nat
        }),
        s.obtained(es) == producers(es) + s.consumers(es),
        s.let_go(es) == handle_releases(es),
    decreases es.len(),
{
    if es.len() > 0 {
        let es0 = es.drop_last();
        law_first_to_ask_gets_consumer(s, es0);
        law_single_consumer(s, es);
        assert(asked_for_consumer(es) <==> asked_for_consumer(es0) || es.last() is GetConsumer) by {
            if asked_for_consumer(es) {
                let i = choose|i: int| 0 <= i < es.len() && #[trigger] es[i] is GetConsumer;
                if i < es0.len() {
                    assert(es0[i] is GetConsumer);
                }
            }
            if asked_for_consumer(es0) {
                let i = choose|i: int| 0 <= i < es0.len() && #[trigger] es0[i] is GetConsumer;
                assert(es[i] is GetConsumer);
            }
            if es.last() is GetConsumer {
                assert(es[es.len() - 1] is GetConsumer);
            }
        }
    }
}

/// A queue that was opened for a producer or for the consumer is there until as many producers and
/// consumers have let go of it as were handed out, the first one included, and no longer.
pub proof fn law_queue_goes_with_its_last_holder<T>(
    queue: Chain<QueuedData<T>>,
    has_consumer: bool,
    es: Seq<Event<T>>,
)
    requires
        queue.links.len() == 0,
        DFState::opened(queue, has_consumer).can_all(es),
    ensures
        handle_releases(es) <= handed_out(has_consumer, es),
        DFState::opened(queue, has_consumer).after(es).handles + handle_releases(es) == handed_out(
            has_consumer,
            es,
        ),
        DFState::opened(queue, has_consumer).after(es).queue is None <==> handle_releases(es)
            == handed_out(has_consumer, es),
        DFState::opened(queue, has_consumer).after(es).has_consumer <==> has_consumer
            || asked_for_consumer(es),
{
    let s = DFState::opened(queue, has_consumer);
    law_opened_wf(queue, has_consumer);
    law_queue_lives_while_held(s, es);
    law_first_to_ask_gets_consumer(s, es);
}

/// Once the queue has gone and every push that began had finished, no item is on it.
pub proof fn law_nothing_stays_on_a_queue_that_has_gone<T>(
    s: DFState<T>,
    es: Seq<Event<T>>,
    id: usize,
)
    requires
        s.wf(),
        s.queue is Some,
        s.chain().links.len() == 0,
        s.can_all(es),
        s.after(es).queue is None,
        begins(es) == finishes(es),
        s.after(es).items.dom().contains(id),
    ensures
        !s.after(es).items[id].queued,
    decreases es.len(),
{
    let es0 = es.drop_last();
    let s0 = s.after(es0);
    let e = es.last();
    law_run_keeps_wf(s, es0);
    if s0.queue is Some {
        assert(e is ReleaseHandle);
        law_finished_pushes_are_linked(s, es0);
        lemma_step_keeps_content(s0, e, id);
        law_nothing_is_on_a_queue_that_is_gone(s0, id);
    } else {
        lemma_step_keeps_content(s0, e, id);
        law_nothing_stays_on_a_queue_that_has_gone(s, es0, id);
    }
}

/// What a producer is told of its item, once every push that began has finished, however the steps
/// interleaved. The item is completed exactly when the consumer has marked it since it was enqueued.
/// It is enqueued exactly when the queue is there and no peek has taken the item off. It has failed,
/// that is, it is not completed and there is one reference to it, exactly when all producers and
/// consumers have let go of the queue, the consumer has let go of the item as often as a peek handed
/// it out, and it has not marked it.
pub proof fn law_what_a_producer_is_told<T>(
    queue: Chain<QueuedData<T>>,
    has_consumer: bool,
    es: Seq<Event<T>>,
    id: usize,
)
    requires
        queue.links.len() == 0,
        DFState::opened(queue, has_consumer).can_all(es),
        begins(es) == finishes(es),
        enqueues_of(es, id) > producer_releases_of(es, id),
    ensures
        ({
            let s = DFState::opened(queue, has_consumer);
            let item = s.after(es).items[id];
            let gone = handle_releases(es) == handed_out(has_consumer, es);
            &&& s.after(es).items.dom().contains(id)
            &&& item.owned
            &&& item.data == data_since(es, id, s.items[id].data)
            &&& item.completed <==> marked_since(es, id, s.items[id].completed)
            &&& item.queued <==> !gone && s.removals_of(es, id) < enqueues_of(es, id)
            &&& !item.completed && item.refs() == 1 <==> gone && s.peeks_at(es, id)
                == consumer_releases_of(es, id) && !marked_since(es, id, s.items[id].completed)
        }),
{
    let s = DFState::opened(queue, has_consumer);
    let t = s.after(es);
    law_opened_wf(queue, has_consumer);
    law_run_keeps_wf(s, es);
    law_references_counted(s, es, id);
    law_completed_is_marked(s, es, id);
    law_queue_goes_with_its_last_holder(queue, has_consumer, es);
    if t.queue is None {
        law_nothing_stays_on_a_queue_that_has_gone(s, es, id);
    } else {
        assert(!t.items[id].queued ==> t.items[id].completed);
    }
}

/// The number of pushes into a queue that began in the steps.
pub open spec fn pushes_begun<T>(es: Seq<PopEvent<T>>) -> nat
    decreases es.len(),
{
    if es.len() == 0 {
        0
    } else if es.last() is BeginPush {
        pushes_begun(es.drop_last()) + 1
    } else {
        pushes_begun(es.drop_last())
    }
}

/// The number of pushes into a queue that finished in the steps.
pub open spec fn pushes_finished<T>(es: Seq<PopEvent<T>>) -> nat
    decreases es.len(),
{
    if es.len() == 0 {
        0
    } else if es.last() is FinishPush {
        pushes_finished(es.drop_last()) + 1
    } else {
        pushes_finished(es.drop_last())
    }
}

/// However the steps interleave, the pushes that began and have not finished are those of the values
/// that the node before does not point to.
pub proof fn law_pop_unfinished_pushes_counted<T>(c: Chain<T>, es: Seq<PopEvent<T>>)
    requires
        c.distinct(),
        c.can_all(es),
    ensures
        c.after(es).distinct(),
        unlinked(c.after(es).links) + pushes_finished(es) == unlinked(c.links) + pushes_begun(es),
    decreases es.len(),
{
    if es.len() > 0 {
        let es0 = es.drop_last();
        let c0 = c.after(es0);
        law_pop_unfinished_pushes_counted(c, es0);
        law_pop_keeps_distinct(c0, es.last());
        match es.last() {
            PopEvent::BeginPush { node, value } => {
                assert(c.after(es).links.drop_last() =~= c0.links);
            },
            PopEvent::FinishPush { push } => {
                let i = choose|i: int| c0.awaits_at(push, i);
                law_second_step_of_push(c0, push, i);
                lemma_unlinked_one_less(c0.links, c.after(es).links, i);
            },
            PopEvent::Pop => {
                if c0.reachable() {
                    lemma_unlinked_skip(c0.links);
                }
            },
        }
    }
}

/// Once every push that began has finished, a pop takes the first of the pushed values that has not
/// been popped, and finds the queue empty exactly where all have been.
pub proof fn law_pop_after_run<T>(c: Chain<T>, es: Seq<PopEvent<T>>)
    requires
        c.links.len() == 0,
        c.can_all(es),
        pushes_begun(es) == pushes_finished(es),
    ensures
        forall|i: int|
            0 <= i < c.after(es).links.len() ==> (#[trigger] c.after(es).links[i]).linked,
        c.left(es).len() <= c.entered(es).len(),
        c.after(es).links.len() == c.entered(es).len() - c.left(es).len(),
        c.after(es).reachable() <==> c.left(es).len() < c.entered(es).len(),
        c.after(es).reachable() ==> {
            &&& c.after(es).links[0].value == c.entered(es)[c.left(es).len() as int]
            &&& c.left(es.push(PopEvent::Pop)) == c.entered(es).take(c.left(es).len() as int + 1)
        },
{
    let d = c.after(es);
    law_pop_unfinished_pushes_counted(c, es);
    lemma_unlinked_zero(d.links);
    law_pop_fifo(c, es);
    assert(d.values().len() == d.links.len());
    if d.reachable() {
        let n = c.left(es).len() as int;
        assert(c.entered(es)[n] == d.values()[0]);
        assert(es.push(PopEvent::Pop).drop_last() =~= es);
        assert(c.left(es.push(PopEvent::Pop)) =~= c.entered(es).take(n + 1));
    }
}

} // verus!
