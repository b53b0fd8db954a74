//! What holds of the queues whatever their producers and consumers do, in whatever order.

use vstd::prelude::*;

use crate::item::QueuedData;
use crate::node_chain::{Chain, PendingPush};
use crate::state::{
    dequeued, lemma_begun_wf, lemma_cleaned_wf, lemma_completed_wf, lemma_disowned_wf,
    lemma_finished_wf, lemma_front_peeked_wf, lemma_front_removed_wf, lemma_queue_kept,
    lemma_released_wf, lemma_unpeeked_wf, DFState,
};

pub mod effects;
pub mod history;

verus! {

/// One step of a producer or of the consumer of a queue.
pub enum Event<T> {
    /// A producer or the consumer obtains a producer.
    ObtainProducer,
    /// A producer asks for the consumer.
    GetConsumer,
    /// A push begins, which puts the item in this node.
    BeginEnqueue { node: usize, queued: QueuedData<T> },
    /// A push finishes.
    FinishEnqueue { push: PendingPush },
    /// The consumer does one round of a peek.
    PeekStep,
    /// The consumer marks an item.
    MarkCompleted { id: usize },
    /// A producer lets go of an item.
    ReleaseQueued { id: usize },
    /// The consumer lets go of an item.
    ReleasePeeked { id: usize },
    /// A producer or the consumer lets go of the queue.
    ReleaseHandle,
}

impl<T> DFState<T> {
    /// Whether the step can be taken in this state.
    pub open spec fn can(self, e: Event<T>) -> bool {
        match e {
            Event::ObtainProducer => self.handles > 0,
            Event::GetConsumer => self.handles > 0,
            Event::BeginEnqueue { node, queued } => {
                &&& self.handles > 0
                &&& !self.chain().has_node(node)
                &&& queued.tag() == self.tag
                &&& !self.items.dom().contains(queued.id())
            },
            Event::FinishEnqueue { push } => self.awaits(push),
            Event::PeekStep => self.handles > 0 && self.has_consumer,
            Event::MarkCompleted { id } => self.items.dom().contains(id) && self.items[id].peeks
                > 0,
            Event::ReleaseQueued { id } => self.items.dom().contains(id) && self.items[id].owned,
            Event::ReleasePeeked { id } => self.items.dom().contains(id) && self.items[id].peeks
                > 0,
            Event::ReleaseHandle => self.handles > 0,
        }
    }

    /// The state after the step.
    pub open spec fn next(self, e: Event<T>) -> DFState<T> {
        match e {
            Event::ObtainProducer => self.shared(),
            Event::GetConsumer => if self.has_consumer {
                self
            } else {
                self.consumed()
            },
            Event::BeginEnqueue { node, queued } => self.begun(node, queued),
            Event::FinishEnqueue { push } => self.finished(push.node()),
            Event::PeekStep => if self.front_completed() {
                self.front_removed()
            } else if self.chain().reachable() {
                self.front_peeked()
            } else {
                self
            },
            Event::MarkCompleted { id } => self.completed(id),
            Event::ReleaseQueued { id } => self.disowned(id),
            Event::ReleasePeeked { id } => self.unpeeked(id),
            Event::ReleaseHandle => self.released(),
        }
    }

    /// The state after all the steps.
    pub open spec fn after(self, es: Seq<Event<T>>) -> DFState<T>
        decreases es.len(),
    {
        if es.len() == 0 {
            self
        } else {
            self.after(es.drop_last()).next(es.last())
        }
    }

    /// Whether each of the steps can be taken in its turn.
    pub open spec fn can_all(self, es: Seq<Event<T>>) -> bool
        decreases es.len(),
    {
        es.len() > 0 ==> self.can_all(es.drop_last()) && self.after(es.drop_last()).can(es.last())
    }

    /// The items that were put on the queue in the steps, in the order in which their pushes began.
    pub open spec fn entered(self, es: Seq<Event<T>>) -> Seq<QueuedData<T>>
        decreases es.len(),
    {
        if es.len() == 0 {
            Seq::empty()
        } else {
            let before = self.entered(es.drop_last());
            match es.last() {
                Event::BeginEnqueue { node, queued } => before.push(queued),
                _ => before,
            }
        }
    }

    /// The items that were taken off the queue by peeks in the steps, in order.
    pub open spec fn left(self, es: Seq<Event<T>>) -> Seq<QueuedData<T>>
        decreases es.len(),
    {
        if es.len() == 0 {
            Seq::empty()
        } else {
            let before = self.left(es.drop_last());
            let s = self.after(es.drop_last());
            if es.last() is PeekStep && s.front_completed() {
                before.push(s.chain().links[0].value)
            } else {
                before
            }
        }
    }

    /// The items that the consumer completed in the steps, in order: one for each time that it
    /// marked an item that was on the queue and not completed yet.
    pub open spec fn marked(self, es: Seq<Event<T>>) -> Seq<usize>
        decreases es.len(),
    {
        if es.len() == 0 {
            Seq::empty()
        } else {
            let before = self.marked(es.drop_last());
            let s = self.after(es.drop_last());
            match es.last() {
                Event::MarkCompleted { id } => if s.items[id].queued && !s.items[id].completed {
                    before.push(id)
                } else {
                    before
                },
                _ => before,
            }
        }
    }

    /// The number of items that the consumer completed in the steps.
    pub open spec fn marks(self, es: Seq<Event<T>>) -> nat {
        self.marked(es).len()
    }

    /// The number of consumers that were handed out in the steps.
    pub open spec fn consumers(self, es: Seq<Event<T>>) -> nat
        decreases es.len(),
    {
        if es.len() == 0 {
            0
        } else {
            let before = self.consumers(es.drop_last());
            let s = self.after(es.drop_last());
            if es.last() is GetConsumer && !s.has_consumer {
                before + 1
            } else {
                before
            }
        }
    }

    /// The number of producers and consumers that were handed out in the steps.
    pub open spec fn obtained(self, es: Seq<Event<T>>) -> nat
        decreases es.len(),
    {
        if es.len() == 0 {
            0
        } else {
            let before = self.obtained(es.drop_last());
            let s = self.after(es.drop_last());
            if es.last() is ObtainProducer || (es.last() is GetConsumer && !s.has_consumer) {
                before + 1
            } else {
                before
            }
        }
    }

    /// The number of producers and consumers that have let go of the queue in the steps.
    pub open spec fn let_go(self, es: Seq<Event<T>>) -> nat
        decreases es.len(),
    {
        if es.len() == 0 {
            0
        } else {
            let before = self.let_go(es.drop_last());
            if es.last() is ReleaseHandle {
                before + 1
            } else {
                before
            }
        }
    }

    /// The consumer has peeked, has completed the item that it found, and has let go of it.
    pub open spec fn served(self) -> DFState<T> {
        let t = self.cleaned();
        t.front_peeked().completed(t.id_at(0)).unpeeked(t.id_at(0))
    }

    /// The consumer has done so `n` times.
    pub open spec fn served_times(self, n: nat) -> DFState<T>
        decreases n,
    {
        if n == 0 {
            self
        } else {
            self.served_times((n - 1) as nat).served()
        }
    }
}

/// A queue starts out well formed.
pub proof fn law_opened_wf<T>(queue: Chain<QueuedData<T>>, has_consumer: bool)
    requires
        queue.links.len() == 0,
    ensures
        DFState::opened(queue, has_consumer).wf(),
        DFState::opened(queue, has_consumer).orderly(),
{
}

/// Every step keeps the state well formed.
pub proof fn law_step_keeps_wf<T>(s: DFState<T>, e: Event<T>)
    requires
        s.wf(),
        s.can(e),
    ensures
        s.next(e).wf(),
{
    match e {
        Event::ObtainProducer => lemma_queue_kept(s, s.next(e)),
        Event::GetConsumer => lemma_queue_kept(s, s.next(e)),
        Event::BeginEnqueue { node, queued } => lemma_begun_wf(s, node, queued),
        Event::FinishEnqueue { push } => lemma_finished_wf(s, push.node()),
        Event::PeekStep => {
            if s.front_completed() {
                lemma_front_removed_wf(s);
            } else if s.chain().reachable() {
                lemma_front_peeked_wf(s);
            }
        },
        Event::MarkCompleted { id } => lemma_completed_wf(s, id),
        Event::ReleaseQueued { id } => lemma_disowned_wf(s, id),
        Event::ReleasePeeked { id } => lemma_unpeeked_wf(s, id),
        Event::ReleaseHandle => lemma_released_wf(s),
    }
}

/// Whatever the producers and the consumer do, the state stays well formed.
pub proof fn law_run_keeps_wf<T>(s: DFState<T>, es: Seq<Event<T>>)
    requires
        s.wf(),
        s.can_all(es),
    ensures
        s.after(es).wf(),
    decreases es.len(),
{
    if es.len() > 0 {
        law_run_keeps_wf(s, es.drop_last());
        law_step_keeps_wf(s.after(es.drop_last()), es.last());
    }
}

/// Every step keeps the consumer on its way from front to back.
pub proof fn law_step_keeps_orderly<T>(s: DFState<T>, e: Event<T>)
    requires
        s.wf(),
        s.orderly(),
        s.can(e),
    ensures
        s.next(e).orderly(),
{
    let t = s.next(e);
    if t.queue is Some {
        match e {
            Event::PeekStep => {
                if s.front_completed() {
                    assert forall|id: usize|
                        #![trigger t.items[id]]
                        t.items.dom().contains(id) && t.items[id].queued && (t.items[id].completed
                            || t.items[id].peeks > 0)
                        implies t.chain().reachable() && t.id_at(0) == id by {
                        assert(s.items[id].queued);
                    }
                }
            },
            _ => {},
        }
        assert(s.len() > 0 ==> t.len() > 0 ==> e is PeekStep || t.id_at(0) == s.id_at(0));
    }
}

/// Whatever the producers and the consumer do, the consumer works its way from front to back.
pub proof fn law_run_keeps_orderly<T>(s: DFState<T>, es: Seq<Event<T>>)
    requires
        s.wf(),
        s.orderly(),
        s.can_all(es),
    ensures
        s.after(es).orderly(),
    decreases es.len(),
{
    if es.len() > 0 {
        law_run_keeps_orderly(s, es.drop_last());
        law_run_keeps_wf(s, es.drop_last());
        law_step_keeps_orderly(s.after(es.drop_last()), es.last());
    }
}

/// First in, first out: however the steps of the producers and the consumer interleave, the items
/// that have left the queue, followed by those that are still on it, are the items that were
/// enqueued, each once and in the order in which their pushes began.
pub proof fn law_fifo<T>(s: DFState<T>, es: Seq<Event<T>>)
    requires
        s.wf(),
        s.queue is Some,
        s.len() == 0,
        s.can_all(es),
    ensures
        s.left(es).is_prefix_of(s.entered(es)),
        s.after(es).queue is Some ==> s.left(es) + s.after(es).chain().values() == s.entered(es),
    decreases es.len(),
{
    if es.len() == 0 {
        assert(s.left(es) + s.after(es).chain().values() =~= s.entered(es));
    } else {
        let es0 = es.drop_last();
        let s0 = s.after(es0);
        law_fifo(s, es0);
        law_run_keeps_wf(s, es0);
        match es.last() {
            Event::BeginEnqueue { node, queued } => {
                assert(s0.next(es.last()).chain().values() =~= s0.chain().values().push(queued));
                assert(s.left(es) + s.after(es).chain().values() =~= s.entered(es));
            },
            Event::FinishEnqueue { push } => {
                assert(s0.next(es.last()).chain().values() =~= s0.chain().values());
            },
            Event::PeekStep => {
                if s0.front_completed() {
                    assert(s0.chain().values() =~= seq![s0.chain().links[0].value] + s.after(
                        es,
                    ).chain().values());
                    assert(s.left(es) + s.after(es).chain().values() =~= s.entered(es));
                }
            },
            _ => {},
        }
    }
}

/// There is never more than one consumer: in all the steps together at most one is handed out, and
/// none where the queue has one to begin with.
pub proof fn law_single_consumer<T>(s: DFState<T>, es: Seq<Event<T>>)
    requires
        s.can_all(es),
    ensures
        s.consumers(es) <= 1,
        s.has_consumer ==> s.consumers(es) == 0,
        s.after(es).has_consumer <==> s.has_consumer || s.consumers(es) == 1,
    decreases es.len(),
{
    if es.len() > 0 {
        law_single_consumer(s, es.drop_last());
    }
}

/// An empty queue holds no item.
proof fn lemma_empty_queue<T>(s: DFState<T>)
    requires
        s.wf(),
        s.queue is Some,
        s.len() == 0,
    ensures
        forall|id: usize|
            #![trigger s.items[id]]
            s.items.dom().contains(id) ==> !s.items[id].queued,
        s.orderly(),
{
    assert forall|id: usize|
        #![trigger s.items[id]]
        s.items.dom().contains(id) && s.items[id].queued implies false by {
        assert(s.on_queue(id));
    }
}

/// What a peek finds after any interleaving, if it finds anything: the first of the enqueued items
/// that has not left the queue and is not about to leave it. Once every push has finished, it finds
/// nothing only where there is none.
pub proof fn law_peek_finds_next<T>(s: DFState<T>, es: Seq<Event<T>>)
    requires
        s.wf(),
        s.queue is Some,
        s.len() == 0,
        s.can_all(es),
        s.after(es).queue is Some,
    ensures
        ({
            let t = s.after(es);
            let n = s.left(es).len() + if t.front_completed() {
                1nat
            } else {
                0nat
            };
            &&& n <= s.entered(es).len()
            &&& t.cleaned().chain().values() == s.entered(es).skip(n as int)
            &&& t.cleaned().chain().reachable() ==> n < s.entered(es).len()
            &&& t.chain().settled() && n < s.entered(es).len() ==> t.cleaned().chain().reachable()
            &&& n < s.entered(es).len() ==> t.cleaned().chain().links[0].value == s.entered(
                es,
            )[n as int]
        }),
{
    let t = s.after(es);
    let n = s.left(es).len() + if t.front_completed() {
        1nat
    } else {
        0nat
    };
    law_fifo(s, es);
    law_run_keeps_wf(s, es);
    lemma_empty_queue(s);
    law_run_keeps_orderly(s, es);
    law_peek_removes_at_most_one(t);
    if t.chain().settled() {
        law_settled_is_consistent(t);
    }
    assert(t.cleaned().chain().values() =~= s.entered(es).skip(n as int)) by {
        let values = t.chain().values();
        assert(s.entered(es) == s.left(es) + values);
        if t.front_completed() {
            assert(t.cleaned().chain().values() =~= values.skip(1));
        }
    }
    if t.cleaned().len() > 0 {
        assert(t.cleaned().chain().values()[0] == s.entered(es)[n as int]);
    }
}

/// The consumer gets each item once and in order, however the steps of the producers and the
/// consumer interleave: the items that it has completed are the first of those that were enqueued,
/// and they are those that have left the queue, with the one in front if it has been completed.
pub proof fn law_items_completed_once_in_order<T>(s: DFState<T>, es: Seq<Event<T>>)
    requires
        s.wf(),
        s.queue is Some,
        s.len() == 0,
        s.can_all(es),
        s.after(es).queue is Some,
    ensures
        s.marks(es) == s.left(es).len() + if s.after(es).front_completed() {
            1nat
        } else {
            0nat
        },
        s.marks(es) <= s.entered(es).len(),
        forall|i: int|
            0 <= i < s.marks(es) ==> #[trigger] s.marked(es)[i] == s.entered(es)[i].id(),
    decreases es.len(),
{
    law_fifo(s, es);
    lemma_empty_queue(s);
    if es.len() > 0 {
        let es0 = es.drop_last();
        let e = es.last();
        let s0 = s.after(es0);
        law_run_keeps_wf(s, es0);
        law_run_keeps_orderly(s, es0);
        law_items_completed_once_in_order(s, es0);
        law_fifo(s, es0);
        law_step_keeps_wf(s0, e);
        law_step_keeps_orderly(s0, e);
        match e {
            Event::MarkCompleted { id } => {
                if s0.items[id].queued && !s0.items[id].completed {
                    // the item is in front, so it is the next of those that entered
                    assert(s0.id_at(0) == id);
                    assert(s.entered(es0)[s.left(es0).len() as int] == s0.chain().values()[0]);
                }
            },
            Event::PeekStep => {
                if s0.front_completed() {
                    law_peek_removes_at_most_one(s0);
                }
            },
            _ => {},
        }
    }
}

/// What a peek finds after any interleaving, if it finds anything, is the first of the enqueued
/// items that the consumer has not completed. Once every push has finished, it finds nothing only
/// where there is none.
pub proof fn law_peek_finds_first_not_completed<T>(s: DFState<T>, es: Seq<Event<T>>)
    requires
        s.wf(),
        s.queue is Some,
        s.len() == 0,
        s.can_all(es),
        s.after(es).queue is Some,
    ensures
        s.marks(es) <= s.entered(es).len(),
        s.after(es).cleaned().chain().values() == s.entered(es).skip(s.marks(es) as int),
        s.after(es).cleaned().chain().reachable() ==> s.marks(es) < s.entered(es).len(),
        s.after(es).chain().settled() && s.marks(es) < s.entered(es).len()
            ==> s.after(es).cleaned().chain().reachable(),
        s.marks(es) < s.entered(es).len() ==> s.after(es).cleaned().chain().links[0].value
            == s.entered(es)[s.marks(es) as int],
{
    law_items_completed_once_in_order(s, es);
    law_peek_finds_next(s, es);
}

/// As long as nobody asks for the consumer, there is none and nothing leaves the queue; and the
/// first consumer finds the oldest item, or nothing where there is none.
pub proof fn law_first_consumer<T>(s: DFState<T>, es: Seq<Event<T>>)
    requires
        s.wf(),
        s.queue is Some,
        s.len() == 0,
        !s.has_consumer,
        s.can_all(es),
        forall|i: int| 0 <= i < es.len() ==> !(#[trigger] es[i] is GetConsumer),
    ensures
        !s.after(es).has_consumer,
        s.left(es).len() == 0,
        s.after(es).queue is Some && s.after(es).chain().settled() ==> {
            let t = s.after(es).consumed();
            &&& t.cleaned().chain().reachable() <==> s.entered(es).len() > 0
            &&& s.entered(es).len() > 0 ==> t.cleaned().chain().links[0].value == s.entered(es)[0]
        },
{
    lemma_no_consumer(s, es);
    if s.after(es).queue is Some && s.after(es).chain().settled() {
        let s0 = s.after(es);
        let t = s0.consumed();
        law_fifo(s, es);
        law_run_keeps_wf(s, es);
        lemma_queue_kept(s0, t);
        law_settled_is_consistent(t);
        assert(s0.chain().values() =~= s.entered(es));
        if t.len() > 0 {
            assert(t.id_at(0) == s0.id_at(0));
            assert(s0.chain().values()[0] == t.chain().links[0].value);
            assert(!t.items[t.id_at(0)].completed) by {
                assert(s0.items.dom().contains(s0.id_at(0)));
            }
        }
        assert(t.cleaned() == t);
    }
}

/// Without a consumer no item on the queue is ever completed or held by one.
proof fn lemma_no_consumer<T>(s: DFState<T>, es: Seq<Event<T>>)
    requires
        s.wf(),
        s.queue is Some,
        s.len() == 0,
        !s.has_consumer,
        s.can_all(es),
        forall|i: int| 0 <= i < es.len() ==> !(#[trigger] es[i] is GetConsumer),
    ensures
        !s.after(es).has_consumer,
        s.left(es).len() == 0,
        s.after(es).queue is Some ==> forall|id: usize|
            #![trigger s.after(es).items[id]]
            s.after(es).items.dom().contains(id) && s.after(es).items[id].queued ==> !s.after(
                es,
            ).items[id].completed && s.after(es).items[id].peeks == 0,
    decreases es.len(),
{
    if es.len() == 0 {
        lemma_empty_queue(s);
    } else {
        let es0 = es.drop_last();
        assert forall|i: int| 0 <= i < es0.len() implies !(#[trigger] es0[i] is GetConsumer) by {
            assert(es0[i] == es[i]);
        }
        assert(es[es.len() - 1] == es.last());
        lemma_no_consumer(s, es0);
        law_run_keeps_wf(s, es0);
    }
}

/// A consumer that peeks, completes what it finds and lets go of it, again and again, gets every
/// item that is on the queue and not completed, each once and in order: after `n` rounds a peek
/// finds the `n`-th of them, and after as many rounds as there are items the queue is empty.
pub proof fn law_consumer_gets_each_once<T>(s: DFState<T>, n: nat)
    requires
        s.wf(),
        s.orderly(),
        s.queue is Some,
        s.chain().settled(),
        n <= s.cleaned().len(),
    ensures
        s.served_times(n).wf(),
        s.served_times(n).orderly(),
        s.served_times(n).queue is Some,
        s.served_times(n).chain().settled(),
        s.served_times(n).cleaned().chain().values() == s.cleaned().chain().values().skip(n as int),
        n < s.cleaned().len() ==> {
            &&& s.served_times(n).cleaned().chain().reachable()
            &&& s.served_times(n).cleaned().chain().links[0].value
                == s.cleaned().chain().links[n as int].value
        },
        n == s.cleaned().len() ==> s.served_times(n).cleaned().len() == 0,
    decreases n,
{
    let values = s.cleaned().chain().values();
    if n == 0 {
        assert(values.skip(0) =~= values);
    } else {
        let m = (n - 1) as nat;
        let t = s.served_times(m);
        law_consumer_gets_each_once(s, m);
        lemma_served(t);
        assert(t.cleaned().chain().values().skip(1) =~= values.skip(n as int));
    }
    let u = s.served_times(n);
    law_settled_is_consistent(u);
    assert(u.cleaned().chain().values().len() == values.len() - n);
    if n < s.cleaned().len() {
        assert(u.cleaned().chain().values()[0] == values[n as int]);
    }
}

/// One round of a consumer that completes what it finds.
proof fn lemma_served<T>(s: DFState<T>)
    requires
        s.wf(),
        s.orderly(),
        s.queue is Some,
        s.chain().settled(),
        s.cleaned().len() > 0,
    ensures
        s.served().wf(),
        s.served().orderly(),
        s.served().queue is Some,
        s.served().chain().settled(),
        s.served().cleaned().chain().values() == s.cleaned().chain().values().skip(1),
{
    let t = s.cleaned();
    let id = t.id_at(0);
    lemma_cleaned_wf(s);
    lemma_cleaned_orderly(s);
    law_settled_is_consistent(s);
    assert(t.items.dom().contains(id) && t.items[id].queued);
    let u = t.front_peeked();
    lemma_front_peeked_wf(t);
    assert(u.id_at(0) == id);
    assert(u.orderly());
    let v = u.completed(id);
    lemma_completed_wf(u, id);
    assert(v.id_at(0) == id);
    law_step_keeps_orderly(u, Event::MarkCompleted { id });
    let w = v.unpeeked(id);
    lemma_unpeeked_wf(v, id);
    assert(w.id_at(0) == id);
    law_step_keeps_orderly(v, Event::ReleasePeeked { id });
    assert(w.items.dom().contains(id) && w.items[id].completed);
    law_peek_removes_at_most_one(w);
    assert(w.cleaned().chain() == t.chain().advanced());
    assert(w.cleaned().chain().values() =~= t.chain().values().skip(1));
}

/// The queue lives as long as one of its producers and consumers has not let go of it, and no
/// longer.
pub proof fn law_queue_lives_while_held<T>(s: DFState<T>, es: Seq<Event<T>>)
    requires
        s.wf(),
        s.can_all(es),
    ensures
        s.after(es).handles + s.let_go(es) == s.handles + s.obtained(es),
        s.after(es).queue is Some <==> s.let_go(es) < s.handles + s.obtained(es),
    decreases es.len(),
{
    law_run_keeps_wf(s, es);
    if es.len() > 0 {
        law_queue_lives_while_held(s, es.drop_last());
    }
}

/// One producer is as good as another: a producer that is obtained changes neither the queue nor
/// its items nor whether there is a consumer, and each step can be taken, and does the same, with
/// it as without it, but for letting go of the queue.
pub proof fn law_producers_are_alike<T>(s: DFState<T>, e: Event<T>)
    requires
        s.wf(),
        s.handles > 0,
        !(e is ReleaseHandle),
    ensures
        s.shared().queue == s.queue,
        s.shared().items == s.items,
        s.shared().has_consumer == s.has_consumer,
        s.shared().can(e) <==> s.can(e),
        s.shared().next(e) == s.next(e).shared(),
        s.shared().released() == s,
{
}

/// Nothing leaves the queue before it has been completed: a step after which an item is off the
/// queue finds it completed, unless the step takes the whole queue down.
pub proof fn law_only_completed_leave<T>(s: DFState<T>, e: Event<T>, id: usize)
    requires
        s.wf(),
        s.can(e),
        s.items.dom().contains(id),
        s.items[id].queued,
        s.next(e).queue is Some,
        !s.next(e).items.dom().contains(id) || !s.next(e).items[id].queued,
    ensures
        e is PeekStep,
        s.items[id].completed,
        s.id_at(0) == id,
{
    assert(s.on_queue(id));
}

/// An item that has not been completed stays on its queue as long as the queue is there, whatever
/// the producers and the consumer do.
pub proof fn law_not_completed_is_on_queue<T>(s: DFState<T>, id: usize)
    requires
        s.wf(),
        s.queue is Some,
        s.items.dom().contains(id),
        !s.items[id].completed,
    ensures
        s.items[id].queued,
        s.on_queue(id),
{
    assert(s.items[id].queued);
}

/// An item says that it is queued exactly when it is on the queue.
pub proof fn law_queued_is_on_queue<T>(s: DFState<T>, id: usize)
    requires
        s.wf(),
        s.queue is Some,
        s.items.dom().contains(id),
    ensures
        s.items[id].queued <==> s.on_queue(id),
{
    if s.on_queue(id) {
        let i = choose|i: int| 0 <= i < s.len() && #[trigger] s.id_at(i) == id;
        assert(s.items[s.id_at(i)].queued);
    }
    if s.items[id].queued {
        assert(s.on_queue(id));
    }
}

/// Once the consumer has let go of an item, the producer's own reference is the only one exactly
/// when the item is off the queue.
pub proof fn law_refs_tell_enqueued<T>(s: DFState<T>, id: usize)
    requires
        s.wf(),
        s.queue is Some,
        s.items.dom().contains(id),
        s.items[id].owned,
        s.items[id].peeks == 0,
    ensures
        s.items[id].refs() > 1 <==> s.on_queue(id),
{
    law_queued_is_on_queue(s, id);
}

/// An item that is neither completed nor on the queue has failed, by the count of its references,
/// exactly when the consumer does not refer to it any more.
pub proof fn law_refs_tell_failed<T>(s: DFState<T>, id: usize)
    requires
        s.wf(),
        s.items.dom().contains(id),
        s.items[id].owned,
        !s.items[id].completed,
        !s.items[id].queued,
    ensures
        s.queue is None,
        s.items[id].refs() == 1 <==> s.items[id].peeks == 0,
{
}

/// No item fails while its queue is there.
pub proof fn law_no_failure_while_queue_lives<T>(s: DFState<T>, id: usize)
    requires
        s.wf(),
        s.queue is Some,
        s.items.dom().contains(id),
        s.items[id].owned,
    ensures
        s.items[id].completed || s.items[id].refs() > 1,
{
    assert(s.items[id].completed || s.items[id].queued);
}

/// When the last producer or consumer lets go of a queue on which every push has finished, each
/// item that was not completed and that only its producer still refers to has failed, and its
/// data is still the producer's to enqueue again.
pub proof fn law_queue_gone_is_failure<T>(s: DFState<T>, id: usize)
    requires
        s.wf(),
        s.handles == 1,
        s.chain().settled(),
        s.items.dom().contains(id),
        s.items[id].owned,
        !s.items[id].completed,
        s.items[id].peeks == 0,
    ensures
        s.released().items.dom().contains(id),
        !s.released().items[id].completed,
        s.released().items[id].refs() == 1,
        s.released().items[id].data == s.items[id].data,
{
    law_not_completed_is_on_queue(s, id);
    law_reach(s.chain());
    let i = choose|i: int| 0 <= i < s.len() && #[trigger] s.id_at(i) == id;
    assert(s.first_ids(s.chain().reach() as int).contains(id)) by {
        assert(s.id_at(i) == id);
    }
}

/// As long as a producer does not let go of an item, the item is there with its data, and once it
/// is completed it stays completed.
pub proof fn law_producer_retains<T>(s: DFState<T>, e: Event<T>, id: usize)
    requires
        s.wf(),
        s.can(e),
        s.items.dom().contains(id),
        s.items[id].owned,
        !(e matches Event::ReleaseQueued { id: other } && other == id),
    ensures
        s.next(e).items.dom().contains(id),
        s.next(e).items[id].owned,
        s.next(e).items[id].data == s.items[id].data,
        s.items[id].completed ==> s.next(e).items[id].completed,
{
}

/// Whatever becomes of the queue, the producer keeps the data of an item that it does not let go
/// of.
pub proof fn law_producer_keeps_data<T>(s: DFState<T>, es: Seq<Event<T>>, queued: QueuedData<T>)
    requires
        s.wf(),
        s.owns(queued),
        s.can_all(es),
        forall|i: int|
            0 <= i < es.len() ==> !(#[trigger] es[i] matches Event::ReleaseQueued { id } && id
                == queued.id()),
    ensures
        s.after(es).owns(queued),
        s.items[queued.id()].completed ==> s.after(es).items[queued.id()].completed,
    decreases es.len(),
{
    if es.len() > 0 {
        let es0 = es.drop_last();
        assert forall|i: int|
            0 <= i < es0.len()
            implies !(#[trigger] es0[i] matches Event::ReleaseQueued { id } && id == queued.id()) by {
            assert(es0[i] == es[i]);
        }
        assert(es[es.len() - 1] == es.last());
        law_producer_keeps_data(s, es0, queued);
        law_run_keeps_wf(s, es0);
        law_producer_retains(s.after(es0), es.last(), queued.id());
    }
}

/// As long as the consumer does not let go of an item that it peeked at, the item is there with its
/// data, even after it has left the queue.
pub proof fn law_consumer_retains<T>(s: DFState<T>, e: Event<T>, id: usize)
    requires
        s.wf(),
        s.can(e),
        s.items.dom().contains(id),
        s.items[id].peeks > 0,
        !(e matches Event::ReleasePeeked { id: other } && other == id),
    ensures
        s.next(e).items.dom().contains(id),
        s.next(e).items[id].peeks >= s.items[id].peeks,
        s.next(e).items[id].data == s.items[id].data,
        s.items[id].completed ==> s.next(e).items[id].completed,
{
}

/// Only the consumer completes an item, and only one that it has a reference to.
pub proof fn law_only_marking_completes<T>(s: DFState<T>, e: Event<T>, id: usize)
    requires
        s.wf(),
        s.can(e),
        s.items.dom().contains(id),
        s.next(e).items.dom().contains(id),
        s.next(e).items[id].completed,
        !s.items[id].completed,
    ensures
        e == (Event::<T>::MarkCompleted { id }),
        s.items[id].peeks > 0,
{
}

/// A new item is at the end of the queue, behind all others, and is enqueued, not completed and
/// not failed.
pub proof fn law_enqueue_appends<T>(s: DFState<T>, node: usize, queued: QueuedData<T>)
    requires
        s.wf(),
        s.queue is Some,
        !s.chain().has_node(node),
        queued.tag() == s.tag,
        !s.items.dom().contains(queued.id()),
    ensures
        s.enqueued(node, queued) == s.begun(node, queued).finished(node),
        s.enqueued(node, queued).wf(),
        s.enqueued(node, queued).chain().values() == s.chain().values().push(queued),
        s.enqueued(node, queued).items[queued.id()].queued,
        !s.enqueued(node, queued).items[queued.id()].completed,
        s.enqueued(node, queued).items[queued.id()].refs() == 2,
{
    law_push_is_two_steps(s.chain(), node, queued);
    lemma_begun_wf(s, node, queued);
    lemma_finished_wf(s.begun(node, queued), node);
}

/// A peek removes the completed items in front, one round for each, and then looks at the item in
/// front, if it can reach one.
pub proof fn law_peek_in_steps<T>(s: DFState<T>)
    requires
        s.wf(),
        s.queue is Some,
    ensures
        s.cleaned().wf(),
        s.cleaned() == (if s.front_completed() {
            s.next(Event::PeekStep).cleaned()
        } else {
            s
        }),
        s.cleaned().next(Event::PeekStep) == (if s.cleaned().chain().reachable() {
            s.cleaned().front_peeked()
        } else {
            s.cleaned()
        }),
{
    lemma_cleaned_wf(s);
}

/// A peek takes off the queue the longest run of items in front that are completed and within
/// reach. Nothing else leaves the queue, what stays keeps its order, and every item that there is
/// afterwards has the data, the mark and the references that it had before, but for the one of the
/// queue.
pub proof fn law_peek_cleans<T>(s: DFState<T>)
    requires
        s.wf(),
        s.queue is Some,
    ensures
        s.cleaned().queue is Some,
        s.cleaned().len() <= s.len(),
        s.cleaned().chain().links == s.chain().links.skip(s.len() - s.cleaned().len()),
        forall|i: int|
            #![trigger s.id_at(i)]
            #![trigger s.chain().links[i]]
            0 <= i < s.len() - s.cleaned().len() ==> s.chain().links[i].linked
                && s.items[s.id_at(i)].completed,
        !s.cleaned().front_completed(),
        s.cleaned().items == dequeued(
            s.items,
            s.first_ids(s.len() - s.cleaned().len()),
        ),
    decreases s.len(),
{
    if s.front_completed() {
        let t = s.front_removed();
        lemma_front_removed_wf(s);
        law_peek_cleans(t);
        let u = s.cleaned();
        let n = s.len() - u.len();
        assert(u == t.cleaned());
        assert(t.chain().links.skip(n - 1) =~= s.chain().links.skip(n));
        assert forall|i: int| 0 <= i < t.len() implies #[trigger] t.id_at(i) == s.id_at(i + 1) by {}
        assert forall|i: int|
            #![trigger s.id_at(i)]
            #![trigger s.chain().links[i]]
            0 <= i < n implies s.chain().links[i].linked && s.items[s.id_at(i)].completed by {
            if i > 0 {
                assert(t.id_at(i - 1) == s.id_at(i));
                assert(t.chain().links[i - 1] == s.chain().links[i]);
            }
        }
        assert forall|id: usize| #[trigger]
            s.first_ids(n).contains(id) <==> t.first_ids(n - 1).contains(id)
                || id == s.id_at(0) by {
            if t.first_ids(n - 1).contains(id) {
                let i = choose|i: int| 0 <= i < n - 1 && #[trigger] t.id_at(i) == id;
                assert(s.id_at(i + 1) == id);
            }
            if s.first_ids(n).contains(id) {
                let i = choose|i: int| 0 <= i < n && #[trigger] s.id_at(i) == id;
                if i > 0 {
                    assert(t.id_at(i - 1) == id);
                }
            }
        }
        assert(u.items =~= dequeued(s.items, s.first_ids(n)));
    } else {
        assert(s.chain().links.skip(0) =~= s.chain().links);
        assert(dequeued(s.items, s.first_ids(0)) =~= s.items);
    }
}

/// As the consumer works its way from front to back, a peek removes at most one item.
pub proof fn law_peek_removes_at_most_one<T>(s: DFState<T>)
    requires
        s.wf(),
        s.orderly(),
        s.queue is Some,
    ensures
        s.cleaned() == (if s.front_completed() {
            s.front_removed()
        } else {
            s
        }),
{
    if s.front_completed() {
        let t = s.front_removed();
        if t.len() > 0 {
            assert(t.id_at(0) == s.id_at(1));
            assert(s.items[s.id_at(1)].queued);
            assert(s.id_at(0) != s.id_at(1));
        }
        assert(!t.front_completed());
        assert(t.cleaned() == t);
    }
}

/// After a peek no completed item is on the queue.
pub proof fn law_peek_removes_completed<T>(s: DFState<T>, id: usize)
    requires
        s.wf(),
        s.orderly(),
        s.queue is Some,
        s.cleaned().items.dom().contains(id),
        s.cleaned().items[id].completed,
    ensures
        !s.cleaned().items[id].queued,
        !s.cleaned().on_queue(id),
{
    lemma_cleaned_wf(s);
    lemma_cleaned_orderly(s);
    law_queued_is_on_queue(s.cleaned(), id);
    assert(s.cleaned().items[id].queued ==> s.cleaned().front_completed());
}

/// A peek keeps the consumer on its way from front to back.
proof fn lemma_cleaned_orderly<T>(s: DFState<T>)
    requires
        s.wf(),
        s.orderly(),
        s.queue is Some,
    ensures
        s.cleaned().orderly(),
{
    law_peek_removes_at_most_one(s);
    if s.front_completed() {
        let t = s.front_removed();
        assert forall|id: usize|
            #![trigger t.items[id]]
            t.items.dom().contains(id) && t.items[id].queued && (t.items[id].completed
                || t.items[id].peeks > 0) implies t.chain().reachable() && t.id_at(0) == id by {
            assert(s.items[id].queued);
        }
    }
}

/// A peek removes nothing that has not been completed: the items on the queue that are not
/// completed are the same before and after, in the same order.
pub proof fn law_peek_keeps_the_rest<T>(s: DFState<T>)
    requires
        s.wf(),
        s.orderly(),
        s.queue is Some,
    ensures
        s.cleaned().chain().values() == s.chain().values().filter(
            |q: QueuedData<T>| !s.items[q.id()].completed,
        ),
{
    let open = |q: QueuedData<T>| !s.items[q.id()].completed;
    let values = s.chain().values();
    let rest = s.cleaned().chain().values();
    law_peek_removes_at_most_one(s);
    if s.front_completed() {
        assert(values =~= seq![values[0]] + rest);
        assert forall|i: int| 0 <= i < rest.len() implies open(#[trigger] rest[i]) by {
            assert(s.id_at(i + 1) == rest[i].id());
            assert(s.items[s.id_at(i + 1)].queued);
            assert(s.id_at(0) != s.id_at(i + 1));
        }
        lemma_filter_all(rest, open);
        Seq::filter_distributes_over_add(seq![values[0]], rest, open);
        assert(seq![values[0]].filter(open) =~= Seq::<QueuedData<T>>::empty()) by {
            assert(s.id_at(0) == values[0].id());
            assert(seq![values[0]].drop_last() =~= Seq::<QueuedData<T>>::empty());
            reveal_with_fuel(Seq::filter, 2);
        }
        assert(values.filter(open) =~= rest);
    } else {
        assert forall|i: int| 0 <= i < values.len() implies open(#[trigger] values[i]) by {
            assert(s.id_at(i) == values[i].id());
            assert(s.items[s.id_at(i)].queued);
        }
        lemma_filter_all(values, open);
    }
}

/// A filter that lets every element through changes nothing.
proof fn lemma_filter_all<A>(s: Seq<A>, keep: spec_fn(A) -> bool)
    requires
        forall|i: int| 0 <= i < s.len() ==> keep(#[trigger] s[i]),
    ensures
        s.filter(keep) == s,
    decreases s.len(),
{
    reveal(Seq::filter);
    if s.len() > 0 {
        lemma_filter_all(s.drop_last(), keep);
        assert(s =~= s.drop_last().push(s.last()));
    }
}

/// A peek that follows a peek, with no item completed in between, finds the same item in front.
pub proof fn law_peek_again<T>(s: DFState<T>)
    requires
        s.wf(),
        s.queue is Some,
        s.cleaned().chain().reachable(),
    ensures
        s.cleaned().front_peeked().cleaned() == s.cleaned().front_peeked(),
        s.cleaned().front_peeked().chain() == s.cleaned().chain(),
{
    lemma_cleaned_wf(s);
}

/// As long as the consumer holds a reference to an item that it has not completed, a peek finds
/// that item.
pub proof fn law_peek_finds_held_item<T>(s: DFState<T>, id: usize)
    requires
        s.wf(),
        s.orderly(),
        s.queue is Some,
        s.items.dom().contains(id),
        !s.items[id].completed,
        s.items[id].peeks > 0,
    ensures
        s.cleaned() == s,
        s.cleaned().chain().reachable(),
        s.cleaned().id_at(0) == id,
        s.cleaned().chain().links[0].value.data() == s.items[id].data,
{
    assert(s.items[id].queued);
    assert(s.id_at(0) == id);
}

/// The item in front stays in front until the consumer completes it, whatever else the producers
/// and the consumer do, and each peek finds it.
pub proof fn law_front_stays<T>(s: DFState<T>, es: Seq<Event<T>>)
    requires
        s.wf(),
        s.queue is Some,
        s.chain().reachable(),
        !s.front_completed(),
        s.can_all(es),
        forall|i: int|
            0 <= i < es.len() ==> !(#[trigger] es[i] matches Event::MarkCompleted { id } && id
                == s.id_at(0)),
        s.after(es).queue is Some,
    ensures
        s.after(es).cleaned() == s.after(es),
        s.after(es).chain().reachable(),
        s.after(es).chain().links[0].value == s.chain().links[0].value,
        !s.after(es).front_completed(),
    decreases es.len(),
{
    if es.len() > 0 {
        let es0 = es.drop_last();
        let s0 = s.after(es0);
        let e = es.last();
        law_run_keeps_wf(s, es0);
        assert(s0.queue is Some);
        assert forall|i: int|
            0 <= i < es0.len()
            implies !(#[trigger] es0[i] matches Event::MarkCompleted { id } && id == s.id_at(0)) by {
            assert(es0[i] == es[i]);
        }
        law_front_stays(s, es0);
        assert(es[es.len() - 1] == e);
        let id = s.id_at(0);
        assert(s0.id_at(0) == id);
        assert(s0.items[id].queued);
        assert(s.after(es).id_at(0) == id);
    }
}

/// Once the consumer has completed the item in front, the next peek takes it off the queue and
/// finds the item after it in front.
pub proof fn law_completed_makes_way<T>(s: DFState<T>)
    requires
        s.wf(),
        s.orderly(),
        s.queue is Some,
        s.chain().reachable(),
        s.items[s.id_at(0)].peeks > 0,
    ensures
        s.completed(s.id_at(0)).cleaned().chain() == s.chain().advanced(),
        !s.completed(s.id_at(0)).cleaned().on_queue(s.id_at(0)),
{
    let id = s.id_at(0);
    let t = s.completed(id);
    assert(s.items.dom().contains(id));
    assert(s.can(Event::MarkCompleted { id }));
    law_step_keeps_orderly(s, Event::MarkCompleted { id });
    lemma_completed_wf(s, id);
    assert(t.id_at(0) == id);
    assert(t.front_completed());
    law_peek_removes_at_most_one(t);
    let u = t.cleaned();
    assert forall|i: int| 0 <= i < u.len() implies #[trigger] u.id_at(i) != id by {
        assert(u.id_at(i) == s.id_at(i + 1));
    }
}

/// Where every push has finished, a peek finds an item or an empty queue, never an inconsistent
/// state.
pub proof fn law_settled_is_consistent<T>(s: DFState<T>)
    requires
        s.wf(),
        s.queue is Some,
        s.chain().settled(),
    ensures
        s.cleaned().chain().settled(),
        s.cleaned().len() == 0 || s.cleaned().chain().reachable(),
{
    law_peek_cleans(s);
    let c = s.cleaned().chain();
    let n = s.len() - s.cleaned().len();
    assert forall|i: int| 0 <= i < c.links.len() implies (#[trigger] c.links[i]).linked by {
        assert(c.links[i] == s.chain().links[i + n]);
    }
}

/// The node that a push still has to write to is not freed before: whatever step others take, the
/// push can be finished, as long as the queue is there.
pub proof fn law_pending_push_stays_valid<T>(s: DFState<T>, e: Event<T>, push: PendingPush)
    requires
        s.wf(),
        s.can(e),
        s.awaits(push),
        s.next(e).queue is Some,
        !(e matches Event::FinishEnqueue { push: other } && other.node() == push.node()),
    ensures
        s.next(e).awaits(push),
        s.next(e).chain().has_node(push.prev()),
{
    match e {
        Event::BeginEnqueue { node, queued } => law_pushed_keeps_pending(
            s.chain(),
            node,
            queued,
            push,
        ),
        Event::FinishEnqueue { push: other } => law_linked_keeps_pending(
            s.chain(),
            other.node(),
            push,
        ),
        Event::PeekStep => {
            if s.front_completed() {
                law_advanced_keeps_pending(s.chain(), push);
            }
        },
        _ => {},
    }
    let c = s.next(e).chain();
    let i = choose|i: int| c.awaits_at(push, i);
    assert(c.before(i) == push.prev());
}

/// A push that begins leaves the others as they are.
pub proof fn law_pushed_keeps_pending<V>(c: Chain<V>, node: usize, value: V, push: PendingPush)
    requires
        c.awaits(push),
    ensures
        c.pushed(node, value).awaits(push),
{
    let i = choose|i: int| c.awaits_at(push, i);
    assert(c.pushed(node, value).awaits_at(push, i));
}

/// A push that finishes leaves the others as they are.
pub proof fn law_linked_keeps_pending<V>(c: Chain<V>, node: usize, push: PendingPush)
    requires
        c.awaits(push),
        push.node() != node,
    ensures
        c.linked_to(node).awaits(push),
{
    let i = choose|i: int| c.awaits_at(push, i);
    assert(c.linked_to(node).awaits_at(push, i));
}

/// The consumer never gets past a node that a push still has to write to.
pub proof fn law_advanced_keeps_pending<V>(c: Chain<V>, push: PendingPush)
    requires
        c.awaits(push),
        c.reachable(),
    ensures
        c.advanced().awaits(push),
{
    let i = choose|i: int| c.awaits_at(push, i);
    assert(i > 0);
    assert(c.advanced().awaits_at(push, i - 1));
}

/// What can be reached from the tail is what comes before the first push that has not finished.
pub proof fn law_reach<V>(c: Chain<V>)
    ensures
        c.reach() <= c.links.len(),
        forall|i: int| 0 <= i < c.reach() ==> (#[trigger] c.links[i]).linked,
        c.reach() < c.links.len() ==> !c.links[c.reach() as int].linked,
        c.settled() ==> c.reach() == c.links.len(),
    decreases c.links.len(),
{
    if c.reachable() {
        let d = c.advanced();
        law_reach(d);
        assert forall|i: int| 0 <= i < c.reach() implies (#[trigger] c.links[i]).linked by {
            if i > 0 {
                assert(d.links[i - 1].linked);
            }
        }
    }
}

/// One step of a producer or of the consumer of a queue from which items are popped.
pub enum PopEvent<T> {
    /// A push begins, which puts the value in this node.
    BeginPush { node: usize, value: T },
    /// A push finishes.
    FinishPush { push: PendingPush },
    /// The consumer tries to pop.
    Pop,
}

impl<T> Chain<T> {
    /// Whether the step can be taken.
    pub open spec fn can(self, e: PopEvent<T>) -> bool {
        match e {
            PopEvent::BeginPush { node, value } => !self.has_node(node),
            PopEvent::FinishPush { push } => self.awaits(push),
            PopEvent::Pop => true,
        }
    }

    /// The chain after the step.
    pub open spec fn next(self, e: PopEvent<T>) -> Chain<T> {
        match e {
            PopEvent::BeginPush { node, value } => self.pushed(node, value),
            PopEvent::FinishPush { push } => self.linked_to(push.node()),
            PopEvent::Pop => if self.reachable() {
                self.advanced()
            } else {
                self
            },
        }
    }

    /// The chain after all the steps.
    pub open spec fn after(self, es: Seq<PopEvent<T>>) -> Chain<T>
        decreases es.len(),
    {
        if es.len() == 0 {
            self
        } else {
            self.after(es.drop_last()).next(es.last())
        }
    }

    /// Whether each of the steps can be taken in its turn.
    pub open spec fn can_all(self, es: Seq<PopEvent<T>>) -> bool
        decreases es.len(),
    {
        es.len() > 0 ==> self.can_all(es.drop_last()) && self.after(es.drop_last()).can(es.last())
    }

    /// The values that were pushed in the steps, in the order in which their pushes began.
    pub open spec fn entered(self, es: Seq<PopEvent<T>>) -> Seq<T>
        decreases es.len(),
    {
        if es.len() == 0 {
            Seq::empty()
        } else {
            let before = self.entered(es.drop_last());
            match es.last() {
                PopEvent::BeginPush { node, value } => before.push(value),
                _ => before,
            }
        }
    }

    /// The values that were popped in the steps, in order.
    pub open spec fn left(self, es: Seq<PopEvent<T>>) -> Seq<T>
        decreases es.len(),
    {
        if es.len() == 0 {
            Seq::empty()
        } else {
            let before = self.left(es.drop_last());
            let c = self.after(es.drop_last());
            if es.last() is Pop && c.reachable() {
                before.push(c.links[0].value)
            } else {
                before
            }
        }
    }
}

/// First in, first out: however the steps of the producers and the consumer interleave, the values
/// that have been popped, followed by those that are still in the queue, are the values that were
/// pushed, each once and in the order in which their pushes began.
pub proof fn law_pop_fifo<T>(c: Chain<T>, es: Seq<PopEvent<T>>)
    requires
        c.links.len() == 0,
        c.can_all(es),
    ensures
        c.left(es) + c.after(es).values() == c.entered(es),
    decreases es.len(),
{
    if es.len() > 0 {
        let c0 = c.after(es.drop_last());
        law_pop_fifo(c, es.drop_last());
        match es.last() {
            PopEvent::BeginPush { node, value } => {
                assert(c0.next(es.last()).values() =~= c0.values().push(value));
            },
            PopEvent::FinishPush { push } => {
                assert(c0.next(es.last()).values() =~= c0.values());
            },
            PopEvent::Pop => {
                if c0.reachable() {
                    assert(c0.values() =~= seq![c0.links[0].value] + c0.advanced().values());
                }
            },
        }
    }
    assert(c.left(es) + c.after(es).values() =~= c.entered(es));
}

/// Whatever the producers and the consumer do, no two nodes share an address.
pub proof fn law_pop_keeps_distinct<T>(c: Chain<T>, e: PopEvent<T>)
    requires
        c.distinct(),
        c.can(e),
    ensures
        c.next(e).distinct(),
{
    let d = c.next(e);
    match e {
        PopEvent::BeginPush { node, value } => {
            assert forall|i: int|
                0 <= i <= c.links.len() implies #[trigger] d.before(i) == c.before(i) by {}
        },
        PopEvent::FinishPush { push } => {
            assert forall|i: int|
                0 <= i <= c.links.len() implies #[trigger] d.before(i) == c.before(i) by {}
        },
        PopEvent::Pop => {
            if c.reachable() {
                assert forall|i: int|
                    0 <= i < c.links.len() implies #[trigger] d.before(i) == c.before(i + 1) by {}
            }
        },
    }
}

/// The node that a push still has to write to is not freed before: whatever step others take, the
/// push can be finished.
pub proof fn law_pop_keeps_pending<T>(c: Chain<T>, e: PopEvent<T>, push: PendingPush)
    requires
        c.can(e),
        c.awaits(push),
        !(e matches PopEvent::FinishPush { push: other } && other.node() == push.node()),
    ensures
        c.next(e).awaits(push),
{
    match e {
        PopEvent::BeginPush { node, value } => law_pushed_keeps_pending(c, node, value, push),
        PopEvent::FinishPush { push: other } => law_linked_keeps_pending(c, other.node(), push),
        PopEvent::Pop => {
            if c.reachable() {
                law_advanced_keeps_pending(c, push);
            }
        },
    }
}

/// A push in one go is its two steps one after the other, and puts the value behind all others.
pub proof fn law_push_is_two_steps<T>(c: Chain<T>, node: usize, value: T)
    requires
        !c.has_node(node),
    ensures
        c.appended(node, value) == c.pushed(node, value).linked_to(node),
        c.appended(node, value).values() == c.values().push(value),
        c.settled() ==> c.appended(node, value).settled(),
{
    assert forall|i: int| 0 <= i < c.links.len() implies (#[trigger] c.links[i]).node != node by {
        assert(c.before(i + 1) == c.links[i].node);
    }
    assert(c.appended(node, value) =~= c.pushed(node, value).linked_to(node));
    assert(c.appended(node, value).values() =~= c.values().push(value));
}

} // verus!
