//! A multi-producer single-consumer queue from which items are popped.

use vstd::prelude::*;

use crate::laws::law_push_is_two_steps;
use crate::node_chain::{Chain, Link, NodeChain, PendingPush};

verus! {

/// A result of the `pop_inner` function.
pub enum PopResult<T> {
    /// Some data has been popped
    Data(T),
    /// The queue is empty
    Empty,
    /// The queue is in an inconsistent state. Popping data should succeed, but
    /// some pushers have yet to make enough progress in order allow a pop to
    /// succeed. It is recommended that a pop() occur "in the near future" in
    /// order to see if the sender has made progress or not
    Inconsistent,
}

/// The multi-producer single-consumer structure.
///
/// What several producers and the consumer share is the value itself, on which each acts in turn.
/// A push may be done in one go, by [`MpscQueue::push`], or step by step, so that others act
/// between its steps.
#[verifier::reject_recursive_types(T)]
pub struct MpscQueue<T> {
    chain: NodeChain<T>,
}

impl<T> View for MpscQueue<T> {
    type V = Chain<T>;

    closed spec fn view(&self) -> Chain<T> {
        self.chain@
    }
}

impl<T> MpscQueue<T> {
    /// The nodes of the queue form a chain.
    pub closed spec fn wf(&self) -> bool {
        self.chain.wf()
    }

    /// The nodes of a well-formed queue have distinct addresses.
    pub proof fn lemma_distinct(&self)
        requires
            self.wf(),
        ensures
            self@.distinct(),
    {
    }

    /// Creates a new queue.
    pub fn new() -> (queue: MpscQueue<T>)
        ensures
            queue.wf(),
            queue@.links == Seq::<Link<T>>::empty(),
    {
        MpscQueue { chain: NodeChain::new() }
    }

    /// Pushes a new value onto this queue.
    pub fn push(&mut self, t: T)
        requires
            old(self).wf(),
        ensures
            final(self).wf(),
            final(self)@ == old(self)@.appended(final(self)@.last_node(), t),
            !old(self)@.has_node(final(self)@.last_node()),
    {
        let push = self.begin_push(t);
        self.finish_push(push);
        proof {
            law_push_is_two_steps(old(self)@, push.node(), t);
        }
    }

    /// The first step of a push, which fixes the place of the value in the queue.
    pub fn begin_push(&mut self, t: T) -> (push: PendingPush)
        requires
            old(self).wf(),
        ensures
            final(self).wf(),
            push.prev() == old(self)@.last_node(),
            !old(self)@.has_node(push.node()),
            final(self)@ == old(self)@.pushed(push.node(), t),
            final(self)@.awaits(push),
    {
        self.chain.swap_head(t)
    }

    /// The second step of a push, after which the consumer can get past the node before.
    pub fn finish_push(&mut self, push: PendingPush)
        requires
            old(self).wf(),
            old(self)@.awaits(push),
        ensures
            final(self).wf(),
            final(self)@ == old(self)@.linked_to(push.node()),
    {
        self.chain.link(push);
    }

    /// Pops some data from this queue.
    ///
    /// It is possible for this queue to be in an inconsistent state where many pushes have
    /// succeeded and completely finished, but pops cannot hand out data. This inconsistent state
    /// happens when a pusher is pre-empted at an inopportune moment.
    ///
    /// This inconsistent state means that this queue does indeed have data, but it does not
    /// currently have access to it at this time.
    pub fn pop_inner(&mut self) -> (result: PopResult<T>)
        requires
            old(self).wf(),
        ensures
            final(self).wf(),
            match result {
                PopResult::Data(t) => {
                    &&& old(self)@.reachable()
                    &&& t == old(self)@.links[0].value
                    &&& final(self)@ == old(self)@.advanced()
                },
                PopResult::Empty => {
                    &&& old(self)@.links.len() == 0
                    &&& final(self)@ == old(self)@
                },
                PopResult::Inconsistent => {
                    &&& old(self)@.links.len() > 0
                    &&& !old(self)@.links[0].linked
                    &&& final(self)@ == old(self)@
                },
            },
    {
        match self.take_next() {
            Some(data) => PopResult::Data(data),
            None => if self.at_head() {
                PopResult::Empty
            } else {
                PopResult::Inconsistent
            },
        }
    }

    /// The first step of a pop: takes the first value, if the tail points to its node.
    pub fn take_next(&mut self) -> (data: Option<T>)
        requires
            old(self).wf(),
        ensures
            final(self).wf(),
            data is Some <==> old(self)@.reachable(),
            data matches Some(t) ==> t == old(self)@.links[0].value && final(self)@ == old(
                self,
            )@.advanced(),
            data is None ==> final(self)@ == old(self)@,
    {
        if self.chain.front().is_some() {
            Some(self.chain.advance())
        } else {
            None
        }
    }

    /// The second step of a pop that took nothing: whether the tail is also the head, so that the
    /// queue is empty.
    pub fn at_head(&self) -> (b: bool)
        requires
            self.wf(),
        ensures
            b <==> self@.links.len() == 0,
    {
        self.chain.at_head()
    }

    /// Pops data from this queue.
    pub fn pop(&mut self) -> (data: Option<T>)
        requires
            old(self).wf(),
        ensures
            final(self).wf(),
            data is Some <==> old(self)@.reachable(),
            data matches Some(t) ==> t == old(self)@.links[0].value && final(self)@ == old(
                self,
            )@.advanced(),
            data is None ==> final(self)@ == old(self)@,
    {
        match self.pop_inner() {
            PopResult::Data(d) => Some(d),
            _ => None,
        }
    }

    /// Takes the queue down and hands out the values of the nodes that can be reached from its
    /// tail, in order.
    pub fn into_values(self) -> (values: Vec<T>)
        requires
            self.wf(),
        ensures
            values@ == self@.values().take(self@.reach() as int),
    {
        self.chain.into_values()
    }
}

} // verus!
