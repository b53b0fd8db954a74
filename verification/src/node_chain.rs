//! The chain of nodes that both queues are made of.
//!
//! A chain is a singly linked list from a stub, which holds no value, to the node that was pushed
//! last. A push takes two steps, and other pushes and the consumer may act between them: the first
//! step makes the new node the head of the chain, the second makes the node before it point to it.
//! Until the second step is done, the consumer cannot get past the node before.

use vstd::prelude::*;

use crate::slab::Slab;

verus! {

/// Which queue something belongs to.
///
/// Contracts tell queues apart by it: they ask that a handle is used with its own queue, and they
/// say of no two new queues that they have the same one. The program itself never looks at it.
#[derive(Clone, Copy, Debug)]
pub struct QueueTag {
    tag: usize,
}

impl QueueTag {
    /// The one of a new queue.
    fn new() -> QueueTag {
        QueueTag { tag: 0 }
    }
}

/// A node of a chain after the stub, as a contract sees it.
#[verifier::ext_equal]
pub struct Link<V> {
    /// The address of the node.
    pub node: usize,
    /// The value that was pushed.
    pub value: V,
    /// Whether the node before points to this one, that is, whether its push has finished.
    pub linked: bool,
}

/// A chain, as a contract sees it.
#[verifier::ext_equal]
pub struct Chain<V> {
    /// Which chain it is.
    pub tag: QueueTag,
    /// The address of the stub, which the consumer stands on.
    pub stub: usize,
    /// The nodes after the stub, the one that was pushed first in front.
    pub links: Seq<Link<V>>,
}

impl<V> Chain<V> {
    /// The address of the node before the `i`-th link; with the number of links for `i`, that of
    /// the last node.
    pub open spec fn before(self, i: int) -> usize {
        if i == 0 {
            self.stub
        } else {
            self.links[i - 1].node
        }
    }

    /// The address of the node that was pushed last, or of the stub where there is no other.
    pub open spec fn last_node(self) -> usize {
        self.before(self.links.len() as int)
    }

    /// No two nodes have the same address.
    pub open spec fn distinct(self) -> bool {
        forall|i: int, j: int|
            #![trigger self.before(i), self.before(j)]
            0 <= i < j <= self.links.len() ==> self.before(i) != self.before(j)
    }

    /// Whether some node of the chain, the stub included, has the address `node`.
    pub open spec fn has_node(self, node: usize) -> bool {
        exists|i: int| 0 <= i <= self.links.len() && #[trigger] self.before(i) == node
    }

    /// Whether the `i`-th link is the one that `push` put in and has not linked yet.
    pub open spec fn awaits_at(self, push: PendingPush, i: int) -> bool {
        &&& push.tag() == self.tag
        &&& 0 <= i < self.links.len()
        &&& self.links[i].node == push.node()
        &&& self.before(i) == push.prev()
        &&& !self.links[i].linked
    }

    /// Whether `push` is a push into this chain whose second step is still to come.
    pub open spec fn awaits(self, push: PendingPush) -> bool {
        exists|i: int| self.awaits_at(push, i)
    }

    /// The chain after the first step of a push.
    pub open spec fn pushed(self, node: usize, value: V) -> Chain<V> {
        Chain { links: self.links.push(Link { node, value, linked: false }), ..self }
    }

    /// The chain after the second step of the push that put in `node`.
    pub open spec fn linked_to(self, node: usize) -> Chain<V> {
        Chain {
            links: Seq::new(
                self.links.len(),
                |i: int| Link {
                    linked: self.links[i].linked || self.links[i].node == node,
                    ..self.links[i]
                },
            ),
            ..self
        }
    }

    /// The chain after both steps of a push.
    pub open spec fn appended(self, node: usize, value: V) -> Chain<V> {
        Chain { links: self.links.push(Link { node, value, linked: true }), ..self }
    }

    /// Whether the consumer can reach the first link.
    pub open spec fn reachable(self) -> bool {
        self.links.len() > 0 && self.links[0].linked
    }

    /// The chain after the first link has become the stub.
    pub open spec fn advanced(self) -> Chain<V> {
        Chain { stub: self.links[0].node, links: self.links.skip(1), ..self }
    }

    /// The number of links that can be reached from the stub: the first link that is not linked,
    /// and all after it, cannot.
    pub open spec fn reach(self) -> nat
        decreases self.links.len(),
    {
        if self.reachable() {
            1 + self.advanced().reach()
        } else {
            0
        }
    }

    /// The values of all links, the one that was pushed first in front.
    pub open spec fn values(self) -> Seq<V> {
        Seq::new(self.links.len(), |i: int| self.links[i].value)
    }

    /// Whether every push has finished.
    pub open spec fn settled(self) -> bool {
        forall|i: int| 0 <= i < self.links.len() ==> (#[trigger] self.links[i]).linked
    }
}

/// A push that has done its first step.
///
/// It is given back to the queue that it came from to do the second. The consumer cannot get past
/// a push that is dropped instead.
#[must_use]
pub struct PendingPush {
    /// The queue that it is a push into.
    tag: QueueTag,
    /// The node that was the head before.
    prev: usize,
    /// The new node.
    node: usize,
}

impl PendingPush {
    /// The queue that it is a push into.
    pub closed spec fn tag(self) -> QueueTag {
        self.tag
    }

    /// The address of the node that was the head before the push.
    pub closed spec fn prev(self) -> usize {
        self.prev
    }

    /// The address of the new node.
    pub closed spec fn node(self) -> usize {
        self.node
    }
}

/// A node of a chain.
pub struct Node<V> {
    /// The node that was pushed after this one, once its push has finished.
    next: Option<usize>,
    /// The value; the stub has none.
    value: Option<V>,
}

impl<V> Node<V> {
    /// A node that points nowhere.
    fn new(value: Option<V>) -> (node: Node<V>)
        ensures
            node.next is None,
            node.value == value,
    {
        Node { next: None, value }
    }
}

/// A chain of nodes.
#[verifier::reject_recursive_types(V)]
pub struct NodeChain<V> {
    /// Which chain it is.
    tag: QueueTag,
    nodes: Slab<Node<V>>,
    /// The node that was most recently pushed.
    head: usize,
    /// The stub, right before the node that was pushed first.
    tail: usize,
    /// The addresses of the nodes, from the tail to the head.
    order: Ghost<Seq<usize>>,
}

impl<V> View for NodeChain<V> {
    type V = Chain<V>;

    closed spec fn view(&self) -> Chain<V> {
        let order = self.order@;
        Chain {
            tag: self.tag,
            stub: order[0],
            links: Seq::new(
                (order.len() - 1) as nat,
                |i: int| Link {
                    node: order[i + 1],
                    value: self.nodes@[order[i + 1]].value->0,
                    linked: self.nodes@[order[i]].next is Some,
                },
            ),
        }
    }
}

impl<V> NodeChain<V> {
    /// The nodes are those of the chain and no others, and point to each other as it says.
    pub closed spec fn consistent(&self) -> bool {
        let order = self.order@;
        &&& self.nodes.wf()
        &&& order.len() >= 1
        &&& order[0] == self.tail
        &&& order[order.len() - 1] == self.head
        &&& forall|i: int, j: int|
            #![trigger order[i], order[j]]
            0 <= i < j < order.len() ==> order[i] != order[j]
        &&& forall|k: usize| #[trigger] self.nodes@.dom().contains(k) ==> order.contains(k)
        &&& forall|i: int| 0 <= i < order.len() ==> self.nodes@.dom().contains(#[trigger] order[i])
        &&& forall|i: int|
            #![trigger order[i]]
            0 <= i < order.len() ==> (self.nodes@[order[i]].value is None <==> i == 0)
        &&& forall|i: int|
            #![trigger order[i]]
            0 <= i < order.len() ==> (self.nodes@[order[i]].next matches Some(next) ==> i + 1
                < order.len() && next == order[i + 1])
    }

    /// The chain is well formed.
    pub open spec fn wf(&self) -> bool {
        &&& self.consistent()
        &&& self@.distinct()
    }

    proof fn lemma_distinct(&self)
        requires
            self.consistent(),
        ensures
            self@.distinct(),
            forall|i: int|
                0 <= i <= self@.links.len() ==> #[trigger] self@.before(i) == self.order@[i],
    {
    }

    /// A chain of the stub alone.
    pub fn new() -> (chain: Self)
        ensures
            chain.wf(),
            chain@.links == Seq::<Link<V>>::empty(),
    {
        let mut nodes: Slab<Node<V>> = Slab::new();
        let stub: usize = nodes.insert(Node::new(None));
        let order = Ghost(Seq::empty().push(stub));
        let chain = NodeChain { tag: QueueTag::new(), nodes, head: stub, tail: stub, order };
        proof {
            assert(chain.order@[0] == stub);
            chain.lemma_distinct();
        }
        chain
    }

    /// The first step of a push: a new node becomes the head.
    pub fn swap_head(&mut self, value: V) -> (push: PendingPush)
        requires
            old(self).wf(),
        ensures
            final(self).wf(),
            push.prev() == old(self)@.last_node(),
            !old(self)@.has_node(push.node()),
            final(self)@ == old(self)@.pushed(push.node(), value),
            final(self)@.awaits(push),
    {
        let node: usize = self.nodes.insert(Node::new(Some(value)));
        let prev: usize = self.head;
        self.head = node;
        let ghost order = self.order@;
        self.order = Ghost(order.push(node));
        let push = PendingPush { tag: self.tag, prev, node };
        proof {
            old(self).lemma_distinct();
            assert forall|k: usize|
                #[trigger] self.nodes@.dom().contains(k) implies self.order@.contains(k) by {
                if k == node {
                    assert(self.order@[order.len() as int] == node);
                } else {
                    let i = choose|i: int| 0 <= i < order.len() && order[i] == k;
                    assert(self.order@[i] == k);
                }
            }
            assert(self.consistent());
            self.lemma_distinct();
            assert(self@ =~= old(self)@.pushed(node, value));
            assert(self@.awaits_at(push, order.len() - 1));
        }
        push
    }

    /// The second step of a push: the node before points to the new one.
    pub fn link(&mut self, push: PendingPush)
        requires
            old(self).wf(),
            old(self)@.awaits(push),
        ensures
            final(self).wf(),
            final(self)@ == old(self)@.linked_to(push.node()),
    {
        let ghost at = choose|i: int| old(self)@.awaits_at(push, i);
        proof {
            self.lemma_distinct();
            assert(self.order@[at] == push.prev);
            assert(self.order@[at + 1] == push.node);
        }
        let before = self.nodes.get_mut(push.prev);
        before.next = Some(push.node);
        proof {
            assert(self.consistent());
            self.lemma_distinct();
            assert(self@ =~= old(self)@.linked_to(push.node));
        }
    }

    /// The node that the stub points to, if it points to any.
    fn next(&self) -> (next: Option<usize>)
        requires
            self.wf(),
        ensures
            next is Some <==> self@.reachable(),
            next matches Some(node) ==> node == self@.links[0].node && node == self.order@[1],
    {
        proof {
            assert(self.order@[0] == self.tail);
        }
        self.nodes.get(self.tail).next
    }

    /// The value of the first link, if the consumer can reach it.
    pub fn front(&self) -> (value: Option<&V>)
        requires
            self.wf(),
        ensures
            value is Some <==> self@.reachable(),
            value matches Some(v) ==> *v == self@.links[0].value,
    {
        match self.next() {
            Some(next) => self.nodes.get(next).value.as_ref(),
            None => None,
        }
    }

    /// Moves the stub on to the first link, whose value is handed out, and frees the node that was
    /// the stub before.
    pub fn advance(&mut self) -> (value: V)
        requires
            old(self).wf(),
            old(self)@.reachable(),
        ensures
            final(self).wf(),
            value == old(self)@.links[0].value,
            final(self)@ == old(self)@.advanced(),
    {
        let tail: usize = self.tail;
        let next: usize = self.next().unwrap();
        let ghost order = self.order@;
        self.tail = next;
        let value = self.nodes.get_mut(next).value.take();
        let _ = self.nodes.remove(tail);
        self.order = Ghost(order.skip(1));
        proof {
            assert forall|k: usize|
                #[trigger] self.nodes@.dom().contains(k) implies self.order@.contains(k) by {
                let i = choose|i: int| 0 <= i < order.len() && order[i] == k;
                assert(self.order@[i - 1] == k);
            }
            assert(self.consistent());
            self.lemma_distinct();
            assert(self@ =~= old(self)@.advanced());
        }
        value.unwrap()
    }

    /// Which chain it is.
    pub fn tag(&self) -> (tag: QueueTag)
        ensures
            tag == self@.tag,
    {
        self.tag
    }

    /// Whether the stub is the head, that is, whether every node that was pushed has been passed.
    pub fn at_head(&self) -> (b: bool)
        requires
            self.wf(),
        ensures
            b <==> self@.links.len() == 0,
    {
        self.head == self.tail
    }

    /// Takes the chain apart and hands out the values that can be reached, in order.
    pub fn into_values(self) -> (values: Vec<V>)
        requires
            self.wf(),
        ensures
            values@ == self@.values().take(self@.reach() as int),
    {
        let mut chain = self;
        let mut values: Vec<V> = Vec::new();
        while chain.front().is_some()
            invariant
                chain.wf(),
                values@.len() + chain@.reach() == self@.reach(),
                values@.len() + chain@.links.len() == self@.links.len(),
                values@ + chain@.values() =~= self@.values(),
            decreases chain@.links.len(),
        {
            values.push(chain.advance());
        }
        values
    }
}

} // verus!
