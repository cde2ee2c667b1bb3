//! Walking a tree level by level.
use crate::arena::Arena;
use crate::model::{links_within, Forest};
use crate::node::{Node, NodeRef};
use vstd::prelude::*;

verus! {

/// The queue of a walk after one step: the front has left, and its children
/// have joined at the back in the order in which the front holds them.
pub open spec fn advanced<T>(forest: Forest<T>, queue: Seq<NodeRef>) -> Seq<NodeRef> {
    if queue.len() == 0 {
        queue
    } else {
        queue.drop_first() + forest[queue[0]].children()
    }
}

/// What the first `steps` steps of a walk with this queue produce.
pub open spec fn produced<T>(forest: Forest<T>, queue: Seq<NodeRef>, steps: nat) -> Seq<NodeRef>
    decreases steps,
{
    if steps == 0 || queue.len() == 0 {
        Seq::empty()
    } else {
        seq![queue[0]] + produced(forest, advanced(forest, queue), (steps - 1) as nat)
    }
}

/// Every handle of `queue` designates a node of `forest`.
pub open spec fn queued_within<T>(forest: Forest<T>, queue: Seq<NodeRef>) -> bool {
    forall|i: int| 0 <= i < queue.len() ==> forest.contains_key(#[trigger] queue[i])
}

/// A walk is breadth-first: the nodes that wait in the queue are produced in
/// the order in which they wait, before any node that joins the queue later.
pub proof fn lemma_walk_is_breadth_first<T>(forest: Forest<T>, queue: Seq<NodeRef>, steps: nat)
    requires
        steps <= queue.len(),
    ensures
        produced(forest, queue, steps) == queue.take(steps as int),
    decreases steps,
{
    if steps == 0 {
        assert(queue.take(0) =~= Seq::<NodeRef>::empty());
    } else {
        let rest = advanced(forest, queue);
        lemma_walk_is_breadth_first(forest, rest, (steps - 1) as nat);
        assert(queue.take(steps as int) =~= seq![queue[0]] + rest.take(steps - 1));
    }
}

/// A walk from `start` produces `start` and then its children, in the order
/// in which it holds them, before any of their children.
pub proof fn lemma_walk_starts_with_children<T>(forest: Forest<T>, start: NodeRef)
    ensures
        produced(forest, seq![start], 1 + forest[start].children().len()) == seq![start]
            + forest[start].children(),
{
    let children = forest[start].children();
    let rest = advanced(forest, seq![start]);
    assert(rest =~= children);
    lemma_walk_is_breadth_first(forest, rest, children.len());
    assert(children.take(children.len() as int) =~= children);
}

/// A walk over a tree, level by level: first the node it started from, then
/// that node's children, then their children, the nodes of one level in the
/// order in which their parents hold them.
///
/// A leaf is produced like any other node. It has no children to add, and
/// the walk goes on with the nodes that still wait.
#[derive(Debug)]
pub struct NodeIter {
    queue: Vec<NodeRef>,
}

impl View for NodeIter {
    type V = Seq<NodeRef>;

    /// The nodes that wait to be produced, the next one first.
    closed spec fn view(&self) -> Seq<NodeRef> {
        self.queue@
    }
}

impl NodeIter {
    /// A walk that starts at `node`.
    pub fn new(node: NodeRef) -> (walk: NodeIter)
        ensures
            walk@ == seq![node],
    {
        let mut queue: Vec<NodeRef> = Vec::new();
        queue.push(node);
        assert(queue@ =~= seq![node]);
        NodeIter { queue }
    }

    /// Produces the node at the front of the queue, and queues its children
    /// behind the nodes that wait already. Returns `None`, and changes
    /// nothing, once no node waits.
    pub fn next<T>(&mut self, arena: &Arena<T>) -> (r: Option<NodeRef>)
        requires
            arena.wf(),
            queued_within(arena@, old(self)@),
        ensures
            r == if old(self)@.len() == 0 {
                None::<NodeRef>
            } else {
                Some(old(self)@[0])
            },
            final(self)@ == advanced(arena@, old(self)@),
            queued_within(arena@, final(self)@),
    {
        if self.queue.len() == 0 {
            return None;
        }
        let item = self.queue.remove(0);
        assert(self.queue@ =~= old(self)@.drop_first());
        assert(arena@.contains_key(old(self)@[0]));
        let children = arena.node(item).children();
        proof {
            assert(links_within(arena@, arena@[item]));
        }
        let mut i: usize = 0;
        while i < children.len()
            invariant
                i <= children@.len(),
                children@ == arena@[item].children(),
                self.queue@ == old(self)@.drop_first() + children@.take(i as int),
            decreases children@.len() - i,
        {
            self.queue.push(children[i]);
            assert(children@.take(i + 1) =~= children@.take(i as int).push(children@[i as int]));
            assert(self.queue@ =~= old(self)@.drop_first() + children@.take(i + 1));
            i += 1;
        }
        assert(children@.take(i as int) =~= children@);
        assert forall|k: int| 0 <= k < self@.len() implies arena@.contains_key(
            #[trigger] self@[k],
        ) by {
            if k < old(self)@.len() - 1 {
                assert(self@[k] == old(self)@[k + 1]);
            } else {
                assert(self@[k] == children@[k - (old(self)@.len() - 1)]);
            }
        }
        Some(item)
    }
}

impl<T> Node<T> {
    /// A walk over the tree below `node`, which is produced first.
    pub fn iter(arena: &Arena<T>, node: NodeRef) -> (walk: NodeIter)
        requires
            arena@.contains_key(node),
        ensures
            walk@ == seq![node],
            queued_within(arena@, walk@),
    {
        NodeIter::new(node)
    }
}

} // verus!
