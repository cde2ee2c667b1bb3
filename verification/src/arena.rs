//! The store that owns the nodes and hands out their handles.
use crate::model::{links_closed, reparented, reshaped, Forest};
use crate::node::{Node, NodeRef};
use vstd::prelude::*;

verus! {

/// The owner of all nodes. A node lives as long as its arena does, so a
/// handle that the arena gave out never dangles, and no cycle of owners can
/// form between a parent and its children.
#[derive(Debug)]
pub struct Arena<T> {
    nodes: Vec<Node<T>>,
}

impl<T> View for Arena<T> {
    type V = Forest<T>;

    closed spec fn view(&self) -> Forest<T> {
        Map::new(
            |r: NodeRef| r.index < self.nodes.len(),
            |r: NodeRef| self.nodes[r.index as int]@,
        )
    }
}

impl<T> Arena<T> {
    /// No node stores a handle of a node that the arena does not hold.
    pub open spec fn wf(&self) -> bool {
        links_closed(self@)
    }

    /// An arena without nodes.
    pub fn new() -> (arena: Arena<T>)
        ensures
            arena@ == Forest::<T>::empty(),
            arena.wf(),
    {
        let arena = Arena { nodes: Vec::new() };
        assert(arena@ =~= Forest::<T>::empty());
        arena
    }

    /// Whether `r` designates a node of this arena.
    pub fn contains(&self, r: NodeRef) -> (found: bool)
        ensures
            found == self@.contains_key(r),
    {
        r.index < self.nodes.len()
    }

    /// The node that `r` designates.
    pub fn node(&self, r: NodeRef) -> (node: &Node<T>)
        requires
            self@.contains_key(r),
        ensures
            node@ == self@[r],
    {
        &self.nodes[r.index]
    }

    /// Stores `node` and returns the handle under which it is kept from now on.
    pub(crate) fn store(&mut self, node: Node<T>) -> (r: NodeRef)
        ensures
            !old(self)@.contains_key(r),
            final(self)@ == old(self)@.insert(r, node@),
    {
        let r = NodeRef { index: self.nodes.len() };
        self.nodes.push(node);
        assert(self@ =~= old(self)@.insert(r, node@));
        r
    }

    /// Gives the node at `r` the shape of a leaf (`None`) or of a parent with
    /// the given children, and keeps its value and its parent.
    pub(crate) fn reshape(&mut self, r: NodeRef, next: Option<Vec<NodeRef>>)
        requires
            old(self)@.contains_key(r),
        ensures
            final(self)@ == reshaped(
                old(self)@,
                r,
                match next {
                    Some(children) => Some(children@),
                    None => None,
                },
            ),
    {
        let i: usize = r.index;
        let taken = self.nodes.swap_remove(i);
        let (value, prev) = match taken {
            Node::Leaf { prev, value } => (value, prev),
            Node::Parent { value, prev, next: _ } => (value, prev),
        };
        let rebuilt = match next {
            Some(children) => Node::Parent { value, prev, next: children },
            None => Node::Leaf { prev, value },
        };
        self.nodes.push(rebuilt);
        if i + 1 < self.nodes.len() {
            let moved = self.nodes.swap_remove(i);
            self.nodes.push(moved);
        }
        assert(self.nodes@ =~= old(self).nodes@.update(i as int, rebuilt));
        assert(self@ =~= reshaped(
            old(self)@,
            r,
            match next {
                Some(children) => Some(children@),
                None => None,
            },
        ));
    }

    /// Puts `child` behind the children of the parent at `r`.
    pub(crate) fn push_child(&mut self, r: NodeRef, child: NodeRef)
        requires
            old(self)@.contains_key(r),
            !old(self)@[r].is_leaf(),
        ensures
            final(self)@ == reshaped(old(self)@, r, Some(old(self)@[r].children().push(child))),
    {
        match &mut self.nodes[r.index] {
            Node::Parent { next, .. } => {
                next.push(child);
            },
            Node::Leaf { .. } => {},
        }
        assert(self@ =~= reshaped(old(self)@, r, Some(old(self)@[r].children().push(child))));
    }

    /// Takes the child at position `at` out of the children of the parent at
    /// `r`; the children behind it move up by one.
    pub(crate) fn remove_child(&mut self, r: NodeRef, at: usize)
        requires
            old(self)@.contains_key(r),
            at < old(self)@[r].children().len(),
        ensures
            final(self)@ == reshaped(
                old(self)@,
                r,
                Some(old(self)@[r].children().remove(at as int)),
            ),
    {
        match &mut self.nodes[r.index] {
            Node::Parent { next, .. } => {
                next.remove(at);
            },
            Node::Leaf { .. } => {},
        }
        assert(self@ =~= reshaped(
            old(self)@,
            r,
            Some(old(self)@[r].children().remove(at as int)),
        ));
    }

    /// Gives the node at `r` the parent `prev`, or none.
    pub(crate) fn set_prev(&mut self, r: NodeRef, prev: Option<NodeRef>)
        requires
            old(self)@.contains_key(r),
        ensures
            final(self)@ == reparented(old(self)@, r, prev),
    {
        match &mut self.nodes[r.index] {
            Node::Parent { prev: slot, .. } => {
                *slot = prev;
            },
            Node::Leaf { prev: slot, .. } => {
                *slot = prev;
            },
        }
        assert(self@ =~= reparented(old(self)@, r, prev));
    }
}

} // verus!
