//! Making nodes, and the two transitions between the shapes of a node.
use crate::arena::Arena;
use crate::error::NodeError;
use crate::links::{lemma_downgraded_keeps_linked, lemma_lone_node_keeps_linked, linked};
use crate::model::{
    downgrade_outcome, downgraded, leaf_of, lemma_insert_links_closed,
    lemma_reshaped_links_closed, root_of, upgraded,
};
use crate::node::{Node, NodeRef};
use vstd::prelude::*;

verus! {

impl<T> Node<T> {
    /// Makes a root: a parent without a parent of its own and without
    /// children.
    #[inline]
    pub fn parent(arena: &mut Arena<T>, value: T) -> (r: NodeRef)
        requires
            old(arena).wf(),
        ensures
            !old(arena)@.contains_key(r),
            final(arena)@ == old(arena)@.insert(r, root_of(value)),
            final(arena)@[r].is_root(),
            !final(arena)@[r].has_children(),
            final(arena).wf(),
            linked(old(arena)@) ==> linked(final(arena)@),
    {
        let r = arena.store(Node::Parent { value, prev: None, next: Vec::new() });
        proof {
            lemma_insert_links_closed(old(arena)@, r, root_of(value));
            if linked(old(arena)@) {
                lemma_lone_node_keeps_linked(old(arena)@, r, root_of(value));
            }
        }
        r
    }

    /// Makes a leaf that refers back to `prev`. The leaf is not yet among the
    /// children of `prev`: [`Node::insert`] makes a leaf and attaches it.
    #[inline]
    pub fn leaf(arena: &mut Arena<T>, value: T, prev: Option<NodeRef>) -> (r: NodeRef)
        requires
            old(arena).wf(),
            prev matches Some(parent) ==> old(arena)@.contains_key(parent),
        ensures
            !old(arena)@.contains_key(r),
            final(arena)@ == old(arena)@.insert(r, leaf_of(value, prev)),
            final(arena).wf(),
            prev is None && linked(old(arena)@) ==> linked(final(arena)@),
    {
        let r = arena.store(Node::Leaf { prev, value });
        proof {
            lemma_insert_links_closed(old(arena)@, r, leaf_of(value, prev));
            if prev is None && linked(old(arena)@) {
                lemma_lone_node_keeps_linked(old(arena)@, r, leaf_of(value, prev));
            }
        }
        r
    }

    /// Turns the leaf `parent` into a parent whose only child is `node`; the
    /// value and the parent of `parent` stay. A node that is a parent already
    /// is left as it is, and the call fails.
    #[inline]
    pub fn upgrade(arena: &mut Arena<T>, parent: NodeRef, node: NodeRef) -> (r: Result<
        (),
        NodeError,
    >)
        requires
            old(arena).wf(),
            old(arena)@.contains_key(parent),
            old(arena)@.contains_key(node),
        ensures
            old(arena)@[parent].is_leaf() ==> r == Ok::<(), NodeError>(()) && final(arena)@
                == upgraded(old(arena)@, parent, node),
            !old(arena)@[parent].is_leaf() ==> r == Err::<(), NodeError>(
                NodeError::ParentUpgradeNotAllowed,
            ) && final(arena)@ == old(arena)@,
            final(arena).wf(),
    {
        if arena.node(parent).is_leaf() {
            let mut next: Vec<NodeRef> = Vec::new();
            next.push(node);
            assert(next@ =~= seq![node]);
            proof {
                lemma_reshaped_links_closed(arena@, parent, Some(next@));
            }
            arena.reshape(parent, Some(next));
            Ok(())
        } else {
            Err(NodeError::ParentUpgradeNotAllowed)
        }
    }

    /// Turns the parent `node` into a leaf; its value and its parent stay.
    ///
    /// Only a parent without children that has a parent of its own can become
    /// a leaf. The conditions are tested in this order: a leaf fails as no
    /// parent; a node with children fails with their number; a root fails as
    /// a root. A call that fails changes nothing.
    #[inline]
    pub fn downgrade(arena: &mut Arena<T>, node: NodeRef) -> (r: Result<(), NodeError>)
        requires
            old(arena).wf(),
            old(arena)@.contains_key(node),
        ensures
            r == downgrade_outcome(old(arena)@[node]),
            r is Ok ==> final(arena)@ == downgraded(old(arena)@, node),
            r is Err ==> final(arena)@ == old(arena)@,
            final(arena).wf(),
            linked(old(arena)@) ==> linked(final(arena)@),
    {
        let current = arena.node(node);
        if current.is_leaf() {
            return Err(NodeError::DowngradeNotParent);
        }
        let children: usize = current.children().len();
        if children != 0 {
            return Err(NodeError::IllegalDowngradeWithChildren(children));
        }
        if current.prev().is_none() {
            return Err(NodeError::RootDowngradeNotAllowed);
        }
        proof {
            lemma_reshaped_links_closed(arena@, node, None);
            if linked(arena@) {
                lemma_downgraded_keeps_linked(arena@, node);
            }
        }
        arena.reshape(node, None);
        Ok(())
    }
}

} // verus!
