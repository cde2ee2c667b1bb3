//! Attaching nodes to a parent and detaching them again.
use crate::arena::Arena;
use crate::error::NodeError;
use crate::links::{
    lemma_adopted_keeps_linked, lemma_detached_keeps_linked, lemma_inserted_keeps_linked, linked,
};
use crate::model::{
    adopted, attached, detached, first_at, inserted, leaf_of, lemma_detached,
    lemma_reparented_links_closed, lemma_reshaped_links_closed, links_within,
};
use crate::node::{Node, NodeRef};
use vstd::prelude::*;

verus! {

/// The position of the first entry of `children` that is `child`.
fn position(children: &[NodeRef], child: NodeRef) -> (at: Option<usize>)
    ensures
        match at {
            Some(i) => i < children@.len() && children@.contains(child)
                && children@.index_of_first(child) == Some(i as int),
            None => !children@.contains(child),
        },
{
    let mut i: usize = 0;
    while i < children.len()
        invariant
            i <= children@.len(),
            forall|j: int| 0 <= j < i ==> children@[j] != child,
        decreases children@.len() - i,
    {
        if children[i] == child {
            proof {
                children@.index_of_first_ensures(child);
            }
            return Some(i);
        }
        i += 1;
    }
    None
}

impl<T> Node<T> {
    /// Makes a leaf that holds `value` and attaches it to `parent` as its
    /// last child. A `parent` that was a leaf is a parent afterwards.
    pub fn insert(arena: &mut Arena<T>, parent: NodeRef, value: T) -> (r: Result<
        NodeRef,
        NodeError,
    >)
        requires
            old(arena).wf(),
            old(arena)@.contains_key(parent),
        ensures
            r is Ok,
            !old(arena)@.contains_key(r->Ok_0),
            final(arena)@ == inserted(old(arena)@, parent, r->Ok_0, value),
            final(arena)@[r->Ok_0] == leaf_of(value, Some(parent)),
            !final(arena)@[parent].is_leaf(),
            final(arena)@[parent].children() == old(arena)@[parent].children().push(r->Ok_0),
            final(arena).wf(),
            linked(old(arena)@) ==> linked(final(arena)@),
    {
        let node = Node::leaf(arena, value, Some(parent));
        proof {
            if linked(old(arena)@) {
                lemma_inserted_keeps_linked(old(arena)@, parent, node, value);
            }
        }
        Node::inner_insert(arena, parent, node)?;
        Ok(node)
    }

    /// Attaches the existing node `node` to `parent` as its last child, and
    /// makes `parent` the parent that `node` refers back to. A `parent` that
    /// was a leaf is a parent afterwards.
    pub fn insert_node(arena: &mut Arena<T>, parent: NodeRef, node: NodeRef) -> (r: Result<
        (),
        NodeError,
    >)
        requires
            old(arena).wf(),
            old(arena)@.contains_key(parent),
            old(arena)@.contains_key(node),
        ensures
            r is Ok,
            final(arena)@ == adopted(old(arena)@, parent, node),
            final(arena)@[node].prev == Some(parent),
            !final(arena)@[parent].is_leaf(),
            final(arena)@[parent].children() == old(arena)@[parent].children().push(node),
            final(arena).wf(),
            old(arena)@[node].prev is None && linked(old(arena)@) ==> linked(final(arena)@),
    {
        proof {
            lemma_reparented_links_closed(arena@, node, Some(parent));
            if arena@[node].prev is None && linked(arena@) {
                lemma_adopted_keeps_linked(arena@, parent, node);
            }
        }
        arena.set_prev(node, Some(parent));
        Node::inner_insert(arena, parent, node)?;
        Ok(())
    }

    /// Puts `node` behind the children of `parent`, which becomes a parent
    /// if it was a leaf.
    fn inner_insert(arena: &mut Arena<T>, parent: NodeRef, node: NodeRef) -> (r: Result<
        (),
        NodeError,
    >)
        requires
            old(arena).wf(),
            old(arena)@.contains_key(parent),
            old(arena)@.contains_key(node),
        ensures
            r is Ok,
            final(arena)@ == attached(old(arena)@, parent, node),
            final(arena).wf(),
    {
        proof {
            let children = arena@[parent].children().push(node);
            assert(links_within(arena@, arena@[parent]));
            assert forall|i: int| 0 <= i < children.len() implies arena@.contains_key(
                #[trigger] children[i],
            ) by {
                if i < children.len() - 1 {
                    assert(children[i] == arena@[parent].children()[i]);
                }
            }
            lemma_reshaped_links_closed(arena@, parent, Some(children));
        }
        if arena.node(parent).is_leaf() {
            assert(arena@[parent].children().push(node) =~= seq![node]);
            Node::upgrade(arena, parent, node)?;
        } else {
            arena.push_child(parent, node);
        }
        Ok(())
    }

    /// Detaches `child` from `parent`.
    ///
    /// On a leaf the call fails. On a parent it looks for `child` among the
    /// children by identity, never by value. Where `child` is not among them
    /// it returns `false` and changes nothing. Otherwise it takes the first
    /// entry for `child` out, the other children keeping their order, leaves
    /// `child` without a parent, and returns `true`; a `parent` that has no
    /// child left, and still has a parent of its own, is a leaf afterwards.
    /// A root stays a parent, so that it can take children again.
    pub fn pop(arena: &mut Arena<T>, parent: NodeRef, child: NodeRef) -> (r: Result<
        bool,
        NodeError,
    >)
        requires
            old(arena).wf(),
            old(arena)@.contains_key(parent),
        ensures
            old(arena)@[parent].is_leaf() ==> r == Err::<bool, NodeError>(NodeError::NotAParent),
            !old(arena)@[parent].is_leaf() ==> r == Ok::<bool, NodeError>(
                old(arena)@[parent].children().contains(child),
            ),
            r == Ok::<bool, NodeError>(true) ==> final(arena)@ == detached(
                old(arena)@,
                parent,
                child,
            ),
            r != Ok::<bool, NodeError>(true) ==> final(arena)@ == old(arena)@,
            r == Ok::<bool, NodeError>(true) ==> {
                &&& final(arena)@[parent].children() == old(arena)@[parent].children().remove_value(
                    child,
                )
                &&& final(arena)@[parent].children().len() == old(arena)@[parent].children().len()
                    - 1
                &&& forall|at: int| #[trigger]
                    first_at(old(arena)@[parent].children(), child, at) ==> final(arena)@[parent].children() == old(arena)@[parent].children().remove(at)
                &&& final(arena)@[child].prev is None
                &&& old(arena)@[parent].prev is None ==> !final(arena)@[parent].is_leaf()
                &&& old(arena)@[parent].prev is Some && parent != child
                    && !final(arena)@[parent].has_children() ==> final(arena)@[parent].is_leaf()
            },
            final(arena).wf(),
            linked(old(arena)@) ==> linked(final(arena)@),
    {
        let current = arena.node(parent);
        if current.is_leaf() {
            return Err(NodeError::NotAParent);
        }
        match position(current.children(), child) {
            None => Ok(false),
            Some(at) => {
                proof {
                    lemma_detached(arena@, parent, child);
                    if linked(arena@) {
                        lemma_detached_keeps_linked(arena@, parent, child);
                    }
                }
                arena.remove_child(parent, at);
                arena.set_prev(child, None);
                let current = arena.node(parent);
                if !current.has_children() && current.prev().is_some() {
                    Node::downgrade(arena, parent)?;
                }
                Ok(true)
            },
        }
    }
}

} // verus!
