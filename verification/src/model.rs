//! The mathematical model of an arena: a forest, which maps each handle to
//! what its node is, and the effect of each operation on a forest.
use crate::error::NodeError;
use crate::node::{NodeRef, NodeView};
use vstd::prelude::*;

verus! {

/// The nodes of an arena, each under its handle.
pub type Forest<T> = Map<NodeRef, NodeView<T>>;

/// Every handle that `node` stores designates a node of `forest`.
pub open spec fn links_within<T>(forest: Forest<T>, node: NodeView<T>) -> bool {
    &&& node.prev matches Some(parent) ==> forest.contains_key(parent)
    &&& forall|i: int|
        0 <= i < node.children().len() ==> forest.contains_key(#[trigger] node.children()[i])
}

/// No node of `forest` stores a handle that leads out of it.
pub open spec fn links_closed<T>(forest: Forest<T>) -> bool {
    forall|r: NodeRef| #[trigger] forest.contains_key(r) ==> links_within(forest, forest[r])
}

/// A leaf that holds `value` under `prev`.
pub open spec fn leaf_of<T>(value: T, prev: Option<NodeRef>) -> NodeView<T> {
    NodeView { value, prev, next: None }
}

/// A root that holds `value` and has no children yet.
pub open spec fn root_of<T>(value: T) -> NodeView<T> {
    NodeView { value, prev: None, next: Some(Seq::empty()) }
}

/// `forest` after `node` has taken the shape given by `next`, its value and
/// its parent kept.
pub open spec fn reshaped<T>(forest: Forest<T>, node: NodeRef, next: Option<Seq<NodeRef>>) -> Forest<
    T,
> {
    forest.insert(node, NodeView { next, ..forest[node] })
}

/// `forest` after `node` has been given `prev` for its parent, its value and
/// its shape kept.
pub open spec fn reparented<T>(forest: Forest<T>, node: NodeRef, prev: Option<NodeRef>) -> Forest<
    T,
> {
    forest.insert(node, NodeView { prev, ..forest[node] })
}

/// `forest` after the leaf `node` has become a parent whose only child is
/// `child`.
pub open spec fn upgraded<T>(forest: Forest<T>, node: NodeRef, child: NodeRef) -> Forest<T> {
    reshaped(forest, node, Some(seq![child]))
}

/// `forest` after the parent `node` has become a leaf.
pub open spec fn downgraded<T>(forest: Forest<T>, node: NodeRef) -> Forest<T> {
    reshaped(forest, node, None)
}

/// `forest` after `child` has been put behind the children of `parent`; a
/// `parent` that was a leaf is a parent afterwards.
pub open spec fn attached<T>(forest: Forest<T>, parent: NodeRef, child: NodeRef) -> Forest<T> {
    reshaped(forest, parent, Some(forest[parent].children().push(child)))
}

/// `forest` after a new leaf that holds `value` has been made under the fresh
/// handle `child` and attached to `parent`.
pub open spec fn inserted<T>(forest: Forest<T>, parent: NodeRef, child: NodeRef, value: T) -> Forest<
    T,
> {
    attached(forest.insert(child, leaf_of(value, Some(parent))), parent, child)
}

/// `forest` after the existing node `node` has been pointed at `parent` and
/// attached to it.
pub open spec fn adopted<T>(forest: Forest<T>, parent: NodeRef, node: NodeRef) -> Forest<T> {
    attached(reparented(forest, node, Some(parent)), parent, node)
}

/// What a downgrade of `node` comes to. A leaf is refused as no parent, a
/// node with children with their number, a root as a root, in this order;
/// a parent without children that has a parent of its own is accepted.
pub open spec fn downgrade_outcome<T>(node: NodeView<T>) -> Result<(), NodeError> {
    if node.is_leaf() {
        Err(NodeError::DowngradeNotParent)
    } else if node.has_children() {
        Err(NodeError::IllegalDowngradeWithChildren(node.children().len() as usize))
    } else if node.prev is None {
        Err(NodeError::RootDowngradeNotAllowed)
    } else {
        Ok(())
    }
}

/// `at` is the position of the first entry of `children` that is `child`.
pub open spec fn first_at(children: Seq<NodeRef>, child: NodeRef, at: int) -> bool {
    &&& 0 <= at < children.len()
    &&& children[at] == child
    &&& forall|j: int| 0 <= j < at ==> children[j] != child
}

/// `forest` after the first entry for `child` has left the children of
/// `parent`: `child` has no parent any more, and a `parent` that is left
/// without children, and is no root, is a leaf again.
pub open spec fn detached<T>(forest: Forest<T>, parent: NodeRef, child: NodeRef) -> Forest<T> {
    let pruned = reshaped(forest, parent, Some(forest[parent].children().remove_value(child)));
    let cleared = reparented(pruned, child, None);
    if !cleared[parent].has_children() && cleared[parent].prev is Some {
        downgraded(cleared, parent)
    } else {
        cleared
    }
}

/// A forest with closed links stays so when a node is added whose own links
/// lead to nodes of the forest or to itself.
pub proof fn lemma_insert_links_closed<T>(forest: Forest<T>, r: NodeRef, node: NodeView<T>)
    requires
        links_closed(forest),
        links_within(forest.insert(r, node), node),
    ensures
        links_closed(forest.insert(r, node)),
{
    let grown = forest.insert(r, node);
    assert forall|q: NodeRef| #[trigger] grown.contains_key(q) implies links_within(
        grown,
        grown[q],
    ) by {
        if q != r {
            assert(forest.contains_key(q));
            assert(links_within(forest, forest[q]));
        }
    }
}

/// A forest with closed links stays so when a node takes a shape whose
/// children are nodes of the forest.
pub proof fn lemma_reshaped_links_closed<T>(
    forest: Forest<T>,
    node: NodeRef,
    next: Option<Seq<NodeRef>>,
)
    requires
        links_closed(forest),
        forest.contains_key(node),
        next matches Some(children) ==> forall|i: int|
            0 <= i < children.len() ==> forest.contains_key(#[trigger] children[i]),
    ensures
        links_closed(reshaped(forest, node, next)),
        reshaped(forest, node, next).dom() == forest.dom(),
{
    let changed = NodeView { next, ..forest[node] };
    assert(links_within(forest, forest[node]));
    assert(links_within(forest.insert(node, changed), changed));
    lemma_insert_links_closed(forest, node, changed);
    assert(reshaped(forest, node, next).dom() =~= forest.dom());
}

/// A forest with closed links stays so when a node is given a parent that is
/// a node of the forest, or none.
pub proof fn lemma_reparented_links_closed<T>(
    forest: Forest<T>,
    node: NodeRef,
    prev: Option<NodeRef>,
)
    requires
        links_closed(forest),
        forest.contains_key(node),
        prev matches Some(parent) ==> forest.contains_key(parent),
    ensures
        links_closed(reparented(forest, node, prev)),
        reparented(forest, node, prev).dom() == forest.dom(),
{
    let changed = NodeView { prev, ..forest[node] };
    assert(links_within(forest, forest[node]));
    assert(changed.children() == forest[node].children());
    assert(links_within(forest.insert(node, changed), changed));
    lemma_insert_links_closed(forest, node, changed);
    assert(reparented(forest, node, prev).dom() =~= forest.dom());
}

/// What detaching does, spelled out: the first entry for `child` leaves the
/// children of `parent`, `child` has no parent afterwards, every other node
/// is as it was, and the links stay closed.
pub proof fn lemma_detached<T>(forest: Forest<T>, parent: NodeRef, child: NodeRef)
    requires
        links_closed(forest),
        forest.contains_key(parent),
        forest[parent].children().contains(child),
    ensures
        forest.contains_key(child),
        forest[parent].children().index_of_first(child) is Some,
        forest[parent].children().remove_value(child) == forest[parent].children().remove(
            forest[parent].children().index_of_first(child).unwrap(),
        ),
        detached(forest, parent, child).dom() == forest.dom(),
        links_closed(detached(forest, parent, child)),
        detached(forest, parent, child)[parent].children() == forest[parent].children().remove_value(
            child,
        ),
        detached(forest, parent, child)[parent].children().len() == forest[parent].children().len()
            - 1,
        forall|at: int| #[trigger]
            first_at(forest[parent].children(), child, at) ==> detached(
                forest,
                parent,
                child,
            )[parent].children() == forest[parent].children().remove(at),
        detached(forest, parent, child)[child].prev is None,
        forest[parent].prev is None ==> !detached(forest, parent, child)[parent].is_leaf(),
        forest[parent].prev is Some && parent != child && !detached(
            forest,
            parent,
            child,
        )[parent].has_children() ==> detached(forest, parent, child)[parent].is_leaf(),
        forall|r: NodeRef|
            r != parent && r != child && forest.contains_key(r) ==> #[trigger] detached(
                forest,
                parent,
                child,
            )[r] == forest[r],
        forall|r: NodeRef|
            forest.contains_key(r) ==> (#[trigger] detached(forest, parent, child)[r]).value
                == forest[r].value,
{
    let children = forest[parent].children();
    children.index_of_first_ensures(child);
    let at = children.index_of_first(child).unwrap();
    let rest = children.remove(at);
    assert(links_within(forest, forest[parent]));
    assert(forest.contains_key(children[at]));
    assert forall|i: int| 0 <= i < rest.len() implies forest.contains_key(#[trigger] rest[i]) by {
        if i < at {
            assert(rest[i] == children[i]);
        } else {
            assert(rest[i] == children[i + 1]);
        }
    }
    lemma_reshaped_links_closed(forest, parent, Some(rest));
    let pruned = reshaped(forest, parent, Some(rest));
    lemma_reparented_links_closed(pruned, child, None);
    let cleared = reparented(pruned, child, None);
    lemma_reshaped_links_closed(cleared, parent, None);
    assert(cleared[parent].children() == rest);
}

} // verus!
