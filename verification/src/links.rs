//! The agreement between the children that parents hold and the parents that
//! children refer back to, and the operations that keep it.
use crate::model::{
    adopted, attached, detached, downgraded, inserted, leaf_of, lemma_detached,
    lemma_insert_links_closed, lemma_reparented_links_closed, lemma_reshaped_links_closed,
    links_closed, links_within, reparented, reshaped, Forest,
};
use crate::node::{NodeRef, NodeView};
use vstd::prelude::*;

verus! {

/// No node is listed twice among the children of `parent`, and each of them
/// refers back to `parent`.
pub open spec fn children_agree<T>(forest: Forest<T>, parent: NodeRef) -> bool {
    &&& forest[parent].children().no_duplicates()
    &&& forall|i: int|
        0 <= i < forest[parent].children().len() ==> forest[#[trigger] forest[parent].children()[i]].prev
            == Some(parent)
}

/// The node that `child` refers back to, if any, holds `child` among its
/// children.
pub open spec fn parent_agrees<T>(forest: Forest<T>, child: NodeRef) -> bool {
    forest[child].prev matches Some(parent) ==> forest[parent].children().contains(child)
}

/// Membership and back-references agree throughout `forest`: a node is among
/// the children of `p` exactly when it refers back to `p`, and then it is
/// listed there once. So no node is a child of two parents, and a node that
/// some node refers back to is a parent.
pub open spec fn linked<T>(forest: Forest<T>) -> bool {
    &&& links_closed(forest)
    &&& forall|r: NodeRef| #[trigger]
        forest.contains_key(r) ==> children_agree(forest, r) && parent_agrees(forest, r)
}

/// In a linked forest the node that a node refers back to is a parent, never
/// a leaf.
pub proof fn lemma_parent_is_no_leaf<T>(forest: Forest<T>, child: NodeRef)
    requires
        linked(forest),
        forest.contains_key(child),
        forest[child].prev is Some,
    ensures
        forest.contains_key(forest[child].prev.unwrap()),
        !forest[forest[child].prev.unwrap()].is_leaf(),
        forest[forest[child].prev.unwrap()].children().contains(child),
{
    assert(links_within(forest, forest[child]));
    assert(parent_agrees(forest, child));
}

/// In a linked forest a node without a parent is among nobody's children.
pub proof fn lemma_orphan_is_no_child<T>(forest: Forest<T>, node: NodeRef, parent: NodeRef)
    requires
        linked(forest),
        forest.contains_key(parent),
        forest[node].prev is None,
    ensures
        !forest[parent].children().contains(node),
{
    if forest[parent].children().contains(node) {
        let i = choose|i: int|
            0 <= i < forest[parent].children().len() && forest[parent].children()[i] == node;
        assert(children_agree(forest, parent));
        assert(forest[forest[parent].children()[i]].prev == Some(parent));
    }
}

/// In a linked forest a node is a child of the one node that it refers back
/// to, and of no other.
pub proof fn lemma_one_parent<T>(forest: Forest<T>, child: NodeRef, p: NodeRef, q: NodeRef)
    requires
        linked(forest),
        forest.contains_key(p),
        forest.contains_key(q),
        forest[p].children().contains(child),
        forest[q].children().contains(child),
    ensures
        p == q,
        forest[child].prev == Some(p),
{
    let i = choose|i: int|
        0 <= i < forest[p].children().len() && forest[p].children()[i] == child;
    let j = choose|j: int|
        0 <= j < forest[q].children().len() && forest[q].children()[j] == child;
    assert(children_agree(forest, p));
    assert(children_agree(forest, q));
    assert(forest[forest[p].children()[i]].prev == Some(p));
    assert(forest[forest[q].children()[j]].prev == Some(q));
}

/// A linked forest stays linked when a node joins it that has no parent and
/// no children.
pub proof fn lemma_lone_node_keeps_linked<T>(forest: Forest<T>, r: NodeRef, node: NodeView<T>)
    requires
        linked(forest),
        !forest.contains_key(r),
        node.prev is None,
        !node.has_children(),
    ensures
        linked(forest.insert(r, node)),
{
    let grown = forest.insert(r, node);
    assert(node.children() =~= Seq::<NodeRef>::empty());
    lemma_insert_links_closed(forest, r, node);
    assert forall|q: NodeRef| #[trigger] grown.contains_key(q) implies children_agree(grown, q)
        && parent_agrees(grown, q) by {
        if q != r {
            assert(forest.contains_key(q));
            assert(links_within(forest, forest[q]));
            assert(children_agree(forest, q) && parent_agrees(forest, q));
            assert forall|i: int| 0 <= i < grown[q].children().len() implies grown[#[trigger] grown[q].children()[i]].prev
                == Some(q) by {
                assert(forest.contains_key(forest[q].children()[i]));
            }
        }
    }
}

/// A linked forest stays linked when a new leaf is made and attached.
pub proof fn lemma_inserted_keeps_linked<T>(
    forest: Forest<T>,
    parent: NodeRef,
    child: NodeRef,
    value: T,
)
    requires
        linked(forest),
        forest.contains_key(parent),
        !forest.contains_key(child),
    ensures
        linked(inserted(forest, parent, child, value)),
{
    let grown = forest.insert(child, leaf_of(value, Some(parent)));
    lemma_insert_links_closed(forest, child, leaf_of(value, Some(parent)));
    lemma_attached_keeps_linked(forest, grown, parent, child);
}

/// A linked forest stays linked when a node that has no parent is attached.
pub proof fn lemma_adopted_keeps_linked<T>(forest: Forest<T>, parent: NodeRef, node: NodeRef)
    requires
        linked(forest),
        forest.contains_key(parent),
        forest.contains_key(node),
        forest[node].prev is None,
    ensures
        linked(adopted(forest, parent, node)),
{
    let pointed = reparented(forest, node, Some(parent));
    lemma_reparented_links_closed(forest, node, Some(parent));
    assert forall|q: NodeRef| forest.contains_key(q) implies !forest[q].children().contains(
        node,
    ) by {
        lemma_orphan_is_no_child(forest, node, q);
    }
    lemma_attached_keeps_linked(forest, pointed, parent, node);
}

/// The step that making and adopting share: `pointed` is the linked forest
/// `before` except at `child`, which refers back to `parent` and is among
/// nobody's children yet; attaching `child` to `parent` gives a linked
/// forest.
proof fn lemma_attached_keeps_linked<T>(
    before: Forest<T>,
    pointed: Forest<T>,
    parent: NodeRef,
    child: NodeRef,
)
    requires
        linked(before),
        links_closed(pointed),
        before.contains_key(parent),
        pointed.contains_key(child),
        pointed[child].prev == Some(parent),
        before.contains_key(child) ==> pointed[child].next == before[child].next,
        !before.contains_key(child) ==> pointed[child].next is None,
        forall|q: NodeRef| pointed.contains_key(q) <==> before.contains_key(q) || q == child,
        forall|q: NodeRef| before.contains_key(q) && q != child ==> pointed[q] == before[q],
        forall|q: NodeRef|
            before.contains_key(q) ==> !(#[trigger] before[q].children()).contains(child),
    ensures
        linked(attached(pointed, parent, child)),
{
    let old_children = pointed[parent].children();
    let new_children = old_children.push(child);
    let after = attached(pointed, parent, child);
    assert(links_within(pointed, pointed[parent]));
    assert forall|i: int| 0 <= i < new_children.len() implies pointed.contains_key(
        #[trigger] new_children[i],
    ) by {
        if i < old_children.len() {
            assert(new_children[i] == old_children[i]);
        }
    }
    lemma_reshaped_links_closed(pointed, parent, Some(new_children));
    assert(after[parent].children() == new_children);
    assert(old_children == before[parent].children()) by {
        if parent == child {
            assert(pointed[child].next == before[child].next);
        }
    }
    assert(!old_children.contains(child));
    assert forall|q: NodeRef| #[trigger] after.contains_key(q) implies children_agree(after, q)
        && parent_agrees(after, q) by {
        assert(pointed.contains_key(q));
        // What `q` holds and refers back to, before and after.
        if q != child {
            assert(before.contains_key(q));
            assert(children_agree(before, q) && parent_agrees(before, q));
            assert(links_within(before, before[q]));
        }
        assert(after[q].prev == pointed[q].prev);
        if q == parent {
            assert(children_agree(before, parent));
            assert(new_children.no_duplicates()) by {
                assert forall|i: int, j: int|
                    0 <= i < new_children.len() && 0 <= j < new_children.len() && i
                        != j implies new_children[i] != new_children[j] by {
                    if i < old_children.len() && j < old_children.len() {
                        assert(old_children[i] != old_children[j]);
                    } else if i < old_children.len() {
                        assert(old_children.contains(old_children[i]));
                    } else {
                        assert(old_children.contains(old_children[j]));
                    }
                }
            }
            assert forall|i: int| 0 <= i < after[q].children().len() implies after[#[trigger] after[q].children()[i]].prev
                == Some(q) by {
                if i < old_children.len() {
                    let e = old_children[i];
                    assert(old_children.contains(e));
                    assert(e != child);
                    assert(before[#[trigger] before[parent].children()[i]].prev == Some(parent));
                    assert(before.contains_key(e));
                    assert(after[e].prev == pointed[e].prev);
                }
            }
        } else {
            assert(after[q] == pointed[q]);
            if q != child {
                assert forall|i: int| 0 <= i < after[q].children().len() implies after[#[trigger] after[q].children()[i]].prev
                    == Some(q) by {
                    let e = before[q].children()[i];
                    assert(before[q].children().contains(e));
                    assert(e != child);
                    assert(before.contains_key(e));
                    assert(after[e].prev == pointed[e].prev);
                }
            } else {
                if before.contains_key(child) {
                    assert(children_agree(before, child));
                    assert(links_within(before, before[child]));
                    assert forall|i: int| 0 <= i < after[q].children().len() implies after[#[trigger] after[q].children()[i]].prev
                        == Some(q) by {
                        let e = before[q].children()[i];
                        assert(before[q].children().contains(e));
                        assert(e != child);
                        assert(before.contains_key(e));
                        assert(after[e].prev == pointed[e].prev);
                    }
                } else {
                    assert(after[q].children() =~= Seq::<NodeRef>::empty());
                }
            }
        }
        // The node that `q` refers back to holds `q`.
        if q == child {
            assert(new_children[new_children.len() - 1] == child);
            assert(after[parent].children().contains(child));
        } else if before[q].prev is Some {
            let p = before[q].prev.unwrap();
            assert(before[p].children().contains(q));
            let i = choose|i: int| 0 <= i < before[p].children().len() && before[p].children()[i] == q;
            if p == parent {
                assert(new_children[i] == q);
            } else {
                assert(before.contains_key(p));
                if p == child {
                    assert(after[p].children() == before[p].children());
                } else {
                    assert(after[p] == before[p]);
                }
                assert(after[p].children()[i] == q);
            }
        }
    }
}

/// A linked forest stays linked when a child is detached from its parent.
pub proof fn lemma_detached_keeps_linked<T>(forest: Forest<T>, parent: NodeRef, child: NodeRef)
    requires
        linked(forest),
        forest.contains_key(parent),
        forest[parent].children().contains(child),
    ensures
        linked(detached(forest, parent, child)),
{
    let children = forest[parent].children();
    lemma_detached(forest, parent, child);
    let at = children.index_of_first(child).unwrap();
    children.index_of_first_ensures(child);
    let rest = children.remove(at);
    let after = detached(forest, parent, child);
    assert(children_agree(forest, parent));
    assert(after[parent].children() == rest);
    assert(rest.no_duplicates() && !rest.contains(child)) by {
        assert forall|i: int| 0 <= i < rest.len() implies rest[i] != child by {
            if i < at {
                assert(rest[i] == children[i]);
            } else {
                assert(rest[i] == children[i + 1]);
            }
        }
        assert forall|i: int, j: int| 0 <= i < rest.len() && 0 <= j < rest.len() && i
            != j implies rest[i] != rest[j] by {
            let a = if i < at { i } else { i + 1 };
            let b = if j < at { j } else { j + 1 };
            assert(rest[i] == children[a] && rest[j] == children[b]);
        }
    }
    assert forall|q: NodeRef| forest.contains_key(q) implies (#[trigger] after[q]).children() == (
    if q == parent {
        rest
    } else {
        forest[q].children()
    }) && after[q].prev == (if q == child {
        None
    } else {
        forest[q].prev
    }) by {
        let pruned = reshaped(forest, parent, Some(rest));
        let cleared = reparented(pruned, child, None);
        assert(cleared[q].children() == if q == parent {
            rest
        } else {
            forest[q].children()
        });
        if after != cleared {
            assert(rest.len() == 0);
            assert(after[parent].children() =~= rest);
        }
    }
    assert forall|q: NodeRef| #[trigger] after.contains_key(q) implies children_agree(after, q)
        && parent_agrees(after, q) by {
        assert(forest.contains_key(q));
        assert(children_agree(forest, q) && parent_agrees(forest, q));
        assert(links_within(forest, forest[q]));
        assert forall|i: int| 0 <= i < after[q].children().len() implies after[#[trigger] after[q].children()[i]].prev
            == Some(q) by {
            let e = after[q].children()[i];
            if q == parent {
                assert(rest.contains(e));
                let k = if i < at { i } else { i + 1 };
                assert(e == children[k]);
                assert(forest[#[trigger] forest[parent].children()[k]].prev == Some(parent));
                assert(forest.contains_key(e));
            } else {
                assert(forest[q].children().contains(e));
                if e == child {
                    lemma_one_parent(forest, child, parent, q);
                }
                assert(forest[#[trigger] forest[q].children()[i]].prev == Some(q));
                assert(forest.contains_key(e));
            }
        }
        if q != child && forest[q].prev is Some {
            let p = forest[q].prev.unwrap();
            assert(forest.contains_key(p));
            assert(forest[p].children().contains(q));
            let i = choose|i: int| 0 <= i < forest[p].children().len() && forest[p].children()[i] == q;
            if p == parent {
                let k = if i < at { i } else { i - 1 };
                assert(rest[k] == q);
            } else {
                assert(after[p].children()[i] == q);
            }
        }
    }
}

/// A linked forest stays linked when a parent without children becomes a
/// leaf.
pub proof fn lemma_downgraded_keeps_linked<T>(forest: Forest<T>, node: NodeRef)
    requires
        linked(forest),
        forest.contains_key(node),
        !forest[node].has_children(),
    ensures
        linked(downgraded(forest, node)),
{
    let after = downgraded(forest, node);
    lemma_reshaped_links_closed(forest, node, None);
    assert(forest[node].children() =~= Seq::<NodeRef>::empty());
    assert(after[node].children() =~= Seq::<NodeRef>::empty());
    assert forall|q: NodeRef| forest.contains_key(q) implies (#[trigger] after[q]).children()
        == forest[q].children() && after[q].prev == forest[q].prev by {}
    assert forall|q: NodeRef| #[trigger] after.contains_key(q) implies children_agree(after, q)
        && parent_agrees(after, q) by {
        assert(forest.contains_key(q));
        assert(children_agree(forest, q) && parent_agrees(forest, q));
        assert(links_within(forest, forest[q]));
        assert forall|i: int| 0 <= i < after[q].children().len() implies after[#[trigger] after[q].children()[i]].prev
            == Some(q) by {
            assert(forest[#[trigger] forest[q].children()[i]].prev == Some(q));
            assert(forest.contains_key(forest[q].children()[i]));
        }
        if forest[q].prev is Some {
            let p = forest[q].prev.unwrap();
            assert(forest.contains_key(p));
            assert(forest[p].children().contains(q));
        }
    }
}

} // verus!
