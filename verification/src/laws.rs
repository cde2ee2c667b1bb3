//! What holds of insertions: of one into a leaf, and of several made one
//! after another.
use crate::model::{
    inserted, leaf_of, lemma_insert_links_closed, lemma_reshaped_links_closed, links_closed,
    links_within, Forest,
};
use crate::node::NodeRef;
use vstd::prelude::*;

verus! {

/// The values that the nodes under `handles` hold, in the order of `handles`.
pub open spec fn values_of<T>(forest: Forest<T>, handles: Seq<NodeRef>) -> Seq<T> {
    Seq::new(handles.len(), |i: int| forest[handles[i]].value)
}

/// `forest` after `values` have been inserted into `parent` one after another,
/// the leaf for `values[i]` being made under the handle `children[i]`.
pub open spec fn inserted_all<T>(
    forest: Forest<T>,
    parent: NodeRef,
    children: Seq<NodeRef>,
    values: Seq<T>,
) -> Forest<T>
    decreases children.len(),
{
    if children.len() == 0 {
        forest
    } else {
        inserted_all(
            inserted(forest, parent, children[0], values[0]),
            parent,
            children.drop_first(),
            values.drop_first(),
        )
    }
}

/// One insertion puts the new leaf behind the children that `parent` had,
/// leaves the values of those children as they were, and keeps the links
/// closed.
pub proof fn lemma_inserted<T>(forest: Forest<T>, parent: NodeRef, child: NodeRef, value: T)
    requires
        links_closed(forest),
        forest.contains_key(parent),
        !forest.contains_key(child),
    ensures
        links_closed(inserted(forest, parent, child, value)),
        inserted(forest, parent, child, value).dom() == forest.dom().insert(child),
        inserted(forest, parent, child, value)[child] == leaf_of(value, Some(parent)),
        !inserted(forest, parent, child, value)[parent].is_leaf(),
        inserted(forest, parent, child, value)[parent].children()
            == forest[parent].children().push(child),
        values_of(
            inserted(forest, parent, child, value),
            inserted(forest, parent, child, value)[parent].children(),
        ) == values_of(forest, forest[parent].children()).push(value),
{
    let leaf = leaf_of(value, Some(parent));
    let grown = forest.insert(child, leaf);
    let after = inserted(forest, parent, child, value);
    let before = forest[parent].children();
    assert(leaf.children() =~= Seq::<NodeRef>::empty());
    lemma_insert_links_closed(forest, child, leaf);
    assert(links_within(forest, forest[parent]));
    assert forall|i: int| 0 <= i < before.push(child).len() implies grown.contains_key(
        #[trigger] before.push(child)[i],
    ) by {
        if i < before.len() {
            assert(forest.contains_key(before[i]));
        }
    }
    lemma_reshaped_links_closed(grown, parent, Some(before.push(child)));
    assert(after.dom() =~= forest.dom().insert(child));
    assert forall|i: int| 0 <= i < before.len() implies after[before[i]].value
        == forest[before[i]].value by {
        assert(forest.contains_key(before[i]));
    }
    assert(values_of(after, after[parent].children()) =~= values_of(forest, before).push(value));
}

/// An insertion into a leaf makes it a parent of exactly the new leaf, which
/// holds the inserted value.
pub proof fn lemma_insert_into_leaf<T>(forest: Forest<T>, leaf: NodeRef, child: NodeRef, value: T)
    requires
        links_closed(forest),
        forest.contains_key(leaf),
        forest[leaf].is_leaf(),
        !forest.contains_key(child),
    ensures
        !inserted(forest, leaf, child, value)[leaf].is_leaf(),
        inserted(forest, leaf, child, value)[leaf].children() == seq![child],
        inserted(forest, leaf, child, value)[leaf].children().len() == 1,
        inserted(forest, leaf, child, value)[child].value == value,
        inserted(forest, leaf, child, value)[leaf].value == forest[leaf].value,
        inserted(forest, leaf, child, value)[leaf].prev == forest[leaf].prev,
{
    lemma_inserted(forest, leaf, child, value);
    assert(forest[leaf].children().push(child) =~= seq![child]);
}

/// However many values are inserted into one parent, one after another, its
/// children hold them in the order of insertion, behind the children that it
/// had before.
pub proof fn lemma_inserts_keep_order<T>(
    forest: Forest<T>,
    parent: NodeRef,
    children: Seq<NodeRef>,
    values: Seq<T>,
)
    requires
        links_closed(forest),
        forest.contains_key(parent),
        children.len() == values.len(),
        children.no_duplicates(),
        forall|i: int| 0 <= i < children.len() ==> !forest.contains_key(#[trigger] children[i]),
    ensures
        links_closed(inserted_all(forest, parent, children, values)),
        inserted_all(forest, parent, children, values)[parent].children()
            == forest[parent].children() + children,
        values_of(
            inserted_all(forest, parent, children, values),
            inserted_all(forest, parent, children, values)[parent].children(),
        ) == values_of(forest, forest[parent].children()) + values,
    decreases children.len(),
{
    if children.len() == 0 {
        assert(forest[parent].children() + children =~= forest[parent].children());
        assert(values_of(forest, forest[parent].children()) + values =~= values_of(
            forest,
            forest[parent].children(),
        ));
    } else {
        let first = inserted(forest, parent, children[0], values[0]);
        lemma_inserted(forest, parent, children[0], values[0]);
        assert forall|i: int| 0 <= i < children.drop_first().len() implies !first.contains_key(
            #[trigger] children.drop_first()[i],
        ) by {
            assert(children.drop_first()[i] == children[i + 1]);
        }
        lemma_inserts_keep_order(first, parent, children.drop_first(), values.drop_first());
        assert(forest[parent].children().push(children[0]) + children.drop_first()
            =~= forest[parent].children() + children);
        assert(values_of(forest, forest[parent].children()).push(values[0]) + values.drop_first()
            =~= values_of(forest, forest[parent].children()) + values);
    }
}

} // verus!
