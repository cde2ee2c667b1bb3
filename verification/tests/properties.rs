use node_tree::text::decimal_text;
use node_tree::{Arena, Node, NodeError, NodeIter, NodeRef};

fn values(arena: &Arena<i32>, handles: &[NodeRef]) -> Vec<i32> {
    handles.iter().map(|r| *arena.node(*r).value()).collect()
}

fn walk(arena: &Arena<i32>, start: NodeRef) -> Vec<i32> {
    let mut nodes: NodeIter = Node::iter(arena, start);
    let mut seen = Vec::new();
    while let Some(node) = nodes.next(arena) {
        seen.push(*arena.node(node).value());
    }
    seen
}

#[test]
fn new_root_is_root_without_children() {
    let mut arena: Arena<i32> = Arena::new();
    let root = Node::parent(&mut arena, 7);
    assert!(arena.contains(root));
    assert!(arena.node(root).is_root());
    assert!(!arena.node(root).is_leaf());
    assert!(!arena.node(root).has_children());
    assert_eq!(arena.node(root).children().len(), 0);
    assert_eq!(*arena.node(root).value(), 7);
    assert_eq!(arena.node(root).prev(), None);
}

#[test]
fn new_leaf_keeps_value_and_parent() {
    let mut arena: Arena<i32> = Arena::new();
    let root = Node::parent(&mut arena, 1);
    let lone = Node::leaf(&mut arena, 2, None);
    let pointing = Node::leaf(&mut arena, 3, Some(root));
    assert!(arena.node(lone).is_leaf());
    assert!(!arena.node(lone).is_root());
    assert_eq!(arena.node(lone).prev(), None);
    assert_eq!(arena.node(pointing).prev(), Some(root));
    assert_eq!(*arena.node(pointing).value(), 3);
    // A leaf that only points at a parent is not among its children.
    assert_eq!(arena.node(root).children().len(), 0);
    assert_ne!(lone, pointing);
}

#[test]
fn insert_into_leaf_makes_it_a_parent() {
    let mut arena: Arena<i32> = Arena::new();
    let leaf = Node::leaf(&mut arena, 10, None);
    let child = Node::insert(&mut arena, leaf, 11).unwrap();
    assert!(!arena.node(leaf).is_leaf());
    assert_eq!(arena.node(leaf).children().len(), 1);
    assert_eq!(arena.node(leaf).children()[0], child);
    assert_eq!(*arena.node(child).value(), 11);
    assert_eq!(*arena.node(leaf).value(), 10);
    assert_eq!(arena.node(child).prev(), Some(leaf));
    assert!(arena.node(child).is_leaf());
    // Without a parent of its own the former leaf is now a root.
    assert!(arena.node(leaf).is_root());
}

#[test]
fn inserts_keep_their_order() {
    let mut arena: Arena<i32> = Arena::new();
    let root = Node::parent(&mut arena, 0);
    let mut expected = Vec::new();
    for v in [5, 3, 9, 3, 1, 8] {
        Node::insert(&mut arena, root, v).unwrap();
        expected.push(v);
        assert_eq!(values(&arena, arena.node(root).children()), expected);
    }
    assert_eq!(values(&arena, arena.node(root).children()), vec![5, 3, 9, 3, 1, 8]);
}

#[test]
fn pop_goes_by_identity_not_by_value() {
    let mut arena: Arena<i32> = Arena::new();
    let root = Node::parent(&mut arena, 1);
    let a = Node::insert(&mut arena, root, 2).unwrap();
    let b = Node::insert(&mut arena, root, 2).unwrap();
    let stranger = Node::leaf(&mut arena, 2, None);
    assert_eq!(Node::pop(&mut arena, root, stranger), Ok(false));
    assert_eq!(arena.node(root).children().to_vec(), vec![a, b]);
    assert_eq!(arena.node(a).prev(), Some(root));
    assert_eq!(Node::pop(&mut arena, root, b), Ok(true));
    assert_eq!(arena.node(root).children().to_vec(), vec![a]);
    assert_eq!(arena.node(b).prev(), None);
    assert_eq!(arena.node(a).prev(), Some(root));
    // A second pop of the same node finds nothing.
    assert_eq!(Node::pop(&mut arena, root, b), Ok(false));
    assert_eq!(arena.node(root).children().to_vec(), vec![a]);
}

#[test]
fn pop_keeps_the_order_of_the_rest() {
    let mut arena: Arena<i32> = Arena::new();
    let root = Node::parent(&mut arena, 0);
    let a = Node::insert(&mut arena, root, 1).unwrap();
    let b = Node::insert(&mut arena, root, 2).unwrap();
    let c = Node::insert(&mut arena, root, 3).unwrap();
    let d = Node::insert(&mut arena, root, 4).unwrap();
    assert_eq!(Node::pop(&mut arena, root, b), Ok(true));
    assert_eq!(arena.node(root).children().to_vec(), vec![a, c, d]);
    assert_eq!(Node::pop(&mut arena, root, a), Ok(true));
    assert_eq!(arena.node(root).children().to_vec(), vec![c, d]);
    assert_eq!(Node::pop(&mut arena, root, d), Ok(true));
    assert_eq!(arena.node(root).children().to_vec(), vec![c]);
}

#[test]
fn pop_on_a_leaf_fails() {
    let mut arena: Arena<i32> = Arena::new();
    let leaf = Node::leaf(&mut arena, 1, None);
    let other = Node::leaf(&mut arena, 2, None);
    assert_eq!(Node::pop(&mut arena, leaf, other), Err(NodeError::NotAParent));
    assert!(arena.node(leaf).is_leaf());
}

#[test]
fn last_child_of_a_root_leaves_a_parent() {
    let mut arena: Arena<i32> = Arena::new();
    let root = Node::parent(&mut arena, 1);
    let child = Node::insert(&mut arena, root, 2).unwrap();
    assert_eq!(Node::pop(&mut arena, root, child), Ok(true));
    assert!(!arena.node(root).is_leaf());
    assert!(arena.node(root).is_root());
    assert_eq!(arena.node(root).children().len(), 0);
    // The root takes children again.
    let again = Node::insert(&mut arena, root, 3).unwrap();
    assert_eq!(arena.node(root).children().to_vec(), vec![again]);
}

#[test]
fn last_child_of_an_inner_parent_leaves_a_leaf() {
    let mut arena: Arena<i32> = Arena::new();
    let root = Node::parent(&mut arena, 1);
    let c1 = Node::insert(&mut arena, root, 2).unwrap();
    let c2 = Node::insert(&mut arena, root, 3).unwrap();
    let gc = Node::insert(&mut arena, c2, 4).unwrap();
    assert!(!arena.node(c2).is_leaf());
    assert_eq!(Node::pop(&mut arena, c2, gc), Ok(true));
    assert!(arena.node(c2).is_leaf());
    assert_eq!(arena.node(c2).prev(), Some(root));
    assert_eq!(*arena.node(c2).value(), 3);
    assert!(arena.node(c1).is_leaf());
    assert_eq!(arena.node(gc).prev(), None);
    assert_eq!(arena.node(root).children().to_vec(), vec![c1, c2]);
}

#[test]
fn inner_parent_with_children_left_stays_a_parent() {
    let mut arena: Arena<i32> = Arena::new();
    let root = Node::parent(&mut arena, 1);
    let inner = Node::insert(&mut arena, root, 2).unwrap();
    let a = Node::insert(&mut arena, inner, 3).unwrap();
    let b = Node::insert(&mut arena, inner, 4).unwrap();
    assert_eq!(Node::pop(&mut arena, inner, a), Ok(true));
    assert!(!arena.node(inner).is_leaf());
    assert_eq!(arena.node(inner).children().to_vec(), vec![b]);
}

#[test]
fn downgrade_reports_each_failure() {
    let mut arena: Arena<i32> = Arena::new();
    let root = Node::parent(&mut arena, 1);
    let inner = Node::insert(&mut arena, root, 2).unwrap();
    let a = Node::insert(&mut arena, inner, 3).unwrap();
    let _b = Node::insert(&mut arena, inner, 4).unwrap();
    let _c = Node::insert(&mut arena, inner, 5).unwrap();
    assert_eq!(
        Node::downgrade(&mut arena, inner),
        Err(NodeError::IllegalDowngradeWithChildren(3))
    );
    assert_eq!(arena.node(inner).children().len(), 3);
    // Children are tested before the missing parent.
    assert_eq!(
        Node::downgrade(&mut arena, root),
        Err(NodeError::IllegalDowngradeWithChildren(1))
    );
    assert_eq!(Node::downgrade(&mut arena, a), Err(NodeError::DowngradeNotParent));
    let bare = Node::parent(&mut arena, 9);
    assert_eq!(Node::downgrade(&mut arena, bare), Err(NodeError::RootDowngradeNotAllowed));
    assert!(arena.node(bare).is_root());
}

#[test]
fn downgrade_of_an_empty_inner_parent_succeeds() {
    let mut arena: Arena<i32> = Arena::new();
    let root = Node::parent(&mut arena, 1);
    let empty = Node::parent(&mut arena, 2);
    Node::insert_node(&mut arena, root, empty).unwrap();
    assert!(!arena.node(empty).is_leaf());
    assert_eq!(Node::downgrade(&mut arena, empty), Ok(()));
    assert!(arena.node(empty).is_leaf());
    assert_eq!(arena.node(empty).prev(), Some(root));
    assert_eq!(*arena.node(empty).value(), 2);
}

#[test]
fn upgrade_turns_a_leaf_into_a_parent() {
    let mut arena: Arena<i32> = Arena::new();
    let root = Node::parent(&mut arena, 1);
    let leaf = Node::insert(&mut arena, root, 2).unwrap();
    let child = Node::leaf(&mut arena, 3, Some(leaf));
    assert_eq!(Node::upgrade(&mut arena, leaf, child), Ok(()));
    assert!(!arena.node(leaf).is_leaf());
    assert_eq!(arena.node(leaf).children().to_vec(), vec![child]);
    assert_eq!(*arena.node(leaf).value(), 2);
    assert_eq!(arena.node(leaf).prev(), Some(root));
}

#[test]
fn upgrade_of_a_parent_changes_nothing() {
    let mut arena: Arena<i32> = Arena::new();
    let root = Node::parent(&mut arena, 1);
    let a = Node::insert(&mut arena, root, 2).unwrap();
    let other = Node::leaf(&mut arena, 3, None);
    assert_eq!(
        Node::upgrade(&mut arena, root, other),
        Err(NodeError::ParentUpgradeNotAllowed)
    );
    assert_eq!(arena.node(root).children().to_vec(), vec![a]);
    assert_eq!(*arena.node(root).value(), 1);
    assert_eq!(arena.node(root).prev(), None);
    assert_eq!(arena.node(other).prev(), None);
}

#[test]
fn expectations_fail_with_their_own_errors() {
    let mut arena: Arena<i32> = Arena::new();
    let root = Node::parent(&mut arena, 1);
    let leaf = Node::insert(&mut arena, root, 2).unwrap();
    assert_eq!(arena.node(root).expect_root(), Ok(()));
    assert_eq!(arena.node(leaf).expect_root(), Err(NodeError::ExpectedARootNode));
    assert_eq!(arena.node(leaf).expect_leaf(), Ok(()));
    assert_eq!(arena.node(root).expect_leaf(), Err(NodeError::ExpectedALeafNode));
    assert_eq!(arena.node(root).expect_children().map(|c| c.to_vec()), Ok(vec![leaf]));
    assert_eq!(arena.node(leaf).expect_children(), Err(NodeError::ExpectedChildren));
    let bare = Node::parent(&mut arena, 3);
    assert_eq!(arena.node(bare).expect_children(), Err(NodeError::ExpectedChildren));
    assert_eq!(arena.node(leaf).expect_prev(), Ok(root));
    assert_eq!(arena.node(root).expect_prev(), Err(NodeError::ParentNodeNotFound));
}

#[test]
fn inner_parent_is_no_root() {
    let mut arena: Arena<i32> = Arena::new();
    let root = Node::parent(&mut arena, 1);
    let inner = Node::insert(&mut arena, root, 2).unwrap();
    Node::insert(&mut arena, inner, 3).unwrap();
    assert!(!arena.node(inner).is_leaf());
    assert!(!arena.node(inner).is_root());
    assert!(arena.node(inner).has_children());
}

#[test]
fn end_to_end() {
    let mut arena: Arena<i32> = Arena::new();
    let r = Node::parent(&mut arena, 1);
    let c1 = Node::insert(&mut arena, r, 2).unwrap();
    let c2 = Node::insert(&mut arena, r, 3).unwrap();
    Node::insert(&mut arena, c2, 4).unwrap();
    Node::insert(&mut arena, c2, 5).unwrap();
    assert_eq!(arena.node(r).children().len(), 2);
    assert_eq!(values(&arena, arena.node(r).children()), vec![2, 3]);
    assert_eq!(values(&arena, arena.node(c2).children()), vec![4, 5]);
    assert!(arena.node(c1).is_leaf());
    assert_eq!(walk(&arena, r), vec![1, 2, 3, 4, 5]);
}

#[test]
fn walk_goes_level_by_level_past_leaves() {
    let mut arena: Arena<i32> = Arena::new();
    let r = Node::parent(&mut arena, 1);
    let a = Node::insert(&mut arena, r, 2).unwrap();
    let _b = Node::insert(&mut arena, r, 3).unwrap();
    let c = Node::insert(&mut arena, r, 4).unwrap();
    Node::insert(&mut arena, a, 5).unwrap();
    let d = Node::insert(&mut arena, c, 6).unwrap();
    Node::insert(&mut arena, c, 7).unwrap();
    Node::insert(&mut arena, d, 8).unwrap();
    assert_eq!(walk(&arena, r), vec![1, 2, 3, 4, 5, 6, 7, 8]);
    assert_eq!(walk(&arena, c), vec![4, 6, 7, 8]);
}

#[test]
fn walk_from_a_leaf_produces_the_leaf() {
    let mut arena: Arena<i32> = Arena::new();
    let leaf = Node::leaf(&mut arena, 42, None);
    let mut nodes = NodeIter::new(leaf);
    assert_eq!(nodes.next(&arena), Some(leaf));
    assert_eq!(nodes.next(&arena), None);
    assert_eq!(nodes.next(&arena), None);
}

#[test]
fn moving_a_node_to_another_parent() {
    let mut arena: Arena<i32> = Arena::new();
    let first = Node::parent(&mut arena, 1);
    let second = Node::parent(&mut arena, 2);
    let inner = Node::insert(&mut arena, first, 3).unwrap();
    let node = Node::insert(&mut arena, inner, 4).unwrap();
    assert_eq!(Node::pop(&mut arena, inner, node), Ok(true));
    assert!(arena.node(inner).is_leaf());
    assert_eq!(Node::insert_node(&mut arena, second, node), Ok(()));
    assert_eq!(arena.node(node).prev(), Some(second));
    assert_eq!(arena.node(second).children().to_vec(), vec![node]);
    assert_eq!(*arena.node(node).value(), 4);
}

#[test]
fn a_node_listed_twice_leaves_once() {
    let mut arena: Arena<i32> = Arena::new();
    let root = Node::parent(&mut arena, 1);
    let a = Node::leaf(&mut arena, 2, None);
    let b = Node::insert(&mut arena, root, 3).unwrap();
    Node::insert_node(&mut arena, root, a).unwrap();
    Node::insert_node(&mut arena, root, a).unwrap();
    assert_eq!(arena.node(root).children().to_vec(), vec![b, a, a]);
    assert_eq!(Node::pop(&mut arena, root, a), Ok(true));
    assert_eq!(arena.node(root).children().to_vec(), vec![b, a]);
    assert_eq!(arena.node(a).prev(), None);
}

#[test]
fn a_node_attached_to_itself() {
    let mut arena: Arena<i32> = Arena::new();
    let root = Node::parent(&mut arena, 1);
    let node = Node::insert(&mut arena, root, 2).unwrap();
    assert_eq!(Node::insert_node(&mut arena, node, node), Ok(()));
    assert_eq!(arena.node(node).prev(), Some(node));
    assert_eq!(arena.node(node).children().to_vec(), vec![node]);
    // Detaching it from itself leaves it without a parent, so it stays a
    // parent although no child is left.
    assert_eq!(Node::pop(&mut arena, node, node), Ok(true));
    assert_eq!(arena.node(node).prev(), None);
    assert!(!arena.node(node).is_leaf());
    assert_eq!(arena.node(node).children().len(), 0);
}

#[test]
fn handles_of_a_larger_arena_are_unknown_to_a_smaller_one() {
    let mut large: Arena<i32> = Arena::new();
    let small: Arena<i32> = Arena::new();
    let a = Node::parent(&mut large, 1);
    let b = Node::insert(&mut large, a, 2).unwrap();
    assert!(large.contains(a));
    assert!(large.contains(b));
    assert!(!small.contains(a));
    assert!(!small.contains(b));
}

#[test]
fn decimal_text_of_numbers() {
    assert_eq!(decimal_text(0), "0");
    assert_eq!(decimal_text(7), "7");
    assert_eq!(decimal_text(10), "10");
    assert_eq!(decimal_text(909), "909");
    assert_eq!(decimal_text(1234567890), "1234567890");
    assert_eq!(decimal_text(usize::MAX), format!("{}", usize::MAX));
}

#[test]
fn messages_of_failures() {
    assert_eq!(
        NodeError::ParentUpgradeNotAllowed.message(),
        "Upgrage failure Node was not not a leaf"
    );
    assert_eq!(
        NodeError::DowngradeNotParent.message(),
        "Downgrade failure Node was not not a parent"
    );
    assert_eq!(
        NodeError::RootDowngradeNotAllowed.message(),
        "Root node cannot be downgraded"
    );
    assert_eq!(
        NodeError::IllegalDowngradeWithChildren(3).message(),
        "Downgrade failure, node still has reference to 3 children"
    );
    assert_eq!(
        NodeError::IllegalDowngradeWithChildren(120).message(),
        "Downgrade failure, node still has reference to 120 children"
    );
    assert_eq!(NodeError::ExpectedALeafNode.message(), "Expected a leaf node");
    assert_eq!(NodeError::ExpectedARootNode.message(), "Expected a root node");
    assert_eq!(NodeError::NotAParent.message(), "Expected a node Node::Parent");
    assert_eq!(NodeError::AlreadyBorrowed.message(), "Node is already borrowed mutably");
    assert_eq!(NodeError::ParentNodeNotFound.message(), "Parent not found");
    assert_eq!(
        NodeError::ExpectedChildren.message(),
        "Expected the node to have children"
    );
}

#[test]
fn descriptions_of_nodes() {
    let mut arena: Arena<i32> = Arena::new();
    let root = Node::parent(&mut arena, 42);
    let leaf = Node::insert(&mut arena, root, 420).unwrap();
    let inner = Node::insert(&mut arena, root, 7).unwrap();
    for v in 0..11 {
        Node::insert(&mut arena, inner, v).unwrap();
    }
    assert_eq!(
        arena.node(root).describe("42"),
        "Parent(value = 42, prev = None, children = 2)"
    );
    assert_eq!(arena.node(leaf).describe("420"), "Leaf(420)");
    assert_eq!(
        arena.node(inner).describe("7"),
        "Parent(value = 7, prev = Some, children = 11)"
    );
}
