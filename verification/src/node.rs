//! The node itself: a leaf or a parent, and what can be read from one.
use crate::error::NodeError;
use vstd::prelude::*;

verus! {

/// A handle to a node of an [`Arena`](crate::arena::Arena).
///
/// A handle is small and freely copied, so any number of holders can refer
/// to one node. Two handles are equal exactly when they designate the same
/// node: equality is identity, whatever values the nodes hold.
#[derive(Debug, Clone, Copy, PartialEq, Eq, Hash, Structural)]
pub struct NodeRef {
    pub(crate) index: usize,
}

/// The handle by which a node refers back to its parent. It does not own
/// the parent: it is looked up in the arena when it is followed.
pub type PrevNodeRef = NodeRef;

/// An element of a tree: a `Leaf`, which holds a value and a reference back
/// to its parent, or a `Parent`, which in addition holds its children in the
/// order in which they were attached.
#[derive(Clone, Debug)]
pub enum Node<T> {
    Leaf { prev: Option<PrevNodeRef>, value: T },
    Parent { value: T, prev: Option<PrevNodeRef>, next: Vec<NodeRef> },
}

/// What a node is, as a mathematical value.
pub struct NodeView<T> {
    /// The value that the node holds.
    pub value: T,
    /// The node's parent, if it has one.
    pub prev: Option<NodeRef>,
    /// `None` for a leaf; for a parent its children, oldest first.
    pub next: Option<Seq<NodeRef>>,
}

impl<T> NodeView<T> {
    /// The node has the shape of a leaf.
    pub open spec fn is_leaf(self) -> bool {
        self.next is None
    }

    /// The node has the shape of a parent and no parent of its own.
    pub open spec fn is_root(self) -> bool {
        self.next is Some && self.prev is None
    }

    /// The node's children in the order of their attachment; none for a leaf.
    pub open spec fn children(self) -> Seq<NodeRef> {
        match self.next {
            Some(children) => children,
            None => Seq::empty(),
        }
    }

    /// The node has at least one child.
    pub open spec fn has_children(self) -> bool {
        self.children().len() > 0
    }
}

impl<T> View for Node<T> {
    type V = NodeView<T>;

    open spec fn view(&self) -> NodeView<T> {
        match *self {
            Node::Leaf { prev, value } => NodeView { value, prev, next: None },
            Node::Parent { value, prev, next } => NodeView { value, prev, next: Some(next@) },
        }
    }
}

impl<T> Node<T> {
    /// Whether the node is a root: a parent that has no parent itself.
    #[inline]
    pub fn is_root(&self) -> (r: bool)
        ensures
            r == self@.is_root(),
    {
        match self {
            Node::Parent { prev, .. } => prev.is_none(),
            _ => false,
        }
    }

    /// Succeeds on a root and fails on any other node.
    #[inline]
    pub fn expect_root(&self) -> (r: Result<(), NodeError>)
        ensures
            self@.is_root() ==> r == Ok::<(), NodeError>(()),
            !self@.is_root() ==> r == Err::<(), NodeError>(NodeError::ExpectedARootNode),
    {
        if self.is_root() {
            Ok(())
        } else {
            Err(NodeError::ExpectedARootNode)
        }
    }

    /// Whether the node is a leaf.
    #[inline]
    pub fn is_leaf(&self) -> (r: bool)
        ensures
            r == self@.is_leaf(),
    {
        matches!(self, Node::Leaf { .. })
    }

    /// Succeeds on a leaf and fails on a parent.
    #[inline]
    pub fn expect_leaf(&self) -> (r: Result<(), NodeError>)
        ensures
            self@.is_leaf() ==> r == Ok::<(), NodeError>(()),
            !self@.is_leaf() ==> r == Err::<(), NodeError>(NodeError::ExpectedALeafNode),
    {
        if self.is_leaf() {
            Ok(())
        } else {
            Err(NodeError::ExpectedALeafNode)
        }
    }

    /// Whether the node is a parent with at least one child.
    #[inline]
    pub fn has_children(&self) -> (r: bool)
        ensures
            r == self@.has_children(),
    {
        match self {
            Node::Parent { next, .. } => !next.is_empty(),
            Node::Leaf { .. } => false,
        }
    }

    /// The value that the node holds.
    #[inline]
    pub fn value(&self) -> (r: &T)
        ensures
            *r == self@.value,
    {
        match self {
            Node::Parent { value, .. } => value,
            Node::Leaf { value, .. } => value,
        }
    }

    /// The node's children in the order of their attachment; none for a leaf.
    #[inline]
    pub fn children(&self) -> (r: &[NodeRef])
        ensures
            r@ == self@.children(),
    {
        match self {
            Node::Parent { next, .. } => next.as_slice(),
            _ => &[],
        }
    }

    /// The node's children if it has any; a failure for a leaf and for a
    /// parent without children.
    #[inline]
    pub fn expect_children(&self) -> (r: Result<&[NodeRef], NodeError>)
        ensures
            self@.has_children() ==> r is Ok && r->Ok_0@ == self@.children(),
            !self@.has_children() ==> r == Err::<&[NodeRef], NodeError>(
                NodeError::ExpectedChildren,
            ),
    {
        match self {
            Node::Parent { next, .. } => {
                if next.is_empty() {
                    Err(NodeError::ExpectedChildren)
                } else {
                    Ok(next.as_slice())
                }
            },
            _ => Err(NodeError::ExpectedChildren),
        }
    }

    /// The node's parent, if it has one.
    #[inline]
    pub fn prev(&self) -> (r: Option<PrevNodeRef>)
        ensures
            r == self@.prev,
    {
        match self {
            Node::Parent { prev, .. } => *prev,
            Node::Leaf { prev, .. } => *prev,
        }
    }

    /// The node's parent; a failure where it has none.
    #[inline]
    pub fn expect_prev(&self) -> (r: Result<PrevNodeRef, NodeError>)
        ensures
            r == match self@.prev {
                Some(parent) => Ok::<PrevNodeRef, NodeError>(parent),
                None => Err::<PrevNodeRef, NodeError>(NodeError::ParentNodeNotFound),
            },
    {
        match self.prev() {
            Some(parent) => Ok(parent),
            None => Err(NodeError::ParentNodeNotFound),
        }
    }
}

} // verus!
