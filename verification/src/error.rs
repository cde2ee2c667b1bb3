//! The failures that operations on a node can report.
use vstd::prelude::*;

verus! {

/// Why an operation on a node was refused.
///
/// Every failure is a value: no operation of this crate aborts on misuse.
#[derive(Debug, Clone, Copy, PartialEq, Eq, Structural)]
#[non_exhaustive]
pub enum NodeError {
    /// A downgrade was asked of a node that is a leaf already.
    DowngradeNotParent,
    /// A downgrade was asked of a root, which has no parent to be a leaf of.
    RootDowngradeNotAllowed,
    /// A downgrade was asked of a parent that still holds this many children.
    IllegalDowngradeWithChildren(usize),
    /// An upgrade was asked of a node that is a parent already.
    ParentUpgradeNotAllowed,
    /// A leaf was expected and the node is a parent.
    ExpectedALeafNode,
    /// A root was expected and the node is a leaf or has a parent.
    ExpectedARootNode,
    /// An operation on children was asked of a leaf.
    NotAParent,
    /// Exclusive access to a node was asked for while it was held elsewhere.
    /// No operation of this crate fails so: an operation takes the whole
    /// arena exclusively, and the compiler sees to it that nobody else holds
    /// it meanwhile.
    AlreadyBorrowed,
    /// A parent was expected and the node has none.
    ParentNodeNotFound,
    /// Children were expected and the node has none.
    ExpectedChildren,
}

} // verus!
