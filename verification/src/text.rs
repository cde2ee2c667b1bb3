//! Numbers and failures as text.
use crate::error::NodeError;
use crate::node::{Node, NodeView};
use vstd::prelude::*;
use vstd::string::StringExecFns;

verus! {

/// The character that stands for the digit `d`.
pub open spec fn digit(d: nat) -> char {
    if d == 0 {
        '0'
    } else if d == 1 {
        '1'
    } else if d == 2 {
        '2'
    } else if d == 3 {
        '3'
    } else if d == 4 {
        '4'
    } else if d == 5 {
        '5'
    } else if d == 6 {
        '6'
    } else if d == 7 {
        '7'
    } else if d == 8 {
        '8'
    } else {
        '9'
    }
}

/// `n` in decimal notation, without leading zeros.
pub open spec fn decimal(n: nat) -> Seq<char>
    decreases n,
{
    if n < 10 {
        seq![digit(n)]
    } else {
        decimal(n / 10).push(digit(n % 10))
    }
}

/// The digit `d` as a text of one character.
fn digit_text(d: usize) -> (text: &'static str)
    requires
        d < 10,
    ensures
        text@ == seq![digit(d as nat)],
{
    proof {
        reveal_strlit("0");
        reveal_strlit("1");
        reveal_strlit("2");
        reveal_strlit("3");
        reveal_strlit("4");
        reveal_strlit("5");
        reveal_strlit("6");
        reveal_strlit("7");
        reveal_strlit("8");
        reveal_strlit("9");
    }
    let text = if d == 0 {
        "0"
    } else if d == 1 {
        "1"
    } else if d == 2 {
        "2"
    } else if d == 3 {
        "3"
    } else if d == 4 {
        "4"
    } else if d == 5 {
        "5"
    } else if d == 6 {
        "6"
    } else if d == 7 {
        "7"
    } else if d == 8 {
        "8"
    } else {
        "9"
    };
    assert(text@ =~= seq![digit(d as nat)]);
    text
}

/// `n` in decimal notation.
pub fn decimal_text(n: usize) -> (text: String)
    ensures
        text@ == decimal(n as nat),
    decreases n,
{
    if n < 10 {
        String::from_str(digit_text(n))
    } else {
        let text = decimal_text(n / 10).concat(digit_text(n % 10));
        assert(text@ =~= decimal(n as nat));
        text
    }
}

impl NodeError {
    /// What [`NodeError::message`] says of this failure.
    pub open spec fn message_text(self) -> Seq<char> {
        match self {
            NodeError::ParentUpgradeNotAllowed => "Upgrage failure Node was not not a leaf"@,
            NodeError::DowngradeNotParent => "Downgrade failure Node was not not a parent"@,
            NodeError::RootDowngradeNotAllowed => "Root node cannot be downgraded"@,
            NodeError::IllegalDowngradeWithChildren(children) => {
                "Downgrade failure, node still has reference to "@ + decimal(children as nat)
                    + " children"@
            },
            NodeError::ExpectedALeafNode => "Expected a leaf node"@,
            NodeError::ExpectedARootNode => "Expected a root node"@,
            NodeError::NotAParent => "Expected a node Node::Parent"@,
            NodeError::AlreadyBorrowed => "Node is already borrowed mutably"@,
            NodeError::ParentNodeNotFound => "Parent not found"@,
            NodeError::ExpectedChildren => "Expected the node to have children"@,
        }
    }

    /// The failure in words, for a reader.
    pub fn message(&self) -> (text: String)
        ensures
            text@ == self.message_text(),
    {
        match self {
            NodeError::ParentUpgradeNotAllowed => String::from_str(
                "Upgrage failure Node was not not a leaf",
            ),
            NodeError::DowngradeNotParent => String::from_str(
                "Downgrade failure Node was not not a parent",
            ),
            NodeError::RootDowngradeNotAllowed => String::from_str("Root node cannot be downgraded"),
            NodeError::IllegalDowngradeWithChildren(children) => {
                let number = decimal_text(*children);
                String::from_str("Downgrade failure, node still has reference to ").concat(
                    number.as_str(),
                ).concat(" children")
            },
            NodeError::ExpectedALeafNode => String::from_str("Expected a leaf node"),
            NodeError::ExpectedARootNode => String::from_str("Expected a root node"),
            NodeError::NotAParent => String::from_str("Expected a node Node::Parent"),
            NodeError::AlreadyBorrowed => String::from_str("Node is already borrowed mutably"),
            NodeError::ParentNodeNotFound => String::from_str("Parent not found"),
            NodeError::ExpectedChildren => String::from_str("Expected the node to have children"),
        }
    }
}

impl<T> NodeView<T> {
    /// What [`Node::describe`] says of this node, where `value` is its value
    /// as text.
    pub open spec fn described(self, value: Seq<char>) -> Seq<char> {
        match self.next {
            None => "Leaf("@ + value + ")"@,
            Some(children) => {
                "Parent(value = "@ + value + ", prev = "@ + (if self.prev is Some {
                    "Some"@
                } else {
                    "None"@
                }) + ", children = "@ + decimal(children.len()) + ")"@
            },
        }
    }
}

impl<T> Node<T> {
    /// The node in words, for a reader: its shape and, of a parent, whether
    /// it has a parent of its own and how many children it holds. The caller
    /// hands in the node's value as text.
    pub fn describe(&self, value: &str) -> (text: String)
        ensures
            text@ == self@.described(value@),
    {
        match self {
            Node::Leaf { .. } => String::from_str("Leaf(").concat(value).concat(")"),
            Node::Parent { prev, next, .. } => {
                let number = decimal_text(next.len());
                String::from_str("Parent(value = ").concat(value).concat(", prev = ").concat(
                    if prev.is_some() {
                        "Some"
                    } else {
                        "None"
                    },
                ).concat(", children = ").concat(number.as_str()).concat(")")
            },
        }
    }
}

} // verus!
