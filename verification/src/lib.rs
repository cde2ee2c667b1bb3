//! A tree of nodes that are either leaves or parents.
pub mod arena;
pub mod error;
pub mod iter;
pub mod laws;
pub mod links;
pub mod model;
pub mod mutation;
pub mod node;
pub mod shape;
pub mod text;

pub use crate::arena::Arena;
pub use crate::error::NodeError;
pub use crate::iter::NodeIter;
pub use crate::node::{Node, NodeRef, NodeView, PrevNodeRef};
