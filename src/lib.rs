//! An append-only singly linked list whose nodes live in an arena and link to
//! each other by index.
pub mod list;
pub mod node;

pub use list::SinglyLinkedList;
pub use node::{Node, NodeIndex};
