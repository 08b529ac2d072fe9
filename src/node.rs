use vstd::prelude::*;

verus! {

/// Handle of a node: its position in the arena of the list that owns it.
pub type NodeIndex = usize;

/// One element of a list: a payload and an optional link to the element after it.
#[derive(Debug)]
pub struct Node<T> {
    pub data: T,
    pub next: Option<NodeIndex>,
}

impl<T> Node<T> {
    /// A node that holds `data` and links nowhere yet.
    pub fn new(data: T) -> (node: Self)
        ensures
            node.data == data,
            node.next is None,
    {
        Node { data, next: None }
    }
}

} // verus!
