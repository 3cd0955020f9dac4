use vstd::prelude::*;

verus! {

/// One element of the heap, stored in the heap's arena and linked to the
/// others by arena positions.
pub(crate) struct Node {
    /// The priority.
    pub(crate) key: u64,
    /// The payload, which identifies the element.
    pub(crate) value: u64,
    /// The arena position of the parent, `None` for a root.
    pub(crate) parent: Option<usize>,
    /// The arena positions of the children; its length is the degree.
    pub(crate) children: Vec<usize>,
    /// Where this node stands in its parent's `children`, or in the root list.
    pub(crate) slot: usize,
    /// Whether this node lost a child since it last became a child.
    pub(crate) marked: bool,
    /// False once the element has been extracted.
    pub(crate) live: bool,
}

impl Node {
    pub(crate) fn new_root(key: u64, value: u64, slot: usize) -> (n: Node)
        ensures
            n.key == key,
            n.value == value,
            n.parent is None,
            n.children@.len() == 0,
            n.slot == slot,
            !n.marked,
            n.live,
    {
        Node { key, value, parent: None, children: Vec::new(), slot, marked: false, live: true }
    }
}

} // verus!
