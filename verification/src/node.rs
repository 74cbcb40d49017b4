use vstd::prelude::*;
use vstd::std_specs::cmp::PartialEqSpec;

verus! {

/// A handle to a node inside a [`crate::DependencyGraph`].
///
/// Handles are indices into the graph's node registry.  The registry only
/// grows and never reorders, so a handle stays valid, and keeps naming the
/// same node, for the whole life of the graph.  Two handles obtained from the
/// same graph name the same node exactly when they are equal.
pub type NodeHandle = usize;

/// The mathematical view of a [`Node`]: its value and its two adjacency
/// lists, as plain sequences of handles.
#[verifier::ext_equal]
pub struct NodeView<T> {
    pub value: T,
    pub childs: Seq<NodeHandle>,
    pub parents: Seq<NodeHandle>,
}

/// A vertex of a dependency graph: one value of the caller's type `T`, the
/// handles of the node's children (edges it owns), and the handles of its
/// parents (back-references, kept only so that ancestry can be walked
/// upward).
pub struct Node<T> {
    pub(crate) value: T,
    pub(crate) childs: Vec<NodeHandle>,
    pub(crate) parents: Vec<NodeHandle>,
}

impl<T> View for Node<T> {
    type V = NodeView<T>;

    open(crate) spec fn view(&self) -> NodeView<T> {
        NodeView { value: self.value, childs: self.childs@, parents: self.parents@ }
    }
}

impl<T> Node<T> {
    /// Makes a fresh node holding `value`, with no children and no parents.
    pub fn new(value: T) -> (n: Node<T>)
        ensures
            n@.value == value,
            n@.childs == Seq::<NodeHandle>::empty(),
            n@.parents == Seq::<NodeHandle>::empty(),
    {
        Node { value, childs: Vec::new(), parents: Vec::new() }
    }

    /// Read access to the node's value.
    pub fn get_value(&self) -> (v: &T)
        ensures
            *v == self@.value,
    {
        &self.value
    }

    /// Read access to the handles of the node's children.
    pub fn get_childs(&self) -> (c: &Vec<NodeHandle>)
        ensures
            c@ == self@.childs,
    {
        &self.childs
    }

    /// Read access to the handles of the node's parents.
    pub fn get_parents(&self) -> (p: &Vec<NodeHandle>)
        ensures
            p@ == self@.parents,
    {
        &self.parents
    }

    // Appending to the adjacency lists is kept crate-private so that the
    // acyclicity invariant can only be touched through the graph's one
    // audited edge-creation path.
    pub(crate) fn add_child(&mut self, child: NodeHandle)
        ensures
            final(self)@.value == old(self)@.value,
            final(self)@.childs == old(self)@.childs.push(child),
            final(self)@.parents == old(self)@.parents,
    {
        self.childs.push(child);
    }

    pub(crate) fn add_parent(&mut self, parent: NodeHandle)
        ensures
            final(self)@.value == old(self)@.value,
            final(self)@.childs == old(self)@.childs,
            final(self)@.parents == old(self)@.parents.push(parent),
    {
        self.parents.push(parent);
    }
}

// Nodes compare by their values alone: a graph hands out one node per
// distinct value, so equal values mean the same node of a given graph.
impl<T: Eq> PartialEq for Node<T> {
    fn eq(&self, other: &Self) -> (r: bool) {
        self.value == other.value
    }
}

impl<T: Eq> Eq for Node<T> {

}

impl<T: Eq> vstd::std_specs::cmp::PartialEqSpecImpl for Node<T> {
    open(crate) spec fn obeys_eq_spec() -> bool {
        T::obeys_eq_spec()
    }

    open(crate) spec fn eq_spec(&self, other: &Self) -> bool {
        self.value.eq_spec(&other.value)
    }
}

} // verus!
