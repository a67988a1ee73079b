use vstd::prelude::*;

verus! {

/// A node of an index-based tree arena: its identifier, its value, and the
/// identifiers of its parent and children. Two nodes are the same node
/// exactly when their identifiers agree.
pub struct Node<T> where T: PartialEq {
    pub id: usize,
    pub val: T,
    pub parent: Option<usize>,
    pub children: Vec<usize>,
}

impl<T> Node<T> where T: PartialEq {
    /// Build a fresh node with no parent and no children.
    pub fn new(id: usize, val: T) -> (n: Self)
        ensures
            n.id == id,
            n.val == val,
            n.parent is None,
            n.children@ == Seq::<usize>::empty(),
    {
        Self {
            id,
            val,
            parent: None,
            children: Vec::<usize>::new(),
        }
    }
}

impl<T> PartialEq for Node<T> where T: PartialEq {
    fn eq(&self, other: &Self) -> bool {
        self.id == other.id
    }
}

impl<T> vstd::std_specs::cmp::PartialEqSpecImpl for Node<T> where T: PartialEq {
    open spec fn obeys_eq_spec() -> bool {
        true
    }

    open spec fn eq_spec(&self, other: &Self) -> bool {
        self.id == other.id
    }
}

/// A tree held in one arena vector, its nodes linked by identifier.
pub struct Tree<T> where T: PartialEq {
    arena: Vec<Node<T>>,
}

impl<T> Tree<T> where T: PartialEq {
    /// The nodes the arena holds.
    pub closed spec fn nodes(&self) -> Seq<Node<T>> {
        self.arena@
    }

    /// Build an empty tree.
    pub fn new() -> (t: Tree<T>)
        ensures
            t.nodes() == Seq::<Node<T>>::empty(),
    {
        Tree::<T> { arena: Vec::<Node<T>>::new() }
    }
}

} // verus!
