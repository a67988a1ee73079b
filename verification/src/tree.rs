use vstd::prelude::*;

use crate::chess_move::ChessMove;

verus! {

/// A node of the search tree: the children expanded so far, the move that
/// led from the parent's position to this node (none at the root), and the
/// node's evaluation, once the search has computed one.
#[derive(Debug)]
pub struct Node {
    pub children: Vec<Node>,
    pub last_move: Option<ChessMove>,
    pub eval: Option<i32>,
}

impl Node {
    /// Build a node with no children yet.
    pub fn new(last_move: Option<ChessMove>, eval: Option<i32>) -> (n: Node)
        ensures
            n.children@ == Seq::<Node>::empty(),
            n.last_move == last_move,
            n.eval == eval,
    {
        Node {
            children: Vec::<Node>::new(),
            last_move,
            eval,
        }
    }
}

/// Every node in the sequence is a well-formed child.
pub open spec fn nodes_ok(s: Seq<Node>) -> bool
    decreases s, 0int,
{
    s.len() == 0 || (child_ok(s[s.len() - 1]) && nodes_ok(s.drop_last()))
}

/// A non-root node records the move that led to it, with its coordinates on
/// the board, and so do all of its descendants.
pub open spec fn child_ok(n: Node) -> bool
    decreases n, 1int,
{
    &&& match n.last_move {
        Some(m) => m.in_range(),
        None => false,
    }
    &&& nodes_ok(n.children@)
}

/// Every child of the node, with all its descendants, records an on-board
/// move; the node's own move is unconstrained, as at the tree's root.
pub open spec fn children_ok(n: Node) -> bool {
    nodes_ok(n.children@)
}

/// A well-formed sequence of children is well-formed at each index.
pub proof fn lemma_nodes_ok_index(s: Seq<Node>, i: int)
    requires
        nodes_ok(s),
        0 <= i < s.len(),
    ensures
        child_ok(s[i]),
    decreases s.len(),
{
    if i < s.len() - 1 {
        lemma_nodes_ok_index(s.drop_last(), i);
    }
}

/// A sequence whose every node is a well-formed child is well-formed.
pub proof fn lemma_nodes_ok_from_all(s: Seq<Node>)
    requires
        forall|i: int| 0 <= i < s.len() ==> child_ok(#[trigger] s[i]),
    ensures
        nodes_ok(s),
    decreases s.len(),
{
    if s.len() > 0 {
        assert forall|i: int| 0 <= i < s.drop_last().len() implies child_ok(
            #[trigger] s.drop_last()[i]) by {
            assert(s.drop_last()[i] == s[i]);
        }
        lemma_nodes_ok_from_all(s.drop_last());
        assert(child_ok(s[s.len() - 1]));
    }
}

/// Appending a well-formed child keeps the sequence well-formed.
pub proof fn lemma_nodes_ok_push(s: Seq<Node>, x: Node)
    requires
        nodes_ok(s),
        child_ok(x),
    ensures
        nodes_ok(s.push(x)),
{
    assert(s.push(x).drop_last() =~= s);
    assert(s.push(x)[s.push(x).len() - 1] == x);
}

/// Taking a node out keeps the sequence well-formed.
pub proof fn lemma_nodes_ok_remove(s: Seq<Node>, i: int)
    requires
        nodes_ok(s),
        0 <= i < s.len(),
    ensures
        nodes_ok(s.remove(i)),
{
    assert forall|j: int| 0 <= j < s.remove(i).len() implies child_ok(
        #[trigger] s.remove(i)[j]) by {
        if j < i {
            assert(s.remove(i)[j] == s[j]);
            lemma_nodes_ok_index(s, j);
        } else {
            assert(s.remove(i)[j] == s[j + 1]);
            lemma_nodes_ok_index(s, j + 1);
        }
    }
    lemma_nodes_ok_from_all(s.remove(i));
}

/// Putting a well-formed child in keeps the sequence well-formed.
pub proof fn lemma_nodes_ok_insert(s: Seq<Node>, i: int, x: Node)
    requires
        nodes_ok(s),
        child_ok(x),
        0 <= i <= s.len(),
    ensures
        nodes_ok(s.insert(i, x)),
{
    assert forall|j: int| 0 <= j < s.insert(i, x).len() implies child_ok(
        #[trigger] s.insert(i, x)[j]) by {
        if j < i {
            assert(s.insert(i, x)[j] == s[j]);
            lemma_nodes_ok_index(s, j);
        } else if j == i {
            assert(s.insert(i, x)[j] == x);
        } else {
            assert(s.insert(i, x)[j] == s[j - 1]);
            lemma_nodes_ok_index(s, j - 1);
        }
    }
    lemma_nodes_ok_from_all(s.insert(i, x));
}

/// Unfold a well-formed child into its parts.
pub proof fn lemma_child_ok_parts(n: Node)
    requires
        child_ok(n),
    ensures
        match n.last_move {
            Some(m) => m.in_range(),
            None => false,
        },
        children_ok(n),
{
}

/// Rebuild a well-formed child from its parts.
pub proof fn lemma_child_ok_from_parts(n: Node)
    requires
        match n.last_move {
            Some(m) => m.in_range(),
            None => false,
        },
        children_ok(n),
    ensures
        child_ok(n),
{
}

} // verus!
