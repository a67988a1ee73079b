use vstd::prelude::*;

use crate::board::{cell_after, on_board};
use crate::chess_move::{move_eq, ChessMove};
use crate::position::{start_square, MoveError, Position};
use crate::tree::{child_ok, children_ok, lemma_child_ok_parts, lemma_nodes_ok_index, nodes_ok, Node};

verus! {

/// Whether the node records exactly this move of the game.
pub open spec fn node_matches(n: Node, m: ChessMove) -> bool {
    match n.last_move {
        Some(lm) => move_eq(lm, m),
        None => false,
    }
}

/// GameContext owns one game: the current position, the moves played so
/// far, and the root of the search tree, whose children (once expanded)
/// correspond to the moves playable from the current position.
#[derive(Debug)]
pub struct GameContext {
    pub position: Position,
    pub chess_moves: Vec<ChessMove>,
    pub tree: Node,
}

impl GameContext {
    /// Start a game: the standard starting position, no moves played, and
    /// an empty search tree.
    pub fn new() -> (g: GameContext)
        ensures
            g.position.wf(),
            forall|f: int, r: int| on_board(f, r) ==> g.position.at(f, r) == start_square(f, r),
            g.position.o_o_o_white && g.position.o_o_white && g.position.o_o_o_black
                && g.position.o_o_black,
            g.chess_moves@ == Seq::<ChessMove>::empty(),
            g.tree.children@ == Seq::<Node>::empty(),
            g.tree.last_move is None,
            g.tree.eval is None,
            children_ok(g.tree),
    {
        GameContext {
            position: Position::new(),
            chess_moves: Vec::<ChessMove>::new(),
            tree: Node::new(None, None),
        }
    }

    /// Play the move in the game: apply it to the position, record it in
    /// the history, and prune the search tree, keeping only the subtree of
    /// the first child that recorded this move (by move identity: origin,
    /// destination and promotion) and discarding all siblings. When no
    /// child recorded the move, the whole expansion is stale and is
    /// discarded. Fails with OutOfBounds, changing nothing, when a
    /// coordinate leaves the board.
    pub fn make_move(&mut self, chess_move: ChessMove) -> (res: Result<(), MoveError>)
        requires
            old(self).position.wf(),
            children_ok(old(self).tree),
        ensures
            final(self).position.wf(),
            children_ok(final(self).tree),
            res is Ok <==> chess_move.in_range(),
            res is Err ==> res->Err_0 == MoveError::OutOfBounds && *final(self) == *old(self),
            res is Ok ==> {
                &&& forall|f: int, r: int| on_board(f, r) ==> final(self).position.at(f, r)
                    == cell_after(old(self).position.grid(), chess_move, f, r)
                &&& final(self).position.o_o_o_white == old(self).position.o_o_o_white
                &&& final(self).position.o_o_white == old(self).position.o_o_white
                &&& final(self).position.o_o_o_black == old(self).position.o_o_o_black
                &&& final(self).position.o_o_black == old(self).position.o_o_black
                &&& final(self).chess_moves@ == old(self).chess_moves@.push(chess_move)
                &&& final(self).tree.last_move == old(self).tree.last_move
                &&& final(self).tree.eval == old(self).tree.eval
                &&& if exists|j: int| 0 <= j < old(self).tree.children@.len()
                    && node_matches(#[trigger] old(self).tree.children@[j], chess_move) {
                    exists|j: int| {
                        &&& 0 <= j < old(self).tree.children@.len()
                        &&& node_matches(#[trigger] old(self).tree.children@[j], chess_move)
                        &&& forall|k: int| 0 <= k < j ==> !node_matches(
                            #[trigger] old(self).tree.children@[k], chess_move)
                        &&& final(self).tree.children@ == old(self).tree.children@[j].children@
                    }
                } else {
                    final(self).tree.children@ == Seq::<Node>::empty()
                }
            },
    {
        let res = self.position.make_move(&chess_move);
        match res {
            Err(e) => {
                return Err(e);
            },
            Ok(()) => {},
        }
        self.chess_moves.push(chess_move);

        // Discard unused parts of the tree.
        let ghost orig_children = self.tree.children@;
        proof {
            assert(orig_children == old(self).tree.children@);
        }
        let mut i: usize = 0;
        while i < self.tree.children.len()
            invariant
                self.tree.children@ == orig_children,
                orig_children == old(self).tree.children@,
                self.tree.last_move == old(self).tree.last_move,
                self.tree.eval == old(self).tree.eval,
                nodes_ok(orig_children),
                chess_move.in_range(),
                self.position.wf(),
                forall|f: int, r: int| on_board(f, r) ==> self.position.at(f, r)
                    == cell_after(old(self).position.grid(), chess_move, f, r),
                self.position.o_o_o_white == old(self).position.o_o_o_white,
                self.position.o_o_white == old(self).position.o_o_white,
                self.position.o_o_o_black == old(self).position.o_o_o_black,
                self.position.o_o_black == old(self).position.o_o_black,
                self.chess_moves@ == old(self).chess_moves@.push(chess_move),
                i <= orig_children.len(),
                forall|k: int| 0 <= k < i ==> !node_matches(
                    #[trigger] orig_children[k], chess_move),
            decreases orig_children.len() - i,
        {
            let matches_here = match &self.tree.children[i].last_move {
                Some(lm) => *lm == chess_move,
                None => false,
            };
            if matches_here {
                let node = self.tree.children.remove(i);
                self.tree.children = node.children;
                proof {
                    lemma_nodes_ok_index(orig_children, i as int);
                    assert(child_ok(orig_children[i as int]));
                    lemma_child_ok_parts(orig_children[i as int]);
                    assert(self.tree.children@ == orig_children[i as int].children@);
                    let ghost j = i as int;
                    assert(0 <= j < orig_children.len());
                    assert(node_matches(orig_children[j], chess_move));
                    assert(forall|k: int| 0 <= k < j ==> !node_matches(
                        #[trigger] orig_children[k], chess_move));
                    assert(self.tree.children@ == orig_children[j].children@);
                }
                return Ok(());
            }
            i = i + 1;
        }

        // No child recorded this move: the old expansion belongs to the
        // previous position and is discarded.
        self.tree.children = Vec::<Node>::new();
        Ok(())
    }
}

} // verus!
