use vstd::prelude::*;

use crate::board::{
    cell, cell_after, gen_move, grid_after, grid_restored, has_king, legal_move, material,
    on_board, pseudo_move_ok, lemma_make_move_rollback, lemma_material_bounds,
    lemma_move_keeps_kings, lemma_pseudo_in_range, BoardGrid,
};
use crate::chess_move::ChessMove;
use crate::color::Color;
use crate::game_context::GameContext;
use crate::game_piece::Piece;
use crate::position::{MoveError, Position};
use crate::tree::{
    child_ok, children_ok, lemma_child_ok_from_parts, lemma_child_ok_parts,
    lemma_nodes_ok_from_all, lemma_nodes_ok_index, lemma_nodes_ok_insert, lemma_nodes_ok_push,
    lemma_nodes_ok_remove, Node,
};

verus! {

broadcast use vstd::seq_lib::group_to_multiset_ensures;

/// A score bound far beyond any reachable material evaluation; the search
/// starts from its negation as the worst score for the side to move.
pub const SCORE_INFINITY: i32 = 1000000;

/// The static evaluation of a position for `color`: its material sum minus
/// the opponent's.
pub open spec fn eval_spec(b: BoardGrid, color: Color) -> int {
    material(b, color) - material(b, color.opposite())
}

/// Evaluate the position for `color` by raw material difference.
pub fn evaluate(p: &Position, color: Color) -> (score: i32)
    requires
        p.wf(),
    ensures
        score == eval_spec(p.grid(), color),
        -12800 <= score <= 12800,
{
    proof {
        lemma_material_bounds(p.grid(), color, 8);
        lemma_material_bounds(p.grid(), color.opposite(), 8);
    }
    let side_sum = p.sum_material(color);
    let opp_sum = p.sum_material(color.opp_color());
    side_sum - opp_sum
}

/// `a` sorts before `b`: higher evaluations first, unevaluated nodes last.
pub open spec fn eval_ge(a: Node, b: Node) -> bool {
    match (a.eval, b.eval) {
        (Some(x), Some(y)) => x >= y,
        (Some(_), None) => true,
        (None, Some(_)) => false,
        (None, None) => true,
    }
}

/// The nodes are ordered by descending evaluation, unevaluated nodes last.
pub open spec fn sorted_by_eval(s: Seq<Node>) -> bool {
    forall|i: int, j: int| 0 <= i < j < s.len() ==> eval_ge(s[i], s[j])
}

/// Every child of the node records a legal move for `color` on `b`: the
/// node's children correspond to the moves playable from that position.
pub open spec fn root_children_legal(n: Node, b: BoardGrid, color: Color) -> bool {
    forall|i: int| 0 <= i < n.children@.len() ==> match (#[trigger] n.children@[i]).last_move {
        Some(m) => legal_move(b, color, m),
        None => false,
    }
}

/// Whether the move lands on a square holding a king. The search scores
/// such a child statically instead of descending into a kingless board.
pub open spec fn takes_king(b: BoardGrid, m: ChessMove) -> bool {
    match cell(b, m.n_file as int, m.n_rank as int) {
        Some(p) => p.piece == Piece::King,
        None => false,
    }
}

/// The candidate move whose origin and destination squares decode the
/// index: files and ranks each run over eight values, so indices run over
/// four thousand and ninety-six candidates covering every square pair.
pub open spec fn move_of_index(b: BoardGrid, k: int) -> ChessMove {
    gen_move(b, k % 8, (k / 8) % 8, (k / 64) % 8, (k / 512) % 8)
}

/// The score one move earns the side to move: the negation of the
/// opponent's value one ply deeper, except that a move taking a king is
/// scored by static evaluation, exactly as the search does.
pub open spec fn child_value(b: BoardGrid, color: Color, depth: nat, m: ChessMove) -> int
    decreases depth, 0int, 0int,
{
    if takes_king(b, m) || depth == 0 {
        -eval_spec(grid_after(b, m), color.opposite())
    } else {
        -negamax_value(grid_after(b, m), color.opposite(), (depth - 1) as nat)
    }
}

/// The best child value among the first k candidate moves that are legal,
/// starting from the worst score.
pub open spec fn best_value_upto(b: BoardGrid, color: Color, depth: nat, k: int) -> int
    decreases depth, 1int, k,
{
    if k <= 0 {
        -(SCORE_INFINITY as int)
    } else {
        let rest = best_value_upto(b, color, depth, k - 1);
        let m = move_of_index(b, k - 1);
        if legal_move(b, color, m) {
            let v = child_value(b, color, depth, m);
            if v > rest {
                v
            } else {
                rest
            }
        } else {
            rest
        }
    }
}

/// The negamax value of a position: the static evaluation at depth zero,
/// and otherwise the best child value over all legal moves — the worst
/// score when no legal move exists.
pub open spec fn negamax_value(b: BoardGrid, color: Color, depth: nat) -> int
    decreases depth, 2int, 0int,
{
    if depth == 0 {
        eval_spec(b, color)
    } else {
        best_value_upto(b, color, depth, 4096)
    }
}

/// Every legal move's index decodes back to the move itself.
proof fn lemma_move_index(b: BoardGrid, color: Color, m: ChessMove)
    requires
        pseudo_move_ok(b, color, m),
    ensures
        ({
            let k = m.o_file + 8 * m.o_rank + 64 * m.n_file + 512 * m.n_rank;
            0 <= k < 4096 && move_of_index(b, k as int) == m
        }),
{
    lemma_pseudo_in_range(b, color, m);
    let of = m.o_file as int;
    let or = m.o_rank as int;
    let nf = m.n_file as int;
    let nr = m.n_rank as int;
    let k = of + 8 * or + 64 * nf + 512 * nr;
    assert(k % 8 == of && k / 8 == or + 8 * nf + 64 * nr) by (nonlinear_arith)
        requires 0 <= of < 8 && 0 <= or < 8 && 0 <= nf < 8 && 0 <= nr < 8
            && k == of + 8 * or + 64 * nf + 512 * nr;
    assert(k / 64 == nf + 8 * nr && (k / 8) % 8 == or) by (nonlinear_arith)
        requires 0 <= or < 8 && 0 <= nf < 8 && 0 <= nr < 8
            && k / 8 == or + 8 * nf + 64 * nr && k / 64 == (k / 8) / 8;
    assert(k / 64 == (k / 8) / 8 && k / 512 == (k / 64) / 8) by (nonlinear_arith);
    assert((k / 64) % 8 == nf && (k / 512) == nr) by (nonlinear_arith)
        requires 0 <= nf < 8 && 0 <= nr < 8 && k / 64 == nf + 8 * nr
            && k / 512 == (k / 64) / 8;
}

/// The running best over candidates only grows, and reaches every legal
/// candidate's value.
proof fn lemma_best_upto_ge(b: BoardGrid, color: Color, depth: nat, k: int, j: int)
    requires
        0 <= j < k,
        legal_move(b, color, move_of_index(b, j)),
    ensures
        best_value_upto(b, color, depth, k) >= child_value(b, color, depth, move_of_index(b, j)),
    decreases k,
{
    let rest = best_value_upto(b, color, depth, k - 1);
    let m = move_of_index(b, k - 1);
    let cv = child_value(b, color, depth, m);
    if j < k - 1 {
        lemma_best_upto_ge(b, color, depth, k - 1, j);
    }
    assert(best_value_upto(b, color, depth, k) >= (if legal_move(b, color, m) && cv > rest {
        cv
    } else {
        rest
    }));
}

/// A bound above every legal move's child value bounds the best value.
proof fn lemma_best_upto_le(b: BoardGrid, color: Color, depth: nat, k: int, v: int)
    requires
        -(SCORE_INFINITY as int) <= v,
        forall|m: ChessMove| legal_move(b, color, m) ==> #[trigger] child_value(
            b, color, depth, m) <= v,
    ensures
        best_value_upto(b, color, depth, k) <= v,
    decreases k,
{
    if k > 0 {
        lemma_best_upto_le(b, color, depth, k - 1, v);
        let rest = best_value_upto(b, color, depth, k - 1);
        let m = move_of_index(b, k - 1);
        let cv = child_value(b, color, depth, m);
        if legal_move(b, color, m) {
            assert(cv <= v);
        }
        assert(best_value_upto(b, color, depth, k) == (if legal_move(b, color, m) && cv > rest {
            cv
        } else {
            rest
        }));
    }
}

/// The negamax value stays within the score sentinels.
proof fn lemma_nv_bounds(b: BoardGrid, color: Color, depth: nat)
    ensures
        -(SCORE_INFINITY as int) <= negamax_value(b, color, depth) <= SCORE_INFINITY as int,
    decreases depth, 3int, 0int,
{
    if depth == 0 {
        lemma_material_bounds(b, color, 8);
        lemma_material_bounds(b, color.opposite(), 8);
    } else {
        lemma_best_upto_bounds(b, color, depth, 4096);
    }
}

proof fn lemma_best_upto_bounds(b: BoardGrid, color: Color, depth: nat, k: int)
    requires
        depth >= 1,
    ensures
        -(SCORE_INFINITY as int) <= best_value_upto(b, color, depth, k) <= SCORE_INFINITY as int,
    decreases depth, 2int, k,
{
    if k > 0 {
        lemma_best_upto_bounds(b, color, depth, k - 1);
        let rest = best_value_upto(b, color, depth, k - 1);
        let m = move_of_index(b, k - 1);
        let cv = child_value(b, color, depth, m);
        if legal_move(b, color, m) {
            if takes_king(b, m) {
                lemma_material_bounds(grid_after(b, m), color, 8);
                lemma_material_bounds(grid_after(b, m), color.opposite(), 8);
            } else {
                lemma_nv_bounds(grid_after(b, m), color.opposite(), (depth - 1) as nat);
            }
            assert(-(SCORE_INFINITY as int) <= cv <= SCORE_INFINITY as int);
        }
        assert(best_value_upto(b, color, depth, k) == (if legal_move(b, color, m) && cv > rest {
            cv
        } else {
            rest
        }));
    }
}

/// Sort the nodes by descending evaluation, unevaluated nodes last, keeping
/// exactly the same collection of nodes.
pub fn sort_moves(moves: &mut Vec<Node>)
    ensures
        sorted_by_eval(final(moves)@),
        final(moves)@.to_multiset() == old(moves)@.to_multiset(),
        final(moves)@.map_values(|c: Node| c.last_move).to_multiset() == old(moves)@.map_values(
            |c: Node| c.last_move).to_multiset(),
{
    let ghost orig = old(moves)@;
    let mut out: Vec<Node> = Vec::new();
    proof {
        assert forall|n: Node| Seq::<Node>::empty().to_multiset().count(n) == 0 by {
            assert(!Seq::<Node>::empty().contains(n));
        }
        assert forall|om: Option<ChessMove>| Seq::<Option<ChessMove>>::empty().to_multiset().count(
            om) == 0 by {
            assert(!Seq::<Option<ChessMove>>::empty().contains(om));
        }
        assert(out@.map_values(|c: Node| c.last_move) =~= Seq::<Option<ChessMove>>::empty());
        assert(out@.to_multiset().add(moves@.to_multiset()) =~= orig.to_multiset());
        assert(out@.map_values(|c: Node| c.last_move).to_multiset().add(
            moves@.map_values(|c: Node| c.last_move).to_multiset()) =~= orig.map_values(
            |c: Node| c.last_move).to_multiset());
    }
    while moves.len() > 0
        invariant
            sorted_by_eval(out@),
            forall|a: int, c: int| 0 <= a < out@.len() && 0 <= c < moves@.len()
                ==> eval_ge(out@[a], moves@[c]),
            out@.to_multiset().add(moves@.to_multiset()) == orig.to_multiset(),
            out@.map_values(|c: Node| c.last_move).to_multiset().add(moves@.map_values(
                |c: Node| c.last_move).to_multiset()) == orig.map_values(
                |c: Node| c.last_move).to_multiset(),
        decreases moves@.len(),
    {
        let mut mi: usize = 0;
        let mut k: usize = 1;
        while k < moves.len()
            invariant
                0 < moves@.len(),
                mi < k,
                k <= moves@.len(),
                forall|t: int| 0 <= t < k ==> eval_ge(moves@[mi as int], #[trigger] moves@[t]),
            decreases moves@.len() - k,
        {
            let a = moves[mi].eval;
            let c = moves[k].eval;
            let a_ge_c = match (a, c) {
                (Some(x), Some(y)) => x >= y,
                (Some(_), None) => true,
                (None, Some(_)) => false,
                (None, None) => true,
            };
            if !a_ge_c {
                let ghost old_mi = mi as int;
                mi = k;
                proof {
                    assert forall|t: int| 0 <= t < k + 1 implies eval_ge(
                        moves@[mi as int], moves@[t]) by {
                        assert(eval_ge(moves@[old_mi], moves@[t]) || t == k as int);
                    }
                }
            }
            k = k + 1;
        }
        let ghost pre_moves = moves@;
        let ghost pre_out = out@;
        let x = moves.remove(mi);
        out.push(x);
        proof {
            assert(pre_moves.contains(x)) by {
                assert(pre_moves[mi as int] == x);
            }
            assert(pre_moves.to_multiset().count(x) > 0);
            assert(out@.to_multiset().add(moves@.to_multiset()) =~= orig.to_multiset());
            assert(out@.map_values(|c: Node| c.last_move) =~= pre_out.map_values(
                |c: Node| c.last_move).push(x.last_move));
            assert(moves@.map_values(|c: Node| c.last_move) =~= pre_moves.map_values(
                |c: Node| c.last_move).remove(mi as int));
            assert(pre_moves.map_values(|c: Node| c.last_move)[mi as int] == x.last_move);
            assert(pre_moves.map_values(|c: Node| c.last_move).contains(x.last_move)) by {
                assert(pre_moves.map_values(|c: Node| c.last_move)[mi as int] == x.last_move);
            }
            assert(pre_moves.map_values(|c: Node| c.last_move).to_multiset().count(x.last_move)
                > 0);
            assert(out@.map_values(|c: Node| c.last_move).to_multiset().add(moves@.map_values(
                |c: Node| c.last_move).to_multiset()) =~= orig.map_values(
                |c: Node| c.last_move).to_multiset());
            assert forall|a: int, c: int| 0 <= a < out@.len() && 0 <= c < moves@.len()
                implies eval_ge(out@[a], moves@[c]) by {
                assert(moves@[c] == pre_moves[if c < mi as int { c } else { c + 1 }]);
                if a < pre_out.len() {
                    assert(eval_ge(pre_out[a], moves@[c]));
                } else {
                    assert(out@[a] == x);
                    assert(eval_ge(pre_moves[mi as int], moves@[c]));
                }
            }
            assert forall|a: int, c: int| 0 <= a < c < out@.len() implies eval_ge(
                out@[a], out@[c]) by {
                if c < pre_out.len() {
                    assert(eval_ge(pre_out[a], pre_out[c]));
                } else {
                    assert(out@[c] == x);
                    assert(eval_ge(pre_out[a], pre_moves[mi as int]));
                }
            }
        }
    }
    let ghost drained = moves@;
    *moves = out;
    proof {
        assert forall|n: Node| Seq::<Node>::empty().to_multiset().count(n) == 0 by {
            assert(!Seq::<Node>::empty().contains(n));
        }
        assert forall|om: Option<ChessMove>| Seq::<Option<ChessMove>>::empty().to_multiset().count(
            om) == 0 by {
            assert(!Seq::<Option<ChessMove>>::empty().contains(om));
        }
        assert(drained.map_values(|c: Node| c.last_move) =~= Seq::<Option<ChessMove>>::empty());
        assert(moves@.to_multiset() =~= orig.to_multiset());
        assert(moves@.map_values(|c: Node| c.last_move).to_multiset() =~= orig.map_values(
            |c: Node| c.last_move).to_multiset());
    }
}

/// Append one fresh, unevaluated child per move to the node's children.
fn add_children(node: &mut Node, moves: &Vec<ChessMove>)
    requires
        children_ok(*old(node)),
        forall|i: int| 0 <= i < moves@.len() ==> (#[trigger] moves@[i]).in_range(),
    ensures
        children_ok(*final(node)),
        final(node).last_move == old(node).last_move,
        final(node).eval == old(node).eval,
        final(node).children@.len() == old(node).children@.len() + moves@.len(),
        forall|i: int| 0 <= i < old(node).children@.len() ==> final(node).children@[i]
            == old(node).children@[i],
        forall|i: int| 0 <= i < moves@.len() ==> final(node).children@[
            old(node).children@.len() + i].last_move == Some(#[trigger] moves@[i])
            && final(node).children@[old(node).children@.len() + i].children@.len() == 0,
{
    let mut idx: usize = 0;
    while idx < moves.len()
        invariant
            children_ok(*node),
            node.last_move == old(node).last_move,
            node.eval == old(node).eval,
            idx <= moves@.len(),
            node.children@.len() == old(node).children@.len() + idx,
            forall|i: int| 0 <= i < old(node).children@.len() ==> node.children@[i]
                == old(node).children@[i],
            forall|i: int| 0 <= i < idx ==> node.children@[
                old(node).children@.len() + i].last_move == Some(#[trigger] moves@[i])
                && node.children@[old(node).children@.len() + i].children@.len() == 0,
            forall|i: int| 0 <= i < moves@.len() ==> (#[trigger] moves@[i]).in_range(),
        decreases moves@.len() - idx,
    {
        let chess_move = moves[idx];
        let ghost pre = node.children@;
        node.children.push(Node::new(Some(chess_move), None));
        proof {
            let last = pre.len() as int;
            let fresh = node.children@[last];
            assert(child_ok(fresh));
            lemma_nodes_ok_push(pre, fresh);
            assert(node.children@ == pre.push(fresh));
        }
        idx = idx + 1;
    }
}

/// Negamax with alpha-beta pruning. Walks the node's children, playing each
/// child's move on the board, recursing with the window negated and
/// swapped, and rolling the move back; keeps the best score seen, raises
/// alpha with it, and stops exploring once alpha reaches beta. Children are
/// expanded from the legal moves on first visit and are sorted by
/// descending evaluation afterward, so a deeper re-search visits the
/// previously best line first. The board is handed back exactly as it was.
///
/// On a node visited for the first time the score is pinned to the negamax
/// value of the position: a score inside the window equals it and the
/// returned move attains it, a score at or below alpha bounds it from
/// above, and a score at or above beta bounds it from below.
#[verifier::rlimit(100)]
pub fn calculate(
    p: &mut Position,
    color: Color,
    depth: u32,
    alpha: i32,
    beta: i32,
    node: &mut Node,
) -> (res: (i32, Option<ChessMove>))
    requires
        old(p).wf(),
        has_king(old(p).grid(), Color::White),
        has_king(old(p).grid(), Color::Black),
        children_ok(*old(node)),
        -SCORE_INFINITY <= alpha <= SCORE_INFINITY,
        -SCORE_INFINITY <= beta <= SCORE_INFINITY,
        alpha < beta,
    ensures
        final(p).wf(),
        final(p).grid() == old(p).grid(),
        final(p).o_o_o_white == old(p).o_o_o_white,
        final(p).o_o_white == old(p).o_o_white,
        final(p).o_o_o_black == old(p).o_o_o_black,
        final(p).o_o_black == old(p).o_o_black,
        children_ok(*final(node)),
        final(node).last_move == old(node).last_move,
        match res.1 {
            Some(m) => m.in_range(),
            None => true,
        },
        -SCORE_INFINITY <= res.0 <= SCORE_INFINITY,
        depth == 0 ==> res.0 == eval_spec(old(p).grid(), color) && res.1 is None
            && *final(node) == *old(node),
        depth > 0 && res.1 is None ==> forall|m: ChessMove| !legal_move(
            old(p).grid(), color, m),
        (depth > 0 && old(node).children@.len() == 0 && (forall|m: ChessMove| !legal_move(
            old(p).grid(), color, m))) ==> res.1 is None && res.0 == -SCORE_INFINITY,
        (depth > 0 && old(node).children@.len() == 0) ==> {
            &&& res.0 <= alpha ==> negamax_value(old(p).grid(), color, depth as nat) <= res.0
            &&& res.0 >= beta ==> negamax_value(old(p).grid(), color, depth as nat) >= res.0
            &&& (alpha < res.0 && res.0 < beta) ==> res.0 == negamax_value(
                old(p).grid(), color, depth as nat) && (match res.1 {
                Some(m) => child_value(old(p).grid(), color, depth as nat, m) == res.0,
                None => false,
            })
        },
        (depth > 0 && old(node).children@.len() == 0) ==> forall|m: ChessMove|
            #[trigger] legal_move(old(p).grid(), color, m) ==> exists|j: int|
            0 <= j < final(node).children@.len()
            && (#[trigger] final(node).children@[j]).last_move == Some(m),
        old(node).children@.len() > 0 ==> final(node).children@.map_values(
            |c: Node| c.last_move).to_multiset() == old(node).children@.map_values(
            |c: Node| c.last_move).to_multiset(),
        (old(node).children@.len() == 0 || root_children_legal(*old(node), old(p).grid(), color))
            ==> {
            &&& root_children_legal(*final(node), old(p).grid(), color)
            &&& match res.1 {
                Some(m) => legal_move(old(p).grid(), color, m),
                None => true,
            }
        },
    decreases depth,
{
    let ghost b = p.grid();

    // If we're at final depth, evaluate.
    if depth == 0 {
        return (evaluate(p, color), None);
    }

    // Check if there are no moves on the node. If not, retrieve them and add
    // them to the node.
    let ghost mut no_legal_moves: bool = false;
    let ghost mut cmoves: Seq<ChessMove> = Seq::<ChessMove>::empty();
    if node.children.len() == 0 {
        let moves = p.get_moves(color);
        proof {
            cmoves = moves@;
        }
        proof {
            assert forall|i: int| 0 <= i < moves@.len() implies (#[trigger] moves@[i]).in_range() by {
                assert(moves@.contains(moves@[i]));
                lemma_pseudo_in_range(b, color, moves@[i]);
            }
            if moves@.len() == 0 {
                no_legal_moves = true;
                assert forall|m: ChessMove| !legal_move(b, color, m) by {
                    if legal_move(b, color, m) {
                        assert(moves@.contains(m));
                    }
                }
            } else {
                assert(moves@.contains(moves@[0]));
                assert(legal_move(b, color, moves@[0]));
            }
        }
        add_children(node, &moves);
        proof {
            assert forall|j: int| 0 <= j < node.children@.len() implies (match (
                #[trigger] node.children@[j]).last_move {
                Some(m) => legal_move(b, color, m),
                None => false,
            }) by {
                assert(node.children@[j].last_move == Some(moves@[j]));
                assert(moves@.contains(moves@[j]));
            }
            assert(root_children_legal(*node, b, color));
            assert forall|j: int| 0 <= j < node.children@.len() implies (
                #[trigger] node.children@[j]).children@.len() == 0 by {
                assert(node.children@[j].last_move == Some(moves@[j]));
            }
        }
    }
    let ghost legal_root: bool = old(node).children@.len() == 0 || root_children_legal(
        *old(node), b, color);
    let ghost fresh: bool = old(node).children@.len() == 0;
    let ghost lm0: Seq<Option<ChessMove>> = node.children@.map_values(|c: Node| c.last_move);
    proof {
        if legal_root {
            assert(root_children_legal(*node, b, color));
        }
        assert forall|j: int| 0 <= j < node.children@.len() implies (
            #[trigger] node.children@[j]).last_move == lm0[j] by {}
        if fresh {
            assert forall|j: int| 0 <= j < cmoves.len() implies lm0[j] == Some(
                #[trigger] cmoves[j]) by {
                assert(node.children@[j].last_move == Some(cmoves[j]));
            }
        }
    }
    if node.children.len() == 0 {
        // No move at all: the worst score, and no move to hand back.
        proof {
            assert(no_legal_moves);
            assert forall|m: ChessMove| legal_move(b, color, m) implies #[trigger] child_value(
                b, color, depth as nat, m) <= -(SCORE_INFINITY as int) by {}
            lemma_best_upto_le(b, color, depth as nat, 4096, -(SCORE_INFINITY as int));
            lemma_best_upto_bounds(b, color, depth as nat, 4096);
            assert(negamax_value(b, color, depth as nat) == -(SCORE_INFINITY as int));
        }
        return (0 - SCORE_INFINITY, None);
    }
    proof {
        assert(!no_legal_moves);
        if old(node).children@.len() == 0 {
            assert(exists|m: ChessMove| legal_move(b, color, m));
        }
    }

    // Calculate possible moves.
    let mut best_eval: i32 = 0 - SCORE_INFINITY;
    let mut best_move: Option<ChessMove> = None;
    let mut cur_alpha = alpha;
    let mut cut = false;
    let mut i: usize = 0;
    while i < node.children.len() && !cut
        invariant
            p.wf(),
            b == p.grid(),
            p.o_o_o_white == old(p).o_o_o_white,
            p.o_o_white == old(p).o_o_white,
            p.o_o_o_black == old(p).o_o_o_black,
            p.o_o_black == old(p).o_o_black,
            has_king(b, Color::White),
            has_king(b, Color::Black),
            children_ok(*node),
            node.last_move == old(node).last_move,
            depth >= 1,
            i <= node.children@.len(),
            -SCORE_INFINITY <= cur_alpha <= SCORE_INFINITY,
            -SCORE_INFINITY <= beta <= SCORE_INFINITY,
            -SCORE_INFINITY <= best_eval <= SCORE_INFINITY,
            -SCORE_INFINITY <= alpha < beta,
            match best_move {
                Some(m) => m.in_range(),
                None => true,
            },
            node.children@.len() > 0,
            b == old(p).grid(),
            legal_root == (old(node).children@.len() == 0 || root_children_legal(
                *old(node), b, color)),
            legal_root ==> root_children_legal(*node, b, color),
            legal_root ==> match best_move {
                Some(m) => legal_move(b, color, m),
                None => true,
            },
            cut ==> best_move is Some,
            best_move is None ==> i == 0,
            best_move is None ==> best_eval == -SCORE_INFINITY,
            cut == (cur_alpha >= beta),
            cur_alpha as int == (if best_eval >= alpha { best_eval as int } else { alpha as int }),
            fresh == (old(node).children@.len() == 0),
            !fresh ==> lm0 == old(node).children@.map_values(|c: Node| c.last_move),
            node.children@.len() == lm0.len(),
            forall|j: int| 0 <= j < node.children@.len() ==> (
                #[trigger] node.children@[j]).last_move == lm0[j],
            fresh ==> cmoves.len() == lm0.len(),
            fresh ==> (forall|j: int| 0 <= j < cmoves.len() ==> lm0[j] == Some(
                #[trigger] cmoves[j])),
            fresh ==> (forall|m: ChessMove| #[trigger] cmoves.contains(m) <==> legal_move(
                b, color, m)),
            fresh ==> (forall|j: int| i <= j < node.children@.len() ==> (
                #[trigger] node.children@[j]).children@.len() == 0),
            (fresh && !cut) ==> (forall|j: int| 0 <= j < i ==> child_value(
                b, color, depth as nat, #[trigger] cmoves[j]) <= best_eval as int),
            fresh ==> (best_eval >= beta ==> exists|j: int| 0 <= j < i && child_value(
                b, color, depth as nat, #[trigger] cmoves[j]) >= best_eval as int),
            (fresh && !cut && best_eval > alpha) ==> (match best_move {
                Some(m) => legal_move(b, color, m) && child_value(
                    b, color, depth as nat, m) == best_eval as int,
                None => false,
            }),
        decreases node.children@.len() - i,
    {
        let ghost best0 = best_eval;
        let ghost ca0 = cur_alpha;
        // Take the child out, explore it, and put it back in place.
        let ghost pre_children = node.children@;
        let mut child = node.children.remove(i);
        proof {
            lemma_nodes_ok_index(pre_children, i as int);
            assert(child_ok(pre_children[i as int]));
            lemma_child_ok_parts(pre_children[i as int]);
            lemma_nodes_ok_remove(pre_children, i as int);
        }
        let child_move = match child.last_move {
            Some(m) => m,
            None => vstd::pervasive::unreached(),
        };
        proof {
            assert(pre_children[i as int].last_move == Some(child_move));
            if legal_root {
                assert(legal_move(b, color, child_move));
            }
            if fresh {
                assert(cmoves[i as int] == child_move);
            }
        }

        // Make the move.
        let old_piece = p.board[child_move.o_rank][child_move.o_file];
        let captured_piece = p.board[child_move.n_rank][child_move.n_file];
        let moved = p.make_move(&child_move);
        proof {
            assert(moved is Ok);
            assert forall|rr: int| 0 <= rr < 8 implies p.grid()[rr] =~= grid_after(
                b, child_move)[rr] by {
                assert forall|ff: int| 0 <= ff < 8 implies p.grid()[rr][ff] == grid_after(
                    b, child_move)[rr][ff] by {
                    assert(on_board(ff, rr));
                    assert(p.at(ff, rr) == cell_after(b, child_move, ff, rr));
                }
            }
            assert(p.grid() =~~= grid_after(b, child_move));
        }

        let king_captured = match captured_piece {
            Some(cp) => {
                let is_king = match cp.piece {
                    Piece::King => true,
                    _ => false,
                };
                is_king
            },
            None => false,
        };

        let mut eval: i32;
        if king_captured {
            // The move takes a king off the board; score the resulting
            // position statically rather than searching a kingless board.
            let leaf = evaluate(p, color.opp_color());
            eval = 0 - leaf;
            proof {
                if fresh {
                    assert(takes_king(b, child_move));
                    assert(child_value(b, color, depth as nat, child_move) == eval as int);
                }
            }
        } else {
            proof {
                assert(captured_piece == cell(b, child_move.n_file as int, child_move.n_rank as int));
                lemma_move_keeps_kings(b, child_move, Color::White);
                lemma_move_keeps_kings(b, child_move, Color::Black);
            }
            let sub = calculate(p, color.opp_color(), depth - 1, 0 - beta, 0 - cur_alpha, &mut child);
            eval = 0 - sub.0;
            proof {
                if fresh {
                    let after = grid_after(b, child_move);
                    let w = negamax_value(after, color.opposite(), (depth - 1) as nat);
                    if depth == 1 {
                        assert(w == eval_spec(after, color.opposite()));
                        assert(sub.0 == w);
                    } else {
                        assert(sub.0 <= 0 - beta ==> w <= sub.0);
                        assert(sub.0 >= 0 - ca0 ==> w >= sub.0);
                        assert((0 - beta < sub.0 && sub.0 < 0 - ca0) ==> sub.0 == w);
                    }
                    assert(!takes_king(b, child_move));
                    assert(child_value(b, color, depth as nat, child_move) == -w);
                    assert(ca0 < eval && eval < beta ==> child_value(
                        b, color, depth as nat, child_move) == eval as int);
                    assert(eval <= ca0 ==> child_value(
                        b, color, depth as nat, child_move) <= eval as int);
                    assert(eval >= beta ==> child_value(
                        b, color, depth as nat, child_move) >= eval as int);
                }
            }
        }
        child.eval = Some(eval);

        if eval > best_eval {
            best_eval = eval;
            best_move = Some(child_move);
        } else if best_move.is_none() {
            best_eval = eval;
            best_move = Some(child_move);
        }

        // Roll back the move.
        let ghost b_mid = p.grid();
        p.board[child_move.o_rank][child_move.o_file] = old_piece;
        p.board[child_move.n_rank][child_move.n_file] = captured_piece;
        proof {
            lemma_make_move_rollback(b, child_move);
            assert forall|rr: int| 0 <= rr < 8 implies p.grid()[rr] =~= grid_restored(
                b_mid, child_move, old_piece, captured_piece)[rr] by {
                assert forall|ff: int| 0 <= ff < 8 implies p.grid()[rr][ff] == grid_restored(
                    b_mid, child_move, old_piece, captured_piece)[rr][ff] by {
                    assert(on_board(ff, rr));
                }
            }
            assert(p.grid() =~~= grid_restored(b_mid, child_move, old_piece, captured_piece));
        }

        let ghost before_insert = node.children@;
        node.children.insert(i, child);
        proof {
            assert(children_ok(child));
            lemma_child_ok_from_parts(child);
            lemma_nodes_ok_insert(before_insert, i as int, child);
            if legal_root {
                assert(child.last_move == Some(child_move));
                assert forall|j: int| 0 <= j < node.children@.len() implies (match (
                    #[trigger] node.children@[j]).last_move {
                    Some(m) => legal_move(b, color, m),
                    None => false,
                }) by {
                    if j < i as int {
                        assert(node.children@[j] == before_insert[j]);
                        assert(before_insert[j] == pre_children[j]);
                    } else if j == i as int {
                        assert(node.children@[j] == child);
                    } else {
                        assert(node.children@[j] == before_insert[j - 1]);
                        assert(before_insert[j - 1] == pre_children[j]);
                    }
                }
            }
        }

        cur_alpha = if cur_alpha >= best_eval { cur_alpha } else { best_eval };
        if cur_alpha >= beta {
            cut = true;
        }
        proof {
            if fresh {
                let cvi = child_value(b, color, depth as nat, child_move);
                if !cut {
                    assert(best_eval < beta);
                    assert forall|j: int| 0 <= j < i + 1 implies child_value(
                        b, color, depth as nat, #[trigger] cmoves[j]) <= best_eval as int by {
                        if j == i as int {
                            assert(eval < beta);
                            assert(cvi <= best_eval as int);
                        } else {
                            assert(child_value(b, color, depth as nat, cmoves[j])
                                <= best0 as int);
                        }
                    }
                }
                if best_eval >= beta {
                    assert(best0 < beta);
                    assert(best_eval == eval);
                    assert(child_value(b, color, depth as nat, cmoves[i as int])
                        >= best_eval as int);
                }
                if !cut && best_eval > alpha {
                    if eval > best0 {
                        assert(eval > ca0);
                        assert(eval < beta);
                        assert(cvi == eval as int);
                        assert(legal_move(b, color, child_move));
                    }
                }
            }
        }
        i = i + 1;
    }
    let ghost nv = negamax_value(b, color, depth as nat);
    proof {
        assert(best_move is Some);
        if fresh {
            if !cut {
                assert(i == node.children@.len());
                assert forall|m: ChessMove| legal_move(b, color, m) implies #[trigger] child_value(
                    b, color, depth as nat, m) <= best_eval as int by {
                    assert(cmoves.contains(m));
                    let j = choose|j: int| 0 <= j < cmoves.len() && cmoves[j] == m;
                    assert(child_value(b, color, depth as nat, cmoves[j]) <= best_eval as int);
                }
                lemma_best_upto_le(b, color, depth as nat, 4096, best_eval as int);
                assert(nv <= best_eval as int);
                if best_eval > alpha {
                    match best_move {
                        Some(m) => {
                            assert(legal_move(b, color, m) && child_value(
                                b, color, depth as nat, m) == best_eval as int);
                            lemma_move_index(b, color, m);
                            let k = m.o_file + 8 * m.o_rank + 64 * m.n_file + 512 * m.n_rank;
                            lemma_best_upto_ge(b, color, depth as nat, 4096, k as int);
                            assert(nv >= best_eval as int);
                        },
                        None => {
                            assert(false);
                        },
                    }
                }
            } else {
                assert(best_eval >= beta);
                let j = choose|j: int| 0 <= j < i && child_value(
                    b, color, depth as nat, #[trigger] cmoves[j]) >= best_eval as int;
                let m2 = cmoves[j];
                assert(cmoves.contains(m2)) by {
                    assert(cmoves[j] == m2);
                }
                assert(legal_move(b, color, m2));
                lemma_move_index(b, color, m2);
                let k = m2.o_file + 8 * m2.o_rank + 64 * m2.n_file + 512 * m2.n_rank;
                lemma_best_upto_ge(b, color, depth as nat, 4096, k as int);
                assert(nv >= best_eval as int);
            }
        }
    }

    // From possible moves, choose optimal move. Return the optimal move with
    // its evaluation.
    let ghost pre_sort = node.children@;
    sort_moves(&mut node.children);
    proof {
        assert forall|j: int| 0 <= j < node.children@.len() implies child_ok(
            #[trigger] node.children@[j]) by {
            assert(node.children@.contains(node.children@[j]));
            assert(node.children@.to_multiset().count(node.children@[j]) > 0);
            assert(pre_sort.to_multiset().count(node.children@[j]) > 0);
            assert(pre_sort.contains(node.children@[j]));
            let t = choose|t: int| 0 <= t < pre_sort.len() && pre_sort[t] == node.children@[j];
            lemma_nodes_ok_index(pre_sort, t);
        }
        lemma_nodes_ok_from_all(node.children@);
        if legal_root {
            assert forall|j: int| 0 <= j < node.children@.len() implies (match (
                #[trigger] node.children@[j]).last_move {
                Some(m) => legal_move(b, color, m),
                None => false,
            }) by {
                assert(node.children@.contains(node.children@[j]));
                assert(node.children@.to_multiset().count(node.children@[j]) > 0);
                assert(pre_sort.to_multiset().count(node.children@[j]) > 0);
                assert(pre_sort.contains(node.children@[j]));
                let t = choose|t: int| 0 <= t < pre_sort.len() && pre_sort[t]
                    == node.children@[j];
                assert(pre_sort[t].last_move == node.children@[j].last_move);
            }
        }
        assert(pre_sort.map_values(|c: Node| c.last_move) =~= lm0);
        if fresh {
            assert forall|m: ChessMove| #[trigger] legal_move(b, color, m) implies exists|j: int|
                0 <= j < node.children@.len() && (#[trigger] node.children@[j]).last_move
                == Some(m) by {
                assert(cmoves.contains(m));
                let jj = choose|jj: int| 0 <= jj < cmoves.len() && cmoves[jj] == m;
                assert(pre_sort[jj].last_move == lm0[jj]);
                assert(pre_sort[jj].last_move == Some(m));
                assert(pre_sort.contains(pre_sort[jj]));
                assert(pre_sort.to_multiset().count(pre_sort[jj]) > 0);
                assert(node.children@.to_multiset().count(pre_sort[jj]) > 0);
                assert(node.children@.contains(pre_sort[jj]));
                let t = choose|t: int| 0 <= t < node.children@.len() && node.children@[t]
                    == pre_sort[jj];
                assert(node.children@[t].last_move == Some(m));
            }
        }
    }
    (best_eval, best_move)
}

/// Search the game to the given depth for the side of `color` and hand back
/// the best move found with its evaluation, or report that no legal move
/// exists. On a fresh search tree the evaluation equals the negamax value
/// of the position at that depth, and a finite score is attained by the
/// returned move.
pub fn think_depth(g: &mut GameContext, color: Color, depth: u32) -> (res: Result<
    (i32, ChessMove),
    MoveError,
>)
    requires
        old(g).position.wf(),
        has_king(old(g).position.grid(), Color::White),
        has_king(old(g).position.grid(), Color::Black),
        children_ok(old(g).tree),
        depth >= 1,
    ensures
        final(g).position.wf(),
        final(g).position.grid() == old(g).position.grid(),
        final(g).position.o_o_o_white == old(g).position.o_o_o_white,
        final(g).position.o_o_white == old(g).position.o_o_white,
        final(g).position.o_o_o_black == old(g).position.o_o_o_black,
        final(g).position.o_o_black == old(g).position.o_o_black,
        final(g).chess_moves == old(g).chess_moves,
        children_ok(final(g).tree),
        match res {
            Ok((s, m)) => m.in_range(),
            Err(e) => e == MoveError::NoLegalMoves,
        },
        res is Err ==> forall|m: ChessMove| !legal_move(old(g).position.grid(), color, m),
        (old(g).tree.children@.len() == 0 && (forall|m: ChessMove| !legal_move(
            old(g).position.grid(), color, m))) ==> res is Err,
        (old(g).tree.children@.len() == 0 || root_children_legal(
            old(g).tree, old(g).position.grid(), color)) ==> {
            &&& root_children_legal(final(g).tree, old(g).position.grid(), color)
            &&& match res {
                Ok((s, m)) => legal_move(old(g).position.grid(), color, m),
                Err(_) => true,
            }
        },
        old(g).tree.children@.len() == 0 ==> match res {
            Ok((s, m)) => s == negamax_value(old(g).position.grid(), color, depth as nat)
                && (-SCORE_INFINITY < s < SCORE_INFINITY ==> child_value(
                    old(g).position.grid(), color, depth as nat, m) == s as int),
            Err(_) => true,
        },
{
    let ghost b0 = g.position.grid();
    let (eval, best_move) = calculate(
        &mut g.position,
        color,
        depth,
        0 - SCORE_INFINITY,
        SCORE_INFINITY,
        &mut g.tree,
    );
    proof {
        if old(g).tree.children@.len() == 0 {
            lemma_nv_bounds(b0, color, depth as nat);
        }
    }
    match best_move {
        Some(m) => Ok((eval, m)),
        None => Err(MoveError::NoLegalMoves),
    }
}

/// Iterative deepening: search at depth 2, then one deeper each pass up to
/// (but not including) `max_depth`, keeping the deepest pass's best move;
/// shallower passes order the tree so the deeper ones prune well. Reports
/// NoLegalMoves when the side has no legal move.
pub fn think(g: &mut GameContext, color: Color, max_depth: u32) -> (res: Result<
    ChessMove,
    MoveError,
>)
    requires
        old(g).position.wf(),
        has_king(old(g).position.grid(), Color::White),
        has_king(old(g).position.grid(), Color::Black),
        children_ok(old(g).tree),
        max_depth > 2,
    ensures
        final(g).position.wf(),
        final(g).position.grid() == old(g).position.grid(),
        final(g).position.o_o_o_white == old(g).position.o_o_o_white,
        final(g).position.o_o_white == old(g).position.o_o_white,
        final(g).position.o_o_o_black == old(g).position.o_o_o_black,
        final(g).position.o_o_black == old(g).position.o_o_black,
        final(g).chess_moves == old(g).chess_moves,
        children_ok(final(g).tree),
        match res {
            Ok(m) => m.in_range(),
            Err(e) => e == MoveError::NoLegalMoves,
        },
        res is Err ==> forall|m: ChessMove| !legal_move(old(g).position.grid(), color, m),
        (old(g).tree.children@.len() == 0 && (forall|m: ChessMove| !legal_move(
            old(g).position.grid(), color, m))) ==> res is Err,
        (old(g).tree.children@.len() == 0 || root_children_legal(
            old(g).tree, old(g).position.grid(), color)) ==> match res {
            Ok(m) => legal_move(old(g).position.grid(), color, m),
            Err(_) => true,
        },
{
    let ghost legal_entry = old(g).tree.children@.len() == 0 || root_children_legal(
        old(g).tree, old(g).position.grid(), color);
    let mut best_move: Option<ChessMove> = None;
    let mut i: u32 = 2;
    while i < max_depth
        invariant
            2 <= i <= max_depth,
            g.position.wf(),
            g.position.grid() == old(g).position.grid(),
            g.position.o_o_o_white == old(g).position.o_o_o_white,
            g.position.o_o_white == old(g).position.o_o_white,
            g.position.o_o_o_black == old(g).position.o_o_o_black,
            g.position.o_o_black == old(g).position.o_o_black,
            g.chess_moves == old(g).chess_moves,
            has_king(g.position.grid(), Color::White),
            has_king(g.position.grid(), Color::Black),
            children_ok(g.tree),
            i == 2 ==> g.tree.children@ == old(g).tree.children@,
            (old(g).tree.children@.len() == 0 && (forall|m: ChessMove| !legal_move(
                old(g).position.grid(), color, m))) ==> i == 2,
            legal_entry == (old(g).tree.children@.len() == 0 || root_children_legal(
                old(g).tree, old(g).position.grid(), color)),
            legal_entry ==> (i == 2 || root_children_legal(
                g.tree, old(g).position.grid(), color)),
            legal_entry ==> match best_move {
                Some(m) => legal_move(old(g).position.grid(), color, m),
                None => true,
            },
            i > 2 ==> best_move is Some,
            match best_move {
                Some(m) => m.in_range(),
                None => true,
            },
        decreases max_depth - i,
    {
        match think_depth(g, color, i) {
            Ok((_eval, m)) => {
                best_move = Some(m);
            },
            Err(e) => {
                return Err(e);
            },
        }
        i = i + 1;
    }
    match best_move {
        Some(m) => Ok(m),
        None => {
            proof {
                assert(false);
            }
            Err(MoveError::NoLegalMoves)
        },
    }
}

} // verus!
