use rob_chess::chess_move::ChessMove;
use rob_chess::color::Color;
use rob_chess::engine::{evaluate, sort_moves, think, think_depth};
use rob_chess::game_context::GameContext;
use rob_chess::game_piece::{GamePiece, Piece};
use rob_chess::position::{MoveError, Position};
use rob_chess::tree::Node;

/// A plain full-width negamax with no pruning and no tree, mirroring the
/// engine's evaluation and first-maximum move choice.
fn full_width(p: &mut Position, color: Color, depth: u32) -> (i32, Option<ChessMove>) {
    if depth == 0 {
        return (evaluate(p, color), None);
    }
    let moves = p.get_moves(color);
    let mut best_eval = -1000000;
    let mut best_move = None;
    for m in moves.iter() {
        let old_piece = p.board[m.o_rank][m.o_file];
        let captured_piece = p.board[m.n_rank][m.n_file];
        p.make_move(m).unwrap();
        let (sub, _) = full_width(p, color.opp_color(), depth - 1);
        let eval = -sub;
        p.board[m.o_rank][m.o_file] = old_piece;
        p.board[m.n_rank][m.n_file] = captured_piece;
        if eval > best_eval || best_move.is_none() {
            best_eval = eval;
            best_move = Some(*m);
        }
    }
    (best_eval, best_move)
}

fn clear_board(p: &mut Position) {
    for r in 0..8 {
        for f in 0..8 {
            p.board[r][f] = None;
        }
    }
}

#[test]
fn material_of_the_starting_position() {
    let p = Position::new();
    assert_eq!(p.sum_material(Color::White), 239);
    assert_eq!(p.sum_material(Color::Black), 239);
    assert_eq!(evaluate(&p, Color::White), 0);
    assert_eq!(evaluate(&p, Color::Black), 0);
}

#[test]
fn evaluate_counts_a_missing_piece() {
    let mut p = Position::new();
    p.board[7][3] = None; // remove the black queen
    assert_eq!(evaluate(&p, Color::White), 9);
    assert_eq!(evaluate(&p, Color::Black), -9);
}

#[test]
fn sort_moves_orders_by_descending_eval() {
    let mut nodes = vec![
        Node::new(None, None),
        Node::new(None, Some(3)),
        Node::new(None, Some(7)),
        Node::new(None, Some(-2)),
        Node::new(None, None),
        Node::new(None, Some(7)),
    ];
    sort_moves(&mut nodes);
    let evals: Vec<Option<i32>> = nodes.iter().map(|n| n.eval).collect();
    assert_eq!(
        evals,
        vec![Some(7), Some(7), Some(3), Some(-2), None, None]
    );
}

#[test]
fn negamax_scores_are_symmetric_at_the_start() {
    // The starting position is its own color-flipped equivalent, so the
    // score searched for White equals the negation of the score searched
    // for Black.
    let mut gw = GameContext::new();
    let (sw, _) = think_depth(&mut gw, Color::White, 2).unwrap();
    let mut gb = GameContext::new();
    let (sb, _) = think_depth(&mut gb, Color::Black, 2).unwrap();
    assert_eq!(sw, -sb);
}

#[test]
fn pruned_search_equals_full_width_search() {
    // At depth 3 from the starting position, alpha-beta must return the
    // same best move and score as an unpruned full-width negamax.
    let mut g = GameContext::new();
    let (pruned_score, pruned_move) = think_depth(&mut g, Color::White, 3).unwrap();

    let mut p = Position::new();
    let (full_score, full_move) = full_width(&mut p, Color::White, 3);

    assert_eq!(pruned_score, full_score);
    assert_eq!(Some(pruned_move), full_move);
}

#[test]
fn search_leaves_the_position_unchanged() {
    let mut g = GameContext::new();
    let before = g.position.board.clone();
    let _ = think_depth(&mut g, Color::White, 3).unwrap();
    assert_eq!(g.position.board, before);
}

#[test]
fn think_returns_a_legal_first_move() {
    let mut g = GameContext::new();
    let m = think(&mut g, Color::White, 4).unwrap();
    let mut p = Position::new();
    let legal = p.get_moves(Color::White);
    assert!(legal.iter().any(|l| *l == m));
}

#[test]
fn stalemate_reports_no_legal_moves() {
    // Black king on a8, white king on b6, white queen on c7: Black has no
    // legal move and is not in check.
    let mut g = GameContext::new();
    clear_board(&mut g.position);
    g.position.board[7][0] = Some(GamePiece::new(Piece::King, Color::Black));
    g.position.board[5][1] = Some(GamePiece::new(Piece::King, Color::White));
    g.position.board[6][2] = Some(GamePiece::new(Piece::Queen, Color::White));

    assert_eq!(g.position.get_moves(Color::Black).len(), 0);
    assert_eq!(
        think(&mut g, Color::Black, 4),
        Err(MoveError::NoLegalMoves)
    );
}

#[test]
fn check_detection_sees_all_attackers() {
    let mut p = Position::new();
    clear_board(&mut p);
    p.board[0][4] = Some(GamePiece::new(Piece::King, Color::White));
    p.board[7][4] = Some(GamePiece::new(Piece::King, Color::Black));

    // a rook down the file
    p.board[5][4] = Some(GamePiece::new(Piece::Rook, Color::Black));
    assert!(p.in_check(4, 0, Color::White));
    // blocked by a piece in between
    p.board[3][4] = Some(GamePiece::new(Piece::Pawn, Color::White));
    assert!(!p.in_check(4, 0, Color::White));
    p.board[5][4] = None;
    p.board[3][4] = None;

    // a bishop on the diagonal
    p.board[3][7] = Some(GamePiece::new(Piece::Bishop, Color::Black));
    assert!(p.in_check(4, 0, Color::White));
    p.board[3][7] = None;

    // a knight a jump away
    p.board[2][5] = Some(GamePiece::new(Piece::Knight, Color::Black));
    assert!(p.in_check(4, 0, Color::White));
    p.board[2][5] = None;

    // a pawn a diagonal step away
    p.board[1][3] = Some(GamePiece::new(Piece::Pawn, Color::Black));
    assert!(p.in_check(4, 0, Color::White));
    p.board[1][3] = None;

    // an own piece never gives check
    p.board[5][4] = Some(GamePiece::new(Piece::Rook, Color::White));
    assert!(!p.in_check(4, 0, Color::White));
}

#[test]
fn moves_into_check_are_filtered_out() {
    // White king on e1 faces a black rook on e8; the king may not stay on
    // the e-file behind nothing, and the pawn on e2 may not move away.
    let mut p = Position::new();
    clear_board(&mut p);
    p.board[0][4] = Some(GamePiece::new(Piece::King, Color::White));
    p.board[1][4] = Some(GamePiece::new(Piece::Pawn, Color::White));
    p.board[7][4] = Some(GamePiece::new(Piece::Rook, Color::Black));
    p.board[7][7] = Some(GamePiece::new(Piece::King, Color::Black));

    let moves = p.get_moves(Color::White);
    // The pinned pawn may still push (it stays on the file), but may never
    // leave the file; the king may step off the file or stay put guarded by
    // the pawn.
    for m in moves.iter() {
        if m.o_file == 4 && m.o_rank == 1 {
            assert_eq!(m.n_file, 4, "pinned pawn left the file");
        }
    }
    // King moves to d1, d2, f1, f2 are legal; e2 is its own pawn's square.
    let king_moves: Vec<(usize, usize)> = moves
        .iter()
        .filter(|m| m.o_file == 4 && m.o_rank == 0)
        .map(|m| (m.n_file, m.n_rank))
        .collect();
    assert!(king_moves.contains(&(3, 0)));
    assert!(king_moves.contains(&(3, 1)));
    assert!(king_moves.contains(&(5, 0)));
    assert!(king_moves.contains(&(5, 1)));
    assert_eq!(king_moves.len(), 4);
}
