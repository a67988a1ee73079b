use rob_chess::chess_move::{ChessMove, ParseMoveError};
use rob_chess::chess_move::{parse_file, parse_rank};
use rob_chess::color::Color;
use rob_chess::game_context::GameContext;
use rob_chess::game_piece::{GamePiece, Piece};
use rob_chess::position::{MoveError, Position};
use rob_chess::side::Side;
use rob_chess::tree::Node;

fn plain_move(of: usize, or: usize, nf: usize, nr: usize) -> ChessMove {
    ChessMove::new(None, of, or, nf, nr, None, None)
}

#[test]
fn opposite_color_is_involutive() {
    assert_eq!(Color::White.opp_color().opp_color(), Color::White);
    assert_eq!(Color::Black.opp_color().opp_color(), Color::Black);
    assert_eq!(Side::White.opp_side().opp_side(), Side::White);
    assert_eq!(Side::Black.opp_side().opp_side(), Side::Black);
}

#[test]
fn move_equality_ignores_piece_fields() {
    let p = Position::new();
    let a = ChessMove::new(p.board[1][4], 4, 1, 4, 3, None, None);
    let b = plain_move(4, 1, 4, 3);
    assert_eq!(a, b);
    let c = plain_move(4, 1, 4, 2);
    assert_ne!(a, c);
    let d = ChessMove::new(None, 4, 1, 4, 3, Some(Piece::Queen), None);
    assert_ne!(b, d);
}

#[test]
fn parse_file_reads_letters() {
    assert_eq!(parse_file("a"), Ok(0));
    assert_eq!(parse_file("h"), Ok(7));
    assert_eq!(parse_file("B"), Ok(1));
    assert_eq!(parse_file(""), Err(ParseMoveError::FileParseError));
    assert_eq!(parse_file("5"), Err(ParseMoveError::FileParseError));
}

#[test]
fn parse_rank_reads_digits() {
    assert_eq!(parse_rank("1"), Ok(0));
    assert_eq!(parse_rank("8"), Ok(7));
    assert_eq!(parse_rank("12"), Ok(11));
    assert_eq!(parse_rank("+3"), Ok(2));
    assert_eq!(parse_rank("0"), Err(ParseMoveError::RankParseError));
    assert_eq!(parse_rank(""), Err(ParseMoveError::RankParseError));
    assert_eq!(parse_rank("x"), Err(ParseMoveError::RankParseError));
}

#[test]
fn notation_round_trips_through_parsing() {
    let p = Position::new();
    let m = ChessMove::from_algebraic("e2e4", &p).unwrap();
    assert_eq!(m.notation(), "e2e4");

    let parsed_again = ChessMove::from_algebraic(&m.notation(), &p).unwrap();
    assert_eq!(parsed_again, m);

    let promo = ChessMove::new(None, 4, 6, 4, 7, Some(Piece::Queen), None);
    assert_eq!(promo.notation(), "e7e8q");
}

#[test]
fn from_algebraic_parses_e2e4() {
    let p = Position::new();
    let m = ChessMove::from_algebraic("e2e4", &p).unwrap();
    assert_eq!(m.o_file, 4);
    assert_eq!(m.o_rank, 1);
    assert_eq!(m.n_file, 4);
    assert_eq!(m.n_rank, 3);
    assert_eq!(m.promo_piece, None);
    assert_eq!(m.moved_piece, Some(GamePiece::new(Piece::Pawn, Color::White)));
    assert_eq!(m.captured_piece, None);
}

#[test]
fn from_algebraic_sanitizes_its_input() {
    // Upper-case text with surrounding whitespace must parse the same way;
    // this fails if the text were handed through unsanitized.
    let p = Position::new();
    let m = ChessMove::from_algebraic("  E2E4 \n", &p).unwrap();
    assert_eq!(m.o_file, 4);
    assert_eq!(m.o_rank, 1);
    assert_eq!(m.n_file, 4);
    assert_eq!(m.n_rank, 3);

    let promo = ChessMove::from_algebraic("e7e8q", &p).unwrap();
    assert_eq!(promo.promo_piece, Some(Piece::Queen));
}

#[test]
fn from_algebraic_takes_the_leftmost_match() {
    // The pattern is unanchored: the first move-shaped piece of the text
    // decides, and interior whitespace breaks a match apart.
    let p = Position::new();
    let m = ChessMove::from_algebraic("xxe2e4yy", &p).unwrap();
    assert_eq!((m.o_file, m.o_rank, m.n_file, m.n_rank), (4, 1, 4, 3));
    assert!(matches!(
        ChessMove::from_algebraic("e2 e4", &p),
        Err(ParseMoveError::PieceParseError)
    ));
}

#[test]
fn from_algebraic_rejects_bad_input() {
    let p = Position::new();
    assert!(matches!(
        ChessMove::from_algebraic("hello", &p),
        Err(ParseMoveError::PieceParseError)
    ));
    assert!(matches!(
        ChessMove::from_algebraic("i2i4", &p),
        Err(ParseMoveError::PieceParseError)
    ));
    // e3 is an empty square in the starting position
    assert!(matches!(
        ChessMove::from_algebraic("e3e4", &p),
        Err(ParseMoveError::IllegalMoveError)
    ));
}

#[test]
fn make_move_rejects_out_of_bounds() {
    let mut p = Position::new();
    let m = plain_move(4, 1, 4, 9);
    assert_eq!(p.make_move(&m), Err(MoveError::OutOfBounds));
    // nothing changed
    assert_eq!(
        p.board[1][4].unwrap(),
        GamePiece::new(Piece::Pawn, Color::White)
    );
}

#[test]
fn make_move_moves_the_piece() {
    let mut p = Position::new();
    let m = plain_move(4, 1, 4, 3);
    assert_eq!(p.make_move(&m), Ok(()));
    assert_eq!(p.board[1][4], None);
    assert_eq!(
        p.board[3][4].unwrap(),
        GamePiece::new(Piece::Pawn, Color::White)
    );
}

#[test]
fn make_and_rollback_restores_the_board() {
    // For every legal move in the starting position: make the move, restore
    // the origin and destination squares, and compare the whole state.
    let mut p = Position::new();
    let moves = p.get_moves(Color::White);
    assert!(moves.len() > 0);
    for m in moves.iter() {
        let before_board = p.board.clone();
        let before_rights = (p.o_o_o_white, p.o_o_white, p.o_o_o_black, p.o_o_black);

        let old_piece = p.board[m.o_rank][m.o_file];
        let captured_piece = p.board[m.n_rank][m.n_file];
        p.make_move(m).unwrap();
        p.board[m.o_rank][m.o_file] = old_piece;
        p.board[m.n_rank][m.n_file] = captured_piece;

        assert_eq!(p.board, before_board);
        assert_eq!(
            (p.o_o_o_white, p.o_o_white, p.o_o_o_black, p.o_o_black),
            before_rights
        );
    }
}

#[test]
fn knight_candidates_on_d4() {
    // A knight on d4 (file 3, rank 3) has exactly 8 candidate offset squares
    // before any on-board or occupancy filtering.
    let p = Position::new();
    let squares = p.look_l(3, 3);
    assert_eq!(squares.len(), 8);
    let mut found: Vec<(usize, usize)> = squares.iter().map(|s| (s.file, s.rank)).collect();
    found.sort();
    let mut expected = vec![
        (5, 4),
        (5, 2),
        (1, 4),
        (1, 2),
        (4, 5),
        (2, 5),
        (4, 1),
        (2, 1),
    ];
    expected.sort();
    assert_eq!(found, expected);
}

#[test]
fn no_generated_move_self_captures() {
    let mut p = Position::new();
    for color in [Color::White, Color::Black] {
        let moves = p.get_moves(color);
        assert!(moves.len() > 0);
        for m in moves.iter() {
            match p.board[m.n_rank][m.n_file] {
                Some(piece) => assert_ne!(piece.color, color),
                None => {}
            }
        }
    }
}

#[test]
fn starting_position_has_twenty_moves() {
    let mut p = Position::new();
    assert_eq!(p.get_moves(Color::White).len(), 20);
    assert_eq!(p.get_moves(Color::Black).len(), 20);
}

#[test]
fn end_to_end_e2e4_and_black_replies() {
    let mut g = GameContext::new();
    let m = ChessMove::from_algebraic("e2e4", &g.position).unwrap();
    assert_eq!((m.o_file, m.o_rank, m.n_file, m.n_rank), (4, 1, 4, 3));

    g.make_move(m).unwrap();
    assert_eq!(g.position.board[1][4], None);
    assert_eq!(
        g.position.board[3][4].unwrap(),
        GamePiece::new(Piece::Pawn, Color::White)
    );

    let replies = g.position.get_moves(Color::Black);
    let e7e5 = plain_move(4, 6, 4, 4);
    let d7d5 = plain_move(3, 6, 3, 4);
    assert!(replies.iter().any(|r| *r == e7e5));
    assert!(replies.iter().any(|r| *r == d7d5));
}

#[test]
fn committing_a_move_prunes_the_tree() {
    let mut g = GameContext::new();
    let kept_move = plain_move(4, 1, 4, 3);
    let dropped_move = plain_move(3, 1, 3, 3);

    let mut kept = Node::new(Some(kept_move), None);
    kept.children.push(Node::new(Some(plain_move(4, 6, 4, 4)), None));
    kept.children.push(Node::new(Some(plain_move(3, 6, 3, 4)), None));
    let dropped = Node::new(Some(dropped_move), None);

    g.tree.children.push(dropped);
    g.tree.children.push(kept);

    g.make_move(kept_move).unwrap();

    assert_eq!(g.chess_moves.len(), 1);
    assert_eq!(g.tree.children.len(), 2);
    assert_eq!(g.tree.children[0].last_move, Some(plain_move(4, 6, 4, 4)));
    assert_eq!(g.tree.children[1].last_move, Some(plain_move(3, 6, 3, 4)));
}

#[test]
fn committing_an_unknown_move_clears_the_tree() {
    let mut g = GameContext::new();
    g.tree.children.push(Node::new(Some(plain_move(3, 1, 3, 3)), None));

    g.make_move(plain_move(4, 1, 4, 3)).unwrap();
    assert_eq!(g.tree.children.len(), 0);
}

#[test]
fn piece_values_are_classical() {
    assert_eq!(Piece::Pawn.value(), 1);
    assert_eq!(Piece::Knight.value(), 3);
    assert_eq!(Piece::Bishop.value(), 3);
    assert_eq!(Piece::Rook.value(), 5);
    assert_eq!(Piece::Queen.value(), 9);
    assert_eq!(Piece::King.value(), 200);
    assert_eq!(GamePiece::new(Piece::Queen, Color::Black).value(), 9);
}

#[test]
fn piece_letters() {
    assert_eq!(Piece::Pawn.letter(), "P");
    assert_eq!(Piece::Knight.letter(), "N");
    assert_eq!(Piece::King.letter(), "K");
}
