use vstd::prelude::*;

use crate::board::{
    bishop_gen_ok, can_occupy, cell, cell_after, dir_gen_move_ok, dir_move_at, dir_move_ok,
    earlier_square, first_king_at, gen_move, grid_after, grid_restored, grid_wf, has_king,
    is_king_at, king_gen_ok, knight_gen_ok, knight_jump, knight_threat, legal_move, material,
    material_upto, move_causes_check, on_board, pawn_dir, pawn_gen_ok, pawn_threat,
    pseudo_move_ok, ray_f, ray_threat, ray_threat_at, rook_gen_ok, row_material,
    square_attacked, square_gen_ok, lemma_concat_contains, lemma_first_king_unique,
    lemma_make_move_rollback, lemma_material_bounds, lemma_pseudo_in_range,
    lemma_pseudo_keeps_king, lemma_push_contains, lemma_ray_len_bound, lemma_ray_stays_off,
    lemma_ray_step, lemma_row_material_bounds, lemma_small_mul, square_value, BoardGrid,
};
use crate::chess_move::ChessMove;
use crate::color::Color;
use crate::game_piece::{GamePiece, Piece};

verus! {

/// Square represents a square in a chess position. Squares can have a piece
/// placed on them.
#[derive(Debug, Clone, Copy, PartialEq, Eq, Structural)]
pub struct Square {
    pub file: usize,
    pub rank: usize,
}

impl Square {
    /// Build the square of file f and rank r.
    pub fn new(f: usize, r: usize) -> (s: Square)
        ensures
            s == (Square { file: f, rank: r }),
    {
        Square { file: f, rank: r }
    }
}

/// The ways handling a move can fail: coordinates off the board, an empty
/// origin square when resolving a textual move, or a search asked to move
/// when no legal move exists.
#[derive(Debug, Clone, Copy, PartialEq, Eq, Structural)]
pub enum MoveError {
    OutOfBounds,
    IllegalOrigin,
    NoLegalMoves,
}

/// The contents of the back rank of `color` in the standard starting
/// position, at file f.
pub open spec fn back_rank(f: int, color: Color) -> Option<GamePiece> {
    if f == 0 || f == 7 {
        Some(GamePiece { piece: Piece::Rook, color })
    } else if f == 1 || f == 6 {
        Some(GamePiece { piece: Piece::Knight, color })
    } else if f == 2 || f == 5 {
        Some(GamePiece { piece: Piece::Bishop, color })
    } else if f == 3 {
        Some(GamePiece { piece: Piece::Queen, color })
    } else {
        Some(GamePiece { piece: Piece::King, color })
    }
}

/// The contents of (f, r) in the standard 32-piece starting position.
pub open spec fn start_square(f: int, r: int) -> Option<GamePiece> {
    if r == 0 {
        back_rank(f, Color::White)
    } else if r == 1 {
        Some(GamePiece { piece: Piece::Pawn, color: Color::White })
    } else if r == 6 {
        Some(GamePiece { piece: Piece::Pawn, color: Color::Black })
    } else if r == 7 {
        back_rank(f, Color::Black)
    } else {
        None
    }
}

/// Position represents a chess position: the 8x8 board and the four
/// castling-rights flags.
#[derive(Debug)]
pub struct Position {
    pub board: Vec<Vec<Option<GamePiece>>>,
    pub o_o_o_white: bool,
    pub o_o_white: bool,
    pub o_o_o_black: bool,
    pub o_o_black: bool,
}

/// The two positions agree on every square and on all four castling rights.
pub open spec fn same_state(a: Position, b: Position) -> bool {
    &&& forall|f: int, r: int| on_board(f, r) ==> a.at(f, r) == b.at(f, r)
    &&& a.o_o_o_white == b.o_o_o_white
    &&& a.o_o_white == b.o_o_white
    &&& a.o_o_o_black == b.o_o_o_black
    &&& a.o_o_black == b.o_o_black
}

impl Position {
    /// The contents of the square of file f and rank r.
    pub open spec fn at(self, f: int, r: int) -> Option<GamePiece> {
        self.board@[r]@[f]
    }

    /// The abstract contents of the whole board.
    pub open spec fn grid(self) -> BoardGrid {
        Seq::new(8, |r: int| Seq::new(8, |f: int| self.board@[r]@[f]))
    }

    /// The board vectors really form an 8x8 grid.
    pub open spec fn wf(self) -> bool {
        self.board@.len() == 8 && forall|r: int| 0 <= r < 8 ==> (#[trigger] self.board@[r])@.len() == 8
    }

    /// Create a position holding the standard starting setup, with all four
    /// castling rights available.
    pub fn new() -> (p: Position)
        ensures
            p.wf(),
            forall|f: int, r: int| on_board(f, r) ==> p.at(f, r) == start_square(f, r),
            p.o_o_o_white && p.o_o_white && p.o_o_o_black && p.o_o_black,
    {
        let mut board: Vec<Vec<Option<GamePiece>>> = Vec::new();
        let mut r: usize = 0;
        while r < 8
            invariant
                r <= 8,
                board@.len() == r,
                forall|i: int| 0 <= i < r ==> (#[trigger] board@[i])@.len() == 8,
                forall|i: int, j: int| 0 <= i < r && 0 <= j < 8 ==> board@[i]@[j] is None,
            decreases 8 - r,
        {
            let mut row: Vec<Option<GamePiece>> = Vec::new();
            let mut f: usize = 0;
            while f < 8
                invariant
                    f <= 8,
                    row@.len() == f,
                    forall|j: int| 0 <= j < f ==> row@[j] is None,
                decreases 8 - f,
            {
                row.push(None);
                f = f + 1;
            }
            board.push(row);
            r = r + 1;
        }
        let mut pos = Position {
            board,
            o_o_o_white: true,
            o_o_white: true,
            o_o_o_black: true,
            o_o_black: true,
        };

        pos.reset();
        pos
    }

    /// Place the standard starting pieces on ranks 0, 1, 6 and 7, leaving
    /// the middle ranks as they were, and restore all four castling rights.
    pub fn reset(&mut self)
        requires
            old(self).wf(),
        ensures
            final(self).wf(),
            forall|f: int, r: int| on_board(f, r) ==> final(self).at(f, r)
                == (if r == 0 || r == 1 || r == 6 || r == 7 { start_square(f, r) } else { old(self).at(f, r) }),
            final(self).o_o_o_white && final(self).o_o_white && final(self).o_o_o_black
                && final(self).o_o_black,
    {
        let mut r: usize = 0;
        while r < 8
            invariant
                r <= 8,
                self.wf(),
                forall|i: int, j: int| 0 <= i < r && 0 <= j < 8 ==> self.at(j, i)
                    == (if i == 0 || i == 1 || i == 6 || i == 7 { start_square(j, i) } else { old(self).at(j, i) }),
                forall|i: int, j: int| r <= i < 8 && 0 <= j < 8 ==> self.at(j, i) == old(self).at(j, i),
            decreases 8 - r,
        {
            let mut f: usize = 0;
            while f < 8
                invariant
                    r < 8,
                    f <= 8,
                    self.wf(),
                    forall|i: int, j: int| 0 <= i < r && 0 <= j < 8 ==> self.at(j, i)
                        == (if i == 0 || i == 1 || i == 6 || i == 7 { start_square(j, i) } else { old(self).at(j, i) }),
                    forall|j: int| 0 <= j < f ==> self.at(j, r as int)
                        == (if r == 0 || r == 1 || r == 6 || r == 7 { start_square(j, r as int) } else { old(self).at(j, r as int) }),
                    forall|j: int| f <= j < 8 ==> self.at(j, r as int) == old(self).at(j, r as int),
                    forall|i: int, j: int| r < i < 8 && 0 <= j < 8 ==> self.at(j, i) == old(self).at(j, i),
                decreases 8 - f,
            {
                match r {
                    0 => match f {
                        0 | 7 => self.board[r][f] = Some(GamePiece::new(Piece::Rook, Color::White)),
                        1 | 6 => self.board[r][f] = Some(GamePiece::new(Piece::Knight, Color::White)),
                        2 | 5 => self.board[r][f] = Some(GamePiece::new(Piece::Bishop, Color::White)),
                        3 => self.board[r][f] = Some(GamePiece::new(Piece::Queen, Color::White)),
                        4 => self.board[r][f] = Some(GamePiece::new(Piece::King, Color::White)),
                        _ => (),
                    },
                    1 => self.board[r][f] = Some(GamePiece::new(Piece::Pawn, Color::White)),
                    6 => self.board[r][f] = Some(GamePiece::new(Piece::Pawn, Color::Black)),
                    7 => match f {
                        0 | 7 => self.board[r][f] = Some(GamePiece::new(Piece::Rook, Color::Black)),
                        1 | 6 => self.board[r][f] = Some(GamePiece::new(Piece::Knight, Color::Black)),
                        2 | 5 => self.board[r][f] = Some(GamePiece::new(Piece::Bishop, Color::Black)),
                        3 => self.board[r][f] = Some(GamePiece::new(Piece::Queen, Color::Black)),
                        4 => self.board[r][f] = Some(GamePiece::new(Piece::King, Color::Black)),
                        _ => (),
                    },
                    _ => (),
                }
                f = f + 1;
            }
            r = r + 1;
        }

        self.o_o_o_white = true;
        self.o_o_white = true;
        self.o_o_o_black = true;
        self.o_o_black = true;
    }

    /// Play the move: clear the origin square and put whatever stood there
    /// on the destination square, discarding any captured piece. Fails with
    /// OutOfBounds, changing nothing, when a coordinate leaves the board.
    /// Promotion and the castling rook shift are not applied: the move of
    /// the one named piece is the whole effect.
    pub fn make_move(&mut self, chess_move: &ChessMove) -> (res: Result<(), MoveError>)
        requires
            old(self).wf(),
        ensures
            final(self).wf(),
            res is Ok <==> chess_move.in_range(),
            res is Err ==> res->Err_0 == MoveError::OutOfBounds && *final(self) == *old(self),
            chess_move.in_range() ==> {
                &&& forall|f: int, r: int| on_board(f, r) ==> final(self).at(f, r)
                    == cell_after(old(self).grid(), *chess_move, f, r)
                &&& final(self).o_o_o_white == old(self).o_o_o_white
                &&& final(self).o_o_white == old(self).o_o_white
                &&& final(self).o_o_o_black == old(self).o_o_o_black
                &&& final(self).o_o_black == old(self).o_o_black
            },
    {
        let or = chess_move.o_rank;
        let of = chess_move.o_file;
        let nr = chess_move.n_rank;
        let nf = chess_move.n_file;

        if of > 7 || or > 7 || nf > 7 || nr > 7 {
            Err(MoveError::OutOfBounds)
        } else {
            let piece = self.board[or][of];
            self.board[or][of] = None;
            self.board[nr][nf] = piece;
            Ok(())
        }
    }

    /// Sum the material value of every piece of `color` on the board.
    pub fn sum_material(&self, color: Color) -> (total: i32)
        requires
            self.wf(),
        ensures
            total == material(self.grid(), color),
    {
        let mut total: i32 = 0;
        let mut r: usize = 0;
        while r < 8
            invariant
                r <= 8,
                self.wf(),
                total == material_upto(self.grid(), color, r as int),
                0 <= total <= 1600 * r,
            decreases 8 - r,
        {
            proof {
                lemma_material_bounds(self.grid(), color, r as int);
            }
            let mut f: usize = 0;
            while f < 8
                invariant
                    r < 8,
                    f <= 8,
                    self.wf(),
                    total == material_upto(self.grid(), color, r as int)
                        + row_material(self.grid()[r as int], color, f as int),
                    0 <= total <= 1600 * r + 200 * f,
                decreases 8 - f,
            {
                proof {
                    lemma_material_bounds(self.grid(), color, r as int);
                    lemma_row_material_bounds(self.grid()[r as int], color, f as int);
                }
                let v: i32 = match self.board[r][f] {
                    Some(p) => if p.color == color { p.value() } else { 0 },
                    None => 0,
                };
                assert(square_value(self.grid()[r as int][f as int], color) == v);
                total = total + v;
                f = f + 1;
            }
            r = r + 1;
        }
        total
    }
}

/// What a directional scan from (f, r) along (df, dr) returns: the squares
/// walked outward in order, stopping at and including the first occupied
/// square, or at the edge of the board; the returned piece is the contents
/// of the first occupied square, if the scan hit one.
pub open spec fn ray_result_ok(
    b: BoardGrid,
    f: int,
    r: int,
    df: int,
    dr: int,
    squares: Seq<Square>,
    piece: Option<GamePiece>,
) -> bool {
    let k = squares.len() as int;
    &&& forall|t: int| 1 <= t <= k ==> squares[t - 1]
        == (Square { file: #[trigger] ray_f(f, df, t) as usize, rank: ray_f(r, dr, t) as usize })
    &&& forall|t: int| 1 <= t <= k ==> on_board(#[trigger] ray_f(f, df, t), ray_f(r, dr, t))
    &&& forall|t: int| 1 <= t < k ==> cell(b, #[trigger] ray_f(f, df, t), ray_f(r, dr, t)) is None
    &&& match piece {
        Some(p) => k > 0 && cell(b, ray_f(f, df, k), ray_f(r, dr, k)) == Some(p),
        None => (k == 0 || cell(b, ray_f(f, df, k), ray_f(r, dr, k)) is None)
            && !on_board(ray_f(f, df, k + 1), ray_f(r, dr, k + 1)),
    }
}

impl Position {
    /// Walk outward from (f, r) one square at a time in direction (df, dr),
    /// collecting the squares passed; stop after the first occupied square,
    /// returning its piece, or at the edge of the board.
    fn scan_ray(&self, f: usize, r: usize, df: i32, dr: i32) -> (res: (Vec<Square>, Option<GamePiece>))
        requires
            self.wf(),
            f < 8,
            r < 8,
            -1 <= df <= 1,
            -1 <= dr <= 1,
            !(df == 0 && dr == 0),
        ensures
            ray_result_ok(self.grid(), f as int, r as int, df as int, dr as int, res.0@, res.1),
    {
        let mut squares: Vec<Square> = Vec::new();
        let mut cf: i32 = f as i32;
        let mut cr: i32 = r as i32;
        proof {
            lemma_small_mul(df as int, 0);
            lemma_small_mul(dr as int, 0);
        }
        loop
            invariant
                self.wf(),
                f < 8,
                r < 8,
                -1 <= df <= 1,
                -1 <= dr <= 1,
                !(df == 0 && dr == 0),
                squares@.len() <= 7,
                cf == ray_f(f as int, df as int, squares@.len() as int),
                cr == ray_f(r as int, dr as int, squares@.len() as int),
                0 <= cf < 8,
                0 <= cr < 8,
                forall|t: int| 1 <= t <= squares@.len() ==> squares@[t - 1] == (Square {
                    file: #[trigger] ray_f(f as int, df as int, t) as usize,
                    rank: ray_f(r as int, dr as int, t) as usize,
                }),
                forall|t: int| 1 <= t <= squares@.len() ==> on_board(
                    #[trigger] ray_f(f as int, df as int, t),
                    ray_f(r as int, dr as int, t),
                ),
                forall|t: int| 1 <= t <= squares@.len() ==> cell(
                    self.grid(),
                    #[trigger] ray_f(f as int, df as int, t),
                    ray_f(r as int, dr as int, t),
                ) is None,
            decreases 8 - squares@.len(),
        {
            proof {
                lemma_ray_step(f as int, df as int, squares@.len() as int);
                lemma_ray_step(r as int, dr as int, squares@.len() as int);
            }
            let nf = cf + df;
            let nr = cr + dr;
            if nf < 0 || nf > 7 || nr < 0 || nr > 7 {
                return (squares, None);
            }
            squares.push(Square { file: nf as usize, rank: nr as usize });
            cf = nf;
            cr = nr;
            proof {
                lemma_ray_len_bound(
                    f as int, r as int, df as int, dr as int, squares@.len() as int,
                );
            }
            if self.board[nr as usize][nf as usize].is_some() {
                let p = self.board[nr as usize][nf as usize];
                return (squares, p);
            }
        }
    }

    /// Look upward (toward higher ranks) from a starting square; see
    /// `ray_result_ok` for what is returned.
    pub fn look_up(&self, f: usize, r: usize) -> (res: (Vec<Square>, Option<GamePiece>))
        requires
            self.wf(),
            f < 8,
            r < 8,
        ensures
            ray_result_ok(self.grid(), f as int, r as int, 0, 1, res.0@, res.1),
    {
        self.scan_ray(f, r, 0, 1)
    }

    /// Look diagonally up and to the right from a starting square.
    pub fn look_up_right(&self, f: usize, r: usize) -> (res: (Vec<Square>, Option<GamePiece>))
        requires
            self.wf(),
            f < 8,
            r < 8,
        ensures
            ray_result_ok(self.grid(), f as int, r as int, 1, 1, res.0@, res.1),
    {
        self.scan_ray(f, r, 1, 1)
    }

    /// Look to the right (toward higher files) from a starting square.
    pub fn look_right(&self, f: usize, r: usize) -> (res: (Vec<Square>, Option<GamePiece>))
        requires
            self.wf(),
            f < 8,
            r < 8,
        ensures
            ray_result_ok(self.grid(), f as int, r as int, 1, 0, res.0@, res.1),
    {
        self.scan_ray(f, r, 1, 0)
    }

    /// Look diagonally down and to the right from a starting square.
    pub fn look_down_right(&self, f: usize, r: usize) -> (res: (Vec<Square>, Option<GamePiece>))
        requires
            self.wf(),
            f < 8,
            r < 8,
        ensures
            ray_result_ok(self.grid(), f as int, r as int, 1, -1, res.0@, res.1),
    {
        self.scan_ray(f, r, 1, -1)
    }

    /// Look downward (toward lower ranks) from a starting square.
    pub fn look_down(&self, f: usize, r: usize) -> (res: (Vec<Square>, Option<GamePiece>))
        requires
            self.wf(),
            f < 8,
            r < 8,
        ensures
            ray_result_ok(self.grid(), f as int, r as int, 0, -1, res.0@, res.1),
    {
        self.scan_ray(f, r, 0, -1)
    }

    /// Look diagonally down and to the left from a starting square.
    pub fn look_down_left(&self, f: usize, r: usize) -> (res: (Vec<Square>, Option<GamePiece>))
        requires
            self.wf(),
            f < 8,
            r < 8,
        ensures
            ray_result_ok(self.grid(), f as int, r as int, -1, -1, res.0@, res.1),
    {
        self.scan_ray(f, r, -1, -1)
    }

    /// Look to the left (toward lower files) from a starting square.
    pub fn look_left(&self, f: usize, r: usize) -> (res: (Vec<Square>, Option<GamePiece>))
        requires
            self.wf(),
            f < 8,
            r < 8,
        ensures
            ray_result_ok(self.grid(), f as int, r as int, -1, 0, res.0@, res.1),
    {
        self.scan_ray(f, r, -1, 0)
    }

    /// Look diagonally up and to the left from a starting square.
    pub fn look_up_left(&self, f: usize, r: usize) -> (res: (Vec<Square>, Option<GamePiece>))
        requires
            self.wf(),
            f < 8,
            r < 8,
        ensures
            ray_result_ok(self.grid(), f as int, r as int, -1, 1, res.0@, res.1),
    {
        self.scan_ray(f, r, -1, 1)
    }
}

/// How many of the scanned squares yield moves: all of them, except the
/// last when it holds a piece of the moving side's own color.
pub open spec fn kept_len(squares: Seq<Square>, piece: Option<GamePiece>, color: Color) -> int {
    match piece {
        Some(p) => if p.color == color { squares.len() - 1 } else { squares.len() as int },
        None => squares.len() as int,
    }
}

/// Restate what a ray scan returned in terms of the returned squares
/// themselves rather than distances along the ray.
proof fn lemma_ray_result_squares(
    b: BoardGrid,
    f: int,
    r: int,
    df: int,
    dr: int,
    squares: Seq<Square>,
    piece: Option<GamePiece>,
)
    requires
        ray_result_ok(b, f, r, df, dr, squares, piece),
    ensures
        forall|j: int| 0 <= j < squares.len() ==> on_board(
            (#[trigger] squares[j]).file as int, squares[j].rank as int),
        forall|j: int| 0 <= j < squares.len() - 1 ==> cell(
            b, (#[trigger] squares[j]).file as int, squares[j].rank as int) is None,
        piece is Some ==> squares.len() > 0 && cell(
            b,
            squares[squares.len() - 1].file as int,
            squares[squares.len() - 1].rank as int,
        ) == piece,
        piece is None ==> forall|j: int| 0 <= j < squares.len() ==> cell(
            b, (#[trigger] squares[j]).file as int, squares[j].rank as int) is None,
{
    let k = squares.len() as int;
    assert forall|j: int| 0 <= j < k implies on_board(
        (#[trigger] squares[j]).file as int, squares[j].rank as int) by {
        assert(squares[j] == (Square {
            file: ray_f(f, df, j + 1) as usize,
            rank: ray_f(r, dr, j + 1) as usize,
        }));
        assert(on_board(ray_f(f, df, j + 1), ray_f(r, dr, j + 1)));
    }
    assert forall|j: int| 0 <= j < k - 1 implies cell(
        b, (#[trigger] squares[j]).file as int, squares[j].rank as int) is None by {
        assert(on_board(ray_f(f, df, j + 1), ray_f(r, dr, j + 1)));
        assert(cell(b, ray_f(f, df, j + 1), ray_f(r, dr, j + 1)) is None);
    }
    if piece is Some {
        assert(on_board(ray_f(f, df, k), ray_f(r, dr, k)));
        assert(squares[k - 1] == (Square {
            file: ray_f(f, df, k) as usize,
            rank: ray_f(r, dr, k) as usize,
        }));
    } else {
        assert forall|j: int| 0 <= j < k implies cell(
            b, (#[trigger] squares[j]).file as int, squares[j].rank as int) is None by {
            assert(on_board(ray_f(f, df, j + 1), ray_f(r, dr, j + 1)));
            if j < k - 1 {
                assert(cell(b, ray_f(f, df, j + 1), ray_f(r, dr, j + 1)) is None);
            } else {
                assert(cell(b, ray_f(f, df, k), ray_f(r, dr, k)) is None);
            }
        }
    }
}

/// The moves appended for one scanned ray are exactly the slides along that
/// ray's direction: squares strictly before the blocker always, and the
/// blocker's square if and only if it holds an opposing piece.
proof fn lemma_ray_moves(
    b: BoardGrid,
    color: Color,
    f: int,
    r: int,
    df: int,
    dr: int,
    squares: Seq<Square>,
    piece: Option<GamePiece>,
    before: Seq<ChessMove>,
    after: Seq<ChessMove>,
)
    requires
        grid_wf(b),
        on_board(f, r),
        -1 <= df <= 1,
        -1 <= dr <= 1,
        !(df == 0 && dr == 0),
        ray_result_ok(b, f, r, df, dr, squares, piece),
        after == before + Seq::new(
            kept_len(squares, piece, color) as nat,
            |t: int| gen_move(b, f, r, squares[t].file as int, squares[t].rank as int),
        ),
    ensures
        forall|m: ChessMove| #[trigger] after.contains(m) <==> before.contains(m)
            || dir_gen_move_ok(b, color, f, r, df, dr, m),
{
    let k = squares.len() as int;
    let kept = kept_len(squares, piece, color);
    let appended = Seq::new(
        kept as nat,
        |t: int| gen_move(b, f, r, squares[t].file as int, squares[t].rank as int),
    );
    lemma_ray_result_squares(b, f, r, df, dr, squares, piece);

    assert forall|j: int| 0 <= j < kept implies dir_gen_move_ok(
        b, color, f, r, df, dr, appended[j]) by {
        let t = j + 1;
        let nf = ray_f(f, df, t);
        let nr = ray_f(r, dr, t);
        assert(squares[j] == (Square { file: nf as usize, rank: nr as usize }));
        assert(on_board(nf, nr));
        if j < k - 1 {
            assert(cell(b, nf, nr) is None);
        } else {
            match piece {
                Some(p) => {
                    assert(p.color != color);
                    assert(cell(b, nf, nr) == Some(p));
                },
                None => {
                    assert(cell(b, nf, nr) is None);
                },
            }
        }
        assert(dir_move_at(b, color, f, r, df, dr, nf, nr, t));
        assert(dir_move_ok(b, color, f, r, df, dr, nf, nr));
    }

    assert forall|m: ChessMove| dir_gen_move_ok(b, color, f, r, df, dr, m)
        implies appended.contains(m) by {
        let nf = m.n_file as int;
        let nr = m.n_rank as int;
        let t = choose|t: int| dir_move_at(b, color, f, r, df, dr, nf, nr, t);
        assert(dir_move_at(b, color, f, r, df, dr, nf, nr, t));
        if t > k {
            match piece {
                Some(p) => {
                    assert(1 <= k < t);
                    assert(cell(b, ray_f(f, df, k), ray_f(r, dr, k)) is None);
                    assert(false);
                },
                None => {
                    lemma_ray_stays_off(f, r, df, dr, k + 1, t);
                    assert(false);
                },
            }
        }
        if t == k {
            match piece {
                Some(p) => {
                    assert(cell(b, nf, nr) == Some(p));
                    assert(p.color != color);
                    assert(kept == k);
                },
                None => {},
            }
        }
        assert(1 <= t <= kept);
        assert(squares[t - 1] == (Square { file: nf as usize, rank: nr as usize }));
        assert(appended[t - 1] == m);
        assert(appended.contains(m));
    }

    assert forall|m: ChessMove| #[trigger] after.contains(m) implies before.contains(m)
        || dir_gen_move_ok(b, color, f, r, df, dr, m) by {
        lemma_concat_contains(before, appended, m);
    }
    assert forall|m: ChessMove| before.contains(m)
        || dir_gen_move_ok(b, color, f, r, df, dr, m) implies after.contains(m) by {
        lemma_concat_contains(before, appended, m);
    }
}

impl Position {
    /// Turn one ray scan's result into moves: one move for each scanned
    /// square, except the last when it holds a piece of the mover's own
    /// color. The captured piece of the blocker-square move is the blocker.
    fn add_look_result(
        &self,
        moves: &mut Vec<ChessMove>,
        color: Color,
        f: usize,
        r: usize,
        look_result: (Vec<Square>, Option<GamePiece>),
    )
        requires
            self.wf(),
            f < 8,
            r < 8,
            forall|j: int| 0 <= j < look_result.0@.len() ==> on_board(
                (#[trigger] look_result.0@[j]).file as int, look_result.0@[j].rank as int),
            forall|j: int| 0 <= j < look_result.0@.len() - 1 ==> cell(
                self.grid(),
                (#[trigger] look_result.0@[j]).file as int,
                look_result.0@[j].rank as int,
            ) is None,
            look_result.1 is Some ==> look_result.0@.len() > 0 && cell(
                self.grid(),
                look_result.0@[look_result.0@.len() - 1].file as int,
                look_result.0@[look_result.0@.len() - 1].rank as int,
            ) == look_result.1,
            look_result.1 is None ==> forall|j: int| 0 <= j < look_result.0@.len() ==> cell(
                self.grid(),
                (#[trigger] look_result.0@[j]).file as int,
                look_result.0@[j].rank as int,
            ) is None,
        ensures
            final(moves)@ == old(moves)@ + Seq::new(
                kept_len(look_result.0@, look_result.1, color) as nat,
                |t: int| gen_move(
                    self.grid(),
                    f as int,
                    r as int,
                    look_result.0@[t].file as int,
                    look_result.0@[t].rank as int,
                ),
            ),
    {
        let ghost sq = look_result.0@;
        let ghost kept = kept_len(look_result.0@, look_result.1, color);
        let ghost base = old(moves)@;
        let (squares, piece) = look_result;
        let moved = self.board[r][f];
        let len = squares.len();
        let mut i: usize = 0;
        while i < len
            invariant
                self.wf(),
                f < 8,
                r < 8,
                i <= len,
                len == sq.len(),
                squares@ == sq,
                piece == look_result.1,
                moved == cell(self.grid(), f as int, r as int),
                kept == kept_len(sq, piece, color),
                forall|j: int| 0 <= j < sq.len() ==> on_board(
                    (#[trigger] sq[j]).file as int, sq[j].rank as int),
                forall|j: int| 0 <= j < sq.len() - 1 ==> cell(
                    self.grid(), (#[trigger] sq[j]).file as int, sq[j].rank as int) is None,
                piece is Some ==> sq.len() > 0 && cell(
                    self.grid(),
                    sq[sq.len() - 1].file as int,
                    sq[sq.len() - 1].rank as int,
                ) == piece,
                piece is None ==> forall|j: int| 0 <= j < sq.len() ==> cell(
                    self.grid(), (#[trigger] sq[j]).file as int, sq[j].rank as int) is None,
                moves@.len() == base.len() + (if i < len { i as int } else { kept }),
                forall|j: int| 0 <= j < base.len() ==> moves@[j] == base[j],
                forall|t: int| 0 <= t < moves@.len() - base.len() ==> moves@[base.len() + t]
                    == gen_move(
                        self.grid(),
                        f as int,
                        r as int,
                        (#[trigger] sq[t]).file as int,
                        sq[t].rank as int,
                    ),
            decreases len - i,
        {
            let skip = i == len - 1 && piece.is_some() && match (piece, color) {
                (Some(p), c) => p.color == c,
                _ => false,
            };
            if !skip {
                let s = squares[i];
                let captured = if i == len - 1 { piece } else { None };
                moves.push(ChessMove::new(moved, f, r, s.file, s.rank, None, captured));
            }
            i = i + 1;
        }
        proof {
            assert(moves@ =~= base + Seq::new(
                kept as nat,
                |t: int| gen_move(
                    self.grid(), f as int, r as int, sq[t].file as int, sq[t].rank as int),
            ));
        }
    }

    /// The rook's moves from (f, r): slides along the four orthogonal rays.
    pub fn get_rook_moves(&self, f: usize, r: usize, color: Color) -> (moves: Vec<ChessMove>)
        requires
            self.wf(),
            f < 8,
            r < 8,
        ensures
            forall|m: ChessMove| #[trigger] moves@.contains(m) <==> rook_gen_ok(
                self.grid(), color, f as int, r as int, m),
    {
        let mut moves: Vec<ChessMove> = Vec::new();
        let ghost b = self.grid();

        let look = self.look_right(f, r);
        let ghost sq0 = look.0@;
        let ghost p0 = look.1;
        let ghost g0 = moves@;
        proof { lemma_ray_result_squares(b, f as int, r as int, 1, 0, sq0, p0); }
        self.add_look_result(&mut moves, color, f, r, look);
        proof { lemma_ray_moves(b, color, f as int, r as int, 1, 0, sq0, p0, g0, moves@); }

        let look = self.look_left(f, r);
        let ghost sq1 = look.0@;
        let ghost p1 = look.1;
        let ghost g1 = moves@;
        proof { lemma_ray_result_squares(b, f as int, r as int, -1, 0, sq1, p1); }
        self.add_look_result(&mut moves, color, f, r, look);
        proof { lemma_ray_moves(b, color, f as int, r as int, -1, 0, sq1, p1, g1, moves@); }

        let look = self.look_up(f, r);
        let ghost sq2 = look.0@;
        let ghost p2 = look.1;
        let ghost g2 = moves@;
        proof { lemma_ray_result_squares(b, f as int, r as int, 0, 1, sq2, p2); }
        self.add_look_result(&mut moves, color, f, r, look);
        proof { lemma_ray_moves(b, color, f as int, r as int, 0, 1, sq2, p2, g2, moves@); }

        let look = self.look_down(f, r);
        let ghost sq3 = look.0@;
        let ghost p3 = look.1;
        let ghost g3 = moves@;
        proof { lemma_ray_result_squares(b, f as int, r as int, 0, -1, sq3, p3); }
        self.add_look_result(&mut moves, color, f, r, look);
        proof { lemma_ray_moves(b, color, f as int, r as int, 0, -1, sq3, p3, g3, moves@); }

        moves
    }

    /// The bishop's moves from (f, r): slides along the four diagonal rays.
    pub fn get_bishop_moves(&self, f: usize, r: usize, color: Color) -> (moves: Vec<ChessMove>)
        requires
            self.wf(),
            f < 8,
            r < 8,
        ensures
            forall|m: ChessMove| #[trigger] moves@.contains(m) <==> bishop_gen_ok(
                self.grid(), color, f as int, r as int, m),
    {
        let mut moves: Vec<ChessMove> = Vec::new();
        let ghost b = self.grid();

        let look = self.look_up_right(f, r);
        let ghost sq0 = look.0@;
        let ghost p0 = look.1;
        let ghost g0 = moves@;
        proof { lemma_ray_result_squares(b, f as int, r as int, 1, 1, sq0, p0); }
        self.add_look_result(&mut moves, color, f, r, look);
        proof { lemma_ray_moves(b, color, f as int, r as int, 1, 1, sq0, p0, g0, moves@); }

        let look = self.look_up_left(f, r);
        let ghost sq1 = look.0@;
        let ghost p1 = look.1;
        let ghost g1 = moves@;
        proof { lemma_ray_result_squares(b, f as int, r as int, -1, 1, sq1, p1); }
        self.add_look_result(&mut moves, color, f, r, look);
        proof { lemma_ray_moves(b, color, f as int, r as int, -1, 1, sq1, p1, g1, moves@); }

        let look = self.look_down_right(f, r);
        let ghost sq2 = look.0@;
        let ghost p2 = look.1;
        let ghost g2 = moves@;
        proof { lemma_ray_result_squares(b, f as int, r as int, 1, -1, sq2, p2); }
        self.add_look_result(&mut moves, color, f, r, look);
        proof { lemma_ray_moves(b, color, f as int, r as int, 1, -1, sq2, p2, g2, moves@); }

        let look = self.look_down_left(f, r);
        let ghost sq3 = look.0@;
        let ghost p3 = look.1;
        let ghost g3 = moves@;
        proof { lemma_ray_result_squares(b, f as int, r as int, -1, -1, sq3, p3); }
        self.add_look_result(&mut moves, color, f, r, look);
        proof { lemma_ray_moves(b, color, f as int, r as int, -1, -1, sq3, p3, g3, moves@); }

        moves
    }

    /// The queen's moves from (f, r): the rook's and the bishop's together.
    pub fn get_queen_moves(&self, f: usize, r: usize, color: Color) -> (moves: Vec<ChessMove>)
        requires
            self.wf(),
            f < 8,
            r < 8,
        ensures
            forall|m: ChessMove| #[trigger] moves@.contains(m) <==> rook_gen_ok(
                self.grid(), color, f as int, r as int, m)
                || bishop_gen_ok(self.grid(), color, f as int, r as int, m),
    {
        let mut moves = self.get_rook_moves(f, r, color);
        let mut diagonal = self.get_bishop_moves(f, r, color);
        let ghost g0 = moves@;
        let ghost g1 = diagonal@;
        moves.append(&mut diagonal);
        proof {
            assert forall|m: ChessMove| #[trigger] moves@.contains(m) <==> g0.contains(m)
                || g1.contains(m) by {
                lemma_concat_contains(g0, g1, m);
            }
        }
        moves
    }
}

/// A one-square candidate: the square itself when it is on the board, and
/// nothing otherwise.
pub open spec fn maybe_sq(nf: int, nr: int) -> Seq<Square> {
    if on_board(nf, nr) {
        seq![Square { file: nf as usize, rank: nr as usize }]
    } else {
        Seq::<Square>::empty()
    }
}

/// The on-board squares a knight on (f, r) may jump to, in scan order:
/// the right, left, forward and backward L-shaped pairs.
pub open spec fn l_squares(f: int, r: int) -> Seq<Square> {
    maybe_sq(f + 2, r + 1) + maybe_sq(f + 2, r - 1) + maybe_sq(f - 2, r + 1)
        + maybe_sq(f - 2, r - 1) + maybe_sq(f + 1, r + 2) + maybe_sq(f - 1, r + 2)
        + maybe_sq(f + 1, r - 2) + maybe_sq(f - 1, r - 2)
}

/// The L-shaped candidate squares are exactly the on-board knight jumps.
#[verifier::rlimit(100)]
proof fn lemma_l_squares_contains(f: int, r: int, s: Square)
    requires
        on_board(f, r),
    ensures
        l_squares(f, r).contains(s) <==> (knight_jump(f, r, s.file as int, s.rank as int)
            && on_board(s.file as int, s.rank as int)),
{
    let l = l_squares(f, r);
    let c0 = maybe_sq(f + 2, r + 1);
    let c1 = maybe_sq(f + 2, r - 1);
    let c2 = maybe_sq(f - 2, r + 1);
    let c3 = maybe_sq(f - 2, r - 1);
    let c4 = maybe_sq(f + 1, r + 2);
    let c5 = maybe_sq(f - 1, r + 2);
    let c6 = maybe_sq(f + 1, r - 2);
    let c7 = maybe_sq(f - 1, r - 2);
    if l.contains(s) {
        let i = choose|i: int| 0 <= i < l.len() && l[i] == s;
        assert(knight_jump(f, r, s.file as int, s.rank as int)
            && on_board(s.file as int, s.rank as int));
    }
    if knight_jump(f, r, s.file as int, s.rank as int)
        && on_board(s.file as int, s.rank as int) {
        let nf = s.file as int;
        let nr = s.rank as int;
        assert(s == (Square { file: nf as usize, rank: nr as usize }));
        if nf == f + 2 && nr == r + 1 {
            assert(l[0] == s);
        } else if nf == f + 2 && nr == r - 1 {
            assert(l[c0.len() as int] == s);
        } else if nf == f - 2 && nr == r + 1 {
            assert(l[(c0.len() + c1.len()) as int] == s);
        } else if nf == f - 2 && nr == r - 1 {
            assert(l[(c0.len() + c1.len() + c2.len()) as int] == s);
        } else if nf == f + 1 && nr == r + 2 {
            assert(l[(c0.len() + c1.len() + c2.len() + c3.len()) as int] == s);
        } else if nf == f - 1 && nr == r + 2 {
            assert(l[(c0.len() + c1.len() + c2.len() + c3.len() + c4.len()) as int] == s);
        } else if nf == f + 1 && nr == r - 2 {
            assert(l[(c0.len() + c1.len() + c2.len() + c3.len() + c4.len() + c5.len()) as int] == s);
        } else {
            assert(l[(c0.len() + c1.len() + c2.len() + c3.len() + c4.len() + c5.len()
                + c6.len()) as int] == s);
        }
        assert(l.contains(s));
    }
}

/// The moves kept from a list of candidate squares, in scan order: one move
/// per square that lies on the board and is not held by the mover's own
/// side.
pub open spec fn kept_jump_moves(
    b: BoardGrid,
    color: Color,
    f: int,
    r: int,
    squares: Seq<Square>,
) -> Seq<ChessMove>
    decreases squares.len(),
{
    if squares.len() == 0 {
        Seq::<ChessMove>::empty()
    } else {
        let prefix = kept_jump_moves(b, color, f, r, squares.drop_last());
        let s = squares.last();
        if on_board(s.file as int, s.rank as int) && can_occupy(
            b, color, s.file as int, s.rank as int) {
            prefix.push(gen_move(b, f, r, s.file as int, s.rank as int))
        } else {
            prefix
        }
    }
}

/// One candidate king step in scan order: the move onto (nf, nr) when that
/// square is on the board and not held by the mover's own side, and nothing
/// otherwise.
pub open spec fn king_step_moves(
    b: BoardGrid,
    color: Color,
    f: int,
    r: int,
    nf: int,
    nr: int,
) -> Seq<ChessMove> {
    if on_board(nf, nr) && can_occupy(b, color, nf, nr) {
        seq![gen_move(b, f, r, nf, nr)]
    } else {
        Seq::<ChessMove>::empty()
    }
}

/// The king's moves in scan order: right, down right, down, down left,
/// left, up left, up, up right.
pub open spec fn king_moves_seq(b: BoardGrid, color: Color, f: int, r: int) -> Seq<ChessMove> {
    king_step_moves(b, color, f, r, f + 1, r) + king_step_moves(b, color, f, r, f + 1, r - 1)
        + king_step_moves(b, color, f, r, f, r - 1)
        + king_step_moves(b, color, f, r, f - 1, r - 1)
        + king_step_moves(b, color, f, r, f - 1, r)
        + king_step_moves(b, color, f, r, f - 1, r + 1)
        + king_step_moves(b, color, f, r, f, r + 1)
        + king_step_moves(b, color, f, r, f + 1, r + 1)
}

/// The king's move list holds exactly the movegen records of king steps.
#[verifier::rlimit(100)]
proof fn lemma_king_moves_contains(b: BoardGrid, color: Color, f: int, r: int, m: ChessMove)
    requires
        on_board(f, r),
    ensures
        king_moves_seq(b, color, f, r).contains(m) <==> king_gen_ok(b, color, f, r, m),
{
    let w = king_moves_seq(b, color, f, r);
    let s1 = king_step_moves(b, color, f, r, f + 1, r);
    let s2 = king_step_moves(b, color, f, r, f + 1, r - 1);
    let s3 = king_step_moves(b, color, f, r, f, r - 1);
    let s4 = king_step_moves(b, color, f, r, f - 1, r - 1);
    let s5 = king_step_moves(b, color, f, r, f - 1, r);
    let s6 = king_step_moves(b, color, f, r, f - 1, r + 1);
    let s7 = king_step_moves(b, color, f, r, f, r + 1);
    let s8 = king_step_moves(b, color, f, r, f + 1, r + 1);
    if w.contains(m) {
        let idx = choose|idx: int| 0 <= idx < w.len() && w[idx] == m;
        assert(king_gen_ok(b, color, f, r, m));
    }
    if king_gen_ok(b, color, f, r, m) {
        let nf = m.n_file as int;
        let nr = m.n_rank as int;
        if nf == f + 1 && nr == r {
            assert(w[0] == m);
        } else if nf == f + 1 && nr == r - 1 {
            assert(w[s1.len() as int] == m);
        } else if nf == f && nr == r - 1 {
            assert(w[(s1.len() + s2.len()) as int] == m);
        } else if nf == f - 1 && nr == r - 1 {
            assert(w[(s1.len() + s2.len() + s3.len()) as int] == m);
        } else if nf == f - 1 && nr == r {
            assert(w[(s1.len() + s2.len() + s3.len() + s4.len()) as int] == m);
        } else if nf == f - 1 && nr == r + 1 {
            assert(w[(s1.len() + s2.len() + s3.len() + s4.len() + s5.len()) as int] == m);
        } else if nf == f && nr == r + 1 {
            assert(w[(s1.len() + s2.len() + s3.len() + s4.len() + s5.len() + s6.len()) as int]
                == m);
        } else {
            assert(nf == f + 1 && nr == r + 1);
            assert(w[(s1.len() + s2.len() + s3.len() + s4.len() + s5.len() + s6.len()
                + s7.len()) as int] == m);
        }
        assert(w.contains(m));
    }
}

impl Position {
    /// The eight L-shaped candidate squares around (f, r) that lie on the
    /// board, before any occupancy filtering.
    #[verifier::rlimit(100)]
    pub fn look_l(&self, f: usize, r: usize) -> (squares: Vec<Square>)
        requires
            f < 8,
            r < 8,
        ensures
            squares@ == l_squares(f as int, r as int),
    {
        let mut squares: Vec<Square> = Vec::new();

        // Right L moves
        if f + 2 < 8 && r + 1 < 8 {
            squares.push(Square::new(f + 2, r + 1));
        }
        if f + 2 < 8 && r >= 1 {
            squares.push(Square::new(f + 2, r - 1));
        }

        // Left L moves
        if f >= 2 && r + 1 < 8 {
            squares.push(Square::new(f - 2, r + 1));
        }
        if f >= 2 && r >= 1 {
            squares.push(Square::new(f - 2, r - 1));
        }

        // Forward L moves
        if f + 1 < 8 && r + 2 < 8 {
            squares.push(Square::new(f + 1, r + 2));
        }
        if f >= 1 && r + 2 < 8 {
            squares.push(Square::new(f - 1, r + 2));
        }

        // Backward L moves
        if f + 1 < 8 && r >= 2 {
            squares.push(Square::new(f + 1, r - 2));
        }
        if f >= 1 && r >= 2 {
            squares.push(Square::new(f - 1, r - 2));
        }
        proof {
            assert(squares@ =~= l_squares(f as int, r as int));
        }
        squares
    }

    /// Returns whether a piece of `color` can move to the square: it must
    /// lie on the board and not hold a piece of `color`.
    pub fn can_move_to_square(&self, f: isize, r: isize, color: Color) -> (ok: bool)
        requires
            self.wf(),
        ensures
            ok == (on_board(f as int, r as int) && can_occupy(self.grid(), color, f as int, r as int)),
    {
        if f < 0 || f > 7 || r < 0 || r > 7 {
            return false;
        }

        match self.board[r as usize][f as usize] {
            Some(p) => p.color != color,
            None => true,
        }
    }

    /// The knight's moves from (f, r): the on-board L-offset squares not
    /// held by its own side.
    #[verifier::rlimit(100)]
    pub fn get_knight_moves(&self, f: usize, r: usize, color: Color) -> (moves: Vec<ChessMove>)
        requires
            self.wf(),
            f < 8,
            r < 8,
        ensures
            forall|m: ChessMove| #[trigger] moves@.contains(m) <==> knight_gen_ok(
                self.grid(), color, f as int, r as int, m),
            moves@ == kept_jump_moves(self.grid(), color, f as int, r as int, l_squares(
                f as int, r as int)),
    {
        let ghost b = self.grid();
        let mut moves: Vec<ChessMove> = Vec::new();
        let squares = self.look_l(f, r);
        let moved = self.board[r][f];
        let mut i: usize = 0;
        while i < squares.len()
            invariant
                self.wf(),
                f < 8,
                r < 8,
                b == self.grid(),
                i <= squares@.len(),
                squares@ == l_squares(f as int, r as int),
                moved == cell(b, f as int, r as int),
                moves@ == kept_jump_moves(b, color, f as int, r as int, squares@.subrange(
                    0, i as int)),
                forall|m: ChessMove| #[trigger] moves@.contains(m) <==> exists|j: int|
                    0 <= j < i as int
                    && on_board((#[trigger] squares@[j]).file as int, squares@[j].rank as int)
                    && can_occupy(b, color, squares@[j].file as int, squares@[j].rank as int)
                    && m == gen_move(b, f as int, r as int, squares@[j].file as int,
                        squares@[j].rank as int),
            decreases squares@.len() - i,
        {
            let s = squares[i];
            proof {
                lemma_l_squares_contains(f as int, r as int, s);
                assert(squares@.contains(s)) by {
                    assert(squares@[i as int] == s);
                }
            }
            let ghost prev = moves@;
            if self.can_move_to_square(s.file as isize, s.rank as isize, color) {
                let captured = self.board[s.rank][s.file];
                moves.push(ChessMove::new(moved, f, r, s.file, s.rank, None, captured));
            }
            proof {
                let pre = squares@.subrange(0, i as int);
                let cur = squares@.subrange(0, i + 1);
                assert(cur.drop_last() =~= pre);
                assert(cur.last() == s);
                assert(moves@ == kept_jump_moves(b, color, f as int, r as int, cur));
                assert forall|m: ChessMove| #[trigger] moves@.contains(m) <==> exists|j: int|
                    0 <= j < i + 1
                    && on_board((#[trigger] squares@[j]).file as int, squares@[j].rank as int)
                    && can_occupy(b, color, squares@[j].file as int, squares@[j].rank as int)
                    && m == gen_move(b, f as int, r as int, squares@[j].file as int,
                        squares@[j].rank as int) by {
                    lemma_push_contains(
                        prev,
                        gen_move(b, f as int, r as int, s.file as int, s.rank as int),
                        m,
                    );
                    if moves@.contains(m) && !prev.contains(m) {
                        assert(squares@[i as int] == s);
                    }
                }
            }
            i = i + 1;
        }
        proof {
            assert(squares@.subrange(0, squares@.len() as int) =~= squares@);
            assert forall|m: ChessMove| #[trigger] moves@.contains(m) <==> knight_gen_ok(
                b, color, f as int, r as int, m) by {
                if moves@.contains(m) {
                    let j = choose|j: int| 0 <= j < squares@.len()
                        && on_board((#[trigger] squares@[j]).file as int, squares@[j].rank as int)
                        && can_occupy(b, color, squares@[j].file as int, squares@[j].rank as int)
                        && m == gen_move(b, f as int, r as int, squares@[j].file as int,
                            squares@[j].rank as int);
                    assert(squares@.contains(squares@[j]));
                    lemma_l_squares_contains(f as int, r as int, squares@[j]);
                }
                if knight_gen_ok(b, color, f as int, r as int, m) {
                    let nf = m.n_file as int;
                    let nr = m.n_rank as int;
                    let s = Square { file: m.n_file, rank: m.n_rank };
                    lemma_l_squares_contains(f as int, r as int, s);
                    assert(l_squares(f as int, r as int).contains(s));
                    let j = choose|j: int| 0 <= j < squares@.len() && squares@[j] == s;
                    assert(0 <= j < squares@.len()
                        && on_board((#[trigger] squares@[j]).file as int, squares@[j].rank as int)
                        && can_occupy(b, color, squares@[j].file as int, squares@[j].rank as int)
                        && m == gen_move(b, f as int, r as int, squares@[j].file as int,
                            squares@[j].rank as int));
                }
            }
        }
        moves
    }

    /// Push the move to (nf, nr) when that square is on the board and not
    /// held by the mover's own side; otherwise leave the list unchanged.
    fn try_step(
        &self,
        moves: &mut Vec<ChessMove>,
        color: Color,
        f: usize,
        r: usize,
        nf: isize,
        nr: isize,
    )
        requires
            self.wf(),
            f < 8,
            r < 8,
        ensures
            final(moves)@ == old(moves)@ + king_step_moves(
                self.grid(), color, f as int, r as int, nf as int, nr as int),
    {
        let ghost pre = moves@;
        if self.can_move_to_square(nf, nr, color) {
            let moved = self.board[r][f];
            let captured = self.board[nr as usize][nf as usize];
            moves.push(ChessMove::new(moved, f, r, nf as usize, nr as usize, None, captured));
        }
        proof {
            assert(moves@ =~= pre + king_step_moves(
                self.grid(), color, f as int, r as int, nf as int, nr as int));
        }
    }

    /// The king's moves from (f, r): the eight adjacent squares, filtered to
    /// the board and to squares not held by its own side. Castling moves are
    /// not generated.
    #[verifier::rlimit(100)]
    pub fn get_king_moves(&self, f: usize, r: usize, color: Color) -> (moves: Vec<ChessMove>)
        requires
            self.wf(),
            f < 8,
            r < 8,
        ensures
            forall|m: ChessMove| #[trigger] moves@.contains(m) <==> king_gen_ok(
                self.grid(), color, f as int, r as int, m),
            moves@ == king_moves_seq(self.grid(), color, f as int, r as int),
    {
        let ghost b = self.grid();
        let mut moves: Vec<ChessMove> = Vec::new();

        let fi = f as isize;
        let ri = r as isize;

        let ghost g0 = moves@;
        // Right
        self.try_step(&mut moves, color, f, r, fi + 1, ri);
        // Down right
        self.try_step(&mut moves, color, f, r, fi + 1, ri - 1);
        // Down
        self.try_step(&mut moves, color, f, r, fi, ri - 1);
        // Down left
        self.try_step(&mut moves, color, f, r, fi - 1, ri - 1);
        // Left
        self.try_step(&mut moves, color, f, r, fi - 1, ri);
        // Up left
        self.try_step(&mut moves, color, f, r, fi - 1, ri + 1);
        // Up
        self.try_step(&mut moves, color, f, r, fi, ri + 1);
        // Up right
        self.try_step(&mut moves, color, f, r, fi + 1, ri + 1);

        proof {
            let fo = f as int;
            let ro = r as int;
            let s1 = king_step_moves(b, color, fo, ro, fo + 1, ro);
            let s2 = king_step_moves(b, color, fo, ro, fo + 1, ro - 1);
            let s3 = king_step_moves(b, color, fo, ro, fo, ro - 1);
            let s4 = king_step_moves(b, color, fo, ro, fo - 1, ro - 1);
            let s5 = king_step_moves(b, color, fo, ro, fo - 1, ro);
            let s6 = king_step_moves(b, color, fo, ro, fo - 1, ro + 1);
            let s7 = king_step_moves(b, color, fo, ro, fo, ro + 1);
            let s8 = king_step_moves(b, color, fo, ro, fo + 1, ro + 1);
            assert(g0 + s1 =~= s1);
            assert(moves@ =~= king_moves_seq(b, color, fo, ro));
            assert forall|m: ChessMove| #[trigger] moves@.contains(m) <==> king_gen_ok(
                b, color, fo, ro, m) by {
                lemma_king_moves_contains(b, color, fo, ro, m);
            }
        }
        moves
    }

    /// The pawn's moves from (f, r): a single advance onto an empty square,
    /// a double advance from the start rank across two empty squares, and
    /// diagonal captures of opposing pieces. Promotion and en passant are
    /// not generated, so a pawn on its farthest rank yields nothing.
    pub fn get_pawn_moves(&self, f: usize, r: usize, color: Color) -> (moves: Vec<ChessMove>)
        requires
            self.wf(),
            f < 8,
            r < 8,
        ensures
            forall|m: ChessMove| #[trigger] moves@.contains(m) <==> pawn_gen_ok(
                self.grid(), color, f as int, r as int, m),
    {
        let ghost b = self.grid();
        let mut moves: Vec<ChessMove> = Vec::new();

        if r == 7 && color == Color::White || r == 0 && color == Color::Black {
            return moves;
        }

        let moved = self.board[r][f];
        let r_up = if color == Color::White { r + 1 } else { r - 1 };

        // Possible forward moves
        let ghost g0 = moves@;
        let one_step_allowed = (r == 1 && color == Color::White) || (r == 6 && color == Color::Black)
            || (r > 1 && color == Color::White) || (r < 6 && color == Color::Black);
        if one_step_allowed && self.board[r_up][f].is_none() {
            moves.push(ChessMove::new(moved, f, r, f, r_up, None, None));
        }
        let ghost g1 = moves@;
        if (r == 1 && color == Color::White) || (r == 6 && color == Color::Black) {
            let r_up_2 = if color == Color::White { r + 2 } else { r - 2 };
            if self.board[r_up][f].is_none() && self.board[r_up_2][f].is_none() {
                moves.push(ChessMove::new(moved, f, r, f, r_up_2, None, None));
            }
        }
        let ghost g2 = moves@;

        // Possible captures
        if f >= 1 {
            let capture_piece = self.board[r_up][f - 1];
            match capture_piece {
                Some(p) => if p.color != color {
                    moves.push(ChessMove::new(moved, f, r, f - 1, r_up, None, capture_piece));
                },
                None => {},
            }
        }
        let ghost g3 = moves@;

        let f_right = f + 1;
        if f_right <= 7 {
            let capture_piece = self.board[r_up][f_right];
            match capture_piece {
                Some(p) => if p.color != color {
                    moves.push(ChessMove::new(moved, f, r, f_right, r_up, None, capture_piece));
                },
                None => {},
            }
        }

        proof {
            let fo = f as int;
            let ro = r as int;
            let d = pawn_dir(color);
            assert forall|m: ChessMove| #[trigger] moves@.contains(m) <==> pawn_gen_ok(
                b, color, fo, ro, m) by {
                lemma_push_contains(g0, gen_move(b, fo, ro, fo, ro + d), m);
                lemma_push_contains(g1, gen_move(b, fo, ro, fo, ro + 2 * d), m);
                lemma_push_contains(g2, gen_move(b, fo, ro, fo - 1, ro + d), m);
                lemma_push_contains(g3, gen_move(b, fo, ro, fo + 1, ro + d), m);
                if pawn_gen_ok(b, color, fo, ro, m) {
                    let nf = m.n_file as int;
                    let nr = m.n_rank as int;
                    assert(m == gen_move(b, fo, ro, nf, nr));
                    if nf == fo && nr == ro + d {
                        assert(g1.contains(m));
                    } else if nf == fo && nr == ro + 2 * d {
                        assert(g2.contains(m));
                    } else if nf == fo - 1 && nr == ro + d {
                        assert(g3.contains(m));
                    } else {
                        assert(nf == fo + 1 && nr == ro + d);
                        assert(moves@.contains(m));
                    }
                }
            }
        }
        moves
    }

    /// The moves of whatever piece stands on (f, r); an empty square yields
    /// no moves.
    fn get_moves_at(&self, f: usize, r: usize) -> (moves: Vec<ChessMove>)
        requires
            self.wf(),
            f < 8,
            r < 8,
        ensures
            forall|m: ChessMove| #[trigger] moves@.contains(m) <==> square_gen_ok(
                self.grid(), f as int, r as int, m),
    {
        let piece = self.board[r][f];
        if piece.is_none() {
            let empty: Vec<ChessMove> = Vec::new();
            return empty;
        }
        let piece = piece.unwrap();
        match piece.piece {
            Piece::Pawn => self.get_pawn_moves(f, r, piece.color),
            Piece::Rook => self.get_rook_moves(f, r, piece.color),
            Piece::Knight => self.get_knight_moves(f, r, piece.color),
            Piece::Bishop => self.get_bishop_moves(f, r, piece.color),
            Piece::Queen => self.get_queen_moves(f, r, piece.color),
            Piece::King => self.get_king_moves(f, r, piece.color),
        }
    }
}

/// Whether the first piece hit along a ray threatens the scanned square: an
/// opposing piece of one of the two given kinds.
fn hits_ray(p: Option<GamePiece>, color: Color, k1: Piece, k2: Piece) -> (res: bool)
    ensures
        res == match p {
            Some(gp) => gp.color != color && (gp.piece == k1 || gp.piece == k2),
            None => false,
        },
{
    match p {
        Some(gp) => gp.color != color && (gp.piece == k1 || gp.piece == k2),
        None => false,
    }
}

/// The first hit of a ray scan decides the ray threat: the threat holds if
/// and only if the scan stopped on an opposing piece of a matching kind.
proof fn lemma_ray_first_hit(
    b: BoardGrid,
    color: Color,
    f: int,
    r: int,
    df: int,
    dr: int,
    squares: Seq<Square>,
    piece: Option<GamePiece>,
    k1: Piece,
    k2: Piece,
)
    requires
        -1 <= df <= 1,
        -1 <= dr <= 1,
        !(df == 0 && dr == 0),
        0 <= f < 8,
        0 <= r < 8,
        ray_result_ok(b, f, r, df, dr, squares, piece),
    ensures
        ray_threat(b, color, f, r, df, dr, k1, k2) == match piece {
            Some(p) => p.color != color && (p.piece == k1 || p.piece == k2),
            None => false,
        },
{
    let k = squares.len() as int;
    if ray_threat(b, color, f, r, df, dr, k1, k2) {
        let t = choose|t: int| ray_threat_at(b, color, f, r, df, dr, k1, k2, t);
        assert(ray_threat_at(b, color, f, r, df, dr, k1, k2, t));
        if t > k {
            match piece {
                Some(p) => {
                    assert(1 <= k < t);
                    assert(cell(b, ray_f(f, df, k), ray_f(r, dr, k)) is None);
                    assert(false);
                },
                None => {
                    lemma_ray_stays_off(f, r, df, dr, k + 1, t);
                    assert(false);
                },
            }
        }
        if t < k {
            assert(cell(b, ray_f(f, df, t), ray_f(r, dr, t)) is None);
            assert(false);
        }
        assert(t == k);
        match piece {
            Some(p) => {
                assert(cell(b, ray_f(f, df, k), ray_f(r, dr, k)) == Some(p));
            },
            None => {
                assert(cell(b, ray_f(f, df, k), ray_f(r, dr, k)) is None);
                assert(false);
            },
        }
    }
    match piece {
        Some(p) => {
            if p.color != color && (p.piece == k1 || p.piece == k2) {
                assert(ray_threat_at(b, color, f, r, df, dr, k1, k2, k));
                assert(ray_threat(b, color, f, r, df, dr, k1, k2));
            }
        },
        None => {},
    }
}

impl Position {
    /// Whether the given kind and color of piece stands on (nf, nr); squares
    /// off the board hold nothing.
    fn piece_at(&self, nf: isize, nr: isize, piece: Piece, color: Color) -> (res: bool)
        requires
            self.wf(),
        ensures
            res == (on_board(nf as int, nr as int)
                && cell(self.grid(), nf as int, nr as int) == Some(GamePiece { piece, color })),
    {
        if nf < 0 || nf > 7 || nr < 0 || nr > 7 {
            return false;
        }
        match self.board[nr as usize][nf as usize] {
            Some(p) => p.piece == piece && p.color == color,
            None => false,
        }
    }

    /// Whether an opposing knight stands a knight's jump away from (f, r).
    fn knight_attack(&self, f: usize, r: usize, color: Color) -> (res: bool)
        requires
            self.wf(),
            f < 8,
            r < 8,
        ensures
            res == knight_threat(self.grid(), color, f as int, r as int),
    {
        let ghost b = self.grid();
        let opp = color.opp_color();
        let fi = f as isize;
        let ri = r as isize;
        let found = self.piece_at(fi + 2, ri + 1, Piece::Knight, opp)
            || self.piece_at(fi + 2, ri - 1, Piece::Knight, opp)
            || self.piece_at(fi - 2, ri + 1, Piece::Knight, opp)
            || self.piece_at(fi - 2, ri - 1, Piece::Knight, opp)
            || self.piece_at(fi + 1, ri + 2, Piece::Knight, opp)
            || self.piece_at(fi - 1, ri + 2, Piece::Knight, opp)
            || self.piece_at(fi + 1, ri - 2, Piece::Knight, opp)
            || self.piece_at(fi - 1, ri - 2, Piece::Knight, opp);
        proof {
            let fo = f as int;
            let ro = r as int;
            if found {
                assert(knight_threat(b, color, fo, ro));
            }
            if knight_threat(b, color, fo, ro) {
                let (nf, nr): (int, int) = choose|nf: int, nr: int|
                    knight_jump(fo, ro, nf, nr) && on_board(nf, nr)
                        && cell(b, nf, nr) == Some(
                        GamePiece { piece: Piece::Knight, color: color.opposite() },
                    );
                assert(found);
            }
        }
        found
    }

    /// Whether an opposing pawn attacks (f, r) from one square diagonally
    /// toward it.
    fn pawn_attack(&self, f: usize, r: usize, color: Color) -> (res: bool)
        requires
            self.wf(),
            f < 8,
            r < 8,
        ensures
            res == pawn_threat(self.grid(), color, f as int, r as int),
    {
        let opp = color.opp_color();
        let fi = f as isize;
        // the rank an attacking pawn of the opposing side stands on
        let pr: isize = match opp {
            Color::White => r as isize - 1,
            Color::Black => r as isize + 1,
        };
        self.piece_at(fi - 1, pr, Piece::Pawn, opp) || self.piece_at(fi + 1, pr, Piece::Pawn, opp)
    }

    /// Returns whether the square (f, r) is attacked by the side opposing
    /// `color`: it scans the four orthogonal rays for an opposing rook or
    /// queen as the first piece hit, the four diagonal rays for an opposing
    /// bishop or queen, and tests knight and pawn attacks by direct offsets.
    pub fn in_check(&self, f: usize, r: usize, color: Color) -> (res: bool)
        requires
            self.wf(),
            f < 8,
            r < 8,
        ensures
            res == square_attacked(self.grid(), color, f as int, r as int),
    {
        let ghost b = self.grid();

        let look = self.look_up(f, r);
        proof {
            lemma_ray_first_hit(
                b, color, f as int, r as int, 0, 1, look.0@, look.1, Piece::Rook, Piece::Queen);
        }
        let up = hits_ray(look.1, color, Piece::Rook, Piece::Queen);

        let look = self.look_right(f, r);
        proof {
            lemma_ray_first_hit(
                b, color, f as int, r as int, 1, 0, look.0@, look.1, Piece::Rook, Piece::Queen);
        }
        let right = hits_ray(look.1, color, Piece::Rook, Piece::Queen);

        let look = self.look_down(f, r);
        proof {
            lemma_ray_first_hit(
                b, color, f as int, r as int, 0, -1, look.0@, look.1, Piece::Rook, Piece::Queen);
        }
        let down = hits_ray(look.1, color, Piece::Rook, Piece::Queen);

        let look = self.look_left(f, r);
        proof {
            lemma_ray_first_hit(
                b, color, f as int, r as int, -1, 0, look.0@, look.1, Piece::Rook, Piece::Queen);
        }
        let left = hits_ray(look.1, color, Piece::Rook, Piece::Queen);

        let look = self.look_up_right(f, r);
        proof {
            lemma_ray_first_hit(
                b, color, f as int, r as int, 1, 1, look.0@, look.1, Piece::Bishop, Piece::Queen);
        }
        let up_right = hits_ray(look.1, color, Piece::Bishop, Piece::Queen);

        let look = self.look_down_right(f, r);
        proof {
            lemma_ray_first_hit(
                b, color, f as int, r as int, 1, -1, look.0@, look.1, Piece::Bishop, Piece::Queen);
        }
        let down_right = hits_ray(look.1, color, Piece::Bishop, Piece::Queen);

        let look = self.look_down_left(f, r);
        proof {
            lemma_ray_first_hit(
                b, color, f as int, r as int, -1, -1, look.0@, look.1, Piece::Bishop, Piece::Queen);
        }
        let down_left = hits_ray(look.1, color, Piece::Bishop, Piece::Queen);

        let look = self.look_up_left(f, r);
        proof {
            lemma_ray_first_hit(
                b, color, f as int, r as int, -1, 1, look.0@, look.1, Piece::Bishop, Piece::Queen);
        }
        let up_left = hits_ray(look.1, color, Piece::Bishop, Piece::Queen);

        let knight = self.knight_attack(f, r, color);
        let pawn = self.pawn_attack(f, r, color);

        up || right || down || left || up_right || down_right || down_left || up_left
            || knight || pawn
    }

    /// Find the first square in board order holding `color`'s king.
    pub fn get_king_square(&self, color: Color) -> (sq: Square)
        requires
            self.wf(),
            has_king(self.grid(), color),
        ensures
            first_king_at(self.grid(), color, sq.file as int, sq.rank as int),
    {
        let ghost b = self.grid();
        let mut r: usize = 0;
        while r < 8
            invariant
                self.wf(),
                b == self.grid(),
                r <= 8,
                has_king(b, color),
                forall|f2: int, r2: int| 0 <= r2 < r && 0 <= f2 < 8 ==> !is_king_at(b, color, f2, r2),
            decreases 8 - r,
        {
            let mut f: usize = 0;
            while f < 8
                invariant
                    self.wf(),
                    b == self.grid(),
                    r < 8,
                    f <= 8,
                    forall|f2: int, r2: int| 0 <= r2 < r && 0 <= f2 < 8 ==> !is_king_at(b, color, f2, r2),
                    forall|f2: int| 0 <= f2 < f ==> !is_king_at(b, color, f2, r as int),
                decreases 8 - f,
            {
                match self.board[r][f] {
                    Some(p) => {
                        if p.piece == Piece::King && p.color == color {
                            return Square::new(f, r);
                        }
                    },
                    None => {},
                }
                f = f + 1;
            }
            r = r + 1;
        }
        proof {
            let (kf, kr): (int, int) = choose|kf: int, kr: int| is_king_at(b, color, kf, kr);
            assert(false);
        }
        Square::new(0, 0)
    }

    /// Returns whether playing the move would leave `color`'s own king on an
    /// attacked square: it plays the move, looks the king up, tests the
    /// attack, and unconditionally rolls the move back, leaving the board
    /// exactly as it was.
    pub fn causes_check(&mut self, m: &ChessMove, color: Color) -> (res: bool)
        requires
            old(self).wf(),
            m.in_range(),
            has_king(grid_after(old(self).grid(), *m), color),
        ensures
            final(self).wf(),
            final(self).grid() == old(self).grid(),
            final(self).o_o_o_white == old(self).o_o_o_white,
            final(self).o_o_white == old(self).o_o_white,
            final(self).o_o_o_black == old(self).o_o_o_black,
            final(self).o_o_black == old(self).o_o_black,
            res == move_causes_check(old(self).grid(), *m, color),
    {
        let ghost b0 = self.grid();
        let ghost b2 = grid_after(b0, *m);
        let old_piece = self.board[m.o_rank][m.o_file];
        let captured_piece = self.board[m.n_rank][m.n_file];
        let mut to_return = false;

        let moved = self.make_move(m);
        proof {
            assert(moved is Ok);
            assert forall|rr: int| 0 <= rr < 8 implies self.grid()[rr] =~= b2[rr] by {
                assert forall|ff: int| 0 <= ff < 8 implies self.grid()[rr][ff] == b2[rr][ff] by {
                    assert(on_board(ff, rr));
                    assert(self.at(ff, rr) == cell_after(b0, *m, ff, rr));
                }
            }
            assert(self.grid() =~~= b2);
        }
        let king_square = self.get_king_square(color);
        if self.in_check(king_square.file, king_square.rank, color) {
            to_return = true;
        }

        // Roll back the move.
        self.board[m.o_rank][m.o_file] = old_piece;
        self.board[m.n_rank][m.n_file] = captured_piece;
        proof {
            lemma_make_move_rollback(b0, *m);
            assert(self.grid() =~~= grid_restored(b2, *m, old_piece, captured_piece));

            let kf = king_square.file as int;
            let kr = king_square.rank as int;
            if to_return {
                assert(move_causes_check(b0, *m, color));
            }
            if move_causes_check(b0, *m, color) {
                let (f2, r2): (int, int) = choose|f2: int, r2: int|
                    first_king_at(b2, color, f2, r2) && square_attacked(b2, color, f2, r2);
                lemma_first_king_unique(b2, color, f2, r2, kf, kr);
                assert(to_return);
            }
        }
        to_return
    }

    /// All fully legal moves for `color`: every move each of `color`'s
    /// pieces can make by its movement rule, except those that would leave
    /// `color`'s own king in check. The board is handed back exactly as it
    /// was.
    pub fn get_moves(&mut self, color: Color) -> (valid_moves: Vec<ChessMove>)
        requires
            old(self).wf(),
            has_king(old(self).grid(), color),
        ensures
            final(self).wf(),
            final(self).grid() == old(self).grid(),
            final(self).o_o_o_white == old(self).o_o_o_white,
            final(self).o_o_white == old(self).o_o_white,
            final(self).o_o_o_black == old(self).o_o_o_black,
            final(self).o_o_black == old(self).o_o_black,
            forall|m: ChessMove| #[trigger] valid_moves@.contains(m) <==> legal_move(
                old(self).grid(), color, m),
    {
        let ghost b = self.grid();
        let mut moves: Vec<ChessMove> = Vec::with_capacity(20);

        /* Only pieces can make moves in chess, so we iterate through the board
        and check for pieces. If a piece is found, we then check for legal
        moves for that piece. */
        let mut r: usize = 0;
        while r < 8
            invariant
                *self == *old(self),
                self.wf(),
                b == self.grid(),
                r <= 8,
                forall|m: ChessMove| #[trigger] moves@.contains(m) <==> (pseudo_move_ok(b, color, m)
                    && earlier_square(m.o_file as int, m.o_rank as int, 0, r as int)),
            decreases 8 - r,
        {
            let mut f: usize = 0;
            while f < 8
                invariant
                    *self == *old(self),
                    self.wf(),
                    b == self.grid(),
                    r < 8,
                    f <= 8,
                    forall|m: ChessMove| #[trigger] moves@.contains(m) <==> (pseudo_move_ok(b, color, m)
                        && earlier_square(m.o_file as int, m.o_rank as int, f as int, r as int)),
                decreases 8 - f,
            {
                let ghost before = moves@;
                match self.board[r][f] {
                    Some(p) => {
                        if p.color == color {
                            let mut sub = self.get_moves_at(f, r);
                            let ghost subv = sub@;
                            moves.append(&mut sub);
                            proof {
                                assert forall|m: ChessMove| #[trigger] moves@.contains(m)
                                    <==> before.contains(m) || subv.contains(m) by {
                                    lemma_concat_contains(before, subv, m);
                                }
                            }
                        }
                    },
                    None => {},
                }
                f = f + 1;
            }
            r = r + 1;
        }

        // Prune moves which lead to checks.
        let mut valid_moves: Vec<ChessMove> = Vec::with_capacity(20);
        let mut i: usize = 0;
        while i < moves.len()
            invariant
                self.wf(),
                b == self.grid(),
                self.o_o_o_white == old(self).o_o_o_white,
                self.o_o_white == old(self).o_o_white,
                self.o_o_o_black == old(self).o_o_o_black,
                self.o_o_black == old(self).o_o_black,
                has_king(b, color),
                i <= moves@.len(),
                forall|m: ChessMove| #[trigger] moves@.contains(m) <==> pseudo_move_ok(b, color, m),
                forall|m: ChessMove| #[trigger] valid_moves@.contains(m) <==> ((exists|j: int|
                    0 <= j < i as int && #[trigger] moves@[j] == m)
                    && !move_causes_check(b, m, color)),
            decreases moves@.len() - i,
        {
            let m = moves[i];
            proof {
                assert(moves@.contains(m)) by {
                    assert(moves@[i as int] == m);
                }
                lemma_pseudo_in_range(b, color, m);
                lemma_pseudo_keeps_king(b, color, m);
            }
            let ghost gprev = valid_moves@;
            if !self.causes_check(&m, color) {
                valid_moves.push(m);
            }
            proof {
                assert forall|m2: ChessMove| #[trigger] valid_moves@.contains(m2) <==> ((exists|j: int|
                    0 <= j < i + 1 && #[trigger] moves@[j] == m2)
                    && !move_causes_check(b, m2, color)) by {
                    lemma_push_contains(gprev, m, m2);
                    if valid_moves@.contains(m2) && !gprev.contains(m2) {
                        assert(moves@[i as int] == m2);
                    }
                }
            }
            i = i + 1;
        }
        proof {
            assert forall|m: ChessMove| #[trigger] valid_moves@.contains(m) <==> legal_move(
                b, color, m) by {
                if valid_moves@.contains(m) {
                    let j = choose|j: int| 0 <= j < moves@.len() && #[trigger] moves@[j] == m;
                    assert(moves@.contains(m));
                }
                if legal_move(b, color, m) {
                    assert(pseudo_move_ok(b, color, m));
                    assert(moves@.contains(m));
                    let j = choose|j: int| 0 <= j < moves@.len() && moves@[j] == m;
                    assert(0 <= j < moves@.len() && #[trigger] moves@[j] == m);
                }
            }
        }
        valid_moves
    }
}

} // verus!
