use vstd::prelude::*;

use crate::chess_move::ChessMove;
use crate::color::Color;
use crate::game_piece::{GamePiece, Piece};

verus! {

/// The abstract contents of the board: eight ranks, each of eight files,
/// indexed `[rank][file]`, each square empty or holding a piece.
pub type BoardGrid = Seq<Seq<Option<GamePiece>>>;

/// The grid has eight ranks of eight files each.
pub open spec fn grid_wf(b: BoardGrid) -> bool {
    b.len() == 8 && forall|r: int| 0 <= r < 8 ==> (#[trigger] b[r]).len() == 8
}

/// Whether file f and rank r name a square of the board.
pub open spec fn on_board(f: int, r: int) -> bool {
    0 <= f < 8 && 0 <= r < 8
}

/// The contents of the square of file f and rank r.
pub open spec fn cell(b: BoardGrid, f: int, r: int) -> Option<GamePiece> {
    b[r][f]
}

/// Whether a piece of `color` may land on (f, r): the square is empty or
/// holds an opposing piece.
pub open spec fn can_occupy(b: BoardGrid, color: Color, f: int, r: int) -> bool {
    match cell(b, f, r) {
        Some(p) => p.color != color,
        None => true,
    }
}

/// Whether (f, r) holds a piece of the side opposing `color`.
pub open spec fn holds_enemy(b: BoardGrid, color: Color, f: int, r: int) -> bool {
    match cell(b, f, r) {
        Some(p) => p.color != color,
        None => false,
    }
}

/// The contents of square (f, r) after `m` has been played on `b`: the
/// destination square receives whatever stood on the origin, the origin
/// square is cleared, and every other square keeps its contents.
pub open spec fn cell_after(b: BoardGrid, m: ChessMove, f: int, r: int) -> Option<GamePiece> {
    if f == m.n_file as int && r == m.n_rank as int {
        cell(b, m.o_file as int, m.o_rank as int)
    } else if f == m.o_file as int && r == m.o_rank as int {
        None
    } else {
        cell(b, f, r)
    }
}

/// The whole grid after `m` has been played on `b`.
pub open spec fn grid_after(b: BoardGrid, m: ChessMove) -> BoardGrid {
    Seq::new(8, |r: int| Seq::new(8, |f: int| cell_after(b, m, f, r)))
}

/// The grid after the origin and destination squares of `m` have been put
/// back to the given contents, as the rollback of a move does.
pub open spec fn grid_restored(
    b: BoardGrid,
    m: ChessMove,
    origin: Option<GamePiece>,
    destination: Option<GamePiece>,
) -> BoardGrid {
    Seq::new(8, |r: int| Seq::new(8, |f: int|
        if f == m.n_file as int && r == m.n_rank as int {
            destination
        } else if f == m.o_file as int && r == m.o_rank as int {
            origin
        } else {
            cell(b, f, r)
        }))
}

/// Making a move and then restoring its origin and destination squares to
/// their pre-move contents returns the grid, square for square, to its
/// pre-move state.
pub proof fn lemma_make_move_rollback(b: BoardGrid, m: ChessMove)
    requires
        grid_wf(b),
        m.in_range(),
    ensures
        grid_restored(
            grid_after(b, m),
            m,
            cell(b, m.o_file as int, m.o_rank as int),
            cell(b, m.n_file as int, m.n_rank as int),
        ) == b,
{
    let restored = grid_restored(
        grid_after(b, m),
        m,
        cell(b, m.o_file as int, m.o_rank as int),
        cell(b, m.n_file as int, m.n_rank as int),
    );
    assert forall|r: int| 0 <= r < 8 implies restored[r] =~= b[r] by {
        assert forall|f: int| 0 <= f < 8 implies restored[r][f] == b[r][f] by {}
    }
    assert(restored =~= b);
}

/// The material value of a square to `color`: the value of a piece of
/// `color` standing there, and zero otherwise.
pub open spec fn square_value(sq: Option<GamePiece>, color: Color) -> int {
    match sq {
        Some(p) => if p.color == color { p.piece.spec_value() as int } else { 0 },
        None => 0,
    }
}

/// The summed material value of `color`'s pieces among the first n squares
/// of a rank.
pub open spec fn row_material(row: Seq<Option<GamePiece>>, color: Color, n: int) -> int
    decreases n,
{
    if n <= 0 {
        0
    } else {
        row_material(row, color, n - 1) + square_value(row[n - 1], color)
    }
}

/// The summed material value of `color`'s pieces in the first n ranks.
pub open spec fn material_upto(b: BoardGrid, color: Color, n: int) -> int
    decreases n,
{
    if n <= 0 {
        0
    } else {
        material_upto(b, color, n - 1) + row_material(b[n - 1], color, 8)
    }
}

/// The summed material value of all of `color`'s pieces on the board.
pub open spec fn material(b: BoardGrid, color: Color) -> int {
    material_upto(b, color, 8)
}

pub proof fn lemma_row_material_bounds(row: Seq<Option<GamePiece>>, color: Color, n: int)
    requires
        0 <= n,
    ensures
        0 <= row_material(row, color, n) <= 200 * n,
    decreases n,
{
    if n > 0 {
        lemma_row_material_bounds(row, color, n - 1);
    }
}

pub proof fn lemma_material_bounds(b: BoardGrid, color: Color, n: int)
    requires
        0 <= n,
    ensures
        0 <= material_upto(b, color, n) <= 1600 * n,
    decreases n,
{
    if n > 0 {
        lemma_material_bounds(b, color, n - 1);
        lemma_row_material_bounds(b[n - 1], color, 8);
    }
}

/// The square of `color`'s king at (f, r).
pub open spec fn is_king_at(b: BoardGrid, color: Color, f: int, r: int) -> bool {
    on_board(f, r) && cell(b, f, r) == Some(GamePiece { piece: Piece::King, color })
}

/// The board holds at least one king of `color`.
pub open spec fn has_king(b: BoardGrid, color: Color) -> bool {
    exists|f: int, r: int| is_king_at(b, color, f, r)
}

/// (f2, r2) comes before (f, r) when the board is walked rank by rank and,
/// within a rank, file by file.
pub open spec fn earlier_square(f2: int, r2: int, f: int, r: int) -> bool {
    r2 < r || (r2 == r && f2 < f)
}

/// (f, r) is the first square in board order holding a king of `color`.
pub open spec fn first_king_at(b: BoardGrid, color: Color, f: int, r: int) -> bool {
    is_king_at(b, color, f, r) && forall|f2: int, r2: int|
        earlier_square(f2, r2, f, r) ==> !is_king_at(b, color, f2, r2)
}

/// There is only one first king square of a color in board order.
pub proof fn lemma_first_king_unique(
    b: BoardGrid, color: Color, f1: int, r1: int, f2: int, r2: int,
)
    requires
        first_king_at(b, color, f1, r1),
        first_king_at(b, color, f2, r2),
    ensures
        f1 == f2 && r1 == r2,
{
    if !(f1 == f2 && r1 == r2) {
        if earlier_square(f1, r1, f2, r2) {
            assert(!is_king_at(b, color, f1, r1));
        } else {
            assert(earlier_square(f2, r2, f1, r1));
            assert(!is_king_at(b, color, f2, r2));
        }
    }
}

/// The file or rank reached after t steps of df from f.
pub open spec fn ray_f(f: int, df: int, t: int) -> int {
    f + df * t
}

/// A step factor of -1, 0 or 1 turns multiplication into negation, zero or
/// identity.
pub proof fn lemma_small_mul(d: int, t: int)
    requires
        -1 <= d <= 1,
    ensures
        d == 1 ==> d * t == t,
        d == -1 ==> d * t == -t,
        d == 0 ==> d * t == 0,
{
    assert(1 * t == t) by (nonlinear_arith);
    assert((-1) * t == -t) by (nonlinear_arith);
    assert(0 * t == 0) by (nonlinear_arith);
}

/// One more step along a ray moves the coordinate by the step factor.
pub proof fn lemma_ray_step(f: int, df: int, t: int)
    ensures
        ray_f(f, df, t + 1) == ray_f(f, df, t) + df,
{
    assert(df * (t + 1) == df * t + df) by (nonlinear_arith);
}

/// A ray that is still on the board after t steps has taken at most seven.
pub proof fn lemma_ray_len_bound(f: int, r: int, df: int, dr: int, t: int)
    requires
        -1 <= df <= 1,
        -1 <= dr <= 1,
        !(df == 0 && dr == 0),
        0 <= f < 8,
        0 <= r < 8,
        0 <= t,
        on_board(ray_f(f, df, t), ray_f(r, dr, t)),
    ensures
        t <= 7,
{
    lemma_small_mul(df, t);
    lemma_small_mul(dr, t);
}

/// Once a ray has left the board it does not come back: a coordinate off
/// its range at step k stays off at every later step.
pub proof fn lemma_ray_stays_off(f: int, r: int, df: int, dr: int, k: int, t: int)
    requires
        -1 <= df <= 1,
        -1 <= dr <= 1,
        0 <= f < 8,
        0 <= r < 8,
        0 <= k <= t,
        !on_board(ray_f(f, df, k), ray_f(r, dr, k)),
    ensures
        !on_board(ray_f(f, df, t), ray_f(r, dr, t)),
{
    lemma_small_mul(df, k);
    lemma_small_mul(dr, k);
    lemma_small_mul(df, t);
    lemma_small_mul(dr, t);
}

/// Membership in a sequence extended by one element.
pub proof fn lemma_push_contains<T>(s: Seq<T>, x: T, m: T)
    ensures
        s.push(x).contains(m) <==> s.contains(m) || m == x,
{
    if s.push(x).contains(m) {
        let i = choose|i: int| 0 <= i < s.push(x).len() && s.push(x)[i] == m;
        if i < s.len() {
            assert(s[i] == m);
        }
    }
    if s.contains(m) {
        let i = choose|i: int| 0 <= i < s.len() && s[i] == m;
        assert(s.push(x)[i] == m);
    }
    if m == x {
        assert(s.push(x)[s.len() as int] == m);
    }
}

/// Along direction (df, dr) from (f, r), distance t reaches (nf, nr), every
/// square strictly between is empty, and the destination square is empty or
/// holds an opposing piece.
pub open spec fn dir_move_at(
    b: BoardGrid, color: Color, f: int, r: int, df: int, dr: int, nf: int, nr: int, t: int,
) -> bool {
    &&& 1 <= t
    &&& nf == ray_f(f, df, t)
    &&& nr == ray_f(r, dr, t)
    &&& on_board(nf, nr)
    &&& forall|u: int| 1 <= u < t ==> cell(b, ray_f(f, df, u), ray_f(r, dr, u)) is None
    &&& can_occupy(b, color, nf, nr)
}

/// (nf, nr) is reachable from (f, r) by a slide along direction (df, dr).
pub open spec fn dir_move_ok(
    b: BoardGrid, color: Color, f: int, r: int, df: int, dr: int, nf: int, nr: int,
) -> bool {
    exists|t: int| dir_move_at(b, color, f, r, df, dr, nf, nr, t)
}

/// `m` is the movegen record of a slide from (f, r) along (df, dr).
pub open spec fn dir_gen_move_ok(
    b: BoardGrid, color: Color, f: int, r: int, df: int, dr: int, m: ChessMove,
) -> bool {
    &&& dir_move_ok(b, color, f, r, df, dr, m.n_file as int, m.n_rank as int)
    &&& m == gen_move(b, f, r, m.n_file as int, m.n_rank as int)
}

/// `m` is the movegen record of a rook slide from (f, r).
pub open spec fn rook_gen_ok(b: BoardGrid, color: Color, f: int, r: int, m: ChessMove) -> bool {
    ||| dir_gen_move_ok(b, color, f, r, 1, 0, m)
    ||| dir_gen_move_ok(b, color, f, r, -1, 0, m)
    ||| dir_gen_move_ok(b, color, f, r, 0, 1, m)
    ||| dir_gen_move_ok(b, color, f, r, 0, -1, m)
}

/// `m` is the movegen record of a bishop slide from (f, r).
pub open spec fn bishop_gen_ok(b: BoardGrid, color: Color, f: int, r: int, m: ChessMove) -> bool {
    ||| dir_gen_move_ok(b, color, f, r, 1, 1, m)
    ||| dir_gen_move_ok(b, color, f, r, -1, 1, m)
    ||| dir_gen_move_ok(b, color, f, r, 1, -1, m)
    ||| dir_gen_move_ok(b, color, f, r, -1, -1, m)
}

/// Membership in a concatenation of two sequences.
pub proof fn lemma_concat_contains<T>(a: Seq<T>, b: Seq<T>, m: T)
    ensures
        (a + b).contains(m) <==> a.contains(m) || b.contains(m),
{
    if (a + b).contains(m) {
        let i = choose|i: int| 0 <= i < (a + b).len() && (a + b)[i] == m;
        if i < a.len() {
            assert(a[i] == m);
        } else {
            assert(b[i - a.len()] == m);
        }
    }
    if a.contains(m) {
        let i = choose|i: int| 0 <= i < a.len() && a[i] == m;
        assert((a + b)[i] == m);
    }
    if b.contains(m) {
        let i = choose|i: int| 0 <= i < b.len() && b[i] == m;
        assert((a + b)[a.len() + i] == m);
    }
}

/// A rook slides along the four orthogonal directions.
pub open spec fn rook_dest_ok(
    b: BoardGrid, color: Color, f: int, r: int, nf: int, nr: int,
) -> bool {
    ||| dir_move_ok(b, color, f, r, 1, 0, nf, nr)
    ||| dir_move_ok(b, color, f, r, -1, 0, nf, nr)
    ||| dir_move_ok(b, color, f, r, 0, 1, nf, nr)
    ||| dir_move_ok(b, color, f, r, 0, -1, nf, nr)
}

/// A bishop slides along the four diagonal directions.
pub open spec fn bishop_dest_ok(
    b: BoardGrid, color: Color, f: int, r: int, nf: int, nr: int,
) -> bool {
    ||| dir_move_ok(b, color, f, r, 1, 1, nf, nr)
    ||| dir_move_ok(b, color, f, r, -1, 1, nf, nr)
    ||| dir_move_ok(b, color, f, r, 1, -1, nf, nr)
    ||| dir_move_ok(b, color, f, r, -1, -1, nf, nr)
}

/// The eight L-shaped knight offsets.
pub open spec fn knight_jump(f: int, r: int, nf: int, nr: int) -> bool {
    ||| (nf == f + 2 && nr == r + 1)
    ||| (nf == f + 2 && nr == r - 1)
    ||| (nf == f - 2 && nr == r + 1)
    ||| (nf == f - 2 && nr == r - 1)
    ||| (nf == f + 1 && nr == r + 2)
    ||| (nf == f - 1 && nr == r + 2)
    ||| (nf == f + 1 && nr == r - 2)
    ||| (nf == f - 1 && nr == r - 2)
}

/// A knight jumps to an on-board L-offset square not held by its own side.
pub open spec fn knight_dest_ok(
    b: BoardGrid, color: Color, f: int, r: int, nf: int, nr: int,
) -> bool {
    knight_jump(f, r, nf, nr) && on_board(nf, nr) && can_occupy(b, color, nf, nr)
}

/// A king steps to one of the eight adjacent on-board squares not held by
/// its own side.
pub open spec fn king_dest_ok(
    b: BoardGrid, color: Color, f: int, r: int, nf: int, nr: int,
) -> bool {
    &&& -1 <= nf - f <= 1
    &&& -1 <= nr - r <= 1
    &&& !(nf == f && nr == r)
    &&& on_board(nf, nr)
    &&& can_occupy(b, color, nf, nr)
}

/// The rank direction `color`'s pawns advance in.
pub open spec fn pawn_dir(color: Color) -> int {
    if color == Color::White { 1 } else { -1 }
}

/// The rank `color`'s pawns start on, from which they may advance two.
pub open spec fn pawn_start_rank(color: Color) -> int {
    if color == Color::White { 1 } else { 6 }
}

/// The farthest rank for `color`'s pawns.
pub open spec fn pawn_last_rank(color: Color) -> int {
    if color == Color::White { 7 } else { 0 }
}

/// A pawn advances one square onto an empty square, advances two from its
/// start rank across two empty squares, or captures one square diagonally
/// forward onto an opposing piece. A pawn standing on its farthest rank
/// yields no moves.
pub open spec fn pawn_dest_ok(
    b: BoardGrid, color: Color, f: int, r: int, nf: int, nr: int,
) -> bool {
    let d = pawn_dir(color);
    &&& r != pawn_last_rank(color)
    &&& {
        ||| (nf == f && nr == r + d && cell(b, f, r + d) is None
            && (r == pawn_start_rank(color)
                || (color == Color::White && r > 1)
                || (color == Color::Black && r < 6)))
        ||| (nf == f && nr == r + 2 * d && r == pawn_start_rank(color)
            && cell(b, f, r + d) is None && cell(b, f, r + 2 * d) is None)
        ||| ((nf == f - 1 || nf == f + 1) && nr == r + d && 0 <= nf < 8
            && holds_enemy(b, color, nf, r + d))
    }
}

/// The movement rule of each piece kind.
pub open spec fn piece_dest_ok(
    b: BoardGrid, p: Piece, color: Color, f: int, r: int, nf: int, nr: int,
) -> bool {
    match p {
        Piece::Pawn => pawn_dest_ok(b, color, f, r, nf, nr),
        Piece::Rook => rook_dest_ok(b, color, f, r, nf, nr),
        Piece::Knight => knight_dest_ok(b, color, f, r, nf, nr),
        Piece::Bishop => bishop_dest_ok(b, color, f, r, nf, nr),
        Piece::Queen => rook_dest_ok(b, color, f, r, nf, nr)
            || bishop_dest_ok(b, color, f, r, nf, nr),
        Piece::King => king_dest_ok(b, color, f, r, nf, nr),
    }
}

/// The move record movegen builds for origin (f, r) and destination
/// (nf, nr): the moved piece is read from the origin square, the captured
/// piece from the destination square, and no promotion is set.
pub open spec fn gen_move(b: BoardGrid, f: int, r: int, nf: int, nr: int) -> ChessMove {
    ChessMove {
        moved_piece: cell(b, f, r),
        o_file: f as usize,
        o_rank: r as usize,
        n_file: nf as usize,
        n_rank: nr as usize,
        promo_piece: None,
        captured_piece: cell(b, nf, nr),
    }
}

/// `m` is one of the moves movegen yields for `color` on `b` before the
/// check filter: a piece of `color` stands on the origin square and the
/// destination obeys that piece's movement rule.
pub open spec fn pseudo_move_ok(b: BoardGrid, color: Color, m: ChessMove) -> bool {
    let f = m.o_file as int;
    let r = m.o_rank as int;
    let nf = m.n_file as int;
    let nr = m.n_rank as int;
    &&& on_board(f, r)
    &&& match cell(b, f, r) {
        Some(p) => p.color == color && piece_dest_ok(b, p.piece, color, f, r, nf, nr),
        None => false,
    }
    &&& m == gen_move(b, f, r, nf, nr)
}

/// `m` is the movegen record of a knight jump from (f, r).
pub open spec fn knight_gen_ok(b: BoardGrid, color: Color, f: int, r: int, m: ChessMove) -> bool {
    &&& knight_dest_ok(b, color, f, r, m.n_file as int, m.n_rank as int)
    &&& m == gen_move(b, f, r, m.n_file as int, m.n_rank as int)
}

/// `m` is the movegen record of a king step from (f, r).
pub open spec fn king_gen_ok(b: BoardGrid, color: Color, f: int, r: int, m: ChessMove) -> bool {
    &&& king_dest_ok(b, color, f, r, m.n_file as int, m.n_rank as int)
    &&& m == gen_move(b, f, r, m.n_file as int, m.n_rank as int)
}

/// `m` is the movegen record of a pawn move from (f, r).
pub open spec fn pawn_gen_ok(b: BoardGrid, color: Color, f: int, r: int, m: ChessMove) -> bool {
    &&& pawn_dest_ok(b, color, f, r, m.n_file as int, m.n_rank as int)
    &&& m == gen_move(b, f, r, m.n_file as int, m.n_rank as int)
}

/// `m` is one of the moves movegen yields for the piece standing on (f, r),
/// whatever its color.
pub open spec fn square_gen_ok(b: BoardGrid, f: int, r: int, m: ChessMove) -> bool {
    match cell(b, f, r) {
        Some(p) => match p.piece {
            Piece::Pawn => pawn_gen_ok(b, p.color, f, r, m),
            Piece::Rook => rook_gen_ok(b, p.color, f, r, m),
            Piece::Knight => knight_gen_ok(b, p.color, f, r, m),
            Piece::Bishop => bishop_gen_ok(b, p.color, f, r, m),
            Piece::Queen => rook_gen_ok(b, p.color, f, r, m)
                || bishop_gen_ok(b, p.color, f, r, m),
            Piece::King => king_gen_ok(b, p.color, f, r, m),
        },
        None => false,
    }
}

/// Every move movegen yields has all four coordinates on the board.
pub proof fn lemma_pseudo_in_range(b: BoardGrid, color: Color, m: ChessMove)
    requires
        pseudo_move_ok(b, color, m),
    ensures
        m.in_range(),
        on_board(m.n_file as int, m.n_rank as int),
{
    let f = m.o_file as int;
    let r = m.o_rank as int;
    let nf = m.n_file as int;
    let nr = m.n_rank as int;
    let p = cell(b, f, r)->Some_0;
    match p.piece {
        Piece::Pawn => {
            assert(pawn_dest_ok(b, color, f, r, nf, nr));
            assert(on_board(nf, nr));
        },
        Piece::Rook => {},
        Piece::Knight => {},
        Piece::Bishop => {},
        Piece::Queen => {},
        Piece::King => {},
    }
}

/// A move of `color`'s own piece never removes `color`'s king: the king
/// either stays where it was or, when it is itself the mover, stands on the
/// destination square.
pub proof fn lemma_pseudo_keeps_king(b: BoardGrid, color: Color, m: ChessMove)
    requires
        grid_wf(b),
        has_king(b, color),
        pseudo_move_ok(b, color, m),
    ensures
        has_king(grid_after(b, m), color),
{
    lemma_pseudo_in_range(b, color, m);
    lemma_no_self_capture(b, color, m);
    let (kf, kr): (int, int) = choose|kf: int, kr: int| is_king_at(b, color, kf, kr);
    let f = m.o_file as int;
    let r = m.o_rank as int;
    let nf = m.n_file as int;
    let nr = m.n_rank as int;
    if kf == nf && kr == nr {
        // the destination holds color's own king, contradicting no-self-capture
        assert(false);
    }
    if kf == f && kr == r {
        assert(cell(grid_after(b, m), nf, nr) == cell(b, f, r));
        assert(is_king_at(grid_after(b, m), color, nf, nr));
    } else {
        assert(cell(grid_after(b, m), kf, kr) == cell(b, kf, kr));
        assert(is_king_at(grid_after(b, m), color, kf, kr));
    }
}

/// A move whose destination square does not hold a king leaves every king
/// of `c` on the board.
pub proof fn lemma_move_keeps_kings(b: BoardGrid, m: ChessMove, c: Color)
    requires
        grid_wf(b),
        m.in_range(),
        has_king(b, c),
        match cell(b, m.n_file as int, m.n_rank as int) {
            Some(p) => p.piece != Piece::King,
            None => true,
        },
    ensures
        has_king(grid_after(b, m), c),
{
    let (kf, kr): (int, int) = choose|kf: int, kr: int| is_king_at(b, c, kf, kr);
    let f = m.o_file as int;
    let r = m.o_rank as int;
    let nf = m.n_file as int;
    let nr = m.n_rank as int;
    if kf == nf && kr == nr {
        assert(false);
    }
    if kf == f && kr == r {
        assert(cell(grid_after(b, m), nf, nr) == cell(b, f, r));
        assert(is_king_at(grid_after(b, m), c, nf, nr));
    } else {
        assert(cell(grid_after(b, m), kf, kr) == cell(b, kf, kr));
        assert(is_king_at(grid_after(b, m), c, kf, kr));
    }
}

/// A straight-line threat: along direction (df, dr) from (f, r), the first
/// occupied square holds an opposing piece of one of the two given kinds.
pub open spec fn ray_threat_at(
    b: BoardGrid, color: Color, f: int, r: int, df: int, dr: int, k1: Piece, k2: Piece, t: int,
) -> bool {
    &&& 1 <= t
    &&& on_board(ray_f(f, df, t), ray_f(r, dr, t))
    &&& forall|u: int| 1 <= u < t ==> cell(b, ray_f(f, df, u), ray_f(r, dr, u)) is None
    &&& match cell(b, ray_f(f, df, t), ray_f(r, dr, t)) {
        Some(p) => p.color != color && (p.piece == k1 || p.piece == k2),
        None => false,
    }
}

pub open spec fn ray_threat(
    b: BoardGrid, color: Color, f: int, r: int, df: int, dr: int, k1: Piece, k2: Piece,
) -> bool {
    exists|t: int| ray_threat_at(b, color, f, r, df, dr, k1, k2, t)
}

/// A knight of the opposing side stands a knight's jump away from (f, r).
pub open spec fn knight_threat(b: BoardGrid, color: Color, f: int, r: int) -> bool {
    exists|nf: int, nr: int|
        knight_jump(f, r, nf, nr) && on_board(nf, nr)
            && cell(b, nf, nr) == Some(GamePiece { piece: Piece::Knight, color: color.opposite() })
}

/// A pawn of the opposing side attacks (f, r): it stands one square
/// diagonally toward it, on the rank it would capture from.
pub open spec fn pawn_threat(b: BoardGrid, color: Color, f: int, r: int) -> bool {
    let d = pawn_dir(color.opposite());
    ||| (on_board(f - 1, r - d) && cell(b, f - 1, r - d)
        == Some(GamePiece { piece: Piece::Pawn, color: color.opposite() }))
    ||| (on_board(f + 1, r - d) && cell(b, f + 1, r - d)
        == Some(GamePiece { piece: Piece::Pawn, color: color.opposite() }))
}

/// The square (f, r) is attacked by the side opposing `color`: the first
/// piece on an orthogonal ray is an opposing rook or queen, the first piece
/// on a diagonal ray is an opposing bishop or queen, or an opposing knight
/// or pawn reaches it by direct offset.
pub open spec fn square_attacked(b: BoardGrid, color: Color, f: int, r: int) -> bool {
    ||| ray_threat(b, color, f, r, 1, 0, Piece::Rook, Piece::Queen)
    ||| ray_threat(b, color, f, r, -1, 0, Piece::Rook, Piece::Queen)
    ||| ray_threat(b, color, f, r, 0, 1, Piece::Rook, Piece::Queen)
    ||| ray_threat(b, color, f, r, 0, -1, Piece::Rook, Piece::Queen)
    ||| ray_threat(b, color, f, r, 1, 1, Piece::Bishop, Piece::Queen)
    ||| ray_threat(b, color, f, r, -1, 1, Piece::Bishop, Piece::Queen)
    ||| ray_threat(b, color, f, r, 1, -1, Piece::Bishop, Piece::Queen)
    ||| ray_threat(b, color, f, r, -1, -1, Piece::Bishop, Piece::Queen)
    ||| knight_threat(b, color, f, r)
    ||| pawn_threat(b, color, f, r)
}

/// Playing `m` leaves `color`'s king (the first one in board order) on an
/// attacked square.
pub open spec fn move_causes_check(b: BoardGrid, m: ChessMove, color: Color) -> bool {
    let b2 = grid_after(b, m);
    exists|f: int, r: int| first_king_at(b2, color, f, r) && square_attacked(b2, color, f, r)
}

/// `m` is a fully legal move for `color` on `b`: movegen yields it and it
/// does not leave `color`'s own king in check.
pub open spec fn legal_move(b: BoardGrid, color: Color, m: ChessMove) -> bool {
    pseudo_move_ok(b, color, m) && !move_causes_check(b, m, color)
}

/// No move movegen yields lands on a square held by the moving side's own
/// piece: there are no self-captures.
pub proof fn lemma_no_self_capture(b: BoardGrid, color: Color, m: ChessMove)
    requires
        pseudo_move_ok(b, color, m),
    ensures
        can_occupy(b, color, m.n_file as int, m.n_rank as int),
{
    let f = m.o_file as int;
    let r = m.o_rank as int;
    let nf = m.n_file as int;
    let nr = m.n_rank as int;
    let p = cell(b, f, r)->Some_0;
    match p.piece {
        Piece::Pawn => {
            assert(pawn_dest_ok(b, color, f, r, nf, nr));
        },
        Piece::Rook => {
            assert(rook_dest_ok(b, color, f, r, nf, nr));
        },
        Piece::Knight => {},
        Piece::Bishop => {},
        Piece::Queen => {},
        Piece::King => {},
    }
}

} // verus!
