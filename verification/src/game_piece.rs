use vstd::prelude::*;

use crate::color::Color;

verus! {

/// Pawn, Rook, Knight, Bishop, Queen, and King are the kinds of piece.
#[derive(Copy, Clone, Debug, PartialEq, Eq, Structural)]
pub enum Piece {
    Pawn,
    Rook,
    Knight,
    Bishop,
    Queen,
    King,
}

impl Piece {
    /// The classical material value of the piece. The King's value is a
    /// large sentinel used by the material evaluation, not a real valuation.
    pub open spec fn spec_value(self) -> i32 {
        match self {
            Piece::Pawn => 1,
            Piece::Rook => 5,
            Piece::Knight => 3,
            Piece::Bishop => 3,
            Piece::Queen => 9,
            Piece::King => 200,
        }
    }

    /// Value returns the value of the piece. For now, the value is the
    /// classical chess piece value.
    pub fn value(&self) -> (r: i32)
        ensures
            r == self.spec_value(),
    {
        match self {
            Piece::Pawn => 1,
            Piece::Rook => 5,
            Piece::Knight => 3,
            Piece::Bishop => 3,
            Piece::Queen => 9,
            Piece::King => 200,
        }
    }

    /// The one-letter label of the piece kind, as printed on a board.
    pub open spec fn spec_letter(self) -> Seq<char> {
        match self {
            Piece::Pawn => seq!['P'],
            Piece::Rook => seq!['R'],
            Piece::Knight => seq!['N'],
            Piece::Bishop => seq!['B'],
            Piece::Queen => seq!['Q'],
            Piece::King => seq!['K'],
        }
    }

    /// Return the one-letter label of the piece kind.
    pub fn letter(&self) -> (r: &'static str)
        ensures
            r@ == self.spec_letter(),
    {
        proof {
            reveal_strlit("P");
            reveal_strlit("R");
            reveal_strlit("N");
            reveal_strlit("B");
            reveal_strlit("Q");
            reveal_strlit("K");
        }
        match self {
            Piece::Pawn => "P",
            Piece::Rook => "R",
            Piece::Knight => "N",
            Piece::Bishop => "B",
            Piece::Queen => "Q",
            Piece::King => "K",
        }
    }
}

/// GamePiece represents a piece in a chess game. E.g. a black bishop.
#[derive(Copy, Clone, Debug, PartialEq, Eq, Structural)]
pub struct GamePiece {
    pub piece: Piece,
    pub color: Color,
}

impl GamePiece {
    /// Build the piece of the given kind and color.
    pub fn new(piece: Piece, color: Color) -> (r: GamePiece)
        ensures
            r == (GamePiece { piece, color }),
    {
        GamePiece { piece, color }
    }

    /// The material value of the piece, regardless of its color.
    pub fn value(&self) -> (r: i32)
        ensures
            r == self.piece.spec_value(),
    {
        self.piece.value()
    }
}

} // verus!
