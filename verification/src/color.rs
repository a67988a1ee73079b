use vstd::prelude::*;

verus! {

/// White and Black are the values for a piece color.
#[derive(Copy, Clone, Debug, PartialEq, Eq, Structural)]
pub enum Color {
    White,
    Black,
}

impl Color {
    /// The color of the side this color plays against.
    pub open spec fn opposite(self) -> Color {
        match self {
            Color::White => Color::Black,
            Color::Black => Color::White,
        }
    }

    /// Return the opposite color to the one given.
    pub fn opp_color(&self) -> (r: Color)
        ensures
            r == self.opposite(),
    {
        match self {
            Color::White => Color::Black,
            Color::Black => Color::White,
        }
    }
}

/// Taking the opposite of the opposite of a color gives back the color
/// itself, for both colors.
pub proof fn lemma_opp_color_involutive(c: Color)
    ensures
        c.opposite().opposite() == c,
{
}

} // verus!
