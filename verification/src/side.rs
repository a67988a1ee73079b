use vstd::prelude::*;

verus! {

/// White and Black are the values for a side of the game.
#[derive(Copy, Clone, Debug, PartialEq, Eq, Structural)]
pub enum Side {
    White,
    Black,
}

impl Side {
    /// The side opposed to this one.
    pub open spec fn opposed(self) -> Side {
        match self {
            Side::White => Side::Black,
            Side::Black => Side::White,
        }
    }

    /// Return the opposite side to the one given.
    pub fn opp_side(&self) -> (r: Side)
        ensures
            r == self.opposed(),
    {
        match self {
            Side::White => Side::Black,
            Side::Black => Side::White,
        }
    }
}

/// Taking the opposite of the opposite of a side gives back the side itself.
pub proof fn lemma_opp_side_involutive(s: Side)
    ensures
        s.opposed().opposed() == s,
{
}

} // verus!
