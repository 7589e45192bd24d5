use vstd::prelude::*;

verus! {

/// One cell of the grid: a token of either color, or empty.
/// The same type doubles as the identifier of a player's color.
#[derive(Copy, Clone, PartialEq, Eq, Structural, Hash, Debug)]
pub enum Square {
    Yellow,
    Red,
    Empty,
}

impl Square {
    /// The opposite color; `Empty` is its own opposite.
    pub open spec fn flip_spec(self) -> Square {
        match self {
            Square::Yellow => Square::Red,
            Square::Red => Square::Yellow,
            Square::Empty => Square::Empty,
        }
    }

    /// Turn this square into the opposite color in place.
    pub fn flip(&mut self)
        ensures
            *final(self) == old(self).flip_spec(),
    {
        *self = match *self {
            Square::Yellow => Square::Red,
            Square::Red => Square::Yellow,
            _ => Square::Empty,
        };
    }

    /// The opposite color, as a fresh value.
    pub fn flip_into(&self) -> (r: Self)
        ensures
            r == self.flip_spec(),
    {
        match *self {
            Square::Yellow => Square::Red,
            Square::Red => Square::Yellow,
            _ => Square::Empty,
        }
    }
}

impl Default for Square {
    /// A fresh square is empty.
    fn default() -> (r: Self)
        ensures
            r == Square::Empty,
    {
        Square::Empty
    }
}

} // verus!
