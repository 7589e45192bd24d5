use vstd::prelude::*;

use crate::board::Board;
use crate::board::GameResult;
use crate::board::all_empty;
use crate::board::apply_ok;
use crate::board::apply_result;
use crate::board::check_result;
use crate::square::Square;

verus! {

/// An error of the game layer, wrapping the board's.
#[derive(Debug, PartialEq, Eq, Structural, Clone, Copy)]
pub enum Error {
    Board(crate::board::Error),
}

impl From<crate::board::Error> for Error {
    fn from(e: crate::board::Error) -> (r: Self) {
        Error::Board(e)
    }
}

impl vstd::std_specs::convert::FromSpecImpl<crate::board::Error> for Error {
    open spec fn obeys_from_spec() -> bool {
        true
    }

    open spec fn from_spec(e: crate::board::Error) -> Self {
        Error::Board(e)
    }
}

/// The running state of a game: the board and whose turn it is.  The move
/// sources that feed it and all input and output belong to the caller.
pub struct Game {
    color_to_be_played: Square,
    board: Board,
}

impl Game {
    /// The color whose turn it is.
    pub closed spec fn spec_color(self) -> Square {
        self.color_to_be_played
    }

    /// The cells of the current board.
    pub closed spec fn spec_board(self) -> Seq<Square> {
        self.board@
    }

    /// The board is always complete and the color to move a real color.
    pub open spec fn wf(self) -> bool {
        crate::board::grid_wf(self.spec_board()) && self.spec_color() != Square::Empty
    }

    /// A fresh game: empty board, first color to move.
    pub fn new() -> (r: Self)
        ensures
            r.wf(),
            r.spec_color() == Square::Yellow,
            all_empty(r.spec_board()),
    {
        Game { color_to_be_played: Square::Yellow, board: Board::new() }
    }

    /// Read access to the board, for display and for move sources.
    pub fn board(&self) -> (r: &Board)
        requires
            self.wf(),
        ensures
            r.wf(),
            r@ == self.spec_board(),
    {
        &self.board
    }

    /// The color whose turn it is.
    pub fn color_to_be_played(&self) -> (r: Square)
        ensures
            r == self.spec_color(),
    {
        self.color_to_be_played
    }

    /// Apply the requested move for the color whose turn it is; the turn
    /// does not change.  Fails, changing nothing, exactly when the board
    /// refuses the move.
    pub fn play_move(&mut self, column: usize) -> (r: Result<(), Error>)
        requires
            old(self).wf(),
        ensures
            final(self).wf(),
            final(self).spec_color() == old(self).spec_color(),
            apply_ok(old(self).spec_board(), column as int) ==> r is Ok && final(self).spec_board()
                == apply_result(old(self).spec_board(), column as int, old(self).spec_color()),
            !apply_ok(old(self).spec_board(), column as int) ==> r == Err::<(), Error>(
                Error::Board(crate::board::Error::InvalidMove(column)),
            ) && final(self).spec_board() == old(self).spec_board(),
    {
        match self.board.apply_move(column, self.color_to_be_played) {
            Ok(()) => Ok(()),
            Err(e) => Err(Error::from(e)),
        }
    }

    /// Hand the turn to the other color.
    pub fn flip_turn(&mut self)
        requires
            old(self).wf(),
        ensures
            final(self).wf(),
            final(self).spec_color() == old(self).spec_color().flip_spec(),
            final(self).spec_board() == old(self).spec_board(),
    {
        self.color_to_be_played.flip();
    }

    /// One full turn: apply the move for the color whose turn it is, hand
    /// the turn over, and report the verdict of the resulting position.
    /// Fails, changing nothing, exactly when the board refuses the move.
    pub fn play_turn(&mut self, column: usize) -> (r: Result<Option<GameResult>, Error>)
        requires
            old(self).wf(),
        ensures
            final(self).wf(),
            apply_ok(old(self).spec_board(), column as int) ==> {
                &&& final(self).spec_board() == apply_result(
                    old(self).spec_board(),
                    column as int,
                    old(self).spec_color(),
                )
                &&& final(self).spec_color() == old(self).spec_color().flip_spec()
                &&& r == Ok::<Option<GameResult>, Error>(check_result(final(self).spec_board()))
            },
            !apply_ok(old(self).spec_board(), column as int) ==> {
                &&& r == Err::<Option<GameResult>, Error>(
                    Error::Board(crate::board::Error::InvalidMove(column)),
                )
                &&& final(self).spec_board() == old(self).spec_board()
                &&& final(self).spec_color() == old(self).spec_color()
            },
    {
        match self.play_move(column) {
            Ok(()) => {
                self.flip_turn();
                Ok(self.board.check_for_win())
            },
            Err(e) => Err(e),
        }
    }
}

} // verus!
