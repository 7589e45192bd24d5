use vstd::prelude::*;

use crate::board::Board;

verus! {

/// Why a move source failed to produce a move.
#[derive(Debug, PartialEq, Eq, Structural, Clone, Copy)]
pub enum Error {
    NoValidMove,
}

/// A source of moves: the control loop asks the one whose turn it is for a
/// column to play.  Interactive sources answer `true` to `is_human`, which
/// drives prompting; how a move is produced is entirely up to the source.
pub trait Player {
    type MoveData;

    type ErrorType;

    /// Whether this source is an interactive human.
    fn is_human(&self) -> bool;

    /// Produce the next move for the given position.
    fn get_move(&mut self, current_board: &Board) -> Result<Self::MoveData, Self::ErrorType>
        requires
            current_board.wf(),
    ;
}

} // verus!
