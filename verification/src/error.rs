//! The two error classes of the engine: fatal (structural) errors and
//! recoverable rule violations.

use vstd::prelude::*;

verus! {

/// Why a move was refused as caller misuse.
#[derive(Copy, Clone, PartialEq, Eq, Structural, Debug)]
pub enum FatalKind {
    /// The game has already concluded.
    GameOver,
    /// The played stone's color does not match the color whose turn it is.
    ColorMismatch,
    /// The target point lies outside the board.
    OutOfBounds,
    /// The target point is already occupied by a chain.
    Occupied,
}

/// A fatal, structural error: the attempted operation indicates caller
/// misuse and aborts the move without mutating engine state.
#[derive(Copy, Clone, PartialEq, Eq, Structural, Debug)]
pub struct FatalError {
    pub kind: FatalKind,
}

impl FatalError {
    pub fn new(kind: FatalKind) -> (r: FatalError)
        ensures
            r == (FatalError { kind }),
    {
        FatalError { kind }
    }

    /// A short description, for callers that report errors to a user.
    pub fn message(&self) -> &'static str {
        match self.kind {
            FatalKind::GameOver => "the game is already over",
            FatalKind::ColorMismatch => "the stone does not have the color whose turn it is",
            FatalKind::OutOfBounds => "the point lies outside the board",
            FatalKind::Occupied => "the point is already occupied",
        }
    }
}

/// An ordinary illegal move a player might attempt; the caller can simply
/// propose a different move.
#[derive(Copy, Clone, PartialEq, Eq, Structural, Debug)]
pub enum RuleViolation {
    /// The move would leave the playing stone's chain with no liberties
    /// without capturing any opponent chain.
    SelfCapture,
    /// The move would recreate an earlier (next-to-move, board) situation.
    KoViolation,
}

/// Everything that can go wrong when applying a move, reported distinctly
/// by class.
#[derive(Copy, Clone, PartialEq, Eq, Structural, Debug)]
pub enum MoveError {
    Fatal(FatalError),
    Violation(RuleViolation),
}

} // verus!
