//! Core value types for the game: colors, points, stones and moves.

use vstd::prelude::*;

verus! {

/// The color of a stone.  Black moves first.
#[derive(Copy, Clone, PartialEq, Eq, Structural, Debug, Hash)]
pub enum Color {
    Black,
    White,
}

impl Color {
    /// The opposite color.
    pub open spec fn spec_other(&self) -> Color {
        match *self {
            Color::Black => Color::White,
            Color::White => Color::Black,
        }
    }

    /// Returns the opposite color.
    #[verifier::when_used_as_spec(spec_other)]
    pub fn other(&self) -> (r: Color)
        ensures
            r == self.spec_other(),
    {
        if *self == Color::Black {
            Color::White
        } else {
            Color::Black
        }
    }
}

/// A point on the board, 1-indexed in both coordinates.
#[derive(Copy, Clone, PartialEq, Eq, Structural, Debug, Hash)]
pub struct Point {
    pub row: usize,
    pub col: usize,
}

/// Two points are 4-connected neighbors when they differ by exactly one
/// in exactly one coordinate.
pub open spec fn adjacent(a: Point, b: Point) -> bool {
    ||| a.row == b.row && (a.col + 1 == b.col || b.col + 1 == a.col)
    ||| a.col == b.col && (a.row + 1 == b.row || b.row + 1 == a.row)
}

/// Decides adjacency of two points.
pub fn points_adjacent(a: Point, b: Point) -> (r: bool)
    ensures
        r == adjacent(a, b),
{
    (a.row == b.row && ((b.col > a.col && b.col - a.col == 1) || (a.col > b.col && a.col - b.col
        == 1))) || (a.col == b.col && ((b.row > a.row && b.row - a.row == 1) || (a.row > b.row
        && a.row - b.row == 1)))
}

impl Point {
    pub fn new(row: usize, col: usize) -> (r: Point)
        ensures
            r == (Point { row, col }),
    {
        Point { row, col }
    }

    /// The four neighbor points `(row±1, col)` and `(row, col±1)`, with no
    /// bounds clipping: callers filter out points that lie off the board.
    pub fn neighbors(&self) -> (r: [Point; 4])
        requires
            1 <= self.row < usize::MAX,
            1 <= self.col < usize::MAX,
        ensures
            r@.len() == 4,
            r@[0] == (Point { row: (self.row - 1) as usize, col: self.col }),
            r@[1] == (Point { row: (self.row + 1) as usize, col: self.col }),
            r@[2] == (Point { row: self.row, col: (self.col - 1) as usize }),
            r@[3] == (Point { row: self.row, col: (self.col + 1) as usize }),
            forall|q: Point| r@.contains(q) <==> adjacent(q, *self),
    {
        let r = [
            Point { row: self.row - 1, col: self.col },
            Point { row: self.row + 1, col: self.col },
            Point { row: self.row, col: self.col - 1 },
            Point { row: self.row, col: self.col + 1 },
        ];
        proof {
            assert forall|q: Point| r@.contains(q) <==> adjacent(q, *self) by {
                if adjacent(q, *self) {
                    if q.row == self.row && q.col + 1 == self.col {
                        assert(r@[2] == q);
                    } else if q.row == self.row && self.col + 1 == q.col {
                        assert(r@[3] == q);
                    } else if q.col == self.col && q.row + 1 == self.row {
                        assert(r@[0] == q);
                    } else {
                        assert(r@[1] == q);
                    }
                }
            }
        }
        r
    }
}

/// A stone: a color bound to a location.
#[derive(Copy, Clone, PartialEq, Eq, Structural, Debug)]
pub struct Stone {
    pub color: Color,
    pub point: Point,
}

/// A player action: placing a stone, passing, or resigning.
#[derive(Copy, Clone, PartialEq, Eq, Structural, Debug)]
pub enum Move {
    Play(Stone),
    Pass(Color),
    Resign(Color),
}

impl Move {
    /// The color of the player making the move.
    pub open spec fn color_of(self) -> Color {
        match self {
            Move::Play(stone) => stone.color,
            Move::Pass(c) => c,
            Move::Resign(c) => c,
        }
    }
}

/// What a renderer can show for one point of the board.
#[derive(Copy, Clone, PartialEq, Eq, Structural, Debug)]
pub enum DisplayPoint {
    Empty,
    BlackStone,
    WhiteStone,
}

/// A row-major snapshot of the whole board, for one-directional export
/// to a renderer.
pub type DisplayState = Vec<Vec<DisplayPoint>>;

} // verus!
