//! Game state: immutable snapshots linked into a history, legality rules
//! (suicide and positional superko), and the mutable game handle that
//! applies moves.

use vstd::prelude::*;
use crate::error::{FatalError, FatalKind, MoveError, RuleViolation};
use crate::goboard::Board;
use crate::gotypes::{Color, DisplayPoint, DisplayState, Move, Point, Stone};

verus! {

/// A point of the board as a caller sees it.
#[derive(Copy, Clone, PartialEq, Eq, Structural, Debug)]
pub enum PointType {
    Empty,
    Stone(Color),
}

/// How a point shows up in an exported snapshot.
pub open spec fn display_of(c: Option<Color>) -> DisplayPoint {
    match c {
        None => DisplayPoint::Empty,
        Some(Color::Black) => DisplayPoint::BlackStone,
        Some(Color::White) => DisplayPoint::WhiteStone,
    }
}

/// An immutable snapshot of the game: the board, whose turn is next, a link
/// to the previous snapshot, and the move that produced this one.  The
/// snapshots form a backward-linked history that is never mutated.
pub struct GameState {
    pub board: Board,
    pub player_color: Color,
    pub previous_state: Option<Box<GameState>>,
    pub last_move: Option<Move>,
}

/// `a` shows exactly the position that placing `stone` on `base` produces.
pub open spec fn board_matches_placement(a: Board, base: Board, stone: Stone) -> bool {
    &&& a.num_rows == base.num_rows
    &&& a.num_cols == base.num_cols
    &&& forall|p: Point| #[trigger] a.color_at(p) == base.placed_color_at(stone, p)
}

impl GameState {
    /// Well-formedness: the board is well-formed and every snapshot in the
    /// history shares its dimensions.
    pub open spec fn wf(self) -> bool
        decreases self,
    {
        &&& self.board.wf()
        &&& match self.previous_state {
            None => true,
            Some(p) => p.board.num_rows == self.board.num_rows && p.board.num_cols
                == self.board.num_cols && p.wf(),
        }
    }

    /// The game is over after this snapshot: a resignation ends it at once,
    /// and so do two consecutive passes.  Nothing else does.
    pub open spec fn over_spec(self) -> bool {
        match self.last_move {
            None => false,
            Some(m) => match m {
                Move::Resign(_) => true,
                Move::Play(_) => false,
                Move::Pass(_) => match self.previous_state {
                    None => false,
                    Some(p) => p.last_move matches Some(Move::Pass(_)),
                },
            },
        }
    }

    /// Some ancestor snapshot shows next-to-move `next` and exactly the
    /// position of `b`.
    pub open spec fn history_has_situation(self, next: Color, b: Board) -> bool
        decreases self,
    {
        match self.previous_state {
            None => false,
            Some(p) => (p.player_color == next && p.board.same_position(b))
                || p.history_has_situation(next, b),
        }
    }

    /// Some ancestor snapshot shows next-to-move `next` and exactly the
    /// position that placing `stone` on `base` produces.
    pub open spec fn history_has_placement(self, next: Color, base: Board, stone: Stone) -> bool
        decreases self,
    {
        match self.previous_state {
            None => false,
            Some(p) => (p.player_color == next && board_matches_placement(p.board, base, stone))
                || p.history_has_placement(next, base, stone),
        }
    }

    /// Playing `player`'s stone on the move's point would be suicide: after
    /// capture processing, the chain owning the played point would have no
    /// liberty.  Only a `Play` on a free on-grid point can be suicide.
    pub open spec fn self_capture_spec(self, player: Color, mv: Move) -> bool {
        match mv {
            Move::Play(stone) => {
                let s = Stone { color: player, point: stone.point };
                &&& self.board.on_grid_spec(stone.point)
                &&& !self.board.occupied(stone.point)
                &&& self.board.placement_is_suicide(s)
            },
            _ => false,
        }
    }

    /// Playing `player`'s stone on the move's point would recreate an
    /// ancestor `(next to move, board)` situation: positional superko.
    pub open spec fn ko_spec(self, player: Color, mv: Move) -> bool {
        match mv {
            Move::Play(stone) => {
                let s = Stone { color: player, point: stone.point };
                &&& self.board.on_grid_spec(stone.point)
                &&& !self.board.occupied(stone.point)
                &&& self.history_has_placement(player.spec_other(), self.board, s)
            },
            _ => false,
        }
    }

    /// A move is valid when the game is open and the move is a pass, a
    /// resignation, or a play on a free on-grid point that is neither
    /// suicide nor a ko violation.
    pub open spec fn valid_move_spec(self, mv: Move) -> bool {
        &&& !self.over_spec()
        &&& match mv {
            Move::Pass(_) | Move::Resign(_) => true,
            Move::Play(stone) => {
                &&& self.board.on_grid_spec(stone.point)
                &&& !self.board.occupied(stone.point)
                &&& !self.self_capture_spec(stone.color, mv)
                &&& !self.ko_spec(stone.color, mv)
            },
        }
    }

    /// The pair that ko comparisons use: who moves next, on which board.
    pub fn situation(&self) -> (r: (Color, &Board))
        ensures
            r.0 == self.player_color,
            r.1 == self.board,
    {
        (self.player_color, &self.board)
    }

    /// Decides whether this snapshot ends the game.
    pub fn is_over(&self) -> (r: bool)
        ensures
            r == self.over_spec(),
    {
        match &self.last_move {
            None => false,
            Some(m) => match m {
                Move::Resign(_) => true,
                Move::Play(_) => false,
                Move::Pass(_) => match &self.previous_state {
                    None => false,
                    Some(p) => match &p.last_move {
                        Some(Move::Pass(_)) => true,
                        _ => false,
                    },
                },
            },
        }
    }

    /// Decides whether `player` playing `player_move` would be suicide.
    /// Capture of opponent chains is evaluated before the liberty check: a
    /// move that empties an opponent chain is not suicide.
    pub fn is_move_self_capture(&self, player: Color, player_move: &Move) -> (r: bool)
        requires
            self.wf(),
        ensures
            r == self.self_capture_spec(player, *player_move),
    {
        match player_move {
            Move::Play(stone) => {
                let s = Stone { color: player, point: stone.point };
                match self.board.placed(s) {
                    Err(_) => false,
                    Ok(sim) => {
                        match sim.get_go_string(&stone.point) {
                            None => {
                                proof {
                                    assert(false);
                                }
                                false
                            },
                            Some(chain) => {
                                proof {
                                    sim.lemma_chain_at_ok(stone.point);
                                }
                                let n = chain.num_liberties();
                                proof {
                                    broadcast use vstd::seq_lib::seq_to_set_is_finite;

                                    assert(chain.lib_set().finite());
                                    if n == 0 {
                                        assert forall|y: Point|
                                            !(#[trigger] self.board.placed_chain_liberties(
                                                s,
                                            ).contains(y)) by {
                                            if chain.lib_set().contains(y) {
                                                vstd::set_lib::lemma_set_empty_equivalency_len(
                                                    chain.lib_set(),
                                                );
                                            }
                                        }
                                    } else {
                                        assert(chain.liberties@.len() > 0) by {
                                            chain.liberties@.unique_seq_to_set();
                                        }
                                        assert(chain.lib_set().contains(chain.liberties@[0]));
                                        assert(!self.board.placement_is_suicide(s));
                                    }
                                }
                                n == 0
                            },
                        }
                    },
                }
            },
            _ => false,
        }
    }

    /// Decides whether `player` playing `player_move` would recreate an
    /// ancestor situation, by simulating the placement and walking the
    /// history backward comparing complete board content.
    pub fn does_move_violate_ko(&self, player: Color, player_move: &Move) -> (r: bool)
        requires
            self.wf(),
        ensures
            r == self.ko_spec(player, *player_move),
    {
        match player_move {
            Move::Play(stone) => {
                let s = Stone { color: player, point: stone.point };
                match self.board.placed(s) {
                    Err(_) => false,
                    Ok(sim) => {
                        let next = player.other();
                        let r = history_contains(self, next, &sim);
                        proof {
                            lemma_history_placement_equiv(*self, next, self.board, s, sim);
                        }
                        r
                    },
                }
            },
            _ => false,
        }
    }

    /// Decides whether `player_move` is valid for this snapshot.
    pub fn is_valid_move(&self, player_move: &Move) -> (r: bool)
        requires
            self.wf(),
        ensures
            r == self.valid_move_spec(*player_move),
    {
        if self.is_over() {
            return false;
        }
        match player_move {
            Move::Play(stone) => {
                if !self.board.is_on_grid(&stone.point) {
                    return false;
                }
                match self.board.get_go_string(&stone.point) {
                    Some(_) => {
                        return false;
                    },
                    None => {},
                }
                if self.is_move_self_capture(stone.color, player_move) {
                    return false;
                }
                !self.does_move_violate_ko(stone.color, player_move)
            },
            _ => true,
        }
    }
}

/// Walks the history backward looking for an ancestor whose situation is
/// `(next, position of sim)`.
fn history_contains(state: &GameState, next: Color, sim: &Board) -> (r: bool)
    requires
        state.wf(),
        sim.wf(),
    ensures
        r == state.history_has_situation(next, *sim),
    decreases *state,
{
    match &state.previous_state {
        None => false,
        Some(p) => {
            proof {
                assert(p.wf());
                assert(p.board.wf());
            }
            if p.player_color == next && p.board.same_position_as(sim) {
                true
            } else {
                history_contains(p, next, sim)
            }
        },
    }
}

/// Comparing ancestors against a board that shows exactly the position a
/// placement produces is the same as comparing them against the placement.
pub proof fn lemma_history_placement_equiv(
    s: GameState,
    next: Color,
    base: Board,
    stone: Stone,
    sim: Board,
)
    requires
        sim.num_rows == base.num_rows,
        sim.num_cols == base.num_cols,
        forall|p: Point| #[trigger] sim.color_at(p) == base.placed_color_at(stone, p),
    ensures
        s.history_has_situation(next, sim) == s.history_has_placement(next, base, stone),
    decreases s,
{
    match s.previous_state {
        None => {},
        Some(p) => {
            lemma_history_placement_equiv(*p, next, base, stone, sim);
            assert(p.board.same_position(sim) == board_matches_placement(p.board, base, stone))
                by {
                if p.board.same_position(sim) {
                    assert forall|x: Point|
                        #[trigger] p.board.color_at(x) == base.placed_color_at(stone, x) by {
                        assert(p.board.color_at(x) == sim.color_at(x));
                    }
                }
                if board_matches_placement(p.board, base, stone) {
                    assert forall|x: Point|
                        #[trigger] p.board.color_at(x) == sim.color_at(x) by {
                        assert(p.board.color_at(x) == base.placed_color_at(stone, x));
                    }
                }
            }
        },
    }
}

/// Law: two consecutive passes end the game.
pub proof fn lemma_double_pass_ends_game(t: GameState)
    requires
        t.last_move matches Some(Move::Pass(_)),
        t.previous_state matches Some(p) && p.last_move matches Some(Move::Pass(_)),
    ensures
        t.over_spec(),
{
}

/// Law: a play never ends the game by itself — in particular, a lone pass
/// followed by a play leaves the game open.
pub proof fn lemma_play_keeps_game_open(t: GameState)
    requires
        t.last_move matches Some(Move::Play(_)),
    ensures
        !t.over_spec(),
{
}

/// Law: a single pass does not end the game.
pub proof fn lemma_single_pass_keeps_game_open(t: GameState)
    requires
        t.last_move matches Some(Move::Pass(_)),
        match t.previous_state {
            None => true,
            Some(p) => !(p.last_move matches Some(Move::Pass(_))),
        },
    ensures
        !t.over_spec(),
{
}

/// Law: a resignation ends the game immediately, regardless of history.
pub proof fn lemma_resign_ends_game(t: GameState)
    requires
        t.last_move matches Some(Move::Resign(_)),
    ensures
        t.over_spec(),
{
}

/// The mutable handle on a game: the current snapshot, the board size, and
/// whether the game has concluded.
pub struct Game {
    pub state: GameState,
    pub board_size: usize,
    pub is_over: bool,
}

impl Game {
    /// Well-formedness: the snapshot is well-formed, the board is square
    /// with side `board_size`, and the terminal flag reflects the snapshot.
    pub open spec fn wf(self) -> bool {
        &&& self.state.wf()
        &&& self.state.board.num_rows == self.board_size
        &&& self.state.board.num_cols == self.board_size
        &&& self.is_over == self.state.over_spec()
    }

    /// Creates a game on an empty square board.  Black moves first.
    pub fn new(board_size: usize) -> (r: Game)
        requires
            1 <= board_size < usize::MAX,
        ensures
            r.wf(),
            r.board_size == board_size,
            r.state.player_color == Color::Black,
            r.state.previous_state is None,
            r.state.last_move is None,
            !r.is_over,
            forall|p: Point| !r.state.board.occupied(p),
    {
        Game {
            state: GameState {
                board: Board::new(board_size, board_size),
                player_color: Color::Black,
                previous_state: None,
                last_move: None,
            },
            board_size,
            is_over: false,
        }
    }

    /// The exact outcome `apply_move` produces for `mv` on this game:
    /// fatal errors for a concluded game, a color mismatch, an off-grid or
    /// occupied point; recoverable violations for suicide and ko; `Ok`
    /// otherwise.
    pub open spec fn expected_outcome(self, mv: Move) -> Result<(), MoveError> {
        if self.is_over {
            Err(MoveError::Fatal(FatalError { kind: FatalKind::GameOver }))
        } else {
            match mv {
                Move::Pass(_) | Move::Resign(_) => Ok(()),
                Move::Play(stone) => if stone.color != self.state.player_color {
                    Err(MoveError::Fatal(FatalError { kind: FatalKind::ColorMismatch }))
                } else if !self.state.board.on_grid_spec(stone.point) {
                    Err(MoveError::Fatal(FatalError { kind: FatalKind::OutOfBounds }))
                } else if self.state.board.occupied(stone.point) {
                    Err(MoveError::Fatal(FatalError { kind: FatalKind::Occupied }))
                } else if self.state.self_capture_spec(stone.color, mv) {
                    Err(MoveError::Violation(RuleViolation::SelfCapture))
                } else if self.state.ko_spec(stone.color, mv) {
                    Err(MoveError::Violation(RuleViolation::KoViolation))
                } else {
                    Ok(())
                },
            }
        }
    }

    /// Validates `player_move` against the current snapshot and, when it is
    /// legal, makes the resulting snapshot current; on any error the game
    /// is left exactly as it was.
    pub fn apply_move(&mut self, player_move: Move) -> (r: Result<(), MoveError>)
        requires
            old(self).wf(),
        ensures
            final(self).wf(),
            final(self).board_size == old(self).board_size,
            r == old(self).expected_outcome(player_move),
            r is Err ==> *final(self) == *old(self),
            r is Ok ==> {
                &&& final(self).state.last_move == Some(player_move)
                &&& final(self).state.player_color == player_move.color_of().spec_other()
                &&& (final(self).state.previous_state matches Some(p) && *p == old(self).state)
                &&& final(self).is_over == final(self).state.over_spec()
                &&& match player_move {
                    Move::Play(stone) => old(self).state.board.placement_ok(
                        stone,
                        final(self).state.board,
                    ),
                    _ => final(self).state.board.same_position(old(self).state.board),
                }
            },
    {
        if self.is_over {
            return Err(MoveError::Fatal(FatalError::new(FatalKind::GameOver)));
        }
        let next_board: Board = match &player_move {
            Move::Play(stone) => {
                if !(stone.color == self.state.player_color) {
                    return Err(MoveError::Fatal(FatalError::new(FatalKind::ColorMismatch)));
                }
                let b = match self.state.board.placed(*stone) {
                    Err(e) => {
                        return Err(MoveError::Fatal(e));
                    },
                    Ok(b) => b,
                };
                let zero_libs = match b.get_go_string(&stone.point) {
                    None => {
                        proof {
                            assert(false);
                        }
                        true
                    },
                    Some(chain) => {
                        proof {
                            b.lemma_chain_at_ok(stone.point);
                        }
                        chain.num_liberties() == 0
                    },
                };
                proof {
                    broadcast use vstd::seq_lib::seq_to_set_is_finite;

                    let libset = self.state.board.placed_chain_liberties(*stone);
                    assert(libset == b.chain_at(stone.point).lib_set());
                    assert(libset.finite());
                    if zero_libs {
                        assert forall|y: Point| !(#[trigger] libset.contains(y)) by {
                            if libset.contains(y) {
                                vstd::set_lib::lemma_set_empty_equivalency_len(libset);
                            }
                        }
                    } else {
                        assert(libset.len() != 0);
                        assert(!self.state.board.placement_is_suicide(*stone)) by {
                            vstd::set_lib::lemma_set_empty_equivalency_len(libset);
                            assert(libset.contains(libset.choose()));
                        }
                    }
                    assert(zero_libs == self.state.self_capture_spec(stone.color, player_move));
                }
                if zero_libs {
                    return Err(MoveError::Violation(RuleViolation::SelfCapture));
                }
                let next = stone.color.other();
                let violates = history_contains(&self.state, next, &b);
                proof {
                    lemma_history_placement_equiv(self.state, next, self.state.board, *stone, b);
                    assert(violates == self.state.ko_spec(stone.color, player_move));
                }
                if violates {
                    return Err(MoveError::Violation(RuleViolation::KoViolation));
                }
                b
            },
            Move::Pass(_) | Move::Resign(_) => self.state.board.duplicate(),
        };
        let next_color = match &player_move {
            Move::Play(stone) => stone.color.other(),
            Move::Pass(c) => c.other(),
            Move::Resign(c) => c.other(),
        };
        let mut next_state = GameState {
            board: next_board,
            player_color: next_color,
            previous_state: None,
            last_move: Some(player_move),
        };
        core::mem::swap(&mut self.state, &mut next_state);
        self.state.previous_state = Some(Box::new(next_state));
        let over = self.state.is_over();
        self.is_over = over;
        Ok(())
    }

    /// True when the game has concluded.
    pub fn is_over(&self) -> (r: bool)
        ensures
            r == self.is_over,
            self.wf() ==> r == self.state.over_spec(),
    {
        self.is_over
    }

    /// The side length of the board.
    pub fn get_size(&self) -> (r: usize)
        ensures
            r == self.board_size,
    {
        self.board_size
    }

    /// What stands on the point `(row, col)` of the current board.
    pub fn get_point_type(&self, row: usize, col: usize) -> (r: PointType)
        requires
            self.wf(),
        ensures
            r == (match self.state.board.color_at(Point { row, col }) {
                None => PointType::Empty,
                Some(c) => PointType::Stone(c),
            }),
    {
        let point = Point::new(row, col);
        match self.state.board.get_go_string(&point) {
            None => PointType::Empty,
            Some(string) => PointType::Stone(string.get_color()),
        }
    }

    /// Exports the whole current position as a row-major matrix, for
    /// one-directional transmission to a renderer.
    pub fn get_display_state(&self) -> (r: DisplayState)
        requires
            self.wf(),
        ensures
            r@.len() == self.board_size,
            forall|i: int| 0 <= i < r@.len() ==> (#[trigger] r@[i])@.len() == self.board_size,
            forall|i: int, j: int|
                0 <= i < r@.len() && 0 <= j < r@[i]@.len() ==> #[trigger] r@[i]@[j] == display_of(
                    self.state.board.color_at(
                        Point { row: (i + 1) as usize, col: (j + 1) as usize },
                    ),
                ),
    {
        let mut rows: Vec<Vec<DisplayPoint>> = Vec::new();
        let mut row: usize = 1;
        while row <= self.board_size
            invariant
                self.wf(),
                1 <= row <= self.board_size + 1,
                rows@.len() == row - 1,
                forall|i: int| 0 <= i < rows@.len() ==> (#[trigger] rows@[i])@.len()
                    == self.board_size,
                forall|i: int, j: int|
                    0 <= i < rows@.len() && 0 <= j < rows@[i]@.len() ==> #[trigger] rows@[i]@[j]
                        == display_of(
                        self.state.board.color_at(
                            Point { row: (i + 1) as usize, col: (j + 1) as usize },
                        ),
                    ),
            decreases self.board_size + 1 - row,
        {
            let mut cols: Vec<DisplayPoint> = Vec::new();
            let mut col: usize = 1;
            while col <= self.board_size
                invariant
                    self.wf(),
                    1 <= row <= self.board_size,
                    1 <= col <= self.board_size + 1,
                    cols@.len() == col - 1,
                    forall|j: int|
                        0 <= j < cols@.len() ==> #[trigger] cols@[j] == display_of(
                            self.state.board.color_at(
                                Point { row, col: (j + 1) as usize },
                            ),
                        ),
                decreases self.board_size + 1 - col,
            {
                let point = Point { row, col };
                let d = match self.state.board.point_color(&point) {
                    None => DisplayPoint::Empty,
                    Some(Color::Black) => DisplayPoint::BlackStone,
                    Some(Color::White) => DisplayPoint::WhiteStone,
                };
                cols.push(d);
                col += 1;
            }
            rows.push(cols);
            row += 1;
        }
        rows
    }
}

} // verus!
