use dlgo::error::{FatalKind, MoveError, RuleViolation};
use dlgo::game::{Game, PointType};
use dlgo::goboard::Board;
use dlgo::gostring::GoString;
use dlgo::gotypes::{Color, DisplayPoint, Move, Point, Stone};

fn play(color: Color, row: usize, col: usize) -> Move {
    Move::Play(Stone { color, point: Point::new(row, col) })
}

#[test]
pub fn go_string_test() {
    let stones = vec![Point::new(1, 2), Point::new(2, 2)];

    let mut liberties: Vec<Point> = vec![
        Point::new(1, 1),
        Point::new(2, 1),
        Point::new(3, 2),
        Point::new(2, 3),
        Point::new(1, 4),
    ];

    let string = GoString::new(Color::Black, stones, liberties);
}

#[test]
fn color_other_flips() {
    assert_eq!(Color::Black.other(), Color::White);
    assert_eq!(Color::White.other(), Color::Black);
}

#[test]
fn neighbors_are_symmetric_around_the_point() {
    let p = Point::new(3, 4);
    let n = p.neighbors();
    assert_eq!(n[0], Point::new(2, 4));
    assert_eq!(n[1], Point::new(4, 4));
    assert_eq!(n[2], Point::new(3, 3));
    assert_eq!(n[3], Point::new(3, 5));
}

#[test]
fn chain_liberty_bookkeeping() {
    let mut s = GoString::new(
        Color::Black,
        vec![Point::new(1, 2)],
        vec![Point::new(1, 1), Point::new(1, 3)],
    );
    assert_eq!(s.num_liberties(), 2);
    s.add_liberty(Point::new(2, 2));
    assert_eq!(s.num_liberties(), 3);
    // idempotent insert
    s.add_liberty(Point::new(2, 2));
    assert_eq!(s.num_liberties(), 3);
    assert!(s.remove_liberty(&Point::new(1, 1)));
    assert!(!s.remove_liberty(&Point::new(1, 1)));
    assert_eq!(s.num_liberties(), 2);
    assert!(s.has_stone(&Point::new(1, 2)));
    assert!(!s.has_stone(&Point::new(1, 1)));
}

#[test]
fn merging_two_adjacent_singletons_sums_stones_and_unites_liberties() {
    let mut a = GoString::new(
        Color::Black,
        vec![Point::new(1, 2)],
        vec![Point::new(1, 1), Point::new(1, 3), Point::new(2, 2)],
    );
    let b = GoString::new(
        Color::Black,
        vec![Point::new(2, 2)],
        vec![Point::new(2, 1), Point::new(2, 3), Point::new(3, 2), Point::new(1, 2)],
    );
    a.merged_with(&b);
    // stone count is the sum of the two singleton counts
    assert_eq!(a.get_stones().len(), 2);
    // the liberty set is the union of both, purged of the merged stones
    assert_eq!(a.num_liberties(), 5);
    assert!(!a.has_liberty(&Point::new(1, 2)));
    assert!(!a.has_liberty(&Point::new(2, 2)));
    assert!(a.has_liberty(&Point::new(1, 1)));
    assert!(a.has_liberty(&Point::new(3, 2)));
}

#[test]
fn chain_equality_is_by_value() {
    let a = GoString::new(Color::Black, vec![Point::new(1, 1)], vec![Point::new(1, 2)]);
    let b = GoString::new(Color::Black, vec![Point::new(1, 1)], vec![Point::new(1, 2)]);
    let c = GoString::new(Color::White, vec![Point::new(1, 1)], vec![Point::new(1, 2)]);
    assert!(a.equal(&b));
    assert!(!a.equal(&c));
}

#[test]
fn placed_stone_chain_keeps_liberties_disjoint_from_stones() {
    let mut board = Board::new(9, 9);
    board
        .place_stone(Stone { color: Color::Black, point: Point::new(5, 5) })
        .unwrap();
    let chain = board.get_go_string(&Point::new(5, 5)).unwrap();
    assert_eq!(chain.get_color(), Color::Black);
    assert_eq!(chain.get_stones().len(), 1);
    assert_eq!(chain.num_liberties(), 4);
    // the liberty set is disjoint from the stone set
    assert!(!chain.has_liberty(&Point::new(5, 5)));
    board
        .place_stone(Stone { color: Color::Black, point: Point::new(5, 6) })
        .unwrap();
    let merged = board.get_go_string(&Point::new(5, 5)).unwrap();
    assert_eq!(merged.get_stones().len(), 2);
    assert_eq!(merged.num_liberties(), 6);
    assert!(!merged.has_liberty(&Point::new(5, 5)));
    assert!(!merged.has_liberty(&Point::new(5, 6)));
}

#[test]
fn board_rejects_off_grid_and_occupied_points() {
    let mut board = Board::new(9, 9);
    let e = board
        .place_stone(Stone { color: Color::Black, point: Point::new(0, 5) })
        .unwrap_err();
    assert_eq!(e.kind, FatalKind::OutOfBounds);
    let e = board
        .place_stone(Stone { color: Color::Black, point: Point::new(5, 10) })
        .unwrap_err();
    assert_eq!(e.kind, FatalKind::OutOfBounds);
    board
        .place_stone(Stone { color: Color::Black, point: Point::new(5, 5) })
        .unwrap();
    let e = board
        .place_stone(Stone { color: Color::White, point: Point::new(5, 5) })
        .unwrap_err();
    assert_eq!(e.kind, FatalKind::Occupied);
}

#[test]
fn surrounding_a_stone_captures_it_and_restores_liberties() {
    let mut game = Game::new(9);
    game.apply_move(play(Color::Black, 5, 5)).unwrap();
    game.apply_move(play(Color::White, 4, 5)).unwrap();
    game.apply_move(Move::Pass(Color::Black)).unwrap();
    game.apply_move(play(Color::White, 6, 5)).unwrap();
    game.apply_move(Move::Pass(Color::Black)).unwrap();
    game.apply_move(play(Color::White, 5, 4)).unwrap();
    game.apply_move(Move::Pass(Color::Black)).unwrap();
    assert!(matches!(game.get_point_type(5, 5), PointType::Stone(Color::Black)));
    game.apply_move(play(Color::White, 5, 6)).unwrap();
    // the captured point is empty again
    assert!(matches!(game.get_point_type(5, 5), PointType::Empty));
    // each surrounding chain regains the vacated point as a liberty
    for (r, c) in [(4, 5), (6, 5), (5, 4), (5, 6)] {
        let chain = game.state.board.get_go_string(&Point::new(r, c)).unwrap();
        assert_eq!(chain.get_color(), Color::White);
        assert!(chain.has_liberty(&Point::new(5, 5)));
    }
}

#[test]
fn two_consecutive_passes_end_the_game() {
    let mut game = Game::new(9);
    game.apply_move(Move::Pass(Color::Black)).unwrap();
    assert!(!game.is_over());
    game.apply_move(Move::Pass(Color::White)).unwrap();
    assert!(game.is_over());
}

#[test]
fn a_lone_pass_followed_by_a_play_keeps_the_game_open() {
    let mut game = Game::new(9);
    game.apply_move(Move::Pass(Color::Black)).unwrap();
    game.apply_move(play(Color::White, 3, 3)).unwrap();
    assert!(!game.is_over());
    game.apply_move(Move::Pass(Color::Black)).unwrap();
    assert!(!game.is_over());
}

#[test]
fn resign_ends_the_game_immediately() {
    let mut game = Game::new(9);
    game.apply_move(Move::Resign(Color::Black)).unwrap();
    assert!(game.is_over());

    let mut game = Game::new(9);
    game.apply_move(play(Color::Black, 3, 3)).unwrap();
    game.apply_move(play(Color::White, 4, 4)).unwrap();
    game.apply_move(Move::Resign(Color::Black)).unwrap();
    assert!(game.is_over());
}

#[test]
fn no_move_is_accepted_after_the_game_is_over() {
    let mut game = Game::new(9);
    game.apply_move(Move::Resign(Color::Black)).unwrap();
    let e = game.apply_move(play(Color::White, 3, 3)).unwrap_err();
    assert!(matches!(e, MoveError::Fatal(f) if f.kind == FatalKind::GameOver));
}

#[test]
fn wrong_color_play_fails_and_leaves_the_board_unchanged() {
    let mut game = Game::new(9);
    game.apply_move(play(Color::Black, 3, 3)).unwrap();
    let before = game.get_display_state();
    // black plays again out of turn
    let e = game.apply_move(play(Color::Black, 4, 4)).unwrap_err();
    assert!(matches!(e, MoveError::Fatal(f) if f.kind == FatalKind::ColorMismatch));
    let after = game.get_display_state();
    assert_eq!(before, after);
    assert!(matches!(game.get_point_type(4, 4), PointType::Empty));
}

#[test]
fn play_on_an_occupied_point_fails_and_leaves_the_board_unchanged() {
    let mut game = Game::new(9);
    game.apply_move(play(Color::Black, 3, 3)).unwrap();
    let before = game.get_display_state();
    let e = game.apply_move(play(Color::White, 3, 3)).unwrap_err();
    assert!(matches!(e, MoveError::Fatal(f) if f.kind == FatalKind::Occupied));
    assert_eq!(before, game.get_display_state());
}

#[test]
fn play_outside_the_board_fails() {
    let mut game = Game::new(9);
    let e = game.apply_move(play(Color::Black, 10, 3)).unwrap_err();
    assert!(matches!(e, MoveError::Fatal(f) if f.kind == FatalKind::OutOfBounds));
}

#[test]
fn self_capture_is_rejected() {
    let mut game = Game::new(5);
    game.apply_move(play(Color::Black, 1, 2)).unwrap();
    game.apply_move(play(Color::White, 3, 3)).unwrap();
    game.apply_move(play(Color::Black, 2, 1)).unwrap();
    let before = game.get_display_state();
    // the corner point (1,1) has both of its neighbors occupied by black:
    // a white stone there would have no liberty and captures nothing
    let e = game.apply_move(play(Color::White, 1, 1)).unwrap_err();
    assert!(matches!(e, MoveError::Violation(RuleViolation::SelfCapture)));
    assert_eq!(before, game.get_display_state());
    assert!(game
        .state
        .is_move_self_capture(Color::White, &play(Color::White, 1, 1)));
}

#[test]
fn immediate_ko_recapture_is_rejected() {
    let mut game = Game::new(5);
    game.apply_move(play(Color::Black, 1, 2)).unwrap();
    game.apply_move(play(Color::White, 2, 2)).unwrap();
    game.apply_move(play(Color::Black, 2, 1)).unwrap();
    game.apply_move(play(Color::White, 1, 3)).unwrap();
    game.apply_move(play(Color::Black, 3, 2)).unwrap();
    game.apply_move(play(Color::White, 3, 3)).unwrap();
    game.apply_move(play(Color::Black, 5, 5)).unwrap();
    game.apply_move(play(Color::White, 2, 4)).unwrap();
    // black captures the white stone on (2,2)
    game.apply_move(play(Color::Black, 2, 3)).unwrap();
    assert!(matches!(game.get_point_type(2, 2), PointType::Empty));
    // the immediate recapture would recreate the previous situation
    let e = game.apply_move(play(Color::White, 2, 2)).unwrap_err();
    assert!(matches!(e, MoveError::Violation(RuleViolation::KoViolation)));
    assert!(game
        .state
        .does_move_violate_ko(Color::White, &play(Color::White, 2, 2)));
    // any other move is still available
    game.apply_move(play(Color::White, 5, 1)).unwrap();
}

#[test]
fn is_valid_move_reflects_the_rules() {
    let mut game = Game::new(5);
    game.apply_move(play(Color::Black, 1, 2)).unwrap();
    game.apply_move(play(Color::White, 3, 3)).unwrap();
    game.apply_move(play(Color::Black, 2, 1)).unwrap();
    assert!(game.state.is_valid_move(&Move::Pass(Color::White)));
    assert!(game.state.is_valid_move(&Move::Resign(Color::White)));
    assert!(game.state.is_valid_move(&play(Color::White, 4, 4)));
    // occupied
    assert!(!game.state.is_valid_move(&play(Color::White, 1, 2)));
    // suicide
    assert!(!game.state.is_valid_move(&play(Color::White, 1, 1)));
    // off the board
    assert!(!game.state.is_valid_move(&play(Color::White, 6, 1)));
}

#[test]
fn situation_reports_turn_and_board() {
    let mut game = Game::new(9);
    game.apply_move(play(Color::Black, 3, 3)).unwrap();
    let (next, board) = game.state.situation();
    assert_eq!(next, Color::White);
    assert!(board.get_go_string(&Point::new(3, 3)).is_some());
}

#[test]
fn display_state_mirrors_the_board() {
    let mut game = Game::new(3);
    game.apply_move(play(Color::Black, 1, 1)).unwrap();
    game.apply_move(play(Color::White, 2, 3)).unwrap();
    let snapshot = game.get_display_state();
    assert_eq!(snapshot.len(), 3);
    for row in &snapshot {
        assert_eq!(row.len(), 3);
    }
    assert_eq!(snapshot[0][0], DisplayPoint::BlackStone);
    assert_eq!(snapshot[1][2], DisplayPoint::WhiteStone);
    assert_eq!(snapshot[0][1], DisplayPoint::Empty);
    assert_eq!(snapshot[2][2], DisplayPoint::Empty);
}

#[test]
fn game_reports_its_size() {
    let game = Game::new(19);
    assert_eq!(game.get_size(), 19);
    assert!(!game.is_over());
}
