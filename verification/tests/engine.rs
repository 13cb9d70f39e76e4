// Board-level behaviour: placement, the capture rule, failure atomicity.

use go::Board;
use go::Color;
use go::Error;
use go::Game;
use go::Intersection;
use go::PointState;

#[test]
fn place_stones() {
    let mut game = Game::new(19);
    game.place_handicap_stone(Intersection::new(2, 2)).ok();
    assert_eq!(game.get_final_move_number(), 0);
    game.place_stone(Intersection::new(3, 3), Color::White, 0).ok();
    assert_eq!(game.get_final_move_number(), 1);
    let board = game.get_board(1).unwrap();
    assert_eq!(board.to_ascii(),
        ".  .  .  .  .  .  .  .  .  .  .  .  .  .  .  .  .  .  .  \n\
         .  .  .  .  .  .  .  .  .  .  .  .  .  .  .  .  .  .  .  \n\
         .  .  X  .  .  .  .  .  .  .  .  .  .  .  .  .  .  .  .  \n\
         .  .  .  O  .  .  .  .  .  .  .  .  .  .  .  .  .  .  .  \n\
         .  .  .  .  .  .  .  .  .  .  .  .  .  .  .  .  .  .  .  \n\
         .  .  .  .  .  .  .  .  .  .  .  .  .  .  .  .  .  .  .  \n\
         .  .  .  .  .  .  .  .  .  .  .  .  .  .  .  .  .  .  .  \n\
         .  .  .  .  .  .  .  .  .  .  .  .  .  .  .  .  .  .  .  \n\
         .  .  .  .  .  .  .  .  .  .  .  .  .  .  .  .  .  .  .  \n\
         .  .  .  .  .  .  .  .  .  .  .  .  .  .  .  .  .  .  .  \n\
         .  .  .  .  .  .  .  .  .  .  .  .  .  .  .  .  .  .  .  \n\
         .  .  .  .  .  .  .  .  .  .  .  .  .  .  .  .  .  .  .  \n\
         .  .  .  .  .  .  .  .  .  .  .  .  .  .  .  .  .  .  .  \n\
         .  .  .  .  .  .  .  .  .  .  .  .  .  .  .  .  .  .  .  \n\
         .  .  .  .  .  .  .  .  .  .  .  .  .  .  .  .  .  .  .  \n\
         .  .  .  .  .  .  .  .  .  .  .  .  .  .  .  .  .  .  .  \n\
         .  .  .  .  .  .  .  .  .  .  .  .  .  .  .  .  .  .  .  \n\
         .  .  .  .  .  .  .  .  .  .  .  .  .  .  .  .  .  .  .  \n\
         .  .  .  .  .  .  .  .  .  .  .  .  .  .  .  .  .  .  .  \n");
}

#[test]
fn placement_is_recorded_with_number_and_color() {
    let mut game = Game::new(9);
    game.place_stone(Intersection::new(4, 5), Color::Black, 0).unwrap();
    let board = game.get_board(1).unwrap();
    match board.get_point(4, 5).unwrap() {
        PointState::Filled { move_number, stone_color } => {
            assert_eq!(move_number, 1);
            assert_eq!(stone_color, Color::Black);
        }
        PointState::Empty => panic!("the placed stone is missing"),
    }
    let m = board.get_last_move();
    assert_eq!(m.get_number(), 1);
    assert_eq!(m.row(), 4);
    assert_eq!(m.col(), 5);
    assert_eq!(m.get_color(), Color::Black);
}

#[test]
fn occupied_point_is_refused_and_nothing_changes() {
    let mut game = Game::new(9);
    game.place_stone(Intersection::new(4, 4), Color::Black, 0).unwrap();
    assert_eq!(game.get_final_move_number(), 1);
    let res = game.place_stone(Intersection::new(4, 4), Color::White, 1);
    assert_eq!(res, Err(Error::PointOccupied));
    // No new position was created: the tree still ends at position 1.
    assert_eq!(game.get_final_move_number(), 1);
    assert!(game.get_board(2).is_err());
    assert_eq!(game.get_board(1).unwrap().get_variation_count(), 0);
}

#[test]
fn out_of_range_point_is_refused() {
    let mut game = Game::new(9);
    let res = game.place_stone(Intersection::new(9, 0), Color::Black, 0);
    assert_eq!(res, Err(Error::OutOfRange));
    assert_eq!(game.get_final_move_number(), 0);
}

#[test]
fn unknown_position_is_refused() {
    let mut game = Game::new(9);
    let res = game.place_stone(Intersection::new(0, 0), Color::Black, 7);
    assert_eq!(res, Err(Error::UnknownPosition));
    assert_eq!(game.get_final_move_number(), 0);
}

#[test]
fn surrounded_single_stone_is_captured() {
    let mut game = Game::new(9);
    game.place_handicap_stone(Intersection::new(1, 1)).unwrap();
    game.place_stone(Intersection::new(0, 1), Color::White, 0).unwrap();
    game.place_stone(Intersection::new(1, 0), Color::White, 1).unwrap();
    game.place_stone(Intersection::new(2, 1), Color::White, 2).unwrap();
    // Before the last surrounding stone, the black stone still stands.
    let before = game.get_board(3).unwrap();
    assert!(matches!(
        before.get_point(1, 1).unwrap(),
        PointState::Filled { stone_color: Color::Black, .. }
    ));
    game.place_stone(Intersection::new(1, 2), Color::White, 3).unwrap();
    let after = game.get_board(4).unwrap();
    assert!(matches!(after.get_point(1, 1).unwrap(), PointState::Empty));
    // Exactly one black stone disappeared; the four whites stand.
    assert_eq!(count_color(&after, Color::Black), count_color(&before, Color::Black) - 1);
    assert_eq!(count_color(&after, Color::White), 4);
}

#[test]
fn group_is_captured_atomically() {
    let mut game = Game::new(9);
    game.place_handicap_stone(Intersection::new(1, 1)).unwrap();
    game.place_handicap_stone(Intersection::new(1, 2)).unwrap();
    let surrounding = [(0, 1), (0, 2), (1, 0), (2, 1), (2, 2)];
    let mut cursor = 0;
    for (r, c) in surrounding {
        game.place_stone(Intersection::new(r, c), Color::White, cursor).unwrap();
        cursor = game.get_final_move_number();
    }
    // Five whites placed: the two-stone black group still has one liberty.
    let before = game.get_board(cursor).unwrap();
    assert_eq!(count_color(&before, Color::Black), 2);
    // The sixth white takes the last shared liberty: both stones leave at once.
    game.place_stone(Intersection::new(1, 3), Color::White, cursor).unwrap();
    let after = game.get_board(game.get_final_move_number()).unwrap();
    assert_eq!(count_color(&after, Color::Black), 0);
    assert!(matches!(after.get_point(1, 1).unwrap(), PointState::Empty));
    assert!(matches!(after.get_point(1, 2).unwrap(), PointState::Empty));
}

#[test]
fn one_placement_can_capture_two_groups() {
    // Two separate Black stones whose last liberty is the same point: the
    // White stone played there removes both, so the Black count drops by
    // two, not one.
    let mut game = Game::new(9);
    game.place_handicap_stone(Intersection::new(0, 1)).unwrap();
    game.place_handicap_stone(Intersection::new(2, 1)).unwrap();
    let whites = [(0, 0), (0, 2), (2, 0), (2, 2), (3, 1)];
    let mut cursor = 0;
    for (r, c) in whites {
        game.place_stone(Intersection::new(r, c), Color::White, cursor).unwrap();
        cursor = game.get_final_move_number();
    }
    assert_eq!(count_color(&game.get_board(cursor).unwrap(), Color::Black), 2);
    game.place_stone(Intersection::new(1, 1), Color::White, cursor).unwrap();
    let after = game.get_board(game.get_final_move_number()).unwrap();
    assert_eq!(count_color(&after, Color::Black), 0);
}

#[test]
fn setup_stone_can_capture() {
    // The capture pass runs for setup stones too.
    let mut board = Board::new(5);
    board.add_stone(Intersection::new(0, 0), Color::White).unwrap();
    board.add_stone(Intersection::new(0, 1), Color::Black).unwrap();
    board.add_stone(Intersection::new(1, 0), Color::Black).unwrap();
    assert!(matches!(board.get_point(0, 0).unwrap(), PointState::Empty));
    assert!(matches!(
        board.get_point(0, 1).unwrap(),
        PointState::Filled { move_number: 0, stone_color: Color::Black }
    ));
}

#[test]
fn no_suicide_rule_is_enforced() {
    // The engine leaves a just-placed group with zero liberties on the
    // board: only the opponent's groups are inspected by the capture pass.
    let mut game = Game::new(9);
    game.place_stone(Intersection::new(0, 1), Color::White, 0).unwrap();
    game.place_stone(Intersection::new(1, 0), Color::White, 1).unwrap();
    game.place_stone(Intersection::new(0, 0), Color::Black, 2).unwrap();
    let after = game.get_board(3).unwrap();
    assert!(matches!(
        after.get_point(0, 0).unwrap(),
        PointState::Filled { stone_color: Color::Black, .. }
    ));
}

#[test]
fn capture_frees_the_point_for_replay() {
    // A captured point becomes playable again.
    let mut game = Game::new(9);
    game.place_handicap_stone(Intersection::new(1, 1)).unwrap();
    game.place_stone(Intersection::new(0, 1), Color::White, 0).unwrap();
    game.place_stone(Intersection::new(1, 0), Color::White, 1).unwrap();
    game.place_stone(Intersection::new(2, 1), Color::White, 2).unwrap();
    game.place_stone(Intersection::new(1, 2), Color::White, 3).unwrap();
    // (1, 1) is empty again; Black may play there.
    game.place_stone(Intersection::new(1, 1), Color::Black, 4).unwrap();
    let after = game.get_board(5).unwrap();
    assert!(matches!(
        after.get_point(1, 1).unwrap(),
        PointState::Filled { stone_color: Color::Black, .. }
    ));
}

#[test]
fn handicap_failures_leave_the_root_alone() {
    let mut game = Game::new(9);
    game.place_handicap_stone(Intersection::new(2, 2)).unwrap();
    let res = game.place_handicap_stone(Intersection::new(2, 2));
    assert_eq!(res, Err(Error::PointOccupied));
    let res = game.place_handicap_stone(Intersection::new(9, 9));
    assert_eq!(res, Err(Error::OutOfRange));
    let root = game.get_board(0).unwrap();
    assert_eq!(count_color(&root, Color::Black), 1);
    assert_eq!(game.get_final_move_number(), 0);
}

#[test]
fn get_point_rejects_coordinates_off_the_grid() {
    let board = Board::new(9);
    assert_eq!(board.get_size(), 9);
    assert!(matches!(board.get_point(0, 0), Ok(PointState::Empty)));
    assert_eq!(board.get_point(9, 0), Err(Error::OutOfRange));
    assert_eq!(board.get_point(0, 9), Err(Error::OutOfRange));
    assert_eq!(board.get_point(100, 100), Err(Error::OutOfRange));
}

#[test]
fn board_records_its_moves() {
    let mut board = Board::new(9);
    board.place_stone(Intersection::new(2, 3), Color::Black).unwrap();
    board.place_stone(Intersection::new(4, 5), Color::White).unwrap();
    let m1 = board.get_move(1).unwrap();
    assert_eq!((m1.row(), m1.col(), m1.get_color()), (2, 3, Color::Black));
    let m2 = board.get_move(2).unwrap();
    assert_eq!((m2.row(), m2.col(), m2.get_color()), (4, 5, Color::White));
    assert!(board.get_move(0).is_none());
    assert!(board.get_move(3).is_none());
    assert_eq!(board.get_last_move().get_number(), 2);
}

fn count_color(board: &Board, color: Color) -> u32 {
    let size = board.get_size();
    let mut n = 0;
    for r in 0..size {
        for c in 0..size {
            if let Ok(PointState::Filled { stone_color, .. }) = board.get_point(r, c) {
                if stone_color == color {
                    n += 1;
                }
            }
        }
    }
    n
}
