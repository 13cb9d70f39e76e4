// The move tree: variations, tree links, and the event-stream builder.

use go::Color;
use go::Error;
use go::Game;
use go::GameEvent;
use go::GameTree;
use go::Intersection;

#[test]
fn variations_attach_to_the_same_source() {
    let mut game = Game::new(9);
    game.place_stone(Intersection::new(2, 2), Color::Black, 0).unwrap();
    game.place_stone(Intersection::new(6, 6), Color::Black, 0).unwrap();
    let source = game.get_board(0).unwrap();
    assert_eq!(source.get_variation_count(), 2);
    let first = source.get_next(0).unwrap();
    let second = source.get_next(1).unwrap();
    assert_ne!(first, second);
    assert_eq!(source.get_next(2), None);
    assert_eq!(source.get_next_boards(), vec![first, second]);
    let b1 = game.get_board(first).unwrap();
    let b2 = game.get_board(second).unwrap();
    assert_eq!(b1.get_prev(), 0);
    assert_eq!(b2.get_prev(), 0);
    // The two continuations are independent positions.
    assert_eq!(b1.get_last_move().row(), 2);
    assert_eq!(b2.get_last_move().row(), 6);
}

#[test]
fn mainline_links_follow_variation_zero() {
    let mut game = Game::new(9);
    game.place_stone(Intersection::new(0, 0), Color::Black, 0).unwrap();
    game.place_stone(Intersection::new(1, 1), Color::White, 1).unwrap();
    game.place_stone(Intersection::new(2, 2), Color::Black, 2).unwrap();
    let mut id = 0;
    let mut hops = 0;
    while let Some(next) = game.get_board(id).unwrap().get_next(0) {
        assert_eq!(game.get_board(next).unwrap().get_prev(), id);
        id = next;
        hops += 1;
    }
    assert_eq!(hops, 3);
    assert_eq!(id, game.get_final_move_number());
}

#[test]
fn builder_replays_a_mainline_stream() {
    let tree = GameTree {
        events: vec![
            GameEvent::DeclareSize(19),
            GameEvent::SetPlayerName { color: Color::Black, name: "Honinbo Shusaku".to_string() },
            GameEvent::SetPlayerName { color: Color::White, name: "Gennan Inseki".to_string() },
            GameEvent::SetPlayerRank { color: Color::Black, rank: "4d".to_string() },
            GameEvent::SetPlayerRank { color: Color::White, rank: "8d".to_string() },
            GameEvent::PlaceHandicapStone(Intersection::new(2, 2)),
            GameEvent::PlayMove(Intersection::new(3, 3), Color::White),
        ],
        variations: vec![],
    };
    let game = Game::from_game_tree(&tree).unwrap();
    assert_eq!(game.get_board_size(), 19);
    assert_eq!(game.get_player_black(), "Honinbo Shusaku");
    assert_eq!(game.get_player_white(), "Gennan Inseki");
    assert_eq!(game.get_rank_black(), "4d");
    assert_eq!(game.get_rank_white(), "8d");
    assert_eq!(game.get_final_move_number(), 1);
    let board = game.get_board(1).unwrap();
    let dump = board.to_ascii();
    // Exactly one X at (2, 2), one O at (3, 3), dots everywhere else.
    let lines: Vec<&str> = dump.lines().collect();
    assert_eq!(lines.len(), 19);
    for (r, line) in lines.iter().enumerate() {
        for (c, chunk) in line.as_bytes().chunks(3).enumerate() {
            let expected = if (r, c) == (2, 2) {
                b'X'
            } else if (r, c) == (3, 3) {
                b'O'
            } else {
                b'.'
            };
            assert_eq!(chunk[0], expected);
        }
    }
}

#[test]
fn builder_counts_every_recorded_move() {
    // The final move number equals the number of recorded moves.
    let moves = [
        (16, 3, Color::Black),
        (3, 15, Color::White),
        (15, 16, Color::Black),
        (2, 2, Color::White),
        (16, 9, Color::Black),
        (13, 2, Color::White),
        (10, 16, Color::Black),
    ];
    let mut events = vec![GameEvent::DeclareSize(19)];
    for (r, c, color) in moves {
        events.push(GameEvent::PlayMove(Intersection::new(r, c), color));
    }
    let tree = GameTree { events, variations: vec![] };
    let game = Game::from_game_tree(&tree).unwrap();
    assert_eq!(game.get_final_move_number(), 7);
}

#[test]
fn builder_attaches_sibling_variations_to_the_branch_point() {
    let tree = GameTree {
        events: vec![
            GameEvent::DeclareSize(5),
            GameEvent::PlayMove(Intersection::new(0, 0), Color::Black),
        ],
        variations: vec![
            GameTree {
                events: vec![GameEvent::PlayMove(Intersection::new(1, 1), Color::White)],
                variations: vec![],
            },
            GameTree {
                events: vec![GameEvent::PlayMove(Intersection::new(2, 2), Color::White)],
                variations: vec![],
            },
        ],
    };
    let game = Game::from_game_tree(&tree).unwrap();
    assert_eq!(game.get_final_move_number(), 3);
    // Both variations hang off position 1, the end of the root sequence.
    let branch = game.get_board(1).unwrap();
    assert_eq!(branch.get_variation_count(), 2);
    assert_eq!(game.get_board(2).unwrap().get_prev(), 1);
    assert_eq!(game.get_board(3).unwrap().get_prev(), 1);
    // The root has only its mainline child.
    assert_eq!(game.get_board(0).unwrap().get_variation_count(), 1);
}

#[test]
fn builder_propagates_placement_failures() {
    let occupied = GameTree {
        events: vec![
            GameEvent::DeclareSize(9),
            GameEvent::PlayMove(Intersection::new(4, 4), Color::Black),
            GameEvent::PlayMove(Intersection::new(4, 4), Color::White),
        ],
        variations: vec![],
    };
    assert_eq!(Game::from_game_tree(&occupied).unwrap_err(), Error::PointOccupied);

    let off_grid = GameTree {
        events: vec![
            GameEvent::DeclareSize(9),
            GameEvent::PlayMove(Intersection::new(9, 0), Color::Black),
        ],
        variations: vec![],
    };
    assert_eq!(Game::from_game_tree(&off_grid).unwrap_err(), Error::OutOfRange);
}

#[test]
fn builder_refuses_a_move_before_any_size_declaration() {
    // Without a size declaration the root is a zero-sized board; the root
    // position itself always exists, so the move fails as out of range, and
    // loading aborts with that placement's error.
    let tree = GameTree {
        events: vec![GameEvent::PlayMove(Intersection::new(0, 0), Color::Black)],
        variations: vec![],
    };
    assert_eq!(Game::from_game_tree(&tree).unwrap_err(), Error::OutOfRange);
}

#[test]
fn builder_takes_the_last_size_declaration() {
    let tree = GameTree {
        events: vec![GameEvent::DeclareSize(19), GameEvent::DeclareSize(13)],
        variations: vec![],
    };
    let game = Game::from_game_tree(&tree).unwrap();
    assert_eq!(game.get_board_size(), 13);
    assert_eq!(game.get_final_move_number(), 0);
    assert_eq!(game.get_player_black(), "");
}

#[test]
fn fresh_game_has_one_empty_root() {
    let game = Game::new(19);
    assert_eq!(game.get_final_move_number(), 0);
    assert_eq!(game.get_board_size(), 19);
    let root = game.get_board(0).unwrap();
    assert_eq!(root.get_prev(), 0);
    assert_eq!(root.get_variation_count(), 0);
    assert!(game.get_board(1).is_err());
    assert_eq!(game.get_board(1).unwrap_err(), Error::UnknownPosition);
}

#[test]
fn snapshots_do_not_alias_the_tree() {
    let mut game = Game::new(9);
    game.place_stone(Intersection::new(1, 1), Color::Black, 0).unwrap();
    let mut snapshot = game.get_board(1).unwrap();
    snapshot.place_stone(Intersection::new(2, 2), Color::White).unwrap();
    // Mutating the snapshot left the stored position untouched.
    let stored = game.get_board(1).unwrap();
    assert!(matches!(stored.get_point(2, 2).unwrap(), go::PointState::Empty));
}
