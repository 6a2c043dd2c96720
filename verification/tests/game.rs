use ruversi::board::Board;
use ruversi::disk::Disk;
use ruversi::disk::Disk::{Dark, Light};
use ruversi::errors::{BoardError, ParseError, PositionError};
use ruversi::game::{init_board, GameResult, GameState, TurnPlayer};
use ruversi::position::{Direction, Position};

fn fig(rows: [&str; 8]) -> Board {
    let mut source = String::new();
    for row in rows.iter() {
        source.push_str(row);
    }
    Board::try_from_str(&source).unwrap()
}

#[test]
fn query_is_idempotent() {
    let board = fig([
        "________", "________", "________", "___o____", "___x____", "________", "________",
        "________",
    ]);
    let snapshot = board.clone();

    let first = board.count_turn_disks(Position::new(3, 2).unwrap(), Dark);
    let second = board.count_turn_disks(Position::new(3, 2).unwrap(), Dark);
    assert_eq!(first, Ok(1));
    assert_eq!(first, second);
    assert_eq!(board, snapshot);
}

#[test]
fn isolated_disk_has_no_legal_moves() {
    let board = fig([
        "________", "________", "________", "___x____", "________", "________", "________",
        "________",
    ]);

    assert_eq!(board.count_legal_movs(Dark), 0);
    assert_eq!(board.count_legal_movs(Light), 0);
    assert!(!board.exists_legal_mov(Dark));
    assert!(!board.exists_legal_mov(Light));
}

#[test]
fn isolated_corner_disk_has_no_legal_moves() {
    let board = fig([
        "________", "________", "________", "________", "________", "________", "________",
        "_______o",
    ]);

    assert_eq!(board.count_legal_movs(Dark), 0);
    assert_eq!(board.count_legal_movs(Light), 0);
}

#[test]
fn rays_do_not_wrap_past_the_edge() {
    // a run that reaches the right edge unterminated must not continue on
    // the next row
    let board = fig([
        "______xx", "o_______", "________", "________", "________", "________", "________",
        "________",
    ]);

    assert!(board
        .count_turn_disks(Position::new(5, 0).unwrap(), Light)
        .is_err());
}

#[test]
fn opening_position_has_four_moves_each() {
    let board = fig([
        "________", "________", "________", "___ox___", "___xo___", "________", "________",
        "________",
    ]);

    assert_eq!(board.count_legal_movs(Dark), 4);
    assert_eq!(board.count_legal_movs(Light), 4);
}

#[test]
fn four_ray_capture_sums_the_rays() {
    // one flip on each of the four straight rays: 4 in total
    let mut board = fig([
        "________", "___o____", "___x____", "_ox_xo__", "___x____", "___o____", "________",
        "________",
    ]);

    assert_eq!(
        board.count_turn_disks(Position::new(3, 3).unwrap(), Light),
        Ok(4)
    );
    assert_eq!(board.place(Position::new(3, 3).unwrap(), Light), Ok(4));
    assert_eq!(
        board,
        fig([
            "________", "___o____", "___o____", "_ooooo__", "___o____", "___o____", "________",
            "________",
        ])
    );
}

#[test]
fn occupied_cell_is_reported() {
    let board = fig([
        "________", "________", "________", "___ox___", "___xo___", "________", "________",
        "________",
    ]);

    assert_eq!(
        board.count_turn_disks(Position::new(3, 3).unwrap(), Dark),
        Err(BoardError::OccupiedCell)
    );
}

#[test]
fn missing_sandwich_is_reported() {
    let board = fig([
        "________", "________", "________", "___x____", "________", "________", "________",
        "________",
    ]);

    assert_eq!(
        board.count_turn_disks(Position::new(3, 2).unwrap(), Dark),
        Err(BoardError::NoDiskToFlip)
    );
}

#[test]
fn out_of_range_coordinates_are_rejected() {
    assert_eq!(Position::new(8, 0), Err(PositionError::InvalidCoordinate));
    assert_eq!(Position::new(0, 8), Err(PositionError::InvalidCoordinate));
    assert_eq!(Position::new(-1, 3), Err(PositionError::InvalidCoordinate));
    assert_eq!(Position::new(3, -1), Err(PositionError::InvalidCoordinate));
    assert!(Position::new(0, 0).is_ok());
    assert!(Position::new(7, 7).is_ok());
}

#[test]
fn stepping_off_the_board_is_reported() {
    let corner = Position::new(7, 7).unwrap();
    assert_eq!(corner.next(&Direction::UpRight), Err(PositionError::OffBoard));
    assert_eq!(corner.next(&Direction::Up), Err(PositionError::OffBoard));
    let stepped = corner.next(&Direction::Left).unwrap();
    assert_eq!((stepped.x, stepped.y), (6, 7));
}

#[test]
fn short_layout_is_rejected() {
    assert_eq!(
        Board::try_from_str("____"),
        Err(ParseError::SourceTooShort)
    );
    assert_eq!(Board::try_from_str(""), Err(ParseError::SourceTooShort));
}

#[test]
fn bad_layout_character_is_rejected() {
    assert_eq!(
        Board::try_from_str("z_______"),
        Err(ParseError::InvalidChar)
    );
}

#[test]
fn disk_reverse_swaps_the_colors() {
    let mut disk = Light;
    disk.reverse();
    assert_eq!(disk, Dark);
    disk.reverse();
    assert_eq!(disk, Light);
}

#[test]
fn turn_player_alternates() {
    assert_eq!(TurnPlayer::other(&TurnPlayer::Dark), TurnPlayer::Light);
    assert_eq!(TurnPlayer::other(&TurnPlayer::Light), TurnPlayer::Dark);

    let mut turn = TurnPlayer::Dark;
    turn.reverse();
    assert_eq!(turn, TurnPlayer::Light);

    assert_eq!(TurnPlayer::Dark.into_disk(), Disk::Dark);
    assert_eq!(TurnPlayer::Light.into_disk(), Disk::Light);
}

#[test]
fn game_result_picks_the_majority() {
    let light_wins = GameResult::new(40, 24);
    assert_eq!(light_wins.winner, Some(TurnPlayer::Light));

    let dark_wins = GameResult::new(24, 40);
    assert_eq!(dark_wins.winner, Some(TurnPlayer::Dark));

    let draw = GameResult::new(32, 32);
    assert_eq!(draw.winner, None);
    assert_eq!(draw.light_disks, 32);
    assert_eq!(draw.dark_disks, 32);
}

#[test]
fn init_board_holds_the_four_center_disks() {
    let board = init_board();

    assert_eq!(board.get(&Position::new(3, 3).unwrap()), Some(Light));
    assert_eq!(board.get(&Position::new(4, 3).unwrap()), Some(Dark));
    assert_eq!(board.get(&Position::new(3, 4).unwrap()), Some(Dark));
    assert_eq!(board.get(&Position::new(4, 4).unwrap()), Some(Light));
    assert_eq!(board.get(&Position::new(0, 0).unwrap()), None);
    assert_eq!(board.count_disks(&Dark), 2);
    assert_eq!(board.count_disks(&Light), 2);
}

#[test]
fn game_state_runs_one_opening_move() {
    let mut game = GameState::new(init_board());
    assert_eq!(game.turn, TurnPlayer::Dark);
    assert!(!game.ends_game());
    assert!(game.exists_legal_mov());

    // Dark captures the Light disk at (3, 3) from above
    let pos = Position::new(3, 2).unwrap();
    assert!(game.board.can_place(pos, Dark));
    let flips = game.update(pos);
    assert_eq!(flips, 1);
    assert_eq!(game.turn, TurnPlayer::Light);
    assert_eq!(game.skip_count, 0);
    assert_eq!(game.board.get(&Position::new(3, 3).unwrap()), Some(Dark));
}

#[test]
fn game_ends_after_two_skips() {
    let mut game = GameState::new(Board::new());
    assert!(!game.exists_legal_mov());
    game.skip_turn();
    assert!(!game.ends_game());
    game.skip_turn();
    assert!(game.ends_game());

    let result = game.game_result();
    assert_eq!(result.dark_disks, 0);
    assert_eq!(result.light_disks, 0);
    assert_eq!(result.winner, None);
}
