use ruversi::board::Board;
use ruversi::disk::Disk::{Dark, Light};
use ruversi::position::Position;

fn fig(rows: [&str; 8]) -> Board {
    let mut source = String::new();
    for row in rows.iter() {
        source.push_str(row);
    }
    Board::try_from_str(&source).unwrap()
}

#[test]
fn test_display() {
    let board = fig([
        "________", "________", "________", "___ox___", "___xo___", "________", "________",
        "________",
    ]);

    let board_str = format!(
        "{}\n{}\n{}\n{}\n{}\n{}\n{}\n{}\n{}\n{}\n{}",
        "  x 1 2 3 4 5 6 7 8",
        "y",
        "",
        "1   _ _ _ _ _ _ _ _",
        "2   _ _ _ _ _ _ _ _",
        "3   _ _ _ _ _ _ _ _",
        "4   _ _ _ o x _ _ _",
        "5   _ _ _ x o _ _ _",
        "6   _ _ _ _ _ _ _ _",
        "7   _ _ _ _ _ _ _ _",
        "8   _ _ _ _ _ _ _ _",
    );
    assert_eq!(board.render(), board_str);
}

#[test]
fn test_count_turn_disks1() {
    let board = fig([
        "________", "________", "________", "___o____", "___x____", "________", "________",
        "________",
    ]);

    assert_eq!(
        board.count_turn_disks(Position::new(3, 2).unwrap(), Dark),
        Ok(1)
    );
}

#[test]
fn test_count_turn_disks2() {
    let board = fig([
        "________", "________", "________", "___o____", "___o____", "___o____", "___x____",
        "________",
    ]);

    assert_eq!(
        board.count_turn_disks(Position::new(3, 2).unwrap(), Dark),
        Ok(3)
    );
}

#[test]
fn test_count_turn_disks3() {
    let board = fig([
        "________", "________", "___o____", "___o____", "___o____", "___x____", "___o____",
        "___o____",
    ]);

    assert_eq!(
        board.count_turn_disks(Position::new(3, 1).unwrap(), Dark),
        Ok(3)
    );
}

#[test]
fn test_count_turn_disks4() {
    let board = fig([
        "________", "________", "________", "___o___o", "____x__x", "_____x_x", "______xx",
        "___oxxx_",
    ]);

    assert_eq!(
        board.count_turn_disks(Position::new(7, 7).unwrap(), Light),
        Ok(9)
    );
}

#[test]
fn test_count_turn_disks5() {
    let board = fig([
        "o__o__o_", "_x_x_x__", "__xxx___", "oxx_xxxo", "__xxx___", "_x_x_x__", "o__x__x_",
        "___o___o",
    ]);

    assert_eq!(
        board.count_turn_disks(Position::new(3, 3).unwrap(), Light),
        Ok(19)
    );
}

#[test]
fn test_count_turn_disks_err1() {
    let board = fig([
        "________", "________", "________", "___o____", "___o____", "___o____", "________",
        "________",
    ]);

    assert!(board
        .count_turn_disks(Position::new(3, 2).unwrap(), Dark)
        .is_err());
    assert!(board
        .count_turn_disks(Position::new(3, 3).unwrap(), Dark)
        .is_err());
    assert!(board
        .count_turn_disks(Position::new(3, 4).unwrap(), Dark)
        .is_err());
    assert!(board
        .count_turn_disks(Position::new(3, 5).unwrap(), Dark)
        .is_err());
    assert!(board
        .count_turn_disks(Position::new(3, 6).unwrap(), Dark)
        .is_err());

    assert!(board
        .count_turn_disks(Position::new(3, 2).unwrap(), Light)
        .is_err());
    assert!(board
        .count_turn_disks(Position::new(3, 3).unwrap(), Light)
        .is_err());
    assert!(board
        .count_turn_disks(Position::new(3, 4).unwrap(), Light)
        .is_err());
    assert!(board
        .count_turn_disks(Position::new(3, 5).unwrap(), Light)
        .is_err());
    assert!(board
        .count_turn_disks(Position::new(3, 6).unwrap(), Light)
        .is_err());
}

#[test]
fn test_count_turn_disks_err2() {
    let board = fig([
        "x__x__x_", "_x_x_x__", "__xxx___", "xxx_xxxx", "__xxx___", "_x_x_x__", "x__x__x_",
        "___x___x",
    ]);

    assert!(board
        .count_turn_disks(Position::new(3, 3).unwrap(), Light)
        .is_err());
}

#[test]
fn test_count_turn_disks_err3() {
    let board = fig([
        "________", "________", "________", "________", "________", "________", "________",
        "_____x__",
    ]);

    assert!(board
        .count_turn_disks(Position::new(5, 6).unwrap(), Light)
        .is_err());
}

#[test]
fn test_place1() {
    let mut board = fig([
        "________", "________", "________", "___o____", "___x____", "________", "________",
        "________",
    ]);

    assert_eq!(board.place(Position::new(3, 2).unwrap(), Dark), Ok(1));
    assert_eq!(
        board,
        fig([
            "________", "________", "___x____", "___x____", "___x____", "________", "________",
            "________",
        ])
    );
}

#[test]
fn test_place2() {
    let mut board = fig([
        "________", "________", "________", "___o____", "___o____", "___o____", "___x____",
        "________",
    ]);

    assert_eq!(board.place(Position::new(3, 2).unwrap(), Dark), Ok(3));
    assert_eq!(
        board,
        fig([
            "________", "________", "___x____", "___x____", "___x____", "___x____", "___x____",
            "________",
        ])
    );
}

#[test]
fn test_place3() {
    let mut board = fig([
        "________", "________", "___o____", "___o____", "___o____", "___x____", "___o____",
        "___o____",
    ]);

    assert_eq!(board.place(Position::new(3, 1).unwrap(), Dark), Ok(3));
    assert_eq!(
        board,
        fig([
            "________", "___x____", "___x____", "___x____", "___x____", "___x____", "___o____",
            "___o____",
        ])
    );
}

#[test]
fn test_place4() {
    let mut board = fig([
        "________", "________", "________", "___o___o", "____x__x", "_____x_x", "______xx",
        "___oxxx_",
    ]);

    assert_eq!(board.place(Position::new(7, 7).unwrap(), Light), Ok(9));
    assert_eq!(
        board,
        fig([
            "________", "________", "________", "___o___o", "____o__o", "_____o_o", "______oo",
            "___ooooo",
        ])
    );
}

#[test]
fn test_place5() {
    let mut board = fig([
        "o__o__o_", "_x_x_x__", "__xxx___", "oxx_xxxo", "__xxx___", "_x_x_x__", "o__x__x_",
        "___o___o",
    ]);

    assert_eq!(board.place(Position::new(3, 3).unwrap(), Light), Ok(19));
    assert_eq!(
        board,
        fig([
            "o__o__o_", "_o_o_o__", "__ooo___", "oooooooo", "__ooo___", "_o_o_o__", "o__o__o_",
            "___o___o",
        ])
    );
}

#[test]
fn test_place_err1() {
    let mut board = fig([
        "________", "________", "________", "___o____", "___o____", "___o____", "________",
        "________",
    ]);

    assert!(board.place(Position::new(3, 2).unwrap(), Dark).is_err());
    assert!(board.place(Position::new(3, 3).unwrap(), Dark).is_err());
    assert!(board.place(Position::new(3, 4).unwrap(), Dark).is_err());
    assert!(board.place(Position::new(3, 5).unwrap(), Dark).is_err());
    assert!(board.place(Position::new(3, 6).unwrap(), Dark).is_err());

    assert!(board.place(Position::new(3, 2).unwrap(), Light).is_err());
    assert!(board.place(Position::new(3, 3).unwrap(), Light).is_err());
    assert!(board.place(Position::new(3, 4).unwrap(), Light).is_err());
    assert!(board.place(Position::new(3, 5).unwrap(), Light).is_err());
    assert!(board.place(Position::new(3, 6).unwrap(), Light).is_err());

    assert_eq!(
        board,
        fig([
            "________", "________", "________", "___o____", "___o____", "___o____", "________",
            "________",
        ])
    );
}

#[test]
fn test_place_err2() {
    let mut board = fig([
        "x__x__x_", "_x_x_x__", "__xxx___", "xxx_xxxx", "__xxx___", "_x_x_x__", "x__x__x_",
        "___x___x",
    ]);

    assert!(board.place(Position::new(3, 3).unwrap(), Light).is_err());

    assert_eq!(
        board,
        fig([
            "x__x__x_", "_x_x_x__", "__xxx___", "xxx_xxxx", "__xxx___", "_x_x_x__", "x__x__x_",
            "___x___x",
        ])
    );
}

#[test]
fn test_place_err3() {
    let mut board = fig([
        "________", "________", "________", "________", "________", "________", "________",
        "_____x__",
    ]);

    assert!(board.place(Position::new(5, 6).unwrap(), Light).is_err());

    assert_eq!(
        board,
        fig([
            "________", "________", "________", "________", "________", "________", "________",
            "_____x__",
        ])
    );
}

#[test]
fn test_count_disks1() {
    let board = Board::new();

    assert_eq!(board.count_disks(&Dark), 0);
    assert_eq!(board.count_disks(&Light), 0);
}

#[test]
fn test_count_disks2() {
    let board = fig([
        "o__o__o_", "_x_x_x__", "__xxx___", "oxx_xxxo", "__xxx___", "_x_x_x__", "o__x__x_",
        "___o___o",
    ]);

    assert_eq!(board.count_disks(&Dark), 19);
    assert_eq!(board.count_disks(&Light), 8);
}

#[test]
fn test_count_legal_movs1() {
    let board = Board::new();

    assert_eq!(board.count_legal_movs(Dark), 0);
    assert_eq!(board.count_legal_movs(Light), 0);
}

#[test]
fn test_count_legal_movs2() {
    let board = fig([
        "________", "________", "________", "___o____", "___o____", "___o____", "___x____",
        "________",
    ]);

    assert_eq!(board.count_legal_movs(Dark), 1);
    assert_eq!(board.count_legal_movs(Light), 1);
}

#[test]
fn test_count_legal_movs3() {
    let board = fig([
        "________", "________", "________", "__xxx___", "___xo___", "________", "________",
        "________",
    ]);

    assert_eq!(board.count_legal_movs(Dark), 3);
    assert_eq!(board.count_legal_movs(Light), 3);
}
