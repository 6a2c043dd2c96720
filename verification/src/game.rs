use vstd::prelude::*;

use crate::board::{num_disks, num_legal, Board};
use crate::disk::Disk;
use crate::errors::BoardError;
use crate::position::{in_range, Position};
use crate::ray::{cell, flipped_cell, idx_of, placement_legal, turn_count_result};
use vstd::pervasive::unreached;

verus! {

/// The player whose turn it is.
#[derive(Clone, Copy, Debug, PartialEq, Eq, Structural)]
pub enum TurnPlayer {
    Dark,
    Light,
}

/// The disk color that a turn player places.
pub open spec fn turn_disk(t: TurnPlayer) -> Disk {
    match t {
        TurnPlayer::Dark => Disk::Dark,
        TurnPlayer::Light => Disk::Light,
    }
}

impl TurnPlayer {
    /// The opponent of `turn_player`.
    pub fn other(turn_player: &Self) -> (r: Self)
        ensures
            *turn_player is Dark ==> r is Light,
            *turn_player is Light ==> r is Dark,
    {
        match turn_player {
            TurnPlayer::Dark => TurnPlayer::Light,
            TurnPlayer::Light => TurnPlayer::Dark,
        }
    }

    /// Hands the turn to the opponent, in place.
    pub fn reverse(&mut self)
        ensures
            *old(self) is Dark ==> *final(self) is Light,
            *old(self) is Light ==> *final(self) is Dark,
    {
        *self = Self::other(self);
    }

    /// The disk color this player places.
    pub fn into_disk(self) -> (d: Disk)
        ensures
            d == turn_disk(self),
    {
        match self {
            TurnPlayer::Dark => Disk::Dark,
            TurnPlayer::Light => Disk::Light,
        }
    }
}

/// The outcome surface exposed after a game ends: the disk counts per color
/// and the winner by strict majority, with equal counts a draw.
pub struct GameResult {
    pub light_disks: usize,
    pub dark_disks: usize,
    pub winner: Option<TurnPlayer>,
}

impl GameResult {
    /// Computes the winner by comparing the two disk counts.
    pub fn new(light_disks: usize, dark_disks: usize) -> (r: GameResult)
        ensures
            r.light_disks == light_disks,
            r.dark_disks == dark_disks,
            dark_disks < light_disks ==> r.winner == Some(TurnPlayer::Light),
            dark_disks > light_disks ==> r.winner == Some(TurnPlayer::Dark),
            dark_disks == light_disks ==> r.winner is None,
    {
        let winner = if dark_disks < light_disks {
            Some(TurnPlayer::Light)
        } else if dark_disks > light_disks {
            Some(TurnPlayer::Dark)
        } else {
            None
        };
        GameResult { light_disks, dark_disks, winner }
    }
}

/// The capability surface a player supplies to the game loop: it is
/// initialized with a board snapshot, notified of placements, and asked for
/// a candidate move. Implementations live with the loop, outside the core.
pub trait Player {
    fn init(&mut self, board: Board);

    fn update(&mut self, pos: Position, disk: Disk);

    fn mov(&self) -> Position;
}

/// The presentation surface that the game loop keeps informed; the core
/// never calls back into it.
pub trait IO {
    fn game_start(&self, board: &Board);

    fn skip_turn(&self, turn: &TurnPlayer);

    fn start_turn(&self, turn: &TurnPlayer);

    fn before_mov(&self, board: &Board, turn: &TurnPlayer);

    fn after_illegal_mov(&self, pos: &Position, turn: &TurnPlayer);

    fn after_mov(&self, pos: &Position, turn: &TurnPlayer);

    fn after_update(&self, board: &Board);

    fn game_end(&self, board: &Board, result: &GameResult);
}

/// The decision core of one running game: the board, whose turn it is, and
/// how many turns in a row were skipped. The surrounding loop performs the
/// asking and showing; every rule decision stands here.
pub struct GameState {
    pub board: Board,
    pub turn: TurnPlayer,
    pub skip_count: i32,
}

impl GameState {
    /// The invariant of a running game.
    pub open spec fn wf(self) -> bool {
        self.board.wf() && 0 <= self.skip_count <= 2
    }

    /// A game over `board`, Dark to move, nothing skipped yet.
    pub fn new(board: Board) -> (g: GameState)
        requires
            board.wf(),
        ensures
            g.wf(),
            g.board@ == board@,
            g.turn is Dark,
            g.skip_count == 0,
    {
        GameState { board, turn: TurnPlayer::Dark, skip_count: 0 }
    }

    /// Whether the game has ended: both players had to skip in a row.
    pub fn ends_game(&self) -> (r: bool)
        ensures
            r == (self.skip_count >= 2),
    {
        self.skip_count >= 2
    }

    /// Whether the player to move has any legal placement.
    pub fn exists_legal_mov(&self) -> (r: bool)
        requires
            self.wf(),
        ensures
            r == (num_legal(self.board@, turn_disk(self.turn)) > 0),
    {
        self.board.exists_legal_mov(self.turn.into_disk())
    }

    /// Applies a move the loop has already validated: places the disk of
    /// the player to move, resets the skip count, and hands the turn over.
    /// The reported count is the number of flipped disks.
    pub fn update(&mut self, pos: Position) -> (r: i32)
        requires
            old(self).wf(),
            pos.valid(),
            placement_legal(old(self).board@, pos.x as int, pos.y as int, turn_disk(old(self).turn)),
        ensures
            final(self).wf(),
            final(self).skip_count == 0,
            old(self).turn is Dark ==> final(self).turn is Light,
            old(self).turn is Light ==> final(self).turn is Dark,
            Ok::<i32, BoardError>(r) == turn_count_result(
                old(self).board@,
                pos.x as int,
                pos.y as int,
                turn_disk(old(self).turn),
            ),
            forall|p: int|
                0 <= p < 64 ==> final(self).board@[p] == (if p == idx_of(
                    pos.x as int,
                    pos.y as int,
                ) {
                    Some(turn_disk(old(self).turn))
                } else if flipped_cell(
                    old(self).board@,
                    pos.x as int,
                    pos.y as int,
                    turn_disk(old(self).turn),
                    p,
                ) {
                    Some(turn_disk(old(self).turn))
                } else {
                    old(self).board@[p]
                }),
    {
        let disk = self.turn.into_disk();
        let r = match self.board.place(pos, disk) {
            Ok(n) => n,
            Err(_) => unreached(),
        };
        self.skip_count = 0;
        self.turn.reverse();
        r
    }

    /// Records that the player to move had to pass, and hands the turn over.
    pub fn skip_turn(&mut self)
        requires
            old(self).wf(),
            old(self).skip_count < 2,
        ensures
            final(self).wf(),
            final(self).board@ == old(self).board@,
            final(self).skip_count == old(self).skip_count + 1,
            old(self).turn is Dark ==> final(self).turn is Light,
            old(self).turn is Light ==> final(self).turn is Dark,
    {
        self.skip_count = self.skip_count + 1;
        self.turn.reverse();
    }

    /// The terminal outcome: both disk counts and the winner by majority.
    pub fn game_result(&self) -> (r: GameResult)
        requires
            self.wf(),
        ensures
            r.dark_disks as int == num_disks(self.board@, Disk::Dark),
            r.light_disks as int == num_disks(self.board@, Disk::Light),
            r.dark_disks < r.light_disks ==> r.winner == Some(TurnPlayer::Light),
            r.dark_disks > r.light_disks ==> r.winner == Some(TurnPlayer::Dark),
            r.dark_disks == r.light_disks ==> r.winner is None,
    {
        let dark_disks = self.board.count_disks(&Disk::Dark);
        let light_disks = self.board.count_disks(&Disk::Light);
        GameResult::new(light_disks, dark_disks)
    }
}

/// The four-disk starting position: Light at (3, 3) and (4, 4), Dark at
/// (4, 3) and (3, 4).
pub fn init_board() -> (b: Board)
    ensures
        b.wf(),
        cell(b@, 3, 3) == Some(Disk::Light),
        cell(b@, 4, 3) == Some(Disk::Dark),
        cell(b@, 3, 4) == Some(Disk::Dark),
        cell(b@, 4, 4) == Some(Disk::Light),
        forall|x: int, y: int|
            in_range(x, y) && !(3 <= x <= 4 && 3 <= y <= 4) ==> #[trigger] cell(b@, x, y) is None,
{
    let mut board = Board::new();
    board.set(&Position { x: 3, y: 3 }, Disk::Light);
    board.set(&Position { x: 4, y: 3 }, Disk::Dark);
    board.set(&Position { x: 3, y: 4 }, Disk::Dark);
    board.set(&Position { x: 4, y: 4 }, Disk::Light);
    proof {
        assert forall|x: int, y: int|
            in_range(x, y) && !(3 <= x <= 4 && 3 <= y <= 4) implies #[trigger] cell(
            board@,
            x,
            y,
        ) is None by {
            assert(idx_of(x, y) != idx_of(3, 3));
            assert(idx_of(x, y) != idx_of(4, 3));
            assert(idx_of(x, y) != idx_of(3, 4));
            assert(idx_of(x, y) != idx_of(4, 4));
        }
    }
    board
}

} // verus!
