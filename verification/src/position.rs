use vstd::prelude::*;

use crate::errors::PositionError;

verus! {

/// One of the eight fixed unit directions of the line scan, in board
/// coordinates where "up" increases `y`.
#[derive(Clone, Copy, Debug, PartialEq, Eq, Structural)]
pub enum Direction {
    Up,
    UpRight,
    Right,
    DownRight,
    Down,
    DownLeft,
    Left,
    UpLeft,
}

impl Direction {
    /// The x component of this direction's unit vector.
    pub open spec fn dx(self) -> int {
        match self {
            Direction::Up => 0,
            Direction::UpRight => 1,
            Direction::Right => 1,
            Direction::DownRight => 1,
            Direction::Down => 0,
            Direction::DownLeft => -1,
            Direction::Left => -1,
            Direction::UpLeft => -1,
        }
    }

    /// The y component of this direction's unit vector.
    pub open spec fn dy(self) -> int {
        match self {
            Direction::Up => 1,
            Direction::UpRight => 1,
            Direction::Right => 0,
            Direction::DownRight => -1,
            Direction::Down => -1,
            Direction::DownLeft => -1,
            Direction::Left => 0,
            Direction::UpLeft => 1,
        }
    }

    /// The unit vector of this direction, as executable integers.
    pub fn tuple(&self) -> (r: (i32, i32))
        ensures
            r.0 as int == self.dx(),
            r.1 as int == self.dy(),
    {
        match *self {
            Direction::Up => (0, 1),
            Direction::UpRight => (1, 1),
            Direction::Right => (1, 0),
            Direction::DownRight => (1, -1),
            Direction::Down => (0, -1),
            Direction::DownLeft => (-1, -1),
            Direction::Left => (-1, 0),
            Direction::UpLeft => (-1, 1),
        }
    }
}

/// The direction with index `i` in the fixed enumeration order of the scan.
pub open spec fn dir_of(i: int) -> Direction {
    if i == 0 {
        Direction::Up
    } else if i == 1 {
        Direction::UpRight
    } else if i == 2 {
        Direction::Right
    } else if i == 3 {
        Direction::DownRight
    } else if i == 4 {
        Direction::Down
    } else if i == 5 {
        Direction::DownLeft
    } else if i == 6 {
        Direction::Left
    } else {
        Direction::UpLeft
    }
}

/// Executable counterpart of `dir_of`, used to walk all eight directions.
pub fn direction_at(i: usize) -> (d: Direction)
    requires
        i < 8,
    ensures
        d == dir_of(i as int),
{
    if i == 0 {
        Direction::Up
    } else if i == 1 {
        Direction::UpRight
    } else if i == 2 {
        Direction::Right
    } else if i == 3 {
        Direction::DownRight
    } else if i == 4 {
        Direction::Down
    } else if i == 5 {
        Direction::DownLeft
    } else if i == 6 {
        Direction::Left
    } else {
        Direction::UpLeft
    }
}

/// Whether `(x, y)` lies on the 8x8 grid.
pub open spec fn in_range(x: int, y: int) -> bool {
    0 <= x < 8 && 0 <= y < 8
}

/// A (column, row) coordinate pair; valid values lie on the 8x8 grid and are
/// constructed only through the validating factory `Position::new`.
#[derive(Clone, Copy, Debug, PartialEq, Eq, Structural)]
pub struct Position {
    pub x: i32,
    pub y: i32,
}

impl Position {
    /// The invariant of every position the factory hands out.
    pub open spec fn valid(self) -> bool {
        in_range(self.x as int, self.y as int)
    }

    /// Validating factory: fails on any coordinate outside `[0, 8)`.
    pub fn new(x: i32, y: i32) -> (r: Result<Position, PositionError>)
        ensures
            r is Ok <==> in_range(x as int, y as int),
            r matches Ok(p) ==> p.x == x && p.y == y && p.valid(),
            r matches Err(e) ==> e == PositionError::InvalidCoordinate,
    {
        if x < 0 || x >= 8 {
            return Err(PositionError::InvalidCoordinate);
        }
        if y < 0 || y >= 8 {
            return Err(PositionError::InvalidCoordinate);
        }
        Ok(Position { x, y })
    }

    /// Offsets this position by one unit step in `dir` and re-validates;
    /// failure signals that the ray left the board.
    pub fn next(&self, dir: &Direction) -> (r: Result<Position, PositionError>)
        requires
            self.valid(),
        ensures
            r is Ok <==> in_range(self.x + dir.dx(), self.y + dir.dy()),
            r matches Ok(p) ==> p.x == self.x + dir.dx() && p.y == self.y + dir.dy()
                && p.valid(),
            r matches Err(e) ==> e == PositionError::OffBoard,
    {
        let (dx, dy) = dir.tuple();
        let x = self.x + dx;
        let y = self.y + dy;
        if x < 0 || x >= 8 || y < 0 || y >= 8 {
            return Err(PositionError::OffBoard);
        }
        Ok(Position { x, y })
    }
}

} // verus!
