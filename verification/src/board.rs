use vstd::prelude::*;

use crate::disk::Disk;
use crate::errors::{BoardError, ParseError};
use crate::position::{dir_of, direction_at, in_range, Direction, Position};
use crate::ray::{
    cell, count_from, dir_flips, flipped_cell, flipped_upto, flips_upto, idx_of, lemma_count_from_agree,
    lemma_count_from_bound, lemma_count_from_run, lemma_flips_upto_bounds, lemma_flips_upto_zero,
    lemma_idx_of_injective, lemma_rays_distinct, lemma_step_distinct, lemma_step_succ,
    lemma_dir_of_injective, lemma_step_zero, placement_legal, ray_covers, ray_fuel, shift_count,
    step_x, step_y, turn_count_result,
};
use vstd::pervasive::unreached;
use vstd::arithmetic::div_mod::{lemma_fundamental_div_mod, lemma_fundamental_div_mod_converse};
use vstd::string::{StrSliceExecFns, StringExecFns};

verus! {

/// How many cells among the first `n` backing indices hold a disk of color
/// `c`.
pub open spec fn count_disks_upto(b: Seq<Option<Disk>>, c: Disk, n: int) -> int
    decreases n,
{
    if n <= 0 {
        0
    } else {
        count_disks_upto(b, c, n - 1) + if b[n - 1] == Some(c) {
            1int
        } else {
            0int
        }
    }
}

/// How many cells of the whole board hold a disk of color `c`.
pub open spec fn num_disks(b: Seq<Option<Disk>>, c: Disk) -> int {
    count_disks_upto(b, c, 64)
}

/// How many of the first `q` cells, visited column by column as the
/// enumeration of `count_legal_movs` does, admit a legal placement by `c`.
pub open spec fn legal_upto(b: Seq<Option<Disk>>, c: Disk, q: int) -> int
    decreases q,
{
    if q <= 0 {
        0
    } else {
        legal_upto(b, c, q - 1) + if placement_legal(b, (q - 1) / 8, (q - 1) % 8, c) {
            1int
        } else {
            0int
        }
    }
}

/// How many cells of the whole board admit a legal placement by `c`.
pub open spec fn num_legal(b: Seq<Option<Disk>>, c: Disk) -> int {
    legal_upto(b, c, 64)
}

/// Whether `ch` is a symbol of the textual board layout.
pub open spec fn layout_char_ok(ch: char) -> bool {
    ch == 'o' || ch == 'x' || ch == '_'
}

/// The cell content that a layout symbol stands for.
pub open spec fn layout_cell(ch: char) -> Option<Disk> {
    if ch == 'o' {
        Some(Disk::Light)
    } else if ch == 'x' {
        Some(Disk::Dark)
    } else {
        None
    }
}

/// The two-character rendering of one cell.
pub open spec fn cell_text(o: Option<Disk>) -> Seq<char> {
    match o {
        Some(Disk::Light) => " o"@,
        Some(Disk::Dark) => " x"@,
        None => " _"@,
    }
}

/// The rendering of the first `n` cells of row `y`.
pub open spec fn row_cells_text(b: Seq<Option<Disk>>, y: int, n: int) -> Seq<char>
    decreases n,
{
    if n <= 0 {
        Seq::empty()
    } else {
        row_cells_text(b, y, n - 1) + cell_text(cell(b, n - 1, y))
    }
}

/// The one-based label of row `y`, padded as the rendering wants it.
pub open spec fn row_label(y: int) -> Seq<char> {
    if y == 0 {
        "1  "@
    } else if y == 1 {
        "2  "@
    } else if y == 2 {
        "3  "@
    } else if y == 3 {
        "4  "@
    } else if y == 4 {
        "5  "@
    } else if y == 5 {
        "6  "@
    } else if y == 6 {
        "7  "@
    } else {
        "8  "@
    }
}

/// The rendering of row `y`, with a line break after every row but the last.
pub open spec fn row_text(b: Seq<Option<Disk>>, y: int) -> Seq<char> {
    row_label(y) + row_cells_text(b, y, 8) + if y < 7 {
        "\n"@
    } else {
        Seq::<char>::empty()
    }
}

/// The rendering of the first `n` rows.
pub open spec fn rows_text(b: Seq<Option<Disk>>, n: int) -> Seq<char>
    decreases n,
{
    if n <= 0 {
        Seq::empty()
    } else {
        rows_text(b, n - 1) + row_text(b, n - 1)
    }
}

/// The full rendering of a board: header, then the eight rows.
pub open spec fn board_text(b: Seq<Option<Disk>>) -> Seq<char> {
    "  x 1 2 3 4 5 6 7 8\ny\n\n"@ + rows_text(b, 8)
}

/// The 64-cell grid together with the move-legality and flip-application
/// logic. The cell at `(x, y)` sits at backing index `8 * y + x`.
#[derive(Debug, PartialEq, Eq, Clone)]
pub struct Board {
    disks: Vec<Option<Disk>>,
}

impl View for Board {
    type V = Seq<Option<Disk>>;

    closed spec fn view(&self) -> Seq<Option<Disk>> {
        self.disks@
    }
}

impl Board {
    /// The structural invariant: exactly 64 cells.
    pub open spec fn wf(self) -> bool {
        self@.len() == 64
    }

    /// An empty board.
    pub fn new() -> (b: Board)
        ensures
            b.wf(),
            forall|p: int| 0 <= p < 64 ==> b@[p] is None,
    {
        let mut disks: Vec<Option<Disk>> = Vec::new();
        let mut i: usize = 0;
        while i < 64
            invariant
                i <= 64,
                disks@.len() == i as int,
                forall|p: int| 0 <= p < i ==> disks@[p] is None,
            decreases 64 - i,
        {
            disks.push(None);
            i = i + 1;
        }
        Board { disks }
    }

    /// Reads a board from its textual layout: 64 characters row-major,
    /// `'o'` a Light disk, `'x'` a Dark disk, `'_'` an empty cell. The scan
    /// runs cell by cell, so the first offending character decides which
    /// error is reported.
    pub fn try_from_str(source: &str) -> (r: Result<Board, ParseError>)
        ensures
            r is Ok <==> source@.len() >= 64 && (forall|k: int|
                0 <= k < 64 ==> layout_char_ok(#[trigger] source@[k])),
            r matches Ok(b) ==> b.wf() && forall|k: int|
                0 <= k < 64 ==> b@[k] == layout_cell(#[trigger] source@[k]),
            r == Err::<Board, ParseError>(ParseError::InvalidChar) <==> exists|k: int|
                0 <= k < 64 && k < source@.len() && !layout_char_ok(#[trigger] source@[k]) && (
                forall|j: int| 0 <= j < k ==> layout_char_ok(#[trigger] source@[j])),
            r == Err::<Board, ParseError>(ParseError::SourceTooShort) <==> source@.len() < 64 && (
            forall|k: int| 0 <= k < source@.len() ==> layout_char_ok(#[trigger] source@[k])),
    {
        let len = source.unicode_len();
        let mut board = Board::new();
        for i in 0..64usize
            invariant
                board.wf(),
                len as int == source@.len(),
                i as int <= source@.len(),
                forall|k: int| 0 <= k < i ==> layout_char_ok(#[trigger] source@[k]),
                forall|k: int| 0 <= k < i ==> board@[k] == layout_cell(#[trigger] source@[k]),
                forall|k: int| i <= k < 64 ==> board@[k] is None,
        {
            if i >= len {
                return Err(ParseError::SourceTooShort);
            }
            let c = source.get_char(i);
            let x = (i % 8) as i32;
            let y = (i / 8) as i32;
            proof {
                lemma_fundamental_div_mod(i as int, 8);
            }
            let pos = Position { x, y };
            if c == 'o' {
                board.set(&pos, Disk::Light);
            } else if c == 'x' {
                board.set(&pos, Disk::Dark);
            } else if c == '_' {
            } else {
                return Err(ParseError::InvalidChar);
            }
        }
        Ok(board)
    }

    /// The backing index of a valid position.
    fn get_index(pos: &Position) -> (i: usize)
        requires
            pos.valid(),
        ensures
            i as int == idx_of(pos.x as int, pos.y as int),
            i < 64,
    {
        (8 * pos.y + pos.x) as usize
    }

    /// The occupant of the cell at `pos`, or nothing.
    pub fn get(&self, pos: &Position) -> (r: Option<Disk>)
        requires
            self.wf(),
            pos.valid(),
        ensures
            r == cell(self@, pos.x as int, pos.y as int),
    {
        let i = Self::get_index(pos);
        self.disks[i]
    }

    /// Whether the cell at `pos` holds no disk.
    pub fn is_empty(&self, pos: &Position) -> (r: bool)
        requires
            self.wf(),
            pos.valid(),
        ensures
            r == (cell(self@, pos.x as int, pos.y as int) is None),
    {
        self.get(pos).is_none()
    }

    /// Unconditional overwrite of one cell, for board seeding only; it
    /// bypasses every legality check.
    pub fn set(&mut self, pos: &Position, disk: Disk)
        requires
            old(self).wf(),
            pos.valid(),
        ensures
            final(self).wf(),
            final(self)@ == old(self)@.update(
                idx_of(pos.x as int, pos.y as int),
                Some(disk),
            ),
    {
        let i = Self::get_index(pos);
        self.disks.set(i, Some(disk));
    }

    /// Walks the ray from `start` onward in direction `dir` and counts the
    /// unbroken run of non-`end_disk` disks up to the first `end_disk`; the
    /// board edge or an empty cell ends the walk with nothing to flip.
    fn count_line_disks_end_another_color(
        &self,
        start: Position,
        dir: Direction,
        end_disk: Disk,
    ) -> (r: Result<i32, BoardError>)
        requires
            self.wf(),
            start.valid(),
        ensures
            r matches Ok(n) ==> 0 <= n && count_from(
                self@,
                start.x as int,
                start.y as int,
                dir,
                end_disk,
            ) == Some(n as nat),
            r matches Err(e) ==> e == BoardError::NoDiskToFlip && count_from(
                self@,
                start.x as int,
                start.y as int,
                dir,
                end_disk,
            ) is None,
    {
        let ghost sx = start.x as int;
        let ghost sy = start.y as int;
        let mut cur = start;
        let mut k: i32 = 0;
        loop
            invariant
                self.wf(),
                cur.valid(),
                start.valid(),
                sx == start.x as int,
                sy == start.y as int,
                0 <= k <= 7,
                k as int + ray_fuel(cur.x as int, cur.y as int, dir) == ray_fuel(sx, sy, dir),
                count_from(self@, sx, sy, dir, end_disk) == shift_count(
                    count_from(self@, cur.x as int, cur.y as int, dir, end_disk),
                    k as nat,
                ),
            decreases ray_fuel(cur.x as int, cur.y as int, dir),
        {
            match self.get(&cur) {
                None => {
                    return Err(BoardError::NoDiskToFlip);
                },
                Some(d0) => {
                    if d0 == end_disk {
                        return Ok(k);
                    }
                    match cur.next(&dir) {
                        Err(_) => {
                            return Err(BoardError::NoDiskToFlip);
                        },
                        Ok(p) => {
                            cur = p;
                            k = k + 1;
                        },
                    }
                },
            }
        }
    }

    /// The flip count that one direction contributes to a placement at the
    /// empty cell `pos` by `end_disk`; an empty contribution is an error, as
    /// the caller treats such a direction as worth nothing.
    fn count_line_disks_sandwitched_by_another_colors(
        &self,
        pos: Position,
        dir: Direction,
        end_disk: Disk,
    ) -> (r: Result<i32, BoardError>)
        requires
            self.wf(),
            pos.valid(),
            cell(self@, pos.x as int, pos.y as int) is None,
        ensures
            r matches Ok(n) ==> 1 <= n && dir_flips(self@, pos.x as int, pos.y as int, dir, end_disk)
                == n as nat,
            r matches Err(e) ==> e == BoardError::NoDiskToFlip && dir_flips(
                self@,
                pos.x as int,
                pos.y as int,
                dir,
                end_disk,
            ) == 0,
    {
        match pos.next(&dir) {
            Err(_) => Err(BoardError::NoDiskToFlip),
            Ok(first) => match self.count_line_disks_end_another_color(first, dir, end_disk) {
                Ok(n) => if n == 0 {
                    Err(BoardError::NoDiskToFlip)
                } else {
                    Ok(n)
                },
                Err(_) => Err(BoardError::NoDiskToFlip),
            },
        }
    }

    /// Read-only legality and flip-count query for a placement at `pos` by
    /// `disk`: the total flip count over all eight directions, or the error
    /// that rules the placement out. The board is never touched.
    pub fn count_turn_disks(&self, pos: Position, disk: Disk) -> (r: Result<i32, BoardError>)
        requires
            self.wf(),
            pos.valid(),
        ensures
            r == turn_count_result(self@, pos.x as int, pos.y as int, disk),
    {
        let ghost x = pos.x as int;
        let ghost y = pos.y as int;
        if !self.is_empty(&pos) {
            return Err(BoardError::OccupiedCell);
        }
        let mut sum: i32 = 0;
        for i in 0..8usize
            invariant
                self.wf(),
                pos.valid(),
                x == pos.x as int,
                y == pos.y as int,
                cell(self@, x, y) is None,
                0 <= sum as int <= 8 * (i as int),
                sum as int == flips_upto(self@, x, y, disk, i as int),
        {
            let d = direction_at(i);
            proof {
                lemma_count_from_bound(self@, x + d.dx(), y + d.dy(), d, disk);
            }
            match self.count_line_disks_sandwitched_by_another_colors(pos, d, disk) {
                Ok(n) => {
                    sum = sum + n;
                },
                Err(_) => {},
            }
        }
        if sum == 0 {
            Err(BoardError::NoDiskToFlip)
        } else {
            Ok(sum)
        }
    }

    /// Whether `disk` may legally be placed at `pos`.
    pub fn can_place(&self, pos: Position, disk: Disk) -> (r: bool)
        requires
            self.wf(),
            pos.valid(),
        ensures
            r == placement_legal(self@, pos.x as int, pos.y as int, disk),
    {
        let r = self.count_turn_disks(pos, disk);
        proof {
            lemma_flips_upto_bounds(self@, pos.x as int, pos.y as int, disk, 8);
        }
        r.is_ok()
    }

    /// How many of the 64 cells admit a legal placement by `disk`.
    pub fn count_legal_movs(&self, disk: Disk) -> (r: i32)
        requires
            self.wf(),
        ensures
            r as int == num_legal(self@, disk),
    {
        let mut count: i32 = 0;
        for x in 0..8i32
            invariant
                self.wf(),
                0 <= count as int <= 8 * (x as int),
                count as int == legal_upto(self@, disk, 8 * (x as int)),
        {
            for y in 0..8i32
                invariant
                    self.wf(),
                    0 <= x < 8,
                    0 <= count as int <= 8 * (x as int) + y as int,
                    count as int == legal_upto(self@, disk, 8 * (x as int) + y as int),
            {
                let pos = Position { x, y };
                proof {
                    lemma_fundamental_div_mod_converse(
                        8 * (x as int) + y as int,
                        8,
                        x as int,
                        y as int,
                    );
                }
                if self.can_place(pos, disk) {
                    count = count + 1;
                }
            }
        }
        count
    }

    /// Whether `disk` has any legal placement at all.
    pub fn exists_legal_mov(&self, disk: Disk) -> (r: bool)
        requires
            self.wf(),
        ensures
            r == (num_legal(self@, disk) > 0),
    {
        self.count_legal_movs(disk) > 0
    }

    /// Commit pass of one direction: turns the `n` sandwiched disks after
    /// `pos` in direction `dir` to `end_disk`'s color, by cell index.
    fn turn_line_disks_end_another_color(
        &mut self,
        pos: Position,
        dir: Direction,
        end_disk: Disk,
        n: i32,
    )
        requires
            old(self).wf(),
            pos.valid(),
            0 <= n <= 8,
            forall|k: int|
                1 <= k <= n ==> in_range(
                    #[trigger] step_x(pos.x as int, dir, k),
                    step_y(pos.y as int, dir, k),
                ),
        ensures
            final(self).wf(),
            forall|p: int|
                0 <= p < 64 ==> final(self)@[p] == (if ray_covers(
                    pos.x as int,
                    pos.y as int,
                    dir,
                    n as int,
                    p,
                ) {
                    Some(end_disk)
                } else {
                    old(self)@[p]
                }),
    {
        let ghost x = pos.x as int;
        let ghost y = pos.y as int;
        let mut cur = pos;
        let mut i: i32 = 0;
        while i < n
            invariant
                self.wf(),
                pos.valid(),
                x == pos.x as int,
                y == pos.y as int,
                0 <= i <= n,
                n <= 8,
                cur.valid(),
                cur.x as int == step_x(x, dir, i as int),
                cur.y as int == step_y(y, dir, i as int),
                forall|k: int|
                    1 <= k <= n ==> in_range(#[trigger] step_x(x, dir, k), step_y(y, dir, k)),
                forall|p: int|
                    0 <= p < 64 ==> self@[p] == (if ray_covers(x, y, dir, i as int, p) {
                        Some(end_disk)
                    } else {
                        old(self)@[p]
                    }),
            decreases n - i,
        {
            proof {
                lemma_step_zero(x, y, dir);
                lemma_step_succ(x, y, dir, i as int);
                assert(in_range(step_x(x, dir, i + 1), step_y(y, dir, i + 1)));
            }
            let nxt = match cur.next(&dir) {
                Ok(q) => q,
                Err(_) => unreached(),
            };
            let ghost bpre = self@;
            self.set(&nxt, end_disk);
            proof {
                let q = idx_of(step_x(x, dir, i + 1), step_y(y, dir, i + 1));
                assert forall|p: int|
                    0 <= p < 64 implies self@[p] == (if ray_covers(x, y, dir, i + 1, p) {
                    Some(end_disk)
                } else {
                    old(self)@[p]
                }) by {
                    if p == q {
                        assert(ray_covers(x, y, dir, i + 1, p));
                    } else {
                        assert(self@[p] == bpre[p]);
                        if ray_covers(x, y, dir, i + 1, p) {
                            let k = choose|k: int|
                                1 <= k <= i + 1 && in_range(
                                    #[trigger] step_x(x, dir, k),
                                    step_y(y, dir, k),
                                ) && p == idx_of(step_x(x, dir, k), step_y(y, dir, k));
                            assert(k != i + 1);
                            assert(ray_covers(x, y, dir, i as int, p));
                        }
                    }
                }
            }
            cur = nxt;
            i = i + 1;
        }
    }

    /// The flip pass of one direction: same legality logic as the count
    /// pass, then the commit over the identical walk, so the two passes
    /// cannot disagree about which cells are covered.
    fn turn_line_disks_sandwitched_by_another_colors(
        &mut self,
        pos: Position,
        dir: Direction,
        end_disk: Disk,
    ) -> (r: Result<i32, BoardError>)
        requires
            old(self).wf(),
            pos.valid(),
            cell(old(self)@, pos.x as int, pos.y as int) is None,
        ensures
            final(self).wf(),
            r matches Ok(n) ==> 1 <= n <= 8 && dir_flips(
                old(self)@,
                pos.x as int,
                pos.y as int,
                dir,
                end_disk,
            ) == n as nat && forall|p: int|
                0 <= p < 64 ==> final(self)@[p] == (if ray_covers(
                    pos.x as int,
                    pos.y as int,
                    dir,
                    n as int,
                    p,
                ) {
                    Some(end_disk)
                } else {
                    old(self)@[p]
                }),
            r matches Err(e) ==> e == BoardError::NoDiskToFlip && dir_flips(
                old(self)@,
                pos.x as int,
                pos.y as int,
                dir,
                end_disk,
            ) == 0 && final(self)@ == old(self)@,
    {
        let ghost x = pos.x as int;
        let ghost y = pos.y as int;
        match self.count_line_disks_sandwitched_by_another_colors(pos, dir, end_disk) {
            Ok(n) => {
                proof {
                    lemma_count_from_bound(self@, x + dir.dx(), y + dir.dy(), dir, end_disk);
                    lemma_count_from_run(
                        self@,
                        x + dir.dx(),
                        y + dir.dy(),
                        dir,
                        end_disk,
                        n as nat,
                    );
                    assert forall|k: int|
                        1 <= k <= n implies in_range(
                        #[trigger] step_x(x, dir, k),
                        step_y(y, dir, k),
                    ) by {
                        lemma_step_succ(x, y, dir, k - 1);
                        assert(in_range(
                            step_x(x + dir.dx(), dir, k - 1),
                            step_y(y + dir.dy(), dir, k - 1),
                        ) && cell(
                            self@,
                            step_x(x + dir.dx(), dir, k - 1),
                            step_y(y + dir.dy(), dir, k - 1),
                        ) == Some(end_disk.opposite()));
                    }
                }
                self.turn_line_disks_end_another_color(pos, dir, end_disk, n);
                Ok(n)
            },
            Err(e) => Err(e),
        }
    }

    /// Legality check and flip application in one call: on success every
    /// sandwiched run around `pos` is turned to `disk`'s color and the flip
    /// count is reported; on failure the board is left untouched. The target
    /// cell itself is not written.
    pub fn turn_disks(&mut self, pos: Position, disk: Disk) -> (r: Result<i32, BoardError>)
        requires
            old(self).wf(),
            pos.valid(),
        ensures
            final(self).wf(),
            r == turn_count_result(old(self)@, pos.x as int, pos.y as int, disk),
            r is Err ==> final(self)@ == old(self)@,
            r is Ok ==> forall|p: int|
                0 <= p < 64 ==> final(self)@[p] == (if flipped_cell(
                    old(self)@,
                    pos.x as int,
                    pos.y as int,
                    disk,
                    p,
                ) {
                    Some(disk)
                } else {
                    old(self)@[p]
                }),
    {
        let ghost x = pos.x as int;
        let ghost y = pos.y as int;
        let ghost b0 = old(self)@;
        if !self.is_empty(&pos) {
            return Err(BoardError::OccupiedCell);
        }
        let mut sum: i32 = 0;
        for i in 0..8usize
            invariant
                self.wf(),
                pos.valid(),
                x == pos.x as int,
                y == pos.y as int,
                b0 == old(self)@,
                b0.len() == 64,
                cell(b0, x, y) is None,
                0 <= sum as int <= 8 * (i as int),
                sum as int == flips_upto(b0, x, y, disk, i as int),
                forall|p: int|
                    0 <= p < 64 ==> self@[p] == (if flipped_upto(b0, x, y, disk, i as int, p) {
                        Some(disk)
                    } else {
                        b0[p]
                    }),
        {
            let d = direction_at(i);
            proof {
                lemma_step_zero(x, y, d);
                // no cell of direction `d`'s ray has been flipped by the
                // directions already processed, so the walk of `d` reads the
                // same cells as it would on the board the call began with
                assert forall|k: int|
                    0 <= k && in_range(
                        #[trigger] step_x(x + d.dx(), d, k),
                        step_y(y + d.dy(), d, k),
                    ) implies cell(self@, step_x(x + d.dx(), d, k), step_y(y + d.dy(), d, k))
                    == cell(b0, step_x(x + d.dx(), d, k), step_y(y + d.dy(), d, k)) by {
                    lemma_step_succ(x, y, d, k);
                    let sx = step_x(x, d, k + 1);
                    let sy = step_y(y, d, k + 1);
                    let p = idx_of(sx, sy);
                    assert(0 <= p < 64);
                    if flipped_upto(b0, x, y, disk, i as int, p) {
                        let i0 = choose|i0: int|
                            0 <= i0 < i && ray_covers(
                                x,
                                y,
                                #[trigger] dir_of(i0),
                                dir_flips(b0, x, y, dir_of(i0), disk) as int,
                                p,
                            );
                        let k0 = choose|k0: int|
                            1 <= k0 <= dir_flips(b0, x, y, dir_of(i0), disk) as int && in_range(
                                #[trigger] step_x(x, dir_of(i0), k0),
                                step_y(y, dir_of(i0), k0),
                            ) && p == idx_of(step_x(x, dir_of(i0), k0), step_y(y, dir_of(i0), k0));
                        lemma_dir_of_injective(i0, i as int);
                        lemma_idx_of_injective(
                            sx,
                            sy,
                            step_x(x, dir_of(i0), k0),
                            step_y(y, dir_of(i0), k0),
                        );
                        lemma_rays_distinct(x, y, d, dir_of(i0), k + 1, k0);
                        assert(false);
                    }
                }
                lemma_count_from_agree(self@, b0, x + d.dx(), y + d.dy(), d, disk);
                // the origin sits on no ray, so it is still empty
                if flipped_upto(b0, x, y, disk, i as int, idx_of(x, y)) {
                    let i0 = choose|i0: int|
                        0 <= i0 < i && ray_covers(
                            x,
                            y,
                            #[trigger] dir_of(i0),
                            dir_flips(b0, x, y, dir_of(i0), disk) as int,
                            idx_of(x, y),
                        );
                    let k0 = choose|k0: int|
                        1 <= k0 <= dir_flips(b0, x, y, dir_of(i0), disk) as int && in_range(
                            #[trigger] step_x(x, dir_of(i0), k0),
                            step_y(y, dir_of(i0), k0),
                        ) && idx_of(x, y) == idx_of(
                            step_x(x, dir_of(i0), k0),
                            step_y(y, dir_of(i0), k0),
                        );
                    lemma_idx_of_injective(
                        x,
                        y,
                        step_x(x, dir_of(i0), k0),
                        step_y(y, dir_of(i0), k0),
                    );
                    lemma_step_zero(x, y, dir_of(i0));
                    lemma_step_distinct(x, y, dir_of(i0), k0, 0);
                    assert(false);
                }
                assert(cell(self@, x, y) is None);
                lemma_count_from_bound(b0, x + d.dx(), y + d.dy(), d, disk);
            }
            let ghost bpre = self@;
            match self.turn_line_disks_sandwitched_by_another_colors(pos, d, disk) {
                Ok(n) => {
                    sum = sum + n;
                    proof {
                        assert forall|p: int|
                            0 <= p < 64 implies self@[p] == (if flipped_upto(
                            b0,
                            x,
                            y,
                            disk,
                            i + 1,
                            p,
                        ) {
                            Some(disk)
                        } else {
                            b0[p]
                        }) by {
                            if ray_covers(x, y, d, n as int, p) {
                                assert(ray_covers(
                                    x,
                                    y,
                                    dir_of(i as int),
                                    dir_flips(b0, x, y, dir_of(i as int), disk) as int,
                                    p,
                                ));
                                assert(flipped_upto(b0, x, y, disk, i + 1, p));
                            } else {
                                if flipped_upto(b0, x, y, disk, i + 1, p) {
                                    let i0 = choose|i0: int|
                                        0 <= i0 < i + 1 && ray_covers(
                                            x,
                                            y,
                                            #[trigger] dir_of(i0),
                                            dir_flips(b0, x, y, dir_of(i0), disk) as int,
                                            p,
                                        );
                                    assert(i0 != i);
                                    assert(flipped_upto(b0, x, y, disk, i as int, p));
                                }
                                if flipped_upto(b0, x, y, disk, i as int, p) {
                                    let i0 = choose|i0: int|
                                        0 <= i0 < i && ray_covers(
                                            x,
                                            y,
                                            #[trigger] dir_of(i0),
                                            dir_flips(b0, x, y, dir_of(i0), disk) as int,
                                            p,
                                        );
                                    assert(flipped_upto(b0, x, y, disk, i + 1, p));
                                }
                            }
                        }
                    }
                },
                Err(_) => {
                    proof {
                        assert forall|p: int|
                            0 <= p < 64 implies self@[p] == (if flipped_upto(
                            b0,
                            x,
                            y,
                            disk,
                            i + 1,
                            p,
                        ) {
                            Some(disk)
                        } else {
                            b0[p]
                        }) by {
                            if flipped_upto(b0, x, y, disk, i + 1, p) {
                                let i0 = choose|i0: int|
                                    0 <= i0 < i + 1 && ray_covers(
                                        x,
                                        y,
                                        #[trigger] dir_of(i0),
                                        dir_flips(b0, x, y, dir_of(i0), disk) as int,
                                        p,
                                    );
                                assert(i0 != i);
                                assert(flipped_upto(b0, x, y, disk, i as int, p));
                            }
                            if flipped_upto(b0, x, y, disk, i as int, p) {
                                let i0 = choose|i0: int|
                                    0 <= i0 < i && ray_covers(
                                        x,
                                        y,
                                        #[trigger] dir_of(i0),
                                        dir_flips(b0, x, y, dir_of(i0), disk) as int,
                                        p,
                                    );
                                assert(flipped_upto(b0, x, y, disk, i + 1, p));
                            }
                        }
                    }
                },
            }
        }
        if sum == 0 {
            proof {
                lemma_flips_upto_zero(b0, x, y, disk, 8);
                assert forall|p: int| 0 <= p < 64 implies self@[p] == b0[p] by {
                    if flipped_upto(b0, x, y, disk, 8, p) {
                        let i0 = choose|i0: int|
                            0 <= i0 < 8 && ray_covers(
                                x,
                                y,
                                #[trigger] dir_of(i0),
                                dir_flips(b0, x, y, dir_of(i0), disk) as int,
                                p,
                            );
                        assert(dir_flips(b0, x, y, dir_of(i0), disk) == 0);
                        assert(false);
                    }
                }
                assert(self@ =~= b0);
            }
            return Err(BoardError::NoDiskToFlip);
        }
        Ok(sum)
    }

    /// The one externally meaningful state change: places `disk` at `pos`
    /// when legal, flipping every sandwiched run and reporting the flip
    /// count; on failure the board is left untouched.
    pub fn place(&mut self, pos: Position, disk: Disk) -> (r: Result<i32, BoardError>)
        requires
            old(self).wf(),
            pos.valid(),
        ensures
            final(self).wf(),
            r == turn_count_result(old(self)@, pos.x as int, pos.y as int, disk),
            r is Err ==> final(self)@ == old(self)@,
            r is Ok ==> forall|p: int|
                0 <= p < 64 ==> final(self)@[p] == (if p == idx_of(pos.x as int, pos.y as int) {
                    Some(disk)
                } else if flipped_cell(old(self)@, pos.x as int, pos.y as int, disk, p) {
                    Some(disk)
                } else {
                    old(self)@[p]
                }),
    {
        match self.turn_disks(pos, disk) {
            Ok(c0) => {
                self.set(&pos, disk);
                Ok(c0)
            },
            Err(e) => Err(e),
        }
    }

    /// The padded one-based label of a row, as `render` prints it.
    fn row_label_str(y: usize) -> (r: &'static str)
        requires
            y < 8,
        ensures
            r@ == row_label(y as int),
    {
        if y == 0 {
            "1  "
        } else if y == 1 {
            "2  "
        } else if y == 2 {
            "3  "
        } else if y == 3 {
            "4  "
        } else if y == 4 {
            "5  "
        } else if y == 5 {
            "6  "
        } else if y == 6 {
            "7  "
        } else {
            "8  "
        }
    }

    /// The human-readable rendering: a column header, one-based row labels,
    /// and the symbols `o`, `x`, `_` for the cells.
    pub fn render(&self) -> (r: String)
        requires
            self.wf(),
        ensures
            r@ == board_text(self@),
    {
        let mut out = String::new();
        out.append("  x 1 2 3 4 5 6 7 8\ny\n\n");
        for y in 0..8usize
            invariant
                self.wf(),
                out@ == "  x 1 2 3 4 5 6 7 8\ny\n\n"@ + rows_text(self@, y as int),
        {
            out.append(Self::row_label_str(y));
            for x in 0..8usize
                invariant
                    self.wf(),
                    y < 8,
                    out@ == "  x 1 2 3 4 5 6 7 8\ny\n\n"@ + rows_text(self@, y as int)
                        + row_label(y as int) + row_cells_text(self@, y as int, x as int),
            {
                let pos = Position { x: x as i32, y: y as i32 };
                match self.get(&pos) {
                    Some(Disk::Light) => out.append(" o"),
                    Some(Disk::Dark) => out.append(" x"),
                    None => out.append(" _"),
                }
                proof {
                    assert(out@ =~= "  x 1 2 3 4 5 6 7 8\ny\n\n"@ + rows_text(self@, y as int)
                        + row_label(y as int) + row_cells_text(self@, y as int, x as int + 1));
                }
            }
            if y < 7 {
                out.append("\n");
            }
            proof {
                assert(out@ =~= "  x 1 2 3 4 5 6 7 8\ny\n\n"@ + rows_text(
                    self@,
                    y as int + 1,
                ));
            }
        }
        out
    }

    /// How many cells currently hold a disk of the given color.
    pub fn count_disks(&self, disk: &Disk) -> (r: usize)
        requires
            self.wf(),
        ensures
            r as int == num_disks(self@, *disk),
    {
        let mut r: usize = 0;
        let mut i: usize = 0;
        while i < 64
            invariant
                self.wf(),
                i <= 64,
                r <= i,
                r as int == count_disks_upto(self@, *disk, i as int),
            decreases 64 - i,
        {
            match self.disks[i] {
                Some(d) => {
                    if d == *disk {
                        r = r + 1;
                    }
                },
                None => {},
            }
            i = i + 1;
        }
        r
    }
}

} // verus!
