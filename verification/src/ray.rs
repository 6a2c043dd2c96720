use vstd::prelude::*;

use crate::disk::Disk;
use crate::errors::BoardError;
use crate::position::{dir_of, in_range, Direction};
use vstd::arithmetic::mul::{lemma_mul_basics, lemma_mul_is_distributive_add_other_way};

verus! {

/// The backing-array index of cell `(x, y)`, row-major.
pub open spec fn idx_of(x: int, y: int) -> int {
    8 * y + x
}

/// The occupant of cell `(x, y)` in board contents `b`.
pub open spec fn cell(b: Seq<Option<Disk>>, x: int, y: int) -> Option<Disk> {
    b[idx_of(x, y)]
}

/// The x coordinate reached after `k` unit steps in direction `d` from `x`.
pub open spec fn step_x(x: int, d: Direction, k: int) -> int {
    x + k * d.dx()
}

/// The y coordinate reached after `k` unit steps in direction `d` from `y`.
pub open spec fn step_y(y: int, d: Direction, k: int) -> int {
    y + k * d.dy()
}

/// An upper bound on how many steps in direction `d` stay on the grid,
/// measured along a coordinate that `d` strictly moves.
pub open spec fn ray_fuel(x: int, y: int, d: Direction) -> int {
    if d.dx() == 1 {
        8 - x
    } else if d.dx() == -1 {
        x + 1
    } else if d.dy() == 1 {
        8 - y
    } else {
        y + 1
    }
}

/// The walk of the line scan, starting at cell `(x, y)` and moving in
/// direction `d`: `Some(m)` when the first `m` cells hold `c.opposite()`
/// unbroken and the next cell holds `c`; `None` when the walk reaches the
/// board edge or an empty cell first.
pub open spec fn count_from(b: Seq<Option<Disk>>, x: int, y: int, d: Direction, c: Disk) -> Option<
    nat,
>
    decreases ray_fuel(x, y, d),
{
    if !in_range(x, y) {
        None
    } else {
        match cell(b, x, y) {
            None => None,
            Some(dk) => if dk == c {
                Some(0)
            } else {
                match count_from(b, x + d.dx(), y + d.dy(), d, c) {
                    None => None,
                    Some(n) => Some((n + 1) as nat),
                }
            },
        }
    }
}

/// The walk result as seen from `k` steps back along the ray.
pub open spec fn shift_count(o: Option<nat>, k: nat) -> Option<nat> {
    match o {
        None => None,
        Some(n) => Some((n + k) as nat),
    }
}

/// How many disks direction `d` contributes to a placement at `(x, y)`
/// by the mover `c`: the length of the sandwiched run, or zero.
pub open spec fn dir_flips(b: Seq<Option<Disk>>, x: int, y: int, d: Direction, c: Disk) -> nat {
    match count_from(b, x + d.dx(), y + d.dy(), d, c) {
        None => 0,
        Some(n) => n,
    }
}

/// The flip count summed over the first `k` directions of the fixed
/// enumeration order.
pub open spec fn flips_upto(b: Seq<Option<Disk>>, x: int, y: int, c: Disk, k: int) -> int
    decreases k,
{
    if k <= 0 {
        0
    } else {
        flips_upto(b, x, y, c, k - 1) + dir_flips(b, x, y, dir_of(k - 1), c)
    }
}

/// The total flip count of a placement at `(x, y)` by `c`, over all eight
/// directions.
pub open spec fn total_flips(b: Seq<Option<Disk>>, x: int, y: int, c: Disk) -> int {
    flips_upto(b, x, y, c, 8)
}

/// Whether `c` may legally be placed at `(x, y)`: the cell is empty and at
/// least one direction holds a sandwiched run.
pub open spec fn placement_legal(b: Seq<Option<Disk>>, x: int, y: int, c: Disk) -> bool {
    &&& b.len() == 64
    &&& in_range(x, y)
    &&& cell(b, x, y) is None
    &&& total_flips(b, x, y, c) > 0
}

/// The one result that both the read-only query and the mutating placement
/// report for a placement at `(x, y)` by `c`.
pub open spec fn turn_count_result(b: Seq<Option<Disk>>, x: int, y: int, c: Disk) -> Result<
    i32,
    BoardError,
> {
    if cell(b, x, y) is Some {
        Err(BoardError::OccupiedCell)
    } else if total_flips(b, x, y, c) == 0 {
        Err(BoardError::NoDiskToFlip)
    } else {
        Ok(total_flips(b, x, y, c) as i32)
    }
}

/// Whether backing index `p` lies on the ray from `(x, y)` in direction `d`,
/// within the first `n` steps (the origin itself excluded).
pub open spec fn ray_covers(x: int, y: int, d: Direction, n: int, p: int) -> bool {
    exists|k: int|
        1 <= k <= n && in_range(#[trigger] step_x(x, d, k), step_y(y, d, k)) && p == idx_of(
            step_x(x, d, k),
            step_y(y, d, k),
        )
}

/// Whether backing index `p` is flipped by a placement at `(x, y)` by `c`,
/// considering only the first `j` directions.
pub open spec fn flipped_upto(
    b: Seq<Option<Disk>>,
    x: int,
    y: int,
    c: Disk,
    j: int,
    p: int,
) -> bool {
    exists|i: int|
        0 <= i < j && ray_covers(x, y, #[trigger] dir_of(i), dir_flips(b, x, y, dir_of(i), c) as int, p)
}

/// Whether backing index `p` is flipped by a placement at `(x, y)` by `c`.
pub open spec fn flipped_cell(b: Seq<Option<Disk>>, x: int, y: int, c: Disk, p: int) -> bool {
    flipped_upto(b, x, y, c, 8, p)
}

/// The declarative sandwich condition: from `(x, y)`, the `m` cells after it
/// in direction `d` form a non-empty unbroken run of the opposite color,
/// terminated on the board by a disk of color `c`.
pub open spec fn capture_run(
    b: Seq<Option<Disk>>,
    x: int,
    y: int,
    d: Direction,
    c: Disk,
    m: int,
) -> bool {
    &&& 1 <= m
    &&& forall|k: int|
        1 <= k <= m ==> in_range(#[trigger] step_x(x, d, k), step_y(y, d, k)) && cell(
            b,
            step_x(x, d, k),
            step_y(y, d, k),
        ) == Some(c.opposite())
    &&& in_range(step_x(x, d, m + 1), step_y(y, d, m + 1))
    &&& cell(b, step_x(x, d, m + 1), step_y(y, d, m + 1)) == Some(c)
}

/// Multiplying by a unit factor keeps, zeroes, or negates the other factor.
proof fn lemma_mul_unit(k: int, a: int)
    requires
        -1 <= a <= 1,
    ensures
        a == 0 ==> k * a == 0,
        a == 1 ==> k * a == k,
        a == -1 ==> k * a == -k,
{
    lemma_mul_basics(k);
    if a == -1 {
        assert(k * a == -k) by (nonlinear_arith)
            requires
                a == -1,
        ;
    }
}

/// One more step extends the product by one unit vector.
proof fn lemma_mul_succ(k: int, a: int)
    ensures
        (k + 1) * a == k * a + a,
{
    lemma_mul_is_distributive_add_other_way(a, k, 1);
    lemma_mul_basics(a);
}

/// Step zero stays in place.
pub proof fn lemma_step_zero(x: int, y: int, d: Direction)
    ensures
        step_x(x, d, 0) == x,
        step_y(y, d, 0) == y,
{
    lemma_mul_basics(d.dx());
    lemma_mul_basics(d.dy());
}

/// Walking from the next cell is walking one step further from the origin.
pub proof fn lemma_step_succ(x: int, y: int, d: Direction, k: int)
    ensures
        step_x(x + d.dx(), d, k) == step_x(x, d, k + 1),
        step_y(y + d.dy(), d, k) == step_y(y, d, k + 1),
{
    lemma_mul_succ(k, d.dx());
    lemma_mul_succ(k, d.dy());
}

/// Every direction strictly moves at least one coordinate.
proof fn lemma_dir_nonzero(d: Direction)
    ensures
        d.dx() != 0 || d.dy() != 0,
{
}

/// The products of two step counts with one unit component can only agree
/// when the components agree, and, for a moving component, when the step
/// counts agree.
proof fn lemma_unit_products_agree(k1: int, a1: int, k2: int, a2: int)
    requires
        k1 >= 1,
        k2 >= 1,
        -1 <= a1 <= 1,
        -1 <= a2 <= 1,
        k1 * a1 == k2 * a2,
    ensures
        a1 == a2,
        a1 != 0 ==> k1 == k2,
{
    lemma_mul_unit(k1, a1);
    lemma_mul_unit(k2, a2);
}

/// Distinct step counts along one ray reach distinct cells.
pub proof fn lemma_step_distinct(x: int, y: int, d: Direction, k1: int, k2: int)
    requires
        k1 != k2,
    ensures
        step_x(x, d, k1) != step_x(x, d, k2) || step_y(y, d, k1) != step_y(y, d, k2),
{
    lemma_dir_nonzero(d);
    lemma_mul_unit(k1, d.dx());
    lemma_mul_unit(k2, d.dx());
    lemma_mul_unit(k1, d.dy());
    lemma_mul_unit(k2, d.dy());
}

/// Rays cast in two distinct directions from one origin share no cell other
/// than the origin itself.
pub proof fn lemma_rays_distinct(x: int, y: int, d1: Direction, d2: Direction, k1: int, k2: int)
    requires
        d1 != d2,
        k1 >= 1,
        k2 >= 1,
    ensures
        step_x(x, d1, k1) != step_x(x, d2, k2) || step_y(y, d1, k1) != step_y(y, d2, k2),
{
    if step_x(x, d1, k1) == step_x(x, d2, k2) && step_y(y, d1, k1) == step_y(y, d2, k2) {
        lemma_unit_products_agree(k1, d1.dx(), k2, d2.dx());
        lemma_unit_products_agree(k1, d1.dy(), k2, d2.dy());
        lemma_dir_nonzero(d1);
        assert(d1 == d2);
    }
}

/// The eight direction indices name eight distinct directions.
pub proof fn lemma_dir_of_injective(i: int, j: int)
    requires
        0 <= i < 8,
        0 <= j < 8,
        i != j,
    ensures
        dir_of(i) != dir_of(j),
{
}

/// Cell indices are injective on the grid.
pub proof fn lemma_idx_of_injective(x1: int, y1: int, x2: int, y2: int)
    requires
        in_range(x1, y1),
        in_range(x2, y2),
        idx_of(x1, y1) == idx_of(x2, y2),
    ensures
        x1 == x2,
        y1 == y2,
{
}

/// A successful walk never counts more than eight cells.
pub proof fn lemma_count_from_bound(b: Seq<Option<Disk>>, x: int, y: int, d: Direction, c: Disk)
    ensures
        count_from(b, x, y, d, c) matches Some(m) ==> m <= ray_fuel(x, y, d) <= 8,
    decreases ray_fuel(x, y, d),
{
    if in_range(x, y) && cell(b, x, y) is Some {
        if cell(b, x, y)->Some_0 != c {
            lemma_count_from_bound(b, x + d.dx(), y + d.dy(), d, c);
        }
    }
}

/// What a successful walk says of the cells it visited: `m` cells of the
/// opposite color starting at `(x, y)` itself, then one cell of color `c`.
pub proof fn lemma_count_from_run(
    b: Seq<Option<Disk>>,
    x: int,
    y: int,
    d: Direction,
    c: Disk,
    m: nat,
)
    requires
        count_from(b, x, y, d, c) == Some(m),
    ensures
        forall|k: int|
            0 <= k < m ==> in_range(#[trigger] step_x(x, d, k), step_y(y, d, k)) && cell(
                b,
                step_x(x, d, k),
                step_y(y, d, k),
            ) == Some(c.opposite()),
        in_range(step_x(x, d, m as int), step_y(y, d, m as int)),
        cell(b, step_x(x, d, m as int), step_y(y, d, m as int)) == Some(c),
    decreases m,
{
    lemma_step_zero(x, y, d);
    if m == 0 {
        // the walk stopped at once: the cell itself holds `c`
    } else {
        let dk = cell(b, x, y)->Some_0;
        assert(dk == c.opposite());
        lemma_count_from_run(b, x + d.dx(), y + d.dy(), d, c, (m - 1) as nat);
        lemma_step_succ(x, y, d, m - 1);
        assert forall|k: int|
            0 <= k < m implies in_range(#[trigger] step_x(x, d, k), step_y(y, d, k)) && cell(
            b,
            step_x(x, d, k),
            step_y(y, d, k),
        ) == Some(c.opposite()) by {
            if k > 0 {
                lemma_step_succ(x, y, d, k - 1);
                assert(in_range(step_x(x + d.dx(), d, k - 1), step_y(y + d.dy(), d, k - 1))
                    && cell(b, step_x(x + d.dx(), d, k - 1), step_y(y + d.dy(), d, k - 1)) == Some(
                    c.opposite(),
                ));
            }
        }
    }
}

/// The converse: a run of `m` opposite-colored cells terminated by `c`
/// makes the walk succeed with exactly `m`.
pub proof fn lemma_run_count_from(
    b: Seq<Option<Disk>>,
    x: int,
    y: int,
    d: Direction,
    c: Disk,
    m: nat,
)
    requires
        forall|k: int|
            0 <= k < m ==> in_range(#[trigger] step_x(x, d, k), step_y(y, d, k)) && cell(
                b,
                step_x(x, d, k),
                step_y(y, d, k),
            ) == Some(c.opposite()),
        in_range(step_x(x, d, m as int), step_y(y, d, m as int)),
        cell(b, step_x(x, d, m as int), step_y(y, d, m as int)) == Some(c),
    ensures
        count_from(b, x, y, d, c) == Some(m),
    decreases m,
{
    lemma_step_zero(x, y, d);
    if m == 0 {
        assert(cell(b, x, y) == Some(c));
    } else {
        assert(in_range(step_x(x, d, 0), step_y(y, d, 0)) && cell(b, step_x(x, d, 0), step_y(y, d, 0))
            == Some(c.opposite()));
        assert forall|k: int|
            0 <= k < m - 1 implies in_range(
            #[trigger] step_x(x + d.dx(), d, k),
            step_y(y + d.dy(), d, k),
        ) && cell(b, step_x(x + d.dx(), d, k), step_y(y + d.dy(), d, k)) == Some(c.opposite()) by {
            lemma_step_succ(x, y, d, k);
            assert(in_range(step_x(x, d, k + 1), step_y(y, d, k + 1)) && cell(
                b,
                step_x(x, d, k + 1),
                step_y(y, d, k + 1),
            ) == Some(c.opposite()));
        }
        lemma_step_succ(x, y, d, m - 1);
        lemma_run_count_from(b, x + d.dx(), y + d.dy(), d, c, (m - 1) as nat);
    }
}

/// The walk reads only the cells of its own ray: two boards that agree on
/// every on-grid cell of the ray give the same walk result.
pub proof fn lemma_count_from_agree(
    b1: Seq<Option<Disk>>,
    b2: Seq<Option<Disk>>,
    x: int,
    y: int,
    d: Direction,
    c: Disk,
)
    requires
        forall|k: int|
            0 <= k && in_range(#[trigger] step_x(x, d, k), step_y(y, d, k)) ==> cell(
                b1,
                step_x(x, d, k),
                step_y(y, d, k),
            ) == cell(b2, step_x(x, d, k), step_y(y, d, k)),
    ensures
        count_from(b1, x, y, d, c) == count_from(b2, x, y, d, c),
    decreases ray_fuel(x, y, d),
{
    lemma_step_zero(x, y, d);
    if in_range(x, y) {
        assert(cell(b1, x, y) == cell(b2, x, y));
        assert forall|k: int|
            0 <= k && in_range(#[trigger] step_x(x + d.dx(), d, k), step_y(y + d.dy(), d, k)) implies cell(
            b1,
            step_x(x + d.dx(), d, k),
            step_y(y + d.dy(), d, k),
        ) == cell(b2, step_x(x + d.dx(), d, k), step_y(y + d.dy(), d, k)) by {
            lemma_step_succ(x, y, d, k);
            assert(in_range(step_x(x, d, k + 1), step_y(y, d, k + 1)));
            assert(cell(b1, step_x(x, d, k + 1), step_y(y, d, k + 1)) == cell(
                b2,
                step_x(x, d, k + 1),
                step_y(y, d, k + 1),
            ));
        }
        lemma_count_from_agree(b1, b2, x + d.dx(), y + d.dy(), d, c);
    }
}

/// The per-direction sums are nonnegative and bounded by eight per direction.
pub proof fn lemma_flips_upto_bounds(b: Seq<Option<Disk>>, x: int, y: int, c: Disk, k: int)
    ensures
        0 <= flips_upto(b, x, y, c, k),
        k >= 0 ==> flips_upto(b, x, y, c, k) <= 8 * k,
    decreases k,
{
    if k > 0 {
        lemma_flips_upto_bounds(b, x, y, c, k - 1);
        let d = dir_of(k - 1);
        lemma_count_from_bound(b, x + d.dx(), y + d.dy(), d, c);
    }
}

/// A zero sum means every summand is zero.
pub proof fn lemma_flips_upto_zero(b: Seq<Option<Disk>>, x: int, y: int, c: Disk, k: int)
    requires
        flips_upto(b, x, y, c, k) == 0,
    ensures
        forall|i: int| 0 <= i < k ==> dir_flips(b, x, y, #[trigger] dir_of(i), c) == 0,
    decreases k,
{
    if k > 0 {
        lemma_flips_upto_bounds(b, x, y, c, k - 1);
        lemma_flips_upto_zero(b, x, y, c, k - 1);
    }
}

/// A sum of all-zero summands is zero.
pub proof fn lemma_flips_upto_zero_converse(b: Seq<Option<Disk>>, x: int, y: int, c: Disk, k: int)
    requires
        forall|i: int| 0 <= i < k ==> dir_flips(b, x, y, #[trigger] dir_of(i), c) == 0,
    ensures
        flips_upto(b, x, y, c, k) == 0,
    decreases k,
{
    if k > 0 {
        lemma_flips_upto_zero_converse(b, x, y, c, k - 1);
    }
}

/// The cells that one direction would flip: they lie on the grid and hold
/// the opposite color.
pub proof fn lemma_dir_flips_cells(b: Seq<Option<Disk>>, x: int, y: int, d: Direction, c: Disk)
    ensures
        forall|k: int|
            1 <= k <= dir_flips(b, x, y, d, c) ==> in_range(
                #[trigger] step_x(x, d, k),
                step_y(y, d, k),
            ) && cell(b, step_x(x, d, k), step_y(y, d, k)) == Some(c.opposite()),
{
    let m = dir_flips(b, x, y, d, c);
    if m > 0 {
        lemma_count_from_run(b, x + d.dx(), y + d.dy(), d, c, m);
        assert forall|k: int|
            1 <= k <= m implies in_range(#[trigger] step_x(x, d, k), step_y(y, d, k)) && cell(
            b,
            step_x(x, d, k),
            step_y(y, d, k),
        ) == Some(c.opposite()) by {
            lemma_step_succ(x, y, d, k - 1);
            assert(in_range(step_x(x + d.dx(), d, k - 1), step_y(y + d.dy(), d, k - 1)) && cell(
                b,
                step_x(x + d.dx(), d, k - 1),
                step_y(y + d.dy(), d, k - 1),
            ) == Some(c.opposite()));
        }
    }
}

/// A positive summand makes the sum positive.
pub proof fn lemma_flips_upto_pos(b: Seq<Option<Disk>>, x: int, y: int, c: Disk, i: int, k: int)
    requires
        0 <= i < k,
        dir_flips(b, x, y, dir_of(i), c) > 0,
    ensures
        flips_upto(b, x, y, c, k) > 0,
    decreases k,
{
    lemma_flips_upto_bounds(b, x, y, c, k - 1);
    if i < k - 1 {
        lemma_flips_upto_pos(b, x, y, c, i, k - 1);
    }
}

} // verus!
