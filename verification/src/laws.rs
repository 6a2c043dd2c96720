use vstd::prelude::*;

use crate::board::{count_disks_upto, legal_upto, num_disks, num_legal};
use vstd::arithmetic::div_mod::lemma_fundamental_div_mod_converse;
use crate::counting::{
    count_true, lemma_count_true_disjoint_union, lemma_count_true_equal, lemma_count_true_none,
    lemma_count_true_point, lemma_count_true_single,
};
use crate::disk::Disk;
use crate::position::{dir_of, in_range, Direction};
use crate::ray::{
    capture_run, cell, count_from, dir_flips, flipped_cell, flipped_upto, flips_upto, idx_of,
    lemma_count_from_run, lemma_dir_flips_cells, lemma_dir_of_injective, lemma_flips_upto_pos,
    lemma_flips_upto_zero_converse, lemma_idx_of_injective, lemma_rays_distinct,
    lemma_run_count_from, lemma_step_distinct, lemma_step_succ, lemma_step_zero, placement_legal,
    ray_covers, step_x, step_y, total_flips,
};

verus! {

/// Whether some direction from `(x, y)` holds a capturable sandwich for the
/// mover `c`.
pub open spec fn has_sandwich(b: Seq<Option<Disk>>, x: int, y: int, c: Disk) -> bool {
    exists|d: Direction, m: int| capture_run(b, x, y, d, c, m)
}

/// Every direction carries one of the eight enumeration indices.
proof fn lemma_dir_of_complete(d: Direction)
    ensures
        exists|i: int| 0 <= i < 8 && #[trigger] dir_of(i) == d,
{
    match d {
        Direction::Up => assert(dir_of(0) == d),
        Direction::UpRight => assert(dir_of(1) == d),
        Direction::Right => assert(dir_of(2) == d),
        Direction::DownRight => assert(dir_of(3) == d),
        Direction::Down => assert(dir_of(4) == d),
        Direction::DownLeft => assert(dir_of(5) == d),
        Direction::Left => assert(dir_of(6) == d),
        Direction::UpLeft => assert(dir_of(7) == d),
    }
}

/// One direction's flip count names exactly the length of its capture run.
proof fn lemma_dir_flips_run(b: Seq<Option<Disk>>, x: int, y: int, d: Direction, c: Disk, m: int)
    requires
        m >= 1,
    ensures
        dir_flips(b, x, y, d, c) == m <==> capture_run(b, x, y, d, c, m),
{
    if dir_flips(b, x, y, d, c) == m {
        lemma_dir_flips_cells(b, x, y, d, c);
        lemma_count_from_run(b, x + d.dx(), y + d.dy(), d, c, m as nat);
        lemma_step_succ(x, y, d, m);
        assert(in_range(step_x(x + d.dx(), d, m), step_y(y + d.dy(), d, m)) && cell(
            b,
            step_x(x + d.dx(), d, m),
            step_y(y + d.dy(), d, m),
        ) == Some(c));
        assert(capture_run(b, x, y, d, c, m));
    }
    if capture_run(b, x, y, d, c, m) {
        assert forall|k: int|
            0 <= k < m implies in_range(
            #[trigger] step_x(x + d.dx(), d, k),
            step_y(y + d.dy(), d, k),
        ) && cell(b, step_x(x + d.dx(), d, k), step_y(y + d.dy(), d, k)) == Some(c.opposite()) by {
            lemma_step_succ(x, y, d, k);
            assert(in_range(step_x(x, d, k + 1), step_y(y, d, k + 1)) && cell(
                b,
                step_x(x, d, k + 1),
                step_y(y, d, k + 1),
            ) == Some(c.opposite()));
        }
        lemma_step_succ(x, y, d, m);
        lemma_run_count_from(b, x + d.dx(), y + d.dy(), d, c, m as nat);
        assert(count_from(b, x + d.dx(), y + d.dy(), d, c) == Some(m as nat));
    }
}

/// Legality soundness: a placement is legal exactly when its cell is empty
/// and, in at least one direction, the cells after it form a non-empty run
/// of the opposite color terminated by a same-color disk before the board
/// edge or an empty cell.
pub proof fn lemma_legality_soundness(b: Seq<Option<Disk>>, x: int, y: int, c: Disk)
    requires
        b.len() == 64,
        in_range(x, y),
    ensures
        placement_legal(b, x, y, c) <==> (cell(b, x, y) is None && has_sandwich(b, x, y, c)),
{
    if placement_legal(b, x, y, c) {
        assert(exists|i: int| 0 <= i < 8 && dir_flips(b, x, y, #[trigger] dir_of(i), c) > 0) by {
            if forall|i: int| 0 <= i < 8 ==> dir_flips(b, x, y, #[trigger] dir_of(i), c) == 0 {
                lemma_flips_upto_zero_converse(b, x, y, c, 8);
            }
        }
        let i = choose|i: int| 0 <= i < 8 && dir_flips(b, x, y, #[trigger] dir_of(i), c) > 0;
        let m = dir_flips(b, x, y, dir_of(i), c) as int;
        lemma_dir_flips_run(b, x, y, dir_of(i), c, m);
        assert(capture_run(b, x, y, dir_of(i), c, m));
    }
    if cell(b, x, y) is None && has_sandwich(b, x, y, c) {
        let (d, m) = choose|d: Direction, m: int| capture_run(b, x, y, d, c, m);
        lemma_dir_flips_run(b, x, y, d, c, m);
        lemma_dir_of_complete(d);
        let i = choose|i: int| 0 <= i < 8 && #[trigger] dir_of(i) == d;
        lemma_flips_upto_pos(b, x, y, c, i, 8);
    }
}

/// Counts are monotone in the prefix length.
proof fn lemma_count_disks_upto_le(b: Seq<Option<Disk>>, c: Disk, n1: int, n2: int)
    requires
        n1 <= n2,
    ensures
        count_disks_upto(b, c, n1) <= count_disks_upto(b, c, n2),
    decreases n2 - n1,
{
    if n1 < n2 {
        lemma_count_disks_upto_le(b, c, n1, n2 - 1);
    }
}

/// A disk that sits on the board is counted.
proof fn lemma_disk_present(b: Seq<Option<Disk>>, c: Disk, p: int)
    requires
        0 <= p < 64,
        b[p] == Some(c),
    ensures
        num_disks(b, c) >= 1,
{
    lemma_count_disks_upto_le(b, c, 0, p);
    lemma_count_disks_upto_le(b, c, p + 1, 64);
}

/// With every cell illegal, the legal-move count is zero.
proof fn lemma_legal_upto_none(b: Seq<Option<Disk>>, c: Disk, q: int)
    requires
        q <= 64,
        forall|x: int, y: int| in_range(x, y) ==> !#[trigger] placement_legal(b, x, y, c),
    ensures
        legal_upto(b, c, q) == 0,
    decreases q,

{
    if q > 0 {
        lemma_legal_upto_none(b, c, q - 1);
        assert(in_range((q - 1) / 8, (q - 1) % 8));
    }
}

/// Boundary law: capturing needs both colors on the board, so while either
/// color is absent -- the empty board, or a single isolated disk -- neither
/// mover has a single legal move.
pub proof fn lemma_no_moves_without_both_colors(b: Seq<Option<Disk>>, c: Disk)
    requires
        b.len() == 64,
        num_disks(b, c) == 0 || num_disks(b, c.opposite()) == 0,
    ensures
        num_legal(b, c) == 0,
{
    assert forall|x: int, y: int| in_range(x, y) implies !#[trigger] placement_legal(
        b,
        x,
        y,
        c,
    ) by {
        if placement_legal(b, x, y, c) {
            lemma_legality_soundness(b, x, y, c);
            let (d, m) = choose|d: Direction, m: int| capture_run(b, x, y, d, c, m);
            assert(in_range(step_x(x, d, 1), step_y(y, d, 1)) && cell(b, step_x(x, d, 1), step_y(y, d, 1))
                == Some(c.opposite()));
            lemma_disk_present(b, c.opposite(), idx_of(step_x(x, d, 1), step_y(y, d, 1)));
            lemma_disk_present(b, c, idx_of(step_x(x, d, m + 1), step_y(y, d, m + 1)));
        }
    }
    lemma_legal_upto_none(b, c, 64);
}

/// The legal-move count is monotone in the prefix length.
proof fn lemma_legal_upto_le(b: Seq<Option<Disk>>, c: Disk, q1: int, q2: int)
    requires
        q1 <= q2,
    ensures
        legal_upto(b, c, q1) <= legal_upto(b, c, q2),
    decreases q2 - q1,
{
    if q1 < q2 {
        lemma_legal_upto_le(b, c, q1, q2 - 1);
    }
}

/// One legal cell makes the legal-move count positive.
pub proof fn lemma_num_legal_positive(b: Seq<Option<Disk>>, c: Disk, x: int, y: int)
    requires
        b.len() == 64,
        in_range(x, y),
        placement_legal(b, x, y, c),
    ensures
        num_legal(b, c) > 0,
{
    let q = 8 * x + y;
    lemma_fundamental_div_mod_converse(q, 8, x, y);
    lemma_legal_upto_le(b, c, 0, q);
    lemma_legal_upto_le(b, c, q + 1, 64);
    assert(legal_upto(b, c, q + 1) == legal_upto(b, c, q) + 1);
}

/// The cells of one ray, up to `m` steps out, number exactly `m`.
proof fn lemma_ray_covers_count(x: int, y: int, d: Direction, m: int)
    requires
        0 <= m,
        forall|k: int| 1 <= k <= m ==> in_range(#[trigger] step_x(x, d, k), step_y(y, d, k)),
    ensures
        count_true(|p: int| ray_covers(x, y, d, m, p), 64) == m,
    decreases m,
{
    let f = |p: int| ray_covers(x, y, d, m - 1, p);
    let g = |p: int| ray_covers(x, y, d, m, p);
    if m == 0 {
        assert forall|p: int| 0 <= p < 64 implies !#[trigger] ray_covers(x, y, d, m, p) by {
            if ray_covers(x, y, d, m, p) {
                let k = choose|k: int|
                    1 <= k <= m && in_range(#[trigger] step_x(x, d, k), step_y(y, d, k)) && p
                        == idx_of(step_x(x, d, k), step_y(y, d, k));
            }
        }
        lemma_count_true_none(g, 64);
    } else {
        lemma_ray_covers_count(x, y, d, m - 1);
        let q = idx_of(step_x(x, d, m), step_y(y, d, m));
        assert(in_range(step_x(x, d, m), step_y(y, d, m)));
        assert(0 <= q < 64);
        assert(ray_covers(x, y, d, m, q));
        assert(!ray_covers(x, y, d, m - 1, q)) by {
            if ray_covers(x, y, d, m - 1, q) {
                let k = choose|k: int|
                    1 <= k <= m - 1 && in_range(#[trigger] step_x(x, d, k), step_y(y, d, k)) && q
                        == idx_of(step_x(x, d, k), step_y(y, d, k));
                lemma_idx_of_injective(step_x(x, d, k), step_y(y, d, k), step_x(x, d, m), step_y(y, d, m));
                lemma_step_distinct(x, y, d, k, m);
            }
        }
        assert forall|p: int|
            0 <= p < 64 && p != q implies ray_covers(x, y, d, m - 1, p) == #[trigger] ray_covers(
            x,
            y,
            d,
            m,
            p,
        ) by {
            if ray_covers(x, y, d, m, p) {
                let k = choose|k: int|
                    1 <= k <= m && in_range(#[trigger] step_x(x, d, k), step_y(y, d, k)) && p
                        == idx_of(step_x(x, d, k), step_y(y, d, k));
                assert(k != m);
                assert(ray_covers(x, y, d, m - 1, p));
            }
            if ray_covers(x, y, d, m - 1, p) {
                let k = choose|k: int|
                    1 <= k <= m - 1 && in_range(#[trigger] step_x(x, d, k), step_y(y, d, k)) && p
                        == idx_of(step_x(x, d, k), step_y(y, d, k));
                assert(ray_covers(x, y, d, m, p));
            }
        }
        lemma_count_true_point(f, g, q, 64);
    }
}

/// The cells flipped by the first `j` directions number exactly the flip
/// counts of those directions, summed.
proof fn lemma_flipped_upto_count(b: Seq<Option<Disk>>, x: int, y: int, c: Disk, j: int)
    requires
        b.len() == 64,
        in_range(x, y),
        0 <= j <= 8,
    ensures
        count_true(|p: int| flipped_upto(b, x, y, c, j, p), 64) == flips_upto(b, x, y, c, j),
    decreases j,
{
    let g = |p: int| flipped_upto(b, x, y, c, j, p);
    if j == 0 {
        assert forall|p: int| 0 <= p < 64 implies !#[trigger] flipped_upto(b, x, y, c, j, p) by {
            if flipped_upto(b, x, y, c, j, p) {
                let i0 = choose|i0: int|
                    0 <= i0 < j && ray_covers(
                        x,
                        y,
                        #[trigger] dir_of(i0),
                        dir_flips(b, x, y, dir_of(i0), c) as int,
                        p,
                    );
            }
        }
        lemma_count_true_none(g, 64);
    } else {
        lemma_flipped_upto_count(b, x, y, c, j - 1);
        let f = |p: int| flipped_upto(b, x, y, c, j - 1, p);
        let d = dir_of(j - 1);
        let m = dir_flips(b, x, y, d, c) as int;
        let cov = |p: int| ray_covers(x, y, d, m, p);
        lemma_dir_flips_cells(b, x, y, d, c);
        lemma_ray_covers_count(x, y, d, m);
        assert forall|p: int|
            0 <= p < 64 implies #[trigger] flipped_upto(b, x, y, c, j, p) == (flipped_upto(
            b,
            x,
            y,
            c,
            j - 1,
            p,
        ) || ray_covers(x, y, d, m, p)) by {
            if flipped_upto(b, x, y, c, j, p) {
                let i0 = choose|i0: int|
                    0 <= i0 < j && ray_covers(
                        x,
                        y,
                        #[trigger] dir_of(i0),
                        dir_flips(b, x, y, dir_of(i0), c) as int,
                        p,
                    );
                if i0 == j - 1 {
                    assert(cov(p));
                } else {
                    assert(f(p));
                }
            }
            if f(p) {
                let i0 = choose|i0: int|
                    0 <= i0 < j - 1 && ray_covers(
                        x,
                        y,
                        #[trigger] dir_of(i0),
                        dir_flips(b, x, y, dir_of(i0), c) as int,
                        p,
                    );
                assert(g(p));
            }
            if cov(p) {
                assert(ray_covers(x, y, dir_of(j - 1), dir_flips(b, x, y, dir_of(j - 1), c) as int, p));
                assert(g(p));
            }
        }
        assert forall|p: int|
            0 <= p < 64 implies !(#[trigger] flipped_upto(b, x, y, c, j - 1, p) && ray_covers(
            x,
            y,
            d,
            m,
            p,
        )) by {
            if f(p) && cov(p) {
                let i0 = choose|i0: int|
                    0 <= i0 < j - 1 && ray_covers(
                        x,
                        y,
                        #[trigger] dir_of(i0),
                        dir_flips(b, x, y, dir_of(i0), c) as int,
                        p,
                    );
                let k0 = choose|k0: int|
                    1 <= k0 <= dir_flips(b, x, y, dir_of(i0), c) as int && in_range(
                        #[trigger] step_x(x, dir_of(i0), k0),
                        step_y(y, dir_of(i0), k0),
                    ) && p == idx_of(step_x(x, dir_of(i0), k0), step_y(y, dir_of(i0), k0));
                let k = choose|k: int|
                    1 <= k <= m && in_range(#[trigger] step_x(x, d, k), step_y(y, d, k)) && p
                        == idx_of(step_x(x, d, k), step_y(y, d, k));
                lemma_dir_of_injective(i0, j - 1);
                lemma_idx_of_injective(
                    step_x(x, dir_of(i0), k0),
                    step_y(y, dir_of(i0), k0),
                    step_x(x, d, k),
                    step_y(y, d, k),
                );
                lemma_rays_distinct(x, y, dir_of(i0), d, k0, k);
            }
        }
        lemma_count_true_disjoint_union(f, cov, g, 64);
    }
}

/// Flip conservation: after a successful placement at `(x, y)` by `c` that
/// reports `n` flips, exactly `n + 1` cells changed -- the target, now
/// holding `c`, and `n` cells that held the opposite color and now hold `c`;
/// every other cell is untouched.
pub proof fn lemma_flip_conservation(
    b1: Seq<Option<Disk>>,
    b2: Seq<Option<Disk>>,
    x: int,
    y: int,
    c: Disk,
    n: int,
)
    requires
        b1.len() == 64,
        b2.len() == 64,
        in_range(x, y),
        cell(b1, x, y) is None,
        n == total_flips(b1, x, y, c),
        n > 0,
        forall|p: int|
            0 <= p < 64 ==> b2[p] == (if p == idx_of(x, y) {
                Some(c)
            } else if flipped_cell(b1, x, y, c, p) {
                Some(c)
            } else {
                b1[p]
            }),
    ensures
        count_true(|p: int| b1[p] != b2[p], 64) == n + 1,
        b2[idx_of(x, y)] == Some(c),
        forall|p: int| 0 <= p < 64 && b1[p] != b2[p] ==> b2[p] == Some(c),
        forall|p: int|
            0 <= p < 64 && b1[p] != b2[p] && p != idx_of(x, y) ==> b1[p] == Some(c.opposite()),
{
    let orig = |p: int| p == idx_of(x, y);
    let flipped = |p: int| flipped_cell(b1, x, y, c, p);
    let moved = |p: int| p == idx_of(x, y) || flipped_cell(b1, x, y, c, p);
    let changed = |p: int| b1[p] != b2[p];
    assert forall|p: int|
        0 <= p < 64 && #[trigger] flipped_cell(b1, x, y, c, p) implies b1[p] == Some(c.opposite())
        && p != idx_of(x, y) by {
        let i0 = choose|i0: int|
            0 <= i0 < 8 && ray_covers(
                x,
                y,
                #[trigger] dir_of(i0),
                dir_flips(b1, x, y, dir_of(i0), c) as int,
                p,
            );
        let k0 = choose|k0: int|
            1 <= k0 <= dir_flips(b1, x, y, dir_of(i0), c) as int && in_range(
                #[trigger] step_x(x, dir_of(i0), k0),
                step_y(y, dir_of(i0), k0),
            ) && p == idx_of(step_x(x, dir_of(i0), k0), step_y(y, dir_of(i0), k0));
        lemma_dir_flips_cells(b1, x, y, dir_of(i0), c);
        assert(cell(b1, step_x(x, dir_of(i0), k0), step_y(y, dir_of(i0), k0)) == Some(c.opposite()));
        if p == idx_of(x, y) {
            lemma_idx_of_injective(x, y, step_x(x, dir_of(i0), k0), step_y(y, dir_of(i0), k0));
            lemma_step_zero(x, y, dir_of(i0));
            lemma_step_distinct(x, y, dir_of(i0), k0, 0);
        }
    }
    assert forall|p: int|
        0 <= p < 64 implies (b1[p] != #[trigger] b2[p]) == (p == idx_of(x, y) || flipped_cell(
        b1,
        x,
        y,
        c,
        p,
    )) by {
        if p == idx_of(x, y) {
            assert(b1[p] is None && b2[p] == Some(c));
        } else if flipped(p) {
            assert(b1[p] == Some(c.opposite()) && b2[p] == Some(c));
        } else {
            assert(b2[p] == b1[p]);
        }
    }
    lemma_flipped_upto_count(b1, x, y, c, 8);
    lemma_count_true_equal(|p: int| flipped_upto(b1, x, y, c, 8, p), flipped, 64);
    lemma_count_true_single(orig, idx_of(x, y), 64);
    lemma_count_true_disjoint_union(orig, flipped, moved, 64);
    lemma_count_true_equal(moved, changed, 64);
    lemma_count_true_equal(changed, |p: int| b1[p] != b2[p], 64);
}

} // verus!
