//! Ray rejection: walking a line over the grid and checking that it never
//! leaves the class in which it starts.

use crate::arctan::abs_int;
use crate::map_grid::{Partition, UnionFind};
use vstd::prelude::*;

verus! {

/// How far a walk over `nx` columns and `ny` rows has come after `k` steps,
/// as (columns, rows). Each step advances along the axis on which the walk
/// lags behind the straight line: along x when
/// `(ix + 1/2) / nx < (iy + 1/2) / ny`, along y otherwise.
pub open spec fn ray_progress(nx: int, ny: int, k: nat) -> (int, int)
    decreases k,
{
    if k == 0 {
        (0, 0)
    } else {
        let before = ray_progress(nx, ny, (k - 1) as nat);
        if (2 * before.0 + 1) * ny < (2 * before.1 + 1) * nx {
            (before.0 + 1, before.1)
        } else {
            (before.0, before.1 + 1)
        }
    }
}

/// The cell that the walk from `(x1, y1)` to `(x2, y2)` has reached after `k`
/// steps.
pub open spec fn ray_cell(x1: int, y1: int, x2: int, y2: int, k: nat) -> (int, int) {
    let progress = ray_progress(abs_int(x2 - x1), abs_int(y2 - y1), k);
    (
        if x2 > x1 {
            x1 + progress.0
        } else {
            x1 - progress.0
        },
        if y2 > y1 {
            y1 + progress.1
        } else {
            y1 - progress.1
        },
    )
}

/// The number of steps of the walk from `(x1, y1)` to `(x2, y2)`.
pub open spec fn ray_steps(x1: int, y1: int, x2: int, y2: int) -> nat {
    (abs_int(x2 - x1) + abs_int(y2 - y1)) as nat
}

impl Partition {
    /// Whether every cell on the walk from `(x1, y1)` to `(x2, y2)` is in the
    /// class of the first.
    pub open spec fn ray_clear(self, x1: int, y1: int, x2: int, y2: int) -> bool {
        forall|k: nat|
            k <= ray_steps(x1, y1, x2, y2) ==> self.roots[self.cell(
                #[trigger] ray_cell(x1, y1, x2, y2, k).0,
                ray_cell(x1, y1, x2, y2, k).1,
            )] == self.roots[self.cell(x1, y1)]
    }
}

/// A walk of `k` steps, where `k` is at most `nx + ny`, has advanced `k`
/// times in all, never more than `nx` along x nor more than `ny` along y.
pub proof fn lemma_ray_progress_bounds(nx: int, ny: int, k: nat)
    requires
        0 <= nx,
        0 <= ny,
        k <= nx + ny,
    ensures
        0 <= ray_progress(nx, ny, k).0 <= nx,
        0 <= ray_progress(nx, ny, k).1 <= ny,
        ray_progress(nx, ny, k).0 + ray_progress(nx, ny, k).1 == k,
    decreases k,
{
    if k > 0 {
        lemma_ray_progress_bounds(nx, ny, (k - 1) as nat);
        let before = ray_progress(nx, ny, (k - 1) as nat);
        let ix = before.0;
        let iy = before.1;
        if ix == nx {
            assert(!((2 * ix + 1) * ny < (2 * iy + 1) * nx)) by (nonlinear_arith)
                requires
                    ix == nx,
                    0 <= iy < ny,
                    0 <= nx,
            ;
        }
        if iy == ny {
            assert((2 * ix + 1) * ny < (2 * iy + 1) * nx) by (nonlinear_arith)
                requires
                    iy == ny,
                    0 <= ix < nx,
                    0 <= ny,
            ;
        }
    }
}

/// The walk ends at its destination, and every cell on it lies between the
/// two end points.
pub proof fn lemma_ray_cell_bounds(x1: int, y1: int, x2: int, y2: int, k: nat)
    requires
        k <= ray_steps(x1, y1, x2, y2),
    ensures
        x1 <= ray_cell(x1, y1, x2, y2, k).0 <= x2 || x2 <= ray_cell(x1, y1, x2, y2, k).0 <= x1,
        y1 <= ray_cell(x1, y1, x2, y2, k).1 <= y2 || y2 <= ray_cell(x1, y1, x2, y2, k).1 <= y1,
        ray_cell(x1, y1, x2, y2, 0) == (x1, y1),
        k == ray_steps(x1, y1, x2, y2) ==> ray_cell(x1, y1, x2, y2, k) == (x2, y2),
{
    lemma_ray_progress_bounds(abs_int(x2 - x1), abs_int(y2 - y1), k);
}

impl UnionFind {
    /// Whether the walk from `(x1, y1)` to `(x2, y2)` stays in one class:
    /// `false` as soon as a step crosses into a cell with another root. The
    /// paths of the cells on the walk are compressed; no class changes.
    pub fn cast_ray(&mut self, x1: i32, y1: i32, x2: i32, y2: i32) -> (clear: bool)
        requires
            old(self).wf(),
            old(self)@.in_grid(x1 as int, y1 as int),
            old(self)@.in_grid(x2 as int, y2 as int),
        ensures
            final(self).wf(),
            final(self)@ == old(self)@,
            clear == old(self)@.ray_clear(x1 as int, y1 as int, x2 as int, y2 as int),
    {
        let dx: i64 = x2 as i64 - x1 as i64;
        let dy: i64 = y2 as i64 - y1 as i64;
        let nx: i64 = if dx < 0 { -dx } else { dx };
        let ny: i64 = if dy < 0 { -dy } else { dy };
        let sx: i64 = if dx > 0 { 1 } else { -1 };
        let sy: i64 = if dy > 0 { 1 } else { -1 };
        let mut px: i64 = x1 as i64;
        let mut py: i64 = y1 as i64;
        let mut ix: i64 = 0;
        let mut iy: i64 = 0;
        let ghost mut k: nat = 0;
        while ix < nx || iy < ny
            invariant
                self.wf(),
                self@ == old(self)@,
                self@.in_grid(x1 as int, y1 as int),
                self@.in_grid(x2 as int, y2 as int),
                nx == abs_int(x2 - x1),
                ny == abs_int(y2 - y1),
                sx == if x2 > x1 { 1int } else { -1 },
                sy == if y2 > y1 { 1int } else { -1 },
                k <= ray_steps(x1 as int, y1 as int, x2 as int, y2 as int),
                (ix as int, iy as int) == ray_progress(nx as int, ny as int, k),
                (px as int, py as int) == ray_cell(x1 as int, y1 as int, x2 as int, y2 as int, k),
                0 <= ix <= nx,
                0 <= iy <= ny,
                ix + iy == k,
                forall|j: nat|
                    j <= k ==> self@.roots[self@.cell(
                        #[trigger] ray_cell(x1 as int, y1 as int, x2 as int, y2 as int, j).0,
                        ray_cell(x1 as int, y1 as int, x2 as int, y2 as int, j).1,
                    )] == self@.roots[self@.cell(x1 as int, y1 as int)],
            decreases nx + ny - ix - iy,
        {
            proof {
                lemma_ray_cell_bounds(x1 as int, y1 as int, x2 as int, y2 as int, k);
                lemma_ray_cell_bounds(
                    x1 as int,
                    y1 as int,
                    x2 as int,
                    y2 as int,
                    (k + 1) as nat,
                );
                lemma_ray_progress_bounds(nx as int, ny as int, (k + 1) as nat);
                assert(0 <= (2 * ix + 1) * ny <= 0x7fff_ffff_0000_0000) by (nonlinear_arith)
                    requires
                        0 <= ix <= 0x7fff_ffff,
                        0 <= ny <= 0x7fff_ffff,
                ;
                assert(0 <= (2 * iy + 1) * nx <= 0x7fff_ffff_0000_0000) by (nonlinear_arith)
                    requires
                        0 <= iy <= 0x7fff_ffff,
                        0 <= nx <= 0x7fff_ffff,
                ;
            }
            let current = self.index(px as i32, py as i32);
            let room = self.find(current);
            if (2 * ix + 1) * ny < (2 * iy + 1) * nx {
                px = px + sx;
                ix = ix + 1;
            } else {
                py = py + sy;
                iy = iy + 1;
            }
            proof {
                k = (k + 1) as nat;
            }
            let next = self.index(px as i32, py as i32);
            let next_room = self.find(next);
            if next_room != room {
                return false;
            }
        }
        true
    }

    /// Whether the walk from `(x1, y1)` to `(x2, y2)` stays in one class,
    /// found without changing anything.
    pub fn is_ray_clear(&self, x1: i32, y1: i32, x2: i32, y2: i32) -> (clear: bool)
        requires
            self.wf(),
            self@.in_grid(x1 as int, y1 as int),
            self@.in_grid(x2 as int, y2 as int),
        ensures
            clear == self@.ray_clear(x1 as int, y1 as int, x2 as int, y2 as int),
    {
        let dx: i64 = x2 as i64 - x1 as i64;
        let dy: i64 = y2 as i64 - y1 as i64;
        let nx: i64 = if dx < 0 { -dx } else { dx };
        let ny: i64 = if dy < 0 { -dy } else { dy };
        let sx: i64 = if dx > 0 { 1 } else { -1 };
        let sy: i64 = if dy > 0 { 1 } else { -1 };
        let mut px: i64 = x1 as i64;
        let mut py: i64 = y1 as i64;
        let mut ix: i64 = 0;
        let mut iy: i64 = 0;
        let ghost mut k: nat = 0;
        while ix < nx || iy < ny
            invariant
                self.wf(),
                self@.in_grid(x1 as int, y1 as int),
                self@.in_grid(x2 as int, y2 as int),
                nx == abs_int(x2 - x1),
                ny == abs_int(y2 - y1),
                sx == if x2 > x1 { 1int } else { -1 },
                sy == if y2 > y1 { 1int } else { -1 },
                k <= ray_steps(x1 as int, y1 as int, x2 as int, y2 as int),
                (ix as int, iy as int) == ray_progress(nx as int, ny as int, k),
                (px as int, py as int) == ray_cell(x1 as int, y1 as int, x2 as int, y2 as int, k),
                0 <= ix <= nx,
                0 <= iy <= ny,
                ix + iy == k,
                forall|j: nat|
                    j <= k ==> self@.roots[self@.cell(
                        #[trigger] ray_cell(x1 as int, y1 as int, x2 as int, y2 as int, j).0,
                        ray_cell(x1 as int, y1 as int, x2 as int, y2 as int, j).1,
                    )] == self@.roots[self@.cell(x1 as int, y1 as int)],
            decreases nx + ny - ix - iy,
        {
            proof {
                lemma_ray_cell_bounds(x1 as int, y1 as int, x2 as int, y2 as int, k);
                lemma_ray_cell_bounds(
                    x1 as int,
                    y1 as int,
                    x2 as int,
                    y2 as int,
                    (k + 1) as nat,
                );
                lemma_ray_progress_bounds(nx as int, ny as int, (k + 1) as nat);
                assert(0 <= (2 * ix + 1) * ny <= 0x7fff_ffff_0000_0000) by (nonlinear_arith)
                    requires
                        0 <= ix <= 0x7fff_ffff,
                        0 <= ny <= 0x7fff_ffff,
                ;
                assert(0 <= (2 * iy + 1) * nx <= 0x7fff_ffff_0000_0000) by (nonlinear_arith)
                    requires
                        0 <= iy <= 0x7fff_ffff,
                        0 <= nx <= 0x7fff_ffff,
                ;
            }
            let current = self.index(px as i32, py as i32);
            let room = self.root_of(current);
            if (2 * ix + 1) * ny < (2 * iy + 1) * nx {
                px = px + sx;
                ix = ix + 1;
            } else {
                py = py + sy;
                iy = iy + 1;
            }
            proof {
                k = (k + 1) as nat;
            }
            let next = self.index(px as i32, py as i32);
            let next_room = self.root_of(next);
            if next_room != room {
                return false;
            }
        }
        true
    }
}

} // verus!
