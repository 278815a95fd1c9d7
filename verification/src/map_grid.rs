//! Room connectivity over a square grid: a union-find structure whose
//! classes are the rooms, with ray rejection, boundary extraction and
//! breadth-first pathfinding on top of it.

pub mod connectivity;
pub mod forest;
pub mod loops;
pub mod path;
pub mod ray_cast;
pub mod rooms;
pub mod stitch;

use crate::map_grid::connectivity::{
    adjacent, connected, is_chain, is_link, lemma_cell_coords, lemma_cell_index,
    lemma_connected_reflexive, lemma_connected_same_value, lemma_connected_step,
    lemma_connected_symmetric, lemma_connected_transitive,
};
use crate::map_grid::forest::{
    is_forest, lemma_childless_root, lemma_compress, lemma_crown, lemma_link, lemma_repoint,
    lemma_root_is_fixed, linked_depth, root,
};
use crate::map_grid::path::{lemma_neighbours, neighbour_of};
use vstd::prelude::*;

verus! {

/// A grid point.
#[derive(Debug, Clone, PartialEq, Eq, Hash)]
pub struct Point {
    pub x: i32,
    pub y: i32,
}

/// A directed edge between two grid points.
#[derive(Debug, Clone, PartialEq, Eq, Hash)]
pub struct Edge(pub Point, pub Point);

/// A room: its cells, and the closed loops of edges that bound it.
#[derive(Debug)]
pub struct Room {
    pub points: Vec<Point>,
    pub edge_loops: Vec<Vec<Edge>>,
}

/// What a union-find structure stands for: the value of every cell of a
/// square grid, the root that represents each cell's class, and the rank
/// kept for each cell.
pub struct Partition {
    /// The value of each cell, row by row: 0 is a wall, a positive value a
    /// room id.
    pub values: Seq<i32>,
    /// The edge length of the grid.
    pub size: nat,
    /// The root of each cell.
    pub roots: Seq<int>,
    /// The rank of each cell; only the ranks of roots matter.
    pub ranks: Seq<usize>,
}

/// The partition in which every cell is a class of its own, of rank 0.
pub open spec fn singletons(values: Seq<i32>, size: nat) -> Partition {
    Partition {
        values,
        size,
        roots: Seq::new(values.len(), |i: int| i),
        ranks: Seq::new(values.len(), |i: int| 0usize),
    }
}

/// The first cell, from `from` on, that has the root `idx` and is not `idx`
/// itself; `idx` if there is none.
pub open spec fn first_other(roots: Seq<int>, idx: int, from: int) -> int
    decreases roots.len() - from,
{
    if from < 0 || from >= roots.len() {
        idx
    } else if from != idx && roots[from] == idx {
        from
    } else {
        first_other(roots, idx, from + 1)
    }
}

/// The roots after every cell of class `from` has moved to class `to`.
pub open spec fn relabel(roots: Seq<int>, from: int, to: int) -> Seq<int> {
    Seq::new(
        roots.len(),
        |k: int|
            if roots[k] == from {
                to
            } else {
                roots[k]
            },
    )
}

/// A rank raised by one, unless it is already the largest number.
pub open spec fn raised(rank: usize) -> usize {
    if rank < usize::MAX {
        (rank + 1) as usize
    } else {
        rank
    }
}

impl Partition {
    /// The number of cells.
    pub open spec fn len(self) -> nat {
        self.values.len()
    }

    /// The partition is well formed: one root and one rank per cell of the
    /// square grid, and every root is a cell that is its own root.
    pub open spec fn wf(self) -> bool {
        &&& self.roots.len() == self.len()
        &&& self.ranks.len() == self.len()
        &&& self.len() == self.size * self.size
        &&& forall|i: int|
            0 <= i < self.len() ==> 0 <= #[trigger] self.roots[i] < self.len()
                && self.roots[self.roots[i]] == self.roots[i]
    }

    /// Whether `(x, y)` is a cell of the grid.
    pub open spec fn in_grid(self, x: int, y: int) -> bool {
        0 <= x < self.size && 0 <= y < self.size
    }

    /// The index of the cell `(x, y)`.
    pub open spec fn cell(self, x: int, y: int) -> int {
        y * self.size + x
    }

    /// Whether no class holds cells of differing values.
    pub open spec fn uniform(self) -> bool {
        forall|a: int, b: int|
            0 <= a < self.len() && 0 <= b < self.len() && #[trigger] self.roots[a]
                == #[trigger] self.roots[b] ==> self.values[a] == self.values[b]
    }

    /// Whether only connected cells share a class.
    pub open spec fn sound(self) -> bool {
        forall|a: int, b: int|
            0 <= a < self.len() && 0 <= b < self.len() && #[trigger] self.roots[a]
                == #[trigger] self.roots[b] ==> connected(self.values, self.size, a, b)
    }

    /// Whether cell `c` shares a class with the cell below it and with the
    /// cell to its right, wherever that cell exists and has the same value.
    pub open spec fn joined_at(self, c: int) -> bool {
        &&& c + self.size < self.len() && self.values[c] == self.values[c + self.size]
            ==> self.roots[c] == self.roots[c + self.size]
        &&& c + 1 < self.len() && (c + 1) / (self.size as int) == c / (self.size as int)
            && self.values[c] == self.values[c + 1] ==> self.roots[c] == self.roots[c + 1]
    }

    /// Whether the classes are exactly the rooms: two cells share a root if
    /// and only if a chain of adjacent cells of equal value connects them.
    pub open spec fn tracks_connectivity(self) -> bool {
        forall|a: int, b: int|
            0 <= a < self.len() && 0 <= b < self.len() ==> (#[trigger] self.roots[a]
                == #[trigger] self.roots[b] <==> connected(self.values, self.size, a, b))
    }

    /// The partition after the classes of `a` and `b` are united if the two
    /// cells have the same value.
    pub open spec fn joined_like(self, a: int, b: int) -> Partition {
        if self.values[a] == self.values[b] {
            self.united(a, b)
        } else {
            self
        }
    }

    /// The partition after cell `c` is united with the cell below it and then
    /// with the cell to its right, wherever that cell exists and has the
    /// same value.
    pub open spec fn seeded_at(self, c: int) -> Partition {
        let n = self.size as int;
        let below = if c / n + 1 < n {
            self.joined_like(c, c + n)
        } else {
            self
        };
        if c % n + 1 < n {
            below.joined_like(c, c + 1)
        } else {
            below
        }
    }

    /// The partition after the first `steps` cells have been seeded, column
    /// by column from the left and from the top down in each column.
    pub open spec fn seeded(self, steps: nat) -> Partition
        decreases steps,
    {
        if steps == 0 {
            self
        } else {
            let k = (steps - 1) as nat;
            let n = self.size as int;
            self.seeded(k).seeded_at((k % (n as nat)) * n + k / (n as nat))
        }
    }

    /// The partition after cell `idx` is united with its neighbour in
    /// direction `d` (0 down, 1 up, 2 right, 3 left), if the grid has that
    /// neighbour and it has the value of `idx`.
    pub open spec fn rejoined(self, idx: int, d: int) -> Partition {
        match neighbour_of(self.size, idx, d) {
            Some(m) => self.joined_like(idx, m),
            None => self,
        }
    }

    /// The cell that stands for the rest of the class of `idx` once `idx`
    /// has left it: the root of the class, or, where `idx` is the root
    /// itself, the first other cell of the class; `idx` if it is alone.
    pub open spec fn heir(self, idx: int) -> int {
        if self.roots[idx] != idx {
            self.roots[idx]
        } else {
            first_other(self.roots, idx, 0)
        }
    }

    /// The partition after cell `idx` has left its class and has taken the
    /// value `new_type`: `idx` is a class of its own, of rank 0; the rest of
    /// its class stays together under its heir; every other class is as it
    /// was.
    pub open spec fn detached(self, idx: int, new_type: i32) -> Partition {
        Partition {
            values: self.values.update(idx, new_type),
            size: self.size,
            roots: self.detached_roots(idx),
            ranks: self.ranks.update(idx, 0),
        }
    }

    /// The roots after cell `idx` has left its class.
    pub open spec fn detached_roots(self, idx: int) -> Seq<int> {
        Seq::new(
            self.roots.len(),
            |k: int|
                if k == idx {
                    idx
                } else if self.roots[k] == self.roots[idx] {
                    self.heir(idx)
                } else {
                    self.roots[k]
                },
        )
    }

    /// The partition after the value of cell `idx` has changed to `new_type`:
    /// the cell leaves its class, then it is united with each neighbour of
    /// the new value: below, above, to the right and to the left, in this
    /// order.
    pub open spec fn retyped(self, idx: int, new_type: i32) -> Partition {
        self.detached(idx, new_type).rejoined(idx, 0).rejoined(idx, 1).rejoined(idx, 2).rejoined(
            idx,
            3,
        )
    }

    /// The partition after the classes of `i` and `j` are united by rank: the
    /// root of lower rank moves below the other; at equal ranks the root of
    /// `j` moves below the root of `i`, whose rank rises.
    pub open spec fn united(self, i: int, j: int) -> Partition {
        let ri = self.roots[i];
        let rj = self.roots[j];
        if ri == rj {
            self
        } else if self.ranks[ri] < self.ranks[rj] {
            Partition { roots: relabel(self.roots, ri, rj), ..self }
        } else if self.ranks[ri] > self.ranks[rj] {
            Partition { roots: relabel(self.roots, rj, ri), ..self }
        } else {
            Partition {
                roots: relabel(self.roots, rj, ri),
                ranks: self.ranks.update(ri, raised(self.ranks[ri])),
                ..self
            }
        }
    }
}

/// Uniting two classes keeps the partition well formed, keeps together what
/// was together, and puts the two cells into one class.
pub proof fn lemma_united(p: Partition, i: int, j: int)
    requires
        p.wf(),
        0 <= i < p.len(),
        0 <= j < p.len(),
    ensures
        p.united(i, j).wf(),
        p.united(i, j).values == p.values,
        p.united(i, j).size == p.size,
        p.united(i, j).roots[i] == p.united(i, j).roots[j],
        forall|a: int, b: int|
            0 <= a < p.len() && 0 <= b < p.len() && #[trigger] p.roots[a] == #[trigger] p.roots[b]
                ==> p.united(i, j).roots[a] == p.united(i, j).roots[b],
        forall|a: int|
            0 <= a < p.len() ==> #[trigger] p.united(i, j).roots[a] == p.roots[a] || (p.roots[a]
                == p.roots[i] && p.united(i, j).roots[a] == p.roots[j]) || (p.roots[a]
                == p.roots[j] && p.united(i, j).roots[a] == p.roots[i]),
{
    let q = p.united(i, j);
    assert(p.roots[p.roots[i]] == p.roots[i]);
    assert(p.roots[p.roots[j]] == p.roots[j]);
    assert forall|k: int| 0 <= k < q.len() implies 0 <= #[trigger] q.roots[k] < q.len()
        && q.roots[q.roots[k]] == q.roots[k] by {
        assert(p.roots[p.roots[k]] == p.roots[k]);
    }
}

/// Uniting the classes of two cells of equal value keeps every class of one
/// value.
pub proof fn lemma_united_uniform(p: Partition, i: int, j: int)
    requires
        p.wf(),
        p.uniform(),
        0 <= i < p.len(),
        0 <= j < p.len(),
        p.values[i] == p.values[j],
    ensures
        p.united(i, j).uniform(),
{
    let q = p.united(i, j);
    lemma_united(p, i, j);
    assert(p.roots[p.roots[i]] == p.roots[i]);
    assert(p.roots[p.roots[j]] == p.roots[j]);
    assert forall|a: int, b: int|
        0 <= a < q.len() && 0 <= b < q.len() && #[trigger] q.roots[a] == #[trigger] q.roots[b]
        implies q.values[a] == q.values[b] by {
        let near_i = |c: int| p.roots[c] == p.roots[i];
        let near_j = |c: int| p.roots[c] == p.roots[j];
        if p.roots[a] != p.roots[b] {
            assert((near_i(a) && near_j(b)) || (near_j(a) && near_i(b)));
        }
    }
}

/// The first other cell of the class of a root, if there is one, is a cell
/// of that class; if there is none, the root is alone in its class.
pub proof fn lemma_first_other(roots: Seq<int>, idx: int, from: int)
    requires
        0 <= from,
    ensures
        first_other(roots, idx, from) == idx || (from <= first_other(roots, idx, from)
            < roots.len() && roots[first_other(roots, idx, from)] == idx),
        first_other(roots, idx, from) == idx ==> forall|k: int|
            from <= k < roots.len() && k != idx ==> #[trigger] roots[k] != idx,
    decreases roots.len() - from,
{
    if from < roots.len() && !(from != idx && roots[from] == idx) {
        lemma_first_other(roots, idx, from + 1);
    }
}

/// Leaving its class makes a cell a class of its own and keeps the partition
/// well formed; it keeps every class of one value, and keeps together what
/// was together apart from the cell.
pub proof fn lemma_detached(p: Partition, idx: int, new_type: i32)
    requires
        p.wf(),
        0 <= idx < p.len(),
    ensures
        p.detached(idx, new_type).wf(),
        p.detached(idx, new_type).roots[idx] == idx,
        p.detached(idx, new_type).values[idx] == new_type,
        p.uniform() ==> p.detached(idx, new_type).uniform(),
        forall|k: int|
            0 <= k < p.len() && k != idx ==> (#[trigger] p.detached(idx, new_type).roots[k])
                != idx,
        forall|k: int|
            0 <= k < p.len() && p.roots[k] != p.roots[idx] ==> #[trigger] p.detached(
                idx,
                new_type,
            ).roots[k] == p.roots[k],
        forall|a: int, b: int|
            0 <= a < p.len() && 0 <= b < p.len() && a != idx && b != idx && #[trigger] p.roots[a]
                == #[trigger] p.roots[b] ==> p.detached(idx, new_type).roots[a] == p.detached(
                idx,
                new_type,
            ).roots[b],
{
    let q = p.detached(idx, new_type);
    let h = p.heir(idx);
    let r = p.roots[idx];
    assert(p.roots[r] == r);
    lemma_first_other(p.roots, idx, 0);
    assert(0 <= h < p.len() && p.roots[h] == r);
    assert(h == idx ==> forall|k: int| 0 <= k < p.len() && k != idx ==> p.roots[k] != r);
    assert forall|k: int| 0 <= k < q.len() implies 0 <= #[trigger] q.roots[k] < q.len()
        && q.roots[q.roots[k]] == q.roots[k] by {
        assert(p.roots[p.roots[k]] == p.roots[k]);
    }
    if p.uniform() {
        assert forall|a: int, b: int|
            0 <= a < q.len() && 0 <= b < q.len() && #[trigger] q.roots[a]
                == #[trigger] q.roots[b] implies q.values[a] == q.values[b] by {
            assert(p.roots[p.roots[a]] == p.roots[a]);
            assert(p.roots[p.roots[b]] == p.roots[b]);
            if a != idx && b != idx {
                assert(p.roots[a] == p.roots[b]);
            }
        }
    }
}

/// Re-joining a cell with a neighbour keeps the partition well formed and
/// every class of one value, and keeps together what was together. A
/// neighbour of the cell's value is in its class afterwards, and a cell that
/// is not in its class afterwards has kept its root.
pub proof fn lemma_rejoined(p: Partition, idx: int, d: int)
    requires
        p.wf(),
        0 <= idx < p.len(),
        0 <= d < 4,
    ensures
        p.rejoined(idx, d).wf(),
        p.rejoined(idx, d).values == p.values,
        p.rejoined(idx, d).size == p.size,
        p.uniform() ==> p.rejoined(idx, d).uniform(),
        keeps_together(p, p.rejoined(idx, d)),
        neighbour_of(p.size, idx, d) is Some && p.values[neighbour_of(p.size, idx, d)->0]
            == p.values[idx] ==> p.rejoined(idx, d).roots[neighbour_of(p.size, idx, d)->0]
            == p.rejoined(idx, d).roots[idx],
        forall|k: int|
            0 <= k < p.len() ==> #[trigger] p.rejoined(idx, d).roots[k] == p.roots[k]
                || p.rejoined(idx, d).roots[k] == p.rejoined(idx, d).roots[idx],
        (forall|m: int| adjacent(p.size, idx, m) ==> p.values[m] != p.values[idx]) ==> p.rejoined(
            idx,
            d,
        ) == p,
{
    lemma_neighbours(p.size, idx);
    match neighbour_of(p.size, idx, d) {
        Some(m) => {
            assert(adjacent(p.size, idx, m));
            lemma_united(p, idx, m);
            if p.values[idx] == p.values[m] && p.uniform() {
                lemma_united_uniform(p, idx, m);
            }
        },
        None => {},
    }
}

/// The partition after a cell has left its class and has been re-joined with
/// its neighbours in the first `steps` directions.
pub open spec fn rejoined_upto(p: Partition, idx: int, new_type: i32, steps: int) -> Partition
    decreases steps,
{
    if steps <= 0 {
        p.detached(idx, new_type)
    } else {
        rejoined_upto(p, idx, new_type, steps - 1).rejoined(idx, steps - 1)
    }
}

/// A cell of the grid is not adjacent to itself.
pub proof fn lemma_adjacent_differs(size: nat, a: int, b: int)
    requires
        adjacent(size, a, b),
    ensures
        a != b,
        size > 0,
{
    assert(size > 0) by (nonlinear_arith)
        requires
            0 <= a < size * size,
    ;
}

/// Re-joining a detached cell step by step keeps the partition well formed
/// and every class of one value, keeps together what was together apart
/// from the cell, and leaves every cell outside the class of the cell with
/// the root that it had.
pub proof fn lemma_rejoined_upto(p: Partition, idx: int, new_type: i32, steps: int)
    requires
        p.wf(),
        0 <= idx < p.len(),
        0 <= steps <= 4,
    ensures
        rejoined_upto(p, idx, new_type, steps).wf(),
        rejoined_upto(p, idx, new_type, steps).values == p.values.update(idx, new_type),
        rejoined_upto(p, idx, new_type, steps).size == p.size,
        p.uniform() ==> rejoined_upto(p, idx, new_type, steps).uniform(),
        keeps_together(p.detached(idx, new_type), rejoined_upto(p, idx, new_type, steps)),
        forall|k: int|
            0 <= k < p.len() ==> #[trigger] rejoined_upto(p, idx, new_type, steps).roots[k]
                == p.detached(idx, new_type).roots[k] || rejoined_upto(
                p,
                idx,
                new_type,
                steps,
            ).roots[k] == rejoined_upto(p, idx, new_type, steps).roots[idx],
        forall|d: int|
            0 <= d < steps && (#[trigger] neighbour_of(p.size, idx, d)) is Some
                && p.values[neighbour_of(p.size, idx, d)->0] == new_type ==> rejoined_upto(
                p,
                idx,
                new_type,
                steps,
            ).roots[neighbour_of(p.size, idx, d)->0] == rejoined_upto(
                p,
                idx,
                new_type,
                steps,
            ).roots[idx],
        (forall|m: int| adjacent(p.size, idx, m) ==> #[trigger] p.values[m] != new_type)
            ==> rejoined_upto(p, idx, new_type, steps) == p.detached(idx, new_type),
    decreases steps,
{
    lemma_detached(p, idx, new_type);
    if steps > 0 {
        let before = rejoined_upto(p, idx, new_type, steps - 1);
        let after = before.rejoined(idx, steps - 1);
        lemma_rejoined_upto(p, idx, new_type, steps - 1);
        lemma_rejoined(before, idx, steps - 1);
        lemma_neighbours(p.size, idx);
        assert forall|d: int|
            0 <= d < steps && (#[trigger] neighbour_of(p.size, idx, d)) is Some
                && p.values[neighbour_of(p.size, idx, d)->0]
                == new_type implies after.roots[neighbour_of(p.size, idx, d)->0]
            == after.roots[idx] by {
            let m = neighbour_of(p.size, idx, d)->0;
            lemma_adjacent_differs(p.size, idx, m);
            if d < steps - 1 {
                assert(before.roots[m] == before.roots[idx]);
            }
        }
        if forall|m: int| adjacent(p.size, idx, m) ==> #[trigger] p.values[m] != new_type {
            assert forall|m: int| adjacent(before.size, idx, m) implies before.values[m]
                != before.values[idx] by {
                lemma_adjacent_differs(p.size, idx, m);
                assert(p.values[m] != new_type);
            }
        }
        assert forall|k: int| 0 <= k < p.len() implies #[trigger] after.roots[k] == p.detached(
            idx,
            new_type,
        ).roots[k] || after.roots[k] == after.roots[idx] by {
            if before.roots[k] == before.roots[idx] {
                assert(after.roots[k] == after.roots[idx]);
            }
        }
    }
}

/// What changing the value of a cell does: the cell holds the new value; no
/// class comes to hold cells of differing values; the cell is in one class
/// with every adjacent cell of the new value, and is a class of its own if
/// there is none; what was together apart from the cell stays together; and
/// every cell outside the old and the new class of the cell keeps its root.
pub proof fn lemma_retyped(p: Partition, idx: int, new_type: i32)
    requires
        p.wf(),
        0 <= idx < p.len(),
    ensures
        p.retyped(idx, new_type) == rejoined_upto(p, idx, new_type, 4),
        p.retyped(idx, new_type).wf(),
        p.retyped(idx, new_type).values == p.values.update(idx, new_type),
        p.retyped(idx, new_type).size == p.size,
        p.uniform() ==> p.retyped(idx, new_type).uniform(),
        forall|m: int|
            adjacent(p.size, idx, m) && #[trigger] p.values[m] == new_type ==> p.retyped(
                idx,
                new_type,
            ).roots[m] == p.retyped(idx, new_type).roots[idx],
        (forall|m: int| adjacent(p.size, idx, m) ==> #[trigger] p.values[m] != new_type)
            ==> p.retyped(idx, new_type).roots[idx] == idx,
        forall|a: int, b: int|
            0 <= a < p.len() && 0 <= b < p.len() && a != idx && b != idx && #[trigger] p.roots[a]
                == #[trigger] p.roots[b] ==> p.retyped(idx, new_type).roots[a] == p.retyped(
                idx,
                new_type,
            ).roots[b],
        forall|k: int|
            0 <= k < p.len() && p.roots[k] != p.roots[idx] && (#[trigger] p.retyped(
                idx,
                new_type,
            ).roots[k]) != p.retyped(idx, new_type).roots[idx] ==> p.retyped(
                idx,
                new_type,
            ).roots[k] == p.roots[k],
{
    let q0 = p.detached(idx, new_type);
    let q = rejoined_upto(p, idx, new_type, 4);
    assert(p.retyped(idx, new_type) == q) by {
        assert(rejoined_upto(p, idx, new_type, 0) == q0);
        assert(rejoined_upto(p, idx, new_type, 1) == q0.rejoined(idx, 0));
        assert(rejoined_upto(p, idx, new_type, 2) == q0.rejoined(idx, 0).rejoined(idx, 1));
        assert(rejoined_upto(p, idx, new_type, 3) == q0.rejoined(idx, 0).rejoined(
            idx,
            1,
        ).rejoined(idx, 2));
    }
    lemma_detached(p, idx, new_type);
    lemma_rejoined_upto(p, idx, new_type, 4);
    lemma_neighbours(p.size, idx);
    assert forall|m: int|
        adjacent(p.size, idx, m) && #[trigger] p.values[m] == new_type implies q.roots[m]
        == q.roots[idx] by {
        let d = choose|d: int| 0 <= d < 4 && #[trigger] neighbour_of(p.size, idx, d) == Some(m);
        assert(neighbour_of(p.size, idx, d) is Some);
    }
    assert forall|a: int, b: int|
        0 <= a < p.len() && 0 <= b < p.len() && a != idx && b != idx && #[trigger] p.roots[a]
            == #[trigger] p.roots[b] implies q.roots[a] == q.roots[b] by {
        assert(q0.roots[a] == q0.roots[b]);
    }
    assert forall|k: int|
        0 <= k < p.len() && p.roots[k] != p.roots[idx] && (#[trigger] q.roots[k])
            != q.roots[idx] implies q.roots[k] == p.roots[k] by {
        assert(q0.roots[k] == p.roots[k]);
    }
}

/// Uniting the classes of two adjacent cells of equal value keeps every class
/// inside one room.
pub proof fn lemma_united_sound(p: Partition, i: int, j: int)
    requires
        p.wf(),
        p.sound(),
        adjacent(p.size, i, j),
        p.values[i] == p.values[j],
    ensures
        p.united(i, j).sound(),
{
    let q = p.united(i, j);
    lemma_united(p, i, j);
    lemma_connected_step(p.values, p.size, i, j);
    lemma_connected_symmetric(p.values, p.size, i, j);
    assert forall|a: int, b: int|
        0 <= a < q.len() && 0 <= b < q.len() && #[trigger] q.roots[a] == #[trigger] q.roots[b]
        implies connected(q.values, q.size, a, b) by {
        let near_i = |c: int| p.roots[c] == p.roots[i];
        let near_j = |c: int| p.roots[c] == p.roots[j];
        if p.roots[a] != p.roots[b] {
            assert(p.roots[p.roots[i]] == p.roots[i]);
            assert(p.roots[p.roots[j]] == p.roots[j]);
            if near_i(a) {
                assert(near_j(b));
                assert(connected(p.values, p.size, a, i));
                assert(connected(p.values, p.size, j, b));
                lemma_connected_transitive(p.values, p.size, a, i, j);
                lemma_connected_transitive(p.values, p.size, a, j, b);
            } else {
                assert(near_j(a));
                assert(near_i(b));
                assert(connected(p.values, p.size, a, j));
                assert(connected(p.values, p.size, i, b));
                lemma_connected_transitive(p.values, p.size, a, j, i);
                lemma_connected_transitive(p.values, p.size, a, i, b);
            }
        }
    }
}

/// Where every cell is joined to its like neighbours below and to the right,
/// all cells of a chain share one class.
pub proof fn lemma_chain_one_class(p: Partition, chain: Seq<int>, k: int)
    requires
        p.wf(),
        forall|c: int| 0 <= c < p.len() ==> #[trigger] p.joined_at(c),
        is_chain(p.values, p.size, chain),
        0 <= k < chain.len(),
    ensures
        p.roots[chain[k]] == p.roots[chain[0]],
    decreases k,
{
    if k > 0 {
        lemma_chain_one_class(p, chain, k - 1);
        let a = chain[k - 1];
        let b = chain[k];
        assert(is_link(p.values, p.size, chain, k - 1));
        assert(p.joined_at(a));
        assert(p.joined_at(b));
    }
}

/// A sound partition in which every cell is joined to its like neighbours
/// has exactly the rooms as its classes.
pub proof fn lemma_tracks_connectivity(p: Partition)
    requires
        p.wf(),
        p.sound(),
        forall|c: int| 0 <= c < p.len() ==> #[trigger] p.joined_at(c),
    ensures
        p.tracks_connectivity(),
{
    assert forall|a: int, b: int| 0 <= a < p.len() && 0 <= b < p.len() implies (
    #[trigger] p.roots[a] == #[trigger] p.roots[b] <==> connected(p.values, p.size, a, b)) by {
        if connected(p.values, p.size, a, b) {
            let chain = choose|chain: Seq<int>| #[trigger]
                is_chain(p.values, p.size, chain) && chain[0] == a && chain[chain.len() - 1] == b;
            lemma_chain_one_class(p, chain, chain.len() - 1);
        }
    }
}

/// Whether `q` keeps together what is together in `p`.
pub open spec fn keeps_together(p: Partition, q: Partition) -> bool {
    forall|a: int, b: int|
        0 <= a < p.len() && 0 <= b < p.len() && #[trigger] p.roots[a] == #[trigger] p.roots[b]
            ==> q.roots[a] == q.roots[b]
}

/// Whether every cell before the cell in column `col` of row `row`, in the
/// order of the columns, is joined to its like neighbours.
pub open spec fn is_joined_before(p: Partition, col: int, row: int) -> bool {
    forall|c: int|
        0 <= c < p.len() && (c % (p.size as int) < col || (c % (p.size as int) == col && c / (
        p.size as int) < row)) ==> #[trigger] p.joined_at(c)
}

/// Seeding the cell in column `col` of row `row` joins it to its like
/// neighbours and keeps the cells before it joined to theirs.
pub proof fn lemma_joined_grows(
    before: Partition,
    middle: Partition,
    after: Partition,
    col: int,
    row: int,
)
    requires
        before.size > 0,
        before.len() == before.size * before.size,
        middle.len() == before.len(),
        after.len() == before.len(),
        middle.size == before.size,
        after.size == before.size,
        middle.values == before.values,
        after.values == before.values,
        0 <= col < before.size,
        0 <= row < before.size,
        is_joined_before(before, col, row),
        keeps_together(before, middle),
        keeps_together(middle, after),
        row + 1 < before.size && before.values[row * before.size + col] == before.values[row
            * before.size + col + before.size] ==> middle.roots[row * before.size + col]
            == middle.roots[row * before.size + col + before.size],
        col + 1 < before.size && before.values[row * before.size + col] == before.values[row
            * before.size + col + 1] ==> after.roots[row * before.size + col] == after.roots[row
            * before.size + col + 1],
    ensures
        is_joined_before(after, col, row + 1),
{
    let n = before.size as int;
    let current = row * n + col;
    lemma_cell_index(n, col, row);
    assert((row + 1) * n == row * n + n) by (nonlinear_arith);
    assert forall|c: int|
        0 <= c < after.len() && (c % n < col || (c % n == col && c / n < row + 1))
            implies #[trigger] after.joined_at(c) by {
        lemma_cell_coords(n, c);
        if c == current {
            if c + 1 < after.len() && col + 1 >= n {
                if row + 1 < n {
                    lemma_cell_index(n, 0, row + 1);
                }
            }
            if c + n < after.len() {
                assert(middle.roots[c] == middle.roots[c + n] ==> after.roots[c] == after.roots[c
                    + n]);
            }
        } else {
            assert(before.joined_at(c));
            if c + n < after.len() {
                assert(before.roots[c] == before.roots[c + n] ==> middle.roots[c] == middle.roots[c
                    + n]);
                assert(middle.roots[c] == middle.roots[c + n] ==> after.roots[c] == after.roots[c
                    + n]);
            }
            if c + 1 < after.len() {
                assert(before.roots[c] == before.roots[c + 1] ==> middle.roots[c] == middle.roots[c
                    + 1]);
                assert(middle.roots[c] == middle.roots[c + 1] ==> after.roots[c] == after.roots[c
                    + 1]);
            }
        }
    }
}

/// Where the cells up to the end of column `col` are joined to their like
/// neighbours, so are the cells before the start of the next column.
pub proof fn lemma_column_joined(p: Partition, col: int)
    requires
        p.len() == p.size * p.size,
        0 <= col < p.size,
        is_joined_before(p, col, p.size as int),
    ensures
        is_joined_before(p, col + 1, 0),
{
    assert forall|c: int|
        0 <= c < p.len() && c % (p.size as int) < col + 1 implies #[trigger] p.joined_at(c) by {
        lemma_cell_coords(p.size as int, c);
    }
}

/// Where the cells of all columns are joined to their like neighbours, every
/// cell is.
pub proof fn lemma_all_joined(p: Partition)
    requires
        p.len() == p.size * p.size,
        is_joined_before(p, p.size as int, 0),
    ensures
        forall|c: int| 0 <= c < p.len() ==> #[trigger] p.joined_at(c),
{
    if p.size > 0 {
        assert forall|c: int| 0 <= c < p.len() implies #[trigger] p.joined_at(c) by {
            lemma_cell_coords(p.size as int, c);
        }
    }
}

/// Where the classes are exactly the rooms, no class holds cells of
/// differing values.
pub proof fn lemma_rooms_are_uniform(p: Partition)
    requires
        p.tracks_connectivity(),
    ensures
        p.uniform(),
{
    assert forall|a: int, b: int|
        0 <= a < p.len() && 0 <= b < p.len() && #[trigger] p.roots[a]
            == #[trigger] p.roots[b] implies p.values[a] == p.values[b] by {
        lemma_connected_same_value(p.values, p.size, a, b);
    }
}

/// A union-find structure over the cells of a square grid.
pub struct UnionFind {
    parent: Vec<usize>,
    rank: Vec<usize>,
    map: Vec<i32>,
    layer_size: usize,
    depth: Ghost<Seq<nat>>,
}

impl View for UnionFind {
    type V = Partition;

    closed spec fn view(&self) -> Partition {
        Partition {
            values: self.map@,
            size: self.layer_size as nat,
            roots: Seq::new(self.parent@.len(), |i: int| root(self.parent@, self.depth@, i)),
            ranks: self.rank@,
        }
    }
}

impl UnionFind {
    /// The structure is well formed: the parent pointers form a forest over
    /// the cells of a square grid.
    pub closed spec fn wf(&self) -> bool {
        &&& is_forest(self.parent@, self.depth@)
        &&& self.rank@.len() == self.parent@.len()
        &&& self.map@.len() == self.parent@.len()
        &&& self.parent@.len() == self.layer_size * self.layer_size
    }

    /// A well-formed structure stands for a well-formed partition.
    pub proof fn lemma_view_wf(&self)
        requires
            self.wf(),
        ensures
            self@.wf(),
    {
        assert forall|i: int| 0 <= i < self@.len() implies 0 <= #[trigger] self@.roots[i]
            < self@.len() && self@.roots[self@.roots[i]] == self@.roots[i] by {
            lemma_root_is_fixed(self.parent@, self.depth@, i);
        }
    }

    /// The edge length of the grid.
    pub fn size(&self) -> (size: usize)
        ensures
            size == self@.size,
    {
        self.layer_size
    }

    /// The number of cells of the grid.
    pub fn len(&self) -> (len: usize)
        requires
            self.wf(),
        ensures
            len == self@.len(),
            len == self@.size * self@.size,
    {
        self.map.len()
    }

    /// The value of cell `i`.
    pub fn value(&self, i: usize) -> (value: i32)
        requires
            self.wf(),
            i < self@.len(),
        ensures
            value == self@.values[i as int],
    {
        self.map[i]
    }

    /// The root of the class of cell `i`, found without changing anything.
    pub fn root_of(&self, i: usize) -> (top: usize)
        requires
            self.wf(),
            i < self@.len(),
        ensures
            top == self@.roots[i as int],
            top < self@.len(),
    {
        let mut top: usize = i;
        while self.parent[top] != top
            invariant
                self.wf(),
                top < self.parent@.len(),
                i < self.parent@.len(),
                root(self.parent@, self.depth@, top as int) == root(
                    self.parent@,
                    self.depth@,
                    i as int,
                ),
            decreases self.depth@[top as int],
        {
            top = self.parent[top];
        }
        top
    }

    /// The root of the class of cell `i`. The paths of the cells between `i`
    /// and the root are compressed; no class changes.
    pub fn find(&mut self, i: usize) -> (top: usize)
        requires
            old(self).wf(),
            i < old(self)@.len(),
        ensures
            final(self).wf(),
            final(self)@ == old(self)@,
            top == old(self)@.roots[i as int],
    {
        let mut top: usize = i;
        while self.parent[top] != top
            invariant
                self.wf(),
                *self == *old(self),
                top < self.parent@.len(),
                i < self.parent@.len(),
                root(self.parent@, self.depth@, top as int) == root(
                    self.parent@,
                    self.depth@,
                    i as int,
                ),
            decreases self.depth@[top as int],
        {
            top = self.parent[top];
        }
        let mut cur: usize = i;
        while cur != top
            invariant
                self.wf(),
                self.rank == old(self).rank,
                self.map == old(self).map,
                self.layer_size == old(self).layer_size,
                self.depth == old(self).depth,
                self.parent@.len() == old(self).parent@.len(),
                cur < self.parent@.len(),
                top < self.parent@.len(),
                root(self.parent@, self.depth@, cur as int) == top,
                forall|k: int|
                    0 <= k < self.parent@.len() ==> root(self.parent@, self.depth@, k) == root(
                        old(self).parent@,
                        old(self).depth@,
                        k,
                    ),
            decreases self.depth@[cur as int],
        {
            let next: usize = self.parent[cur];
            proof {
                lemma_root_is_fixed(self.parent@, self.depth@, cur as int);
                assert forall|k: int| 0 <= k < self.parent@.len() implies root(
                    self.parent@.update(cur as int, top),
                    self.depth@,
                    k,
                ) == root(self.parent@, self.depth@, k) by {
                    lemma_compress(self.parent@, self.depth@, cur as int, k);
                }
                lemma_compress(self.parent@, self.depth@, cur as int, cur as int);
            }
            self.parent[cur] = top;
            cur = next;
        }
        assert(self@.roots =~= old(self)@.roots);
        top
    }

    /// Makes root `b` the parent of root `a`.
    fn link(&mut self, a: usize, b: usize)
        requires
            old(self).wf(),
            a < old(self)@.len(),
            b < old(self)@.len(),
            a != b,
            old(self)@.roots[a as int] == a,
            old(self)@.roots[b as int] == b,
        ensures
            final(self).wf(),
            final(self)@ == (Partition {
                roots: relabel(old(self)@.roots, a as int, b as int),
                ..old(self)@
            }),
    {
        proof {
            lemma_root_is_fixed(self.parent@, self.depth@, a as int);
            lemma_root_is_fixed(self.parent@, self.depth@, b as int);
            assert forall|k: int| 0 <= k < self.parent@.len() implies root(
                self.parent@.update(a as int, b),
                linked_depth(self.depth@, b as int),
                k,
            ) == relabel(old(self)@.roots, a as int, b as int)[k] by {
                lemma_link(self.parent@, self.depth@, a as int, b as int, k);
            }
            lemma_link(self.parent@, self.depth@, a as int, b as int, a as int);
        }
        self.parent[a] = b;
        self.depth = Ghost(linked_depth(self.depth@, b as int));
        assert(self@.roots =~= relabel(old(self)@.roots, a as int, b as int));
    }

    /// Unites the classes of cells `i` and `j`, by rank.
    pub fn union(&mut self, i: usize, j: usize)
        requires
            old(self).wf(),
            i < old(self)@.len(),
            j < old(self)@.len(),
        ensures
            final(self).wf(),
            final(self)@ == old(self)@.united(i as int, j as int),
    {
        proof {
            self.lemma_view_wf();
        }
        let root_i = self.find(i);
        let root_j = self.find(j);
        if root_i != root_j {
            let rank_i = self.rank[root_i];
            let rank_j = self.rank[root_j];
            if rank_i < rank_j {
                self.link(root_i, root_j);
            } else if rank_i > rank_j {
                self.link(root_j, root_i);
            } else {
                self.link(root_j, root_i);
                if rank_i < usize::MAX {
                    self.rank[root_i] = rank_i + 1;
                }
                assert(self@.ranks =~= old(self)@.ranks.update(root_i as int, raised(rank_i)));
            }
        }
    }

    /// The index of the cell in column `x` of row `y`.
    pub fn index(&self, x: i32, y: i32) -> (cell: usize)
        requires
            self.wf(),
            self@.in_grid(x as int, y as int),
        ensures
            cell == self@.cell(x as int, y as int),
            cell < self@.len(),
    {
        let total = self.parent.len();
        proof {
            lemma_cell_index(self.layer_size as int, x as int, y as int);
            assert(total == self.layer_size * self.layer_size);
            assert(0 <= y * self.layer_size) by (nonlinear_arith)
                requires
                    0 <= y,
            ;
        }
        (y as usize) * self.layer_size + (x as usize)
    }

    /// Unites cell `current` with its neighbour `next` if both have the same
    /// value.
    fn join_like(&mut self, current: usize, next: usize)
        requires
            old(self).wf(),
            old(self)@.sound(),
            adjacent(old(self)@.size, current as int, next as int),
        ensures
            final(self).wf(),
            final(self)@.sound(),
            final(self)@ == old(self)@.joined_like(current as int, next as int),
            final(self)@.values == old(self)@.values,
            final(self)@.size == old(self)@.size,
            final(self)@.values[current as int] == final(self)@.values[next as int] ==> final(
                self
            )@.roots[current as int] == final(self)@.roots[next as int],
            keeps_together(old(self)@, final(self)@),
    {
        proof {
            self.lemma_view_wf();
        }
        if self.map[current] == self.map[next] {
            proof {
                lemma_united(self@, current as int, next as int);
                lemma_united_sound(self@, current as int, next as int);
            }
            self.union(current, next);
        }
    }

    /// Unites every cell with its neighbours of the same value, column by
    /// column. Starting from classes that lie inside rooms, the classes
    /// become exactly the rooms.
    fn initialize(&mut self)
        requires
            old(self).wf(),
            old(self)@.sound(),
        ensures
            final(self).wf(),
            final(self)@ == old(self)@.seeded(old(self)@.len()),
            final(self)@.values == old(self)@.values,
            final(self)@.size == old(self)@.size,
            final(self)@.tracks_connectivity(),
    {
        let n = self.layer_size;
        let total = self.parent.len();
        let ghost start = self@;
        let mut col: usize = 0;
        while col < n
            invariant
                self.wf(),
                self@.sound(),
                self@.values == start.values,
                self@.size == start.size,
                n == self@.size,
                total == n * n,
                total == self@.len(),
                col <= n,
                0 <= col * n <= total,
                self@ == start.seeded((col * n) as nat),
                is_joined_before(self@, col as int, 0),
            decreases n - col,
        {
            let mut row: usize = 0;
            while row < n
                invariant
                    self.wf(),
                    self@.sound(),
                    self@.values == start.values,
                    self@.size == start.size,
                    n == self@.size,
                    total == n * n,
                    total == self@.len(),
                    col < n,
                    row <= n,
                    0 <= col * n + row <= total,
                    self@ == start.seeded((col * n + row) as nat),
                    is_joined_before(self@, col as int, row as int),
                decreases n - row,
            {
                proof {
                    lemma_cell_index(n as int, col as int, row as int);
                    lemma_cell_index(n as int, row as int, col as int);
                    assert(0 <= row * n) by (nonlinear_arith)
                        requires
                            0 <= row,
                            0 <= n,
                    ;
                }
                let current: usize = row * n + col;
                let ghost before = self@;
                if row + 1 < n {
                    proof {
                        lemma_cell_index(n as int, col as int, row + 1);
                        assert((row + 1) * n == row * n + n) by (nonlinear_arith);
                    }
                    let below: usize = current + n;
                    self.join_like(current, below);
                }
                let ghost middle = self@;
                if col + 1 < n {
                    proof {
                        lemma_cell_index(n as int, col + 1, row as int);
                    }
                    let right: usize = current + 1;
                    self.join_like(current, right);
                }
                proof {
                    let k = (col * n + row) as nat;
                    assert(k / (n as nat) == col && k % (n as nat) == row);
                    assert(self@ == before.seeded_at(current as int));
                    assert(start.seeded(k + 1) == start.seeded(k).seeded_at(
                        (k % (n as nat)) * n + k / (n as nat),
                    ));
                    lemma_joined_grows(before, middle, self@, col as int, row as int);
                    assert(col * n + row + 1 <= total) by (nonlinear_arith)
                        requires
                            col < n,
                            row < n,
                            total == n * n,
                    ;
                }
                row = row + 1;
            }
            proof {
                lemma_column_joined(self@, col as int);
                assert((col + 1) * n == col * n + n) by (nonlinear_arith);
            }
            col = col + 1;
        }
        proof {
            self.lemma_view_wf();
            lemma_all_joined(self@);
            lemma_tracks_connectivity(self@);
        }
    }

    /// The structure for a square grid of `layer_size * layer_size` cells
    /// with the given values, row by row. Its classes are the rooms: two
    /// cells share a root if and only if a chain of adjacent cells of equal
    /// value connects them.
    pub fn new(map: Vec<i32>, layer_size: usize) -> (grid: Self)
        requires
            map@.len() == layer_size * layer_size,
        ensures
            grid.wf(),
            grid@.wf(),
            grid@ == singletons(map@, layer_size as nat).seeded(map@.len()),
            grid@.values == map@,
            grid@.size == layer_size,
            grid@.tracks_connectivity(),
    {
        let size = map.len();
        let mut parent: Vec<usize> = Vec::new();
        let mut rank: Vec<usize> = Vec::new();
        let mut i: usize = 0;
        while i < size
            invariant
                i <= size,
                parent@.len() == i,
                rank@.len() == i,
                forall|k: int| 0 <= k < i ==> #[trigger] parent@[k] == k,
                forall|k: int| 0 <= k < i ==> #[trigger] rank@[k] == 0,
            decreases size - i,
        {
            parent.push(i);
            rank.push(0);
            i = i + 1;
        }
        let ghost depth = Seq::new(size as nat, |k: int| 0nat);
        let mut grid = UnionFind { parent, rank, map, layer_size, depth: Ghost(depth) };
        proof {
            assert(is_forest(grid.parent@, grid.depth@));
            assert forall|a: int, b: int|
                0 <= a < grid@.len() && 0 <= b < grid@.len() && #[trigger] grid@.roots[a]
                    == #[trigger] grid@.roots[b] implies connected(
                grid@.values,
                grid@.size,
                a,
                b,
            ) by {
                lemma_connected_reflexive(grid@.values, grid@.size, a);
            }
        }
        assert(grid@.roots =~= singletons(map@, layer_size as nat).roots);
        assert(grid@.ranks =~= singletons(map@, layer_size as nat).ranks);
        grid.initialize();
        proof {
            grid.lemma_view_wf();
        }
        grid
    }

    /// Unites cell `idx` with its neighbour in direction `d`, if the grid has
    /// that neighbour and it has the value of `idx`.
    fn rejoin(&mut self, idx: usize, d: usize)
        requires
            old(self).wf(),
            idx < old(self)@.len(),
            d < 4,
        ensures
            final(self).wf(),
            final(self)@ == old(self)@.rejoined(idx as int, d as int),
    {
        match self.neighbour(idx, d) {
            Some(m) => {
                if self.map[m] == self.map[idx] {
                    self.union(idx, m);
                }
            },
            None => {},
        }
    }

    /// The first cell other than `idx` whose root is `idx`; the number of
    /// cells if there is none.
    fn first_member(&self, idx: usize) -> (member: usize)
        requires
            self.wf(),
            idx < self@.len(),
        ensures
            member < self@.len() ==> first_other(self@.roots, idx as int, 0) == member && member
                != idx && self@.roots[member as int] == idx,
            member >= self@.len() ==> first_other(self@.roots, idx as int, 0) == idx,
    {
        let total = self.parent.len();
        let mut k: usize = 0;
        while k < total && (k == idx || self.root_of(k) != idx)
            invariant
                self.wf(),
                total == self@.len(),
                k <= total,
                first_other(self@.roots, idx as int, k as int) == first_other(
                    self@.roots,
                    idx as int,
                    0,
                ),
            decreases total - k,
        {
            k = k + 1;
        }
        k
    }

    /// Makes `heir`, a root that lies higher than `idx`, the parent of every
    /// cell whose parent is `idx`. The cells that leave the class of `idx`
    /// are in the class of `heir` afterwards.
    fn hand_over(&mut self, idx: usize, heir: usize)
        requires
            old(self).wf(),
            idx < old(self)@.len(),
            heir < old(self)@.len(),
            heir != idx,
            old(self).parent@[heir as int] == heir,
            old(self).depth@[heir as int] < old(self).depth@[idx as int],
        ensures
            final(self).wf(),
            final(self).rank == old(self).rank,
            final(self).map == old(self).map,
            final(self).layer_size == old(self).layer_size,
            final(self).parent@[idx as int] == old(self).parent@[idx as int],
            final(self)@.roots[idx as int] == old(self)@.roots[idx as int],
            forall|k: int|
                0 <= k < old(self)@.len() && k != idx ==> #[trigger] final(self).parent@[k] != idx,
            forall|j: int|
                0 <= j < old(self)@.len() ==> #[trigger] final(self)@.roots[j] == old(
                    self
                )@.roots[j] || (old(self)@.roots[j] == old(self)@.roots[idx as int] && final(
                    self
                )@.roots[j] == heir),
    {
        let total = self.parent.len();
        let mut k: usize = 0;
        while k < total
            invariant
                self.wf(),
                self.rank == old(self).rank,
                self.map == old(self).map,
                self.layer_size == old(self).layer_size,
                self.depth == old(self).depth,
                total == self.parent@.len(),
                total == old(self).parent@.len(),
                idx < total,
                heir < total,
                heir != idx,
                k <= total,
                self.parent@[heir as int] == heir,
                self.parent@[idx as int] == old(self).parent@[idx as int],
                self.depth@[heir as int] < self.depth@[idx as int],
                root(self.parent@, self.depth@, idx as int) == root(
                    old(self).parent@,
                    old(self).depth@,
                    idx as int,
                ),
                forall|j: int| 0 <= j < k && j != idx ==> #[trigger] self.parent@[j] != idx,
                forall|j: int|
                    0 <= j < total ==> #[trigger] root(self.parent@, self.depth@, j) == root(
                        old(self).parent@,
                        old(self).depth@,
                        j,
                    ) || (root(old(self).parent@, old(self).depth@, j) == root(
                        old(self).parent@,
                        old(self).depth@,
                        idx as int,
                    ) && root(self.parent@, self.depth@, j) == heir),
            decreases total - k,
        {
            if k != idx && self.parent[k] == idx {
                proof {
                    lemma_root_is_fixed(self.parent@, self.depth@, k as int);
                    assert forall|j: int| 0 <= j < total implies #[trigger] root(
                        self.parent@.update(k as int, heir),
                        self.depth@,
                        j,
                    ) == root(old(self).parent@, old(self).depth@, j) || (root(
                        old(self).parent@,
                        old(self).depth@,
                        j,
                    ) == root(old(self).parent@, old(self).depth@, idx as int) && root(
                        self.parent@.update(k as int, heir),
                        self.depth@,
                        j,
                    ) == heir) by {
                        lemma_repoint(self.parent@, self.depth@, k as int, heir, j);
                        let before = root(self.parent@, self.depth@, j);
                        assert(before == root(old(self).parent@, old(self).depth@, j) || (root(
                            old(self).parent@,
                            old(self).depth@,
                            j,
                        ) == root(old(self).parent@, old(self).depth@, idx as int) && before
                            == heir));
                    }
                    lemma_repoint(self.parent@, self.depth@, k as int, heir, idx as int);
                }
                self.parent[k] = heir;
            }
            k = k + 1;
        }
    }

    /// Takes cell `idx`, whose root is `top`, out of its class: `idx` becomes
    /// a class of its own, and the rest of the class stays together under
    /// its heir.
    fn detach(&mut self, idx: usize, top: usize)
        requires
            old(self).wf(),
            idx < old(self)@.len(),
            top == old(self)@.roots[idx as int],
        ensures
            final(self).wf(),
            final(self).rank == old(self).rank,
            final(self).map == old(self).map,
            final(self).layer_size == old(self).layer_size,
            final(self)@.roots == old(self)@.detached_roots(idx as int),
    {
        let ghost p = self@;
        let total = self.parent.len();
        proof {
            self.lemma_view_wf();
            lemma_first_other(p.roots, idx as int, 0);
            lemma_root_is_fixed(self.parent@, self.depth@, idx as int);
        }
        let heir: usize;
        if top != idx {
            heir = top;
        } else {
            let member = self.first_member(idx);
            if member >= total {
                assert(self@.roots =~= p.detached_roots(idx as int));
                return ;
            }
            proof {
                let crowned = self.parent@.update(member as int, member);
                let lifted = linked_depth(self.depth@, member as int);
                assert forall|j: int| 0 <= j < total implies (p.roots[j] != idx ==> #[trigger] root(
                    crowned,
                    lifted,
                    j,
                ) == p.roots[j]) && (root(crowned, lifted, j) == p.roots[j] || root(
                    crowned,
                    lifted,
                    j,
                ) == member) && (j == idx ==> root(crowned, lifted, j) == idx) by {
                    lemma_crown(self.parent@, self.depth@, member, j);
                }
                lemma_crown(self.parent@, self.depth@, member, member as int);
            }
            self.parent[member] = member;
            self.depth = Ghost(linked_depth(self.depth@, member as int));
            heir = member;
        }
        let ghost middle = self@;
        assert(forall|j: int|
            0 <= j < total ==> (p.roots[j] != top ==> #[trigger] middle.roots[j] == p.roots[j]) && (
            p.roots[j] == top ==> middle.roots[j] == heir || middle.roots[j] == top));
        assert(middle.roots[idx as int] == top);
        self.hand_over(idx, heir);
        let ghost late = self@;
        proof {
            let crowned = self.parent@.update(idx as int, idx);
            let lifted = linked_depth(self.depth@, idx as int);
            lemma_crown(self.parent@, self.depth@, idx, idx as int);
            assert forall|j: int| 0 <= j < total implies #[trigger] root(crowned, lifted, j)
                == p.detached_roots(idx as int)[j] by {
                lemma_crown(self.parent@, self.depth@, idx, j);
                if j != idx && root(crowned, lifted, j) == idx {
                    lemma_childless_root(crowned, lifted, idx as int, j);
                }
                assert(late.roots[j] == middle.roots[j] || (middle.roots[j] == top && late.roots[j]
                    == heir));
            }
        }
        self.parent[idx] = idx;
        self.depth = Ghost(linked_depth(self.depth@, idx as int));
        assert(self@.roots =~= p.detached_roots(idx as int));
    }

    /// Changes the value of cell `idx` to `new_type`. The cell leaves its
    /// class; the rest of the class stays together. Then the cell is united
    /// with each of its four neighbours that has the new value. Returns the
    /// root of the cell before and after.
    ///
    /// No class comes to hold cells of differing values.
    pub fn change_tile_type(&mut self, idx: usize, new_type: i32) -> (roots: (usize, usize))
        requires
            old(self).wf(),
            idx < old(self)@.len(),
        ensures
            final(self).wf(),
            final(self)@.wf(),
            final(self)@ == old(self)@.retyped(idx as int, new_type),
            final(self)@.values == old(self)@.values.update(idx as int, new_type),
            final(self)@.size == old(self)@.size,
            roots.0 == old(self)@.roots[idx as int],
            roots.1 == final(self)@.roots[idx as int],
            old(self)@.uniform() ==> final(self)@.uniform(),
            forall|m: int|
                adjacent(old(self)@.size, idx as int, m) && #[trigger] old(self)@.values[m]
                    == new_type ==> final(self)@.roots[m] == final(self)@.roots[idx as int],
            (forall|m: int|
                adjacent(old(self)@.size, idx as int, m) ==> #[trigger] old(self)@.values[m]
                    != new_type) ==> final(self)@.roots[idx as int] == idx,
            forall|a: int, b: int|
                0 <= a < old(self)@.len() && 0 <= b < old(self)@.len() && a != idx && b != idx
                    && #[trigger] old(self)@.roots[a] == #[trigger] old(self)@.roots[b] ==> final(
                    self
                )@.roots[a] == final(self)@.roots[b],
            forall|k: int|
                0 <= k < old(self)@.len() && old(self)@.roots[k] != old(self)@.roots[idx as int]
                    && (#[trigger] final(self)@.roots[k]) != final(self)@.roots[idx as int]
                    ==> final(self)@.roots[k] == old(self)@.roots[k],
    {
        proof {
            self.lemma_view_wf();
            lemma_retyped(self@, idx as int, new_type);
        }
        let old_root = self.find(idx);
        self.detach(idx, old_root);
        self.map[idx] = new_type;
        self.rank[idx] = 0;
        assert(self@ == old(self)@.detached(idx as int, new_type));
        self.rejoin(idx, 0);
        self.rejoin(idx, 1);
        self.rejoin(idx, 2);
        self.rejoin(idx, 3);
        let new_root = self.find(idx);
        (old_root, new_root)
    }
}

} // verus!
