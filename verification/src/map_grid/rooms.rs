//! Boundary extraction: the cells of every room, and the closed loops of
//! edges around it.

use crate::map_grid::connectivity::lemma_cell_coords;
use crate::map_grid::loops::{are_loops_of, chain_loops, chained, edges_of, is_closed_loop};
use crate::map_grid::path::neighbour_of;
use crate::map_grid::stitch::{copy_point, is_one_of, spans, stitch, stitched};
use crate::map_grid::{Edge, Partition, Point, Room, UnionFind};
use std::collections::HashMap;
use vstd::prelude::*;

verus! {

/// The grid point `(x, y)`.
pub open spec fn point_at(x: int, y: int) -> Point {
    Point { x: x as i32, y: y as i32 }
}

/// The edge of the cell in column `x` of row `y` on one of its sides: 0 is
/// the top, 1 the right, 2 the bottom, 3 the left. The four edges run
/// clockwise around the cell, with y growing downward.
pub open spec fn side_edge(x: int, y: int, side: int) -> Edge {
    if side == 0 {
        Edge(point_at(x, y), point_at(x + 1, y))
    } else if side == 1 {
        Edge(point_at(x + 1, y), point_at(x + 1, y + 1))
    } else if side == 2 {
        Edge(point_at(x + 1, y + 1), point_at(x, y + 1))
    } else {
        Edge(point_at(x, y + 1), point_at(x, y))
    }
}

/// The direction in which the neighbour across a side lies: the top side
/// looks one row up, the right side one column right, the bottom side one row
/// down, the left side one column left.
pub open spec fn side_direction(side: int) -> int {
    if side == 0 {
        1
    } else if side == 1 {
        2
    } else if side == 2 {
        0
    } else {
        3
    }
}

impl Partition {
    /// Whether cell `c` belongs to the room with root `r`: it has a positive
    /// value and `r` is its root.
    pub open spec fn in_room(self, c: int, r: int) -> bool {
        self.values[c] > 0 && self.roots[c] == r
    }

    /// Whether `r` is the root of a room.
    pub open spec fn is_room(self, r: int) -> bool {
        exists|c: int| 0 <= c < self.len() && #[trigger] self.in_room(c, r)
    }

    /// Whether the side of cell `c` faces the outside of its class: the grid
    /// ends there, or the neighbour has another root.
    pub open spec fn is_outward(self, c: int, side: int) -> bool {
        match neighbour_of(self.size, c, side_direction(side)) {
            Some(w) => self.roots[w] != self.roots[c],
            None => true,
        }
    }

    /// The cells of room `r` among the first `upto` cells, in row-major
    /// order, as points.
    pub open spec fn room_points(self, r: int, upto: int) -> Seq<Point>
        decreases upto,
    {
        if upto <= 0 {
            Seq::empty()
        } else {
            let rest = self.room_points(r, upto - 1);
            if self.in_room(upto - 1, r) {
                rest.push(
                    point_at((upto - 1) % (self.size as int), (upto - 1) / (self.size as int)),
                )
            } else {
                rest
            }
        }
    }

    /// The outward edges of cell `c` among its first `sides` sides.
    pub open spec fn cell_boundary(self, c: int, sides: int) -> Seq<Edge>
        decreases sides,
    {
        if sides <= 0 {
            Seq::empty()
        } else {
            let rest = self.cell_boundary(c, sides - 1);
            if self.is_outward(c, sides - 1) {
                rest.push(side_edge(c % (self.size as int), c / (self.size as int), sides - 1))
            } else {
                rest
            }
        }
    }

    /// The outward unit edges of the cells of room `r` among the first `upto`
    /// cells: cell by cell in row-major order, and top, right, bottom, left
    /// for each cell.
    pub open spec fn room_boundary(self, r: int, upto: int) -> Seq<Edge>
        decreases upto,
    {
        if upto <= 0 {
            Seq::empty()
        } else {
            let rest = self.room_boundary(r, upto - 1);
            if self.in_room(upto - 1, r) {
                rest + self.cell_boundary(upto - 1, 4)
            } else {
                rest
            }
        }
    }

    /// The loops around room `r`: its outward unit edges, stitched into
    /// straight segments and chained into loops.
    pub open spec fn room_loops(self, r: int) -> Seq<Seq<Edge>> {
        chained(stitched(self.room_boundary(r, self.len() as int), self.size as int))
    }

    /// Whether `room` describes the room with root `r`: its points are the
    /// cells of the room and its loops are the loops around them, each of
    /// them a closed loop of segments that span outward unit edges.
    pub open spec fn describes(self, r: int, room: Room) -> bool {
        &&& room.points@ == self.room_points(r, self.len() as int)
        &&& edges_of(room.edge_loops@) == self.room_loops(r)
        &&& forall|l: int|
            0 <= l < room.edge_loops@.len() ==> is_boundary_loop(
                self.room_boundary(r, self.len() as int),
                (#[trigger] room.edge_loops@[l])@,
            )
    }
}

/// Whether `edges` is a closed loop, not empty, of segments that span edges
/// of `boundary`.
pub open spec fn is_boundary_loop(boundary: Seq<Edge>, edges: Seq<Edge>) -> bool {
    &&& edges.len() > 0
    &&& is_closed_loop(edges)
    &&& forall|k: int| 0 <= k < edges.len() ==> spans(boundary, #[trigger] edges[k])
}

/// Every cell of a room among the first `upto` cells is one of the points of
/// the room.
pub proof fn lemma_room_holds_cell(p: Partition, r: int, upto: int, c: int) -> (i: int)
    requires
        0 <= c < upto,
        p.in_room(c, r),
    ensures
        0 <= i < p.room_points(r, upto).len(),
        p.room_points(r, upto)[i] == point_at(c % (p.size as int), c / (p.size as int)),
    decreases upto,
{
    let rest = p.room_points(r, upto - 1);
    if c == upto - 1 {
        rest.len() as int
    } else {
        lemma_room_holds_cell(p, r, upto - 1, c)
    }
}

/// A room has points among the first `upto` cells exactly if one of these
/// cells belongs to it.
pub proof fn lemma_room_points_len(p: Partition, r: int, upto: int)
    ensures
        p.room_points(r, upto).len() > 0 <==> exists|c: int|
            0 <= c < upto && #[trigger] p.in_room(c, r),
    decreases upto,
{
    if upto > 0 {
        lemma_room_points_len(p, r, upto - 1);
        if p.in_room(upto - 1, r) {
        } else if p.room_points(r, upto).len() > 0 {
            let c = choose|c: int| 0 <= c < upto - 1 && #[trigger] p.in_room(c, r);
            assert(0 <= c < upto && p.in_room(c, r));
        } else {
            assert forall|c: int| 0 <= c < upto implies !#[trigger] p.in_room(c, r) by {
                if c < upto - 1 && p.in_room(c, r) {
                    assert(0 <= c < upto - 1 && p.in_room(c, r));
                }
            }
        }
    }
}

/// The edge of the cell in column `x` of row `y` on the given side.
fn edge_on(x: i32, y: i32, side: usize) -> (e: Edge)
    requires
        0 <= x < i32::MAX,
        0 <= y < i32::MAX,
        side < 4,
    ensures
        e == side_edge(x as int, y as int, side as int),
{
    if side == 0 {
        Edge(Point { x, y }, Point { x: x + 1, y })
    } else if side == 1 {
        Edge(Point { x: x + 1, y }, Point { x: x + 1, y: y + 1 })
    } else if side == 2 {
        Edge(Point { x: x + 1, y: y + 1 }, Point { x, y: y + 1 })
    } else {
        Edge(Point { x, y: y + 1 }, Point { x, y })
    }
}

impl UnionFind {
    /// Sorts the cells of positive value by their root: for every root, the
    /// points of its room and the outward unit edges of its cells.
    fn sort_cells(&mut self) -> (sorted: (Vec<Vec<Point>>, Vec<Vec<Edge>>))
        requires
            old(self).wf(),
            old(self)@.size <= i32::MAX,
        ensures
            final(self).wf(),
            final(self)@ == old(self)@,
            sorted.0@.len() == old(self)@.len(),
            sorted.1@.len() == old(self)@.len(),
            forall|r: int|
                0 <= r < old(self)@.len() ==> (#[trigger] sorted.0@[r])@ == old(self)@.room_points(
                    r,
                    old(self)@.len() as int,
                ),
            forall|r: int|
                0 <= r < old(self)@.len() ==> (#[trigger] sorted.1@[r])@ == old(
                    self
                )@.room_boundary(r, old(self)@.len() as int),
    {
        let total = self.len();
        let n = self.size();
        let ghost p = self@;
        proof {
            self.lemma_view_wf();
        }
        let mut points_of: Vec<Vec<Point>> = Vec::new();
        let mut edges_of: Vec<Vec<Edge>> = Vec::new();
        let mut k: usize = 0;
        while k < total
            invariant
                k <= total,
                points_of@.len() == k,
                edges_of@.len() == k,
                forall|r: int| 0 <= r < k ==> (#[trigger] points_of@[r])@ == Seq::<Point>::empty(),
                forall|r: int| 0 <= r < k ==> (#[trigger] edges_of@[r])@ == Seq::<Edge>::empty(),
            decreases total - k,
        {
            points_of.push(Vec::new());
            edges_of.push(Vec::new());
            k = k + 1;
        }
        let mut i: usize = 0;
        while i < total
            invariant
                self.wf(),
                self@ == p,
                p.wf(),
                total == p.len(),
                n == p.size,
                n <= i32::MAX,
                i <= total,
                points_of@.len() == total,
                edges_of@.len() == total,
                forall|r: int|
                    0 <= r < total ==> (#[trigger] points_of@[r])@ == p.room_points(r, i as int),
                forall|r: int|
                    0 <= r < total ==> (#[trigger] edges_of@[r])@ == p.room_boundary(r, i as int),
            decreases total - i,
        {
            if self.value(i) > 0 {
                let top = self.find(i);
                proof {
                    assert(n > 0) by (nonlinear_arith)
                        requires
                            i < n * n,
                            0 <= n,
                    ;
                    lemma_cell_coords(n as int, i as int);
                }
                let x: i32 = (i % n) as i32;
                let y: i32 = (i / n) as i32;
                points_of[top].push(Point { x, y });
                let mut side: usize = 0;
                while side < 4
                    invariant
                        self.wf(),
                        self@ == p,
                        p.wf(),
                        total == p.len(),
                        n == p.size,
                        i < total,
                        top < total,
                        top == p.roots[i as int],
                        p.values[i as int] > 0,
                        x == i % n,
                        y == i / n,
                        0 <= x < i32::MAX,
                        0 <= y < i32::MAX,
                        side <= 4,
                        points_of@.len() == total,
                        edges_of@.len() == total,
                        forall|r: int|
                            0 <= r < total ==> (#[trigger] points_of@[r])@ == p.room_points(
                                r,
                                i + 1,
                            ),
                        forall|r: int|
                            0 <= r < total && r != top ==> (#[trigger] edges_of@[r])@
                                == p.room_boundary(r, i as int),
                        edges_of@[top as int]@ == p.room_boundary(top as int, i as int)
                            + p.cell_boundary(i as int, side as int),
                    decreases 4 - side,
                {
                    let direction: usize = if side == 0 {
                        1
                    } else if side == 1 {
                        2
                    } else if side == 2 {
                        0
                    } else {
                        3
                    };
                    let outward = match self.neighbour(i, direction) {
                        Some(w) => {
                            let other = self.find(w);
                            other != top
                        },
                        None => true,
                    };
                    assert(outward == p.is_outward(i as int, side as int));
                    if outward {
                        let e = edge_on(x, y, side);
                        edges_of[top].push(e);
                        assert(edges_of@[top as int]@ =~= p.room_boundary(top as int, i as int)
                            + p.cell_boundary(i as int, side + 1));
                    }
                    side = side + 1;
                }
            }
            i = i + 1;
        }
        (points_of, edges_of)
    }
}

/// A copy of a list of points.
fn copy_points(points: &Vec<Point>) -> (copy: Vec<Point>)
    ensures
        copy@ == points@,
{
    let mut copy: Vec<Point> = Vec::new();
    let mut i: usize = 0;
    while i < points.len()
        invariant
            i <= points@.len(),
            copy@ == points@.subrange(0, i as int),
        decreases points@.len() - i,
    {
        copy.push(copy_point(&points[i]));
        assert(copy@ =~= points@.subrange(0, i + 1));
        i = i + 1;
    }
    assert(points@.subrange(0, points@.len() as int) =~= points@);
    copy
}

impl UnionFind {
    /// The rooms of the grid, by root: for every root of a cell of positive
    /// value, the cells of its class and the closed loops of edges around
    /// them.
    ///
    /// Every cell of a room has an outward unit edge on each side where the
    /// grid ends or a cell with another root begins. Unit edges that adjoin on
    /// one line are stitched into straight segments, and the segments are
    /// chained head to tail; a chain is returned only if it closes. The paths
    /// of the cells are compressed; no class changes.
    pub fn rooms(&mut self) -> (rooms: HashMap<usize, Room>)
        requires
            old(self).wf(),
            old(self)@.size <= i32::MAX,
        ensures
            final(self).wf(),
            final(self)@ == old(self)@,
            forall|r: usize| #[trigger] rooms@.contains_key(r) <==> old(self)@.is_room(r as int),
            forall|r: usize|
                rooms@.contains_key(r) ==> old(self)@.describes(r as int, #[trigger] rooms@[r]),
    {
        broadcast use vstd::std_specs::hash::group_hash_axioms;

        let ghost p = self@;
        let total = self.len();
        let size = self.size();
        let (points_of, edges_of) = self.sort_cells();
        let mut rooms: HashMap<usize, Room> = HashMap::new();
        let mut r: usize = 0;
        while r < total
            invariant
                total == p.len(),
                size == p.size,
                size <= i32::MAX,
                r <= total,
                points_of@.len() == total,
                edges_of@.len() == total,
                forall|k: int|
                    0 <= k < total ==> (#[trigger] points_of@[k])@ == p.room_points(
                        k,
                        total as int,
                    ),
                forall|k: int|
                    0 <= k < total ==> (#[trigger] edges_of@[k])@ == p.room_boundary(
                        k,
                        total as int,
                    ),
                forall|k: usize|
                    #[trigger] rooms@.contains_key(k) <==> k < r && p.is_room(k as int),
                forall|k: usize|
                    rooms@.contains_key(k) ==> p.describes(k as int, #[trigger] rooms@[k]),
            decreases total - r,
        {
            proof {
                lemma_room_points_len(p, r as int, total as int);
                if p.is_room(r as int) {
                    let c = choose|c: int| 0 <= c < p.len() && #[trigger] p.in_room(c, r as int);
                    assert(0 <= c < total && p.in_room(c, r as int));
                }
                if p.room_points(r as int, total as int).len() > 0 {
                    let c = choose|c: int| 0 <= c < total && #[trigger] p.in_room(c, r as int);
                    assert(0 <= c < p.len() && p.in_room(c, r as int));
                }
                assert(p.is_room(r as int) <==> points_of@[r as int]@.len() > 0);
            }
            let ghost before = rooms@;
            if points_of[r].len() > 0 {
                let points = copy_points(&points_of[r]);
                let segments = stitch(&edges_of[r], size);
                let edge_loops = chain_loops(&segments);
                let room = Room { points, edge_loops };
                proof {
                    assert(are_loops_of(segments@, room.edge_loops@));
                    assert forall|l: int| 0 <= l < room.edge_loops@.len() implies is_boundary_loop(
                        p.room_boundary(r as int, p.len() as int),
                        (#[trigger] room.edge_loops@[l])@,
                    ) by {
                        let edges = room.edge_loops@[l]@;
                        assert forall|k: int| 0 <= k < edges.len() implies spans(
                            p.room_boundary(r as int, p.len() as int),
                            #[trigger] edges[k],
                        ) by {
                            assert(is_one_of(segments@, room.edge_loops@[l]@[k]));
                            let j = choose|j: int|
                                0 <= j < segments@.len() && #[trigger] segments@[j] == edges[k];
                            assert(spans(edges_of@[r as int]@, segments@[j]));
                        }
                    }
                    assert(p.describes(r as int, room));
                }
                rooms.insert(r, room);
                assert(rooms@ == before.insert(r, room));
            }
            assert forall|k: usize| #[trigger]
                rooms@.contains_key(k) <==> k < r + 1 && p.is_room(k as int) by {
                if k != r {
                    assert(rooms@.contains_key(k) == before.contains_key(k));
                    assert(before.contains_key(k) <==> k < r && p.is_room(k as int));
                } else {
                    assert(!before.contains_key(r));
                    assert(rooms@.contains_key(r) <==> points_of@[r as int]@.len() > 0);
                }
            }
            r = r + 1;
        }
        proof {
            self.lemma_view_wf();
            assert forall|k: usize| #[trigger] rooms@.contains_key(k) <==> p.is_room(k as int) by {
                if p.is_room(k as int) {
                    let c = choose|c: int| 0 <= c < p.len() && #[trigger] p.in_room(c, k as int);
                    assert(0 <= p.roots[c] < p.len());
                }
            }
        }
        rooms
    }
}

} // verus!
