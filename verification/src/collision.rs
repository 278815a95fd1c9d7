//! The occlusion tiers: a bit-packed pixel map, a map of blocked cell edges,
//! and a hybrid of room connectivity and pixels.

use crate::block_map::{block_map_of, BlockMap, CellDetails};
use crate::bresenham::{lemma_walk_arrives, lemma_walk_progress, Segment, WalkState};
use crate::constants::{CELLS_PER_ROW, CELLS_TOTAL, TILES_PER_ROW, TILES_TOTAL};
use crate::map_grid::{singletons, Partition, UnionFind};
use vstd::prelude::*;

verus! {

/// The largest number of steps that the pixel test walks along a segment.
pub const WALK_LIMIT: u32 = 1000;

/// The edge length of the grid with which the collision system starts.
pub const DEFAULT_MAP_SIZE: usize = 180;

/// The segment between two points with 16-bit coordinates.
pub open spec fn segment(x0: i16, y0: i16, x1: i16, y1: i16) -> Segment {
    Segment { x0: x0 as int, y0: y0 as int, x1: x1 as int, y1: y1 as int }
}

/// An obstacle oracle: whether the segment between two points is blocked.
pub trait CollisionDetector {
    /// Whether the detector is well formed.
    spec fn wf(&self) -> bool;

    /// Whether the segment from `(x0, y0)` to `(x1, y1)` is blocked.
    spec fn blocked(&self, x0: i16, y0: i16, x1: i16, y1: i16) -> bool;

    /// Whether the segment from `(x0, y0)` to `(x1, y1)` is blocked by an
    /// obstacle.
    fn is_blocked(&self, x0: i16, y0: i16, x1: i16, y1: i16) -> (blocked: bool)
        requires
            self.wf(),
        ensures
            blocked == self.blocked(x0, y0, x1, y1),
    ;

    /// Removes the obstacles that the detector itself holds.
    fn clear(&mut self)
        requires
            old(self).wf(),
        ensures
            final(self).wf(),
    ;
}

/// What a pixel map stands for: a grid of booleans, row by row.
pub struct PixelGrid {
    pub width: nat,
    pub height: nat,
    pub bits: Seq<bool>,
}

impl PixelGrid {
    /// The grid is well formed: it has one entry for every pixel.
    pub open spec fn wf(self) -> bool {
        self.bits.len() == self.width * self.height
    }

    /// Whether `(x, y)` is a pixel of the grid.
    pub open spec fn contains(self, x: int, y: int) -> bool {
        0 <= x < self.width && 0 <= y < self.height
    }

    /// Whether the pixel `(x, y)` is blocked; no pixel outside the grid is.
    pub open spec fn is_set(self, x: int, y: int) -> bool {
        self.contains(x, y) && self.bits[y * self.width + x]
    }

    /// The grid after the pixel `(x, y)` has been set; the same grid if
    /// `(x, y)` lies outside.
    pub open spec fn with_pixel(self, x: int, y: int, blocked: bool) -> PixelGrid {
        if self.contains(x, y) {
            PixelGrid { bits: self.bits.update(y * self.width + x, blocked), ..self }
        } else {
            self
        }
    }

    /// The grid after the pixels of a batch have been set, one after the
    /// other.
    pub open spec fn with_batch(self, pixels: Seq<(u16, u16, bool)>) -> PixelGrid
        decreases pixels.len(),
    {
        if pixels.len() == 0 {
            self
        } else {
            let last = pixels.last();
            self.with_batch(pixels.drop_last()).with_pixel(last.0 as int, last.1 as int, last.2)
        }
    }

    /// The grid with every pixel clear.
    pub open spec fn cleared(self) -> PixelGrid {
        PixelGrid { bits: Seq::new(self.width * self.height, |i: int| false), ..self }
    }

    /// Whether one of the first `WALK_LIMIT + 1` points of the walk along the
    /// segment is a blocked pixel.
    pub open spec fn line_blocked(self, seg: Segment) -> bool {
        exists|k: nat|
            k <= seg.steps() && k <= WALK_LIMIT && #[trigger] self.is_set(
                seg.state(k).x,
                seg.state(k).y,
            )
    }
}

/// Setting a pixel of the grid makes it read as it was set, changes no other
/// pixel and keeps the size of the grid; setting a pixel outside the grid
/// changes nothing.
pub proof fn lemma_with_pixel(grid: PixelGrid, x: int, y: int, blocked: bool)
    requires
        grid.wf(),
    ensures
        grid.with_pixel(x, y, blocked).wf(),
        grid.with_pixel(x, y, blocked).width == grid.width,
        grid.with_pixel(x, y, blocked).height == grid.height,
        grid.contains(x, y) ==> grid.with_pixel(x, y, blocked).is_set(x, y) == blocked,
        !grid.contains(x, y) ==> grid.with_pixel(x, y, blocked) == grid,
        forall|a: int, c: int|
            a != x || c != y ==> #[trigger] grid.with_pixel(x, y, blocked).is_set(a, c)
                == grid.is_set(a, c),
{
    let w = grid.width as int;
    if grid.contains(x, y) {
        assert(0 <= y * w + x < w * grid.height) by (nonlinear_arith)
            requires
                0 <= x < w,
                0 <= y < grid.height,
        ;
        assert forall|a: int, c: int| a != x || c != y implies #[trigger] grid.with_pixel(
            x,
            y,
            blocked,
        ).is_set(a, c) == grid.is_set(a, c) by {
            if grid.contains(a, c) {
                assert(0 <= c * w + a < w * grid.height) by (nonlinear_arith)
                    requires
                        0 <= a < w,
                        0 <= c < grid.height,
                ;
                assert(c * w + a != y * w + x) by (nonlinear_arith)
                    requires
                        0 <= a < w,
                        0 <= x < w,
                        a != x || c != y,
                ;
            }
        }
    }
}

/// A grid that has been cleared has no blocked pixel.
pub proof fn lemma_cleared(grid: PixelGrid, x: int, y: int)
    ensures
        grid.cleared().wf(),
        !grid.cleared().is_set(x, y),
{
    if grid.contains(x, y) {
        assert(0 <= y * grid.width + x < grid.width * grid.height) by (nonlinear_arith)
            requires
                0 <= x < grid.width,
                0 <= y < grid.height,
        ;
    }
}

/// Whether bit `b` of `word` is set.
pub open spec fn bit_of(word: u64, b: u64) -> bool {
    word & (1u64 << b) != 0
}

/// Setting or clearing bit `b` of a word changes that bit and no other; the
/// word 0 has no bit set.
proof fn lemma_bit_set(word: u64, b: u64, c: u64)
    requires
        b < 64,
        c < 64,
    ensures
        bit_of(word | (1u64 << b), c) == (c == b || bit_of(word, c)),
        bit_of(word & !(1u64 << b), c) == (c != b && bit_of(word, c)),
        !bit_of(0, c),
{
    assert(((word | (1u64 << b)) & (1u64 << c) != 0) == (c == b || (word & (1u64 << c) != 0)))
        by (bit_vector)
        requires
            b < 64,
            c < 64,
    ;
    assert(((word & !(1u64 << b)) & (1u64 << c) != 0) == (c != b && (word & (1u64 << c) != 0)))
        by (bit_vector)
        requires
            b < 64,
            c < 64,
    ;
    assert(0u64 & (1u64 << c) == 0) by (bit_vector);
}

/// A freeform occlusion map: one bit per pixel.
pub struct PixelCollisionMap {
    width: u16,
    height: u16,
    pixels: Vec<u64>,
}

impl View for PixelCollisionMap {
    type V = PixelGrid;

    closed spec fn view(&self) -> PixelGrid {
        PixelGrid {
            width: self.width as nat,
            height: self.height as nat,
            bits: Seq::new(
                (self.width * self.height) as nat,
                |i: int| bit_of(self.pixels@[i / 64], (i % 64) as u64),
            ),
        }
    }
}

impl PixelCollisionMap {
    /// Whether the storage has one bit for every pixel.
    pub closed spec fn has_storage(&self) -> bool {
        self.pixels@.len() == (self.width * self.height + 63) / 64
    }

    /// Every map stands for a well-formed grid.
    pub proof fn lemma_view_is_grid(&self)
        ensures
            self@.wf(),
    {
    }

    /// A map of `width` by `height` pixels, all clear.
    pub fn new(width: u16, height: u16) -> (map: Self)
        ensures
            map.has_storage(),
            map@.wf(),
            map@.width == width,
            map@.height == height,
            map@ == map@.cleared(),
            forall|x: int, y: int| !map@.is_set(x, y),
    {
        assert(width * height <= 0xffff * 0xffff) by (nonlinear_arith)
            requires
                width <= 0xffff,
                height <= 0xffff,
        ;
        let total_pixels = (width as usize) * (height as usize);
        let storage_size = (total_pixels + 63) / 64;
        let map = PixelCollisionMap { width, height, pixels: vec![0u64; storage_size] };
        proof {
            assert forall|i: int| 0 <= i < width * height implies !#[trigger] map@.bits[i] by {
                lemma_bit_set(0, 0, (i % 64) as u64);
            }
            assert(map@.bits =~= map@.cleared().bits);
            assert forall|x: int, y: int| !map@.is_set(x, y) by {
                if map@.contains(x, y) {
                    assert(0 <= y * width + x < width * height) by (nonlinear_arith)
                        requires
                            0 <= x < width,
                            0 <= y < height,
                    ;
                }
            }
        }
        map
    }

    /// Sets the pixel `(x, y)`; outside the map nothing happens.
    pub fn set_pixel(&mut self, x: u16, y: u16, blocked: bool)
        requires
            old(self).has_storage(),
        ensures
            final(self).has_storage(),
            final(self)@ == old(self)@.with_pixel(x as int, y as int, blocked),
            final(self)@.wf(),
            final(self)@.width == old(self)@.width,
            final(self)@.height == old(self)@.height,
            old(self)@.contains(x as int, y as int) ==> final(self)@.is_set(x as int, y as int)
                == blocked,
            forall|a: int, c: int|
                a != x || c != y ==> #[trigger] final(self)@.is_set(a, c) == old(self)@.is_set(
                    a,
                    c,
                ),
    {
        proof {
            lemma_with_pixel(self@, x as int, y as int, blocked);
        }
        if x >= self.width || y >= self.height {
            return ;
        }
        assert(y * self.width + x < self.width * self.height <= 0xffff * 0xffff)
            by (nonlinear_arith)
            requires
                x < self.width,
                y < self.height,
                self.width <= 0xffff,
                self.height <= 0xffff,
        ;
        let pixel_index = (y as usize) * (self.width as usize) + (x as usize);
        let storage_index = pixel_index / 64;
        let bit_offset: u64 = (pixel_index % 64) as u64;
        let mask = 1u64 << bit_offset;
        let word = self.pixels[storage_index];
        let ghost before = self.pixels@;
        if blocked {
            self.pixels[storage_index] = word | mask;
        } else {
            self.pixels[storage_index] = word & !mask;
        }
        proof {
            let target = old(self)@.with_pixel(x as int, y as int, blocked);
            assert forall|i: int| 0 <= i < self.width * self.height implies self@.bits[i]
                == target.bits[i] by {
                lemma_bit_set(word, bit_offset, (i % 64) as u64);
                if i / 64 != storage_index as int {
                    assert(self.pixels@[i / 64] == before[i / 64]);
                }
            }
            assert(self@.bits =~= target.bits);
        }
    }

    /// Whether the pixel `(x, y)` is blocked; `false` outside the map.
    pub fn get_pixel(&self, x: u16, y: u16) -> (blocked: bool)
        requires
            self.has_storage(),
        ensures
            blocked == self@.is_set(x as int, y as int),
    {
        if x >= self.width || y >= self.height {
            return false;
        }
        assert(y * self.width + x < self.width * self.height <= 0xffff * 0xffff)
            by (nonlinear_arith)
            requires
                x < self.width,
                y < self.height,
                self.width <= 0xffff,
                self.height <= 0xffff,
        ;
        let pixel_index = (y as usize) * (self.width as usize) + (x as usize);
        let storage_index = pixel_index / 64;
        let bit_offset: u64 = (pixel_index % 64) as u64;
        let mask = 1u64 << bit_offset;
        (self.pixels[storage_index] & mask) != 0
    }

    /// Sets the pixels of a batch, one after the other.
    pub fn set_pixel_batch(&mut self, pixels: Vec<(u16, u16, bool)>)
        requires
            old(self).has_storage(),
        ensures
            final(self).has_storage(),
            final(self)@ == old(self)@.with_batch(pixels@),
            final(self)@.wf(),
            final(self)@.width == old(self)@.width,
            final(self)@.height == old(self)@.height,
    {
        let mut i: usize = 0;
        while i < pixels.len()
            invariant
                self.has_storage(),
                i <= pixels@.len(),
                self@ == old(self)@.with_batch(pixels@.subrange(0, i as int)),
                self@.width == old(self)@.width,
                self@.height == old(self)@.height,
            decreases pixels@.len() - i,
        {
            let (x, y, blocked) = pixels[i];
            self.set_pixel(x, y, blocked);
            assert(pixels@.subrange(0, i + 1).drop_last() =~= pixels@.subrange(0, i as int));
            i = i + 1;
        }
        assert(pixels@.subrange(0, pixels@.len() as int) =~= pixels@);
    }
}

impl CollisionDetector for PixelCollisionMap {
    open spec fn wf(&self) -> bool {
        self.has_storage()
    }

    open spec fn blocked(&self, x0: i16, y0: i16, x1: i16, y1: i16) -> bool {
        self@.line_blocked(segment(x0, y0, x1, y1))
    }

    /// Walks the segment point by point and stops at the first blocked
    /// pixel; the walk ends after `WALK_LIMIT` steps at the latest.
    fn is_blocked(&self, x0: i16, y0: i16, x1: i16, y1: i16) -> (blocked: bool) {
        let ghost seg = segment(x0, y0, x1, y1);
        let dx: i32 = if x1 as i32 - x0 as i32 >= 0 {
            x1 as i32 - x0 as i32
        } else {
            x0 as i32 - x1 as i32
        };
        let dy: i32 = if y1 as i32 - y0 as i32 >= 0 {
            y1 as i32 - y0 as i32
        } else {
            y0 as i32 - y1 as i32
        };
        let sx: i32 = if x0 < x1 { 1 } else { -1 };
        let sy: i32 = if y0 < y1 { 1 } else { -1 };
        let mut err: i32 = dx - dy;
        let mut x: i32 = x0 as i32;
        let mut y: i32 = y0 as i32;
        let mut step_count: u32 = 0;
        loop
            invariant_except_break
                self.has_storage(),
                seg == segment(x0, y0, x1, y1),
                dx == seg.dx(),
                dy == seg.dy(),
                sx == seg.sx(),
                sy == seg.sy(),
                step_count <= WALK_LIMIT,
                step_count <= seg.steps(),
                seg.state(step_count as nat) == (WalkState {
                    x: x as int,
                    y: y as int,
                    err: err as int,
                }),
                forall|j: nat|
                    j < step_count ==> !#[trigger] self@.is_set(seg.state(j).x, seg.state(j).y),
            ensures
                !self@.line_blocked(seg),
            decreases WALK_LIMIT - step_count,
        {
            proof {
                lemma_walk_arrives(seg, step_count as nat);
                lemma_walk_progress(seg, step_count as nat);
            }
            if x >= 0 && y >= 0 && (x as u16) < self.width && (y as u16) < self.height {
                if self.get_pixel(x as u16, y as u16) {
                    return true;
                }
            }
            if x == x1 as i32 && y == y1 as i32 {
                break ;
            }
            proof {
                lemma_walk_arrives(seg, (step_count + 1) as nat);
                lemma_walk_progress(seg, (step_count + 1) as nat);
            }
            let e2 = 2 * err;
            if e2 > -dy {
                err = err - dy;
                x = x + sx;
            }
            if e2 < dx {
                err = err + dx;
                y = y + sy;
            }
            step_count = step_count + 1;
            if step_count > WALK_LIMIT {
                break ;
            }
        }
        false
    }

    /// Clears every pixel.
    fn clear(&mut self)
        ensures
            final(self)@ == old(self)@.cleared(),
            final(self)@.wf(),
            forall|x: int, y: int| !final(self)@.is_set(x, y),
    {
        proof {
            assert forall|x: int, y: int| !old(self)@.cleared().is_set(x, y) by {
                lemma_cleared(old(self)@, x, y);
            }
        }
        let mut i: usize = 0;
        while i < self.pixels.len()
            invariant
                self.has_storage(),
                self.width == old(self).width,
                self.height == old(self).height,
                i <= self.pixels@.len(),
                forall|k: int| 0 <= k < i ==> #[trigger] self.pixels@[k] == 0,
            decreases self.pixels@.len() - i,
        {
            self.pixels[i] = 0;
            i = i + 1;
        }
        proof {
            assert forall|i: int|
                0 <= i < self.width * self.height implies !#[trigger] self@.bits[i] by {
                lemma_bit_set(0, 0, (i % 64) as u64);
            }
            assert(self@.bits =~= old(self)@.cleared().bits);
        }
    }
}

/// Whether `(x, y)` is a cell of the world.
pub open spec fn in_world(x: int, y: int) -> bool {
    0 <= x < CELLS_PER_ROW && 0 <= y < CELLS_PER_ROW
}

/// Whether the walk along the segment stays inside the world up to its
/// `k`-th point.
pub open spec fn stays_inside(seg: Segment, k: nat) -> bool {
    forall|j: nat| j <= k ==> in_world((#[trigger] seg.state(j)).x, seg.state(j).y)
}

/// Whether the cell in column `x` of row `y` has a blocked edge.
pub open spec fn has_blocked_edge(cells: Seq<CellDetails>, x: int, y: int) -> bool {
    cells[y * CELLS_PER_ROW + x].any_blocked()
}

/// Whether the walk along the segment comes to a cell with a blocked edge
/// before it leaves the world.
pub open spec fn edges_blocked(cells: Seq<CellDetails>, seg: Segment) -> bool {
    exists|k: nat|
        k <= seg.steps() && #[trigger] stays_inside(seg, k) && has_blocked_edge(
            cells,
            seg.state(k).x,
            seg.state(k).y,
        )
}

/// A coarse occlusion map for tile worlds: a cell blocks a ray if any of
/// its edges is blocked.
pub struct TileCollisionMap {
    world: BlockMap,
}

impl TileCollisionMap {
    /// The type of every tile of the world behind the map.
    pub closed spec fn tiles(&self) -> Seq<u8> {
        self.world@
    }

    /// Whether the world behind the map is well formed.
    pub closed spec fn has_world(&self) -> bool {
        self.world.wf()
    }

    /// A map over a world in which every tile has type 0.
    pub fn new() -> (map: Self)
        ensures
            map.has_world(),
            map.tiles() == Seq::new(TILES_TOTAL as nat, |i: int| 0u8),
    {
        TileCollisionMap { world: BlockMap::new() }
    }

    /// A map over the given world.
    pub fn from_world(world: BlockMap) -> (map: Self)
        requires
            world.wf(),
        ensures
            map.has_world(),
            map.tiles() == world@,
    {
        TileCollisionMap { world }
    }

    /// Sets the type of the tile in column `x` of row `y` of the world
    /// behind the map. Coordinates outside the world are ignored.
    pub fn set_tile(&mut self, x: u32, y: u32, tile: u8)
        requires
            old(self).has_world(),
        ensures
            final(self).has_world(),
            x < TILES_PER_ROW && y < TILES_PER_ROW ==> final(self).tiles() == old(
                self
            ).tiles().update(y * TILES_PER_ROW + x, tile),
            !(x < TILES_PER_ROW && y < TILES_PER_ROW) ==> final(self).tiles() == old(self).tiles(),
    {
        crate::block_map::set_tile(&mut self.world, x, y, tile);
    }
}

impl CollisionDetector for TileCollisionMap {
    open spec fn wf(&self) -> bool {
        self.has_world()
    }

    open spec fn blocked(&self, x0: i16, y0: i16, x1: i16, y1: i16) -> bool {
        edges_blocked(block_map_of(self.tiles()), segment(x0, y0, x1, y1))
    }

    /// Walks the segment cell by cell: blocked at the first cell with a
    /// blocked edge, clear as soon as the walk leaves the world or ends.
    fn is_blocked(&self, x0: i16, y0: i16, x1: i16, y1: i16) -> (blocked: bool) {
        let ghost seg = segment(x0, y0, x1, y1);
        let cells = crate::block_map::get_blockmap(&self.world);
        let dx: i32 = if x1 as i32 - x0 as i32 >= 0 {
            x1 as i32 - x0 as i32
        } else {
            x0 as i32 - x1 as i32
        };
        let dy: i32 = if y1 as i32 - y0 as i32 >= 0 {
            y1 as i32 - y0 as i32
        } else {
            y0 as i32 - y1 as i32
        };
        let sx: i32 = if x0 < x1 { 1 } else { -1 };
        let sy: i32 = if y0 < y1 { 1 } else { -1 };
        let mut err: i32 = dx - dy;
        let mut x: i32 = x0 as i32;
        let mut y: i32 = y0 as i32;
        let ghost mut k: nat = 0;
        loop
            invariant_except_break
                cells@ == block_map_of(self.tiles()),
                cells@.len() == CELLS_TOTAL,
                seg == segment(x0, y0, x1, y1),
                dx == seg.dx(),
                dy == seg.dy(),
                sx == seg.sx(),
                sy == seg.sy(),
                k <= seg.steps(),
                seg.state(k) == (WalkState { x: x as int, y: y as int, err: err as int }),
                forall|j: nat|
                    j < k ==> in_world((#[trigger] seg.state(j)).x, seg.state(j).y)
                        && !has_blocked_edge(cells@, seg.state(j).x, seg.state(j).y),
            ensures
                !edges_blocked(cells@, seg),
            decreases seg.steps() - k,
        {
            proof {
                lemma_walk_arrives(seg, k);
                lemma_walk_progress(seg, k);
            }
            if x < 0 || y < 0 || x >= CELLS_PER_ROW as i32 || y >= CELLS_PER_ROW as i32 {
                proof {
                    assert forall|w: nat|
                        w <= seg.steps() && #[trigger] stays_inside(
                            seg,
                            w,
                        ) implies !has_blocked_edge(cells@, seg.state(w).x, seg.state(w).y) by {
                        if w >= k {
                            assert(in_world(seg.state(k).x, seg.state(k).y));
                        }
                    }
                }
                return false;
            }
            let cell_index = (y as usize) * CELLS_PER_ROW + (x as usize);
            let cell = &cells[cell_index];
            if cell.n_blocked || cell.e_blocked || cell.s_blocked || cell.w_blocked {
                assert(stays_inside(seg, k));
                return true;
            }
            if x == x1 as i32 && y == y1 as i32 {
                break ;
            }
            proof {
                lemma_walk_arrives(seg, (k + 1) as nat);
                lemma_walk_progress(seg, (k + 1) as nat);
            }
            let e2 = 2 * err;
            if e2 > -dy {
                err = err - dy;
                x = x + sx;
            }
            if e2 < dx {
                err = err + dx;
                y = y + sy;
            }
            proof {
                k = k + 1;
            }
        }
        false
    }

    /// The map holds no obstacles of its own: the world stays as it is.
    fn clear(&mut self)
        ensures
            final(self).tiles() == old(self).tiles(),
    {
    }
}

/// The hybrid occlusion test: room connectivity for the broad phase, pixels
/// for the narrow phase.
pub struct HybridCollisionMap {
    union_find: UnionFind,
    pixel_map: PixelCollisionMap,
    map_size: usize,
}

impl HybridCollisionMap {
    /// The rooms of the broad phase.
    pub closed spec fn rooms(&self) -> Partition {
        self.union_find@
    }

    /// The pixels of the narrow phase.
    pub closed spec fn pixels(&self) -> PixelGrid {
        self.pixel_map@
    }

    /// The edge length of the grid with which the map was made; `clear` goes
    /// back to a grid of this size.
    pub closed spec fn initial_size(&self) -> nat {
        self.map_size as nat
    }

    /// The pixels of every hybrid map are a well-formed grid.
    pub proof fn lemma_pixels_are_grid(&self)
        ensures
            self.pixels().wf(),
    {
    }

    /// Whether both phases are well formed.
    pub closed spec fn is_sound(&self) -> bool {
        &&& self.union_find.wf()
        &&& self.pixel_map.has_storage()
        &&& self.map_size * self.map_size <= usize::MAX
    }

    /// A hybrid map over a grid of `map_size * map_size` cells with the given
    /// values (0 is a wall, a positive value a room id), and over as many
    /// pixels as 16-bit coordinates can address, all clear.
    pub fn new(map_data: Vec<i32>, map_size: usize) -> (map: Self)
        requires
            map_data@.len() == map_size * map_size,
        ensures
            map.is_sound(),
            map.rooms().wf(),
            map.rooms() == singletons(map_data@, map_size as nat).seeded(map_data@.len()),
            map.rooms().values == map_data@,
            map.rooms().size == map_size,
            map.rooms().tracks_connectivity(),
            map.initial_size() == map_size,
            map.pixels().width == map_size % 0x1_0000,
            map.pixels().height == map_size % 0x1_0000,
            forall|x: int, y: int| !map.pixels().is_set(x, y),
    {
        let side: u16 = (map_size % 0x1_0000) as u16;
        let cells = map_data.len();
        assert(map_size * map_size == cells);
        let union_find = UnionFind::new(map_data, map_size);
        HybridCollisionMap { union_find, pixel_map: PixelCollisionMap::new(side, side), map_size }
    }

    /// Replaces the rooms of the broad phase by those of a new grid. The
    /// pixels stay as they are.
    pub fn update_map_data(&mut self, map_data: Vec<i32>, map_size: usize)
        requires
            old(self).is_sound(),
            map_data@.len() == map_size * map_size,
        ensures
            final(self).is_sound(),
            final(self).rooms().wf(),
            final(self).rooms() == singletons(map_data@, map_size as nat).seeded(map_data@.len()),
            final(self).rooms().values == map_data@,
            final(self).rooms().size == map_size,
            final(self).rooms().tracks_connectivity(),
            final(self).pixels() == old(self).pixels(),
            final(self).initial_size() == old(self).initial_size(),
    {
        self.union_find = UnionFind::new(map_data, map_size);
    }

    /// The pixel map of the narrow phase, to draw obstacles on.
    pub fn pixel_map_mut(&mut self) -> (map: &mut PixelCollisionMap)
        requires
            old(self).is_sound(),
        ensures
            map.has_storage(),
            map@.wf(),
            map@ == old(self).pixels(),
            final(self).pixels() == final(map)@,
            final(self).rooms() == old(self).rooms(),
            final(self).initial_size() == old(self).initial_size(),
            final(map).has_storage() ==> final(self).is_sound(),
    {
        &mut self.pixel_map
    }
}

impl CollisionDetector for HybridCollisionMap {
    open spec fn wf(&self) -> bool {
        self.is_sound()
    }

    /// A segment is blocked if it leaves the room in which it starts, or if
    /// a pixel on it is blocked. The room test applies where both ends are
    /// cells of the room grid.
    open spec fn blocked(&self, x0: i16, y0: i16, x1: i16, y1: i16) -> bool {
        ||| (self.rooms().in_grid(x0 as int, y0 as int) && self.rooms().in_grid(
            x1 as int,
            y1 as int,
        ) && !self.rooms().ray_clear(x0 as int, y0 as int, x1 as int, y1 as int))
        ||| self.pixels().line_blocked(segment(x0, y0, x1, y1))
    }

    /// Tests the rooms first and walks the pixels only if the segment stays in
    /// its room.
    fn is_blocked(&self, x0: i16, y0: i16, x1: i16, y1: i16) -> (blocked: bool) {
        let size = self.union_find.size();
        if x0 >= 0 && y0 >= 0 && x1 >= 0 && y1 >= 0 && (x0 as usize) < size && (y0 as usize) < size
            && (x1 as usize) < size && (y1 as usize) < size {
            if !self.union_find.is_ray_clear(x0 as i32, y0 as i32, x1 as i32, y1 as i32) {
                return true;
            }
        }
        self.pixel_map.is_blocked(x0, y0, x1, y1)
    }

    /// Every cell becomes a wall of a grid of the initial size, and every
    /// pixel becomes clear.
    fn clear(&mut self)
        ensures
            final(self).rooms().wf(),
            final(self).rooms().size == old(self).initial_size(),
            final(self).rooms().values == Seq::new(
                old(self).initial_size() * old(self).initial_size(),
                |i: int| 0i32,
            ),
            final(self).rooms() == singletons(
                final(self).rooms().values,
                old(self).initial_size(),
            ).seeded(old(self).initial_size() * old(self).initial_size()),
            final(self).rooms().tracks_connectivity(),
            final(self).pixels() == old(self).pixels().cleared(),
            final(self).initial_size() == old(self).initial_size(),
    {
        let walls = vec![0i32; self.map_size * self.map_size];
        assert(walls@ =~= Seq::new(
            old(self).initial_size() * old(self).initial_size(),
            |i: int| 0i32,
        ));
        self.union_find = UnionFind::new(walls, self.map_size);
        self.pixel_map.clear();
    }
}

/// An occlusion tier of any of the three kinds.
pub enum Occlusion {
    /// Freeform pixels.
    Pixel(PixelCollisionMap),
    /// Blocked edges of the cells of a tile world.
    Tile(TileCollisionMap),
    /// Rooms for the broad phase, pixels for the narrow phase.
    Hybrid(HybridCollisionMap),
}

impl CollisionDetector for Occlusion {
    open spec fn wf(&self) -> bool {
        match self {
            Occlusion::Pixel(map) => map.wf(),
            Occlusion::Tile(map) => map.wf(),
            Occlusion::Hybrid(map) => map.wf(),
        }
    }

    open spec fn blocked(&self, x0: i16, y0: i16, x1: i16, y1: i16) -> bool {
        match self {
            Occlusion::Pixel(map) => map.blocked(x0, y0, x1, y1),
            Occlusion::Tile(map) => map.blocked(x0, y0, x1, y1),
            Occlusion::Hybrid(map) => map.blocked(x0, y0, x1, y1),
        }
    }

    fn is_blocked(&self, x0: i16, y0: i16, x1: i16, y1: i16) -> (blocked: bool) {
        match self {
            Occlusion::Pixel(map) => map.is_blocked(x0, y0, x1, y1),
            Occlusion::Tile(map) => map.is_blocked(x0, y0, x1, y1),
            Occlusion::Hybrid(map) => map.is_blocked(x0, y0, x1, y1),
        }
    }

    /// Clears the tier as its kind does; the kind stays.
    fn clear(&mut self)
        ensures
            match (*old(self), *final(self)) {
                (Occlusion::Pixel(before), Occlusion::Pixel(after)) => after@ == before@.cleared(),
                (Occlusion::Tile(before), Occlusion::Tile(after)) => after.tiles()
                    == before.tiles(),
                (Occlusion::Hybrid(before), Occlusion::Hybrid(after)) => after.pixels()
                    == before.pixels().cleared() && after.rooms().size == before.initial_size()
                    && after.rooms().tracks_connectivity() && after.rooms().values == Seq::new(
                    before.initial_size() * before.initial_size(),
                    |i: int| 0i32,
                ),
                _ => false,
            },
    {
        match self {
            Occlusion::Pixel(map) => map.clear(),
            Occlusion::Tile(map) => map.clear(),
            Occlusion::Hybrid(map) => map.clear(),
        }
    }
}

/// The occlusion state of the engine: one hybrid detector.
pub struct CollisionSystem {
    detector: HybridCollisionMap,
}

impl CollisionSystem {
    /// The detector of the system.
    pub closed spec fn hybrid(&self) -> HybridCollisionMap {
        self.detector
    }

    /// Whether the detector is well formed.
    pub open spec fn wf(&self) -> bool {
        self.hybrid().is_sound()
    }

    /// A system over an open area: one room over the whole default grid and
    /// no blocked pixel.
    pub fn new() -> (system: Self)
        ensures
            system.wf(),
            system.hybrid().rooms().size == DEFAULT_MAP_SIZE,
            system.hybrid().rooms().values == Seq::new(
                (DEFAULT_MAP_SIZE * DEFAULT_MAP_SIZE) as nat,
                |i: int| 1i32,
            ),
            system.hybrid().rooms() == singletons(
                system.hybrid().rooms().values,
                DEFAULT_MAP_SIZE as nat,
            ).seeded((DEFAULT_MAP_SIZE * DEFAULT_MAP_SIZE) as nat),
            system.hybrid().rooms().tracks_connectivity(),
            forall|x: int, y: int| !system.hybrid().pixels().is_set(x, y),
    {
        let map_size = DEFAULT_MAP_SIZE;
        let map_data = vec![1i32; map_size * map_size];
        assert(map_data@ =~= Seq::new((DEFAULT_MAP_SIZE * DEFAULT_MAP_SIZE) as nat, |i: int| 1i32));
        let detector = HybridCollisionMap::new(map_data, map_size);
        CollisionSystem { detector }
    }

    /// Replaces the rooms by those of a new grid, where 0 is a wall and a
    /// positive value a room id.
    pub fn update_map_data(&mut self, map_data: Vec<i32>, map_size: usize)
        requires
            old(self).wf(),
            map_data@.len() == map_size * map_size,
        ensures
            final(self).wf(),
            final(self).hybrid().rooms() == singletons(map_data@, map_size as nat).seeded(
                map_data@.len(),
            ),
            final(self).hybrid().rooms().values == map_data@,
            final(self).hybrid().rooms().size == map_size,
            final(self).hybrid().rooms().tracks_connectivity(),
            final(self).hybrid().pixels() == old(self).hybrid().pixels(),
    {
        self.detector.update_map_data(map_data, map_size);
    }

    /// The detector of the system.
    pub fn detector(&self) -> (detector: &HybridCollisionMap)
        ensures
            *detector == self.hybrid(),
    {
        &self.detector
    }

    /// The detector of the system, to change it.
    pub fn detector_mut(&mut self) -> (detector: &mut HybridCollisionMap)
        ensures
            *detector == old(self).hybrid(),
            final(self).hybrid() == *final(detector),
    {
        &mut self.detector
    }
}

/// Whether the segment from `(x0, y0)` to `(x1, y1)` is blocked for the
/// detector of the system.
pub fn is_blocked(system: &CollisionSystem, x0: i16, y0: i16, x1: i16, y1: i16) -> (blocked: bool)
    requires
        system.wf(),
    ensures
        blocked == system.hybrid().blocked(x0, y0, x1, y1),
{
    system.detector().is_blocked(x0, y0, x1, y1)
}

/// Replaces the rooms of the system by those of a new grid.
pub fn update_map_data(system: &mut CollisionSystem, map_data: Vec<i32>, map_size: usize)
    requires
        old(system).wf(),
        map_data@.len() == map_size * map_size,
    ensures
        final(system).wf(),
        final(system).hybrid().rooms() == singletons(map_data@, map_size as nat).seeded(
            map_data@.len(),
        ),
        final(system).hybrid().rooms().values == map_data@,
        final(system).hybrid().rooms().size == map_size,
        final(system).hybrid().rooms().tracks_connectivity(),
        final(system).hybrid().pixels() == old(system).hybrid().pixels(),
{
    system.update_map_data(map_data, map_size);
}

/// Clears the system: every cell becomes a wall and every pixel clear.
pub fn clear_collisions(system: &mut CollisionSystem)
    requires
        old(system).wf(),
    ensures
        final(system).wf(),
        final(system).hybrid().pixels() == old(system).hybrid().pixels().cleared(),
        final(system).hybrid().rooms().size == old(system).hybrid().initial_size(),
        final(system).hybrid().rooms().values == Seq::new(
            old(system).hybrid().initial_size() * old(system).hybrid().initial_size(),
            |i: int| 0i32,
        ),
        final(system).hybrid().rooms() == singletons(
            final(system).hybrid().rooms().values,
            old(system).hybrid().initial_size(),
        ).seeded(old(system).hybrid().initial_size() * old(system).hybrid().initial_size()),
        final(system).hybrid().rooms().tracks_connectivity(),
        final(system).hybrid().initial_size() == old(system).hybrid().initial_size(),
{
    system.detector_mut().clear();
}

/// Sets one pixel of the system; `true` says that the pixel map has taken
/// the request.
pub fn set_pixel(system: &mut CollisionSystem, x: u16, y: u16, blocked: bool) -> (done: bool)
    requires
        old(system).wf(),
    ensures
        done,
        final(system).wf(),
        final(system).hybrid().pixels() == old(system).hybrid().pixels().with_pixel(
            x as int,
            y as int,
            blocked,
        ),
        final(system).hybrid().rooms() == old(system).hybrid().rooms(),
{
    system.detector_mut().pixel_map_mut().set_pixel(x, y, blocked);
    true
}

/// Sets a batch of pixels of the system, one after the other.
pub fn set_pixel_batch(system: &mut CollisionSystem, pixels: Vec<(u16, u16, bool)>) -> (done: bool)
    requires
        old(system).wf(),
    ensures
        done,
        final(system).wf(),
        final(system).hybrid().pixels() == old(system).hybrid().pixels().with_batch(pixels@),
        final(system).hybrid().rooms() == old(system).hybrid().rooms(),
{
    system.detector_mut().pixel_map_mut().set_pixel_batch(pixels);
    true
}

/// The collision modes that a host can name.
#[derive(Clone, Copy, Debug, PartialEq, Eq, Structural)]
pub enum CollisionMode {
    /// Blocked edges of the cells of a tile world.
    Tile,
    /// Freeform pixels.
    Pixel,
    /// Whatever suits the scene.
    Auto,
}

impl CollisionMode {
    /// The number of a mode: 0 for tiles, 1 for pixels, 2 for the automatic
    /// choice.
    pub open spec fn code_spec(self) -> u8 {
        match self {
            CollisionMode::Tile => 0,
            CollisionMode::Pixel => 1,
            CollisionMode::Auto => 2,
        }
    }

    /// The mode with the given number; an unknown number means the tile mode.
    pub fn from_code(code: u8) -> (mode: Self)
        ensures
            code <= 2 ==> mode.code_spec() == code,
            code > 2 ==> mode == CollisionMode::Tile,
    {
        if code == 1 {
            CollisionMode::Pixel
        } else if code == 2 {
            CollisionMode::Auto
        } else {
            CollisionMode::Tile
        }
    }

    /// The number of the mode.
    pub fn code(self) -> (code: u8)
        ensures
            code == self.code_spec(),
            code <= 2,
    {
        match self {
            CollisionMode::Tile => 0,
            CollisionMode::Pixel => 1,
            CollisionMode::Auto => 2,
        }
    }
}

/// The pixel that record `k` of a batch payload holds: five bytes, x and y
/// as 16-bit numbers with the low byte first, then a flag that is set unless
/// it is 0.
pub open spec fn decoded_pixel(bytes: Seq<u8>, k: int) -> (u16, u16, bool) {
    (
        (bytes[5 * k] + 256 * bytes[5 * k + 1]) as u16,
        (bytes[5 * k + 2] + 256 * bytes[5 * k + 3]) as u16,
        bytes[5 * k + 4] != 0,
    )
}

/// Decodes a batch payload. A payload whose length is not a multiple of five
/// is rejected as a whole.
pub fn decode_pixel_batch(bytes: &[u8]) -> (pixels: Option<Vec<(u16, u16, bool)>>)
    ensures
        pixels is None <==> bytes@.len() % 5 != 0,
        match pixels {
            Some(list) => list@.len() == bytes@.len() / 5 && forall|k: int|
                0 <= k < list@.len() ==> #[trigger] list@[k] == decoded_pixel(bytes@, k),
            None => true,
        },
{
    if bytes.len() % 5 != 0 {
        return None;
    }
    let total = bytes.len();
    let count = total / 5;
    let mut list: Vec<(u16, u16, bool)> = Vec::new();
    let mut k: usize = 0;
    while k < count
        invariant
            total == bytes@.len(),
            count == total / 5,
            total % 5 == 0,
            k <= count,
            list@.len() == k,
            forall|j: int| 0 <= j < k ==> #[trigger] list@[j] == decoded_pixel(bytes@, j),
        decreases count - k,
    {
        assert(5 * k + 4 < total);
        let x: u16 = bytes[5 * k] as u16 + 256 * (bytes[5 * k + 1] as u16);
        let y: u16 = bytes[5 * k + 2] as u16 + 256 * (bytes[5 * k + 3] as u16);
        let blocked = bytes[5 * k + 4] != 0;
        list.push((x, y, blocked));
        k = k + 1;
    }
    Some(list)
}

} // verus!
