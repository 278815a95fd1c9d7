//! The tile world and its block map: which edges of which cells block light.
//!
//! The world is a square of tiles, each divided into a square of cells. An
//! edge of a cell is blocked if and only if it lies on the boundary of its
//! tile and the tile on the other side has another type; outside the world
//! every tile counts as type 0.

use crate::constants::{CELLS_PER_ROW, CELLS_PER_TILE, CELLS_TOTAL, TILES_PER_ROW, TILES_TOTAL};
use vstd::prelude::*;

verus! {

/// Which of the four edges of a cell block light.
#[derive(Clone, Copy, Debug)]
pub struct CellDetails {
    pub n_blocked: bool,
    pub e_blocked: bool,
    pub s_blocked: bool,
    pub w_blocked: bool,
}

impl Default for CellDetails {
    /// The cell without a blocked edge.
    fn default() -> (cell: CellDetails)
        ensures
            cell == (CellDetails {
                n_blocked: false,
                e_blocked: false,
                s_blocked: false,
                w_blocked: false,
            }),
    {
        CellDetails { n_blocked: false, e_blocked: false, s_blocked: false, w_blocked: false }
    }
}

impl CellDetails {
    /// Whether any edge of the cell is blocked.
    pub open spec fn any_blocked(self) -> bool {
        self.n_blocked || self.e_blocked || self.s_blocked || self.w_blocked
    }
}

/// A tile type together with the types of the four tiles around it.
pub struct TileNeighborhood {
    pub tile: u8,
    pub north: u8,
    pub east: u8,
    pub south: u8,
    pub west: u8,
}

/// The type of the tile in column `tx` of row `ty`; 0 outside the world.
pub open spec fn tile_at(tiles: Seq<u8>, tx: int, ty: int) -> u8 {
    if 0 <= tx < TILES_PER_ROW && 0 <= ty < TILES_PER_ROW {
        tiles[ty * TILES_PER_ROW + tx]
    } else {
        0
    }
}

/// The neighbourhood of the tile in column `tx` of row `ty`.
pub open spec fn neighborhood_at(tiles: Seq<u8>, tx: int, ty: int) -> TileNeighborhood {
    TileNeighborhood {
        tile: tile_at(tiles, tx, ty),
        north: tile_at(tiles, tx, ty - 1),
        east: tile_at(tiles, tx + 1, ty),
        south: tile_at(tiles, tx, ty + 1),
        west: tile_at(tiles, tx - 1, ty),
    }
}

/// The edges of the cell in column `cx` of row `cy` inside a tile with the
/// given neighbourhood: an edge is blocked where the cell touches the side
/// of the tile and the tile beyond has another type.
pub open spec fn edges_in(around: TileNeighborhood, cx: int, cy: int) -> CellDetails {
    CellDetails {
        n_blocked: cy % (CELLS_PER_TILE as int) == 0 && around.tile != around.north,
        e_blocked: cx % (CELLS_PER_TILE as int) == CELLS_PER_TILE - 1 && around.tile != around.east,
        s_blocked: cy % (CELLS_PER_TILE as int) == CELLS_PER_TILE - 1 && around.tile
            != around.south,
        w_blocked: cx % (CELLS_PER_TILE as int) == 0 && around.tile != around.west,
    }
}

/// The edges of the cell in column `cx` of row `cy` of the world.
pub open spec fn cell_edges(tiles: Seq<u8>, cx: int, cy: int) -> CellDetails {
    edges_in(
        neighborhood_at(tiles, cx / (CELLS_PER_TILE as int), cy / (CELLS_PER_TILE as int)),
        cx,
        cy,
    )
}

/// The block map of a tile grid: the edges of every cell, row by row.
pub open spec fn block_map_of(tiles: Seq<u8>) -> Seq<CellDetails> {
    Seq::new(
        CELLS_TOTAL as nat,
        |i: int| cell_edges(tiles, i % (CELLS_PER_ROW as int), i / (CELLS_PER_ROW as int)),
    )
}

/// Whether the cell in column `cx` of row `cy` lies inside tile `tile_index`.
pub open spec fn in_tile(tile_index: int, cx: int, cy: int) -> bool {
    &&& 0 <= cx < CELLS_PER_ROW
    &&& 0 <= cy < CELLS_PER_ROW
    &&& cx / (CELLS_PER_TILE as int) == tile_index % (TILES_PER_ROW as int)
    &&& cy / (CELLS_PER_TILE as int) == tile_index / (TILES_PER_ROW as int)
}

/// The tile world: the type of every tile, and the block map derived from
/// the tiles.
pub struct BlockMap {
    tiles: Vec<u8>,
    cells: Vec<CellDetails>,
}

impl View for BlockMap {
    type V = Seq<u8>;

    /// The type of every tile, row by row.
    closed spec fn view(&self) -> Seq<u8> {
        self.tiles@
    }
}

impl BlockMap {
    /// Whether the two arrays have the sizes of the world.
    pub closed spec fn has_shape(&self) -> bool {
        self.tiles@.len() == TILES_TOTAL && self.cells@.len() == CELLS_TOTAL
    }

    /// The edges stored for every cell, row by row.
    pub closed spec fn stored_cells(&self) -> Seq<CellDetails> {
        self.cells@
    }

    /// The world is well formed: it has its shape, and the stored block map
    /// is the block map of the tiles.
    pub open spec fn wf(&self) -> bool {
        &&& self.has_shape()
        &&& self@.len() == TILES_TOTAL
        &&& self.stored_cells() == block_map_of(self@)
    }

    /// A world in which every tile has type 0; no edge is blocked.
    pub fn new() -> (world: BlockMap)
        ensures
            world.wf(),
            world@ == Seq::new(TILES_TOTAL as nat, |i: int| 0u8),
    {
        let mut world = BlockMap {
            tiles: vec![0u8; TILES_TOTAL],
            cells: vec![CellDetails::default(); CELLS_TOTAL],
        };
        assert(world.tiles@ =~= Seq::new(TILES_TOTAL as nat, |i: int| 0u8));
        update_blockmap(&mut world);
        world
    }
}

/// The type of every tile, row by row.
pub fn get_tiles(world: &BlockMap) -> (tiles: &Vec<u8>)
    requires
        world.wf(),
    ensures
        tiles@ == world@,
        tiles@.len() == TILES_TOTAL,
{
    &world.tiles
}

/// A copy of the tile types as 32-bit integers.
pub fn get_tiles_vec_i32(world: &BlockMap) -> (tiles: Vec<i32>)
    requires
        world.wf(),
    ensures
        tiles@.len() == TILES_TOTAL,
        forall|i: int| 0 <= i < TILES_TOTAL ==> #[trigger] tiles@[i] == world@[i] as i32,
{
    let mut tiles: Vec<i32> = Vec::new();
    let mut i: usize = 0;
    while i < TILES_TOTAL
        invariant
            world.has_shape(),
            i <= TILES_TOTAL,
            tiles@.len() == i,
            forall|k: int| 0 <= k < i ==> #[trigger] tiles@[k] == world.tiles@[k] as i32,
        decreases TILES_TOTAL - i,
    {
        tiles.push(world.tiles[i] as i32);
        i = i + 1;
    }
    tiles
}

/// The edges of every cell, row by row.
pub fn get_blockmap(world: &BlockMap) -> (cells: &Vec<CellDetails>)
    requires
        world.wf(),
    ensures
        cells@ == block_map_of(world@),
        cells@.len() == CELLS_TOTAL,
{
    &world.cells
}

/// Sets the type of the tile in column `x` of row `y` and brings the block
/// map up to date. Coordinates outside the world are ignored.
pub fn set_tile(world: &mut BlockMap, x: u32, y: u32, tile: u8)
    requires
        old(world).wf(),
    ensures
        final(world).wf(),
        x < TILES_PER_ROW && y < TILES_PER_ROW ==> final(world)@ == old(world)@.update(
            y * TILES_PER_ROW + x,
            tile,
        ),
        !(x < TILES_PER_ROW && y < TILES_PER_ROW) ==> final(world)@ == old(world)@,
{
    if x as usize >= TILES_PER_ROW || y as usize >= TILES_PER_ROW {
        return ;
    }
    let index = (x as usize) + (y as usize) * TILES_PER_ROW;
    world.tiles[index] = tile;
    update_blockmap(world);
}

/// Recomputes the edges of every cell from the tiles.
fn update_blockmap(world: &mut BlockMap)
    requires
        old(world).has_shape(),
    ensures
        final(world).wf(),
        final(world)@ == old(world)@,
{
    let mut i: usize = 0;
    while i < TILES_TOTAL
        invariant
            world.has_shape(),
            world.tiles@ == old(world).tiles@,
            i <= TILES_TOTAL,
            forall|cx: int, cy: int|
                0 <= cx < CELLS_PER_ROW && 0 <= cy < CELLS_PER_ROW && (cy / (CELLS_PER_TILE as int))
                    * TILES_PER_ROW + cx / (CELLS_PER_TILE as int) < i
                    ==> #[trigger] world.cells@[cy * CELLS_PER_ROW + cx] == cell_edges(
                    world.tiles@,
                    cx,
                    cy,
                ),
        decreases TILES_TOTAL - i,
    {
        let ghost before = world.cells@;
        update_tile_blocking(world, i);
        assert forall|cx: int, cy: int|
            0 <= cx < CELLS_PER_ROW && 0 <= cy < CELLS_PER_ROW && (cy / (CELLS_PER_TILE as int))
                * TILES_PER_ROW + cx / (CELLS_PER_TILE as int) < i + 1
                implies #[trigger] world.cells@[cy * CELLS_PER_ROW + cx] == cell_edges(
            world.tiles@,
            cx,
            cy,
        ) by {
            if !in_tile(i as int, cx, cy) {
                assert(world.cells@[cy * CELLS_PER_ROW + cx] == before[cy * CELLS_PER_ROW + cx]);
            }
        }
        i = i + 1;
    }
    assert(world.cells@ =~= block_map_of(world.tiles@)) by {
        assert forall|k: int| 0 <= k < CELLS_TOTAL implies world.cells@[k] == block_map_of(
            world.tiles@,
        )[k] by {
            let cx = k % (CELLS_PER_ROW as int);
            let cy = k / (CELLS_PER_ROW as int);
            assert(world.cells@[cy * CELLS_PER_ROW + cx] == cell_edges(world.tiles@, cx, cy));
        }
    }
}

/// Recomputes the edges of the cells of one tile from the tile and the four
/// tiles around it.
fn update_tile_blocking(world: &mut BlockMap, tile_index: usize)
    requires
        old(world).has_shape(),
        tile_index < TILES_TOTAL,
    ensures
        final(world).has_shape(),
        final(world).tiles@ == old(world).tiles@,
        forall|cx: int, cy: int|
            in_tile(tile_index as int, cx, cy) ==> #[trigger] final(world).cells@[cy * CELLS_PER_ROW
                + cx] == cell_edges(old(world).tiles@, cx, cy),
        forall|cx: int, cy: int|
            0 <= cx < CELLS_PER_ROW && 0 <= cy < CELLS_PER_ROW && !in_tile(
                tile_index as int,
                cx,
                cy,
            ) ==> #[trigger] final(world).cells@[cy * CELLS_PER_ROW + cx] == old(world).cells@[cy
                * CELLS_PER_ROW + cx],
{
    let row = tile_index / TILES_PER_ROW;
    let neighborhood = TileNeighborhood {
        tile: world.tiles[tile_index],
        north: if tile_index >= TILES_PER_ROW {
            world.tiles[tile_index - TILES_PER_ROW]
        } else {
            0
        },
        east: if (tile_index + 1) / TILES_PER_ROW == row && tile_index + 1 < TILES_TOTAL {
            world.tiles[tile_index + 1]
        } else {
            0
        },
        south: if tile_index + TILES_PER_ROW < TILES_TOTAL {
            world.tiles[tile_index + TILES_PER_ROW]
        } else {
            0
        },
        west: if tile_index > 0 && (tile_index - 1) / TILES_PER_ROW == row {
            world.tiles[tile_index - 1]
        } else {
            0
        },
    };
    assert(neighborhood == neighborhood_at(
        world.tiles@,
        (tile_index % TILES_PER_ROW) as int,
        (tile_index / TILES_PER_ROW) as int,
    ));
    update_tile_cells(world, tile_index, &neighborhood);
}

/// Sets the edges of the cells of one tile from a neighbourhood.
fn update_tile_cells(world: &mut BlockMap, tile_idx: usize, neighborhood: &TileNeighborhood)
    requires
        old(world).has_shape(),
        tile_idx < TILES_TOTAL,
    ensures
        final(world).has_shape(),
        final(world).tiles@ == old(world).tiles@,
        forall|cx: int, cy: int|
            in_tile(tile_idx as int, cx, cy) ==> #[trigger] final(world).cells@[cy * CELLS_PER_ROW
                + cx] == edges_in(*neighborhood, cx, cy),
        forall|cx: int, cy: int|
            0 <= cx < CELLS_PER_ROW && 0 <= cy < CELLS_PER_ROW && !in_tile(tile_idx as int, cx, cy)
                ==> #[trigger] final(world).cells@[cy * CELLS_PER_ROW + cx] == old(world).cells@[cy
                * CELLS_PER_ROW + cx],
{
    let tile_x = tile_idx % TILES_PER_ROW;
    let tile_y = tile_idx / TILES_PER_ROW;
    let start_x = tile_x * CELLS_PER_TILE;
    let start_y = tile_y * CELLS_PER_TILE;
    let end_x = (tile_x + 1) * CELLS_PER_TILE - 1;
    let end_y = (tile_y + 1) * CELLS_PER_TILE - 1;
    let mut y: usize = start_y;
    while y <= end_y
        invariant
            world.has_shape(),
            world.tiles@ == old(world).tiles@,
            tile_idx < TILES_TOTAL,
            tile_x == tile_idx % TILES_PER_ROW,
            tile_y == tile_idx / TILES_PER_ROW,
            start_x == tile_x * CELLS_PER_TILE,
            start_y == tile_y * CELLS_PER_TILE,
            end_x == start_x + CELLS_PER_TILE - 1,
            end_y == start_y + CELLS_PER_TILE - 1,
            start_y <= y <= end_y + 1,
            forall|cx: int, cy: int|
                in_tile(tile_idx as int, cx, cy) && cy < y ==> #[trigger] world.cells@[cy
                    * CELLS_PER_ROW + cx] == edges_in(*neighborhood, cx, cy),
            forall|cx: int, cy: int|
                0 <= cx < CELLS_PER_ROW && 0 <= cy < CELLS_PER_ROW && !(in_tile(
                    tile_idx as int,
                    cx,
                    cy,
                ) && cy < y) ==> #[trigger] world.cells@[cy * CELLS_PER_ROW + cx] == old(
                    world
                ).cells@[cy * CELLS_PER_ROW + cx],
        decreases end_y + 1 - y,
    {
        let mut x: usize = start_x;
        while x <= end_x
            invariant
                world.has_shape(),
                world.tiles@ == old(world).tiles@,
                tile_idx < TILES_TOTAL,
                tile_x == tile_idx % TILES_PER_ROW,
                tile_y == tile_idx / TILES_PER_ROW,
                start_x == tile_x * CELLS_PER_TILE,
                start_y == tile_y * CELLS_PER_TILE,
                end_x == start_x + CELLS_PER_TILE - 1,
                end_y == start_y + CELLS_PER_TILE - 1,
                start_y <= y <= end_y,
                start_x <= x <= end_x + 1,
                forall|cx: int, cy: int|
                    in_tile(tile_idx as int, cx, cy) && (cy < y || (cy == y && cx < x))
                        ==> #[trigger] world.cells@[cy * CELLS_PER_ROW + cx] == edges_in(
                        *neighborhood,
                        cx,
                        cy,
                    ),
                forall|cx: int, cy: int|
                    0 <= cx < CELLS_PER_ROW && 0 <= cy < CELLS_PER_ROW && !(in_tile(
                        tile_idx as int,
                        cx,
                        cy,
                    ) && (cy < y || (cy == y && cx < x))) ==> #[trigger] world.cells@[cy
                        * CELLS_PER_ROW + cx] == old(world).cells@[cy * CELLS_PER_ROW + cx],
            decreases end_x + 1 - x,
        {
            let cell_index = y * CELLS_PER_ROW + x;
            let ghost before = world.cells@;
            world.cells[cell_index] = CellDetails {
                n_blocked: y == start_y && neighborhood.tile != neighborhood.north,
                e_blocked: x == end_x && neighborhood.tile != neighborhood.east,
                s_blocked: y == end_y && neighborhood.tile != neighborhood.south,
                w_blocked: x == start_x && neighborhood.tile != neighborhood.west,
            };
            assert(world.cells@[y * CELLS_PER_ROW + x] == edges_in(
                *neighborhood,
                x as int,
                y as int,
            ));
            assert forall|cx: int, cy: int|
                0 <= cx < CELLS_PER_ROW && 0 <= cy < CELLS_PER_ROW && !(cx == x && cy == y)
                    implies #[trigger] world.cells@[cy * CELLS_PER_ROW + cx] == before[cy
                * CELLS_PER_ROW + cx] by {
                assert(cy * CELLS_PER_ROW + cx != y * CELLS_PER_ROW + x);
            }
            x = x + 1;
        }
        y = y + 1;
    }
}

} // verus!
