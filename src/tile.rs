//! Tiles, grids and the spatial queries on them.

use vstd::prelude::*;

verus! {

/// Side of a square tile, in pixels.
pub const TILE_SIZE: i64 = 32;

/// World coordinates are fixed-point: this many units make one pixel.
pub const UNITS_PER_PIXEL: i64 = 100;

/// Side of a tile in world units (`TILE_SIZE * UNITS_PER_PIXEL`).
pub const TILE_UNITS: i64 = 3200;

/// Largest number of rows, and of columns, that a grid may have.
pub const MAX_SIDE: usize = 4096;

/// Largest magnitude of a world coordinate handed to the library.
pub const WORLD_LIMIT: i64 = 1_000_000_000;

#[derive(Clone, Copy, Debug, PartialEq, Eq, Structural)]
pub enum TileType {
    Floor,
    Wall,
}

#[derive(Clone, Copy, Debug, PartialEq, Eq, Structural)]
pub struct Tile {
    pub tile_type: TileType,
}

/// Rows of tiles, indexed `[y][x]`.
pub type Grid = Vec<Vec<Tile>>;

pub open spec fn height(g: &Grid) -> int {
    g@.len() as int
}

pub open spec fn width(g: &Grid) -> int {
    g@[0]@.len() as int
}

/// A grid is non-empty, rectangular, and at most `MAX_SIDE` tiles on a side.
pub open spec fn grid_wf(g: &Grid) -> bool {
    &&& 1 <= g@.len() <= MAX_SIDE
    &&& 1 <= g@[0]@.len() <= MAX_SIDE
    &&& forall|r: int| 0 <= r < g@.len() ==> #[trigger] g@[r]@.len() == g@[0]@.len()
}

pub open spec fn in_grid(g: &Grid, x: int, y: int) -> bool {
    0 <= x < width(g) && 0 <= y < height(g)
}

/// The tile at column `x`, row `y` lies in the grid and is floor.
pub open spec fn floor_at(g: &Grid, x: int, y: int) -> bool {
    in_grid(g, x, y) && g@[y]@[x].tile_type == TileType::Floor
}

/// Whether a world point lies on a wall; points off the grid count as wall.
pub open spec fn wall_at_point(g: &Grid, x: int, y: int) -> bool {
    !floor_at(g, x / (TILE_UNITS as int), y / (TILE_UNITS as int))
}

/// Reads whether tile `(x, y)` is floor.
pub fn tile_is_floor(g: &Grid, x: usize, y: usize) -> (r: bool)
    requires
        grid_wf(g),
    ensures
        r == floor_at(g, x as int, y as int),
{
    if y >= g.len() || x >= g[0].len() {
        return false;
    }
    assert(g@[y as int]@.len() == g@[0]@.len());
    g[y][x].tile_type == TileType::Floor
}

/// Whether the world point `(x, y)` is on a wall tile or off the grid.
pub fn is_wall(g: &Grid, x: i64, y: i64) -> (r: bool)
    requires
        grid_wf(g),
    ensures
        r == wall_at_point(g, x as int, y as int),
{
    if x < 0 || y < 0 {
        return true;
    }
    let tx = x / TILE_UNITS;
    let ty = y / TILE_UNITS;
    if tx >= MAX_SIDE as i64 || ty >= MAX_SIDE as i64 {
        return true;
    }
    !tile_is_floor(g, tx as usize, ty as usize)
}


/// The tile column (or row) of a world coordinate. Coordinates left of (or
/// above) the grid give `MAX_SIDE`, which lies outside every grid.
pub open spec fn tile_coord(v: int) -> int {
    if v < 0 {
        MAX_SIDE as int
    } else {
        v / (TILE_UNITS as int)
    }
}

/// The tile that holds the world point `(x, y)`.
pub fn world_to_tile(x: i64, y: i64) -> (r: (usize, usize))
    requires
        x <= 2 * WORLD_LIMIT,
        y <= 2 * WORLD_LIMIT,
    ensures
        r.0 == tile_coord(x as int),
        r.1 == tile_coord(y as int),
{
    let tx: usize = if x < 0 { MAX_SIDE } else { (x / TILE_UNITS) as usize };
    let ty: usize = if y < 0 { MAX_SIDE } else { (y / TILE_UNITS) as usize };
    (tx, ty)
}

/// The world position of the top-left corner of tile `(tx, ty)`.
pub fn tile_to_world(tx: usize, ty: usize) -> (r: (i64, i64))
    requires
        tx * TILE_UNITS <= WORLD_LIMIT,
        ty * TILE_UNITS <= WORLD_LIMIT,
    ensures
        r.0 == tx * TILE_UNITS,
        r.1 == ty * TILE_UNITS,
{
    (tx as i64 * TILE_UNITS, ty as i64 * TILE_UNITS)
}

/// A square of side `size` with its top-left corner at `(x, y)` has no corner,
/// taken one pixel inward, on a wall.
pub open spec fn spawn_clear(g: &Grid, x: int, y: int, size: int) -> bool {
    let m = UNITS_PER_PIXEL as int;
    &&& !wall_at_point(g, x + m, y + m)
    &&& !wall_at_point(g, x + size - m, y + m)
    &&& !wall_at_point(g, x + m, y + size - m)
    &&& !wall_at_point(g, x + size - m, y + size - m)
}

/// Whether a square of side `size` fits at `(x, y)`, judged by its corners.
pub fn is_spawn_position_valid(g: &Grid, x: i64, y: i64, size: i64) -> (r: bool)
    requires
        grid_wf(g),
        -WORLD_LIMIT <= x <= WORLD_LIMIT,
        -WORLD_LIMIT <= y <= WORLD_LIMIT,
        0 <= size <= WORLD_LIMIT,
    ensures
        r == spawn_clear(g, x as int, y as int, size as int),
{
    let m = UNITS_PER_PIXEL;
    if is_wall(g, x + m, y + m) {
        return false;
    }
    if is_wall(g, x + size - m, y + m) {
        return false;
    }
    if is_wall(g, x + m, y + size - m) {
        return false;
    }
    if is_wall(g, x + size - m, y + size - m) {
        return false;
    }
    true
}

/// A square of side `size` can stand on floor tile `(tx, ty)`, corner at the
/// tile's corner.
pub open spec fn spawn_fits(g: &Grid, tx: int, ty: int, size: int) -> bool {
    floor_at(g, tx, ty) && spawn_clear(g, tx * TILE_UNITS, ty * TILE_UNITS, size)
}

/// Tile `(a, b)` comes before tile `(tx, ty)` row by row.
pub open spec fn before(a: int, b: int, tx: int, ty: int) -> bool {
    b < ty || (b == ty && a < tx)
}

/// The first floor tile, row by row, where a square of side `size` fits,
/// as the world position of its corner.
pub fn find_large_spawn(g: &Grid, size: i64) -> (r: Option<(i64, i64)>)
    requires
        grid_wf(g),
        0 <= size <= WORLD_LIMIT,
    ensures
        r is None ==> forall|a: int, b: int| in_grid(g, a, b) ==> !#[trigger] spawn_fits(g, a, b, size as int),
        r matches Some(p) ==> exists|tx: int, ty: int| {
            &&& in_grid(g, tx, ty)
            &&& p.0 == tx * TILE_UNITS
            &&& p.1 == ty * TILE_UNITS
            &&& spawn_fits(g, tx, ty, size as int)
            &&& forall|a: int, b: int| in_grid(g, a, b) && before(a, b, tx, ty) ==> !#[trigger] spawn_fits(g, a, b, size as int)
        },
{
    let h = g.len();
    let w = g[0].len();
    let mut ty: usize = 0;
    while ty < h
        invariant
            grid_wf(g),
            h == height(g),
            w == width(g),
            0 <= size <= WORLD_LIMIT,
            ty <= h,
            forall|a: int, b: int| in_grid(g, a, b) && b < ty ==> !#[trigger] spawn_fits(g, a, b, size as int),
        decreases h - ty,
    {
        let mut tx: usize = 0;
        while tx < w
            invariant
                grid_wf(g),
                h == height(g),
                w == width(g),
                0 <= size <= WORLD_LIMIT,
                ty < h,
                tx <= w,
                forall|a: int, b: int| in_grid(g, a, b) && before(a, b, tx as int, ty as int) ==> !#[trigger] spawn_fits(
                    g,
                    a,
                    b,
                    size as int,
                ),
            decreases w - tx,
        {
            if tile_is_floor(g, tx, ty) {
                let x = tx as i64 * TILE_UNITS;
                let y = ty as i64 * TILE_UNITS;
                if is_spawn_position_valid(g, x, y, size) {
                    return Some((x, y));
                }
            }
            tx = tx + 1;
        }
        ty = ty + 1;
    }
    None
}

} // verus!
