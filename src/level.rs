//! Level layouts: rows of text turned into grids, and where the player starts.

use vstd::prelude::*;
use vstd::string::StrSliceExecFns;
use crate::tile::{Grid, Tile, TileType, MAX_SIDE, grid_wf, width, height, floor_at};
use crate::path::Pos;

verus! {

#[derive(Clone, Copy, Debug)]
pub struct SpawnInfo {
    pub player_spawn: Pos,
}

/// The tile that a layout gives at column `x` of row `y`: `#` is wall, any
/// other character floor, and past the end of a short row wall.
pub open spec fn layout_tile(rows: Seq<&str>, x: int, y: int) -> TileType {
    if x < rows[y]@.len() && rows[y]@[x] != '#' {
        TileType::Floor
    } else {
        TileType::Wall
    }
}

/// `g` is the grid of `rows`, as wide as the first row.
pub open spec fn grid_of_layout(g: &Grid, rows: Seq<&str>) -> bool {
    &&& grid_wf(g)
    &&& height(g) == rows.len()
    &&& width(g) == rows[0]@.len()
    &&& forall|x: int, y: int|
        0 <= x < width(g) && 0 <= y < height(g) ==> (#[trigger] g@[y]@[x]).tile_type == layout_tile(rows, x, y)
}

/// Turns rows of text into a grid as wide as the first row.
pub fn grid_from_rows(rows: &Vec<&str>) -> (g: Grid)
    requires
        1 <= rows@.len() <= MAX_SIDE,
        1 <= rows@[0]@.len() <= MAX_SIDE,
    ensures
        grid_of_layout(&g, rows@),
{
    let w = rows[0].unicode_len();
    let mut g: Grid = Vec::new();
    let mut y: usize = 0;
    while y < rows.len()
        invariant
            w == rows@[0]@.len(),
            1 <= w <= MAX_SIDE,
            y <= rows@.len(),
            g@.len() == y,
            forall|r: int| 0 <= r < y ==> #[trigger] g@[r]@.len() == w,
            forall|x: int, r: int|
                0 <= x < w && 0 <= r < y ==> (#[trigger] g@[r]@[x]).tile_type == layout_tile(rows@, x, r),
        decreases rows@.len() - y,
    {
        let text: &str = rows[y];
        let len = text.unicode_len();
        let mut row: Vec<Tile> = Vec::new();
        let mut x: usize = 0;
        while x < w
            invariant
                w == rows@[0]@.len(),
                y < rows@.len(),
                text == rows@[y as int],
                len == text@.len(),
                x <= w,
                row@.len() == x,
                forall|c: int| 0 <= c < x ==> (#[trigger] row@[c]).tile_type == layout_tile(rows@, c, y as int),
            decreases w - x,
        {
            let t = if x < len && text.get_char(x) != '#' {
                TileType::Floor
            } else {
                TileType::Wall
            };
            row.push(Tile { tile_type: t });
            x = x + 1;
        }
        g.push(row);
        y = y + 1;
    }
    g
}

/// The rows of the first level's layout.
pub open spec fn level_one_rows() -> Seq<&'static str> {
    seq![
        "########################",
        "#..........#...........#",
        "#..######..#..#####....#",
        "#..#....#..#..#...#....#",
        "#..#....#......#...#..#",
        "#..##.###..######...#..#",
        "#..........#...........#",
        "######..########..######",
        "#..........#...........#",
        "#..#.####..#..#####....#",
        "#..#....#..#..#...#....#",
        "#..#....#......#...#..#",
        "#..######..######...#..#",
        "#..........#...........#",
        "########################",
    ]
}

/// The rows of the second level's layout.
pub open spec fn level_two_rows() -> Seq<&'static str> {
    seq![
        "########################",
        "#..........#..........#",
        "#..######..#..######...#",
        "#..#....#..#..#....#..#",
        "#..#....#......#....#.#",
        "#..######..######....#.#",
        "#..........#..........#",
        "######..########..######",
        "#..........#..........#",
        "#..######..#..#.####...#",
        "#..#....#..#..#....#..#",
        "#..#....#......#....#.#",
        "#..######..######....#.#",
        "#..........#..........#",
        "########################",
    ]
}

/// The grid is 24 tiles wide and 15 high, and the player's spawn is floor.
pub open spec fn level_shape(r: (Grid, SpawnInfo)) -> bool {
    &&& grid_wf(&r.0)
    &&& width(&r.0) == 24
    &&& height(&r.0) == 15
    &&& r.1.player_spawn == (1usize, 1usize)
    &&& floor_at(&r.0, 1, 1)
}

pub fn load_level_1() -> (r: (Grid, SpawnInfo))
    ensures
        level_shape(r),
        grid_of_layout(&r.0, level_one_rows()),
{
    let rows: Vec<&str> = vec![
        "########################",
        "#..........#...........#",
        "#..######..#..#####....#",
        "#..#....#..#..#...#....#",
        "#..#....#......#...#..#",
        "#..##.###..######...#..#",
        "#..........#...........#",
        "######..########..######",
        "#..........#...........#",
        "#..#.####..#..#####....#",
        "#..#....#..#..#...#....#",
        "#..#....#......#...#..#",
        "#..######..######...#..#",
        "#..........#...........#",
        "########################",
    ];
    proof {
        reveal_strlit("########################");
        reveal_strlit("#..........#...........#");
    }
    assert(rows@ =~= level_one_rows());
    let grid = grid_from_rows(&rows);
    assert(grid@[1]@[1].tile_type == layout_tile(rows@, 1, 1));
    (grid, SpawnInfo { player_spawn: (1, 1) })
}

pub fn load_level_2() -> (r: (Grid, SpawnInfo))
    ensures
        level_shape(r),
        grid_of_layout(&r.0, level_two_rows()),
{
    let rows: Vec<&str> = vec![
        "########################",
        "#..........#..........#",
        "#..######..#..######...#",
        "#..#....#..#..#....#..#",
        "#..#....#......#....#.#",
        "#..######..######....#.#",
        "#..........#..........#",
        "######..########..######",
        "#..........#..........#",
        "#..######..#..#.####...#",
        "#..#....#..#..#....#..#",
        "#..#....#......#....#.#",
        "#..######..######....#.#",
        "#..........#..........#",
        "########################",
    ];
    proof {
        reveal_strlit("########################");
        reveal_strlit("#..........#..........#");
    }
    assert(rows@ =~= level_two_rows());
    let grid = grid_from_rows(&rows);
    assert(grid@[1]@[1].tile_type == layout_tile(rows@, 1, 1));
    (grid, SpawnInfo { player_spawn: (1, 1) })
}

/// The layout of the given level: the second for 2, the first otherwise.
pub fn load_level_by_index(level: u32) -> (r: (Grid, SpawnInfo))
    ensures
        level_shape(r),
        level == 2 ==> grid_of_layout(&r.0, level_two_rows()),
        level != 2 ==> grid_of_layout(&r.0, level_one_rows()),
{
    match level {
        2 => load_level_2(),
        _ => load_level_1(),
    }
}

} // verus!
