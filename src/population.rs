//! The enemies of a level as a group: placing them, counting them, and
//! alerting them when one of them falls.

use vstd::prelude::*;
use crate::tile::{Grid, TILE_UNITS, WORLD_LIMIT, MAX_SIDE, grid_wf, in_grid, floor_at, width, height, spawn_clear, tile_is_floor, is_spawn_position_valid};
use crate::path::{Pos, reachable, compute_reachable};
use crate::enemy::{Enemy, EnemyState, PatrolRoll, ENEMY_SIZE, ALERT_TICKS, GRACE_TICKS};
use crate::boss::{Boss, BOSS_SPRITE};

verus! {

/// Enemies within 220 pixels of a fallen one are alerted.
pub const ALERT_RADIUS: i64 = 22000;

/// Enemies placed on a level.
pub const ENEMY_COUNT: usize = 5;

pub open spec fn near(e: Enemy, x: int, y: int) -> bool {
    (e.x - x) * (e.x - x) + (e.y - y) * (e.y - y) <= ALERT_RADIUS * ALERT_RADIUS
}

/// `n` is `o` alerted towards `(x, y)`.
pub open spec fn alerted(o: Enemy, n: Enemy, x: int, y: int) -> bool {
    &&& n.wf()
    &&& n.alive
    &&& n.state == EnemyState::Chasing
    &&& n.alerted_timer == ALERT_TICKS
    &&& n.see_through_walls_timer == GRACE_TICKS
    &&& n.x == o.x
    &&& n.y == o.y
    &&& (x - o.x != 0 || y - o.y != 0) ==> n.facing_x == x - o.x && n.facing_y == y - o.y
    &&& (x - o.x == 0 && y - o.y == 0) ==> n.facing_x == 1 && n.facing_y == 0
}

pub open spec fn all_wf(es: Seq<Enemy>) -> bool {
    forall|i: int| 0 <= i < es.len() ==> (#[trigger] es[i]).wf()
}

/// Alerts every live enemy within `ALERT_RADIUS` of `(x, y)` towards that point.
pub fn alert_nearby(enemies: &mut Vec<Enemy>, x: i64, y: i64)
    requires
        all_wf(old(enemies)@),
        -WORLD_LIMIT <= x <= WORLD_LIMIT,
        -WORLD_LIMIT <= y <= WORLD_LIMIT,
    ensures
        all_wf(final(enemies)@),
        final(enemies)@.len() == old(enemies)@.len(),
        forall|i: int|
            0 <= i < old(enemies)@.len() ==> {
                &&& (old(enemies)@[i].alive && near(old(enemies)@[i], x as int, y as int)) ==> alerted(
                    old(enemies)@[i],
                    #[trigger] final(enemies)@[i],
                    x as int,
                    y as int,
                )
                &&& !(old(enemies)@[i].alive && near(old(enemies)@[i], x as int, y as int)) ==> final(enemies)@[i]
                    == old(enemies)@[i]
            },
{
    let ghost o = enemies@;
    let mut i: usize = 0;
    while i < enemies.len()
        invariant
            -WORLD_LIMIT <= x <= WORLD_LIMIT,
            -WORLD_LIMIT <= y <= WORLD_LIMIT,
            enemies@.len() == o.len(),
            0 <= i <= o.len(),
            all_wf(enemies@),
            forall|j: int| i <= j < o.len() ==> #[trigger] enemies@[j] == o[j],
            forall|j: int|
                0 <= j < i ==> {
                    &&& (o[j].alive && near(o[j], x as int, y as int)) ==> alerted(o[j], #[trigger] enemies@[j], x as int, y as int)
                    &&& !(o[j].alive && near(o[j], x as int, y as int)) ==> enemies@[j] == o[j]
                },
        decreases o.len() - i,
    {
        assert(enemies@[i as int].wf());
        let dx = enemies[i].x - x;
        let dy = enemies[i].y - y;
        proof {
            let l = 2 * WORLD_LIMIT;
            assert(0 <= dx * dx <= l * l) by (nonlinear_arith)
                requires
                    -l <= dx <= l,
            ;
            assert(0 <= dy * dy <= l * l) by (nonlinear_arith)
                requires
                    -l <= dy <= l,
            ;
        }
        if enemies[i].alive && dx * dx + dy * dy <= ALERT_RADIUS * ALERT_RADIUS {
            let ghost before = enemies@;
            enemies[i].alert(x, y);
            proof {
                assert forall|j: int| 0 <= j < enemies@.len() && j != i implies #[trigger] enemies@[j] == before[j] by {}
            }
        }
        i = i + 1;
    }
}

/// The index of the last point of `pts` within `ALERT_RADIUS` of `e`, or -1.
pub open spec fn last_near(e: Enemy, pts: Seq<(i64, i64)>) -> int
    decreases pts.len(),
{
    if pts.len() == 0 {
        -1
    } else if near(e, pts.last().0 as int, pts.last().1 as int) {
        pts.len() - 1
    } else {
        last_near(e, pts.drop_last())
    }
}

proof fn lemma_last_near_bounds(e: Enemy, pts: Seq<(i64, i64)>)
    ensures
        -1 <= last_near(e, pts) < pts.len(),
    decreases pts.len(),
{
    if pts.len() > 0 {
        lemma_last_near_bounds(e, pts.drop_last());
    }
}

/// What the alerts around `pts`, applied in order, leave of enemy `o`: a
/// live one near any of them is alerted towards the last such point; any
/// other is as it was.
pub open spec fn drained(o: Enemy, n: Enemy, pts: Seq<(i64, i64)>) -> bool {
    let k = last_near(o, pts);
    &&& (o.alive && k >= 0) ==> alerted(o, n, pts[k].0 as int, pts[k].1 as int)
    &&& !(o.alive && k >= 0) ==> n == o
}

/// Applies, in order, the alerts gathered during a tick: one around each
/// point where an enemy fell.
pub fn drain_alerts(enemies: &mut Vec<Enemy>, pts: &Vec<(i64, i64)>)
    requires
        all_wf(old(enemies)@),
        forall|k: int|
            0 <= k < pts@.len() ==> -WORLD_LIMIT <= (#[trigger] pts@[k]).0 <= WORLD_LIMIT && -WORLD_LIMIT <= pts@[k].1
                <= WORLD_LIMIT,
    ensures
        all_wf(final(enemies)@),
        final(enemies)@.len() == old(enemies)@.len(),
        forall|i: int| 0 <= i < old(enemies)@.len() ==> drained(old(enemies)@[i], #[trigger] final(enemies)@[i], pts@),
{
    let ghost o = enemies@;
    let mut k: usize = 0;
    assert forall|i: int| 0 <= i < o.len() implies drained(o[i], #[trigger] enemies@[i], pts@.subrange(0, 0)) by {
        assert(pts@.subrange(0, 0).len() == 0);
    }
    while k < pts.len()
        invariant
            forall|j: int|
                0 <= j < pts@.len() ==> -WORLD_LIMIT <= (#[trigger] pts@[j]).0 <= WORLD_LIMIT && -WORLD_LIMIT <= pts@[j].1
                    <= WORLD_LIMIT,
            0 <= k <= pts@.len(),
            enemies@.len() == o.len(),
            all_wf(enemies@),
            forall|i: int| 0 <= i < o.len() ==> drained(o[i], #[trigger] enemies@[i], pts@.subrange(0, k as int)),
        decreases pts@.len() - k,
    {
        let (x, y) = pts[k];
        let ghost before = enemies@;
        alert_nearby(enemies, x, y);
        proof {
            let s0 = pts@.subrange(0, k as int);
            let s1 = pts@.subrange(0, k + 1);
            assert(s1.drop_last() =~= s0);
            assert(s1.last() == (x, y));
            assert forall|i: int| 0 <= i < o.len() implies drained(o[i], #[trigger] enemies@[i], s1) by {
                lemma_last_near_bounds(o[i], s0);
                assert(drained(o[i], before[i], s0));
                let j0 = last_near(o[i], s0);
                if j0 >= 0 {
                    assert(s1[j0] == s0[j0]);
                }
            }
        }
        k = k + 1;
    }
    assert(pts@.subrange(0, k as int) =~= pts@);
}

/// Alerts every live enemy towards `(x, y)`.
pub fn alert_all(enemies: &mut Vec<Enemy>, x: i64, y: i64)
    requires
        all_wf(old(enemies)@),
        -WORLD_LIMIT <= x <= WORLD_LIMIT,
        -WORLD_LIMIT <= y <= WORLD_LIMIT,
    ensures
        all_wf(final(enemies)@),
        final(enemies)@.len() == old(enemies)@.len(),
        forall|i: int|
            0 <= i < old(enemies)@.len() ==> {
                &&& old(enemies)@[i].alive ==> alerted(old(enemies)@[i], #[trigger] final(enemies)@[i], x as int, y as int)
                &&& !old(enemies)@[i].alive ==> final(enemies)@[i] == old(enemies)@[i]
            },
{
    let ghost o = enemies@;
    let mut i: usize = 0;
    while i < enemies.len()
        invariant
            -WORLD_LIMIT <= x <= WORLD_LIMIT,
            -WORLD_LIMIT <= y <= WORLD_LIMIT,
            enemies@.len() == o.len(),
            0 <= i <= o.len(),
            all_wf(enemies@),
            forall|j: int| i <= j < o.len() ==> #[trigger] enemies@[j] == o[j],
            forall|j: int|
                0 <= j < i ==> {
                    &&& o[j].alive ==> alerted(o[j], #[trigger] enemies@[j], x as int, y as int)
                    &&& !o[j].alive ==> enemies@[j] == o[j]
                },
        decreases o.len() - i,
    {
        assert(enemies@[i as int].wf());
        if enemies[i].alive {
            let ghost before = enemies@;
            enemies[i].alert(x, y);
            proof {
                assert forall|j: int| 0 <= j < enemies@.len() && j != i implies #[trigger] enemies@[j] == before[j] by {}
            }
        }
        i = i + 1;
    }
}

pub open spec fn alive_count(es: Seq<Enemy>) -> nat
    decreases es.len(),
{
    if es.len() == 0 {
        0
    } else {
        alive_count(es.drop_last()) + if es.last().alive { 1nat } else { 0nat }
    }
}

/// How many enemies are still alive.
pub fn snowmen_left(enemies: &Vec<Enemy>) -> (r: usize)
    ensures
        r == alive_count(enemies@),
{
    let mut n: usize = 0;
    let mut i: usize = 0;
    while i < enemies.len()
        invariant
            0 <= i <= enemies@.len(),
            n == alive_count(enemies@.subrange(0, i as int)),
            n <= i,
        decreases enemies@.len() - i,
    {
        assert(enemies@.subrange(0, (i + 1) as int).drop_last() =~= enemies@.subrange(0, i as int));
        if enemies[i].alive {
            n = n + 1;
        }
        i = i + 1;
    }
    assert(enemies@.subrange(0, i as int) =~= enemies@);
    n
}


/// Tile `t` comes before tile `u`, row by row.
pub open spec fn row_major_before(t: Pos, u: Pos) -> bool {
    t.1 < u.1 || (t.1 == u.1 && t.0 < u.0)
}

/// `r` lists, row by row and each once, exactly the tiles of the grid with `keep`.
pub open spec fn lists_tiles(g: &Grid, r: Seq<Pos>, keep: spec_fn(Pos) -> bool) -> bool {
    &&& forall|k: int| 0 <= k < r.len() ==> in_grid(g, (#[trigger] r[k]).0 as int, r[k].1 as int) && keep(r[k])
    &&& forall|k: int, j: int| 0 <= k < j < r.len() ==> #[trigger] row_major_before(r[k], r[j])
    &&& forall|x: usize, y: usize| in_grid(g, x as int, y as int) && #[trigger] keep((x, y)) ==> exists|k: int| 0 <= k < r.len() && r[k] == (x, y)
}

/// Lists, row by row, the tiles of the grid for which `test` holds.
fn collect_tiles(g: &Grid, Ghost(keep): Ghost<spec_fn(Pos) -> bool>, test: impl Fn(usize, usize) -> bool) -> (r: Vec<Pos>)
    requires
        grid_wf(g),
        forall|x: usize, y: usize| in_grid(g, x as int, y as int) ==> #[trigger] test.requires((x, y)),
        forall|x: usize, y: usize, b: bool| in_grid(g, x as int, y as int) && #[trigger] test.ensures((x, y), b) ==> b == keep((x, y)),
    ensures
        lists_tiles(g, r@, keep),
{
    let h = g.len();
    let w = g[0].len();
    let mut r: Vec<Pos> = Vec::new();
    let mut ty: usize = 0;
    while ty < h
        invariant
            grid_wf(g),
            h == height(g),
            w == width(g),
            ty <= h,
            forall|x: usize, y: usize| in_grid(g, x as int, y as int) ==> #[trigger] test.requires((x, y)),
            forall|x: usize, y: usize, b: bool| in_grid(g, x as int, y as int) && #[trigger] test.ensures((x, y), b) ==> b == keep((x, y)),
            forall|k: int| 0 <= k < r@.len() ==> in_grid(g, (#[trigger] r@[k]).0 as int, r@[k].1 as int) && keep(r@[k]) && r@[k].1 < ty,
            forall|k: int, j: int| 0 <= k < j < r@.len() ==> #[trigger] row_major_before(r@[k], r@[j]),
            forall|x: usize, y: usize| in_grid(g, x as int, y as int) && y < ty && #[trigger] keep((x, y)) ==> exists|k: int| 0 <= k < r@.len() && r@[k] == (x, y),
        decreases h - ty,
    {
        let mut tx: usize = 0;
        while tx < w
            invariant
                grid_wf(g),
                h == height(g),
                w == width(g),
                ty < h,
                tx <= w,
                forall|x: usize, y: usize| in_grid(g, x as int, y as int) ==> #[trigger] test.requires((x, y)),
                forall|x: usize, y: usize, b: bool| in_grid(g, x as int, y as int) && #[trigger] test.ensures((x, y), b) ==> b == keep((x, y)),
                forall|k: int| 0 <= k < r@.len() ==> in_grid(g, (#[trigger] r@[k]).0 as int, r@[k].1 as int) && keep(r@[k])
                    && (r@[k].1 < ty || (r@[k].1 == ty && r@[k].0 < tx)),
                forall|k: int, j: int| 0 <= k < j < r@.len() ==> #[trigger] row_major_before(r@[k], r@[j]),
                forall|x: usize, y: usize| in_grid(g, x as int, y as int) && (y < ty || (y == ty && x < tx)) && #[trigger] keep((x, y))
                    ==> exists|k: int| 0 <= k < r@.len() && r@[k] == (x, y),
            decreases w - tx,
        {
            if test(tx, ty) {
                let ghost r0 = r@;
                r.push((tx, ty));
                proof {
                    assert forall|x: usize, y: usize| in_grid(g, x as int, y as int) && (y < ty || (y == ty && x < tx + 1)) && #[trigger] keep((x, y))
                        implies exists|k: int| 0 <= k < r@.len() && r@[k] == (x, y) by {
                        if x == tx && y == ty {
                            assert(r@[r0.len() as int] == (x, y));
                        } else {
                            let k = choose|k: int| 0 <= k < r0.len() && r0[k] == (x, y);
                            assert(r@[k] == (x, y));
                        }
                    }
                    assert forall|k: int, j: int| 0 <= k < j < r@.len() implies #[trigger] row_major_before(r@[k], r@[j]) by {
                        if j < r0.len() {
                            assert(row_major_before(r0[k], r0[j]));
                        }
                    }
                }
            }
            tx = tx + 1;
        }
        ty = ty + 1;
    }
    r
}

/// Whether tile `(tx, ty)` is floor with floor on all four sides.
pub open spec fn open_at(g: &Grid, tx: int, ty: int) -> bool {
    &&& floor_at(g, tx, ty)
    &&& floor_at(g, tx - 1, ty)
    &&& floor_at(g, tx + 1, ty)
    &&& floor_at(g, tx, ty - 1)
    &&& floor_at(g, tx, ty + 1)
}

/// Whether tile `(tx, ty)` is an inner floor tile with floor on all four sides.
pub fn is_open_path(g: &Grid, tx: usize, ty: usize) -> (r: bool)
    requires
        grid_wf(g),
    ensures
        r == open_at(g, tx as int, ty as int),
{
    let h = g.len();
    let w = g[0].len();
    if tx == 0 || ty == 0 || tx >= w - 1 || ty >= h - 1 {
        return false;
    }
    tile_is_floor(g, tx, ty) && tile_is_floor(g, tx, ty - 1) && tile_is_floor(g, tx, ty + 1) && tile_is_floor(g, tx - 1, ty)
        && tile_is_floor(g, tx + 1, ty)
}

/// The inner floor tiles with floor on all four sides, row by row: where
/// pickups may be placed.
pub fn gift_tiles(g: &Grid) -> (r: Vec<Pos>)
    requires
        grid_wf(g),
    ensures
        lists_tiles(g, r@, |t: Pos| open_at(g, t.0 as int, t.1 as int)),
{
    let ghost keep = |t: Pos| open_at(g, t.0 as int, t.1 as int);
    collect_tiles(g, Ghost(keep), |x: usize, y: usize| -> (b: bool)
        requires
            grid_wf(g),
        ensures
            b == open_at(g, x as int, y as int),
        { is_open_path(g, x, y) })
}

/// The floor tiles that some walk from `start` reaches, row by row: where
/// enemies may be placed.
pub fn spawn_candidates(g: &Grid, start: Pos) -> (r: Vec<Pos>)
    requires
        grid_wf(g),
        in_grid(g, start.0 as int, start.1 as int),
    ensures
        lists_tiles(g, r@, |t: Pos| floor_at(g, t.0 as int, t.1 as int) && reachable(g, start, t)),
{
    let reach = compute_reachable(g, start);
    let ghost keep = |t: Pos| floor_at(g, t.0 as int, t.1 as int) && reachable(g, start, t);
    collect_tiles(g, Ghost(keep), |x: usize, y: usize| -> (b: bool)
        requires
            in_grid(g, x as int, y as int),
        ensures
            b == (floor_at(g, x as int, y as int) && reachable(g, start, (x, y))),
        { tile_is_floor(g, x, y) && reach[y][x] })
}

/// The corners of the floor tiles where the boss fits, row by row.
pub fn boss_spawn_points(g: &Grid) -> (r: Vec<Pos>)
    requires
        grid_wf(g),
    ensures
        lists_tiles(g, r@, |t: Pos| crate::tile::spawn_fits(g, t.0 as int, t.1 as int, BOSS_SPRITE as int)),
{
    let ghost keep = |t: Pos| crate::tile::spawn_fits(g, t.0 as int, t.1 as int, BOSS_SPRITE as int);
    collect_tiles(g, Ghost(keep), |x: usize, y: usize| -> (b: bool)
        requires
            grid_wf(g),
            in_grid(g, x as int, y as int),
        ensures
            b == crate::tile::spawn_fits(g, x as int, y as int, BOSS_SPRITE as int),
        {
            if !tile_is_floor(g, x, y) {
                return false;
            }
            is_spawn_position_valid(g, x as i64 * TILE_UNITS, y as i64 * TILE_UNITS, BOSS_SPRITE)
        })
}


/// An enemy fits with its corner at the corner of tile `t`.
pub open spec fn enemy_fits(g: &Grid, t: Pos) -> bool {
    spawn_clear(g, t.0 * TILE_UNITS, t.1 * TILE_UNITS, ENEMY_SIZE as int)
}

/// The tiles of `s` where an enemy fits, in order.
pub open spec fn fitting(g: &Grid, s: Seq<Pos>) -> Seq<Pos>
    decreases s.len(),
{
    if s.len() == 0 {
        Seq::empty()
    } else {
        let v = fitting(g, s.drop_last());
        if enemy_fits(g, s.last()) {
            v.push(s.last())
        } else {
            v
        }
    }
}

proof fn lemma_fitting_prefix(g: &Grid, s: Seq<Pos>, i: int)
    requires
        0 <= i <= s.len(),
    ensures
        fitting(g, s.subrange(0, i)).len() <= fitting(g, s).len(),
        forall|k: int| 0 <= k < fitting(g, s.subrange(0, i)).len() ==> #[trigger] fitting(g, s.subrange(0, i))[k] == fitting(g, s)[k],
    decreases s.len(),
{
    if i == s.len() {
        assert(s.subrange(0, i) =~= s);
    } else {
        assert(s.drop_last().subrange(0, i) =~= s.subrange(0, i));
        lemma_fitting_prefix(g, s.drop_last(), i);
    }
}

/// Places up to `ENEMY_COUNT` enemies, in the order of `order`, on the tiles
/// where they fit; the `k`-th placed takes `rolls[k]`.
pub fn place_enemies(g: &Grid, order: &Vec<Pos>, rolls: &Vec<PatrolRoll>) -> (r: Vec<Enemy>)
    requires
        grid_wf(g),
        forall|k: int| 0 <= k < order@.len() ==> (#[trigger] order@[k]).0 < MAX_SIDE && order@[k].1 < MAX_SIDE,
        rolls@.len() >= ENEMY_COUNT,
        forall|k: int| 0 <= k < rolls@.len() ==> (#[trigger] rolls@[k]).wf(),
    ensures
        r@.len() == if fitting(g, order@).len() < ENEMY_COUNT { fitting(g, order@).len() } else { ENEMY_COUNT as nat },
        all_wf(r@),
        forall|k: int|
            0 <= k < r@.len() ==> {
                &&& (#[trigger] r@[k]).x == fitting(g, order@)[k].0 * TILE_UNITS
                &&& r@[k].y == fitting(g, order@)[k].1 * TILE_UNITS
                &&& r@[k].alive
                &&& r@[k].state == EnemyState::Idle
                &&& r@[k].patrol_x == rolls@[k].heading_x
                &&& r@[k].patrol_y == rolls@[k].heading_y
                &&& r@[k].patrol_timer == rolls@[k].ticks
            },
{
    let mut r: Vec<Enemy> = Vec::new();
    let mut i: usize = 0;
    while i < order.len() && r.len() < ENEMY_COUNT
        invariant
            grid_wf(g),
            0 <= i <= order@.len(),
            forall|k: int| 0 <= k < order@.len() ==> (#[trigger] order@[k]).0 < MAX_SIDE && order@[k].1 < MAX_SIDE,
            rolls@.len() >= ENEMY_COUNT,
            forall|k: int| 0 <= k < rolls@.len() ==> (#[trigger] rolls@[k]).wf(),
            r@.len() == fitting(g, order@.subrange(0, i as int)).len(),
            r@.len() <= ENEMY_COUNT,
            all_wf(r@),
            forall|k: int|
                0 <= k < r@.len() ==> {
                    &&& (#[trigger] r@[k]).x == fitting(g, order@.subrange(0, i as int))[k].0 * TILE_UNITS
                    &&& r@[k].y == fitting(g, order@.subrange(0, i as int))[k].1 * TILE_UNITS
                    &&& r@[k].alive
                    &&& r@[k].state == EnemyState::Idle
                    &&& r@[k].patrol_x == rolls@[k].heading_x
                    &&& r@[k].patrol_y == rolls@[k].heading_y
                    &&& r@[k].patrol_timer == rolls@[k].ticks
                },
        decreases order@.len() - i,
    {
        let t = order[i];
        let ghost before = order@.subrange(0, i as int);
        let ghost after = order@.subrange(0, i + 1);
        assert(after.drop_last() =~= before);
        assert(after.last() == t);
        let x = t.0 as i64 * TILE_UNITS;
        let y = t.1 as i64 * TILE_UNITS;
        if is_spawn_position_valid(g, x, y, ENEMY_SIZE) {
            let roll = rolls[r.len()];
            let ghost r0 = r@;
            let e = Enemy::new(x, y, roll);
            r.push(e);
            proof {
                assert forall|k: int| 0 <= k < r@.len() implies (#[trigger] r@[k]).wf() by {
                    if k < r0.len() {
                        assert(r@[k] == r0[k]);
                    }
                }
                assert forall|k: int| 0 <= k < r0.len() implies (#[trigger] r@[k]) == r0[k] && fitting(g, after)[k] == fitting(g, before)[k] by {}
            }
        }
        i = i + 1;
    }
    proof {
        lemma_fitting_prefix(g, order@, i as int);
        if i == order@.len() {
            assert(order@.subrange(0, i as int) =~= order@);
        }
    }
    r
}


/// What a level asks of the game once its agents have acted.
#[derive(Clone, Copy, Debug, PartialEq, Eq, Structural)]
pub enum LevelAction {
    Continue,
    SpawnBoss,
    Advance,
}

/// Level progression: with a boss present, the level ends when its death
/// animation has finished; without one, once every enemy is down, an even
/// level brings on its boss and an odd one ends.
pub fn level_progress(level: u32, boss: &Option<Boss>, enemies: &Vec<Enemy>) -> (r: LevelAction)
    ensures
        boss matches Some(b) ==> r == if b.finished() { LevelAction::Advance } else { LevelAction::Continue },
        boss is None ==> r == if alive_count(enemies@) > 0 {
            LevelAction::Continue
        } else if level % 2 == 0 {
            LevelAction::SpawnBoss
        } else {
            LevelAction::Advance
        },
{
    match boss {
        Some(b) => {
            if b.is_death_animation_finished() {
                LevelAction::Advance
            } else {
                LevelAction::Continue
            }
        },
        None => {
            if snowmen_left(enemies) > 0 {
                LevelAction::Continue
            } else if level % 2 == 0 {
                LevelAction::SpawnBoss
            } else {
                LevelAction::Advance
            }
        },
    }
}

} // verus!
