//! The patrolling enemy: Idle (patrol) and Chasing, driven once per tick.

use vstd::prelude::*;
use crate::tile::{Grid, MAX_SIDE, TILE_UNITS, WORLD_LIMIT, grid_wf, floor_at, wall_at_point, tile_coord, is_wall, world_to_tile};
use crate::bounds::Bounds;
use crate::path::{Pos, reachable, is_shortest, find_path};
use crate::perception::{sees, sees_loosely, in_cone, sq_len, can_see, can_see_ignoring_walls, within_cone, FACING_LIMIT};
use crate::motion::{stride, step_to, DIR_LIMIT};

verus! {

/// Half the side of an enemy's sprite: its centre lies this far right of and below its corner.
pub const ENEMY_HALF: i64 = 1600;

/// Side of an enemy's hitbox.
pub const ENEMY_SIZE: i64 = 3200;

/// Patrol speed: 0.6 pixels a tick.
pub const PATROL_SPEED: i64 = 60;

/// Chase speed: 1.6 pixels a tick.
pub const CHASE_SPEED: i64 = 160;

/// A waypoint counts as reached within 4 pixels of its tile's centre.
pub const WAYPOINT_TOLERANCE: i64 = 400;

/// Shots reach 120 pixels.
pub const SHOOT_RANGE: i64 = 12000;

pub const SHOOT_COOLDOWN: u32 = 45;

/// Ticks for which sight is kept after the target slips behind cover.
pub const GRACE_TICKS: u32 = 180;

/// Ticks for which an alert forces the chase.
pub const ALERT_TICKS: u32 = 180;

/// Ticks between two path searches while chasing.
pub const REPATH_TICKS: u32 = 30;

#[derive(Clone, Copy, Debug, PartialEq, Eq, Structural)]
pub enum EnemyState {
    Idle,
    Chasing,
}

/// A random draw for patrolling, made by the caller: a heading, and the
/// number of ticks until the next draw.
#[derive(Clone, Copy, Debug)]
pub struct PatrolRoll {
    pub heading_x: i64,
    pub heading_y: i64,
    pub ticks: u32,
}

impl PatrolRoll {
    pub open spec fn wf(&self) -> bool {
        &&& -DIR_LIMIT <= self.heading_x <= DIR_LIMIT
        &&& -DIR_LIMIT <= self.heading_y <= DIR_LIMIT
        &&& (self.heading_x != 0 || self.heading_y != 0)
    }
}

pub struct Enemy {
    pub x: i64,
    pub y: i64,
    pub hitbox: Bounds,
    pub state: EnemyState,
    pub alive: bool,
    pub shoot_cooldown: u32,
    /// The direction the enemy looks in.
    pub facing_x: i64,
    pub facing_y: i64,
    /// The heading it patrols along.
    pub patrol_x: i64,
    pub patrol_y: i64,
    pub patrol_timer: u32,
    /// While non-zero, sight ignores walls.
    pub see_through_walls_timer: u32,
    /// Whether the enemy saw the target, walls included, on its last look.
    pub saw_target: bool,
    /// While non-zero, the enemy chases whatever it sees.
    pub alerted_timer: u32,
    pub path: Vec<Pos>,
    pub path_index: usize,
    pub repath_timer: u32,
}

/// A tick counter after one tick: one less, but not below zero.
pub open spec fn dec(t: u32) -> u32 {
    if t > 0 {
        (t - 1) as u32
    } else {
        0
    }
}

/// The centre of tile `t`, in world units.
pub open spec fn tile_center(t: Pos) -> (int, int) {
    (t.0 * TILE_UNITS + TILE_UNITS / 2, t.1 * TILE_UNITS + TILE_UNITS / 2)
}

/// Moving an enemy at `(x, y)` by `sx`, then by `sy`, each only when its
/// centre does not land on a wall: the new corner, and whether either move
/// was blocked.
pub open spec fn slide(g: &Grid, x: int, y: int, sx: int, sy: int) -> (int, int, bool) {
    let bx = wall_at_point(g, x + sx + ENEMY_HALF, y + ENEMY_HALF);
    let nx = if bx { x } else { x + sx };
    let by = wall_at_point(g, nx + ENEMY_HALF, y + sy + ENEMY_HALF);
    let ny = if by { y } else { y + sy };
    (nx, ny, bx || by)
}

/// One tick of following `path` from index `i` at `(x, y)` facing `f`: on
/// reaching the waypoint's centre, the index advances; otherwise the enemy
/// steps towards it and faces it. Index, corner and facing afterwards.
pub open spec fn follow(g: &Grid, path: Seq<Pos>, i: int, x: int, y: int, f: (i64, i64)) -> (int, int, int, (i64, i64)) {
    if 0 <= i < path.len() {
        let c = tile_center(path[i]);
        let dx = c.0 - (x + ENEMY_HALF);
        let dy = c.1 - (y + ENEMY_HALF);
        if sq_len(dx, dy) < WAYPOINT_TOLERANCE * WAYPOINT_TOLERANCE {
            (i + 1, x, y, f)
        } else {
            let s = stride(dx, dy, CHASE_SPEED as int);
            let m = slide(g, x, y, s.0, s.1);
            (i, m.0, m.1, (dx as i64, dy as i64))
        }
    } else {
        (i, x, y, f)
    }
}

/// The enemy once the tick's counters have run down and any alert has forced the chase.
pub open spec fn after_timers(o: Enemy) -> Enemy {
    Enemy {
        see_through_walls_timer: dec(o.see_through_walls_timer),
        shoot_cooldown: dec(o.shoot_cooldown),
        alerted_timer: dec(o.alerted_timer),
        state: if o.alerted_timer > 0 { EnemyState::Chasing } else { o.state },
        ..o
    }
}

/// An Idle tick from `e`: on sight of the target the chase starts and
/// nothing moves; otherwise the enemy patrols, drawing a new heading from
/// `roll` when its patrol timer runs out or a wall blocks it.
pub open spec fn idle_post(e: Enemy, n: Enemy, g: &Grid, tx: int, ty: int, roll: PatrolRoll, r: bool) -> bool {
    &&& !r
    &&& n.alive == e.alive
    &&& n.alerted_timer == e.alerted_timer
    &&& n.see_through_walls_timer == e.see_through_walls_timer
    &&& n.saw_target == e.sees_target(g, tx, ty)
    &&& n.shoot_cooldown == e.shoot_cooldown
    &&& n.path@ == e.path@
    &&& n.path_index == e.path_index
    &&& n.repath_timer == e.repath_timer
    &&& if e.sees_target(g, tx, ty) {
        &&& n.state == EnemyState::Chasing
        &&& n.x == e.x
        &&& n.y == e.y
        &&& n.facing_x == e.facing_x
        &&& n.facing_y == e.facing_y
        &&& n.patrol_x == e.patrol_x
        &&& n.patrol_y == e.patrol_y
        &&& n.patrol_timer == e.patrol_timer
    } else {
        let s = stride(e.patrol_x as int, e.patrol_y as int, PATROL_SPEED as int);
        let m = slide(g, e.x as int, e.y as int, s.0, s.1);
        let t = dec(if m.2 { 0 } else { e.patrol_timer });
        &&& n.state == EnemyState::Idle
        &&& n.x == m.0
        &&& n.y == m.1
        &&& t == 0 ==> {
            &&& n.patrol_x == roll.heading_x
            &&& n.patrol_y == roll.heading_y
            &&& n.facing_x == roll.heading_x
            &&& n.facing_y == roll.heading_y
            &&& n.patrol_timer == roll.ticks
        }
        &&& t != 0 ==> {
            &&& n.patrol_x == e.patrol_x
            &&& n.patrol_y == e.patrol_y
            &&& n.facing_x == e.patrol_x
            &&& n.facing_y == e.patrol_y
            &&& n.patrol_timer == t
        }
    }
}

/// The tile under the centre of an enemy whose corner is at `(x, y)`.
pub open spec fn center_tile(x: int, y: int) -> Pos {
    (tile_coord(x + ENEMY_HALF) as usize, tile_coord(y + ENEMY_HALF) as usize)
}

/// A Chasing tick from `e`. Losing sight of the target, on the tick it is
/// lost, starts a grace period in which walls are ignored; once the grace has
/// run out sight is strict again; with sight lost and no alert, the enemy
/// turns Idle. Otherwise it searches a path to the target's tile when its repath
/// timer runs out or it has none (keeping the old one when no path exists),
/// follows it, and fires when the target is in front, in range, and its
/// gun is cool.
pub open spec fn chase_post(e: Enemy, n: Enemy, g: &Grid, tx: int, ty: int, r: bool) -> bool {
    let strict = e.sees_target(g, tx, ty);
    let grace = if e.saw_target && !strict { GRACE_TICKS } else { e.see_through_walls_timer };
    let seen = if grace > 0 { e.sees_target_loosely(tx, ty) } else { strict };
    &&& n.alive == e.alive
    &&& n.alerted_timer == e.alerted_timer
    &&& n.see_through_walls_timer == grace
    &&& n.saw_target == strict
    &&& n.patrol_x == e.patrol_x
    &&& n.patrol_y == e.patrol_y
    &&& n.patrol_timer == e.patrol_timer
    &&& if !seen && e.alerted_timer == 0 {
        &&& !r
        &&& n.state == EnemyState::Idle
        &&& n.x == e.x
        &&& n.y == e.y
        &&& n.facing_x == e.facing_x
        &&& n.facing_y == e.facing_y
        &&& n.shoot_cooldown == e.shoot_cooldown
        &&& n.path@ == e.path@
        &&& n.path_index == e.path_index
        &&& n.repath_timer == e.repath_timer
    } else {
        let rp = dec(e.repath_timer);
        let from = center_tile(e.x as int, e.y as int);
        let to = center_tile(tx, ty);
        let found = (rp == 0 || e.path@.len() == 0) && floor_at(g, to.0 as int, to.1 as int) && reachable(g, from, to);
        let i0 = if found { 0 } else { e.path_index as int };
        &&& n.state == EnemyState::Chasing
        &&& found ==> is_shortest(g, n.path@, from, to) && n.repath_timer == REPATH_TICKS
        &&& !found ==> n.path@ == e.path@ && n.repath_timer == rp
        &&& follow(g, n.path@, i0, e.x as int, e.y as int, (e.facing_x, e.facing_y)) == (
            n.path_index as int,
            n.x as int,
            n.y as int,
            (n.facing_x, n.facing_y),
        )
        &&& r == (n.can_shoot(tx, ty) && e.shoot_cooldown == 0)
        &&& n.shoot_cooldown == if r { SHOOT_COOLDOWN } else { e.shoot_cooldown }
    }
}

/// One tick of an enemy: a dead one does nothing; a live one runs its
/// counters down, then acts by its state; its hitbox follows it.
pub open spec fn tick_post(o: Enemy, n: Enemy, g: &Grid, tx: int, ty: int, roll: PatrolRoll, r: bool) -> bool {
    if !o.alive {
        n == o && !r
    } else {
        let e = after_timers(o);
        &&& n.hitbox == (Bounds { x: n.x, y: n.y, w: ENEMY_SIZE, h: ENEMY_SIZE })
        &&& e.state == EnemyState::Idle ==> idle_post(e, n, g, tx, ty, roll, r)
        &&& e.state == EnemyState::Chasing ==> chase_post(e, n, g, tx, ty, r)
    }
}

impl Enemy {
    pub open spec fn wf(&self) -> bool {
        &&& self.wf_body()
        &&& self.hitbox == (Bounds { x: self.x, y: self.y, w: ENEMY_SIZE, h: ENEMY_SIZE })
    }

    /// All of `wf` but the hitbox.
    pub open spec fn wf_body(&self) -> bool {
        &&& -WORLD_LIMIT <= self.x <= WORLD_LIMIT
        &&& -WORLD_LIMIT <= self.y <= WORLD_LIMIT
        &&& -FACING_LIMIT <= self.facing_x <= FACING_LIMIT
        &&& -FACING_LIMIT <= self.facing_y <= FACING_LIMIT
        &&& (self.facing_x != 0 || self.facing_y != 0)
        &&& -DIR_LIMIT <= self.patrol_x <= DIR_LIMIT
        &&& -DIR_LIMIT <= self.patrol_y <= DIR_LIMIT
        &&& (self.patrol_x != 0 || self.patrol_y != 0)
        &&& forall|k: int| 0 <= k < self.path@.len() ==> (#[trigger] self.path@[k]).0 < MAX_SIDE && self.path@[k].1 < MAX_SIDE
    }

    /// The enemy, from its centre along its facing, sees the target's centre.
    pub open spec fn sees_target(&self, g: &Grid, tx: int, ty: int) -> bool {
        sees(g, self.x + ENEMY_HALF, self.y + ENEMY_HALF, self.facing_x as int, self.facing_y as int, tx + ENEMY_HALF, ty + ENEMY_HALF)
    }

    pub open spec fn sees_target_loosely(&self, tx: int, ty: int) -> bool {
        sees_loosely(self.x + ENEMY_HALF, self.y + ENEMY_HALF, self.facing_x as int, self.facing_y as int, tx + ENEMY_HALF, ty + ENEMY_HALF)
    }

    /// The target is in front, within shooting range.
    pub open spec fn can_shoot(&self, tx: int, ty: int) -> bool {
        let dx = tx - self.x;
        let dy = ty - self.y;
        sq_len(dx, dy) < SHOOT_RANGE * SHOOT_RANGE && in_cone(self.facing_x as int, self.facing_y as int, dx, dy)
    }

    /// An enemy at `(x, y)`, idle, patrolling along the roll's heading.
    pub fn new(x: i64, y: i64, roll: PatrolRoll) -> (r: Enemy)
        requires
            -WORLD_LIMIT <= x <= WORLD_LIMIT,
            -WORLD_LIMIT <= y <= WORLD_LIMIT,
            roll.wf(),
        ensures
            r.wf(),
            r.x == x,
            r.y == y,
            r.state == EnemyState::Idle,
            r.alive,
            r.shoot_cooldown == 0,
            r.facing_x == roll.heading_x,
            r.facing_y == roll.heading_y,
            r.patrol_x == roll.heading_x,
            r.patrol_y == roll.heading_y,
            r.patrol_timer == roll.ticks,
            r.see_through_walls_timer == 0,
            !r.saw_target,
            r.alerted_timer == 0,
            r.path@.len() == 0,
            r.path_index == 0,
            r.repath_timer == 0,
    {
        Enemy {
            x,
            y,
            hitbox: Bounds::new(x, y, ENEMY_SIZE, ENEMY_SIZE),
            state: EnemyState::Idle,
            alive: true,
            shoot_cooldown: 0,
            facing_x: roll.heading_x,
            facing_y: roll.heading_y,
            patrol_x: roll.heading_x,
            patrol_y: roll.heading_y,
            patrol_timer: roll.ticks,
            see_through_walls_timer: 0,
            saw_target: false,
            alerted_timer: 0,
            path: Vec::new(),
            path_index: 0,
            repath_timer: 0,
        }
    }

    /// Forces the chase for `ALERT_TICKS`, turns towards `(tx, ty)`, and lets
    /// sight ignore walls for `GRACE_TICKS`. A dead enemy ignores alerts.
    pub fn alert(&mut self, tx: i64, ty: i64)
        requires
            old(self).wf(),
            -WORLD_LIMIT <= tx <= WORLD_LIMIT,
            -WORLD_LIMIT <= ty <= WORLD_LIMIT,
        ensures
            final(self).wf(),
            !old(self).alive ==> *final(self) == *old(self),
            old(self).alive ==> {
                &&& final(self).state == EnemyState::Chasing
                &&& final(self).alerted_timer == ALERT_TICKS
                &&& final(self).see_through_walls_timer == GRACE_TICKS
                &&& (tx - old(self).x != 0 || ty - old(self).y != 0) ==> final(self).facing_x == tx - old(self).x
                    && final(self).facing_y == ty - old(self).y
                &&& (tx - old(self).x == 0 && ty - old(self).y == 0) ==> final(self).facing_x == 1
                    && final(self).facing_y == 0
                &&& final(self).x == old(self).x
                &&& final(self).y == old(self).y
                &&& final(self).alive
                &&& final(self).path@ == old(self).path@
            },
    {
        if !self.alive {
            return;
        }
        self.state = EnemyState::Chasing;
        self.alerted_timer = ALERT_TICKS;
        let dx = tx - self.x;
        let dy = ty - self.y;
        if dx == 0 && dy == 0 {
            self.facing_x = 1;
            self.facing_y = 0;
        } else {
            self.facing_x = dx;
            self.facing_y = dy;
        }
        self.see_through_walls_timer = GRACE_TICKS;
    }

    /// Whether the enemy sees the target at `(tx, ty)`, walls included.
    pub fn can_see_player_strict(&self, tx: i64, ty: i64, g: &Grid) -> (r: bool)
        requires
            self.wf(),
            grid_wf(g),
            -WORLD_LIMIT <= tx <= WORLD_LIMIT,
            -WORLD_LIMIT <= ty <= WORLD_LIMIT,
        ensures
            r == self.sees_target(g, tx as int, ty as int),
    {
        can_see(g, self.x + ENEMY_HALF, self.y + ENEMY_HALF, self.facing_x, self.facing_y, tx + ENEMY_HALF, ty + ENEMY_HALF)
    }

    /// Whether the enemy would see the target at `(tx, ty)` were there no walls.
    pub fn can_see_player_ignore_walls(&self, tx: i64, ty: i64) -> (r: bool)
        requires
            self.wf(),
            -WORLD_LIMIT <= tx <= WORLD_LIMIT,
            -WORLD_LIMIT <= ty <= WORLD_LIMIT,
        ensures
            r == self.sees_target_loosely(tx as int, ty as int),
    {
        can_see_ignoring_walls(self.x + ENEMY_HALF, self.y + ENEMY_HALF, self.facing_x, self.facing_y, tx + ENEMY_HALF, ty + ENEMY_HALF)
    }

    /// One tick of following the cached path.
    fn follow_path(&mut self, g: &Grid)
        requires
            old(self).wf(),
            grid_wf(g),
        ensures
            follow(g, old(self).path@, old(self).path_index as int, old(self).x as int, old(self).y as int, (old(self).facing_x, old(self).facing_y))
                == (final(self).path_index as int, final(self).x as int, final(self).y as int, (final(self).facing_x, final(self).facing_y)),
            *final(self) == (Enemy {
                x: final(self).x,
                y: final(self).y,
                path_index: final(self).path_index,
                facing_x: final(self).facing_x,
                facing_y: final(self).facing_y,
                ..*old(self)
            }),
            -WORLD_LIMIT <= final(self).x <= WORLD_LIMIT,
            -WORLD_LIMIT <= final(self).y <= WORLD_LIMIT,
            -FACING_LIMIT <= final(self).facing_x <= FACING_LIMIT,
            -FACING_LIMIT <= final(self).facing_y <= FACING_LIMIT,
            final(self).facing_x != 0 || final(self).facing_y != 0,
    {
        if self.path_index < self.path.len() {
            let t = self.path[self.path_index];
            assert(t.0 < MAX_SIDE && t.1 < MAX_SIDE);
            let cx = t.0 as i64 * TILE_UNITS + TILE_UNITS / 2;
            let cy = t.1 as i64 * TILE_UNITS + TILE_UNITS / 2;
            let dx = cx - (self.x + ENEMY_HALF);
            let dy = cy - (self.y + ENEMY_HALF);
            proof {
                assert(0 <= dx * dx <= DIR_LIMIT * DIR_LIMIT) by (nonlinear_arith)
                    requires
                        -DIR_LIMIT <= dx <= DIR_LIMIT,
                ;
                assert(0 <= dy * dy <= DIR_LIMIT * DIR_LIMIT) by (nonlinear_arith)
                    requires
                        -DIR_LIMIT <= dy <= DIR_LIMIT,
                ;
            }
            if dx * dx + dy * dy < WAYPOINT_TOLERANCE * WAYPOINT_TOLERANCE {
                self.path_index = self.path_index + 1;
            } else {
                let (sx, sy) = step_to(dx, dy, CHASE_SPEED);
                assert(dx != 0 || dy != 0);
                self.slide_by(g, sx, sy);
                self.facing_x = dx;
                self.facing_y = dy;
            }
        }
    }

    /// Moves by `(sx, sy)`, an axis at a time, where the centre stays off walls.
    fn slide_by(&mut self, g: &Grid, sx: i64, sy: i64) -> (blocked: bool)
        requires
            old(self).wf(),
            grid_wf(g),
            -1000 <= sx <= 1000,
            -1000 <= sy <= 1000,
        ensures
            (final(self).x as int, final(self).y as int, blocked) == slide(g, old(self).x as int, old(self).y as int, sx as int, sy as int),
            *final(self) == (Enemy { x: final(self).x, y: final(self).y, ..*old(self) }),
            -WORLD_LIMIT <= final(self).x <= WORLD_LIMIT,
            -WORLD_LIMIT <= final(self).y <= WORLD_LIMIT,
    {
        let mut blocked = false;
        let try_x = self.x + sx;
        if !is_wall(g, try_x + ENEMY_HALF, self.y + ENEMY_HALF) {
            self.x = try_x;
        } else {
            blocked = true;
        }
        let try_y = self.y + sy;
        if !is_wall(g, self.x + ENEMY_HALF, try_y + ENEMY_HALF) {
            self.y = try_y;
        } else {
            blocked = true;
        }
        blocked
    }
}


impl Enemy {
    fn idle_tick(&mut self, tx: i64, ty: i64, g: &Grid, roll: PatrolRoll) -> (r: bool)
        requires
            old(self).wf(),
            old(self).state == EnemyState::Idle,
            grid_wf(g),
            -WORLD_LIMIT <= tx <= WORLD_LIMIT,
            -WORLD_LIMIT <= ty <= WORLD_LIMIT,
            roll.wf(),
        ensures
            idle_post(*old(self), *final(self), g, tx as int, ty as int, roll, r),
            final(self).hitbox == old(self).hitbox,
            -WORLD_LIMIT <= final(self).x <= WORLD_LIMIT,
            -WORLD_LIMIT <= final(self).y <= WORLD_LIMIT,
            final(self).wf_body(),
    {
        let strict = self.can_see_player_strict(tx, ty, g);
        self.saw_target = strict;
        if strict {
            self.state = EnemyState::Chasing;
            return false;
        }
        let (sx, sy) = step_to(self.patrol_x, self.patrol_y, PATROL_SPEED);
        self.facing_x = self.patrol_x;
        self.facing_y = self.patrol_y;
        let blocked = self.slide_by(g, sx, sy);
        if blocked {
            self.patrol_timer = 0;
        }
        self.patrol_timer = if self.patrol_timer > 0 { self.patrol_timer - 1 } else { 0 };
        if self.patrol_timer == 0 {
            self.patrol_x = roll.heading_x;
            self.patrol_y = roll.heading_y;
            self.facing_x = roll.heading_x;
            self.facing_y = roll.heading_y;
            self.patrol_timer = roll.ticks;
        }
        false
    }

    /// Searches a new path to the target's tile when the repath timer has run
    /// out or there is no path; keeps the old one when none exists.
    fn refresh_path(&mut self, g: &Grid, tx: i64, ty: i64)
        requires
            old(self).wf_body(),
            grid_wf(g),
            -WORLD_LIMIT <= tx <= WORLD_LIMIT,
            -WORLD_LIMIT <= ty <= WORLD_LIMIT,
        ensures
            ({
                let rp = dec(old(self).repath_timer);
                let from = center_tile(old(self).x as int, old(self).y as int);
                let to = center_tile(tx as int, ty as int);
                let found = (rp == 0 || old(self).path@.len() == 0) && floor_at(g, to.0 as int, to.1 as int) && reachable(
                    g,
                    from,
                    to,
                );
                &&& found ==> is_shortest(g, final(self).path@, from, to) && final(self).repath_timer == REPATH_TICKS
                    && final(self).path_index == 0
                &&& !found ==> final(self).path@ == old(self).path@ && final(self).repath_timer == rp
                    && final(self).path_index == old(self).path_index
            }),
            *final(self) == (Enemy {
                path: final(self).path,
                path_index: final(self).path_index,
                repath_timer: final(self).repath_timer,
                ..*old(self)
            }),
            final(self).wf_body(),
    {
        self.repath_timer = if self.repath_timer > 0 { self.repath_timer - 1 } else { 0 };
        let from = world_to_tile(self.x + ENEMY_HALF, self.y + ENEMY_HALF);
        let to = world_to_tile(tx + ENEMY_HALF, ty + ENEMY_HALF);
        if self.repath_timer == 0 || self.path.len() == 0 {
            match find_path(g, from, to) {
                Some(p) => {
                    proof {
                        assert forall|k: int| 0 <= k < p@.len() implies (#[trigger] p@[k]).0 < MAX_SIDE && p@[k].1 < MAX_SIDE by {
                            if k > 0 {
                                assert(floor_at(g, p@[k].0 as int, p@[k].1 as int));
                            }
                        }
                    }
                    self.path = p;
                    self.path_index = 0;
                    self.repath_timer = REPATH_TICKS;
                },
                None => {},
            }
        }
    }

    /// Whether the enemy fires at the target: in front, in range, gun cool.
    fn try_shoot(&mut self, tx: i64, ty: i64) -> (r: bool)
        requires
            old(self).wf_body(),
            -WORLD_LIMIT <= tx <= WORLD_LIMIT,
            -WORLD_LIMIT <= ty <= WORLD_LIMIT,
        ensures
            r == (old(self).can_shoot(tx as int, ty as int) && old(self).shoot_cooldown == 0),
            *final(self) == (Enemy { shoot_cooldown: if r { SHOOT_COOLDOWN } else { old(self).shoot_cooldown }, ..*old(self) }),
    {
        let dx = tx - self.x;
        let dy = ty - self.y;
        proof {
            let l = 2 * WORLD_LIMIT;
            assert(0 <= dx * dx <= l * l) by (nonlinear_arith)
                requires
                    -l <= dx <= l,
            ;
            assert(0 <= dy * dy <= l * l) by (nonlinear_arith)
                requires
                    -l <= dy <= l,
            ;
        }
        if dx * dx + dy * dy < SHOOT_RANGE * SHOOT_RANGE && self.shoot_cooldown == 0 {
            if within_cone(self.facing_x, self.facing_y, dx, dy) {
                self.shoot_cooldown = SHOOT_COOLDOWN;
                return true;
            }
        }
        false
    }

    fn chase_tick(&mut self, tx: i64, ty: i64, g: &Grid) -> (r: bool)
        requires
            old(self).wf(),
            old(self).state == EnemyState::Chasing,
            grid_wf(g),
            -WORLD_LIMIT <= tx <= WORLD_LIMIT,
            -WORLD_LIMIT <= ty <= WORLD_LIMIT,
        ensures
            chase_post(*old(self), *final(self), g, tx as int, ty as int, r),
            final(self).hitbox == old(self).hitbox,
            final(self).wf_body(),
    {
        let strict = self.can_see_player_strict(tx, ty, g);
        if self.saw_target && !strict {
            self.see_through_walls_timer = GRACE_TICKS;
        }
        self.saw_target = strict;
        let seen = if self.see_through_walls_timer > 0 {
            self.can_see_player_ignore_walls(tx, ty)
        } else {
            strict
        };
        if !seen && self.alerted_timer == 0 {
            self.state = EnemyState::Idle;
            return false;
        }
        let ghost e1 = *self;
        self.refresh_path(g, tx, ty);
        let ghost e2 = *self;
        self.follow_path(g);
        let ghost e3 = *self;
        let r = self.try_shoot(tx, ty);
        proof {
            assert(self.facing_x == e3.facing_x && self.x == e3.x);
        }
        r
    }

    /// Runs one tick against a target at `(tx, ty)`: returns whether the enemy
    /// fired. `roll` is used only if the patrol draws a new heading.
    pub fn update(&mut self, tx: i64, ty: i64, g: &Grid, roll: PatrolRoll) -> (r: bool)
        requires
            old(self).wf(),
            grid_wf(g),
            -WORLD_LIMIT <= tx <= WORLD_LIMIT,
            -WORLD_LIMIT <= ty <= WORLD_LIMIT,
            roll.wf(),
        ensures
            final(self).wf(),
            tick_post(*old(self), *final(self), g, tx as int, ty as int, roll, r),
    {
        if !self.alive {
            return false;
        }
        self.see_through_walls_timer = if self.see_through_walls_timer > 0 { self.see_through_walls_timer - 1 } else { 0 };
        self.shoot_cooldown = if self.shoot_cooldown > 0 { self.shoot_cooldown - 1 } else { 0 };
        if self.alerted_timer > 0 {
            self.alerted_timer = self.alerted_timer - 1;
            self.state = EnemyState::Chasing;
        }
        let r = match self.state {
            EnemyState::Idle => self.idle_tick(tx, ty, g, roll),
            EnemyState::Chasing => self.chase_tick(tx, ty, g),
        };
        self.hitbox = self.hitbox.position(self.x, self.y);
        r
    }
}


/// An idle live enemy with no alert pending that does not see its target
/// stays idle and alert-free through the tick, and does not fire.
pub proof fn lemma_idle_stays_idle(o: Enemy, n: Enemy, g: &Grid, tx: int, ty: int, roll: PatrolRoll, r: bool)
    requires
        o.alive,
        o.state == EnemyState::Idle,
        o.alerted_timer == 0,
        !o.sees_target(g, tx, ty),
        tick_post(o, n, g, tx, ty, roll, r),
    ensures
        n.alive,
        n.state == EnemyState::Idle,
        n.alerted_timer == 0,
        !r,
{
    let e = after_timers(o);
    assert(e.sees_target(g, tx, ty) == o.sees_target(g, tx, ty));
}

/// A chasing enemy with no alert pending, whose grace runs out this tick and
/// which neither saw its target on its last look nor sees it now, turns
/// Idle without firing, even if it would see the target through walls.
pub proof fn lemma_grace_expires(o: Enemy, n: Enemy, g: &Grid, tx: int, ty: int, roll: PatrolRoll, r: bool)
    requires
        o.alive,
        o.state == EnemyState::Chasing,
        o.alerted_timer == 0,
        o.see_through_walls_timer <= 1,
        !o.saw_target,
        !o.sees_target(g, tx, ty),
        tick_post(o, n, g, tx, ty, roll, r),
    ensures
        n.state == EnemyState::Idle,
        n.see_through_walls_timer == 0,
        !r,
{
    let e = after_timers(o);
    assert(e.sees_target(g, tx, ty) == o.sees_target(g, tx, ty));
}

/// A chasing enemy that saw its target on its last look and has lost strict
/// sight of it now keeps chasing for the full grace period.
pub proof fn lemma_grace_arms_on_loss(o: Enemy, n: Enemy, g: &Grid, tx: int, ty: int, roll: PatrolRoll, r: bool)
    requires
        o.alive,
        o.state == EnemyState::Chasing,
        o.saw_target,
        !o.sees_target(g, tx, ty),
        tick_post(o, n, g, tx, ty, roll, r),
    ensures
        n.see_through_walls_timer == GRACE_TICKS,
        !n.saw_target,
{
    let e = after_timers(o);
    assert(e.sees_target(g, tx, ty) == o.sees_target(g, tx, ty));
}

/// Over any run of ticks in which it never sees its target and nobody
/// alerts it, an idle enemy stays idle and never fires.
pub proof fn lemma_idle_forever(
    s: Seq<Enemy>,
    g: &Grid,
    tx: Seq<int>,
    ty: Seq<int>,
    rolls: Seq<PatrolRoll>,
    fired: Seq<bool>,
)
    requires
        s.len() >= 1,
        tx.len() == s.len() - 1,
        ty.len() == s.len() - 1,
        rolls.len() == s.len() - 1,
        fired.len() == s.len() - 1,
        s[0].alive,
        s[0].state == EnemyState::Idle,
        s[0].alerted_timer == 0,
        forall|i: int| 0 <= i < s.len() - 1 ==> #[trigger] tick_post(s[i], s[i + 1], g, tx[i], ty[i], rolls[i], fired[i]),
        forall|i: int| 0 <= i < s.len() - 1 ==> !(#[trigger] s[i].sees_target(g, tx[i], ty[i])),
    ensures
        forall|i: int| 0 <= i < s.len() ==> (#[trigger] s[i]).state == EnemyState::Idle && s[i].alerted_timer == 0 && s[i].alive,
        forall|i: int| 0 <= i < s.len() - 1 ==> !(#[trigger] fired[i]),
    decreases s.len(),
{
    if s.len() > 1 {
        let k = s.len() - 1;
        lemma_idle_forever(s.drop_last(), g, tx.drop_last(), ty.drop_last(), rolls.drop_last(), fired.drop_last());
        assert(s.drop_last()[k - 1] == s[k - 1]);
        assert(tick_post(s[k - 1], s[k - 1 + 1], g, tx[k - 1], ty[k - 1], rolls[k - 1], fired[k - 1]));
        assert(!s[k - 1].sees_target(g, tx[k - 1], ty[k - 1]));
        lemma_idle_stays_idle(s[k - 1], s[k], g, tx[k - 1], ty[k - 1], rolls[k - 1], fired[k - 1]);
        assert forall|i: int| 0 <= i < s.len() implies (#[trigger] s[i]).state == EnemyState::Idle && s[i].alerted_timer == 0
            && s[i].alive by {
            if i < k {
                assert(s.drop_last()[i] == s[i]);
            }
        }
        assert forall|i: int| 0 <= i < s.len() - 1 implies !(#[trigger] fired[i]) by {
            if i < k - 1 {
                assert(fired.drop_last()[i] == fired[i]);
            }
        }
    }
}

} // verus!
