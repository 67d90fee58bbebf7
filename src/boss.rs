//! The boss: Idle, Chasing, a committed melee Attack, a cosmetic Hurt
//! reaction, and Dead, driven once per tick.

use vstd::prelude::*;
use crate::tile::{Grid, MAX_SIDE, TILE_UNITS, WORLD_LIMIT, grid_wf, in_grid, floor_at, wall_at_point, tile_coord, is_wall, world_to_tile, tile_is_floor};
use crate::bounds::Bounds;
use crate::path::{Pos, reachable, is_shortest, manhattan, find_path, find_nearest_floor};
use crate::perception::sq_len;
use crate::motion::{stride, step_to, DIR_LIMIT};
use crate::enemy::dec;

verus! {

/// Side of the boss's sprite: 64 pixels.
pub const BOSS_SPRITE: i64 = 6400;

/// Side of the boss's collision box: 28 pixels.
pub const BOSS_COLLISION: i64 = 2800;

/// Offset of the collision box inside the sprite: 18 pixels.
pub const BOSS_OFFSET: i64 = 1800;

/// Inward margin of the collision box's corners: 2 pixels.
pub const BOSS_MARGIN: i64 = 200;

pub const ATTACK_DURATION: u32 = 35;

/// The tick of the attack countdown at which the blow lands.
pub const ATTACK_IMPACT_FRAME: u32 = 20;

/// Melee reach: 50 pixels.
pub const ATTACK_RANGE: i64 = 5000;

pub const BOSS_HEALTH: i32 = 120;

pub const HURT_TICKS: u32 = 10;

pub const DEATH_TICKS: u32 = 90;

pub const REPATH_TICKS: u32 = 30;

/// Speeds in world units a tick: 2.1 and 2.8 pixels when chasing, 2.0 and
/// 2.8 when lunging, the second of each when enraged.
pub const CHASE_SPEED: i64 = 210;
pub const ENRAGED_CHASE_SPEED: i64 = 280;
pub const LUNGE_SPEED: i64 = 200;
pub const ENRAGED_LUNGE_SPEED: i64 = 280;

/// Attack cooldowns, calm and enraged.
pub const ATTACK_COOLDOWN: u32 = 45;
pub const ENRAGED_ATTACK_COOLDOWN: u32 = 30;

/// A waypoint counts as reached within 8 pixels.
pub const BOSS_WAYPOINT_TOLERANCE: i64 = 800;

/// The boss turns to face the target only past 1 pixel of horizontal offset.
pub const FACE_THRESHOLD: i64 = 100;

/// Half the side of the target's sprite: 16 pixels.
pub const TARGET_HALF: i64 = 1600;

/// Largest health a boss may have.
pub const HEALTH_LIMIT: i32 = 1_000_000;

#[derive(Clone, Copy, Debug, PartialEq, Eq, Structural)]
pub enum BossState {
    Idle,
    Chasing,
    Attacking,
    Hurt,
    Dead,
}

/// What the boss hunts: a position and a health that its blows reduce.
#[derive(Clone, Copy, Debug, PartialEq, Eq, Structural)]
pub struct Target {
    pub x: i64,
    pub y: i64,
    pub health: i32,
}

pub struct Boss {
    pub x: i64,
    pub y: i64,
    pub hitbox: Bounds,
    pub state: BossState,
    pub health: i32,
    pub max_health: i32,
    /// 1 when facing right, -1 when facing left.
    pub facing_x: i64,
    pub attack_cooldown: u32,
    pub hurt_timer: u32,
    pub path: Vec<Pos>,
    pub path_index: usize,
    pub repath_timer: u32,
    pub death_timer: u32,
    pub can_take_damage: bool,
    pub attack_timer: u32,
}

/// The sign of `v`, zero counting as positive.
pub open spec fn sign(v: int) -> i64 {
    if v < 0 {
        -1i64
    } else {
        1i64
    }
}

/// The boss's collision box with its corner at `(x, y)` has no corner,
/// taken inward by the margin, on a wall.
pub open spec fn box_clear(g: &Grid, x: int, y: int) -> bool {
    let a = BOSS_MARGIN as int;
    let b = (BOSS_COLLISION - BOSS_MARGIN) as int;
    &&& !wall_at_point(g, x + a, y + a)
    &&& !wall_at_point(g, x + b, y + a)
    &&& !wall_at_point(g, x + a, y + b)
    &&& !wall_at_point(g, x + b, y + b)
}

/// Whether the boss's sprite corner may be at `(x, y)`.
pub open spec fn may_stand(g: &Grid, x: int, y: int) -> bool {
    box_clear(g, x + BOSS_OFFSET, y + BOSS_OFFSET)
}

/// The point the boss aims its collision box's centre at for path tile `t`.
pub open spec fn tile_target(t: Pos) -> (int, int) {
    (t.0 * TILE_UNITS + BOSS_OFFSET, t.1 * TILE_UNITS + BOSS_OFFSET)
}

/// The centre of the boss's collision box, for its sprite corner at `(x, y)`.
pub open spec fn boss_center(x: int, y: int) -> (int, int) {
    (x + BOSS_OFFSET + BOSS_COLLISION / 2, y + BOSS_OFFSET + BOSS_COLLISION / 2)
}

/// One tick of following `path` from index `i` at `(x, y)` with `speed`:
/// index and corner afterwards.
pub open spec fn boss_follow(g: &Grid, path: Seq<Pos>, i: int, x: int, y: int, speed: int) -> (int, int, int) {
    if 0 <= i < path.len() {
        let t = tile_target(path[i]);
        let c = boss_center(x, y);
        let dx = t.0 - c.0;
        let dy = t.1 - c.1;
        if sq_len(dx, dy) < BOSS_WAYPOINT_TOLERANCE * BOSS_WAYPOINT_TOLERANCE {
            (i + 1, x, y)
        } else {
            let s = stride(dx, dy, speed);
            let nx = if may_stand(g, x + s.0, y) { x + s.0 } else { x };
            let ny = if may_stand(g, nx, y + s.1) { y + s.1 } else { y };
            (i, nx, ny)
        }
    } else {
        (i, x, y)
    }
}

/// `r` is tile `t`, or, when `t` is a wall tile of the grid and the grid has
/// floor, a floor tile nearest to `t`.
pub open spec fn repaired(g: &Grid, t: Pos, r: Pos) -> bool {
    if in_grid(g, t.0 as int, t.1 as int) && !floor_at(g, t.0 as int, t.1 as int) && exists|x: int, y: int|
        #[trigger] floor_at(g, x, y) {
        &&& floor_at(g, r.0 as int, r.1 as int)
        &&& forall|x: usize, y: usize| #[trigger] floor_at(g, x as int, y as int) ==> manhattan(r, t) <= manhattan((x, y), t)
    } else {
        r == t
    }
}

/// The tile under the target's centre.
pub open spec fn target_tile(t: Target) -> Pos {
    (tile_coord(t.x + TARGET_HALF) as usize, tile_coord(t.y + TARGET_HALF) as usize)
}

/// The tile under the centre of the boss's collision box.
pub open spec fn boss_tile(x: int, y: int) -> Pos {
    let c = boss_center(x, y);
    (tile_coord(c.0) as usize, tile_coord(c.1) as usize)
}

/// The path refresh of a tick: with both endpoints repaired onto floor, a
/// new shortest path when the repath timer has run out or no path is
/// cached and one exists, else the old path. `path`, `timer` and `i` are
/// the path, repath timer and path index afterwards.
pub open spec fn boss_repath(
    o: (int, int, u32, Seq<Pos>, usize),
    g: &Grid,
    t: Target,
    path: Seq<Pos>,
    timer: u32,
    i: int,
) -> bool {
    exists|a: Pos, b: Pos| #[trigger] repath_via(o, g, t, path, timer, i, a, b)
}

/// The path refresh, its endpoints repaired to `a` and `b`.
pub open spec fn repath_via(
    o: (int, int, u32, Seq<Pos>, usize),
    g: &Grid,
    t: Target,
    path: Seq<Pos>,
    timer: u32,
    i: int,
    a: Pos,
    b: Pos,
) -> bool {
    let rp = dec(o.2);
    let found = (rp == 0 || o.3.len() == 0) && floor_at(g, b.0 as int, b.1 as int) && reachable(g, a, b);
    &&& repaired(g, boss_tile(o.0, o.1), a)
    &&& repaired(g, target_tile(t), b)
    &&& found ==> is_shortest(g, path, a, b) && timer == REPATH_TICKS && i == 0
    &&& !found ==> path == o.3 && timer == rp && i == o.4
}

/// The parts of a boss that its path refresh reads.
pub open spec fn nav(o: Boss) -> (int, int, u32, Seq<Pos>, usize) {
    (o.x as int, o.y as int, o.repath_timer, o.path@, o.path_index)
}

/// An attacking tick from `o` (its countdown not yet out): the countdown
/// advances; at the impact frame a blow in reach costs the target one
/// health; the boss lunges along its facing; at the end of the countdown
/// it may be damaged again and resumes the chase.
pub open spec fn attack_post(o: Boss, n: Boss, g: &Grid, t: Target, nt: Target) -> bool {
    let at = (o.attack_timer - 1) as u32;
    let hit = at == ATTACK_IMPACT_FRAME && o.blow_lands(t);
    let speed = if o.enraged() { ENRAGED_LUNGE_SPEED } else { LUNGE_SPEED };
    let lx = o.x + o.facing_x * speed;
    &&& nt == (Target { health: if hit { (t.health - 1) as i32 } else { t.health }, ..t })
    &&& n.attack_timer == at
    &&& n.state == if at == 0 { BossState::Chasing } else { BossState::Attacking }
    &&& n.can_take_damage == if at == 0 { true } else { o.can_take_damage }
    &&& n.x == if may_stand(g, lx, o.y as int) { lx } else { o.x as int }
    &&& n.y == o.y
    &&& n.health == o.health
    &&& n.max_health == o.max_health
    &&& n.facing_x == o.facing_x
    &&& n.attack_cooldown == o.attack_cooldown
    &&& n.hurt_timer == o.hurt_timer
    &&& n.path@ == o.path@
    &&& n.path_index == o.path_index
    &&& n.repath_timer == o.repath_timer
    &&& n.death_timer == o.death_timer
}

/// A pursuing tick from `o`: face the target, refresh and follow the path,
/// then decide the state. Hurt only turns into Chasing; out of reach
/// means Chasing; in reach with the cooldown out commits to an attack,
/// facing the target; else Chasing. No health left means Dead.
pub open spec fn pursue_post(o: Boss, n: Boss, g: &Grid, t: Target, nt: Target) -> bool {
    let dx = t.x - o.x;
    let dy = t.y - o.y;
    let f1 = if dx > FACE_THRESHOLD || dx < -FACE_THRESHOLD { sign(dx) } else { o.facing_x };
    let speed = if o.enraged() { ENRAGED_CHASE_SPEED } else { CHASE_SPEED };
    let far = sq_len(dx, dy) > ATTACK_RANGE * ATTACK_RANGE;
    let commit = o.state != BossState::Attacking && o.hurt_timer == 0 && !far && o.attack_cooldown == 0;
    let st = if o.state == BossState::Attacking {
        BossState::Attacking
    } else if commit {
        BossState::Attacking
    } else {
        BossState::Chasing
    };
    &&& nt == t
    &&& exists|i0: int|
        boss_repath(nav(o), g, t, n.path@, n.repath_timer, i0) && boss_follow(g, n.path@, i0, o.x as int, o.y as int, speed as int) == (
            n.path_index as int,
            n.x as int,
            n.y as int,
        )
    &&& n.attack_timer == if commit { ATTACK_DURATION } else { o.attack_timer }
    &&& n.attack_cooldown == if commit {
        if o.enraged() { ENRAGED_ATTACK_COOLDOWN } else { ATTACK_COOLDOWN }
    } else {
        o.attack_cooldown
    }
    &&& n.facing_x == if commit { sign(t.x - n.x) } else { f1 }
    &&& n.can_take_damage == if commit { false } else { o.can_take_damage }
    &&& n.state == if o.health <= 0 { BossState::Dead } else { st }
    &&& n.death_timer == if o.health <= 0 { DEATH_TICKS } else { o.death_timer }
    &&& n.health == o.health
    &&& n.max_health == o.max_health
    &&& n.hurt_timer == o.hurt_timer
}

/// The boss once the tick's attack cooldown and hurt timer have run down.
pub open spec fn boss_after_timers(o: Boss) -> Boss {
    Boss { attack_cooldown: dec(o.attack_cooldown), hurt_timer: dec(o.hurt_timer), ..o }
}

/// One tick of the boss against target `t` (afterwards `nt`): a dead boss
/// only runs its death countdown down; otherwise an attack under way goes
/// on, else the boss pursues; its hitbox follows it.
pub open spec fn boss_tick(o: Boss, n: Boss, g: &Grid, t: Target, nt: Target) -> bool {
    if o.state == BossState::Dead {
        n == (Boss { death_timer: dec(o.death_timer), ..o }) && nt == t
    } else {
        let e = boss_after_timers(o);
        &&& n.hitbox == n.spec_hitbox()
        &&& (e.state == BossState::Attacking && e.attack_timer > 0) ==> attack_post(e, n, g, t, nt)
        &&& !(e.state == BossState::Attacking && e.attack_timer > 0) ==> pursue_post(e, n, g, t, nt)
    }
}

/// Tile `t`, or, when it is a wall tile of the grid, a nearest floor tile
/// when the grid has one.
pub fn repair_tile(g: &Grid, t: Pos) -> (r: Pos)
    requires
        grid_wf(g),
    ensures
        repaired(g, t, r),
{
    if t.0 < g[0].len() && t.1 < g.len() && !tile_is_floor(g, t.0, t.1) {
        match find_nearest_floor(g, t) {
            Some(r) => r,
            None => t,
        }
    } else {
        t
    }
}

impl Boss {
    pub open spec fn wf_body(&self) -> bool {
        &&& -WORLD_LIMIT <= self.x <= WORLD_LIMIT
        &&& -WORLD_LIMIT <= self.y <= WORLD_LIMIT
        &&& 0 <= self.health <= self.max_health <= HEALTH_LIMIT
        &&& (self.facing_x == 1 || self.facing_x == -1)
        &&& forall|k: int| 0 <= k < self.path@.len() ==> (#[trigger] self.path@[k]).0 < MAX_SIDE && self.path@[k].1 < MAX_SIDE
    }

    pub open spec fn wf(&self) -> bool {
        &&& self.wf_body()
        &&& self.hitbox == self.spec_hitbox()
    }

    pub open spec fn spec_hitbox(&self) -> Bounds {
        Bounds { x: (self.x + BOSS_OFFSET) as i64, y: (self.y + BOSS_OFFSET) as i64, w: BOSS_COLLISION, h: BOSS_COLLISION }
    }

    /// Below half health the boss is enraged.
    pub open spec fn enraged(&self) -> bool {
        self.health < self.max_health / 2
    }

    /// The target's centre lies within reach of the boss's sprite centre.
    pub open spec fn blow_lands(&self, t: Target) -> bool {
        sq_len(
            (t.x + TARGET_HALF) - (self.x + BOSS_SPRITE / 2),
            (t.y + TARGET_HALF) - (self.y + BOSS_SPRITE / 2),
        ) <= ATTACK_RANGE * ATTACK_RANGE
    }

    pub open spec fn finished(&self) -> bool {
        self.state == BossState::Dead && self.death_timer == 0
    }

    /// A boss at `(x, y)`, idle, at full health, facing right.
    pub fn new(x: i64, y: i64) -> (r: Boss)
        requires
            -WORLD_LIMIT <= x <= WORLD_LIMIT,
            -WORLD_LIMIT <= y <= WORLD_LIMIT,
        ensures
            r.wf(),
            r.x == x,
            r.y == y,
            r.state == BossState::Idle,
            r.health == BOSS_HEALTH,
            r.max_health == BOSS_HEALTH,
            r.facing_x == 1,
            r.attack_cooldown == 0,
            r.hurt_timer == 0,
            r.path@.len() == 0,
            r.path_index == 0,
            r.repath_timer == 1,
            r.death_timer == 0,
            r.can_take_damage,
            r.attack_timer == 0,
    {
        Boss {
            x,
            y,
            hitbox: Bounds::new(x + BOSS_OFFSET, y + BOSS_OFFSET, BOSS_COLLISION, BOSS_COLLISION),
            state: BossState::Idle,
            health: BOSS_HEALTH,
            max_health: BOSS_HEALTH,
            facing_x: 1,
            attack_cooldown: 0,
            hurt_timer: 0,
            path: Vec::new(),
            path_index: 0,
            repath_timer: 1,
            death_timer: 0,
            can_take_damage: true,
            attack_timer: 0,
        }
    }

    /// Takes `dmg` damage: nothing while dead or attacking; otherwise health
    /// drops, a short hurt reaction starts, and at zero health or below the
    /// boss dies, health clamped to zero, its death countdown armed.
    pub fn take_damage(&mut self, dmg: i32)
        requires
            old(self).wf(),
            0 <= dmg,
        ensures
            final(self).wf(),
            (old(self).state == BossState::Dead || old(self).state == BossState::Attacking) ==> *final(self) == *old(self),
            !(old(self).state == BossState::Dead || old(self).state == BossState::Attacking) ==> {
                &&& old(self).health - dmg <= 0 ==> final(self).health == 0 && final(self).state == BossState::Dead
                    && final(self).death_timer == DEATH_TICKS
                &&& old(self).health - dmg > 0 ==> final(self).health == old(self).health - dmg && final(self).state
                    == BossState::Hurt && final(self).death_timer == old(self).death_timer
                &&& final(self).hurt_timer == HURT_TICKS
                &&& *final(self) == (Boss {
                    health: final(self).health,
                    state: final(self).state,
                    death_timer: final(self).death_timer,
                    hurt_timer: HURT_TICKS,
                    ..*old(self)
                })
            },
    {
        if self.state == BossState::Dead {
            return;
        }
        if self.state == BossState::Attacking {
            return;
        }
        self.health = self.health - dmg;
        self.hurt_timer = HURT_TICKS;
        self.state = BossState::Hurt;
        if self.health <= 0 {
            self.health = 0;
            self.state = BossState::Dead;
            self.death_timer = DEATH_TICKS;
        }
    }

    /// The boss is dead and its death countdown has run out.
    pub fn is_death_animation_finished(&self) -> (r: bool)
        ensures
            r == self.finished(),
    {
        self.state == BossState::Dead && self.death_timer == 0
    }

    /// Whether the boss may stand with its sprite corner at `(x, y)`.
    fn can_move(&self, g: &Grid, x: i64, y: i64) -> (r: bool)
        requires
            grid_wf(g),
            -2 * WORLD_LIMIT <= x <= 2 * WORLD_LIMIT,
            -2 * WORLD_LIMIT <= y <= 2 * WORLD_LIMIT,
        ensures
            r == may_stand(g, x as int, y as int),
    {
        let bx = x + BOSS_OFFSET;
        let by = y + BOSS_OFFSET;
        let a = BOSS_MARGIN;
        let b = BOSS_COLLISION - BOSS_MARGIN;
        !is_wall(g, bx + a, by + a) && !is_wall(g, bx + b, by + a) && !is_wall(g, bx + a, by + b) && !is_wall(g, bx + b, by + b)
    }
}


impl Boss {
    /// An attacking tick: countdown, blow at the impact frame, lunge.
    fn attack_step(&mut self, target: &mut Target, g: &Grid)
        requires
            old(self).wf_body(),
            grid_wf(g),
            old(self).state == BossState::Attacking,
            old(self).attack_timer > 0,
            -WORLD_LIMIT <= old(target).x <= WORLD_LIMIT,
            -WORLD_LIMIT <= old(target).y <= WORLD_LIMIT,
            old(target).health > i32::MIN,
        ensures
            attack_post(*old(self), *final(self), g, *old(target), *final(target)),
            final(self).wf(),
    {
        self.attack_timer = self.attack_timer - 1;
        if self.attack_timer == ATTACK_IMPACT_FRAME {
            let dx = (target.x + TARGET_HALF) - (self.x + BOSS_SPRITE / 2);
            let dy = (target.y + TARGET_HALF) - (self.y + BOSS_SPRITE / 2);
            proof {
                let l = 3 * WORLD_LIMIT;
                assert(0 <= dx * dx <= l * l) by (nonlinear_arith)
                    requires
                        -l <= dx <= l,
                ;
                assert(0 <= dy * dy <= l * l) by (nonlinear_arith)
                    requires
                        -l <= dy <= l,
                ;
            }
            let reach: i128 = 25_000_000;
            assert(reach == ATTACK_RANGE * ATTACK_RANGE);
            if (dx as i128) * (dx as i128) + (dy as i128) * (dy as i128) <= reach {
                target.health = target.health - 1;
            }
        }
        if self.attack_timer == 0 {
            self.can_take_damage = true;
            self.state = BossState::Chasing;
        }
        let speed = if self.health < self.max_health / 2 { ENRAGED_LUNGE_SPEED } else { LUNGE_SPEED };
        let try_x = self.x + self.facing_x * speed;
        if self.can_move(g, try_x, self.y) {
            self.x = try_x;
        }
        self.hitbox = Bounds::new(self.x + BOSS_OFFSET, self.y + BOSS_OFFSET, BOSS_COLLISION, BOSS_COLLISION);
    }

    /// Refreshes the cached path to the target's tile.
    fn refresh_path(&mut self, g: &Grid, target: &Target)
        requires
            old(self).wf_body(),
            grid_wf(g),
            -WORLD_LIMIT <= target.x <= WORLD_LIMIT,
            -WORLD_LIMIT <= target.y <= WORLD_LIMIT,
        ensures
            boss_repath(nav(*old(self)), g, *target, final(self).path@, final(self).repath_timer, final(self).path_index as int),
            *final(self) == (Boss {
                path: final(self).path,
                path_index: final(self).path_index,
                repath_timer: final(self).repath_timer,
                ..*old(self)
            }),
            final(self).wf_body(),
    {
        let ghost o = *self;
        self.repath_timer = if self.repath_timer > 0 { self.repath_timer - 1 } else { 0 };
        let half = BOSS_COLLISION / 2;
        let from = repair_tile(g, world_to_tile(self.x + BOSS_OFFSET + half, self.y + BOSS_OFFSET + half));
        let to = repair_tile(g, world_to_tile(target.x + TARGET_HALF, target.y + TARGET_HALF));
        if self.repath_timer == 0 || self.path.len() == 0 {
            match find_path(g, from, to) {
                Some(p) => {
                    proof {
                        assert forall|k: int| 0 <= k < p@.len() implies (#[trigger] p@[k]).0 < MAX_SIDE && p@[k].1 < MAX_SIDE by {
                            if k > 0 {
                                assert(floor_at(g, p@[k].0 as int, p@[k].1 as int));
                            }
                        }
                    }
                    self.path = p;
                    self.path_index = 0;
                    self.repath_timer = REPATH_TICKS;
                },
                None => {},
            }
        }
        proof {
            let rp = dec(o.repath_timer);
            let found = (rp == 0 || o.path@.len() == 0) && floor_at(g, to.0 as int, to.1 as int) && reachable(g, from, to);
            assert(repaired(g, boss_tile(o.x as int, o.y as int), from));
            assert(repaired(g, target_tile(*target), to));
            assert(found ==> is_shortest(g, self.path@, from, to) && self.repath_timer == REPATH_TICKS && self.path_index == 0);
            assert(!found ==> self.path@ == o.path@ && self.repath_timer == rp && self.path_index == o.path_index);
            assert(repath_via(nav(o), g, *target, self.path@, self.repath_timer, self.path_index as int, from, to));
        }
    }

    /// One tick of following the cached path at `speed`.
    fn follow_path(&mut self, g: &Grid, speed: i64)
        requires
            old(self).wf_body(),
            grid_wf(g),
            0 <= speed <= 1000,
        ensures
            boss_follow(g, old(self).path@, old(self).path_index as int, old(self).x as int, old(self).y as int, speed as int)
                == (final(self).path_index as int, final(self).x as int, final(self).y as int),
            *final(self) == (Boss { x: final(self).x, y: final(self).y, path_index: final(self).path_index, ..*old(self) }),
            final(self).wf_body(),
    {
        if self.path_index < self.path.len() {
            let t = self.path[self.path_index];
            assert(t.0 < MAX_SIDE && t.1 < MAX_SIDE);
            let half = BOSS_COLLISION / 2;
            let dx = (t.0 as i64 * TILE_UNITS + BOSS_OFFSET) - (self.x + BOSS_OFFSET + half);
            let dy = (t.1 as i64 * TILE_UNITS + BOSS_OFFSET) - (self.y + BOSS_OFFSET + half);
            proof {
                assert(0 <= dx * dx <= DIR_LIMIT * DIR_LIMIT) by (nonlinear_arith)
                    requires
                        -DIR_LIMIT <= dx <= DIR_LIMIT,
                ;
                assert(0 <= dy * dy <= DIR_LIMIT * DIR_LIMIT) by (nonlinear_arith)
                    requires
                        -DIR_LIMIT <= dy <= DIR_LIMIT,
                ;
            }
            if dx * dx + dy * dy < BOSS_WAYPOINT_TOLERANCE * BOSS_WAYPOINT_TOLERANCE {
                self.path_index = self.path_index + 1;
            } else {
                let (sx, sy) = step_to(dx, dy, speed);
                if self.can_move(g, self.x + sx, self.y) {
                    self.x = self.x + sx;
                }
                if self.can_move(g, self.x, self.y + sy) {
                    self.y = self.y + sy;
                }
            }
        }
    }

    /// A pursuing tick: face, refresh and follow the path, decide the state.
    fn pursue(&mut self, target: &Target, g: &Grid)
        requires
            old(self).wf_body(),
            grid_wf(g),
            !(old(self).state == BossState::Attacking && old(self).attack_timer > 0),
            -WORLD_LIMIT <= target.x <= WORLD_LIMIT,
            -WORLD_LIMIT <= target.y <= WORLD_LIMIT,
        ensures
            pursue_post(*old(self), *final(self), g, *target, *target),
            final(self).wf(),
    {
        let ghost o = *self;
        let dx = target.x - self.x;
        let dy = target.y - self.y;
        proof {
            let l = 2 * WORLD_LIMIT;
            assert(0 <= dx * dx <= l * l) by (nonlinear_arith)
                requires
                    -l <= dx <= l,
            ;
            assert(0 <= dy * dy <= l * l) by (nonlinear_arith)
                requires
                    -l <= dy <= l,
            ;
        }
        let far = dx * dx + dy * dy > ATTACK_RANGE * ATTACK_RANGE;
        let enraged = self.health < self.max_health / 2;
        if dx > FACE_THRESHOLD || dx < -FACE_THRESHOLD {
            self.facing_x = if dx < 0 { -1 } else { 1 };
        }
        self.refresh_path(g, target);
        let ghost mid = *self;
        let speed = if enraged { ENRAGED_CHASE_SPEED } else { CHASE_SPEED };
        self.follow_path(g, speed);
        proof {
            assert(boss_repath(nav(o), g, *target, self.path@, self.repath_timer, mid.path_index as int));
            assert(boss_follow(g, self.path@, mid.path_index as int, o.x as int, o.y as int, speed as int) == (
                self.path_index as int,
                self.x as int,
                self.y as int,
            ));
        }
        if self.state == BossState::Attacking {
        } else if self.hurt_timer > 0 {
            self.state = BossState::Chasing;
        } else if far {
            self.state = BossState::Chasing;
        } else if self.attack_cooldown == 0 {
            self.state = BossState::Attacking;
            self.attack_timer = ATTACK_DURATION;
            self.attack_cooldown = if enraged { ENRAGED_ATTACK_COOLDOWN } else { ATTACK_COOLDOWN };
            self.facing_x = if target.x - self.x < 0 { -1 } else { 1 };
            self.can_take_damage = false;
        } else {
            self.state = BossState::Chasing;
        }
        if self.health <= 0 {
            self.state = BossState::Dead;
            self.death_timer = DEATH_TICKS;
        }
        self.hitbox = Bounds::new(self.x + BOSS_OFFSET, self.y + BOSS_OFFSET, BOSS_COLLISION, BOSS_COLLISION);
        proof {
            let i0 = mid.path_index as int;
            assert(boss_repath(nav(o), g, *target, self.path@, self.repath_timer, i0) && boss_follow(
                g,
                self.path@,
                i0,
                o.x as int,
                o.y as int,
                speed as int,
            ) == (self.path_index as int, self.x as int, self.y as int));
        }
    }

    /// Runs one tick against `target`, whose health a landed blow lowers by one.
    pub fn update(&mut self, target: &mut Target, g: &Grid)
        requires
            old(self).wf(),
            grid_wf(g),
            -WORLD_LIMIT <= old(target).x <= WORLD_LIMIT,
            -WORLD_LIMIT <= old(target).y <= WORLD_LIMIT,
            old(target).health > i32::MIN,
        ensures
            final(self).wf(),
            boss_tick(*old(self), *final(self), g, *old(target), *final(target)),
    {
        if self.state == BossState::Dead {
            self.death_timer = if self.death_timer > 0 { self.death_timer - 1 } else { 0 };
            return;
        }
        self.attack_cooldown = if self.attack_cooldown > 0 { self.attack_cooldown - 1 } else { 0 };
        self.hurt_timer = if self.hurt_timer > 0 { self.hurt_timer - 1 } else { 0 };
        let ghost e = *self;
        assert(e == boss_after_timers(*old(self)));
        if self.state == BossState::Attacking && self.attack_timer > 0 {
            self.attack_step(target, g);
        } else {
            self.pursue(target, g);
        }
    }
}


/// A live boss, not hurt, with its attack cooldown out and the target within
/// reach, commits to an attack on the next tick: the full countdown armed,
/// damage refused until it ends.
pub proof fn lemma_attack_commit(o: Boss, n: Boss, g: &Grid, t: Target, nt: Target)
    requires
        o.state == BossState::Idle || o.state == BossState::Chasing,
        o.health > 0,
        o.hurt_timer <= 1,
        o.attack_cooldown <= 1,
        sq_len(t.x - o.x, t.y - o.y) <= ATTACK_RANGE * ATTACK_RANGE,
        boss_tick(o, n, g, t, nt),
    ensures
        n.state == BossState::Attacking,
        n.attack_timer == ATTACK_DURATION,
        !n.can_take_damage,
        nt == t,
{
}

/// During an attack the target loses at most one health a tick, and only on
/// the tick at which the countdown reaches the impact frame.
pub proof fn lemma_single_blow(o: Boss, n: Boss, g: &Grid, t: Target, nt: Target)
    requires
        o.state == BossState::Attacking,
        o.attack_timer > 0,
        t.health > i32::MIN,
        boss_tick(o, n, g, t, nt),
    ensures
        nt.health == t.health || (nt.health == t.health - 1 && o.attack_timer == ATTACK_IMPACT_FRAME + 1),
        n.attack_timer == o.attack_timer - 1,
{
}

/// A dead boss stays dead; its countdown runs down one a tick; once its death
/// animation has finished it stays finished.
pub proof fn lemma_death_countdown(o: Boss, n: Boss, g: &Grid, t: Target, nt: Target)
    requires
        o.state == BossState::Dead,
        boss_tick(o, n, g, t, nt),
    ensures
        n.state == BossState::Dead,
        n.death_timer == dec(o.death_timer),
        n.finished() <==> o.death_timer <= 1,
        o.finished() ==> n.finished(),
        nt == t,
{
}

} // verus!
