//! What a watcher sees: a vision radius, a cone about its facing direction,
//! and a line of sight marched in short steps that walls interrupt.
//!
//! Directions are integer vectors. The cone's half-angle is 30 degrees: a
//! vector `d` lies in the cone about `f` when `f·d >= 0` and
//! `4 (f·d)^2 >= 3 |f|^2 |d|^2`, that is when `cos(angle) >= cos(30°)`.

use vstd::prelude::*;
use crate::tile::{Grid, grid_wf, wall_at_point, floor_at, is_wall, WORLD_LIMIT, TILE_UNITS};

verus! {

/// How far a watcher sees: 160 pixels.
pub const VISION_RADIUS: i64 = 16000;

/// Length of one step of the line-of-sight march: 4 pixels.
pub const RAY_STEP: i64 = 400;

/// Largest magnitude of a facing vector's components.
pub const FACING_LIMIT: i64 = 4_000_000_000;

/// Largest number of steps a march within the vision radius takes.
pub const MAX_STEPS: i64 = 40;

pub open spec fn sq_len(dx: int, dy: int) -> int {
    dx * dx + dy * dy
}

/// `d` lies within 30 degrees of `f` (a zero `d` always does).
pub open spec fn in_cone(fx: int, fy: int, dx: int, dy: int) -> bool {
    let dot = fx * dx + fy * dy;
    dot >= 0 && 4 * dot * dot >= 3 * sq_len(fx, fy) * sq_len(dx, dy)
}

pub open spec fn in_radius(dx: int, dy: int) -> bool {
    sq_len(dx, dy) <= VISION_RADIUS * VISION_RADIUS
}

/// The least `n` from `k` up (stopping at `MAX_STEPS + 1`) whose `n` steps
/// cover the squared distance `d2`.
pub open spec fn steps_from(d2: int, k: int) -> int
    decreases MAX_STEPS + 1 - k,
{
    if k >= MAX_STEPS + 1 || RAY_STEP * RAY_STEP * k * k >= d2 {
        k
    } else {
        steps_from(d2, k + 1)
    }
}

/// The number of steps of the march over squared distance `d2`: the distance
/// divided by the step length, rounded up.
pub open spec fn march_steps(d2: int) -> int {
    steps_from(d2, 0)
}

/// The `i`-th of `n` points sampled from `e` towards `e + d`.
pub open spec fn sample(e: int, d: int, i: int, n: int) -> int {
    e + (d * i) / n
}

/// No point sampled on the way from `(ex, ey)` towards `(ex + dx, ey + dy)` is on a wall.
pub open spec fn ray_clear(g: &Grid, ex: int, ey: int, dx: int, dy: int, n: int) -> bool {
    forall|i: int| 0 <= i < n ==> !#[trigger] wall_at_point(g, sample(ex, dx, i, n), sample(ey, dy, i, n))
}

/// Seen from `(ex, ey)` facing `(fx, fy)`, ignoring walls: within the radius
/// and the cone.
pub open spec fn sees_loosely(ex: int, ey: int, fx: int, fy: int, tx: int, ty: int) -> bool {
    in_radius(tx - ex, ty - ey) && in_cone(fx, fy, tx - ex, ty - ey)
}

/// Seen from `(ex, ey)` facing `(fx, fy)`: within the radius and the cone, and
/// no sampled point of the line of sight on a wall.
pub open spec fn sees(g: &Grid, ex: int, ey: int, fx: int, fy: int, tx: int, ty: int) -> bool {
    let dx = tx - ex;
    let dy = ty - ey;
    sees_loosely(ex, ey, fx, fy, tx, ty) && ray_clear(g, ex, ey, dx, dy, march_steps(sq_len(dx, dy)))
}

/// A point in the world, with room for the offsets the library adds.
pub open spec fn point_ok(x: int, y: int) -> bool {
    -2 * WORLD_LIMIT <= x <= 2 * WORLD_LIMIT && -2 * WORLD_LIMIT <= y <= 2 * WORLD_LIMIT
}

pub open spec fn facing_ok(fx: int, fy: int) -> bool {
    -FACING_LIMIT <= fx <= FACING_LIMIT && -FACING_LIMIT <= fy <= FACING_LIMIT
}

/// Whether `(dx, dy)` lies within the radius.
pub fn within_radius(dx: i64, dy: i64) -> (r: bool)
    requires
        -4 * WORLD_LIMIT <= dx <= 4 * WORLD_LIMIT,
        -4 * WORLD_LIMIT <= dy <= 4 * WORLD_LIMIT,
    ensures
        r == in_radius(dx as int, dy as int),
{
    let ddx = dx as i128;
    let ddy = dy as i128;
    let rr = VISION_RADIUS as i128;
    proof {
        assert(ddx * ddx <= 16 * WORLD_LIMIT * WORLD_LIMIT) by (nonlinear_arith)
            requires
                -4 * WORLD_LIMIT <= ddx <= 4 * WORLD_LIMIT,
        ;
        assert(ddy * ddy <= 16 * WORLD_LIMIT * WORLD_LIMIT) by (nonlinear_arith)
            requires
                -4 * WORLD_LIMIT <= ddy <= 4 * WORLD_LIMIT,
        ;
        assert(0 <= ddx * ddx) by (nonlinear_arith);
        assert(0 <= ddy * ddy) by (nonlinear_arith);
    }
    ddx * ddx + ddy * ddy <= rr * rr
}

/// Whether `(dx, dy)`, already within the radius, lies in the cone about `(fx, fy)`.
pub fn within_cone(fx: i64, fy: i64, dx: i64, dy: i64) -> (r: bool)
    requires
        facing_ok(fx as int, fy as int),
        in_radius(dx as int, dy as int),
    ensures
        r == in_cone(fx as int, fy as int, dx as int, dy as int),
{
    let (fx, fy, dx, dy) = (fx as i128, fy as i128, dx as i128, dy as i128);
    proof {
        let r = VISION_RADIUS as int;
        let fl = FACING_LIMIT as int;
        assert(dx * dx <= r * r && dy * dy <= r * r) by (nonlinear_arith)
            requires
                dx * dx + dy * dy <= r * r,
        ;
        assert(-r <= dx <= r && -r <= dy <= r) by (nonlinear_arith)
            requires
                dx * dx <= r * r,
                dy * dy <= r * r,
                r > 0,
        ;
        assert(-fl * r <= fx * dx <= fl * r && -fl * r <= fy * dy <= fl * r) by (nonlinear_arith)
            requires
                -fl <= fx <= fl,
                -fl <= fy <= fl,
                -r <= dx <= r,
                -r <= dy <= r,
                fl > 0,
                r > 0,
        ;
        assert(0 <= fx * fx <= fl * fl && 0 <= fy * fy <= fl * fl) by (nonlinear_arith)
            requires
                -fl <= fx <= fl,
                -fl <= fy <= fl,
        ;
        assert(0 <= dx * dx && 0 <= dy * dy) by (nonlinear_arith);
        let dot = fx * dx + fy * dy;
        assert(dot * dot <= 4 * fl * fl * r * r) by (nonlinear_arith)
            requires
                -2 * fl * r <= dot <= 2 * fl * r,
        ;
        assert((fx * fx + fy * fy) * (dx * dx + dy * dy) <= 2 * fl * fl * r * r) by (nonlinear_arith)
            requires
                0 <= fx * fx + fy * fy <= 2 * fl * fl,
                0 <= dx * dx + dy * dy <= r * r,
        ;
        assert(0 <= (fx * fx + fy * fy) * (dx * dx + dy * dy)) by (nonlinear_arith)
            requires
                0 <= fx * fx + fy * fy,
                0 <= dx * dx + dy * dy,
        ;
    }
    let dot = fx * dx + fy * dy;
    let ff = fx * fx + fy * fy;
    let dd = dx * dx + dy * dy;
    proof {
        assert(4 * dot * dot == 4 * (dot * dot)) by (nonlinear_arith);
        assert(3 * ff * dd == 3 * (ff * dd)) by (nonlinear_arith);
    }
    dot >= 0 && 4 * (dot * dot) >= 3 * (ff * dd)
}

/// `a / b` rounded down, for a positive `b`.
fn floor_div(a: i64, b: i64) -> (r: i64)
    requires
        b > 0,
        a > i64::MIN,
    ensures
        r == a as int / b as int,
{
    if a >= 0 {
        a / b
    } else {
        let q = (-a) / b;
        let m = (-a) % b;
        proof {
            let na: int = -(a as int);
            let bi: int = b as int;
            assert(q as int == na / bi);
            assert(m as int == na % bi);
            vstd::arithmetic::div_mod::lemma_fundamental_div_mod(na, bi);
            assert(na == bi * (q as int) + (m as int));
            let qi = q as int;
            if m == 0 {
                assert(a as int == (-qi) * bi) by (nonlinear_arith)
                    requires
                        na == bi * qi,
                        a as int == -na,
                ;
                vstd::arithmetic::div_mod::lemma_fundamental_div_mod_converse(a as int, bi, -qi, 0);
            } else {
                assert(a as int == (-qi - 1) * bi + (bi - m)) by (nonlinear_arith)
                    requires
                        na == bi * qi + m,
                        a as int == -na,
                ;
                vstd::arithmetic::div_mod::lemma_fundamental_div_mod_converse(a as int, bi, -qi - 1, bi - m);
            }
        }
        if m == 0 {
            -q
        } else {
            -q - 1
        }
    }
}

/// The number of march steps over squared distance `d2`, within the radius.
fn steps_for(d2: i64) -> (n: i64)
    requires
        0 <= d2 <= VISION_RADIUS * VISION_RADIUS,
    ensures
        n == march_steps(d2 as int),
        0 <= n <= MAX_STEPS,
{
    let mut n: i64 = 0;
    let mut covered: i64 = 0;
    while n < MAX_STEPS + 1 && covered < d2
        invariant
            0 <= n <= MAX_STEPS,
            0 <= d2 <= VISION_RADIUS * VISION_RADIUS,
            covered == RAY_STEP * RAY_STEP * n * n,
            steps_from(d2 as int, n as int) == march_steps(d2 as int),
        decreases MAX_STEPS + 1 - n,
    {
        proof {
            assert(n < MAX_STEPS) by (nonlinear_arith)
                requires
                    RAY_STEP * RAY_STEP * n * n < d2,
                    d2 <= VISION_RADIUS * VISION_RADIUS,
                    0 <= n,
            ;
            assert(RAY_STEP * RAY_STEP * (n + 1) * (n + 1) == covered + RAY_STEP * RAY_STEP * (2 * n + 1)) by (nonlinear_arith)
                requires
                    covered == RAY_STEP * RAY_STEP * n * n,
            ;
        }
        covered = covered + RAY_STEP * RAY_STEP * (2 * n + 1);
        n = n + 1;
    }
    n
}

/// Whether the march from `(ex, ey)` over `(dx, dy)` in `n` steps meets no wall.
fn march_clear(g: &Grid, ex: i64, ey: i64, dx: i64, dy: i64, n: i64) -> (r: bool)
    requires
        grid_wf(g),
        point_ok(ex as int, ey as int),
        -VISION_RADIUS <= dx <= VISION_RADIUS,
        -VISION_RADIUS <= dy <= VISION_RADIUS,
        1 <= n <= MAX_STEPS,
    ensures
        r == ray_clear(g, ex as int, ey as int, dx as int, dy as int, n as int),
{
    let mut i: i64 = 0;
    while i < n
        invariant
            grid_wf(g),
            point_ok(ex as int, ey as int),
            -VISION_RADIUS <= dx <= VISION_RADIUS,
            -VISION_RADIUS <= dy <= VISION_RADIUS,
            1 <= n <= MAX_STEPS,
            0 <= i <= n,
            forall|k: int| 0 <= k < i ==> !#[trigger] wall_at_point(g, sample(ex as int, dx as int, k, n as int), sample(ey as int, dy as int, k, n as int)),
        decreases n - i,
    {
        proof {
            let r = VISION_RADIUS as int;
            let m = MAX_STEPS as int;
            assert(-r * m <= dx * i <= r * m && -r * m <= dy * i <= r * m) by (nonlinear_arith)
                requires
                    -r <= dx <= r,
                    -r <= dy <= r,
                    0 <= i <= m,
                    r > 0,
            ;
            vstd::arithmetic::div_mod::lemma_div_is_ordered(-r * m, dx * i, n as int);
            vstd::arithmetic::div_mod::lemma_div_is_ordered(dx * i, r * m, n as int);
            vstd::arithmetic::div_mod::lemma_div_is_ordered(-r * m, dy * i, n as int);
            vstd::arithmetic::div_mod::lemma_div_is_ordered(dy * i, r * m, n as int);
            assert((-r * m) / (n as int) >= -r * m) by (nonlinear_arith)
                requires n >= 1, r > 0, m > 0;
            assert((r * m) / (n as int) <= r * m) by (nonlinear_arith)
                requires n >= 1, r > 0, m > 0;
        }
        let sx = ex + floor_div(dx * i, n);
        let sy = ey + floor_div(dy * i, n);
        if is_wall(g, sx, sy) {
            assert(wall_at_point(g, sample(ex as int, dx as int, i as int, n as int), sample(ey as int, dy as int, i as int, n as int)));
            return false;
        }
        i = i + 1;
    }
    true
}

/// Whether a watcher at `(ex, ey)` facing `(fx, fy)` sees the point `(tx, ty)`:
/// within the radius and the cone, with no wall on the line of sight.
pub fn can_see(g: &Grid, ex: i64, ey: i64, fx: i64, fy: i64, tx: i64, ty: i64) -> (r: bool)
    requires
        grid_wf(g),
        point_ok(ex as int, ey as int),
        point_ok(tx as int, ty as int),
        facing_ok(fx as int, fy as int),
    ensures
        r == sees(g, ex as int, ey as int, fx as int, fy as int, tx as int, ty as int),
{
    let dx = tx - ex;
    let dy = ty - ey;
    if !within_radius(dx, dy) {
        return false;
    }
    if !within_cone(fx, fy, dx, dy) {
        return false;
    }
    proof {
        let r = VISION_RADIUS as int;
        assert(-r <= dx <= r && -r <= dy <= r) by (nonlinear_arith)
            requires
                dx * dx + dy * dy <= r * r,
                r > 0,
        ;
        assert(0 <= dx * dx && 0 <= dy * dy) by (nonlinear_arith);
    }
    let n = steps_for(dx * dx + dy * dy);
    if n == 0 {
        return true;
    }
    march_clear(g, ex, ey, dx, dy, n)
}

/// Whether a watcher at `(ex, ey)` facing `(fx, fy)` would see `(tx, ty)` were
/// there no walls: within the radius and the cone.
pub fn can_see_ignoring_walls(ex: i64, ey: i64, fx: i64, fy: i64, tx: i64, ty: i64) -> (r: bool)
    requires
        point_ok(ex as int, ey as int),
        point_ok(tx as int, ty as int),
        facing_ok(fx as int, fy as int),
    ensures
        r == sees_loosely(ex as int, ey as int, fx as int, fy as int, tx as int, ty as int),
{
    let dx = tx - ex;
    let dy = ty - ey;
    within_radius(dx, dy) && within_cone(fx, fy, dx, dy)
}


/// Past the vision radius nothing is seen, in whatever direction, walls or not.
pub proof fn lemma_unseen_beyond_radius(g: &Grid, ex: int, ey: int, fx: int, fy: int, tx: int, ty: int)
    requires
        sq_len(tx - ex, ty - ey) > VISION_RADIUS * VISION_RADIUS,
    ensures
        !sees_loosely(ex, ey, fx, fy, tx, ty),
        !sees(g, ex, ey, fx, fy, tx, ty),
{
}

/// A point straight ahead, on the ray from the watcher along its facing
/// direction and within the radius, is in view; with a clear line of sight
/// it is seen.
pub proof fn lemma_seen_straight_ahead(g: &Grid, ex: int, ey: int, fx: int, fy: int, tx: int, ty: int)
    requires
        in_radius(tx - ex, ty - ey),
        (tx - ex) * fy == (ty - ey) * fx,
        fx * (tx - ex) + fy * (ty - ey) >= 0,
    ensures
        sees_loosely(ex, ey, fx, fy, tx, ty),
        ray_clear(g, ex, ey, tx - ex, ty - ey, march_steps(sq_len(tx - ex, ty - ey))) ==> sees(g, ex, ey, fx, fy, tx, ty),
{
    let dx = tx - ex;
    let dy = ty - ey;
    let dot = fx * dx + fy * dy;
    let c = fx * dy - fy * dx;
    let fxdx = fx * dx;
    let fydy = fy * dy;
    let fxdy = fx * dy;
    let fydx = fy * dx;
    assert(fxdx * fydy == fxdy * fydx) by (nonlinear_arith)
        requires
            fxdx == fx * dx,
            fydy == fy * dy,
            fxdy == fx * dy,
            fydx == fy * dx,
    ;
    let xx = fx * fx;
    let yy = fy * fy;
    let uu = dx * dx;
    let vv = dy * dy;
    assert(xx * uu == fxdx * fxdx) by (nonlinear_arith)
        requires
            fxdx == fx * dx,
            xx == fx * fx,
            uu == dx * dx,
    ;
    assert(xx * vv == fxdy * fxdy) by (nonlinear_arith)
        requires
            fxdy == fx * dy,
            xx == fx * fx,
            vv == dy * dy,
    ;
    assert(yy * uu == fydx * fydx) by (nonlinear_arith)
        requires
            fydx == fy * dx,
            yy == fy * fy,
            uu == dx * dx,
    ;
    assert(yy * vv == fydy * fydy) by (nonlinear_arith)
        requires
            fydy == fy * dy,
            yy == fy * fy,
            vv == dy * dy,
    ;
    assert((xx + yy) * (uu + vv) == xx * uu + xx * vv + yy * uu + yy * vv) by (nonlinear_arith);
    assert(dot * dot + c * c == fxdx * fxdx + 2 * (fxdx * fydy) + fydy * fydy + fxdy * fxdy - 2 * (fxdy * fydx) + fydx * fydx) by (nonlinear_arith)
        requires
            dot == fxdx + fydy,
            c == fxdy - fydx,
    ;
    assert(c == 0) by (nonlinear_arith)
        requires
            c == fx * dy - fy * dx,
            dx * fy == dy * fx,
    ;
    assert((fx * fx + fy * fy) * (dx * dx + dy * dy) >= 0) by (nonlinear_arith);
    assert(4 * dot * dot >= 3 * (fx * fx + fy * fy) * (dx * dx + dy * dy)) by (nonlinear_arith)
        requires
            dot * dot == (fx * fx + fy * fy) * (dx * dx + dy * dy),
            (fx * fx + fy * fy) * (dx * dx + dy * dy) >= 0,
    ;
}

/// A wall under any sampled point of the line of sight hides the target.
pub proof fn lemma_wall_occludes(g: &Grid, ex: int, ey: int, fx: int, fy: int, tx: int, ty: int, i: int)
    requires
        0 <= i < march_steps(sq_len(tx - ex, ty - ey)),
        wall_at_point(
            g,
            sample(ex, tx - ex, i, march_steps(sq_len(tx - ex, ty - ey))),
            sample(ey, ty - ey, i, march_steps(sq_len(tx - ex, ty - ey))),
        ),
    ensures
        !sees(g, ex, ey, fx, fy, tx, ty),
{
}


proof fn lemma_steps_from(d2: int, k: int)
    requires
        0 <= k <= MAX_STEPS,
        0 <= d2 <= VISION_RADIUS * VISION_RADIUS,
    ensures
        k <= steps_from(d2, k) <= MAX_STEPS,
        RAY_STEP * RAY_STEP * steps_from(d2, k) * steps_from(d2, k) >= d2,
    decreases MAX_STEPS + 1 - k,
{
    if RAY_STEP * RAY_STEP * k * k < d2 {
        if k == MAX_STEPS {
            assert(RAY_STEP * RAY_STEP * MAX_STEPS * MAX_STEPS == VISION_RADIUS * VISION_RADIUS) by (nonlinear_arith)
                requires
                    RAY_STEP == 400,
                    MAX_STEPS == 40,
                    VISION_RADIUS == 16000,
            ;
        }
        lemma_steps_from(d2, k + 1);
    }
}

/// Consecutive sampled points are at most one step apart, and in order.
proof fn lemma_sample_gap(e: int, d: int, j: int, n: int)
    requires
        n >= 1,
        0 <= d <= RAY_STEP * n,
        1 <= j,
    ensures
        sample(e, d, j - 1, n) <= sample(e, d, j, n) <= sample(e, d, j - 1, n) + RAY_STEP,
{
    assert(d * (j - 1) <= d * j && d * j <= d * (j - 1) + RAY_STEP * n) by (nonlinear_arith)
        requires
            0 <= d <= RAY_STEP * n,
            1 <= j,
    ;
    vstd::arithmetic::div_mod::lemma_div_is_ordered(d * (j - 1), d * j, n);
    vstd::arithmetic::div_mod::lemma_div_is_ordered(d * j, d * (j - 1) + RAY_STEP * n, n);
    vstd::arithmetic::div_mod::lemma_hoist_over_denominator(d * (j - 1), RAY_STEP as int, n as nat);
}

/// Walking the samples from one left of `lo` to the last, which is not,
/// some sample lands within one step past `lo`.
proof fn lemma_crossing(e: int, d: int, n: int, lo: int, i: int)
    requires
        n >= 1,
        0 <= d <= RAY_STEP * n,
        0 <= i < n,
        sample(e, d, i, n) < lo,
        sample(e, d, n - 1, n) >= lo,
    ensures
        exists|j: int| 0 <= j < n && lo <= #[trigger] sample(e, d, j, n) < lo + RAY_STEP,
    decreases n - i,
{
    lemma_sample_gap(e, d, i + 1, n);
    if sample(e, d, i + 1, n) >= lo {
        assert(lo <= sample(e, d, i + 1, n) < lo + RAY_STEP);
    } else {
        lemma_crossing(e, d, n, lo, i + 1);
    }
}

/// On a horizontal line of sight with the target to the right of the watcher,
/// a wall tile lying wholly between the two hides the target: the march
/// samples a point inside it.
pub proof fn lemma_wall_across_row_occludes(g: &Grid, ex: int, ey: int, fx: int, fy: int, tx: int, c: int)
    requires
        ex < c * TILE_UNITS,
        (c + 1) * TILE_UNITS <= tx,
        !floor_at(g, c, ey / (TILE_UNITS as int)),
    ensures
        !sees(g, ex, ey, fx, fy, tx, ey),
{
    let d = tx - ex;
    if in_radius(d, 0) {
        let d2 = sq_len(d, 0);
        assert(0 <= d2 <= VISION_RADIUS * VISION_RADIUS) by (nonlinear_arith)
            requires
                d2 == d * d + 0 * 0,
                d2 <= VISION_RADIUS * VISION_RADIUS,
        ;
        lemma_steps_from(d2, 0);
        let n = march_steps(d2);
        assert(d > 0);
        assert(n >= 1) by (nonlinear_arith)
            requires
                RAY_STEP * RAY_STEP * n * n >= d2,
                d2 == d * d + 0 * 0,
                d > 0,
                n >= 0,
        ;
        assert(d <= RAY_STEP * n) by (nonlinear_arith)
            requires
                RAY_STEP * RAY_STEP * n * n >= d2,
                d2 == d * d + 0 * 0,
                d > 0,
                n >= 1,
        ;
        assert(d * (n - 1) >= (d - RAY_STEP) * n) by (nonlinear_arith)
            requires
                d <= RAY_STEP * n,
        ;
        vstd::arithmetic::div_mod::lemma_div_is_ordered((d - RAY_STEP) * n, d * (n - 1), n);
        vstd::arithmetic::div_mod::lemma_div_multiples_vanish(d - RAY_STEP, n);
        assert((d - RAY_STEP) * n == n * (d - RAY_STEP)) by (nonlinear_arith);
        assert(sample(ex, d, 0, n) == ex) by {
            assert(d * 0 == 0);
            vstd::arithmetic::div_mod::lemma_div_basics(n);
        }
        let lo = c * TILE_UNITS;
        lemma_crossing(ex, d, n, lo, 0);
        let j = choose|j: int| 0 <= j < n && lo <= #[trigger] sample(ex, d, j, n) < lo + RAY_STEP;
        let sx = sample(ex, d, j, n);
        vstd::arithmetic::div_mod::lemma_fundamental_div_mod_converse(sx, TILE_UNITS as int, c, sx - lo);
        assert(sample(ey, 0, j, n) == ey) by {
            assert(0 * j == 0);
            vstd::arithmetic::div_mod::lemma_div_basics(n);
        }
        assert(wall_at_point(g, sample(ex, d, j, n), sample(ey, 0, j, n)));
        assert(!ray_clear(g, ex, ey, d, ey - ey, march_steps(sq_len(d, ey - ey))));
    }
}

/// On a vertical line of sight with the target below the watcher, a wall
/// tile lying wholly between the two hides the target.
pub proof fn lemma_wall_across_column_occludes(g: &Grid, ex: int, ey: int, fx: int, fy: int, ty: int, c: int)
    requires
        ey < c * TILE_UNITS,
        (c + 1) * TILE_UNITS <= ty,
        !floor_at(g, ex / (TILE_UNITS as int), c),
    ensures
        !sees(g, ex, ey, fx, fy, ex, ty),
{
    let d = ty - ey;
    if in_radius(0, d) {
        let d2 = sq_len(0, d);
        assert(0 <= d2 <= VISION_RADIUS * VISION_RADIUS) by (nonlinear_arith)
            requires
                d2 == 0 * 0 + d * d,
                d2 <= VISION_RADIUS * VISION_RADIUS,
        ;
        lemma_steps_from(d2, 0);
        let n = march_steps(d2);
        assert(d > 0);
        assert(n >= 1) by (nonlinear_arith)
            requires
                RAY_STEP * RAY_STEP * n * n >= d2,
                d2 == 0 * 0 + d * d,
                d > 0,
                n >= 0,
        ;
        assert(d <= RAY_STEP * n) by (nonlinear_arith)
            requires
                RAY_STEP * RAY_STEP * n * n >= d2,
                d2 == 0 * 0 + d * d,
                d > 0,
                n >= 1,
        ;
        assert(d * (n - 1) >= (d - RAY_STEP) * n) by (nonlinear_arith)
            requires
                d <= RAY_STEP * n,
        ;
        vstd::arithmetic::div_mod::lemma_div_is_ordered((d - RAY_STEP) * n, d * (n - 1), n);
        vstd::arithmetic::div_mod::lemma_div_multiples_vanish(d - RAY_STEP, n);
        assert((d - RAY_STEP) * n == n * (d - RAY_STEP)) by (nonlinear_arith);
        assert(sample(ey, d, 0, n) == ey) by {
            assert(d * 0 == 0);
            vstd::arithmetic::div_mod::lemma_div_basics(n);
        }
        let lo = c * TILE_UNITS;
        lemma_crossing(ey, d, n, lo, 0);
        let j = choose|j: int| 0 <= j < n && lo <= #[trigger] sample(ey, d, j, n) < lo + RAY_STEP;
        let sy = sample(ey, d, j, n);
        vstd::arithmetic::div_mod::lemma_fundamental_div_mod_converse(sy, TILE_UNITS as int, c, sy - lo);
        assert(sample(ex, 0, j, n) == ex) by {
            assert(0 * j == 0);
            vstd::arithmetic::div_mod::lemma_div_basics(n);
        }
        assert(wall_at_point(g, sample(ex, 0, j, n), sample(ey, d, j, n)));
        assert(!ray_clear(g, ex, ey, ex - ex, d, march_steps(sq_len(ex - ex, d))));
    }
}

/// Consecutive sampled points towards a smaller coordinate are at most one
/// step apart, and in decreasing order.
proof fn lemma_sample_gap_down(e: int, d: int, j: int, n: int)
    requires
        n >= 1,
        -RAY_STEP * n <= d <= 0,
        1 <= j,
    ensures
        sample(e, d, j - 1, n) - RAY_STEP <= sample(e, d, j, n) <= sample(e, d, j - 1, n),
{
    assert(d * j <= d * (j - 1) && d * (j - 1) - RAY_STEP * n <= d * j) by (nonlinear_arith)
        requires
            -RAY_STEP * n <= d <= 0,
            1 <= j,
    ;
    vstd::arithmetic::div_mod::lemma_div_is_ordered(d * j, d * (j - 1), n);
    vstd::arithmetic::div_mod::lemma_div_is_ordered(d * (j - 1) - RAY_STEP * n, d * j, n);
    vstd::arithmetic::div_mod::lemma_hoist_over_denominator(d * (j - 1) - RAY_STEP * n, RAY_STEP as int, n as nat);
    assert(d * (j - 1) - RAY_STEP * n + RAY_STEP * n == d * (j - 1));
}

proof fn lemma_crossing_down(e: int, d: int, n: int, hi: int, i: int)
    requires
        n >= 1,
        -RAY_STEP * n <= d <= 0,
        0 <= i < n,
        sample(e, d, i, n) >= hi,
        sample(e, d, n - 1, n) < hi,
    ensures
        exists|j: int| 0 <= j < n && hi - RAY_STEP <= #[trigger] sample(e, d, j, n) < hi,
    decreases n - i,
{
    lemma_sample_gap_down(e, d, i + 1, n);
    if sample(e, d, i + 1, n) < hi {
        assert(hi - RAY_STEP <= sample(e, d, i + 1, n) < hi);
    } else {
        lemma_crossing_down(e, d, n, hi, i + 1);
    }
}

/// The march over a negative offset `d` within the radius: at least one
/// step, steps no longer than `RAY_STEP`, the last sample within a step of the end.
proof fn lemma_march_down(e: int, d: int)
    requires
        d < 0,
        sq_len(d, 0) <= VISION_RADIUS * VISION_RADIUS,
    ensures
        march_steps(sq_len(d, 0)) >= 1,
        -RAY_STEP * march_steps(sq_len(d, 0)) <= d,
        sample(e, d, 0, march_steps(sq_len(d, 0))) == e,
        sample(e, d, march_steps(sq_len(d, 0)) - 1, march_steps(sq_len(d, 0))) <= e + d + RAY_STEP,
{
    let d2 = sq_len(d, 0);
    assert(0 <= d2) by (nonlinear_arith)
        requires
            d2 == d * d + 0 * 0,
    ;
    lemma_steps_from(d2, 0);
    let n = march_steps(d2);
    assert(n >= 1) by (nonlinear_arith)
        requires
            RAY_STEP * RAY_STEP * n * n >= d2,
            d2 == d * d + 0 * 0,
            d < 0,
            n >= 0,
    ;
    assert(-RAY_STEP * n <= d) by (nonlinear_arith)
        requires
            RAY_STEP * RAY_STEP * n * n >= d2,
            d2 == d * d + 0 * 0,
            d < 0,
            n >= 1,
    ;
    assert(d * (n - 1) <= (d + RAY_STEP) * n) by (nonlinear_arith)
        requires
            -RAY_STEP * n <= d,
    ;
    vstd::arithmetic::div_mod::lemma_div_is_ordered(d * (n - 1), (d + RAY_STEP) * n, n);
    vstd::arithmetic::div_mod::lemma_div_multiples_vanish(d + RAY_STEP, n);
    assert((d + RAY_STEP) * n == n * (d + RAY_STEP)) by (nonlinear_arith);
    assert(d * 0 == 0);
    vstd::arithmetic::div_mod::lemma_div_basics(n);
}

/// On a horizontal line of sight with the target to the left of the watcher,
/// a wall tile lying wholly between the two hides the target.
pub proof fn lemma_wall_across_row_occludes_leftward(g: &Grid, ex: int, ey: int, fx: int, fy: int, tx: int, c: int)
    requires
        tx < c * TILE_UNITS,
        (c + 1) * TILE_UNITS <= ex,
        !floor_at(g, c, ey / (TILE_UNITS as int)),
    ensures
        !sees(g, ex, ey, fx, fy, tx, ey),
{
    let d = tx - ex;
    if in_radius(d, 0) {
        lemma_march_down(ex, d);
        let n = march_steps(sq_len(d, 0));
        let hi = (c + 1) * TILE_UNITS;
        lemma_crossing_down(ex, d, n, hi, 0);
        let j = choose|j: int| 0 <= j < n && hi - RAY_STEP <= #[trigger] sample(ex, d, j, n) < hi;
        let sx = sample(ex, d, j, n);
        vstd::arithmetic::div_mod::lemma_fundamental_div_mod_converse(sx, TILE_UNITS as int, c, sx - c * TILE_UNITS);
        assert(sample(ey, 0, j, n) == ey) by {
            assert(0 * j == 0);
            vstd::arithmetic::div_mod::lemma_div_basics(n);
        }
        assert(wall_at_point(g, sample(ex, d, j, n), sample(ey, 0, j, n)));
        assert(!ray_clear(g, ex, ey, d, ey - ey, march_steps(sq_len(d, ey - ey))));
    }
}

/// On a vertical line of sight with the target above the watcher, a wall
/// tile lying wholly between the two hides the target.
pub proof fn lemma_wall_across_column_occludes_upward(g: &Grid, ex: int, ey: int, fx: int, fy: int, ty: int, c: int)
    requires
        ty < c * TILE_UNITS,
        (c + 1) * TILE_UNITS <= ey,
        !floor_at(g, ex / (TILE_UNITS as int), c),
    ensures
        !sees(g, ex, ey, fx, fy, ex, ty),
{
    let d = ty - ey;
    if in_radius(0, d) {
        assert(sq_len(0, d) == sq_len(d, 0));
        lemma_march_down(ey, d);
        let n = march_steps(sq_len(0, d));
        let hi = (c + 1) * TILE_UNITS;
        lemma_crossing_down(ey, d, n, hi, 0);
        let j = choose|j: int| 0 <= j < n && hi - RAY_STEP <= #[trigger] sample(ey, d, j, n) < hi;
        let sy = sample(ey, d, j, n);
        vstd::arithmetic::div_mod::lemma_fundamental_div_mod_converse(sy, TILE_UNITS as int, c, sy - c * TILE_UNITS);
        assert(sample(ex, 0, j, n) == ex) by {
            assert(0 * j == 0);
            vstd::arithmetic::div_mod::lemma_div_basics(n);
        }
        assert(wall_at_point(g, sample(ex, 0, j, n), sample(ey, d, j, n)));
        assert(!ray_clear(g, ex, ey, ex - ex, d, march_steps(sq_len(ex - ex, d))));
    }
}

} // verus!
