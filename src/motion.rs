//! Integer square roots and steps of a given speed towards a point.

use vstd::prelude::*;

verus! {

/// `r` is the square root of `n`, rounded down.
pub open spec fn is_root(n: int, r: int) -> bool {
    0 <= r && r * r <= n < (r + 1) * (r + 1)
}

/// Bound on the squared lengths whose roots are taken.
pub const ROOT_LIMIT: u64 = 0x4000_0000_0000_0000;

/// The square root of `n`, rounded down, for `n >= 0`.
pub open spec fn root(n: int) -> int {
    choose|r: int| is_root(n, r)
}

proof fn lemma_root_unique(n: int, r1: int, r2: int)
    requires
        is_root(n, r1),
        is_root(n, r2),
    ensures
        r1 == r2,
{
    if r1 < r2 {
        assert((r1 + 1) * (r1 + 1) <= r2 * r2) by (nonlinear_arith)
            requires
                0 <= r1 < r2,
        ;
    } else if r2 < r1 {
        assert((r2 + 1) * (r2 + 1) <= r1 * r1) by (nonlinear_arith)
            requires
                0 <= r2 < r1,
        ;
    }
}

/// The square root of `n`, rounded down.
pub fn isqrt(n: u64) -> (r: u64)
    requires
        n < ROOT_LIMIT,
    ensures
        is_root(n as int, r as int),
        r == root(n as int),
{
    let mut lo: u64 = 0;
    let mut hi: u64 = 0x1_0000_0000;
    proof {
        assert(0x1_0000_0000u64 * 0x1_0000_0000u64 > n) by (nonlinear_arith)
            requires
                n < 0x4000_0000_0000_0000u64,
        ;
    }
    while hi - lo > 1
        invariant
            lo < hi <= 0x1_0000_0000,
            lo * lo <= n,
            n < hi * hi,
        decreases hi - lo,
    {
        let mid = lo + (hi - lo) / 2;
        proof {
            assert(mid * mid <= 0xFFFF_FFFE_0000_0001u64) by (nonlinear_arith)
                requires
                    mid <= 0xFFFF_FFFFu64,
            ;
        }
        if mid * mid <= n {
            lo = mid;
        } else {
            hi = mid;
        }
    }
    assert(hi == lo + 1);
    proof {
        lemma_root_unique(n as int, lo as int, root(n as int));
    }
    lo
}

/// `a / b` rounded towards zero.
pub open spec fn div_trunc(a: int, b: int) -> int {
    if a >= 0 {
        a / b
    } else {
        -((-a) / b)
    }
}

/// The component along `d` of a step of length `speed` in direction `(dx, dy)`
/// whose length, rounded down, is `len`.
pub open spec fn step_part(d: int, speed: int, len: int) -> int {
    div_trunc(d * speed, len)
}

/// A step of `speed` units from the origin towards `(dx, dy)`, each part
/// rounded towards zero; none when `(dx, dy)` is zero.
pub open spec fn step_toward(dx: int, dy: int, speed: int, len: int) -> (int, int) {
    if len == 0 {
        (0, 0)
    } else {
        (step_part(dx, speed, len), step_part(dy, speed, len))
    }
}

/// The largest magnitude of a direction's components.
pub const DIR_LIMIT: i64 = 0x4000_0000;

/// Largest speed, in world units per tick.
pub const SPEED_LIMIT: i64 = 1000;

/// The square root of `n`, rounded up, for `n >= 0`.
pub open spec fn root_up(n: int) -> int {
    if root(n) * root(n) == n {
        root(n)
    } else {
        root(n) + 1
    }
}

/// A step of `speed` units towards `(dx, dy)`: each part divided by the
/// length rounded up, then rounded towards zero, so the step is never longer
/// than `speed`.
pub open spec fn stride(dx: int, dy: int, speed: int) -> (int, int) {
    step_toward(dx, dy, speed, root_up(dx * dx + dy * dy))
}

/// Parts `qx`, `qy` of a step, each at most `|d| * speed / l` with `l * l`
/// at least the squared length, make a step no longer than `speed`.
proof fn lemma_step_len(ax: int, ay: int, speed: int, l: int, n: int, qx: int, qy: int)
    requires
        0 <= ax,
        0 <= ay,
        0 <= speed,
        l >= 1,
        n == ax * ax + ay * ay,
        n <= l * l,
        qx == (ax * speed) / l,
        qy == (ay * speed) / l,
    ensures
        qx * qx + qy * qy <= speed * speed,
        0 <= qx <= speed,
        0 <= qy <= speed,
{
    let px = ax * speed;
    let py = ay * speed;
    assert(0 <= px && 0 <= py) by (nonlinear_arith)
        requires
            px == ax * speed,
            py == ay * speed,
            0 <= ax,
            0 <= ay,
            0 <= speed,
    ;
    vstd::arithmetic::div_mod::lemma_fundamental_div_mod(px, l);
    vstd::arithmetic::div_mod::lemma_fundamental_div_mod(py, l);
    vstd::arithmetic::div_mod::lemma_div_pos_is_pos(px, l);
    vstd::arithmetic::div_mod::lemma_div_pos_is_pos(py, l);
    let xl = qx * l;
    let yl = qy * l;
    assert(0 <= xl <= px) by (nonlinear_arith)
        requires
            px == l * qx + px % l,
            0 <= px % l,
            0 <= qx,
            l >= 1,
            xl == qx * l,
    ;
    assert(0 <= yl <= py) by (nonlinear_arith)
        requires
            py == l * qy + py % l,
            0 <= py % l,
            0 <= qy,
            l >= 1,
            yl == qy * l,
    ;
    assert(xl * xl <= px * px) by (nonlinear_arith)
        requires
            0 <= xl <= px,
    ;
    assert(yl * yl <= py * py) by (nonlinear_arith)
        requires
            0 <= yl <= py,
    ;
    assert(px * px + py * py == n * (speed * speed)) by (nonlinear_arith)
        requires
            px == ax * speed,
            py == ay * speed,
            n == ax * ax + ay * ay,
    ;
    assert(n * (speed * speed) <= (l * l) * (speed * speed)) by (nonlinear_arith)
        requires
            n <= l * l,
    ;
    assert(xl * xl + yl * yl == (qx * qx + qy * qy) * (l * l)) by (nonlinear_arith)
        requires
            xl == qx * l,
            yl == qy * l,
    ;
    assert(qx * qx + qy * qy <= speed * speed) by (nonlinear_arith)
        requires
            (qx * qx + qy * qy) * (l * l) <= (l * l) * (speed * speed),
            l >= 1,
    ;
    assert(qx <= speed && qy <= speed) by (nonlinear_arith)
        requires
            qx * qx + qy * qy <= speed * speed,
            0 <= qx,
            0 <= qy,
            0 <= speed,
    ;
}

/// A step of `speed` towards `(dx, dy)`, never longer than `speed`.
pub fn step_to(dx: i64, dy: i64, speed: i64) -> (r: (i64, i64))
    requires
        -DIR_LIMIT <= dx <= DIR_LIMIT,
        -DIR_LIMIT <= dy <= DIR_LIMIT,
        0 <= speed <= SPEED_LIMIT,
    ensures
        (r.0 as int, r.1 as int) == stride(dx as int, dy as int, speed as int),
        r.0 * r.0 + r.1 * r.1 <= speed * speed,
        -speed <= r.0 <= speed,
        -speed <= r.1 <= speed,
{
    proof {
        assert(0 <= dx * dx <= DIR_LIMIT * DIR_LIMIT) by (nonlinear_arith)
            requires
                -DIR_LIMIT <= dx <= DIR_LIMIT,
        ;
        assert(0 <= dy * dy <= DIR_LIMIT * DIR_LIMIT) by (nonlinear_arith)
            requires
                -DIR_LIMIT <= dy <= DIR_LIMIT,
        ;
    }
    let n = (dx * dx + dy * dy) as u64;
    let root_down = isqrt(n);
    proof {
        let r = root_down as int;
        assert(r * r <= n as int);
        assert(r < 0x8000_0000) by (nonlinear_arith)
            requires
                r * r <= n as int,
                n < 0x4000_0000_0000_0000u64,
                r >= 0,
        ;
    }
    if root_down == 0 {
        assert((n as int) < 1) by (nonlinear_arith)
            requires
                (n as int) < (root_down as int + 1) * (root_down as int + 1),
                root_down == 0,
        ;
        assert(n == 0);
        assert(root_up(0) == 0);
        return (0, 0);
    }
    let len: u64 = if root_down * root_down == n { root_down } else { root_down + 1 };
    proof {
        let l = len as int;
        let ni = n as int;
        assert(ni <= l * l);
        assert(l <= 0x1_0000_0000);
        assert(dx * dx <= l * l && dy * dy <= l * l);
        assert(-l <= dx <= l) by (nonlinear_arith)
            requires
                dx * dx <= l * l,
                l >= 0,
        ;
        assert(-l <= dy <= l) by (nonlinear_arith)
            requires
                dy * dy <= l * l,
                l >= 0,
        ;
        assert(-(l * speed) <= dx * speed <= l * speed) by (nonlinear_arith)
            requires
                -l <= dx <= l,
                0 <= speed,
        ;
        assert(-(l * speed) <= dy * speed <= l * speed) by (nonlinear_arith)
            requires
                -l <= dy <= l,
                0 <= speed,
        ;
        assert(l * speed <= 0x1_0000_0000 * SPEED_LIMIT) by (nonlinear_arith)
            requires
                l <= 0x1_0000_0000,
                0 <= speed <= SPEED_LIMIT,
                l >= 0,
        ;
    }
    let l = len as i64;
    let ax = if dx >= 0 { dx } else { -dx };
    let ay = if dy >= 0 { dy } else { -dy };
    proof {
        assert(0 <= ax * speed <= l * speed && 0 <= ay * speed <= l * speed) by (nonlinear_arith)
            requires
                0 <= ax <= l,
                0 <= ay <= l,
                0 <= speed,
        ;
    }
    let qx = (ax * speed) / l;
    let qy = (ay * speed) / l;
    proof {
        assert(ax * speed == if dx * speed >= 0 { dx * speed } else { -(dx * speed) }) by (nonlinear_arith)
            requires
                ax == if dx >= 0 { dx as int } else { -dx },
                0 <= speed,
        ;
        assert(ay * speed == if dy * speed >= 0 { dy * speed } else { -(dy * speed) }) by (nonlinear_arith)
            requires
                ay == if dy >= 0 { dy as int } else { -dy },
                0 <= speed,
        ;
        assert(ax * ax == dx * dx && ay * ay == dy * dy) by (nonlinear_arith)
            requires
                ax == if dx >= 0 { dx as int } else { -dx },
                ay == if dy >= 0 { dy as int } else { -dy },
        ;
        lemma_step_len(ax as int, ay as int, speed as int, l as int, n as int, qx as int, qy as int);
    }
    let sx = if dx >= 0 { qx } else { -qx };
    let sy = if dy >= 0 { qy } else { -qy };
    proof {
        if dx * speed == 0 && dx < 0 {
            assert(qx == 0);
        }
        if dy * speed == 0 && dy < 0 {
            assert(qy == 0);
        }
        assert(root(n as int) == root_down as int);
        assert(l as int == root_up(dx * dx + dy * dy));
        if dx < 0 && speed > 0 {
            assert(dx * speed < 0) by (nonlinear_arith)
                requires
                    dx < 0,
                    speed > 0,
            ;
        }
        if dy < 0 && speed > 0 {
            assert(dy * speed < 0) by (nonlinear_arith)
                requires
                    dy < 0,
                    speed > 0,
            ;
        }
        if dx >= 0 {
            assert(dx * speed >= 0) by (nonlinear_arith)
                requires
                    dx >= 0,
                    speed >= 0,
            ;
        }
        if dy >= 0 {
            assert(dy * speed >= 0) by (nonlinear_arith)
                requires
                    dy >= 0,
                    speed >= 0,
            ;
        }
        if speed == 0 {
            assert(dx * speed == 0 && dy * speed == 0 && ax * speed == 0 && ay * speed == 0) by (nonlinear_arith)
                requires
                    speed == 0,
            ;
        }
        assert(sx as int == div_trunc(dx * speed, l as int));
        assert(sy as int == div_trunc(dy * speed, l as int));
        assert((sx as int, sy as int) == step_toward(dx as int, dy as int, speed as int, l as int));
        assert(sx * sx == qx * qx && sy * sy == qy * qy) by (nonlinear_arith)
            requires
                sx == qx || sx == -qx,
                sy == qy || sy == -qy,
        ;
    }
    (sx, sy)
}

} // verus!
