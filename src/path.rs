//! Walks over floor tiles: flood-fill reachability, A* search, nearest-floor repair.

use vstd::prelude::*;
use crate::tile::{Grid, MAX_SIDE, grid_wf, in_grid, floor_at, width, height, tile_is_floor};

verus! {

/// A tile coordinate: (column, row).
pub type Pos = (usize, usize);

/// `a` and `b` are 4-connected neighbours.
pub open spec fn step(a: Pos, b: Pos) -> bool {
    let dx = a.0 as int - b.0 as int;
    let dy = a.1 as int - b.1 as int;
    (dx == 0 && (dy == 1 || dy == -1)) || (dy == 0 && (dx == 1 || dx == -1))
}

/// A walk stands on floor tiles only, its start included, and moves between
/// 4-connected neighbours.
pub open spec fn is_walk(g: &Grid, p: Seq<Pos>) -> bool {
    &&& p.len() >= 1
    &&& floor_at(g, p[0].0 as int, p[0].1 as int)
    &&& forall|i: int| 1 <= i < p.len() ==> floor_at(g, #[trigger] p[i].0 as int, p[i].1 as int)
    &&& forall|i: int| 0 <= i < p.len() - 1 ==> #[trigger] step(p[i], p[i + 1])
}

pub open spec fn walk_from_to(g: &Grid, p: Seq<Pos>, s: Pos, t: Pos) -> bool {
    is_walk(g, p) && p[0] == s && p.last() == t
}

/// Some walk leads from `s` to `t`.
pub open spec fn reachable(g: &Grid, s: Pos, t: Pos) -> bool {
    exists|p: Seq<Pos>| walk_from_to(g, p, s, t)
}

/// Manhattan distance between two tiles.
pub open spec fn manhattan(a: Pos, b: Pos) -> int {
    let dx = a.0 as int - b.0 as int;
    let dy = a.1 as int - b.1 as int;
    (if dx >= 0 { dx } else { -dx }) + (if dy >= 0 { dy } else { -dy })
}

pub open spec fn idx(w: int, x: int, y: int) -> int {
    y * w + x
}

pub open spec fn cell_flag(s: Seq<bool>, w: int, x: int, y: int) -> bool {
    s[idx(w, x, y)]
}

pub open spec fn count_true(s: Seq<bool>) -> nat
    decreases s.len(),
{
    if s.len() == 0 {
        0
    } else {
        count_true(s.drop_last()) + if s.last() { 1nat } else { 0nat }
    }
}

proof fn lemma_count_le(s: Seq<bool>)
    ensures
        count_true(s) <= s.len(),
    decreases s.len(),
{
    if s.len() > 0 {
        lemma_count_le(s.drop_last());
    }
}

proof fn lemma_count_set(s: Seq<bool>, i: int, b: bool)
    requires
        0 <= i < s.len(),
    ensures
        count_true(s.update(i, b)) + (if s[i] { 1int } else { 0int })
            == count_true(s) + (if b { 1int } else { 0int }),
    decreases s.len(),
{
    let t = s.update(i, b);
    if i == s.len() - 1 {
        assert(t.drop_last() =~= s.drop_last());
    } else {
        assert(t.drop_last() =~= s.drop_last().update(i, b));
        lemma_count_set(s.drop_last(), i, b);
    }
}

proof fn lemma_count_none(s: Seq<bool>)
    requires
        forall|i: int| 0 <= i < s.len() ==> !#[trigger] s[i],
    ensures
        count_true(s) == 0,
    decreases s.len(),
{
    if s.len() > 0 {
        lemma_count_none(s.drop_last());
    }
}

proof fn lemma_count_push(s: Seq<bool>, b: bool)
    ensures
        count_true(s.push(b)) == count_true(s) + (if b { 1nat } else { 0nat }),
{
    assert(s.push(b).drop_last() =~= s);
}

proof fn lemma_idx(w: int, h: int, x: int, y: int)
    requires
        0 <= x < w <= MAX_SIDE,
        0 <= y < h <= MAX_SIDE,
    ensures
        0 <= idx(w, x, y) < w * h,
        w * h <= MAX_SIDE * MAX_SIDE,
        0 <= y * w <= idx(w, x, y),
{
    assert(w * h <= MAX_SIDE * MAX_SIDE) by (nonlinear_arith)
        requires
            0 <= w <= MAX_SIDE,
            0 <= h <= MAX_SIDE,
    ;
    assert(0 <= y * w) by (nonlinear_arith)
        requires
            0 <= w,
            0 <= y,
    ;
    assert(0 <= y * w + x < w * h) by (nonlinear_arith)
        requires
            0 <= x < w,
            0 <= y < h,
    ;
}

proof fn lemma_idx_inj(w: int, x1: int, y1: int, x2: int, y2: int)
    requires
        0 <= x1 < w,
        0 <= x2 < w,
        0 <= y1,
        0 <= y2,
        x1 != x2 || y1 != y2,
    ensures
        idx(w, x1, y1) != idx(w, x2, y2),
{
    if y1 == y2 {
    } else if y1 < y2 {
        assert(y1 * w + x1 < y2 * w + x2) by (nonlinear_arith)
            requires
                0 <= x1 < w,
                0 <= x2,
                y1 < y2,
        ;
    } else {
        assert(y2 * w + x2 < y1 * w + x1) by (nonlinear_arith)
            requires
                0 <= x2 < w,
                0 <= x1,
                y2 < y1,
        ;
    }
}

/// Extending a walk by one floor neighbour gives a walk.
proof fn lemma_reach_step(g: &Grid, s: Pos, c: Pos, u: Pos)
    requires
        reachable(g, s, c),
        step(c, u),
        floor_at(g, u.0 as int, u.1 as int),
    ensures
        reachable(g, s, u),
{
    let p = choose|p: Seq<Pos>| walk_from_to(g, p, s, c);
    let q = p.push(u);
    assert forall|i: int| 1 <= i < q.len() implies floor_at(g, #[trigger] q[i].0 as int, q[i].1 as int) by {
        if i < p.len() {
            assert(q[i] == p[i]);
        }
    }
    assert forall|i: int| 0 <= i < q.len() - 1 implies #[trigger] step(q[i], q[i + 1]) by {
        if i < p.len() - 1 {
            assert(q[i] == p[i] && q[i + 1] == p[i + 1]);
            assert(step(p[i], p[i + 1]));
        }
    }
    assert(walk_from_to(g, q, s, u));
}

proof fn lemma_reach_self(g: &Grid, s: Pos)
    requires
        floor_at(g, s.0 as int, s.1 as int),
    ensures
        reachable(g, s, s),
{
    let p = seq![s];
    assert(walk_from_to(g, p, s, s));
}

/// Every floor neighbour of `(x, y)` is flagged.
pub open spec fn nbrs_flagged(g: &Grid, s: Seq<bool>, x: int, y: int) -> bool {
    let w = width(g);
    &&& floor_at(g, x - 1, y) ==> cell_flag(s, w, x - 1, y)
    &&& floor_at(g, x + 1, y) ==> cell_flag(s, w, x + 1, y)
    &&& floor_at(g, x, y - 1) ==> cell_flag(s, w, x, y - 1)
    &&& floor_at(g, x, y + 1) ==> cell_flag(s, w, x, y + 1)
}

/// A walk from a flagged tile stays on flagged tiles when every flagged tile
/// has its floor neighbours flagged.
proof fn lemma_closed_set_holds_walks(g: &Grid, s: Seq<bool>, p: Seq<Pos>, j: int)
    requires
        grid_wf(g),
        is_walk(g, p),
        0 <= j < p.len(),
        cell_flag(s, width(g), p[0].0 as int, p[0].1 as int),
        forall|x: int, y: int|
            in_grid(g, x, y) && #[trigger] cell_flag(s, width(g), x, y) ==> nbrs_flagged(g, s, x, y),
    ensures
        cell_flag(s, width(g), p[j].0 as int, p[j].1 as int),
    decreases j,
{
    if j > 0 {
        lemma_closed_set_holds_walks(g, s, p, j - 1);
        assert(step(p[j - 1], p[(j - 1) + 1]));
        assert(floor_at(g, p[j].0 as int, p[j].1 as int));
        if j - 1 == 0 {
        } else {
            assert(floor_at(g, p[j - 1].0 as int, p[j - 1].1 as int));
        }
        assert(in_grid(g, p[j - 1].0 as int, p[j - 1].1 as int));
        assert(nbrs_flagged(g, s, p[j - 1].0 as int, p[j - 1].1 as int));
    }
}


/// Flags tile `(x, y)` and queues it, when it is floor and not yet flagged.
fn flood_visit(
    g: &Grid,
    visited: &mut Vec<bool>,
    queue: &mut Vec<Pos>,
    x: usize,
    y: usize,
    Ghost(start): Ghost<Pos>,
    Ghost(from): Ghost<Pos>,
)
    requires
        grid_wf(g),
        old(visited)@.len() == width(g) * height(g),
        old(queue)@.len() == count_true(old(visited)@),
        reachable(g, start, from),
        step(from, (x, y)),
        forall|k: int|
            0 <= k < old(queue)@.len() ==> in_grid(g, #[trigger] old(queue)@[k].0 as int, old(queue)@[k].1 as int)
                && cell_flag(old(visited)@, width(g), old(queue)@[k].0 as int, old(queue)@[k].1 as int),
        forall|a: usize, b: usize|
            in_grid(g, a as int, b as int) && #[trigger] cell_flag(old(visited)@, width(g), a as int, b as int)
                ==> reachable(g, start, (a, b)),
    ensures
        final(visited)@.len() == old(visited)@.len(),
        final(queue)@.len() == count_true(final(visited)@),
        final(queue)@.len() >= old(queue)@.len(),
        forall|k: int| 0 <= k < old(queue)@.len() ==> #[trigger] final(queue)@[k] == old(queue)@[k],
        forall|i: int| 0 <= i < old(visited)@.len() && old(visited)@[i] ==> #[trigger] final(visited)@[i],
        forall|k: int|
            0 <= k < final(queue)@.len() ==> in_grid(g, #[trigger] final(queue)@[k].0 as int, final(queue)@[k].1 as int)
                && cell_flag(final(visited)@, width(g), final(queue)@[k].0 as int, final(queue)@[k].1 as int),
        forall|a: usize, b: usize|
            in_grid(g, a as int, b as int) && #[trigger] cell_flag(final(visited)@, width(g), a as int, b as int)
                ==> reachable(g, start, (a, b)),
        forall|a: usize, b: usize|
            in_grid(g, a as int, b as int) && #[trigger] cell_flag(final(visited)@, width(g), a as int, b as int)
                && !cell_flag(old(visited)@, width(g), a as int, b as int)
                ==> exists|k: int| old(queue)@.len() <= k < final(queue)@.len() && final(queue)@[k] == (a, b),
        floor_at(g, x as int, y as int) ==> cell_flag(final(visited)@, width(g), x as int, y as int),
{
    let w = g[0].len();
    if tile_is_floor(g, x, y) {
        proof {
            lemma_idx(width(g), height(g), x as int, y as int);
        }
        let i = y * w + x;
        if !visited[i] {
            let ghost v0 = visited@;
            proof {
                lemma_count_set(v0, i as int, true);
                lemma_reach_step(g, start, from, (x, y));
            }
            visited.set(i, true);
            queue.push((x, y));
            assert forall|a: usize, b: usize|
                in_grid(g, a as int, b as int) && #[trigger] cell_flag(visited@, width(g), a as int, b as int)
                    implies reachable(g, start, (a, b)) by {
                if a != x || b != y {
                    lemma_idx_inj(width(g), a as int, b as int, x as int, y as int);
                    lemma_idx(width(g), height(g), a as int, b as int);
                    assert(cell_flag(v0, width(g), a as int, b as int));
                }
            }
            assert forall|a: usize, b: usize|
                in_grid(g, a as int, b as int) && #[trigger] cell_flag(visited@, width(g), a as int, b as int)
                    && !cell_flag(v0, width(g), a as int, b as int)
                    implies exists|k: int| old(queue)@.len() <= k < queue@.len() && queue@[k] == (a, b) by {
                if a != x || b != y {
                    lemma_idx_inj(width(g), a as int, b as int, x as int, y as int);
                    lemma_idx(width(g), height(g), a as int, b as int);
                }
                assert(queue@[old(queue)@.len() as int] == (x, y));
            }
            assert forall|k: int|
                0 <= k < queue@.len() implies in_grid(g, #[trigger] queue@[k].0 as int, queue@[k].1 as int)
                    && cell_flag(visited@, width(g), queue@[k].0 as int, queue@[k].1 as int) by {
                if k < old(queue)@.len() {
                    let (qa, qb) = queue@[k];
                    assert(in_grid(g, qa as int, qb as int));
                    lemma_idx(width(g), height(g), qa as int, qb as int);
                }
            }
        }
    }
}

/// Flags and queues the unflagged floor neighbours of tile `(x, y)`.
fn flood_expand(
    g: &Grid,
    visited: &mut Vec<bool>,
    queue: &mut Vec<Pos>,
    x: usize,
    y: usize,
    Ghost(start): Ghost<Pos>,
)
    requires
        grid_wf(g),
        old(visited)@.len() == width(g) * height(g),
        old(queue)@.len() == count_true(old(visited)@),
        reachable(g, start, (x, y)),
        in_grid(g, x as int, y as int),
        forall|k: int|
            0 <= k < old(queue)@.len() ==> in_grid(g, #[trigger] old(queue)@[k].0 as int, old(queue)@[k].1 as int)
                && cell_flag(old(visited)@, width(g), old(queue)@[k].0 as int, old(queue)@[k].1 as int),
        forall|a: usize, b: usize|
            in_grid(g, a as int, b as int) && #[trigger] cell_flag(old(visited)@, width(g), a as int, b as int)
                ==> reachable(g, start, (a, b)),
    ensures
        final(visited)@.len() == old(visited)@.len(),
        final(queue)@.len() == count_true(final(visited)@),
        final(queue)@.len() >= old(queue)@.len(),
        forall|k: int| 0 <= k < old(queue)@.len() ==> #[trigger] final(queue)@[k] == old(queue)@[k],
        forall|i: int| 0 <= i < old(visited)@.len() && old(visited)@[i] ==> #[trigger] final(visited)@[i],
        forall|k: int|
            0 <= k < final(queue)@.len() ==> in_grid(g, #[trigger] final(queue)@[k].0 as int, final(queue)@[k].1 as int)
                && cell_flag(final(visited)@, width(g), final(queue)@[k].0 as int, final(queue)@[k].1 as int),
        forall|a: usize, b: usize|
            in_grid(g, a as int, b as int) && #[trigger] cell_flag(final(visited)@, width(g), a as int, b as int)
                ==> reachable(g, start, (a, b)),
        forall|a: usize, b: usize|
            in_grid(g, a as int, b as int) && #[trigger] cell_flag(final(visited)@, width(g), a as int, b as int)
                && !cell_flag(old(visited)@, width(g), a as int, b as int)
                ==> exists|k: int| old(queue)@.len() <= k < final(queue)@.len() && final(queue)@[k] == (a, b),
        nbrs_flagged(g, final(visited)@, x as int, y as int),
{
    let ghost c: Pos = (x, y);
    let ghost v0 = visited@;
    let ghost q0 = queue@;
    if x > 0 {
        flood_visit(g, visited, queue, x - 1, y, Ghost(start), Ghost(c));
    }
    let ghost v1 = visited@;
    let ghost q1 = queue@;
    flood_visit(g, visited, queue, x + 1, y, Ghost(start), Ghost(c));
    let ghost v2 = visited@;
    let ghost q2 = queue@;
    if y > 0 {
        flood_visit(g, visited, queue, x, y - 1, Ghost(start), Ghost(c));
    }
    let ghost v3 = visited@;
    let ghost q3 = queue@;
    flood_visit(g, visited, queue, x, y + 1, Ghost(start), Ghost(c));
    proof {
        let w = width(g);
        let h = height(g);
        assert forall|a: usize, b: usize|
            in_grid(g, a as int, b as int) && #[trigger] cell_flag(visited@, w, a as int, b as int)
                && !cell_flag(v0, w, a as int, b as int)
                implies exists|k: int| q0.len() <= k < queue@.len() && queue@[k] == (a, b) by {
            lemma_idx(w, h, a as int, b as int);
            if cell_flag(v1, w, a as int, b as int) {
                let k = choose|k: int| q0.len() <= k < q1.len() && q1[k] == (a, b);
                assert(queue@[k] == (a, b));
            } else if cell_flag(v2, w, a as int, b as int) {
                let k = choose|k: int| q1.len() <= k < q2.len() && q2[k] == (a, b);
                assert(queue@[k] == (a, b));
            } else if cell_flag(v3, w, a as int, b as int) {
                let k = choose|k: int| q2.len() <= k < q3.len() && q3[k] == (a, b);
                assert(queue@[k] == (a, b));
            } else {
                let k = choose|k: int| q3.len() <= k < queue@.len() && queue@[k] == (a, b);
            }
        }
        if floor_at(g, x - 1, y as int) {
            lemma_idx(w, h, x - 1, y as int);
        }
        if floor_at(g, x + 1, y as int) {
            lemma_idx(w, h, x + 1, y as int);
        }
        if floor_at(g, x as int, y - 1) {
            lemma_idx(w, h, x as int, y - 1);
        }
        if floor_at(g, x as int, y + 1) {
            lemma_idx(w, h, x as int, y + 1);
        }
    }
}

proof fn lemma_flood_step(
    g: &Grid,
    v0: Seq<bool>,
    v1: Seq<bool>,
    q0: Seq<Pos>,
    q1: Seq<Pos>,
    head: int,
    x: usize,
    y: usize,
)
    requires
        grid_wf(g),
        v0.len() == width(g) * height(g),
        v1.len() == v0.len(),
        0 <= head < q0.len(),
        q0[head] == (x, y),
        q1.len() >= q0.len(),
        forall|k: int| 0 <= k < q0.len() ==> #[trigger] q1[k] == q0[k],
        forall|i: int| 0 <= i < v0.len() && v0[i] ==> #[trigger] v1[i],
        forall|a: usize, b: usize|
            in_grid(g, a as int, b as int) && #[trigger] cell_flag(v1, width(g), a as int, b as int)
                && !cell_flag(v0, width(g), a as int, b as int)
                ==> exists|k: int| q0.len() <= k < q1.len() && q1[k] == (a, b),
        nbrs_flagged(g, v1, x as int, y as int),
        forall|a: usize, b: usize|
            in_grid(g, a as int, b as int) && #[trigger] cell_flag(v0, width(g), a as int, b as int)
                ==> nbrs_flagged(g, v0, a as int, b as int)
                || exists|k: int| head <= k < q0.len() && q0[k] == (a, b),
    ensures
        forall|a: usize, b: usize|
            in_grid(g, a as int, b as int) && #[trigger] cell_flag(v1, width(g), a as int, b as int)
                ==> nbrs_flagged(g, v1, a as int, b as int)
                || exists|k: int| head + 1 <= k < q1.len() && q1[k] == (a, b),
{
    let w = width(g);
    let h = height(g);
    assert forall|a: usize, b: usize|
        in_grid(g, a as int, b as int) && #[trigger] cell_flag(v1, w, a as int, b as int)
            implies nbrs_flagged(g, v1, a as int, b as int)
            || exists|k: int| head + 1 <= k < q1.len() && q1[k] == (a, b) by {
        if cell_flag(v0, w, a as int, b as int) {
            if nbrs_flagged(g, v0, a as int, b as int) {
                if floor_at(g, a - 1, b as int) {
                    lemma_idx(w, h, a - 1, b as int);
                }
                if floor_at(g, a + 1, b as int) {
                    lemma_idx(w, h, a + 1, b as int);
                }
                if floor_at(g, a as int, b - 1) {
                    lemma_idx(w, h, a as int, b - 1);
                }
                if floor_at(g, a as int, b + 1) {
                    lemma_idx(w, h, a as int, b + 1);
                }
            } else if a != x || b != y {
                let k = choose|k: int| head <= k < q0.len() && q0[k] == (a, b);
                assert(k != head);
                assert(q1[k] == (a, b));
            }
        } else {
            let k = choose|k: int| q0.len() <= k < q1.len() && q1[k] == (a, b);
            assert(head + 1 <= k);
        }
    }
}

/// Flags, row by row, every tile that some walk from the floor tile `start`
/// reaches: flood fill, breadth first.
fn flood(g: &Grid, start: Pos) -> (visited: Vec<bool>)
    requires
        grid_wf(g),
        floor_at(g, start.0 as int, start.1 as int),
    ensures
        visited@.len() == width(g) * height(g),
        forall|x: usize, y: usize|
            in_grid(g, x as int, y as int) ==> (#[trigger] cell_flag(visited@, width(g), x as int, y as int)
                <==> reachable(g, start, (x, y))),
{
    let h = g.len();
    let w = g[0].len();
    proof {
        assert(h * w <= MAX_SIDE * MAX_SIDE) by (nonlinear_arith)
            requires
                h <= MAX_SIDE,
                w <= MAX_SIDE,
        ;
        lemma_idx(w as int, h as int, start.0 as int, start.1 as int);
    }
    let n = w * h;
    let mut visited: Vec<bool> = vec![false; n];
    proof {
        lemma_count_none(visited@);
        lemma_count_set(visited@, (start.1 * w + start.0) as int, true);
        lemma_reach_self(g, start);
    }
    visited.set(start.1 * w + start.0, true);
    let mut queue: Vec<Pos> = Vec::new();
    queue.push(start);
    let mut head: usize = 0;
    proof {
        assert forall|a: usize, b: usize|
            in_grid(g, a as int, b as int) && #[trigger] cell_flag(visited@, w as int, a as int, b as int)
                implies reachable(g, start, (a, b)) by {
            if a != start.0 || b != start.1 {
                lemma_idx_inj(w as int, a as int, b as int, start.0 as int, start.1 as int);
                lemma_idx(w as int, h as int, a as int, b as int);
            }
        }
        assert forall|a: usize, b: usize|
            in_grid(g, a as int, b as int) && #[trigger] cell_flag(visited@, w as int, a as int, b as int)
                implies nbrs_flagged(g, visited@, a as int, b as int)
                || exists|k: int| head <= k < queue@.len() && queue@[k] == (a, b) by {
            if a != start.0 || b != start.1 {
                lemma_idx_inj(w as int, a as int, b as int, start.0 as int, start.1 as int);
                lemma_idx(w as int, h as int, a as int, b as int);
            } else {
                assert(queue@[0] == (a, b));
            }
        }
    }
    while head < queue.len()
        invariant
            grid_wf(g),
            w == width(g),
            h == height(g),
            n == w * h,
            visited@.len() == n,
            head <= queue@.len(),
            queue@.len() == count_true(visited@),
            queue@.len() >= 1,
            queue@[0] == start,
            forall|k: int|
                0 <= k < queue@.len() ==> in_grid(g, #[trigger] queue@[k].0 as int, queue@[k].1 as int)
                    && cell_flag(visited@, w as int, queue@[k].0 as int, queue@[k].1 as int),
            forall|a: usize, b: usize|
                in_grid(g, a as int, b as int) && #[trigger] cell_flag(visited@, w as int, a as int, b as int)
                    ==> reachable(g, start, (a, b)),
            forall|a: usize, b: usize|
                in_grid(g, a as int, b as int) && #[trigger] cell_flag(visited@, w as int, a as int, b as int)
                    ==> nbrs_flagged(g, visited@, a as int, b as int)
                    || exists|k: int| head <= k < queue@.len() && queue@[k] == (a, b),
        decreases 2 * n - queue@.len() - head,
    {
        proof {
            lemma_count_le(visited@);
        }
        let (x, y) = queue[head];
        let ghost v0 = visited@;
        let ghost q0 = queue@;
        let ghost c: Pos = (x, y);
        assert(in_grid(g, x as int, y as int));
        flood_expand(g, &mut visited, &mut queue, x, y, Ghost(start));
        proof {
            lemma_count_le(visited@);
            lemma_flood_step(g, v0, visited@, q0, queue@, head as int, x, y);
        }
        head = head + 1;
    }
    proof {
        assert forall|a: usize, b: usize|
            in_grid(g, a as int, b as int) && reachable(g, start, (a, b))
                implies #[trigger] cell_flag(visited@, w as int, a as int, b as int) by {
            let p = choose|p: Seq<Pos>| walk_from_to(g, p, start, (a, b));
            assert(cell_flag(visited@, w as int, start.0 as int, start.1 as int)) by {
                assert(queue@[0] == start);
                assert(in_grid(g, queue@[0].0 as int, queue@[0].1 as int));
            }
            lemma_closed_set_holds_walks(g, visited@, p, p.len() - 1);
        }
    }
    visited
}

/// Marks every tile that some walk from `start` reaches; a wall start
/// reaches nothing.
pub fn compute_reachable(g: &Grid, start: Pos) -> (r: Vec<Vec<bool>>)
    requires
        grid_wf(g),
        in_grid(g, start.0 as int, start.1 as int),
    ensures
        r@.len() == height(g),
        forall|y: int| 0 <= y < height(g) ==> #[trigger] r@[y]@.len() == width(g),
        forall|x: usize, y: usize|
            in_grid(g, x as int, y as int) ==> (#[trigger] r@[y as int]@[x as int] <==> reachable(g, start, (x, y))),
{
    let h = g.len();
    let w = g[0].len();
    proof {
        assert(h * w <= MAX_SIDE * MAX_SIDE) by (nonlinear_arith)
            requires
                h <= MAX_SIDE,
                w <= MAX_SIDE,
        ;
    }
    let n = w * h;
    let visited: Vec<bool> = if tile_is_floor(g, start.0, start.1) {
        flood(g, start)
    } else {
        let v: Vec<bool> = vec![false; n];
        proof {
            assert forall|x: usize, y: usize|
                in_grid(g, x as int, y as int) implies (#[trigger] cell_flag(v@, w as int, x as int, y as int)
                    <==> reachable(g, start, (x, y))) by {
                lemma_idx(w as int, h as int, x as int, y as int);
                if reachable(g, start, (x, y)) {
                    let p = choose|p: Seq<Pos>| walk_from_to(g, p, start, (x, y));
                }
            }
        }
        v
    };
    let mut result: Vec<Vec<bool>> = Vec::new();
    let mut yy: usize = 0;
    while yy < h
        invariant
            grid_wf(g),
            w == width(g),
            h == height(g),
            n == w * h,
            visited@.len() == n,
            yy <= h,
            result@.len() == yy,
            forall|r: int| 0 <= r < yy ==> #[trigger] result@[r]@.len() == w,
            forall|a: int, b: int|
                0 <= a < w && 0 <= b < yy ==> #[trigger] result@[b]@[a] == cell_flag(visited@, w as int, a, b),
        decreases h - yy,
    {
        let mut row: Vec<bool> = Vec::new();
        let mut xx: usize = 0;
        while xx < w
            invariant
                grid_wf(g),
                w == width(g),
                h == height(g),
                n == w * h,
                visited@.len() == n,
                yy < h,
                xx <= w,
                row@.len() == xx,
                forall|a: int| 0 <= a < xx ==> #[trigger] row@[a] == cell_flag(visited@, w as int, a, yy as int),
            decreases w - xx,
        {
            proof {
                lemma_idx(w as int, h as int, xx as int, yy as int);
            }
            assert(g@[0]@.len() <= MAX_SIDE);
            row.push(visited[yy * w + xx]);
            xx = xx + 1;
        }
        result.push(row);
        yy = yy + 1;
    }
    result
}


/// Manhattan distance between two tiles, the A* heuristic.
pub fn heuristic(a: Pos, b: Pos) -> (r: usize)
    requires
        manhattan(a, b) <= usize::MAX,
    ensures
        r == manhattan(a, b),
{
    let dx = if a.0 >= b.0 { a.0 - b.0 } else { b.0 - a.0 };
    let dy = if a.1 >= b.1 { a.1 - b.1 } else { b.1 - a.1 };
    dx + dy
}

/// The walk `p` is no longer than any walk between its ends.
pub open spec fn is_shortest(g: &Grid, p: Seq<Pos>, s: Pos, t: Pos) -> bool {
    &&& walk_from_to(g, p, s, t)
    &&& forall|q: Seq<Pos>| walk_from_to(g, q, s, t) ==> p.len() <= q.len()
}

/// Two shortest walks between the same tiles are equally long: the length of
/// any of them is the distance between its ends.
pub proof fn lemma_shortest_walks_agree(g: &Grid, p: Seq<Pos>, q: Seq<Pos>, s: Pos, t: Pos)
    requires
        is_shortest(g, p, s, t),
        is_shortest(g, q, s, t),
    ensures
        p.len() == q.len(),
{
}

/// No walk between two tiles is shorter than their Manhattan distance.
pub proof fn lemma_walk_at_least_manhattan(g: &Grid, q: Seq<Pos>)
    requires
        is_walk(g, q),
    ensures
        manhattan(q[0], q.last()) <= q.len() - 1,
{
    lemma_manhattan_walk(g, q, 0);
}

proof fn lemma_manhattan_walk(g: &Grid, q: Seq<Pos>, i: int)
    requires
        is_walk(g, q),
        0 <= i < q.len(),
    ensures
        manhattan(q[i], q.last()) <= q.len() - 1 - i,
    decreases q.len() - i,
{
    if i < q.len() - 1 {
        lemma_manhattan_walk(g, q, i + 1);
        assert(step(q[i], q[i + 1]));
    }
}

/// State of one A* search: per tile, the best cost found, whether it is known,
/// whether it was expanded, and where it was reached from; and the frontier,
/// as entries (column, row, priority) of which those still `alive` are pending.
struct Search {
    w: usize,
    h: usize,
    start: Pos,
    goal: Pos,
    cost: Vec<usize>,
    known: Vec<bool>,
    closed: Vec<bool>,
    from: Vec<Pos>,
    open: Vec<(usize, usize, usize)>,
    alive: Vec<bool>,
    n_alive: usize,
    n_closed: usize,
    f_last: Ghost<int>,
}

impl Search {
    spec fn k(&self, x: int, y: int) -> bool {
        self.known@[idx(self.w as int, x, y)]
    }

    spec fn c(&self, x: int, y: int) -> int {
        self.cost@[idx(self.w as int, x, y)] as int
    }

    spec fn cl(&self, x: int, y: int) -> bool {
        self.closed@[idx(self.w as int, x, y)]
    }

    spec fn fr(&self, x: int, y: int) -> Pos {
        self.from@[idx(self.w as int, x, y)]
    }

    spec fn hh(&self, x: int, y: int) -> int {
        manhattan((x as usize, y as usize), self.goal)
    }

    spec fn nb_ok(&self, g: &Grid, x: int, y: int, c: int) -> bool {
        floor_at(g, x, y) ==> self.k(x, y) && self.c(x, y) <= c + 1
    }

    /// Every floor neighbour of an expanded tile costs at most one more.
    spec fn nbrs_done(&self, g: &Grid, x: int, y: int) -> bool {
        let c = self.c(x, y);
        &&& self.nb_ok(g, x - 1, y, c)
        &&& self.nb_ok(g, x + 1, y, c)
        &&& self.nb_ok(g, x, y - 1, c)
        &&& self.nb_ok(g, x, y + 1, c)
    }

    spec fn has_entry(&self, x: int, y: int, p: int) -> bool {
        exists|e: int|
            0 <= e < self.open@.len() && #[trigger] self.alive@[e] && self.open@[e].0 == x && self.open@[e].1 == y
                && self.open@[e].2 == p
    }

    spec fn entry_ok(&self, e: int) -> bool {
        let (x, y, p) = self.open@[e];
        &&& in_grid_wh(self.w as int, self.h as int, x as int, y as int)
        &&& self.k(x as int, y as int)
        &&& self.c(x as int, y as int) + self.hh(x as int, y as int) <= p
        &&& self.alive@[e] ==> self.f_last@ <= p
    }

    /// What holds of each known tile: it is the start or floor, its cost is
    /// bounded, it was reached from a known neighbour that costs less, and
    /// unless expanded it has a pending entry at its priority.
    spec fn cell_ok(&self, g: &Grid, x: int, y: int) -> bool {
        &&& (x == self.start.0 && y == self.start.1) || floor_at(g, x, y)
        &&& self.c(x, y) <= self.n_closed
        &&& !(x == self.start.0 && y == self.start.1) ==> {
            let f = self.fr(x, y);
            &&& in_grid(g, f.0 as int, f.1 as int)
            &&& self.k(f.0 as int, f.1 as int)
            &&& step(f, (x as usize, y as usize))
            &&& self.c(f.0 as int, f.1 as int) + 1 <= self.c(x, y)
        }
        &&& !self.cl(x, y) ==> self.has_entry(x, y, self.c(x, y) + self.hh(x, y))
    }

    #[verifier::opaque]
    spec fn cells_ok(&self, g: &Grid) -> bool {
        forall|x: int, y: int| in_grid(g, x, y) && #[trigger] self.k(x, y) ==> self.cell_ok(g, x, y)
    }

    #[verifier::opaque]
    spec fn closed_ok(&self, g: &Grid) -> bool {
        forall|x: int, y: int|
            in_grid(g, x, y) && #[trigger] self.cl(x, y) ==> self.k(x, y) && self.c(x, y) + self.hh(x, y) <= self.f_last@
    }

    #[verifier::opaque]
    spec fn entries_ok(&self) -> bool {
        forall|e: int| 0 <= e < self.open@.len() ==> #[trigger] self.entry_ok(e)
    }

    #[verifier::opaque]
    spec fn done_except(&self, g: &Grid, cx: int, cy: int) -> bool {
        forall|a: int, b: int| in_grid(g, a, b) && #[trigger] self.cl(a, b) && !(a == cx && b == cy) ==> self.nbrs_done(g, a, b)
    }

    spec fn basics(&self, g: &Grid) -> bool {
        let n = self.w * self.h;
        &&& grid_wf(g)
        &&& self.w == width(g)
        &&& self.h == height(g)
        &&& self.cost@.len() == n
        &&& self.known@.len() == n
        &&& self.closed@.len() == n
        &&& self.from@.len() == n
        &&& self.alive@.len() == self.open@.len()
        &&& self.n_alive == count_true(self.alive@)
        &&& self.n_closed == count_true(self.closed@)
        &&& self.open@.len() <= 4 * self.n_closed + 1
        &&& floor_at(g, self.start.0 as int, self.start.1 as int)
        &&& floor_at(g, self.goal.0 as int, self.goal.1 as int)
        &&& self.k(self.start.0 as int, self.start.1 as int)
        &&& self.c(self.start.0 as int, self.start.1 as int) == 0
        &&& !self.cl(self.goal.0 as int, self.goal.1 as int)
    }

    /// All of the invariant but the neighbours of expanded tiles.
    spec fn inv_core(&self, g: &Grid) -> bool {
        &&& self.basics(g)
        &&& self.cells_ok(g)
        &&& self.closed_ok(g)
        &&& self.entries_ok()
    }

    #[verifier::opaque]
    spec fn all_done(&self, g: &Grid) -> bool {
        forall|x: int, y: int| in_grid(g, x, y) && #[trigger] self.cl(x, y) ==> self.nbrs_done(g, x, y)
    }

    spec fn inv(&self, g: &Grid) -> bool {
        &&& self.inv_core(g)
        &&& self.all_done(g)
    }
}

/// `n` is `o` with tile `(x, y)` given cost `nc`, reached from `(cx, cy)`,
/// and a pending entry at priority `p`.
spec fn relaxed(o: Search, n: Search, x: int, y: int, cx: usize, cy: usize, nc: usize, p: usize) -> bool {
    let i = idx(o.w as int, x, y);
    &&& n.w == o.w
    &&& n.h == o.h
    &&& n.start == o.start
    &&& n.goal == o.goal
    &&& n.closed == o.closed
    &&& n.n_closed == o.n_closed
    &&& n.f_last == o.f_last
    &&& n.cost@ == o.cost@.update(i, nc)
    &&& n.known@ == o.known@.update(i, true)
    &&& n.from@ == o.from@.update(i, (cx, cy))
    &&& n.open@ == o.open@.push((x as usize, y as usize, p))
    &&& n.alive@ == o.alive@.push(true)
    &&& n.n_alive == o.n_alive + 1
}

spec fn frame(g: &Grid, o: Search, n: Search, x: int, y: int) -> bool {
    forall|a: int, b: int| in_grid(g, a, b) && !(a == x && b == y) ==> {
        &&& #[trigger] n.k(a, b) == o.k(a, b)
        &&& n.c(a, b) == o.c(a, b)
        &&& n.cl(a, b) == o.cl(a, b)
        &&& n.fr(a, b) == o.fr(a, b)
    }
}

proof fn lemma_relax_frame(g: &Grid, o: Search, n: Search, x: int, y: int, cx: usize, cy: usize, nc: usize, p: usize)
    requires
        o.basics(g),
        in_grid(g, x, y),
        relaxed(o, n, x, y, cx, cy, nc, p),
    ensures
        frame(g, o, n, x, y),
        n.k(x, y),
        n.c(x, y) == nc,
        n.cl(x, y) == o.cl(x, y),
        n.fr(x, y) == (cx, cy),
{
    let w = o.w as int;
    let h = o.h as int;
    lemma_idx(w, h, x, y);
    assert forall|a: int, b: int| in_grid(g, a, b) && !(a == x && b == y) implies {
        &&& #[trigger] n.k(a, b) == o.k(a, b)
        &&& n.c(a, b) == o.c(a, b)
        &&& n.cl(a, b) == o.cl(a, b)
        &&& n.fr(a, b) == o.fr(a, b)
    } by {
        lemma_idx_inj(w, a, b, x, y);
        lemma_idx(w, h, a, b);
    }
}

spec fn relax_pre(g: &Grid, o: Search, n: Search, x: int, y: int, cx: usize, cy: usize, nc: usize, p: usize) -> bool {
    &&& o.inv_core(g)
    &&& in_grid(g, x, y)
    &&& floor_at(g, x, y)
    &&& relaxed(o, n, x, y, cx, cy, nc, p)
    &&& !o.cl(x, y)
    &&& nc <= o.n_closed
    &&& p == nc + o.hh(x, y)
    &&& in_grid(g, cx as int, cy as int)
    &&& o.k(cx as int, cy as int)
    &&& step((cx, cy), (x as usize, y as usize))
    &&& o.c(cx as int, cy as int) + 1 <= nc
    &&& (!o.k(x, y) || nc < o.c(x, y))
    &&& frame(g, o, n, x, y)
    &&& n.k(x, y)
    &&& n.c(x, y) == nc
    &&& n.cl(x, y) == o.cl(x, y)
    &&& n.fr(x, y) == (cx, cy)
}

proof fn lemma_relax_cell(g: &Grid, o: Search, n: Search, x: int, y: int, cx: usize, cy: usize, nc: usize, p: usize, a: int, b: int)
    requires
        relax_pre(g, o, n, x, y, cx, cy, nc, p),
        in_grid(g, a, b),
        n.k(a, b),
    ensures
        n.cell_ok(g, a, b),
{
    let e_new = o.open@.len() as int;
    if a == x && b == y {
        assert(n.open@[e_new] == (x as usize, y as usize, p));
        assert(n.alive@[e_new]);
        if x == o.start.0 && y == o.start.1 {
            assert(o.c(x, y) == 0);
        }
        assert(n.hh(a, b) == o.hh(a, b));
        assert(n.has_entry(a, b, n.c(a, b) + n.hh(a, b)));
        assert(!(cx == x && cy == y));
        assert(n.k(cx as int, cy as int) == o.k(cx as int, cy as int));
        assert(n.c(cx as int, cy as int) == o.c(cx as int, cy as int));
        assert(n.fr(a, b) == (cx, cy));
    } else {
        assert(o.k(a, b));
        assert(o.cell_ok(g, a, b)) by {
            reveal(Search::cells_ok);
        }
        assert(n.c(a, b) == o.c(a, b));
        assert(n.hh(a, b) == o.hh(a, b));
        if !o.cl(a, b) {
            let e = choose|e: int|
                0 <= e < o.open@.len() && #[trigger] o.alive@[e] && o.open@[e].0 == a && o.open@[e].1 == b
                    && o.open@[e].2 == o.c(a, b) + o.hh(a, b);
            assert(n.alive@[e] && n.open@[e] == o.open@[e]);
            assert(n.has_entry(a, b, n.c(a, b) + n.hh(a, b)));
        }
        if !(a == o.start.0 && b == o.start.1) {
            let f = o.fr(a, b);
            assert(o.k(f.0 as int, f.1 as int));
            assert(n.k(f.0 as int, f.1 as int));
            assert(n.fr(a, b) == f);
            assert(n.c(f.0 as int, f.1 as int) <= o.c(f.0 as int, f.1 as int));
        }
    }
}

proof fn lemma_relax_cells(g: &Grid, o: Search, n: Search, x: int, y: int, cx: usize, cy: usize, nc: usize, p: usize)
    requires
        relax_pre(g, o, n, x, y, cx, cy, nc, p),
    ensures
        n.cells_ok(g),
{
    reveal(Search::cells_ok);
    assert forall|a: int, b: int| in_grid(g, a, b) && #[trigger] n.k(a, b) implies n.cell_ok(g, a, b) by {
        lemma_relax_cell(g, o, n, x, y, cx, cy, nc, p, a, b);
    }
}

proof fn lemma_relax_rest(g: &Grid, o: Search, n: Search, x: int, y: int, cx: usize, cy: usize, nc: usize, p: usize)
    requires
        o.inv_core(g),
        in_grid(g, x, y),
        relaxed(o, n, x, y, cx, cy, nc, p),
        !o.cl(x, y),
        p >= o.f_last@,
        p == nc + o.hh(x, y),
        !o.k(x, y) || nc < o.c(x, y),
        o.done_except(g, cx as int, cy as int),
        frame(g, o, n, x, y),
        n.k(x, y),
        n.c(x, y) == nc,
        n.cl(x, y) == o.cl(x, y),
    ensures
        n.closed_ok(g),
        n.entries_ok(),
        n.done_except(g, cx as int, cy as int),
        forall|a: int, b: int| in_grid(g, a, b) && #[trigger] o.k(a, b) ==> n.k(a, b) && n.c(a, b) <= o.c(a, b),
{
    reveal(Search::closed_ok);
    reveal(Search::entries_ok);
    reveal(Search::done_except);
    let e_new = o.open@.len() as int;
    assert forall|a: int, b: int| in_grid(g, a, b) && #[trigger] o.k(a, b) implies n.k(a, b) && n.c(a, b) <= o.c(a, b) by {
        if !(a == x && b == y) {
            assert(n.k(a, b) == o.k(a, b));
        }
    }
    assert forall|a: int, b: int| in_grid(g, a, b) && #[trigger] n.cl(a, b) implies n.k(a, b)
        && n.c(a, b) + n.hh(a, b) <= n.f_last@ by {
        assert(!(a == x && b == y));
        assert(n.k(a, b) == o.k(a, b));
        assert(o.cl(a, b));
    }
    assert forall|e: int| 0 <= e < n.open@.len() implies #[trigger] n.entry_ok(e) by {
        if e < e_new {
            assert(o.entry_ok(e));
            assert(n.open@[e] == o.open@[e]);
            assert(n.alive@[e] == o.alive@[e]);
            let (ex, ey, ep) = n.open@[e];
            assert(o.k(ex as int, ey as int));
            if !(ex == x && ey == y) {
                assert(n.k(ex as int, ey as int) == o.k(ex as int, ey as int));
            }
        } else {
            assert(n.open@[e] == (x as usize, y as usize, p));
        }
    }
    assert forall|a: int, b: int|
        in_grid(g, a, b) && #[trigger] n.cl(a, b) && !(a == cx && b == cy) implies n.nbrs_done(g, a, b) by {
        assert(!(a == x && b == y));
        assert(n.k(a, b) == o.k(a, b));
        assert(o.cl(a, b));
        assert(o.nbrs_done(g, a, b));
        if floor_at(g, a - 1, b) {
            assert(o.k(a - 1, b));
        }
        if floor_at(g, a + 1, b) {
            assert(o.k(a + 1, b));
        }
        if floor_at(g, a, b - 1) {
            assert(o.k(a, b - 1));
        }
        if floor_at(g, a, b + 1) {
            assert(o.k(a, b + 1));
        }
    }
}

impl Search {
    fn ix(&self, x: usize, y: usize) -> (r: usize)
        requires
            self.w <= MAX_SIDE,
            self.h <= MAX_SIDE,
            x < self.w,
            y < self.h,
        ensures
            r == idx(self.w as int, x as int, y as int),
            r < self.w * self.h,
    {
        proof {
            lemma_idx(self.w as int, self.h as int, x as int, y as int);
        }
        y * self.w + x
    }

    /// Offers tile `(x, y)` the route through the expanded tile `(cx, cy)`.
    fn relax(&mut self, g: &Grid, x: usize, y: usize, cx: usize, cy: usize)
        requires
            old(self).inv_core(g),
            in_grid(g, cx as int, cy as int),
            old(self).cl(cx as int, cy as int),
            old(self).c(cx as int, cy as int) + old(self).hh(cx as int, cy as int) == old(self).f_last@,
            old(self).c(cx as int, cy as int) + 1 <= old(self).n_closed,
            old(self).open@.len() <= 4 * old(self).n_closed,
            step((cx, cy), (x, y)),
            old(self).done_except(g, cx as int, cy as int),
        ensures
            final(self).inv_core(g),
            final(self).w == old(self).w,
            final(self).h == old(self).h,
            final(self).start == old(self).start,
            final(self).goal == old(self).goal,
            final(self).closed == old(self).closed,
            final(self).n_closed == old(self).n_closed,
            final(self).f_last == old(self).f_last,
            final(self).open@.len() <= old(self).open@.len() + 1,
            final(self).n_alive <= old(self).n_alive + 1,
            forall|a: int, b: int|
                in_grid(g, a, b) && #[trigger] old(self).k(a, b) ==> final(self).k(a, b) && final(self).c(a, b) <= old(self).c(a, b),
            final(self).c(cx as int, cy as int) == old(self).c(cx as int, cy as int),
            floor_at(g, x as int, y as int) ==> final(self).k(x as int, y as int)
                && final(self).c(x as int, y as int) <= old(self).c(cx as int, cy as int) + 1,
            final(self).done_except(g, cx as int, cy as int),
    {
        if x >= self.w || y >= self.h {
            return;
        }
        if !tile_is_floor(g, x, y) {
            return;
        }
        let i = self.ix(x, y);
        let ci = self.ix(cx, cy);
        let new_cost = self.cost[ci] + 1;
        if self.known[i] && new_cost >= self.cost[i] {
            return;
        }
        let ghost o = *self;
        assert(!self.cl(x as int, y as int)) by {
            reveal(Search::closed_ok);
        }
        proof {
            lemma_count_le(self.alive@);
            lemma_count_le(self.closed@);
            lemma_count_push(self.alive@, true);
            lemma_idx(self.w as int, self.h as int, x as int, y as int);
            assert(self.k(cx as int, cy as int)) by {
                reveal(Search::closed_ok);
            }
            assert(self.cell_ok(g, cx as int, cy as int)) by {
                reveal(Search::cells_ok);
            }
        }
        let hv = heuristic((x, y), self.goal);
        self.cost.set(i, new_cost);
        self.known.set(i, true);
        self.from.set(i, (cx, cy));
        self.open.push((x, y, new_cost + hv));
        self.alive.push(true);
        self.n_alive = self.n_alive + 1;
        proof {
            let nc = new_cost;
            let p = (new_cost + hv) as usize;
            lemma_relax_frame(g, o, *self, x as int, y as int, cx, cy, nc, p);
            lemma_relax_cells(g, o, *self, x as int, y as int, cx, cy, nc, p);
            lemma_relax_rest(g, o, *self, x as int, y as int, cx, cy, nc, p);
        }
    }
}

/// `(x, y)` lies in a `w` by `h` grid.
spec fn in_grid_wh(w: int, h: int, x: int, y: int) -> bool {
    0 <= x < w && 0 <= y < h
}


/// `n` is `o` with entry `m` no longer pending.
spec fn popped(o: Search, n: Search, m: int) -> bool {
    &&& n.w == o.w
    &&& n.h == o.h
    &&& n.start == o.start
    &&& n.goal == o.goal
    &&& n.cost@ == o.cost@
    &&& n.known@ == o.known@
    &&& n.from@ == o.from@
    &&& n.open@ == o.open@
    &&& n.alive@ == o.alive@.update(m, false)
    &&& n.n_alive == count_true(n.alive@)
}

spec fn is_best(s: Search, m: int) -> bool {
    &&& 0 <= m < s.open@.len()
    &&& s.alive@[m]
    &&& forall|e: int| 0 <= e < s.open@.len() && #[trigger] s.alive@[e] ==> s.open@[m].2 <= s.open@[e].2
}

/// Dropping a pending entry of an expanded tile keeps the invariant.
proof fn lemma_pop_stale(g: &Grid, o: Search, n: Search, m: int)
    requires
        o.inv(g),
        popped(o, n, m),
        0 <= m < o.open@.len(),
        o.cl(o.open@[m].0 as int, o.open@[m].1 as int),
        n.closed@ == o.closed@,
        n.n_closed == o.n_closed,
        n.f_last == o.f_last,
    ensures
        n.inv(g),
{
    reveal(Search::cells_ok);
    reveal(Search::closed_ok);
    reveal(Search::entries_ok);
    reveal(Search::all_done);
    assert forall|a: int, b: int| in_grid(g, a, b) && #[trigger] n.k(a, b) implies n.cell_ok(g, a, b) by {
        assert(o.k(a, b));
        assert(o.cell_ok(g, a, b));
        if !o.cl(a, b) {
            let e = choose|e: int|
                0 <= e < o.open@.len() && #[trigger] o.alive@[e] && o.open@[e].0 == a && o.open@[e].1 == b
                    && o.open@[e].2 == o.c(a, b) + o.hh(a, b);
            assert(e != m);
            assert(n.alive@[e]);
        }
        if !(a == o.start.0 && b == o.start.1) {
            let f = o.fr(a, b);
            assert(o.k(f.0 as int, f.1 as int));
        }
    }
    assert forall|a: int, b: int| in_grid(g, a, b) && #[trigger] n.cl(a, b) implies n.nbrs_done(g, a, b) by {
        assert(o.cl(a, b));
        assert(o.nbrs_done(g, a, b));
    }
    assert forall|e: int| 0 <= e < n.open@.len() implies #[trigger] n.entry_ok(e) by {
        assert(o.entry_ok(e));
    }
    assert(n.basics(g));
    assert(n.cells_ok(g));
    assert forall|a: int, b: int| in_grid(g, a, b) && #[trigger] n.cl(a, b) implies n.k(a, b)
        && n.c(a, b) + n.hh(a, b) <= n.f_last@ by {
        assert(o.cl(a, b));
    }
    assert(n.closed_ok(g));
    assert(n.entries_ok());
    assert(n.all_done(g));
}

spec fn fresh_pre(g: &Grid, o: Search, n: Search, m: int, x: int, y: int) -> bool {
    &&& o.inv(g)
    &&& popped(o, n, m)
    &&& is_best(o, m)
    &&& x == o.open@[m].0
    &&& y == o.open@[m].1
    &&& !(x == o.goal.0 && y == o.goal.1)
    &&& !o.cl(x, y)
    &&& n.closed@ == o.closed@.update(idx(o.w as int, x, y), true)
    &&& n.n_closed == o.n_closed + 1
    &&& n.n_closed == count_true(n.closed@)
    &&& n.f_last@ == o.open@[m].2
}

spec fn fresh_facts(g: &Grid, o: Search, n: Search, m: int, x: int, y: int) -> bool {
    &&& in_grid(g, x, y)
    &&& o.k(x, y)
    &&& o.open@[m].2 == o.c(x, y) + o.hh(x, y)
    &&& n.cl(x, y)
    &&& forall|a: int, b: int| in_grid(g, a, b) && !(a == x && b == y) ==> #[trigger] n.cl(a, b) == o.cl(a, b)
}

proof fn lemma_fresh_facts(g: &Grid, o: Search, n: Search, m: int, x: int, y: int)
    requires
        fresh_pre(g, o, n, m, x, y),
    ensures
        fresh_facts(g, o, n, m, x, y),
{
    reveal(Search::cells_ok);
    reveal(Search::entries_ok);
    let w = o.w as int;
    let h = o.h as int;
    assert(o.entry_ok(m));
    assert(in_grid(g, x, y));
    lemma_idx(w, h, x, y);
    assert(o.cell_ok(g, x, y));
    let e0 = choose|e: int|
        0 <= e < o.open@.len() && #[trigger] o.alive@[e] && o.open@[e].0 == x && o.open@[e].1 == y
            && o.open@[e].2 == o.c(x, y) + o.hh(x, y);
    assert(o.open@[m].2 <= o.open@[e0].2);
    assert forall|a: int, b: int| in_grid(g, a, b) && !(a == x && b == y) implies #[trigger] n.cl(a, b) == o.cl(a, b) by {
        lemma_idx_inj(w, a, b, x, y);
        lemma_idx(w, h, a, b);
    }
}

proof fn lemma_fresh_cells(g: &Grid, o: Search, n: Search, m: int, x: int, y: int)
    requires
        fresh_pre(g, o, n, m, x, y),
        fresh_facts(g, o, n, m, x, y),
    ensures
        n.cells_ok(g),
{
    reveal(Search::cells_ok);
    assert forall|a: int, b: int| in_grid(g, a, b) && #[trigger] n.k(a, b) implies n.cell_ok(g, a, b) by {
        assert(o.k(a, b));
        assert(o.cell_ok(g, a, b));
        if !n.cl(a, b) {
            assert(!(a == x && b == y));
            assert(!o.cl(a, b));
            let e = choose|e: int|
                0 <= e < o.open@.len() && #[trigger] o.alive@[e] && o.open@[e].0 == a && o.open@[e].1 == b
                    && o.open@[e].2 == o.c(a, b) + o.hh(a, b);
            assert(e != m);
            assert(n.alive@[e]);
        }
        if !(a == o.start.0 && b == o.start.1) {
            let f = o.fr(a, b);
            assert(o.k(f.0 as int, f.1 as int));
        }
    }
}

proof fn lemma_fresh_rest(g: &Grid, o: Search, n: Search, m: int, x: int, y: int)
    requires
        fresh_pre(g, o, n, m, x, y),
        fresh_facts(g, o, n, m, x, y),
    ensures
        n.closed_ok(g),
        n.entries_ok(),
        n.done_except(g, x, y),
{
    reveal(Search::closed_ok);
    reveal(Search::entries_ok);
    reveal(Search::all_done);
    reveal(Search::done_except);
    assert(o.entry_ok(m));
    assert forall|a: int, b: int| in_grid(g, a, b) && #[trigger] n.cl(a, b) implies n.k(a, b)
        && n.c(a, b) + n.hh(a, b) <= n.f_last@ by {
        if !(a == x && b == y) {
            assert(o.cl(a, b));
        }
    }
    assert forall|e: int| 0 <= e < n.open@.len() implies #[trigger] n.entry_ok(e) by {
        assert(o.entry_ok(e));
        if n.alive@[e] {
            assert(e != m);
            assert(o.alive@[e]);
        }
    }
    assert forall|a: int, b: int|
        in_grid(g, a, b) && #[trigger] n.cl(a, b) && !(a == x && b == y) implies n.nbrs_done(g, a, b) by {
        assert(o.cl(a, b));
        assert(o.nbrs_done(g, a, b));
    }
}

/// Taking the best entry of a tile not yet expanded, and marking the tile
/// expanded, keeps all of the invariant but that tile's neighbours.
proof fn lemma_pop_fresh(g: &Grid, o: Search, n: Search, m: int, x: int, y: int)
    requires
        fresh_pre(g, o, n, m, x, y),
    ensures
        n.inv_core(g),
        n.done_except(g, x, y),
        in_grid(g, x, y),
        n.cl(x, y),
        n.c(x, y) + n.hh(x, y) == n.f_last@,
        n.c(x, y) + 1 <= n.n_closed,
        n.open@.len() + 3 <= 4 * n.n_closed + 1,
{
    lemma_fresh_facts(g, o, n, m, x, y);
    lemma_fresh_cells(g, o, n, m, x, y);
    lemma_fresh_rest(g, o, n, m, x, y);
    assert(o.cell_ok(g, x, y)) by {
        reveal(Search::cells_ok);
    }
    assert(!n.cl(o.goal.0 as int, o.goal.1 as int));
    let nn = n.w * n.h;
    lemma_idx(o.w as int, o.h as int, x, y);
    assert(n.cost@.len() == nn);
    assert(n.known@.len() == nn);
    assert(n.closed@.len() == nn);
    assert(n.from@.len() == nn);
    assert(n.alive@.len() == n.open@.len());
    assert(n.open@.len() <= 4 * n.n_closed + 1);
    assert(n.k(n.start.0 as int, n.start.1 as int));
    assert(n.c(n.start.0 as int, n.start.1 as int) == 0);
    assert(n.basics(g));
}

proof fn lemma_all_done(g: &Grid, s: Search, x: int, y: int)
    requires
        s.done_except(g, x, y),
        s.nbrs_done(g, x, y),
    ensures
        s.all_done(g),
{
    reveal(Search::done_except);
    reveal(Search::all_done);
}

spec fn pending_at_most(s: Search, k: int) -> bool {
    exists|e: int| 0 <= e < s.open@.len() && #[trigger] s.alive@[e] && s.open@[e].2 <= k
}

/// Along any walk from the start to the goal, either some pending entry has
/// priority at most the walk's length, or the `j`-th tile already costs at most `j`.
proof fn lemma_frontier(g: &Grid, s: Search, q: Seq<Pos>, j: int)
    requires
        s.inv(g),
        walk_from_to(g, q, s.start, s.goal),
        0 <= j < q.len(),
    ensures
        pending_at_most(s, q.len() - 1) || (s.k(q[j].0 as int, q[j].1 as int) && s.c(q[j].0 as int, q[j].1 as int) <= j),
    decreases j,
{
    if j > 0 {
        lemma_frontier(g, s, q, j - 1);
        if !pending_at_most(s, q.len() - 1) {
            let a = q[j - 1].0 as int;
            let b = q[j - 1].1 as int;
            assert(in_grid(g, a, b)) by {
                if j - 1 > 0 {
                    assert(floor_at(g, q[j - 1].0 as int, q[j - 1].1 as int));
                }
            }
            assert(floor_at(g, q[j].0 as int, q[j].1 as int));
            assert(step(q[j - 1], q[(j - 1) + 1]));
            if s.cl(a, b) {
                assert(s.nbrs_done(g, a, b)) by {
                    reveal(Search::all_done);
                }
            } else {
                assert(s.cell_ok(g, a, b)) by {
                    reveal(Search::cells_ok);
                }
                lemma_manhattan_walk(g, q, j - 1);
                let e = choose|e: int|
                    0 <= e < s.open@.len() && #[trigger] s.alive@[e] && s.open@[e].0 == a && s.open@[e].1 == b
                        && s.open@[e].2 == s.c(a, b) + s.hh(a, b);
                assert(s.hh(a, b) == manhattan(q[j - 1], q.last()));
                assert(s.open@[e].2 <= q.len() - 1);
            }
        }
    }
}

impl Search {
    /// The pending entry of least priority, if any.
    fn best_entry(&self) -> (r: Option<usize>)
        requires
            self.alive@.len() == self.open@.len(),
        ensures
            r matches Some(m) ==> is_best(*self, m as int),
            r is None ==> forall|e: int| 0 <= e < self.open@.len() ==> !#[trigger] self.alive@[e],
    {
        let mut best: Option<usize> = None;
        let mut e: usize = 0;
        while e < self.open.len()
            invariant
                self.alive@.len() == self.open@.len(),
                e <= self.open@.len(),
                best matches Some(m) ==> m < e && self.alive@[m as int] && forall|f: int|
                    0 <= f < e && #[trigger] self.alive@[f] ==> self.open@[m as int].2 <= self.open@[f].2,
                best is None ==> forall|f: int| 0 <= f < e ==> !#[trigger] self.alive@[f],
            decreases self.open@.len() - e,
        {
            if self.alive[e] {
                match best {
                    Some(m) => {
                        if self.open[e].2 < self.open[m].2 {
                            best = Some(e);
                        }
                    },
                    None => {
                        best = Some(e);
                    },
                }
            }
            e = e + 1;
        }
        best
    }

    /// Follows the recorded predecessors back from the goal to the start.
    fn trace(&self, g: &Grid) -> (r: Vec<Pos>)
        requires
            self.inv_core(g),
            self.k(self.goal.0 as int, self.goal.1 as int),
        ensures
            walk_from_to(g, r@, self.start, self.goal),
            r@.len() <= self.c(self.goal.0 as int, self.goal.1 as int) + 1,
    {
        let ghost cg = self.c(self.goal.0 as int, self.goal.1 as int);
        let mut rev: Vec<Pos> = Vec::new();
        rev.push(self.goal);
        let mut p = self.goal;
        while p.0 != self.start.0 || p.1 != self.start.1
            invariant
                self.inv_core(g),
                in_grid(g, p.0 as int, p.1 as int),
                self.k(p.0 as int, p.1 as int),
                rev@.len() >= 1,
                rev@[0] == self.goal,
                rev@.last() == p,
                forall|i: int| 0 <= i < rev@.len() - 1 ==> #[trigger] step(rev@[i + 1], rev@[i]),
                forall|i: int| 0 <= i < rev@.len() - 1 ==> floor_at(g, #[trigger] rev@[i].0 as int, rev@[i].1 as int),
                rev@.len() - 1 + self.c(p.0 as int, p.1 as int) <= cg,
            decreases self.c(p.0 as int, p.1 as int),
        {
            assert(self.cell_ok(g, p.0 as int, p.1 as int)) by {
                reveal(Search::cells_ok);
            }
            let i = self.ix(p.0, p.1);
            let f = self.from[i];
            let ghost old_rev = rev@;
            rev.push(f);
            assert forall|i: int| 0 <= i < rev@.len() - 1 implies #[trigger] step(rev@[i + 1], rev@[i]) by {
                if i < old_rev.len() - 1 {
                    assert(step(old_rev[i + 1], old_rev[i]));
                }
            }
            assert forall|i: int| 0 <= i < rev@.len() - 1 implies floor_at(g, #[trigger] rev@[i].0 as int, rev@[i].1 as int) by {
                if i < old_rev.len() - 1 {
                    assert(floor_at(g, old_rev[i].0 as int, old_rev[i].1 as int));
                }
            }
            p = f;
        }
        let mut r: Vec<Pos> = Vec::new();
        let mut j: usize = rev.len();
        while j > 0
            invariant
                j <= rev@.len(),
                r@.len() == rev@.len() - j,
                forall|i: int| 0 <= i < r@.len() ==> #[trigger] r@[i] == rev@[rev@.len() - 1 - i],
            decreases j,
        {
            j = j - 1;
            r.push(rev[j]);
        }
        proof {
            let len = rev@.len() as int;
            assert forall|i: int| 1 <= i < r@.len() implies floor_at(g, #[trigger] r@[i].0 as int, r@[i].1 as int) by {
                assert(r@[i] == rev@[len - 1 - i]);
                assert(floor_at(g, rev@[len - 1 - i].0 as int, rev@[len - 1 - i].1 as int));
            }
            assert forall|i: int| 0 <= i < r@.len() - 1 implies #[trigger] step(r@[i], r@[i + 1]) by {
                let jj = len - 2 - i;
                assert(step(rev@[jj + 1], rev@[jj]));
            }
            assert(r@[0] == rev@[len - 1]);
            assert(r@.last() == rev@[0]);
        }
        r
    }
}

/// A* search over floor tiles, 4-connected, unit step cost, Manhattan
/// heuristic. Returns a shortest walk from `start` to `goal`, both included,
/// or nothing when the start or the goal is a wall or no walk leads there.
pub fn find_path(g: &Grid, start: Pos, goal: Pos) -> (r: Option<Vec<Pos>>)
    requires
        grid_wf(g),
    ensures
        r is Some <==> floor_at(g, goal.0 as int, goal.1 as int) && reachable(g, start, goal),
        r matches Some(p) ==> is_shortest(g, p@, start, goal),
{
    let h = g.len();
    let w = g[0].len();
    if !tile_is_floor(g, start.0, start.1) {
        return None;
    }
    if !tile_is_floor(g, goal.0, goal.1) {
        return None;
    }
    proof {
        lemma_idx(w as int, h as int, start.0 as int, start.1 as int);
    }
    let n = w * h;
    let hs = heuristic(start, goal);
    let mut s = Search {
        w,
        h,
        start,
        goal,
        cost: vec![0; n],
        known: vec![false; n],
        closed: vec![false; n],
        from: vec![(0, 0); n],
        open: Vec::new(),
        alive: Vec::new(),
        n_alive: 1,
        n_closed: 0,
        f_last: Ghost(0),
    };
    assert(forall|i: int| 0 <= i < n ==> !#[trigger] s.known@[i]);
    assert(forall|i: int| 0 <= i < n ==> !#[trigger] s.closed@[i]);
    assert(forall|i: int| 0 <= i < n ==> #[trigger] s.cost@[i] == 0);
    let si = s.ix(start.0, start.1);
    s.known.set(si, true);
    s.open.push((start.0, start.1, hs));
    s.alive.push(true);
    proof {
        reveal(Search::cells_ok);
        reveal(Search::closed_ok);
        reveal(Search::entries_ok);
        reveal(Search::all_done);
        lemma_count_none(s.closed@);
        lemma_count_push(Seq::<bool>::empty(), true);
        assert(Seq::<bool>::empty().push(true) =~= s.alive@);
        assert forall|a: int, b: int| in_grid(g, a, b) && #[trigger] s.k(a, b) implies a == start.0 && b == start.1 by {
            if !(a == start.0 && b == start.1) {
                lemma_idx_inj(w as int, a, b, start.0 as int, start.1 as int);
                lemma_idx(w as int, h as int, a, b);
            }
        }
        assert(s.alive@[0]);
        assert forall|a: int, b: int| in_grid(g, a, b) && #[trigger] s.k(a, b) implies s.cell_ok(g, a, b) by {
            lemma_idx(w as int, h as int, a, b);
        }
        assert forall|a: int, b: int| in_grid(g, a, b) && #[trigger] s.cl(a, b) implies false by {
            lemma_idx(w as int, h as int, a, b);
        }
        assert(!s.cl(goal.0 as int, goal.1 as int));
        assert(s.entry_ok(0));
    }
    loop
        invariant
            s.inv(g),
            s.w == w,
            s.h == h,
            s.start == start,
            s.goal == goal,
            n == w * h,
            floor_at(g, goal.0 as int, goal.1 as int),
        decreases 5 * (n - s.n_closed) + s.n_alive,
    {
        proof {
            lemma_count_le(s.closed@);
        }
        let m = match s.best_entry() {
            Some(m) => m,
            None => {
                proof {
                    assert forall|q: Seq<Pos>| !walk_from_to(g, q, start, goal) by {
                        if walk_from_to(g, q, start, goal) {
                            lemma_frontier(g, s, q, q.len() - 1);
                            reveal(Search::cells_ok);
                            assert(s.cell_ok(g, goal.0 as int, goal.1 as int));
                        }
                    }
                }
                return None;
            },
        };
        let (x, y, pr) = s.open[m];
        if x == goal.0 && y == goal.1 {
            proof {
                reveal(Search::entries_ok);
                assert(s.entry_ok(m as int));
                assert forall|q: Seq<Pos>| walk_from_to(g, q, start, goal) implies s.c(goal.0 as int, goal.1 as int) + 1
                    <= q.len() by {
                    lemma_frontier(g, s, q, q.len() - 1);
                }
            }
            let path = s.trace(g);
            return Some(path);
        }
        let ghost o = s;
        proof {
            lemma_count_set(s.alive@, m as int, false);
            reveal(Search::entries_ok);
            assert(s.entry_ok(m as int));
        }
        s.alive.set(m, false);
        s.n_alive = s.n_alive - 1;
        let i = s.ix(x, y);
        if s.closed[i] {
            proof {
                lemma_pop_stale(g, o, s, m as int);
            }
            continue;
        }
        proof {
            lemma_count_set(s.closed@, i as int, true);
            lemma_count_le(s.closed@.update(i as int, true));
        }
        s.closed.set(i, true);
        s.n_closed = s.n_closed + 1;
        s.f_last = Ghost(pr as int);
        proof {
            lemma_pop_fresh(g, o, s, m as int, x as int, y as int);
        }
        let ghost s0 = s;
        if x > 0 {
            s.relax(g, x - 1, y, x, y);
        }
        let ghost s1 = s;
        s.relax(g, x + 1, y, x, y);
        let ghost s2 = s;
        if y > 0 {
            s.relax(g, x, y - 1, x, y);
        }
        let ghost s3 = s;
        s.relax(g, x, y + 1, x, y);
        proof {
            let (xi, yi) = (x as int, y as int);
            assert(s.nbrs_done(g, xi, yi)) by {
                if floor_at(g, xi - 1, yi) {
                    assert(s1.k(xi - 1, yi));
                    assert(s2.k(xi - 1, yi));
                    assert(s3.k(xi - 1, yi));
                }
                if floor_at(g, xi + 1, yi) {
                    assert(s2.k(xi + 1, yi));
                    assert(s3.k(xi + 1, yi));
                }
                if floor_at(g, xi, yi - 1) {
                    assert(s3.k(xi, yi - 1));
                }
            }
            lemma_all_done(g, s, xi, yi);
        }
    }
}


/// Every neighbour of `(x, y)` inside the grid is flagged.
pub open spec fn nbrs_seen(g: &Grid, s: Seq<bool>, x: int, y: int) -> bool {
    let w = width(g);
    &&& in_grid(g, x - 1, y) ==> cell_flag(s, w, x - 1, y)
    &&& in_grid(g, x + 1, y) ==> cell_flag(s, w, x + 1, y)
    &&& in_grid(g, x, y - 1) ==> cell_flag(s, w, x, y - 1)
    &&& in_grid(g, x, y + 1) ==> cell_flag(s, w, x, y + 1)
}

/// Facts of a breadth-first search over all tiles of the grid.
spec fn sweep_ok(g: &Grid, v: Seq<bool>, q: Seq<Pos>) -> bool {
    &&& v.len() == width(g) * height(g)
    &&& q.len() == count_true(v)
    &&& forall|k: int| 0 <= k < q.len() ==> in_grid(g, #[trigger] q[k].0 as int, q[k].1 as int)
        && cell_flag(v, width(g), q[k].0 as int, q[k].1 as int)
    &&& forall|a: usize, b: usize| in_grid(g, a as int, b as int) && #[trigger] cell_flag(v, width(g), a as int, b as int)
        ==> exists|k: int| 0 <= k < q.len() && q[k] == (a, b)
}

/// Visits one tile of the grid, when it is not yet flagged.
fn sweep_visit(g: &Grid, visited: &mut Vec<bool>, queue: &mut Vec<Pos>, x: usize, y: usize)
    requires
        grid_wf(g),
        sweep_ok(g, old(visited)@, old(queue)@),
    ensures
        sweep_ok(g, final(visited)@, final(queue)@),
        final(queue)@.len() >= old(queue)@.len(),
        forall|k: int| 0 <= k < old(queue)@.len() ==> #[trigger] final(queue)@[k] == old(queue)@[k],
        forall|i: int| 0 <= i < old(visited)@.len() && old(visited)@[i] ==> #[trigger] final(visited)@[i],
        forall|k: int| old(queue)@.len() <= k < final(queue)@.len() ==> #[trigger] final(queue)@[k] == (x, y)
            && !cell_flag(old(visited)@, width(g), x as int, y as int),
        in_grid(g, x as int, y as int) ==> cell_flag(final(visited)@, width(g), x as int, y as int),
{
    let w = g[0].len();
    let h = g.len();
    if x < w && y < h {
        proof {
            lemma_idx(w as int, h as int, x as int, y as int);
        }
        let i = y * w + x;
        if !visited[i] {
            let ghost v0 = visited@;
            let ghost q0 = queue@;
            proof {
                lemma_count_set(v0, i as int, true);
            }
            visited.set(i, true);
            queue.push((x, y));
            assert forall|k: int| 0 <= k < queue@.len() implies in_grid(g, #[trigger] queue@[k].0 as int, queue@[k].1 as int)
                && cell_flag(visited@, width(g), queue@[k].0 as int, queue@[k].1 as int) by {
                if k < q0.len() {
                    let (qa, qb) = queue@[k];
                    assert(q0[k] == (qa, qb));
                    lemma_idx(w as int, h as int, qa as int, qb as int);
                }
            }
            assert forall|a: usize, b: usize| in_grid(g, a as int, b as int) && #[trigger] cell_flag(visited@, width(g), a as int, b as int)
                implies exists|k: int| 0 <= k < queue@.len() && queue@[k] == (a, b) by {
                if a != x || b != y {
                    lemma_idx_inj(w as int, a as int, b as int, x as int, y as int);
                    lemma_idx(w as int, h as int, a as int, b as int);
                    assert(cell_flag(v0, width(g), a as int, b as int));
                    let k = choose|k: int| 0 <= k < q0.len() && q0[k] == (a, b);
                    assert(queue@[k] == (a, b));
                } else {
                    assert(queue@[q0.len() as int] == (a, b));
                }
            }
        }
    }
}

/// Visits the neighbours of `(x, y)` inside the grid.
fn sweep_expand(g: &Grid, visited: &mut Vec<bool>, queue: &mut Vec<Pos>, x: usize, y: usize)
    requires
        grid_wf(g),
        sweep_ok(g, old(visited)@, old(queue)@),
        in_grid(g, x as int, y as int),
    ensures
        sweep_ok(g, final(visited)@, final(queue)@),
        final(queue)@.len() >= old(queue)@.len(),
        forall|k: int| 0 <= k < old(queue)@.len() ==> #[trigger] final(queue)@[k] == old(queue)@[k],
        forall|i: int| 0 <= i < old(visited)@.len() && old(visited)@[i] ==> #[trigger] final(visited)@[i],
        forall|k: int| old(queue)@.len() <= k < final(queue)@.len() ==> step((x, y), #[trigger] final(queue)@[k])
            && !cell_flag(old(visited)@, width(g), final(queue)@[k].0 as int, final(queue)@[k].1 as int),
        nbrs_seen(g, final(visited)@, x as int, y as int),
{
    let ghost v0 = visited@;
    let ghost q0 = queue@;
    if x > 0 {
        sweep_visit(g, visited, queue, x - 1, y);
    }
    let ghost v1 = visited@;
    let ghost q1 = queue@;
    sweep_visit(g, visited, queue, x + 1, y);
    let ghost v2 = visited@;
    let ghost q2 = queue@;
    if y > 0 {
        sweep_visit(g, visited, queue, x, y - 1);
    }
    let ghost v3 = visited@;
    let ghost q3 = queue@;
    sweep_visit(g, visited, queue, x, y + 1);
    proof {
        let w = width(g);
        let h = height(g);
        let (xi, yi) = (x as int, y as int);
        if in_grid(g, xi - 1, yi) {
            lemma_idx(w, h, xi - 1, yi);
        }
        if in_grid(g, xi + 1, yi) {
            lemma_idx(w, h, xi + 1, yi);
        }
        if in_grid(g, xi, yi - 1) {
            lemma_idx(w, h, xi, yi - 1);
        }
        if in_grid(g, xi, yi + 1) {
            lemma_idx(w, h, xi, yi + 1);
        }
        assert forall|k: int| q0.len() <= k < queue@.len() implies step((x, y), #[trigger] queue@[k])
            && !cell_flag(v0, w, queue@[k].0 as int, queue@[k].1 as int) by {
            let (a, b) = queue@[k];
            assert(in_grid(g, a as int, b as int));
            lemma_idx(w, h, a as int, b as int);
            if k < q1.len() {
                assert(q1[k] == queue@[k]);
            } else if k < q2.len() {
                assert(q2[k] == queue@[k]);
                assert(!cell_flag(v1, w, a as int, b as int));
            } else if k < q3.len() {
                assert(q3[k] == queue@[k]);
                assert(!cell_flag(v2, w, a as int, b as int));
                assert(!cell_flag(v1, w, a as int, b as int));
            } else {
                assert(!cell_flag(v3, w, a as int, b as int));
                assert(!cell_flag(v2, w, a as int, b as int));
                assert(!cell_flag(v1, w, a as int, b as int));
            }
        }
    }
}

/// The neighbour of `c` one step nearer to `s`.
spec fn toward(c: Pos, s: Pos) -> Pos {
    if c.0 > s.0 {
        ((c.0 - 1) as usize, c.1)
    } else if c.0 < s.0 {
        ((c.0 + 1) as usize, c.1)
    } else if c.1 > s.1 {
        (c.0, (c.1 - 1) as usize)
    } else {
        (c.0, (c.1 + 1) as usize)
    }
}

/// The tiles of `q` come in order of their distance from `start`.
#[verifier::opaque]
spec fn sorted_by_distance(q: Seq<Pos>, start: Pos) -> bool {
    forall|i: int, j: int| #![trigger q[i], q[j]] 0 <= i <= j < q.len() ==> manhattan(q[i], start) <= manhattan(q[j], start)
}

proof fn lemma_sorted_pair(q: Seq<Pos>, start: Pos, i: int, j: int)
    requires
        sorted_by_distance(q, start),
        0 <= i <= j < q.len(),
    ensures
        manhattan(q[i], start) <= manhattan(q[j], start),
{
    reveal(sorted_by_distance);
}

spec fn sweep_layers(g: &Grid, v: Seq<bool>, q: Seq<Pos>, head: int, start: Pos) -> bool {
    &&& sweep_ok(g, v, q)
    &&& 0 <= head <= q.len()
    &&& q.len() >= 1
    &&& q[0] == start
    &&& sorted_by_distance(q, start)
    &&& head < q.len() ==> manhattan(q[q.len() - 1], start) <= manhattan(q[head], start) + 1
    &&& forall|k: int| 0 <= k < head ==> !floor_at(g, #[trigger] q[k].0 as int, q[k].1 as int)
        && nbrs_seen(g, v, q[k].0 as int, q[k].1 as int)
}

/// Every tile nearer to the start than the tile at `head` has been taken
/// from the queue already; with the queue spent, every tile has.
proof fn lemma_nearer_taken(g: &Grid, v: Seq<bool>, q: Seq<Pos>, head: int, start: Pos, c: Pos)
    requires
        grid_wf(g),
        sweep_layers(g, v, q, head, start),
        in_grid(g, c.0 as int, c.1 as int),
        head == q.len() || manhattan(c, start) < manhattan(q[head], start),
    ensures
        exists|k: int| 0 <= k < head && q[k] == c,
    decreases manhattan(c, start),
{
    let w = width(g);
    let h = height(g);
    if c == start {
        assert(q[0] == c);
        if head == 0 {
            lemma_sorted_pair(q, start, 0, head);
        }
    } else {
        let p = toward(c, start);
        assert(in_grid(g, p.0 as int, p.1 as int));
        assert(manhattan(p, start) == manhattan(c, start) - 1);
        lemma_nearer_taken(g, v, q, head, start, p);
        let j = choose|k: int| 0 <= k < head && q[k] == p;
        assert(nbrs_seen(g, v, p.0 as int, p.1 as int));
        assert(cell_flag(v, w, c.0 as int, c.1 as int));
        let k = choose|k: int| 0 <= k < q.len() && q[k] == c;
        if k >= head {
            lemma_sorted_pair(q, start, head, k);
        }
    }
}

proof fn lemma_sweep_step(g: &Grid, v0: Seq<bool>, q0: Seq<Pos>, v: Seq<bool>, q: Seq<Pos>, head: int, start: Pos)
    requires
        grid_wf(g),
        sweep_layers(g, v0, q0, head, start),
        head < q0.len(),
        !floor_at(g, q0[head].0 as int, q0[head].1 as int),
        sweep_ok(g, v, q),
        q.len() >= q0.len(),
        forall|k: int| 0 <= k < q0.len() ==> #[trigger] q[k] == q0[k],
        forall|i: int| 0 <= i < v0.len() && v0[i] ==> #[trigger] v[i],
        forall|k: int| q0.len() <= k < q.len() ==> step(q0[head], #[trigger] q[k])
            && !cell_flag(v0, width(g), q[k].0 as int, q[k].1 as int),
        nbrs_seen(g, v, q0[head].0 as int, q0[head].1 as int),
    ensures
        sweep_layers(g, v, q, head + 1, start),
{
    let w = width(g);
    let h = height(g);
    let d = manhattan(q0[head], start);
    assert forall|k: int| q0.len() <= k < q.len() implies manhattan(#[trigger] q[k], start) == d + 1 by {
        let c = q[k];
        assert(in_grid(g, c.0 as int, c.1 as int));
        if manhattan(c, start) < d {
            lemma_nearer_taken(g, v0, q0, head, start, c);
            let j = choose|j: int| 0 <= j < head && q0[j] == c;
            lemma_idx(w, h, c.0 as int, c.1 as int);
            assert(in_grid(g, q0[j].0 as int, q0[j].1 as int));
        }
    }
    assert(sorted_by_distance(q, start)) by {
        reveal(sorted_by_distance);
        assert forall|i: int, j: int| #![trigger q[i], q[j]] 0 <= i <= j < q.len()
            implies manhattan(q[i], start) <= manhattan(q[j], start) by {
            if j >= q0.len() {
                if i < q0.len() {
                    assert(q[i] == q0[i]);
                    lemma_sorted_pair(q0, start, i, q0.len() - 1);
                    if i <= head {
                        lemma_sorted_pair(q0, start, i, head);
                    } else {
                        lemma_sorted_pair(q0, start, head, i);
                    }
                }
            } else {
                assert(q[i] == q0[i] && q[j] == q0[j]);
                lemma_sorted_pair(q0, start, i, j);
            }
        }
    }
    assert forall|k: int| 0 <= k < head + 1 implies !floor_at(g, #[trigger] q[k].0 as int, q[k].1 as int)
        && nbrs_seen(g, v, q[k].0 as int, q[k].1 as int) by {
        let (a, b) = q[k];
        assert(q0[k] == (a, b));
        if k < head {
            assert(nbrs_seen(g, v0, a as int, b as int));
            if in_grid(g, a - 1, b as int) {
                lemma_idx(w, h, a - 1, b as int);
            }
            if in_grid(g, a + 1, b as int) {
                lemma_idx(w, h, a + 1, b as int);
            }
            if in_grid(g, a as int, b - 1) {
                lemma_idx(w, h, a as int, b - 1);
            }
            if in_grid(g, a as int, b + 1) {
                lemma_idx(w, h, a as int, b + 1);
            }
        }
    }
    if head + 1 < q.len() {
        lemma_sorted_pair(q, start, head, head + 1);
        if q.len() > q0.len() {
            assert(manhattan(q[q.len() - 1], start) == d + 1);
        } else {
            assert(q[q.len() - 1] == q0[q0.len() - 1]);
        }
    }
    assert(q[0] == q0[0]);
}

/// Breadth-first search outward from `start`, through walls too, for the
/// first floor tile: a floor tile nearest to `start` in Manhattan distance.
pub fn find_nearest_floor(g: &Grid, start: Pos) -> (r: Option<Pos>)
    requires
        grid_wf(g),
        in_grid(g, start.0 as int, start.1 as int),
    ensures
        r is None <==> forall|x: int, y: int| !#[trigger] floor_at(g, x, y),
        r matches Some(t) ==> floor_at(g, t.0 as int, t.1 as int) && forall|x: usize, y: usize|
            #[trigger] floor_at(g, x as int, y as int) ==> manhattan(t, start) <= manhattan((x, y), start),
{
    let h = g.len();
    let w = g[0].len();
    proof {
        lemma_idx(w as int, h as int, start.0 as int, start.1 as int);
    }
    let n = w * h;
    let mut visited: Vec<bool> = vec![false; n];
    let mut queue: Vec<Pos> = Vec::new();
    proof {
        lemma_count_none(visited@);
    }
    proof {
        lemma_count_set(visited@, (start.1 * w + start.0) as int, true);
    }
    visited.set(start.1 * w + start.0, true);
    queue.push(start);
    let mut head: usize = 0;
    proof {
        assert forall|k: int| 0 <= k < queue@.len() implies in_grid(g, #[trigger] queue@[k].0 as int, queue@[k].1 as int)
            && cell_flag(visited@, w as int, queue@[k].0 as int, queue@[k].1 as int) by {
            assert(queue@[k] == start);
        }
        assert forall|a: usize, b: usize| in_grid(g, a as int, b as int) && #[trigger] cell_flag(visited@, w as int, a as int, b as int)
            implies exists|k: int| 0 <= k < queue@.len() && queue@[k] == (a, b) by {
            if a != start.0 || b != start.1 {
                lemma_idx_inj(w as int, a as int, b as int, start.0 as int, start.1 as int);
                lemma_idx(w as int, h as int, a as int, b as int);
            } else {
                assert(queue@[0] == (a, b));
            }
        }
        assert(sweep_ok(g, visited@, queue@));
        assert(sorted_by_distance(queue@, start)) by {
            reveal(sorted_by_distance);
        }
    }
    while head < queue.len()
        invariant
            grid_wf(g),
            w == width(g),
            h == height(g),
            n == w * h,
            in_grid(g, start.0 as int, start.1 as int),
            sweep_layers(g, visited@, queue@, head as int, start),
        decreases 2 * n - queue@.len() - head,
    {
        proof {
            lemma_count_le(visited@);
        }
        let (x, y) = queue[head];
        if tile_is_floor(g, x, y) {
            proof {
                assert forall|a: usize, b: usize| #[trigger] floor_at(g, a as int, b as int)
                    implies manhattan((x, y), start) <= manhattan((a, b), start) by {
                    if manhattan((a, b), start) < manhattan((x, y), start) {
                        lemma_nearer_taken(g, visited@, queue@, head as int, start, (a, b));
                        let k = choose|k: int| 0 <= k < head && queue@[k] == (a, b);
                    }
                }
            }
            return Some((x, y));
        }
        let ghost v0 = visited@;
        let ghost q0 = queue@;
        assert(!floor_at(g, x as int, y as int));
        sweep_expand(g, &mut visited, &mut queue, x, y);
        proof {
            lemma_sweep_step(g, v0, q0, visited@, queue@, head as int, start);
            lemma_count_le(visited@);
        }
        head = head + 1;
    }
    proof {
        assert forall|x: int, y: int| !#[trigger] floor_at(g, x, y) by {
            if floor_at(g, x, y) {
                lemma_nearer_taken(g, visited@, queue@, head as int, start, (x as usize, y as usize));
                let k = choose|k: int| 0 <= k < head && queue@[k] == (x as usize, y as usize);
            }
        }
    }
    None
}

} // verus!
