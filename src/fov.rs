//! Field of view: rays cast from the player to the points of a circle,
//! stopped by vision-blocking cells and by diagonal wall corners.
use vstd::prelude::*;
use crate::grid::Array2D;
use crate::world_map::{TileFlags, WorldMap, MAP_LIMIT};
use crate::grid::GridPosition;
use crate::dungeon::Dungeon;
use crate::entity::{Entity, EntityRecord, Kind};

verus! {

/// Radius of the player's view.
pub const FOV_RADIUS: i32 = 4;

/// Bound on coordinates handed to the line rasterizer.
pub const COORD_LIMIT: i32 = 2000000;

/// The cells of the line from `start` to `end`, as line_drawing's Bresenham
/// iterator yields them.
pub uninterp spec fn bresenham_line(start: (i32, i32), end: (i32, i32)) -> Seq<(i32, i32)>;

/// Relies on `line_drawing::Bresenham`: the points of the rasterized line,
/// starting at `start` and ending at `end` (its documentation: "Includes both
/// the start and end point"). The coordinate bound keeps its `i32` arithmetic
/// from overflowing.
#[verifier::external_body]
fn line(start: (i32, i32), end: (i32, i32)) -> (r: Vec<(i32, i32)>)
    requires
        -COORD_LIMIT <= start.0 <= COORD_LIMIT,
        -COORD_LIMIT <= start.1 <= COORD_LIMIT,
        -COORD_LIMIT <= end.0 <= COORD_LIMIT,
        -COORD_LIMIT <= end.1 <= COORD_LIMIT,
    ensures
        r@ == bresenham_line(start, end),
        r@.len() >= 1,
        r@[0] == start,
        r@.last() == end,
{
    line_drawing::Bresenham::new(start, end).collect()
}

/// The `k`-th point of the main ring of the circle of radius `r` around
/// `(x, y)`, for `off` from 0 to `r`.
pub open spec fn circle_point(x: int, y: int, r: int, off: int, k: int) -> (int, int) {
    if k == 0 { (x + off, y + r) }
    else if k == 1 { (x - off, y + r) }
    else if k == 2 { (x + off, y - r) }
    else if k == 3 { (x - off, y - r) }
    else if k == 4 { (x + r, y + off) }
    else if k == 5 { (x - r, y + off) }
    else if k == 6 { (x + r, y - off) }
    else { (x - r, y - off) }
}

/// The targets of the rays: the square ring of radius `r`, then, on the
/// ring of radius `r + 1`, the points within `r / 2` of the axes.
pub open spec fn fov_circle_spec(x: int, y: int, r: int) -> Seq<(i32, i32)> {
    let main = 8 * (r + 1);
    let outer = 8 * (r / 2 + 1);
    Seq::new((main + outer) as nat, |i: int| {
        let p = if i < main { circle_point(x, y, r, i / 8, i % 8) } else {
            circle_point(x, y, r + 1, (i - main) / 8, (i - main) % 8) };
        (p.0 as i32, p.1 as i32)
    })
}

pub fn fov_circle(x: i32, y: i32, r: i32) -> (points: Vec<(i32, i32)>)
    requires
        -COORD_LIMIT <= x <= COORD_LIMIT,
        -COORD_LIMIT <= y <= COORD_LIMIT,
        0 <= r <= 1000,
    ensures
        points@ == fov_circle_spec(x as int, y as int, r as int),
{
    let mut points: Vec<(i32, i32)> = Vec::new();
    let mut off: i32 = 0;
    while off <= r
        invariant
            -COORD_LIMIT <= x <= COORD_LIMIT,
            -COORD_LIMIT <= y <= COORD_LIMIT,
            0 <= r <= 1000,
            0 <= off <= r + 1,
            points@.len() == 8 * off,
            forall|i: int| 0 <= i < points@.len() ==> #[trigger] points@[i] == fov_circle_spec(x as int, y as int, r as int)[i],
        decreases r + 1 - off,
    {
        let ghost base = points@.len() as int;
        points.push((x + off, y + r));
        points.push((x - off, y + r));
        points.push((x + off, y - r));
        points.push((x - off, y - r));
        points.push((x + r, y + off));
        points.push((x - r, y + off));
        points.push((x + r, y - off));
        points.push((x - r, y - off));
        proof {
            assert forall|i: int| base <= i < base + 8 implies #[trigger] points@[i] == fov_circle_spec(x as int, y as int, r as int)[i] by {
                assert(i / 8 == off as int);
                assert(i % 8 == i - base);
            }
        }
        off = off + 1;
    }
    let half = r / 2;
    let r1 = r + 1;
    let mut off: i32 = 0;
    while off <= half
        invariant
            -COORD_LIMIT <= x <= COORD_LIMIT,
            -COORD_LIMIT <= y <= COORD_LIMIT,
            0 <= r <= 1000,
            half == r / 2,
            r1 == r + 1,
            0 <= off <= half + 1,
            points@.len() == 8 * (r + 1) + 8 * off,
            forall|i: int| 0 <= i < points@.len() ==> #[trigger] points@[i] == fov_circle_spec(x as int, y as int, r as int)[i],
        decreases half + 1 - off,
    {
        let ghost base = points@.len() as int;
        points.push((x + off, y + r1));
        points.push((x - off, y + r1));
        points.push((x + off, y - r1));
        points.push((x - off, y - r1));
        points.push((x + r1, y + off));
        points.push((x - r1, y + off));
        points.push((x + r1, y - off));
        points.push((x - r1, y - off));
        proof {
            assert forall|i: int| base <= i < base + 8 implies #[trigger] points@[i] == fov_circle_spec(x as int, y as int, r as int)[i] by {
                let main = 8 * (r + 1);
                assert((i - main) / 8 == off as int);
                assert((i - main) % 8 == i - base);
            }
        }
        off = off + 1;
    }
    assert(points@ =~= fov_circle_spec(x as int, y as int, r as int));
    points
}


/// `p` is a cell of `t`.
pub open spec fn inb(t: &Array2D<TileFlags>, p: (i32, i32)) -> bool {
    t.in_bounds(p.0 as int, p.1 as int)
}

/// `(x, y)` is a cell of `t` that blocks vision.
pub open spec fn opaque(t: &Array2D<TileFlags>, x: int, y: int) -> bool {
    t.in_bounds(x, y) && t.at(x, y).blocks_vision
}

/// The last point before index `k` that lies on the map.
pub open spec fn prev_on_map(t: &Array2D<TileFlags>, pts: Seq<(i32, i32)>, k: int) -> Option<int>
    decreases k,
{
    if k <= 0 { None } else if inb(t, pts[k - 1]) { Some(k - 1) } else { prev_on_map(t, pts, k - 1) }
}

/// The step to point `k` cuts the corner between two vision-blocking cells.
pub open spec fn corner_cut(t: &Array2D<TileFlags>, pts: Seq<(i32, i32)>, k: int) -> bool {
    &&& inb(t, pts[k])
    &&& prev_on_map(t, pts, k) is Some
    &&& {
        let q = pts[prev_on_map(t, pts, k)->0];
        opaque(t, q.0 as int, pts[k].1 as int) && opaque(t, pts[k].0 as int, q.1 as int)
    }
}

/// Point `k` is a vision-blocking cell: the ray sees it and stops there.
pub open spec fn wall_hit(t: &Array2D<TileFlags>, pts: Seq<(i32, i32)>, k: int) -> bool {
    inb(t, pts[k]) && opaque(t, pts[k].0 as int, pts[k].1 as int)
}

/// The ray has not stopped before point `k`.
pub open spec fn reached(t: &Array2D<TileFlags>, pts: Seq<(i32, i32)>, k: int) -> bool {
    forall|j: int| 0 <= j < k ==> !#[trigger] corner_cut(t, pts, j) && !wall_hit(t, pts, j)
}

/// Point `k` is seen by the ray.
pub open spec fn lit(t: &Array2D<TileFlags>, pts: Seq<(i32, i32)>, k: int) -> bool {
    reached(t, pts, k) && inb(t, pts[k]) && !corner_cut(t, pts, k)
}

pub open spec fn signum(v: int) -> int {
    if v > 0 { 1 } else if v < 0 { -1 } else { 0 }
}

/// Seeing point `k` marks cell `c` in view: the point itself, and, when the
/// point is open, its vision-blocking neighbours away from the origin.
pub open spec fn marks(t: &Array2D<TileFlags>, origin: (i32, i32), pts: Seq<(i32, i32)>, k: int, c: (int, int)) -> bool {
    let p = pts[k];
    let sx = signum(p.0 - origin.0);
    let sy = signum(p.1 - origin.1);
    &&& lit(t, pts, k)
    &&& (c == (p.0 as int, p.1 as int) || (!opaque(t, p.0 as int, p.1 as int) && opaque(t, c.0, c.1) && (
            c == (p.0 + sx, p.1 as int) || c == (p.0 as int, p.1 + sy))))
}

/// Some point of the ray marks `c`.
pub open spec fn ray_marks(t: &Array2D<TileFlags>, origin: (i32, i32), pts: Seq<(i32, i32)>, c: (int, int)) -> bool {
    exists|k: int| 0 <= k < pts.len() && #[trigger] marks(t, origin, pts, k, c)
}

/// `b` is `a` with more cells in view: exactly those for which `m` holds.
pub open spec fn viewed(a: &Array2D<TileFlags>, b: &Array2D<TileFlags>, m: spec_fn((int, int)) -> bool) -> bool {
    &&& b.wf()
    &&& b.same_shape(a)
    &&& forall|x: int, y: int| a.in_bounds(x, y) ==> #[trigger] b.at(x, y) == (TileFlags {
        in_view: a.at(x, y).in_view || m((x, y)),
        ..a.at(x, y)
    })
}


proof fn lemma_prev_on_map(t: &Array2D<TileFlags>, pts: Seq<(i32, i32)>, k: int)
    ensures
        prev_on_map(t, pts, k) matches Some(j) ==> 0 <= j < k && inb(t, pts[j]),
    decreases k,
{
    if k > 0 && !inb(t, pts[k - 1]) {
        lemma_prev_on_map(t, pts, k - 1);
    }
}

proof fn lemma_viewed_trans(a: &Array2D<TileFlags>, b: &Array2D<TileFlags>, c: &Array2D<TileFlags>,
    m1: spec_fn((int, int)) -> bool, m2: spec_fn((int, int)) -> bool)
    requires
        viewed(a, b, m1),
        viewed(b, c, m2),
    ensures
        viewed(a, c, |p: (int, int)| m1(p) || m2(p)),
{
    assert forall|x: int, y: int| a.in_bounds(x, y) implies #[trigger] c.at(x, y) == (TileFlags {
        in_view: a.at(x, y).in_view || (|p: (int, int)| m1(p) || m2(p))((x, y)),
        ..a.at(x, y)
    }) by {
        assert(b.at(x, y) == (TileFlags { in_view: a.at(x, y).in_view || m1((x, y)), ..a.at(x, y) }));
        assert(c.at(x, y) == (TileFlags { in_view: b.at(x, y).in_view || m2((x, y)), ..b.at(x, y) }));
    }
}

proof fn lemma_viewed_equiv(a: &Array2D<TileFlags>, b: &Array2D<TileFlags>,
    m1: spec_fn((int, int)) -> bool, m2: spec_fn((int, int)) -> bool)
    requires
        viewed(a, b, m1),
        forall|p: (int, int)| #[trigger] m1(p) == m2(p),
    ensures
        viewed(a, b, m2),
{
    assert forall|x: int, y: int| a.in_bounds(x, y) implies #[trigger] b.at(x, y) == (TileFlags {
        in_view: a.at(x, y).in_view || m2((x, y)),
        ..a.at(x, y)
    }) by {
        assert(m1((x, y)) == m2((x, y)));
    }
}

/// No point at or after `k` is seen once the ray stops at `k` without
/// seeing it, and none after `k` once it stops after seeing it.
proof fn lemma_nothing_after(t: &Array2D<TileFlags>, origin: (i32, i32), pts: Seq<(i32, i32)>, k: int, stop: int, c: (int, int))
    requires
        0 <= k < pts.len(),
        corner_cut(t, pts, k) || wall_hit(t, pts, k),
        stop == (if corner_cut(t, pts, k) { k } else { k + 1 }),
    ensures
        (exists|j: int| 0 <= j < pts.len() && #[trigger] marks(t, origin, pts, j, c))
            == (exists|j: int| 0 <= j < stop && #[trigger] marks(t, origin, pts, j, c)),
{
    if exists|j: int| 0 <= j < pts.len() && #[trigger] marks(t, origin, pts, j, c) {
        let j = choose|j: int| 0 <= j < pts.len() && #[trigger] marks(t, origin, pts, j, c);
        if j > k {
            assert(reached(t, pts, j));
            assert(!corner_cut(t, pts, k) && !wall_hit(t, pts, k));
        }
        if j == k && corner_cut(t, pts, k) {
            assert(!lit(t, pts, k));
        }
        assert(0 <= j < stop);
    }
}

/// `b` is `a` with the cells that the ray along `pts` marks now in view.
pub open spec fn ray_viewed(a: &Array2D<TileFlags>, b: &Array2D<TileFlags>, origin: (i32, i32), pts: Seq<(i32, i32)>) -> bool {
    &&& b.wf()
    &&& b.same_shape(a)
    &&& forall|x: int, y: int| a.in_bounds(x, y) ==> #[trigger] b.at(x, y) == (TileFlags {
        in_view: a.at(x, y).in_view || ray_marks(a, origin, pts, (x, y)),
        ..a.at(x, y)
    })
}

proof fn lemma_ray_viewed(a: &Array2D<TileFlags>, b: &Array2D<TileFlags>, origin: (i32, i32), pts: Seq<(i32, i32)>,
    m: spec_fn((int, int)) -> bool)
    requires
        viewed(a, b, m),
        forall|p: (int, int)| #[trigger] m(p) == ray_marks(a, origin, pts, p),
    ensures
        ray_viewed(a, b, origin, pts),
{
    assert forall|x: int, y: int| a.in_bounds(x, y) implies #[trigger] b.at(x, y) == (TileFlags {
        in_view: a.at(x, y).in_view || ray_marks(a, origin, pts, (x, y)),
        ..a.at(x, y)
    }) by {
        assert(m((x, y)) == ray_marks(a, origin, pts, (x, y)));
    }
}

/// Sets `in_view` on `(x, y)` when `cond` holds.
fn mark_if(t: &mut Array2D<TileFlags>, cond: bool, x: usize, y: usize)
    requires
        old(t).wf(),
        cond ==> old(t).in_bounds(x as int, y as int),
    ensures
        viewed(old(t), final(t), |c: (int, int)| cond && c == (x as int, y as int)),
{
    if !cond {
        return;
    }
    t.elems[x][y].in_view = true;
    proof {
        assert forall|i: int| 0 <= i < t.elems@.len() implies (#[trigger] t.elems@[i])@.len() == t.height by {
            if i != x {
                assert(t.elems@[i] == old(t).elems@[i]);
            }
        }
        assert forall|i: int, j: int| old(t).in_bounds(i, j) implies #[trigger] t.at(i, j) == (TileFlags {
            in_view: old(t).at(i, j).in_view || (cond && (i, j) == (x as int, y as int)),
            ..old(t).at(i, j)
        }) by {
            if i != x {
                assert(t.elems@[i] == old(t).elems@[i]);
            }
        }
    }
}

/// Casts one ray along `pts` from `origin`, marking in view what it sees.
pub fn trace_ray(t: &mut Array2D<TileFlags>, origin: (i32, i32), pts: &Vec<(i32, i32)>)
    requires
        old(t).wf(),
        old(t).width() <= i32::MAX,
        old(t).height <= i32::MAX,
    ensures
        ray_viewed(old(t), final(t), origin, pts@),
{
    let ghost t0 = *old(t);
    let n = pts.len();
    let (w, h) = t.size();
    let mut previous: Option<(i32, i32)> = None;
    let mut k: usize = 0;
    while k < n
        invariant
            t0 == *old(t),
            t0.wf(),
            t0.width() <= i32::MAX,
            t0.height <= i32::MAX,
            w == t0.width(),
            h == t0.height,
            n == pts@.len(),
            0 <= k <= n,
            reached(&t0, pts@, k as int),
            previous == (match prev_on_map(&t0, pts@, k as int) { Some(j) => Some(pts@[j]), None => None }),
            viewed(&t0, t, |c: (int, int)| exists|j: int| 0 <= j < k && #[trigger] marks(&t0, origin, pts@, j, c)),
        decreases n - k,
    {
        let (x, y) = pts[k];
        if x >= 0 && y >= 0 && (x as usize) < w && (y as usize) < h {
            let (xu, yu) = (x as usize, y as usize);
            if let Some((px, py)) = previous {
                proof {
                    let j = prev_on_map(&t0, pts@, k as int)->0;
                    assert(inb(&t0, pts@[j])) by {
                        lemma_prev_on_map(&t0, pts@, k as int);
                    }
                }
                if t.elems[px as usize][yu].blocks_vision && t.elems[xu][py as usize].blocks_vision {
                    proof {
                        let j = prev_on_map(&t0, pts@, k as int)->0;
                        lemma_prev_on_map(&t0, pts@, k as int);
                        assert(t.at(pts@[j].0 as int, y as int).blocks_vision == t0.at(pts@[j].0 as int, y as int).blocks_vision);
                        assert(t.at(x as int, pts@[j].1 as int).blocks_vision == t0.at(x as int, pts@[j].1 as int).blocks_vision);
                        assert(corner_cut(&t0, pts@, k as int));
                        assert forall|c: (int, int)| #[trigger] ray_marks(&t0, origin, pts@, c)
                            == (exists|j: int| 0 <= j < k && #[trigger] marks(&t0, origin, pts@, j, c)) by {
                            lemma_nothing_after(&t0, origin, pts@, k as int, k as int, c);
                        }
                        lemma_ray_viewed(&t0, t, origin, pts@, |c: (int, int)| exists|j: int| 0 <= j < k && #[trigger] marks(&t0, origin, pts@, j, c));
                    }
                    return;
                }
            }
            proof {
                assert(!corner_cut(&t0, pts@, k as int)) by {
                    if previous is Some {
                        let j = prev_on_map(&t0, pts@, k as int)->0;
                        lemma_prev_on_map(&t0, pts@, k as int);
                        assert(t.at(pts@[j].0 as int, y as int).blocks_vision == t0.at(pts@[j].0 as int, y as int).blocks_vision);
                        assert(t.at(x as int, pts@[j].1 as int).blocks_vision == t0.at(x as int, pts@[j].1 as int).blocks_vision);
                    }
                }
                assert(lit(&t0, pts@, k as int));
            }
            previous = Some((x, y));
            let open = !t.elems[xu][yu].blocks_vision;
            proof {
                assert(t.at(x as int, y as int).blocks_vision == t0.at(x as int, y as int).blocks_vision);
            }
            let ghost m0 = |c: (int, int)| exists|j: int| 0 <= j < k && #[trigger] marks(&t0, origin, pts@, j, c);
            let sx: i32 = if x > origin.0 { 1 } else if x < origin.0 { -1 } else { 0 };
            let sy: i32 = if y > origin.1 { 1 } else if y < origin.1 { -1 } else { 0 };
            let nx = x + sx;
            let ny = y + sy;
            proof {
                assert(nx >= 0 && nx < w ==> t.at(nx as int, y as int).blocks_vision == t0.at(nx as int, y as int).blocks_vision);
                assert(ny >= 0 && ny < h ==> t.at(x as int, ny as int).blocks_vision == t0.at(x as int, ny as int).blocks_vision);
            }
            let mx = open && nx >= 0 && (nx as usize) < w && t.elems[nx as usize][yu].blocks_vision;
            let my = open && ny >= 0 && (ny as usize) < h && t.elems[xu][ny as usize].blocks_vision;
            let ghost t1 = *t;
            mark_if(t, true, xu, yu);
            let ghost t2 = *t;
            mark_if(t, mx, if mx { nx as usize } else { 0 }, yu);
            let ghost t3 = *t;
            mark_if(t, my, xu, if my { ny as usize } else { 0 });
            proof {
                let a1 = |c: (int, int)| true && c == (x as int, y as int);
                let a2 = |c: (int, int)| mx && c == ((if mx { nx as usize } else { 0 }) as int, yu as int);
                let a3 = |c: (int, int)| my && c == (xu as int, (if my { ny as usize } else { 0 }) as int);
                lemma_viewed_trans(&t0, &t1, &t2, m0, a1);
                let b1 = |c: (int, int)| m0(c) || a1(c);
                lemma_viewed_trans(&t0, &t2, &t3, b1, a2);
                let b2 = |c: (int, int)| b1(c) || a2(c);
                lemma_viewed_trans(&t0, &t3, t, b2, a3);
                let b3 = |c: (int, int)| b2(c) || a3(c);
                let mk1 = |c: (int, int)| exists|j: int| 0 <= j < k + 1 && #[trigger] marks(&t0, origin, pts@, j, c);
                assert(signum(x - origin.0) == sx);
                assert(signum(y - origin.1) == sy);
                assert(open == !opaque(&t0, x as int, y as int));
                assert forall|c: (int, int)| #[trigger] b3(c) == mk1(c) by {
                    if marks(&t0, origin, pts@, k as int, c) {
                        assert(b3(c));
                    }
                    if b3(c) && !m0(c) {
                        assert(marks(&t0, origin, pts@, k as int, c));
                    }
                    if mk1(c) {
                        let j = choose|j: int| 0 <= j < k + 1 && #[trigger] marks(&t0, origin, pts@, j, c);
                        if j < k {
                            assert(m0(c));
                        }
                    }
                }
                lemma_viewed_equiv(&t0, t, b3, mk1);
            }
            if !open {
                proof {
                    assert(wall_hit(&t0, pts@, k as int));
                    assert forall|c: (int, int)| #[trigger] ray_marks(&t0, origin, pts@, c)
                        == (exists|j: int| 0 <= j < k + 1 && #[trigger] marks(&t0, origin, pts@, j, c)) by {
                        lemma_nothing_after(&t0, origin, pts@, k as int, k + 1, c);
                    }
                    lemma_ray_viewed(&t0, t, origin, pts@, |c: (int, int)| exists|j: int| 0 <= j < k + 1 && #[trigger] marks(&t0, origin, pts@, j, c));
                }
                return;
            }
            k = k + 1;
            continue;
        }
        proof {
            assert(!corner_cut(&t0, pts@, k as int));
            assert(!wall_hit(&t0, pts@, k as int));
            assert forall|j: int| 0 <= j < k + 1 implies !#[trigger] corner_cut(&t0, pts@, j) && !wall_hit(&t0, pts@, j) by {
                if j < k {
                    assert(reached(&t0, pts@, k as int));
                }
            }
            assert(reached(&t0, pts@, k + 1));
            let mk = |c: (int, int)| exists|j: int| 0 <= j < k && #[trigger] marks(&t0, origin, pts@, j, c);
            let mk1 = |c: (int, int)| exists|j: int| 0 <= j < k + 1 && #[trigger] marks(&t0, origin, pts@, j, c);
            assert forall|c: (int, int)| #[trigger] mk(c) == mk1(c) by {
                assert(!marks(&t0, origin, pts@, k as int, c));
            }
            lemma_viewed_equiv(&t0, t, mk, mk1);
        }
        k = k + 1;
    }
    proof {
        lemma_ray_viewed(&t0, t, origin, pts@, |c: (int, int)| exists|j: int| 0 <= j < k && #[trigger] marks(&t0, origin, pts@, j, c));
    }
}


/// Marks every cell in view as explored.
fn mark_explored(t: &mut Array2D<TileFlags>)
    requires
        old(t).wf(),
    ensures
        final(t).wf(),
        final(t).same_shape(old(t)),
        forall|x: int, y: int| old(t).in_bounds(x, y) ==> #[trigger] final(t).at(x, y) == (TileFlags {
            explored: old(t).at(x, y).explored || old(t).at(x, y).in_view,
            ..old(t).at(x, y)
        }),
{
    let ghost t0 = *old(t);
    let (w, h) = t.size();
    let mut x: usize = 0;
    while x < w
        invariant
            t0 == *old(t),
            t0.wf(),
            t.wf(),
            t.same_shape(&t0),
            w == t0.width(),
            h == t0.height,
            0 <= x <= w,
            forall|i: int, j: int| t0.in_bounds(i, j) ==> #[trigger] t.at(i, j) == (TileFlags {
                explored: t0.at(i, j).explored || (i < x && t0.at(i, j).in_view),
                ..t0.at(i, j)
            }),
        decreases w - x,
    {
        let mut y: usize = 0;
        while y < h
            invariant
                t0 == *old(t),
                t0.wf(),
                t.wf(),
                t.same_shape(&t0),
                w == t0.width(),
                h == t0.height,
                0 <= x < w,
                0 <= y <= h,
                forall|i: int, j: int| t0.in_bounds(i, j) ==> #[trigger] t.at(i, j) == (TileFlags {
                    explored: t0.at(i, j).explored || ((i < x || (i == x && j < y)) && t0.at(i, j).in_view),
                    ..t0.at(i, j)
                }),
            decreases h - y,
        {
            proof {
                assert(t.at(x as int, y as int).in_view == t0.at(x as int, y as int).in_view);
            }
            let ghost prev = *t;
            if t.elems[x][y].in_view {
                t.elems[x][y].explored = true;
            }
            proof {
                assert forall|i: int| 0 <= i < t.elems@.len() implies (#[trigger] t.elems@[i])@.len() == t.height by {
                    if i != x {
                        assert(t.elems@[i] == prev.elems@[i]);
                    }
                }
                assert forall|i: int, j: int| t0.in_bounds(i, j) && (i != x || j != y) implies #[trigger] t.at(i, j)
                    == prev.at(i, j) by {
                    if i != x {
                        assert(t.elems@[i] == prev.elems@[i]);
                    }
                }
                assert forall|i: int, j: int| t0.in_bounds(i, j) implies #[trigger] t.at(i, j) == (TileFlags {
                    explored: t0.at(i, j).explored || ((i < x || (i == x && j < y + 1)) && t0.at(i, j).in_view),
                    ..t0.at(i, j)
                }) by {
                    if i != x || j != y {
                        assert(t.at(i, j) == prev.at(i, j));
                    }
                }
            }
            y = y + 1;
        }
        x = x + 1;
    }
}

/// The first alive, positioned player at or after index `i`.
pub open spec fn first_player_from(s: Seq<EntityRecord>, i: int) -> Option<int>
    decreases s.len() - i,
{
    if i < 0 || i >= s.len() {
        None
    } else if s[i].alive && s[i].kind is Player && s[i].position is Some {
        Some(i)
    } else {
        first_player_from(s, i + 1)
    }
}

pub(crate) proof fn lemma_first_player(s: Seq<EntityRecord>, i: int)
    ensures
        first_player_from(s, i) matches Some(p) ==> i <= p < s.len() && s[p].alive && s[p].kind is Player
            && s[p].position is Some,
    decreases s.len() - i,
{
    if 0 <= i < s.len() && !(s[i].alive && s[i].kind is Player && s[i].position is Some) {
        lemma_first_player(s, i + 1);
    }
}

proof fn lemma_circle_bounds(x: int, y: int, r: int, i: int)
    requires
        0 <= r <= 1000,
        0 <= i < fov_circle_spec(x, y, r).len(),
        -COORD_LIMIT + 2000 <= x <= COORD_LIMIT - 2000,
        -COORD_LIMIT + 2000 <= y <= COORD_LIMIT - 2000,
    ensures
        x - r - 1 <= fov_circle_spec(x, y, r)[i].0 <= x + r + 1,
        y - r - 1 <= fov_circle_spec(x, y, r)[i].1 <= y + r + 1,
{
    let main = 8 * (r + 1);
    if i < main {
        assert(0 <= i / 8 <= r);
    } else {
        assert(0 <= (i - main) / 8 <= r / 2);
    }
}

/// A ray that steps diagonally between two vision-blocking cells sees no
/// point from that step on: it cannot look through the corner.
pub proof fn diagonal_corner_stops_ray(t: &Array2D<TileFlags>, pts: Seq<(i32, i32)>, k: int)
    requires
        0 < k < pts.len(),
        inb(t, pts[k - 1]),
        inb(t, pts[k]),
        opaque(t, pts[k - 1].0 as int, pts[k].1 as int),
        opaque(t, pts[k].0 as int, pts[k - 1].1 as int),
    ensures
        forall|m: int| k <= m < pts.len() ==> !#[trigger] lit(t, pts, m),
{
    assert(prev_on_map(t, pts, k) == Some(k - 1));
    assert(corner_cut(t, pts, k));
    assert forall|m: int| k <= m < pts.len() implies !#[trigger] lit(t, pts, m) by {
        if m > k {
            assert(!reached(t, pts, m));
        }
    }
}

/// Ray casting reads nothing but the bounds and `blocks_vision`.
proof fn lemma_same_vision(a: &Array2D<TileFlags>, b: &Array2D<TileFlags>, origin: (i32, i32), pts: Seq<(i32, i32)>, c: (int, int))
    requires
        b.same_shape(a),
        forall|x: int, y: int| a.in_bounds(x, y) ==> #[trigger] b.at(x, y).blocks_vision == a.at(x, y).blocks_vision,
    ensures
        ray_marks(a, origin, pts, c) == ray_marks(b, origin, pts, c),
{
    assert forall|k: int| #![trigger prev_on_map(a, pts, k)] prev_on_map(a, pts, k) == prev_on_map(b, pts, k) by {
        lemma_prev_same(a, b, pts, k);
    }
    assert forall|k: int| #![trigger corner_cut(a, pts, k)] corner_cut(a, pts, k) == corner_cut(b, pts, k) by {
        assert(prev_on_map(a, pts, k) == prev_on_map(b, pts, k));
    }
    assert forall|k: int| #![trigger marks(a, origin, pts, k, c)] marks(a, origin, pts, k, c) == marks(b, origin, pts, k, c) by {
        assert(corner_cut(a, pts, k) == corner_cut(b, pts, k));
        assert(reached(a, pts, k) == reached(b, pts, k)) by {
            assert forall|j: int| #![trigger corner_cut(b, pts, j)] 0 <= j < k implies (corner_cut(a, pts, j) == corner_cut(b, pts, j)
                && wall_hit(a, pts, j) == wall_hit(b, pts, j)) by {
                assert(corner_cut(a, pts, j) == corner_cut(b, pts, j));
            }
        }
    }
    if ray_marks(a, origin, pts, c) {
        let k = choose|k: int| 0 <= k < pts.len() && #[trigger] marks(a, origin, pts, k, c);
        assert(marks(b, origin, pts, k, c));
    }
    if ray_marks(b, origin, pts, c) {
        let k = choose|k: int| 0 <= k < pts.len() && #[trigger] marks(b, origin, pts, k, c);
        assert(marks(a, origin, pts, k, c));
    }
}

proof fn lemma_prev_same(a: &Array2D<TileFlags>, b: &Array2D<TileFlags>, pts: Seq<(i32, i32)>, k: int)
    requires
        b.same_shape(a),
    ensures
        prev_on_map(a, pts, k) == prev_on_map(b, pts, k),
    decreases k,
{
    if k > 0 {
        lemma_prev_same(a, b, pts, k - 1);
    }
}

/// Cell `c` is seen from `origin` along one of the rays to the targets.
pub open spec fn fov_marks(t: &Array2D<TileFlags>, origin: (i32, i32), targets: Seq<(i32, i32)>, c: (int, int)) -> bool {
    exists|i: int| 0 <= i < targets.len() && #[trigger] ray_marks(t, origin, bresenham_line(origin, targets[i]), c)
}

impl Dungeon {
    /// The first alive player that stands on the map.
    pub fn find_player(&self) -> (r: Option<Entity>)
        ensures
            r matches Some(p) ==> first_player_from(self.entities@, 0) == Some(p as int),
            r is None ==> first_player_from(self.entities@, 0) is None,
    {
        let n = self.entities.len();
        let mut i: usize = 0;
        while i < n
            invariant
                n == self.entities@.len(),
                0 <= i <= n,
                first_player_from(self.entities@, 0) == first_player_from(self.entities@, i as int),
            decreases n - i,
        {
            let r = self.entities[i];
            if r.alive && matches!(r.kind, Kind::Player) && r.position.is_some() {
                return Some(i);
            }
            i = i + 1;
        }
        None
    }

    /// What the display shows of `e`: an entity off the map is hidden, a tile
    /// is shown once its cell is explored, anything else while its cell is
    /// in view.
    pub open spec fn spec_visible(&self, e: int) -> bool {
        let r = self.entities@[e];
        match r.position {
            Some(p) => if r.kind.spec_is_tile() {
                self.map.flags(p.x as int, p.y as int).explored
            } else {
                self.map.flags(p.x as int, p.y as int).in_view
            },
            None => false,
        }
    }

    pub fn visible(&self, e: Entity) -> (r: bool)
        requires
            self.wf(),
            self.live(e as int),
        ensures
            r == self.spec_visible(e as int),
    {
        let rec = self.entities[e];
        match rec.position {
            Some(p) => {
                let f = self.map.tiles.elems[p.x as usize][p.y as usize];
                if rec.kind.is_tile() { f.explored } else { f.in_view }
            },
            None => false,
        }
    }

    /// Recomputes what the player sees: the cells marked by rays cast to the
    /// points of the view circle come into view, and every cell in view is
    /// explored. Without a player on the map nothing changes.
    pub fn player_fov(&mut self)
        requires
            old(self).wf(),
        ensures
            final(self).wf(),
            final(self).entities == old(self).entities,
            final(self).order == old(self).order,
            final(self).current == old(self).current,
            final(self).data == old(self).data,
            final(self).logs == old(self).logs,
            final(self).state == old(self).state,
            final(self).map.entities == old(self).map.entities,
            final(self).map.stairs == old(self).map.stairs,
            final(self).map.tiles.same_shape(&old(self).map.tiles),
            ({
                let o = old(self);
                let fp = first_player_from(o.entities@, 0);
                match fp {
                    Some(p) => {
                        let pos = o.entities@[p].position->0;
                        let origin = (pos.x, pos.y);
                        let targets = fov_circle_spec(pos.x as int, pos.y as int, FOV_RADIUS as int);
                        &&& final(self).map.flags(pos.x as int, pos.y as int).in_view
                        &&& forall|x: int, y: int| o.map.in_bounds(x, y) ==> {
                            let seen = o.map.flags(x, y).in_view || fov_marks(&o.map.tiles, origin, targets, (x, y));
                            #[trigger] final(self).map.flags(x, y) == (TileFlags {
                                in_view: seen,
                                explored: o.map.flags(x, y).explored || seen,
                                ..o.map.flags(x, y)
                            })
                        }
                    },
                    None => *final(self) == *o,
                }
            }),
    {
        let p = match self.find_player() {
            Some(p) => p,
            None => return,
        };
        let ghost o = *old(self);
        proof {
            lemma_first_player(self.entities@, 0);
        }
        let pos = match self.entities[p].position {
            Some(pos) => pos,
            None => return,
        };
        proof {
            lemma_first_player(o.entities@, 0);
            assert(o.live(p as int));
        }
        proof {
            assert(o.entities@[p as int].position == Some(pos));
            assert(o.map.in_bounds(pos.x as int, pos.y as int));
        }
        let origin = (pos.x, pos.y);
        let targets = fov_circle(pos.x, pos.y, FOV_RADIUS);
        let ghost t0 = self.map.tiles;
        let mut i: usize = 0;
        while i < targets.len()
            invariant
                o.wf(),
                t0 == o.map.tiles,
                self.entities == o.entities,
                self.order == o.order,
                self.current == o.current,
                self.data == o.data,
                self.logs == o.logs,
                self.state == o.state,
                self.map.entities == o.map.entities,
                self.map.stairs == o.map.stairs,
                targets@ == fov_circle_spec(pos.x as int, pos.y as int, FOV_RADIUS as int),
                origin == (pos.x, pos.y),
                0 <= pos.x < MAP_LIMIT,
                0 <= pos.y < MAP_LIMIT,
                0 <= i <= targets@.len(),
                self.map.tiles.wf(),
                self.map.tiles.same_shape(&t0),
                forall|x: int, y: int| t0.in_bounds(x, y) ==> #[trigger] self.map.tiles.at(x, y) == (TileFlags {
                    in_view: t0.at(x, y).in_view || exists|j: int| 0 <= j < i
                        && #[trigger] ray_marks(&t0, origin, bresenham_line(origin, targets@[j]), (x, y)),
                    ..t0.at(x, y)
                }),
                t0.in_bounds(pos.x as int, pos.y as int),
                i > 0 ==> ray_marks(&t0, origin, bresenham_line(origin, targets@[0]), (pos.x as int, pos.y as int)),
            decreases targets@.len() - i,
        {
            let target = targets[i];
            proof {
                lemma_circle_bounds(pos.x as int, pos.y as int, FOV_RADIUS as int, i as int);
            }
            let pts = line(origin, target);
            let ghost before = self.map.tiles;
            trace_ray(&mut self.map.tiles, origin, &pts);
            proof {
                if i == 0 {
                    let c = (pos.x as int, pos.y as int);
                    assert(pts@[0] == origin);
                    assert(prev_on_map(&t0, pts@, 0) is None);
                    assert(!corner_cut(&t0, pts@, 0));
                    assert(lit(&t0, pts@, 0));
                    assert(marks(&t0, origin, pts@, 0, c));
                }
                let after = self.map.tiles;
                assert forall|x: int, y: int| t0.in_bounds(x, y) implies #[trigger] after.at(x, y) == (TileFlags {
                    in_view: t0.at(x, y).in_view || exists|j: int| 0 <= j < i + 1
                        && #[trigger] ray_marks(&t0, origin, bresenham_line(origin, targets@[j]), (x, y)),
                    ..t0.at(x, y)
                }) by {
                    assert(before.at(x, y) == (TileFlags {
                        in_view: t0.at(x, y).in_view || exists|j: int| 0 <= j < i
                            && #[trigger] ray_marks(&t0, origin, bresenham_line(origin, targets@[j]), (x, y)),
                        ..t0.at(x, y)
                    }));
                    assert forall|a: int, b: int| t0.in_bounds(a, b) implies #[trigger] before.at(a, b).blocks_vision
                        == t0.at(a, b).blocks_vision by {
                        assert(before.at(a, b).blocks_vision == t0.at(a, b).blocks_vision);
                    }
                    lemma_same_vision(&t0, &before, origin, pts@, (x, y));
                    if ray_marks(&before, origin, pts@, (x, y)) {
                        assert(ray_marks(&t0, origin, bresenham_line(origin, targets@[i as int]), (x, y)));
                    }
                    if exists|j: int| 0 <= j < i + 1 && #[trigger] ray_marks(&t0, origin, bresenham_line(origin, targets@[j]), (x, y)) {
                        let j = choose|j: int| 0 <= j < i + 1 && #[trigger] ray_marks(&t0, origin, bresenham_line(origin, targets@[j]), (x, y));
                        if j == i {
                            assert(ray_marks(&before, origin, pts@, (x, y)));
                        }
                    }
                }
            }
            i = i + 1;
        }
        let ghost seen_tiles = self.map.tiles;
        mark_explored(&mut self.map.tiles);
        proof {
            let f = &*self;
            assert forall|x: int, y: int| o.map.in_bounds(x, y) implies {
                let seen = o.map.flags(x, y).in_view || fov_marks(&o.map.tiles, origin,
                    fov_circle_spec(pos.x as int, pos.y as int, FOV_RADIUS as int), (x, y));
                #[trigger] f.map.flags(x, y) == (TileFlags {
                    in_view: seen,
                    explored: o.map.flags(x, y).explored || seen,
                    ..o.map.flags(x, y)
                })
            } by {
                assert(seen_tiles.at(x, y) == (TileFlags {
                    in_view: t0.at(x, y).in_view || exists|j: int| 0 <= j < targets@.len()
                        && #[trigger] ray_marks(&t0, origin, bresenham_line(origin, targets@[j]), (x, y)),
                    ..t0.at(x, y)
                }));
            }
            Self::lemma_same_layout(&o, f);
        }
    }
}


impl WorldMap {
    /// Whether `end` is visible from `start`: no cell of the line between
    /// them on the map blocks vision, `end` included, and the line cuts no
    /// corner between two vision-blocking cells.
    pub fn line_of_sight(&self, start: GridPosition, end: GridPosition) -> (r: bool)
        requires
            self.wf(),
            -COORD_LIMIT <= start.x <= COORD_LIMIT,
            -COORD_LIMIT <= start.y <= COORD_LIMIT,
            -COORD_LIMIT <= end.x <= COORD_LIMIT,
            -COORD_LIMIT <= end.y <= COORD_LIMIT,
        ensures
            r == reached(&self.tiles, bresenham_line((start.x, start.y), (end.x, end.y)),
                bresenham_line((start.x, start.y), (end.x, end.y)).len() as int),
    {
        let pts = line((start.x, start.y), (end.x, end.y));
        let t = &self.tiles;
        let n = pts.len();
        let (w, h) = t.size();
        let mut previous: Option<(i32, i32)> = None;
        let mut k: usize = 0;
        while k < n
            invariant
                t == &self.tiles,
                pts@ == bresenham_line((start.x, start.y), (end.x, end.y)),
                t.wf(),
                w == t.width(),
                h == t.height,
                n == pts@.len(),
                0 <= k <= n,
                reached(t, pts@, k as int),
                previous == (match prev_on_map(t, pts@, k as int) { Some(j) => Some(pts@[j]), None => None }),
            decreases n - k,
        {
            let (x, y) = pts[k];
            if x >= 0 && y >= 0 && (x as usize) < w && (y as usize) < h {
                if let Some((px, py)) = previous {
                    proof {
                        lemma_prev_on_map(t, pts@, k as int);
                    }
                    if t.elems[px as usize][y as usize].blocks_vision && t.elems[x as usize][py as usize].blocks_vision {
                        proof {
                            assert(corner_cut(t, pts@, k as int));
                            assert(!reached(t, pts@, n as int));
                        }
                        return false;
                    }
                }
                proof {
                    if previous is Some {
                        lemma_prev_on_map(t, pts@, k as int);
                    }
                    assert(!corner_cut(t, pts@, k as int));
                }
                previous = Some((x, y));
                if t.elems[x as usize][y as usize].blocks_vision {
                    proof {
                        assert(wall_hit(t, pts@, k as int));
                        assert(!reached(t, pts@, n as int));
                    }
                    return false;
                }
            }
            proof {
                assert(!corner_cut(t, pts@, k as int));
                assert(!wall_hit(t, pts@, k as int));
                assert forall|j: int| 0 <= j < k + 1 implies !#[trigger] corner_cut(t, pts@, j) && !wall_hit(t, pts@, j) by {
                    if j < k {
                        assert(reached(t, pts@, k as int));
                    }
                }
                assert(reached(t, pts@, k + 1));
            }
            k = k + 1;
        }
        true
    }
}

} // verus!
