//! A* routing over the map's four-directional movement graph.
use vstd::prelude::*;
use crate::grid::{Array2D, GridPosition};
use crate::world_map::{TileFlags, WorldMap};

verus! {

/// Largest `r` with `r * r <= n`.
pub open spec fn is_isqrt(n: int, r: int) -> bool {
    0 <= r && r * r <= n < (r + 1) * (r + 1)
}

/// Integer square root, rounded down.
pub fn isqrt(n: u128) -> (r: u64)
    requires
        n < 0x4_0000_0000_0000_0000u128,
    ensures
        is_isqrt(n as int, r as int),
{
    let mut lo: u128 = 0;
    let mut hi: u128 = 0x2_0000_0000u128;
    assert(hi * hi == 0x4_0000_0000_0000_0000u128) by (nonlinear_arith)
        requires hi == 0x2_0000_0000u128;
    while hi - lo > 1
        invariant
            lo < hi <= 0x2_0000_0000u128,
            lo * lo <= n,
            n < hi * hi,
        decreases hi - lo,
    {
        let mid = lo + (hi - lo) / 2;
        assert(mid * mid <= 0x4_0000_0000_0000_0000u128) by (nonlinear_arith)
            requires mid <= 0x2_0000_0000u128;
        if mid * mid <= n {
            lo = mid;
        } else {
            hi = mid;
        }
    }
    assert(hi == lo + 1);
    lo as u64
}

/// The heuristic distance from `p` to `end`: the Euclidean distance rounded down.
pub fn heuristic(p: (i32, i32), end: (i32, i32)) -> (r: u64)
    ensures
        is_isqrt((end.0 - p.0) * (end.0 - p.0) + (end.1 - p.1) * (end.1 - p.1), r as int),
{
    let dx: i64 = end.0 as i64 - p.0 as i64;
    let dy: i64 = end.1 as i64 - p.1 as i64;
    let ax: u128 = if dx < 0 { (-dx) as u128 } else { dx as u128 };
    let ay: u128 = if dy < 0 { (-dy) as u128 } else { dy as u128 };
    assert(ax * ax <= 0x1_0000_0000_0000_0000u128) by (nonlinear_arith)
        requires ax <= 0x1_0000_0000u128;
    assert(ay * ay <= 0x1_0000_0000_0000_0000u128) by (nonlinear_arith)
        requires ay <= 0x1_0000_0000u128;
    let n = ax * ax + ay * ay;
    assert(n == dx * dx + dy * dy) by (nonlinear_arith)
        requires n == ax * ax + ay * ay, ax == dx || ax == -dx, ay == dy || ay == -dy;
    isqrt(n)
}


/// Cost of entering a cell: 0 where no edge leads (impassable terrain), 5
/// where something blocks movement, 1 otherwise.
pub open spec fn step_cost(f: TileFlags) -> int {
    if f.blocks_pathfinding { 0 } else if f.blocks_movement { 5 } else { 1 }
}

/// The movement graph as a grid of entry costs.
pub open spec fn cost_grid(t: &Array2D<TileFlags>) -> Seq<Seq<int>> {
    Seq::new(t.width() as nat, |x: int| Seq::new(t.height as nat, |y: int| step_cost(t.at(x, y))))
}

/// The four directions, in the order successors are listed.
pub open spec fn dir(k: int) -> (int, int) {
    if k == 0 { (0, 1) } else if k == 1 { (1, 0) } else if k == 2 { (-1, 0) } else { (0, -1) }
}

/// The successors of `p` in the first `k` directions, with their costs.
pub open spec fn successors_upto(t: &Array2D<TileFlags>, p: (i32, i32), k: int) -> Seq<((i32, i32), u64)>
    decreases k,
{
    if k <= 0 {
        Seq::empty()
    } else {
        let s = successors_upto(t, p, k - 1);
        let q = (p.0 + dir(k - 1).0, p.1 + dir(k - 1).1);
        if t.in_bounds(q.0, q.1) && !t.at(q.0, q.1).blocks_pathfinding {
            s.push(((q.0 as i32, q.1 as i32), step_cost(t.at(q.0, q.1)) as u64))
        } else {
            s
        }
    }
}

/// The neighbours of `p` that a path may enter, with the cost of entering them.
pub fn successors(t: &Array2D<TileFlags>, p: (i32, i32)) -> (r: Vec<((i32, i32), u64)>)
    requires
        t.wf(),
        t.width() <= i32::MAX,
        t.height <= i32::MAX,
    ensures
        r@ == successors_upto(t, p, 4),
{
    let mut r: Vec<((i32, i32), u64)> = Vec::new();
    let (w, h) = t.size();
    let mut k: usize = 0;
    while k < 4
        invariant
            t.wf(),
            t.width() <= i32::MAX,
            t.height <= i32::MAX,
            w == t.width(),
            h == t.height,
            0 <= k <= 4,
            r@ == successors_upto(t, p, k as int),
        decreases 4 - k,
    {
        let (dx, dy): (i64, i64) = if k == 0 { (0, 1) } else if k == 1 { (1, 0) } else if k == 2 { (-1, 0) } else { (0, -1) };
        let qx: i64 = p.0 as i64 + dx;
        let qy: i64 = p.1 as i64 + dy;
        if qx >= 0 && qy >= 0 && (qx as u64) < (w as u64) && (qy as u64) < (h as u64) {
            let f = t.elems[qx as usize][qy as usize];
            if !f.blocks_pathfinding {
                let c: u64 = if f.blocks_movement { 5 } else { 1 };
                r.push(((qx as i32, qy as i32), c));
            }
        }
        k = k + 1;
    }
    r
}

/// Whether the search has arrived.
pub fn is_goal(p: (i32, i32), end: (i32, i32)) -> (r: bool)
    ensures
        r == (p == end),
{
    p.0 == end.0 && p.1 == end.1
}

/// What A* returns on the movement graph `costs` from `start` to `end`:
/// a path and its total cost, or nothing.
pub uninterp spec fn astar_route(costs: Seq<Seq<int>>, start: (i32, i32), end: (i32, i32)) -> Option<(Seq<(i32, i32)>, int)>;

/// `q` is a successor of `p`: an adjacent cell that is not impassable.
pub open spec fn is_step(t: &Array2D<TileFlags>, p: (i32, i32), q: (i32, i32)) -> bool {
    &&& (q.0 - p.0 == 0 && (q.1 - p.1 == 1 || q.1 - p.1 == -1)) || (q.1 - p.1 == 0 && (q.0 - p.0 == 1 || q.0 - p.0 == -1))
    &&& t.in_bounds(q.0 as int, q.1 as int)
    &&& !t.at(q.0 as int, q.1 as int).blocks_pathfinding
}

/// Total cost of entering each cell of `path` after the first.
pub open spec fn route_cost(t: &Array2D<TileFlags>, path: Seq<(i32, i32)>) -> int
    decreases path.len(),
{
    if path.len() <= 1 {
        0
    } else {
        route_cost(t, path.drop_last()) + step_cost(t.at(path.last().0 as int, path.last().1 as int))
    }
}

/// `path` walks from `start` to `end` along successor steps, at total cost `cost`.
pub open spec fn is_route(t: &Array2D<TileFlags>, start: (i32, i32), end: (i32, i32), path: Seq<(i32, i32)>, cost: int) -> bool {
    &&& path.len() >= 1
    &&& path[0] == start
    &&& path.last() == end
    &&& forall|i: int| 0 <= i < path.len() - 1 ==> is_step(t, #[trigger] path[i], path[i + 1])
    &&& cost == route_cost(t, path)
}

/// Relies on `pathfinding::directed::astar::astar` (deterministic: its
/// tables use a fixed hasher): the result depends on the graph, the start and
/// the goal alone. Per its documentation a path found starts at `start`, ends
/// at a node where the goal test holds, and comes with its total cost; its
/// steps are successor edges; it is a shortest one, as the heuristic never
/// overestimates (every step costs at least 1, and the rounded-down
/// Euclidean distance is at most the number of steps); and `None` means that
/// no path exists.
#[verifier::external_body]
fn astar_search(t: &Array2D<TileFlags>, start: (i32, i32), end: (i32, i32)) -> (r: Option<(Vec<(i32, i32)>, u64)>)
    requires
        t.wf(),
        t.width() <= i32::MAX,
        t.height <= i32::MAX,
    ensures
        match r {
            Some((path, cost)) => astar_route(cost_grid(t), start, end) == Some((path@, cost as int))
                && is_route(t, start, end, path@, cost as int),
            None => astar_route(cost_grid(t), start, end) is None,
        },
        r matches Some((path, cost)) ==> forall|p: Seq<(i32, i32)>| #[trigger] is_route(t, start, end, p, route_cost(t, p))
            ==> cost <= route_cost(t, p),
        r is None ==> forall|p: Seq<(i32, i32)>| !#[trigger] is_route(t, start, end, p, route_cost(t, p)),
{
    pathfinding::directed::astar::astar(&start, |&p| successors(t, p), |&p| heuristic(p, end), |&p| is_goal(p, end))
}

/// The route that `pathfind` returns, in grid positions.
pub open spec fn spec_pathfind(m: &WorldMap, start: GridPosition, end: GridPosition) -> Option<(Seq<GridPosition>, int)> {
    match astar_route(cost_grid(&m.tiles), (start.x, start.y), (end.x, end.y)) {
        Some((path, cost)) => Some((path.map_values(|p: (i32, i32)| GridPosition { x: p.0, y: p.1 }), cost)),
        None => None,
    }
}

impl WorldMap {
    /// The A* route from `start` to `end`, if any, with its cost.
    pub fn pathfind(&self, start: GridPosition, end: GridPosition) -> (r: Option<(Vec<GridPosition>, u64)>)
        requires
            self.wf(),
        ensures
            match r {
                Some((path, cost)) => spec_pathfind(self, start, end) == Some((path@, cost as int))
                    && is_route(&self.tiles, (start.x, start.y), (end.x, end.y),
                        path@.map_values(|p: GridPosition| (p.x, p.y)), cost as int),
                None => spec_pathfind(self, start, end) is None,
            },
            r matches Some((path, cost)) ==> forall|p: Seq<(i32, i32)>| #[trigger] is_route(&self.tiles, (start.x, start.y), (end.x, end.y), p,
                route_cost(&self.tiles, p)) ==> cost <= route_cost(&self.tiles, p),
            r is None ==> forall|p: Seq<(i32, i32)>| !#[trigger] is_route(&self.tiles, (start.x, start.y), (end.x, end.y), p,
                route_cost(&self.tiles, p)),
    {
        match astar_search(&self.tiles, (start.x, start.y), (end.x, end.y)) {
            Some((path, cost)) => {
                let mut out: Vec<GridPosition> = Vec::new();
                let mut i: usize = 0;
                while i < path.len()
                    invariant
                        0 <= i <= path@.len(),
                        out@.len() == i,
                        forall|k: int| 0 <= k < i ==> #[trigger] out@[k] == (GridPosition { x: path@[k].0, y: path@[k].1 }),
                    decreases path@.len() - i,
                {
                    out.push(GridPosition { x: path[i].0, y: path[i].1 });
                    i = i + 1;
                }
                proof {
                    assert(out@ =~= path@.map_values(|p: (i32, i32)| GridPosition { x: p.0, y: p.1 }));
                    assert(out@.map_values(|p: GridPosition| (p.x, p.y)) =~= path@);
                }
                Some((out, cost))
            },
            None => None,
        }
    }
}

} // verus!
