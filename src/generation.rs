//! Cave generation: random seeding, cellular-automata smoothing, flood
//! fills that keep the largest cave and split it into zones.
use vstd::prelude::*;
use crate::grid::Array2D;
use std::collections::VecDeque;

verus! {

/// Side of the generation grid, border included.
pub const MAP_SIZE: i32 = 40;

/// Chance, in percent, that a cell starts alive.
pub const ALIVE_SPAWN_PERCENT: u32 = 45;

/// Number of smoothing steps.
pub const ITERATIONS: u32 = 2;

/// Steps a zone reaches from its seed cell.
pub const ZONE_RADIUS: u32 = 10;

/// Fewest zones a floor is accepted with.
pub const MIN_ZONES: usize = 5;

/// A generation cell: dead rock, or part of the cave with a label (0 before
/// labelling, the component or zone number after).
#[derive(Clone, Copy, Debug, PartialEq, Eq, Structural)]
pub enum TileType {
    Alive(usize),
    Dead,
}

/// `(x, y)` lies on the two-cell border that always stays dead.
pub open spec fn on_border(x: int, y: int) -> bool {
    x < 2 || y < 2 || x >= MAP_SIZE - 2 || y >= MAP_SIZE - 2
}

/// A generation grid: `MAP_SIZE` by `MAP_SIZE`, dead on its border.
pub open spec fn cave_wf(m: &Array2D<TileType>) -> bool {
    &&& m.wf()
    &&& m.width() == MAP_SIZE
    &&& m.height == MAP_SIZE
    &&& forall|x: int, y: int| m.in_bounds(x, y) && on_border(x, y) ==> #[trigger] m.at(x, y) == TileType::Dead
}

pub open spec fn count_col(c: Seq<TileType>, v: TileType) -> nat
    decreases c.len(),
{
    if c.len() == 0 { 0 } else { count_col(c.drop_last(), v) + (if c.last() == v { 1nat } else { 0nat }) }
}

pub open spec fn count_grid(g: Seq<Vec<TileType>>, v: TileType) -> nat
    decreases g.len(),
{
    if g.len() == 0 { 0 } else { count_grid(g.drop_last(), v) + count_col(g.last()@, v) }
}

/// Number of cells of `m` holding `v`.
pub open spec fn count_cells(m: &Array2D<TileType>, v: TileType) -> nat {
    count_grid(m.elems@, v)
}

proof fn lemma_count_col_update(c: Seq<TileType>, i: int, w: TileType, v: TileType)
    requires
        0 <= i < c.len(),
    ensures
        count_col(c.update(i, w), v) + (if c[i] == v { 1int } else { 0int })
            == count_col(c, v) + (if w == v { 1int } else { 0int }),
    decreases c.len(),
{
    let d = c.update(i, w);
    if i == c.len() - 1 {
        assert(d.drop_last() =~= c.drop_last());
    } else {
        assert(d.drop_last() =~= c.drop_last().update(i, w));
        lemma_count_col_update(c.drop_last(), i, w, v);
    }
}

proof fn lemma_count_grid_update(g: Seq<Vec<TileType>>, x: int, col: Vec<TileType>, v: TileType)
    requires
        0 <= x < g.len(),
    ensures
        count_grid(g.update(x, col), v) + count_col(g[x]@, v) == count_grid(g, v) + count_col(col@, v),
    decreases g.len(),
{
    let h = g.update(x, col);
    if x == g.len() - 1 {
        assert(h.drop_last() =~= g.drop_last());
    } else {
        assert(h.drop_last() =~= g.drop_last().update(x, col));
        lemma_count_grid_update(g.drop_last(), x, col, v);
    }
}

proof fn lemma_count_col_bound(c: Seq<TileType>, v: TileType)
    ensures
        count_col(c, v) <= c.len(),
    decreases c.len(),
{
    if c.len() > 0 {
        lemma_count_col_bound(c.drop_last(), v);
    }
}

proof fn lemma_count_grid_bound(g: Seq<Vec<TileType>>, v: TileType, h: int)
    requires
        forall|i: int| 0 <= i < g.len() ==> (#[trigger] g[i])@.len() == h,
    ensures
        count_grid(g, v) <= g.len() * h,
    decreases g.len(),
{
    if g.len() > 0 {
        lemma_count_grid_bound(g.drop_last(), v, h);
        lemma_count_col_bound(g.last()@, v);
        assert(count_grid(g, v) <= (g.len() - 1) * h + h);
        assert((g.len() - 1) * h + h == g.len() * h) by (nonlinear_arith);
    }
}

/// Writing `w` at `(x, y)` moves one cell from the count of what was there
/// to the count of `w`.
proof fn lemma_count_set(a: &Array2D<TileType>, b: &Array2D<TileType>, x: int, y: int, w: TileType, v: TileType)
    requires
        a.wf(),
        a.in_bounds(x, y),
        b.elems@ == a.elems@.update(x, b.elems@[x]),
        b.elems@[x]@ == a.elems@[x]@.update(y, w),
    ensures
        count_cells(b, v) + (if a.at(x, y) == v { 1int } else { 0int })
            == count_cells(a, v) + (if w == v { 1int } else { 0int }),
{
    lemma_count_grid_update(a.elems@, x, b.elems@[x], v);
    lemma_count_col_update(a.elems@[x]@, y, w, v);
}

/// The cell a roll in `0..100`-percent terms seeds.
pub open spec fn spec_cell_from_roll(roll: u32) -> TileType {
    if roll % 100 < ALIVE_SPAWN_PERCENT { TileType::Alive(0) } else { TileType::Dead }
}

pub fn cell_from_roll(roll: u32) -> (r: TileType)
    ensures
        r == spec_cell_from_roll(roll),
{
    if roll % 100 < ALIVE_SPAWN_PERCENT { TileType::Alive(0) } else { TileType::Dead }
}

/// Relies on `rand::random`: a value drawn from the thread-local generator.
/// Nothing is promised of it.
pub assume_specification<T>[ rand::random::<T> ]() -> (r: T)
    where
        rand::distributions::Standard: rand::distributions::Distribution<T>,
;

/// A grid seeded at random: border dead, each inner cell alive (label 0)
/// with the spawn chance.
pub fn get_random_map() -> (m: Array2D<TileType>)
    ensures
        cave_wf(&m),
        forall|x: int, y: int| m.in_bounds(x, y) ==> (#[trigger] m.at(x, y) == TileType::Alive(0) || m.at(x, y) == TileType::Dead),
{
    let mut m = Array2D::with_elem(MAP_SIZE, MAP_SIZE, TileType::Dead);
    let mut x: usize = 2;
    while x < (MAP_SIZE - 2) as usize
        invariant
            m.wf(),
            m.width() == MAP_SIZE,
            m.height == MAP_SIZE,
            2 <= x <= MAP_SIZE - 2,
            forall|i: int, j: int| m.in_bounds(i, j) && on_border(i, j) ==> #[trigger] m.at(i, j) == TileType::Dead,
            forall|i: int, j: int| m.in_bounds(i, j) ==> (#[trigger] m.at(i, j) == TileType::Alive(0) || m.at(i, j) == TileType::Dead),
        decreases MAP_SIZE - x,
    {
        let mut y: usize = 2;
        while y < (MAP_SIZE - 2) as usize
            invariant
                m.wf(),
                m.width() == MAP_SIZE,
                m.height == MAP_SIZE,
                2 <= x < MAP_SIZE - 2,
                2 <= y <= MAP_SIZE - 2,
                forall|i: int, j: int| m.in_bounds(i, j) && on_border(i, j) ==> #[trigger] m.at(i, j) == TileType::Dead,
                forall|i: int, j: int| m.in_bounds(i, j) ==> (#[trigger] m.at(i, j) == TileType::Alive(0) || m.at(i, j) == TileType::Dead),
            decreases MAP_SIZE - y,
        {
            let roll: u32 = rand::random::<u32>();
            let ghost prev = m;
            m.elems[x][y] = cell_from_roll(roll);
            proof {
                assert forall|i: int| 0 <= i < m.elems@.len() implies (#[trigger] m.elems@[i])@.len() == m.height by {
                    if i != x {
                        assert(m.elems@[i] == prev.elems@[i]);
                    }
                }
                assert forall|i: int, j: int| m.in_bounds(i, j) && (i != x || j != y) implies #[trigger] m.at(i, j) == prev.at(i, j) by {
                    if i != x {
                        assert(m.elems@[i] == prev.elems@[i]);
                    }
                }
            }
            y = y + 1;
        }
        x = x + 1;
    }
    m
}


/// The grid as nested sequences.
pub open spec fn grid_view(m: &Array2D<TileType>) -> Seq<Seq<TileType>> {
    Seq::new(m.elems@.len(), |x: int| m.elems@[x]@)
}

pub open spec fn alive_at(g: Seq<Seq<TileType>>, x: int, y: int) -> int {
    if g[x][y] is Alive { 1 } else { 0 }
}

/// Number of alive cells among the eight around `(x, y)`.
pub open spec fn live_neighbours(g: Seq<Seq<TileType>>, x: int, y: int) -> int {
    alive_at(g, x - 1, y - 1) + alive_at(g, x - 1, y) + alive_at(g, x - 1, y + 1)
        + alive_at(g, x, y - 1) + alive_at(g, x, y + 1)
        + alive_at(g, x + 1, y - 1) + alive_at(g, x + 1, y) + alive_at(g, x + 1, y + 1)
}

/// One smoothing step at `(x, y)`: a dead cell with more than four live
/// neighbours comes alive, a live cell with fewer than three dies; the border
/// stays dead.
pub open spec fn ca_rule(g: Seq<Seq<TileType>>, x: int, y: int) -> TileType {
    if on_border(x, y) {
        TileType::Dead
    } else if g[x][y] == TileType::Dead {
        if live_neighbours(g, x, y) > 4 { TileType::Alive(0) } else { TileType::Dead }
    } else {
        if live_neighbours(g, x, y) < 3 { TileType::Dead } else { TileType::Alive(0) }
    }
}

pub open spec fn ca_step_spec(g: Seq<Seq<TileType>>) -> Seq<Seq<TileType>> {
    Seq::new(MAP_SIZE as nat, |x: int| Seq::new(MAP_SIZE as nat, |y: int| ca_rule(g, x, y)))
}

/// `n` smoothing steps.
pub open spec fn ca_iterate(g: Seq<Seq<TileType>>, n: nat) -> Seq<Seq<TileType>>
    decreases n,
{
    if n == 0 { g } else { ca_step_spec(ca_iterate(g, (n - 1) as nat)) }
}

fn alive_u32(t: TileType) -> (r: u32)
    ensures
        r == (if t is Alive { 1u32 } else { 0u32 }),
{
    match t {
        TileType::Alive(_) => 1,
        TileType::Dead => 0,
    }
}

/// One smoothing step of the whole grid.
pub fn ca_step(m: &Array2D<TileType>) -> (r: Array2D<TileType>)
    requires
        cave_wf(m),
    ensures
        cave_wf(&r),
        grid_view(&r) == ca_step_spec(grid_view(m)),
        forall|x: int, y: int| r.in_bounds(x, y) ==> (#[trigger] r.at(x, y) == TileType::Alive(0) || r.at(x, y) == TileType::Dead),
{
    let ghost g = grid_view(m);
    let mut r = Array2D::with_elem(MAP_SIZE, MAP_SIZE, TileType::Dead);
    let mut x: usize = 2;
    while x < (MAP_SIZE - 2) as usize
        invariant
            cave_wf(m),
            g == grid_view(m),
            r.wf(),
            r.width() == MAP_SIZE,
            r.height == MAP_SIZE,
            2 <= x <= MAP_SIZE - 2,
            forall|i: int, j: int| r.in_bounds(i, j) ==> #[trigger] r.at(i, j) == (if i < x { ca_rule(g, i, j) } else { TileType::Dead }),
        decreases MAP_SIZE - x,
    {
        let mut y: usize = 2;
        while y < (MAP_SIZE - 2) as usize
            invariant
                cave_wf(m),
                g == grid_view(m),
                r.wf(),
                r.width() == MAP_SIZE,
                r.height == MAP_SIZE,
                2 <= x < MAP_SIZE - 2,
                2 <= y <= MAP_SIZE - 2,
                forall|i: int, j: int| r.in_bounds(i, j) ==> #[trigger] r.at(i, j)
                    == (if i < x || (i == x && j < y) { ca_rule(g, i, j) } else { TileType::Dead }),
            decreases MAP_SIZE - y,
        {
            let n: u32 = alive_u32(m.elems[x - 1][y - 1]) + alive_u32(m.elems[x - 1][y]) + alive_u32(m.elems[x - 1][y + 1])
                + alive_u32(m.elems[x][y - 1]) + alive_u32(m.elems[x][y + 1])
                + alive_u32(m.elems[x + 1][y - 1]) + alive_u32(m.elems[x + 1][y]) + alive_u32(m.elems[x + 1][y + 1]);
            let next = match m.elems[x][y] {
                TileType::Dead => if n > 4 { TileType::Alive(0) } else { TileType::Dead },
                TileType::Alive(_) => if n < 3 { TileType::Dead } else { TileType::Alive(0) },
            };
            proof {
                assert(n == live_neighbours(g, x as int, y as int));
                assert(next == ca_rule(g, x as int, y as int));
            }
            let ghost prev = r;
            r.elems[x][y] = next;
            proof {
                assert forall|i: int| 0 <= i < r.elems@.len() implies (#[trigger] r.elems@[i])@.len() == r.height by {
                    if i != x {
                        assert(r.elems@[i] == prev.elems@[i]);
                    }
                }
                assert forall|i: int, j: int| r.in_bounds(i, j) && (i != x || j != y) implies #[trigger] r.at(i, j) == prev.at(i, j) by {
                    if i != x {
                        assert(r.elems@[i] == prev.elems@[i]);
                    }
                }
            }
            y = y + 1;
        }
        x = x + 1;
    }
    proof {
        assert(grid_view(&r) =~= ca_step_spec(g)) by {
            assert forall|i: int| 0 <= i < MAP_SIZE implies #[trigger] grid_view(&r)[i] =~= ca_step_spec(g)[i] by {
                assert forall|j: int| 0 <= j < MAP_SIZE implies grid_view(&r)[i][j] == ca_step_spec(g)[i][j] by {
                    assert(r.at(i, j) == (if i < MAP_SIZE - 2 { ca_rule(g, i, j) } else { TileType::Dead }));
                }
            }
        }
        assert forall|i: int, j: int| r.in_bounds(i, j) && on_border(i, j) implies #[trigger] r.at(i, j) == TileType::Dead by {
            assert(r.at(i, j) == (if i < MAP_SIZE - 2 { ca_rule(g, i, j) } else { TileType::Dead }));
        }
        assert forall|i: int, j: int| r.in_bounds(i, j) implies (#[trigger] r.at(i, j) == TileType::Alive(0) || r.at(i, j) == TileType::Dead) by {
            assert(r.at(i, j) == (if i < MAP_SIZE - 2 { ca_rule(g, i, j) } else { TileType::Dead }));
        }
    }
    r
}

/// Applies `iterations` smoothing steps.
pub fn cellular_automata_steps(map: &mut Array2D<TileType>, iterations: u32)
    requires
        cave_wf(old(map)),
        forall|x: int, y: int| old(map).in_bounds(x, y) ==> (#[trigger] old(map).at(x, y) == TileType::Alive(0)
            || old(map).at(x, y) == TileType::Dead),
    ensures
        cave_wf(final(map)),
        forall|x: int, y: int| final(map).in_bounds(x, y) ==> (#[trigger] final(map).at(x, y) == TileType::Alive(0)
            || final(map).at(x, y) == TileType::Dead),
        grid_view(final(map)) == ca_iterate(grid_view(old(map)), iterations as nat),
{
    let mut i: u32 = 0;
    while i < iterations
        invariant
            0 <= i <= iterations,
            cave_wf(map),
            forall|x: int, y: int| map.in_bounds(x, y) ==> (#[trigger] map.at(x, y) == TileType::Alive(0)
                || map.at(x, y) == TileType::Dead),
            grid_view(map) == ca_iterate(grid_view(old(map)), i as nat),
        decreases iterations - i,
    {
        let next = ca_step(map);
        *map = next;
        i = i + 1;
    }
}


/// The four orthogonal neighbours, in the order a fill visits them.
pub open spec fn ortho(k: int) -> (int, int) {
    if k == 0 { (-1, 0) } else if k == 1 { (0, -1) } else if k == 2 { (0, 1) } else { (1, 0) }
}

/// Some queued entry is at `c`.
pub open spec fn queued(q: Seq<((i32, i32), u32)>, c: (int, int)) -> bool {
    exists|i: int| 0 <= i < q.len() && (#[trigger] q[i]).0.0 == c.0 && q[i].0.1 == c.1
}

/// Each cell of `b` is as in `a`, or was unlabelled cave in `a` and holds
/// `fill` in `b`.
pub open spec fn filled_from(a: &Array2D<TileType>, b: &Array2D<TileType>, fill: TileType) -> bool {
    forall|x: int, y: int| a.in_bounds(x, y) ==> #[trigger] b.at(x, y) == a.at(x, y)
        || (a.at(x, y) == TileType::Alive(0) && b.at(x, y) == fill)
}

/// The `k`-th orthogonal neighbour of `(i, j)` in `m`.
pub open spec fn nb_at(m: &Array2D<TileType>, i: int, j: int, k: int) -> TileType {
    m.at(i + ortho(k).0, j + ortho(k).1)
}

/// No cell that `b` newly holds as `fill` has an unlabelled cave neighbour
/// in `b`: the fill covers whole components.
pub open spec fn fill_closed(a: &Array2D<TileType>, b: &Array2D<TileType>, fill: TileType) -> bool {
    forall|x: int, y: int, k: int| #![trigger b.at(x, y), nb_at(b, x, y, k)]
        a.in_bounds(x, y) && b.at(x, y) == fill && a.at(x, y) != fill && 0 <= k < 4
        ==> nb_at(b, x, y, k) != TileType::Alive(0)
}


/// `a` and `b` are orthogonal neighbours.
pub open spec fn adjacent(a: (int, int), b: (int, int)) -> bool {
    (a.0 == b.0 && (a.1 - b.1 == 1 || b.1 - a.1 == 1)) || (a.1 == b.1 && (a.0 - b.0 == 1 || b.0 - a.0 == 1))
}

/// `p` is a walk of orthogonal steps through cells of `m` that hold `v`.
pub open spec fn walk(m: &Array2D<TileType>, v: TileType, p: Seq<(int, int)>) -> bool {
    &&& p.len() >= 1
    &&& forall|i: int| 0 <= i < p.len() ==> m.in_bounds((#[trigger] p[i]).0, p[i].1) && m.at(p[i].0, p[i].1) == v
    &&& forall|i: int| 0 <= i < p.len() - 1 ==> adjacent(#[trigger] p[i], p[i + 1])
}

/// The walk `p` takes at most `bound` steps (any number for `None`).
pub open spec fn within(p: Seq<(int, int)>, bound: Option<u32>) -> bool {
    bound matches Some(d) ==> p.len() - 1 <= d
}

/// `c` is joined to `a` through cells of `m` that hold `v`, within `bound` steps.
pub open spec fn joined(m: &Array2D<TileType>, v: TileType, a: (int, int), c: (int, int), bound: Option<u32>) -> bool {
    exists|p: Seq<(int, int)>| #[trigger] walk(m, v, p) && p[0] == a && p.last() == c && within(p, bound)
}

/// The fill from `a` to `b` reached `c` from `pos`: a walk within `bound`
/// steps through cells unlabelled in `a` that all hold `fill` in `b`.
pub open spec fn fill_reached(a: &Array2D<TileType>, b: &Array2D<TileType>, fill: TileType, pos: (i32, i32), c: (int, int),
    bound: Option<u32>) -> bool {
    exists|p: Seq<(int, int)>| #[trigger] walk(a, TileType::Alive(0), p) && walk(b, fill, p)
        && p[0] == (pos.0 as int, pos.1 as int) && p.last() == c && within(p, bound)
}

/// A queue entry `q` is joined to `pos` by a walk of at most `q.1` steps
/// through cells unlabelled in `a`, all but the last already `fill` in `b`.
pub open spec fn queued_reached(a: &Array2D<TileType>, b: &Array2D<TileType>, fill: TileType, pos: (i32, i32),
    q: ((i32, i32), u32)) -> bool {
    exists|p: Seq<(int, int)>| #[trigger] walk(a, TileType::Alive(0), p) && p[0] == (pos.0 as int, pos.1 as int)
        && p.last() == (q.0.0 as int, q.0.1 as int) && p.len() - 1 <= q.1
        && forall|i: int| 0 <= i < p.len() - 1 ==> b.in_bounds((#[trigger] p[i]).0, p[i].1) && b.at(p[i].0, p[i].1) == fill
}

proof fn lemma_walk_mono(b: &Array2D<TileType>, b2: &Array2D<TileType>, v: TileType, p: Seq<(int, int)>)
    requires
        walk(b, v, p),
        b2.same_shape(b),
        forall|x: int, y: int| b.in_bounds(x, y) && b.at(x, y) == v ==> #[trigger] b2.at(x, y) == v,
    ensures
        walk(b2, v, p),
{
    assert forall|i: int| 0 <= i < p.len() implies b2.in_bounds((#[trigger] p[i]).0, p[i].1) && b2.at(p[i].0, p[i].1) == v by {
        assert(b.in_bounds(p[i].0, p[i].1) && b.at(p[i].0, p[i].1) == v);
    }
}


proof fn lemma_fill_complete(m0: &Array2D<TileType>, f: &Array2D<TileType>, fill: TileType, pos: (i32, i32), p: Seq<(int, int)>)
    requires
        cave_wf(m0),
        cave_wf(f),
        fill != TileType::Alive(0),
        filled_from(m0, f, fill),
        fill_closed(m0, f, fill),
        m0.at(pos.0 as int, pos.1 as int) == TileType::Alive(0) ==> f.at(pos.0 as int, pos.1 as int) == fill,
        walk(m0, TileType::Alive(0), p),
        p[0] == (pos.0 as int, pos.1 as int),
    ensures
        f.at(p.last().0, p.last().1) == fill,
    decreases p.len(),
{
    if p.len() > 1 {
        let q = p.drop_last();
        assert(walk(m0, TileType::Alive(0), q)) by {
            assert forall|i: int| 0 <= i < q.len() implies m0.in_bounds((#[trigger] q[i]).0, q[i].1)
                && m0.at(q[i].0, q[i].1) == TileType::Alive(0) by {
                assert(q[i] == p[i]);
            }
            assert forall|i: int| 0 <= i < q.len() - 1 implies adjacent(#[trigger] q[i], q[i + 1]) by {
                assert(q[i] == p[i] && q[i + 1] == p[i + 1]);
            }
        }
        lemma_fill_complete(m0, f, fill, pos, q);
        let a = p[p.len() - 2];
        let b = p.last();
        assert(a == q.last());
        assert(adjacent(a, b));
        let k: int = if b.0 == a.0 - 1 { 0 } else if b.1 == a.1 - 1 { 1 } else if b.1 == a.1 + 1 { 2 } else { 3 };
        assert(b == (a.0 + ortho(k).0, a.1 + ortho(k).1));
        assert(m0.at(a.0, a.1) == TileType::Alive(0));
        assert(nb_at(f, a.0, a.1, k) != TileType::Alive(0));
        assert(m0.at(b.0, b.1) == TileType::Alive(0));
        assert(f.at(b.0, b.1) == m0.at(b.0, b.1) || f.at(b.0, b.1) == fill);
    }
}


/// The `k`-th orthogonal neighbour of `c`.
pub open spec fn nb(c: (int, int), k: int) -> (int, int) {
    (c.0 + ortho(k).0, c.1 + ortho(k).1)
}

/// Some entry of the queue `q` holds cell `c` at distance at most `d`.
pub open spec fn queued_within(q: Seq<((i32, i32), u32)>, c: (int, int), d: int) -> bool {
    exists|i: int| 0 <= i < q.len() && (#[trigger] q[i]).0.0 == c.0 && q[i].0.1 == c.1 && q[i].1 <= d
}

/// The breadth-first state: `fd` holds the distance each cell filled so far
/// was filled at; the queue is sorted and spans at most one step; and every
/// filled cell below the bound has each unlabelled neighbour filled, or
/// queued, one step further at most.
pub open spec fn bfs_ok(m0: &Array2D<TileType>, m: &Array2D<TileType>, fill: TileType, pos: (i32, i32),
    q: Seq<((i32, i32), u32)>, fd: Map<(int, int), int>, bound: int) -> bool {
    &&& forall|c: (int, int)| #[trigger] fd.dom().contains(c) <==> (m0.in_bounds(c.0, c.1) && m.at(c.0, c.1) == fill && m0.at(c.0, c.1) != fill)
    &&& forall|i: int, j: int| 0 <= i < j < q.len() ==> (#[trigger] q[i]).1 <= (#[trigger] q[j]).1
    &&& q.len() > 0 ==> forall|i: int| 0 <= i < q.len() ==> (#[trigger] q[i]).1 <= q[0].1 + 1
    &&& q.len() > 0 ==> forall|c: (int, int)| #[trigger] fd.dom().contains(c) ==> fd[c] <= q[0].1
    &&& forall|c: (int, int)| #[trigger] fd.dom().contains(c) ==> 0 <= fd[c]
    &&& forall|c: (int, int), k: int| #![trigger fd[c], nb(c, k)] fd.dom().contains(c) && 0 <= k < 4 && fd[c] < bound
        && m0.in_bounds(nb(c, k).0, nb(c, k).1) && m0.at(nb(c, k).0, nb(c, k).1) == TileType::Alive(0)
        ==> (fd.dom().contains(nb(c, k)) && fd[nb(c, k)] <= fd[c] + 1) || queued_within(q, nb(c, k), fd[c] + 1)
    &&& m0.at(pos.0 as int, pos.1 as int) == TileType::Alive(0) ==> (fd.dom().contains((pos.0 as int, pos.1 as int))
        && fd[(pos.0 as int, pos.1 as int)] == 0) || queued_within(q, (pos.0 as int, pos.1 as int), 0)
}

proof fn lemma_bfs_skip(m0: &Array2D<TileType>, m: &Array2D<TileType>, fill: TileType, pos: (i32, i32),
    q: Seq<((i32, i32), u32)>, fd: Map<(int, int), int>, bound: int)
    requires
        bfs_ok(m0, m, fill, pos, q, fd, bound),
        q.len() > 0,
        m.at(q[0].0.0 as int, q[0].0.1 as int) != TileType::Alive(0),
        m0.in_bounds(q[0].0.0 as int, q[0].0.1 as int),
        filled_from(m0, m, fill),
    ensures
        bfs_ok(m0, m, fill, pos, q.drop_first(), fd, bound),
{
    let r = q.drop_first();
    let qc = (q[0].0.0 as int, q[0].0.1 as int);
    assert forall|i: int, j: int| 0 <= i < j < r.len() implies (#[trigger] r[i]).1 <= (#[trigger] r[j]).1 by {
        assert(r[i] == q[i + 1] && r[j] == q[j + 1]);
    }
    if r.len() > 0 {
        assert(r[0] == q[1]);
        assert(q[0].1 <= q[1].1);
        assert forall|i: int| 0 <= i < r.len() implies (#[trigger] r[i]).1 <= r[0].1 + 1 by {
            assert(r[i] == q[i + 1]);
        }
    }
    assert forall|c: (int, int), k: int| #![trigger fd[c], nb(c, k)] fd.dom().contains(c) && 0 <= k < 4 && fd[c] < bound
        && m0.in_bounds(nb(c, k).0, nb(c, k).1) && m0.at(nb(c, k).0, nb(c, k).1) == TileType::Alive(0)
        implies (fd.dom().contains(nb(c, k)) && fd[nb(c, k)] <= fd[c] + 1) || queued_within(r, nb(c, k), fd[c] + 1) by {
        let n = nb(c, k);
        if !(fd.dom().contains(n) && fd[n] <= fd[c] + 1) {
            let i = choose|i: int| 0 <= i < q.len() && (#[trigger] q[i]).0.0 == n.0 && q[i].0.1 == n.1 && q[i].1 <= fd[c] + 1;
            if i == 0 {
                assert(m.at(n.0, n.1) == fill);
                assert(fd.dom().contains(n));
                assert(fd[n] <= q[0].1);
            } else {
                assert(r[i - 1] == q[i]);
            }
        }
    }
    let pc = (pos.0 as int, pos.1 as int);
    if m0.at(pc.0, pc.1) == TileType::Alive(0) && !(fd.dom().contains(pc) && fd[pc] == 0) {
        let i = choose|i: int| 0 <= i < q.len() && (#[trigger] q[i]).0.0 == pc.0 && q[i].0.1 == pc.1 && q[i].1 <= 0;
        if i == 0 {
            assert(m.at(pc.0, pc.1) == fill);
            assert(fd.dom().contains(pc));
            assert(fd[pc] <= q[0].1);
        } else {
            assert(r[i - 1] == q[i]);
        }
    }
}


proof fn lemma_bfs_fill(m0: &Array2D<TileType>, before: &Array2D<TileType>, after: &Array2D<TileType>, fill: TileType,
    pos: (i32, i32), q0: Seq<((i32, i32), u32)>, t: Seq<((i32, i32), u32)>, fd: Map<(int, int), int>, bound: int)
    requires
        bfs_ok(m0, before, fill, pos, q0, fd, bound),
        q0.len() > 0,
        fill != TileType::Alive(0),
        m0.in_bounds(q0[0].0.0 as int, q0[0].0.1 as int),
        before.at(q0[0].0.0 as int, q0[0].0.1 as int) == TileType::Alive(0),
        filled_from(m0, before, fill),
        after.at(q0[0].0.0 as int, q0[0].0.1 as int) == fill,
        forall|x: int, y: int| m0.in_bounds(x, y) && (x != q0[0].0.0 || y != q0[0].0.1) ==> #[trigger] after.at(x, y) == before.at(x, y),
        t.len() >= q0.len() - 1,
        t.subrange(0, q0.len() - 1) == q0.drop_first(),
        forall|i: int| q0.len() - 1 <= i < t.len() ==> (#[trigger] t[i]).1 == q0[0].1 + 1,
        forall|k: int| 0 <= k < 4 ==> after.at(nb((q0[0].0.0 as int, q0[0].0.1 as int), k).0, nb((q0[0].0.0 as int, q0[0].0.1 as int), k).1)
            != TileType::Alive(0) || q0[0].1 >= bound
            || #[trigger] queued(t, nb((q0[0].0.0 as int, q0[0].0.1 as int), k)),
    ensures
        bfs_ok(m0, after, fill, pos, t, fd.insert((q0[0].0.0 as int, q0[0].0.1 as int), q0[0].1 as int), bound),
{
    let qc = (q0[0].0.0 as int, q0[0].0.1 as int);
    let d0 = q0[0].1 as int;
    let fd2 = fd.insert(qc, d0);
    let n0 = q0.len() - 1;
    assert forall|i: int| 0 <= i < n0 implies #[trigger] t[i] == q0[i + 1] by {
        assert(t.subrange(0, n0)[i] == q0.drop_first()[i]);
    }
    assert forall|i: int| 0 <= i < t.len() implies d0 <= (#[trigger] t[i]).1 <= d0 + 1 by {
        if i < n0 {
            assert(t[i] == q0[i + 1]);
            assert(q0[0].1 <= q0[i + 1].1);
        }
    }
    assert forall|c: (int, int)| #[trigger] fd2.dom().contains(c) <==> (m0.in_bounds(c.0, c.1) && after.at(c.0, c.1) == fill
        && m0.at(c.0, c.1) != fill) by {
        if c != qc && m0.in_bounds(c.0, c.1) {
            assert(after.at(c.0, c.1) == before.at(c.0, c.1));
        }
        if c == qc {
            assert(m0.at(c.0, c.1) == TileType::Alive(0));
        }
    }
    assert forall|i: int, j: int| 0 <= i < j < t.len() implies (#[trigger] t[i]).1 <= (#[trigger] t[j]).1 by {
        if j < n0 {
            assert(t[i] == q0[i + 1] && t[j] == q0[j + 1]);
        }
    }
    if t.len() > 0 {
        assert forall|i: int| 0 <= i < t.len() implies (#[trigger] t[i]).1 <= t[0].1 + 1 by {}
        assert forall|c: (int, int)| #[trigger] fd2.dom().contains(c) implies fd2[c] <= t[0].1 by {
            if c != qc {
                assert(fd[c] <= q0[0].1);
            }
        }
    }
    assert forall|c: (int, int)| #[trigger] fd2.dom().contains(c) implies 0 <= fd2[c] by {}
    assert forall|c: (int, int), k: int| #![trigger fd2[c], nb(c, k)] fd2.dom().contains(c) && 0 <= k < 4 && fd2[c] < bound
        && m0.in_bounds(nb(c, k).0, nb(c, k).1) && m0.at(nb(c, k).0, nb(c, k).1) == TileType::Alive(0)
        implies (fd2.dom().contains(nb(c, k)) && fd2[nb(c, k)] <= fd2[c] + 1) || queued_within(t, nb(c, k), fd2[c] + 1) by {
        let n = nb(c, k);
        if c == qc {
            if after.at(n.0, n.1) != TileType::Alive(0) {
                assert(n != qc);
                assert(after.at(n.0, n.1) == before.at(n.0, n.1));
                assert(before.at(n.0, n.1) == fill);
                assert(fd.dom().contains(n));
                assert(fd[n] <= q0[0].1);
            } else {
                assert(queued(t, nb(qc, k)));
                let i = choose|i: int| 0 <= i < t.len() && (#[trigger] t[i]).0.0 == n.0 && t[i].0.1 == n.1;
                assert(t[i].1 <= d0 + 1);
            }
        } else {
            assert(fd2[c] == fd[c]);
            if !(fd.dom().contains(n) && fd[n] <= fd[c] + 1) {
                let i = choose|i: int| 0 <= i < q0.len() && (#[trigger] q0[i]).0.0 == n.0 && q0[i].0.1 == n.1 && q0[i].1 <= fd[c] + 1;
                if i == 0 {
                    assert(n == qc);
                } else {
                    assert(t[i - 1] == q0[i]);
                }
            } else {
                if n != qc {
                    assert(fd2[n] == fd[n]);
                }
            }
        }
    }
    let pc = (pos.0 as int, pos.1 as int);
    if m0.at(pc.0, pc.1) == TileType::Alive(0) && !(fd.dom().contains(pc) && fd[pc] == 0) {
        let i = choose|i: int| 0 <= i < q0.len() && (#[trigger] q0[i]).0.0 == pc.0 && q0[i].0.1 == pc.1 && q0[i].1 <= 0;
        if i == 0 {
            assert(pc == qc);
            assert(fd2[pc] == 0);
        } else {
            assert(t[i - 1] == q0[i]);
        }
    }
}

proof fn lemma_bfs_complete(m0: &Array2D<TileType>, m: &Array2D<TileType>, fill: TileType, pos: (i32, i32),
    fd: Map<(int, int), int>, bound: int, p: Seq<(int, int)>)
    requires
        bfs_ok(m0, m, fill, pos, Seq::empty(), fd, bound),
        walk(m0, TileType::Alive(0), p),
        p[0] == (pos.0 as int, pos.1 as int),
        p.len() - 1 <= bound,
    ensures
        fd.dom().contains(p.last()),
        fd[p.last()] <= p.len() - 1,
    decreases p.len(),
{
    if p.len() == 1 {
        assert(!queued_within(Seq::<((i32, i32), u32)>::empty(), (pos.0 as int, pos.1 as int), 0));
    } else {
        let q = p.drop_last();
        assert(walk(m0, TileType::Alive(0), q)) by {
            assert forall|i: int| 0 <= i < q.len() implies m0.in_bounds((#[trigger] q[i]).0, q[i].1)
                && m0.at(q[i].0, q[i].1) == TileType::Alive(0) by {
                assert(q[i] == p[i]);
            }
            assert forall|i: int| 0 <= i < q.len() - 1 implies adjacent(#[trigger] q[i], q[i + 1]) by {
                assert(q[i] == p[i] && q[i + 1] == p[i + 1]);
            }
        }
        lemma_bfs_complete(m0, m, fill, pos, fd, bound, q);
        let a = p[p.len() - 2];
        let b = p.last();
        assert(a == q.last());
        assert(adjacent(a, b));
        let k: int = if b.0 == a.0 - 1 { 0 } else if b.1 == a.1 - 1 { 1 } else if b.1 == a.1 + 1 { 2 } else { 3 };
        assert(b == nb(a, k));
        assert(m0.at(b.0, b.1) == TileType::Alive(0));
        assert(fd[a] < bound);
        assert(!queued_within(Seq::<((i32, i32), u32)>::empty(), nb(a, k), fd[a] + 1));
    }
}

/// Labels with `fill` the unlabelled cave cells reachable from `pos` by
/// orthogonal steps, at most `distance` steps away when a distance is given
/// (breadth first, so each cell at its least number of steps); returns how
/// many it labelled. Every labelled cell is joined to `pos` by a walk through
/// labelled cells within the distance; without a distance, every cell so
/// joined is labelled.
pub fn flood_fill(map: &mut Array2D<TileType>, pos: (i32, i32), fill: TileType, distance: Option<u32>) -> (count: u32)
    requires
        cave_wf(old(map)),
        old(map).in_bounds(pos.0 as int, pos.1 as int),
        fill != TileType::Alive(0),
    ensures
        cave_wf(final(map)),
        filled_from(old(map), final(map), fill),
        old(map).at(pos.0 as int, pos.1 as int) == TileType::Alive(0) ==> final(map).at(pos.0 as int, pos.1 as int) == fill,
        distance is None ==> fill_closed(old(map), final(map), fill),
        count + count_cells(old(map), fill) == count_cells(final(map), fill),
        forall|x: int, y: int| old(map).in_bounds(x, y) && final(map).at(x, y) == fill && old(map).at(x, y) != fill
            ==> #[trigger] fill_reached(old(map), final(map), fill, pos, (x, y), distance),
        forall|x: int, y: int| #[trigger] joined(old(map), TileType::Alive(0), (pos.0 as int, pos.1 as int), (x, y), distance)
            ==> final(map).at(x, y) == fill,
{
    let ghost m0 = *old(map);
    let mut tiles: VecDeque<((i32, i32), u32)> = VecDeque::new();
    tiles.push_back((pos, 0));
    let mut count: u32 = 0;
    let ghost bound: int = match distance { Some(d) => d as int, None => u32::MAX as int + 1 };
    let ghost mut fd: Map<(int, int), int> = Map::empty();
    proof {
        assert(tiles@ == seq![(pos, 0u32)]);
        assert(tiles@[0].0.0 == pos.0 && tiles@[0].0.1 == pos.1 && tiles@[0].1 <= 0);
        assert(queued_within(tiles@, (pos.0 as int, pos.1 as int), 0));
        assert(bfs_ok(&m0, map, fill, pos, tiles@, fd, bound));
        lemma_count_grid_bound(m0.elems@, TileType::Alive(0), MAP_SIZE as int);
        lemma_count_grid_bound(m0.elems@, fill, MAP_SIZE as int);
        assert(tiles@[0].0 == pos);
        if map.at(pos.0 as int, pos.1 as int) == TileType::Alive(0) {
            let p = seq![(pos.0 as int, pos.1 as int)];
            assert(walk(&m0, TileType::Alive(0), p));
            assert(queued_reached(&m0, map, fill, pos, tiles@[0]));
        }
    }
    while tiles.len() > 0
        invariant
            m0 == *old(map),
            cave_wf(&m0),
            cave_wf(map),
            fill != TileType::Alive(0),
            m0.in_bounds(pos.0 as int, pos.1 as int),
            filled_from(&m0, map, fill),
            count + count_cells(&m0, fill) == count_cells(map, fill),
            count_cells(map, fill) <= MAP_SIZE * MAP_SIZE,
            forall|i: int| 0 <= i < tiles@.len() ==> map.in_bounds((#[trigger] tiles@[i]).0.0 as int, tiles@[i].0.1 as int)
                && tiles@[i].1 <= count,
            m0.at(pos.0 as int, pos.1 as int) == TileType::Alive(0) ==> map.at(pos.0 as int, pos.1 as int) == fill
                || queued(tiles@, (pos.0 as int, pos.1 as int)),
            distance is None ==> forall|x: int, y: int, k: int| m0.in_bounds(x, y) && map.at(x, y) == fill && m0.at(x, y) != fill
                && 0 <= k < 4 ==> {
                    let n = (x + ortho(k).0, y + ortho(k).1);
                    map.at(n.0, n.1) != TileType::Alive(0) || #[trigger] queued(tiles@, (x + ortho(k).0, y + ortho(k).1))
                },
            forall|x: int, y: int| m0.in_bounds(x, y) && map.at(x, y) == fill && m0.at(x, y) != fill
                ==> #[trigger] fill_reached(&m0, map, fill, pos, (x, y), distance),
            forall|i: int| 0 <= i < tiles@.len() && map.at((#[trigger] tiles@[i]).0.0 as int, tiles@[i].0.1 as int) == TileType::Alive(0)
                ==> queued_reached(&m0, map, fill, pos, tiles@[i]),
            distance matches Some(d) ==> forall|i: int| 0 <= i < tiles@.len() ==> (#[trigger] tiles@[i]).1 <= d,
            bound == match distance { Some(d) => d as int, None => u32::MAX as int + 1 },
            bfs_ok(&m0, map, fill, pos, tiles@, fd, bound),
        decreases 5 * count_cells(map, TileType::Alive(0)) + tiles@.len(),
    {
        let ghost q0 = tiles@;
        let ghost before = *map;
        let ((x, y), dist) = tiles.pop_front().unwrap();
        proof {
            assert(q0[0] == ((x, y), dist));
            assert(tiles@ == q0.subrange(1, q0.len() as int));
        }
        if map.elems[x as usize][y as usize] != TileType::Alive(0) {
            proof {
                let rest = tiles@;
                assert forall|i: int| 0 <= i < rest.len() implies #[trigger] rest[i] == q0[i + 1] by {}
                assert forall|i: int| 0 <= i < rest.len() implies map.in_bounds((#[trigger] rest[i]).0.0 as int, rest[i].0.1 as int)
                    && rest[i].1 <= count by {
                    assert(rest[i] == q0[i + 1]);
                }
                assert forall|i: int| 0 <= i < rest.len() && map.at((#[trigger] rest[i]).0.0 as int, rest[i].0.1 as int) == TileType::Alive(0)
                    implies queued_reached(&m0, map, fill, pos, rest[i]) by {
                    assert(rest[i] == q0[i + 1]);
                }
                if let Some(d) = distance {
                    assert forall|i: int| 0 <= i < rest.len() implies (#[trigger] rest[i]).1 <= d by {
                        assert(rest[i] == q0[i + 1]);
                    }
                }
                if m0.at(pos.0 as int, pos.1 as int) == TileType::Alive(0) && map.at(pos.0 as int, pos.1 as int) != fill {
                    let i = choose|i: int| 0 <= i < q0.len() && (#[trigger] q0[i]).0.0 == pos.0 && q0[i].0.1 == pos.1;
                    if i == 0 {
                        assert(map.at(pos.0 as int, pos.1 as int) == m0.at(pos.0 as int, pos.1 as int));
                    } else {
                        assert(rest[i - 1] == q0[i]);
                    }
                }
                if distance is None {
                    assert forall|cx: int, cy: int, k: int| m0.in_bounds(cx, cy) && map.at(cx, cy) == fill && m0.at(cx, cy) != fill
                        && 0 <= k < 4 implies {
                            let n = (cx + ortho(k).0, cy + ortho(k).1);
                            map.at(n.0, n.1) != TileType::Alive(0) || #[trigger] queued(rest, (cx + ortho(k).0, cy + ortho(k).1))
                        } by {
                        let n = (cx + ortho(k).0, cy + ortho(k).1);
                        if map.at(n.0, n.1) == TileType::Alive(0) {
                            assert(queued(q0, n));
                            let i = choose|i: int| 0 <= i < q0.len() && (#[trigger] q0[i]).0.0 == n.0 && q0[i].0.1 == n.1;
                            if i > 0 {
                                assert(rest[i - 1] == q0[i]);
                            }
                        }
                    }
                }
                assert(tiles@ =~= q0.drop_first());
                lemma_bfs_skip(&m0, map, fill, pos, q0, fd, bound);
            }
            continue;
        }
        proof {
            assert(map.at(x as int, y as int) == m0.at(x as int, y as int));
            assert(!on_border(x as int, y as int));
            assert(queued_reached(&m0, map, fill, pos, q0[0]));
        }
        let ghost path = choose|p: Seq<(int, int)>| #[trigger] walk(&m0, TileType::Alive(0), p) && p[0] == (pos.0 as int, pos.1 as int)
            && p.last() == (x as int, y as int) && p.len() - 1 <= dist
            && forall|i: int| 0 <= i < p.len() - 1 ==> before.in_bounds((#[trigger] p[i]).0, p[i].1) && before.at(p[i].0, p[i].1) == fill;
        map.elems[x as usize][y as usize] = fill;
        let ghost filled = *map;
        proof {
            lemma_count_set(&before, map, x as int, y as int, fill, fill);
            lemma_count_set(&before, map, x as int, y as int, fill, TileType::Alive(0));
            lemma_count_grid_bound(map.elems@, fill, MAP_SIZE as int);
        }
        count = count + 1;
        let ghost rest = tiles@;
        let ghost go_spec = match distance { Some(d) => d > dist, None => true };
        proof {
            assert forall|i: int| 0 <= i < map.elems@.len() implies (#[trigger] map.elems@[i])@.len() == map.height by {
                if i != x {
                    assert(map.elems@[i] == before.elems@[i]);
                }
            }
            assert forall|i: int, j: int| map.in_bounds(i, j) && (i != x || j != y) implies #[trigger] map.at(i, j) == before.at(i, j) by {
                if i != x {
                    assert(map.elems@[i] == before.elems@[i]);
                }
            }
            assert forall|i: int| 0 <= i < rest.len() implies #[trigger] rest[i] == q0[i + 1] by {}
            assert forall|cx: int, cy: int| before.in_bounds(cx, cy) && before.at(cx, cy) == fill implies #[trigger] map.at(cx, cy) == fill by {
                if cx != x || cy != y {
                    assert(map.at(cx, cy) == before.at(cx, cy));
                }
            }
            assert(walk(map, fill, path)) by {
                assert forall|i: int| 0 <= i < path.len() implies map.in_bounds((#[trigger] path[i]).0, path[i].1)
                    && map.at(path[i].0, path[i].1) == fill by {
                    if i < path.len() - 1 {
                        assert(before.at(path[i].0, path[i].1) == fill);
                    }
                }
            }
            if let Some(d) = distance {
                assert(q0[0].1 <= d);
            }
            assert forall|cx: int, cy: int| m0.in_bounds(cx, cy) && map.at(cx, cy) == fill && m0.at(cx, cy) != fill
                implies #[trigger] fill_reached(&m0, map, fill, pos, (cx, cy), distance) by {
                if cx == x && cy == y {
                    assert(walk(&m0, TileType::Alive(0), path) && walk(map, fill, path));
                } else {
                    assert(before.at(cx, cy) == fill);
                    assert(fill_reached(&m0, &before, fill, pos, (cx, cy), distance));
                    let p = choose|p: Seq<(int, int)>| #[trigger] walk(&m0, TileType::Alive(0), p) && walk(&before, fill, p)
                        && p[0] == (pos.0 as int, pos.1 as int) && p.last() == (cx, cy) && within(p, distance);
                    lemma_walk_mono(&before, map, fill, p);
                }
            }
            assert forall|i: int| 0 <= i < rest.len() && map.at((#[trigger] rest[i]).0.0 as int, rest[i].0.1 as int) == TileType::Alive(0)
                implies queued_reached(&m0, map, fill, pos, rest[i]) by {
                assert(rest[i] == q0[i + 1]);
                let q = rest[i];
                assert(before.at(q.0.0 as int, q.0.1 as int) == TileType::Alive(0));
                assert(queued_reached(&m0, &before, fill, pos, q));
                let p = choose|p: Seq<(int, int)>| #[trigger] walk(&m0, TileType::Alive(0), p) && p[0] == (pos.0 as int, pos.1 as int)
                    && p.last() == (q.0.0 as int, q.0.1 as int) && p.len() - 1 <= q.1
                    && forall|j: int| 0 <= j < p.len() - 1 ==> before.in_bounds((#[trigger] p[j]).0, p[j].1) && before.at(p[j].0, p[j].1) == fill;
                assert forall|j: int| 0 <= j < p.len() - 1 implies map.in_bounds((#[trigger] p[j]).0, p[j].1) && map.at(p[j].0, p[j].1) == fill by {
                    assert(before.at(p[j].0, p[j].1) == fill);
                }
            }
        }
        let mut k: usize = 0;
        while k < 4
            invariant
                0 <= k <= 4,
                *map == filled,
                map.wf(),
                map.width() == MAP_SIZE,
                map.height == MAP_SIZE,
                2 <= x < MAP_SIZE - 2,
                2 <= y < MAP_SIZE - 2,
                dist + 1 <= count,
                go_spec == match distance { Some(d) => d > dist, None => true },
                rest.len() <= tiles@.len() <= rest.len() + k,
                tiles@.subrange(0, rest.len() as int) == rest,
                forall|i: int| rest.len() <= i < tiles@.len() ==> map.in_bounds((#[trigger] tiles@[i]).0.0 as int, tiles@[i].0.1 as int)
                    && tiles@[i].1 == dist + 1,
                forall|k2: int| 0 <= k2 < k ==> map.at(x + ortho(k2).0, y + ortho(k2).1) != TileType::Alive(0)
                    || !go_spec || #[trigger] queued(tiles@, (x + ortho(k2).0, y + ortho(k2).1)),
                cave_wf(&m0),
                walk(&m0, TileType::Alive(0), path),
                walk(map, fill, path),
                path[0] == (pos.0 as int, pos.1 as int),
                path.last() == (x as int, y as int),
                path.len() - 1 <= dist,
                filled_from(&m0, map, fill),
                forall|i: int| 0 <= i < tiles@.len() && map.at((#[trigger] tiles@[i]).0.0 as int, tiles@[i].0.1 as int) == TileType::Alive(0)
                    ==> queued_reached(&m0, map, fill, pos, tiles@[i]),
                distance matches Some(d) ==> forall|i: int| 0 <= i < tiles@.len() ==> (#[trigger] tiles@[i]).1 <= d,
            decreases 4 - k,
        {
            let (dx, dy): (i32, i32) = if k == 0 { (-1, 0) } else if k == 1 { (0, -1) } else if k == 2 { (0, 1) } else { (1, 0) };
            let nx = x + dx;
            let ny = y + dy;
            let ghost t0 = tiles@;
            proof {
                assert((dx as int, dy as int) == ortho(k as int));
            }
            if map.elems[nx as usize][ny as usize] == TileType::Alive(0) {
                let go = match distance {
                    Some(d) => d > dist,
                    None => true,
                };
                if go {
                    tiles.push_back(((nx, ny), dist + 1));
                    proof {
                        let np = path.push((nx as int, ny as int));
                        assert(map.at(nx as int, ny as int) == TileType::Alive(0));
                        assert(m0.in_bounds(nx as int, ny as int));
                        assert(m0.at(nx as int, ny as int) == TileType::Alive(0));
                        assert(walk(&m0, TileType::Alive(0), np)) by {
                            assert forall|i: int| 0 <= i < np.len() - 1 implies adjacent(#[trigger] np[i], np[i + 1]) by {
                                if i < path.len() - 1 {
                                    assert(np[i] == path[i] && np[i + 1] == path[i + 1]);
                                } else {
                                    assert(np[i] == (x as int, y as int));
                                }
                            }
                            assert forall|i: int| 0 <= i < np.len() implies m0.in_bounds((#[trigger] np[i]).0, np[i].1)
                                && m0.at(np[i].0, np[i].1) == TileType::Alive(0) by {
                                if i < path.len() {
                                    assert(np[i] == path[i]);
                                }
                            }
                        }
                        assert forall|j: int| 0 <= j < np.len() - 1 implies map.in_bounds((#[trigger] np[j]).0, np[j].1)
                            && map.at(np[j].0, np[j].1) == fill by {
                            assert(np[j] == path[j]);
                        }
                        assert(queued_reached(&m0, map, fill, pos, tiles@[t0.len() as int]));
                        assert forall|i: int| 0 <= i < tiles@.len() && map.at((#[trigger] tiles@[i]).0.0 as int, tiles@[i].0.1 as int) == TileType::Alive(0)
                            implies queued_reached(&m0, map, fill, pos, tiles@[i]) by {
                            if i < t0.len() {
                                assert(tiles@[i] == t0[i]);
                            }
                        }
                        if let Some(d) = distance {
                            assert forall|i: int| 0 <= i < tiles@.len() implies (#[trigger] tiles@[i]).1 <= d by {
                                if i < t0.len() {
                                    assert(tiles@[i] == t0[i]);
                                }
                            }
                        }
                        assert(tiles@[t0.len() as int].0 == (nx, ny));
                        assert(queued(tiles@, (nx as int, ny as int)));
                    }
                }
            }
            proof {
                assert(tiles@.subrange(0, rest.len() as int) =~= rest) by {
                    assert(t0.subrange(0, rest.len() as int) == rest);
                }
                assert forall|k2: int| 0 <= k2 < k + 1 implies map.at(x + ortho(k2).0, y + ortho(k2).1) != TileType::Alive(0)
                    || !go_spec || #[trigger] queued(tiles@, (x + ortho(k2).0, y + ortho(k2).1)) by {
                    if k2 < k && map.at(x + ortho(k2).0, y + ortho(k2).1) == TileType::Alive(0) && go_spec {
                        assert(queued(t0, (x + ortho(k2).0, y + ortho(k2).1)));
                        let i = choose|i: int| 0 <= i < t0.len() && (#[trigger] t0[i]).0.0 == x + ortho(k2).0 && t0[i].0.1 == y + ortho(k2).1;
                        assert(tiles@[i] == t0[i]);
                    }
                }
            }
            k = k + 1;
        }
        proof {
            let qc = (x as int, y as int);
            assert(q0[0].0.0 as int == x as int && q0[0].0.1 as int == y as int && q0[0].1 == dist);
            assert(rest == q0.drop_first());
            assert forall|cx: int, cy: int| m0.in_bounds(cx, cy) && (cx != q0[0].0.0 || cy != q0[0].0.1)
                implies #[trigger] map.at(cx, cy) == before.at(cx, cy) by {}
            assert forall|k: int| 0 <= k < 4 implies map.at(nb(qc, k).0, nb(qc, k).1) != TileType::Alive(0) || q0[0].1 >= bound
                || #[trigger] queued(tiles@, nb(qc, k)) by {
                assert(nb(qc, k) == (x + ortho(k).0, y + ortho(k).1));
            }
            lemma_bfs_fill(&m0, &before, map, fill, pos, q0, tiles@, fd, bound);
            fd = fd.insert(qc, dist as int);
        }
        proof {
            let q = tiles@;
            assert forall|i: int| 0 <= i < q.len() implies map.in_bounds((#[trigger] q[i]).0.0 as int, q[i].0.1 as int)
                && q[i].1 <= count by {
                if i < rest.len() {
                    assert(q[i] == rest[i]);
                    assert(rest[i] == q0[i + 1]);
                }
            }
            assert forall|i: int| 0 <= i < rest.len() implies #[trigger] q[i] == rest[i] by {
                assert(q.subrange(0, rest.len() as int)[i] == rest[i]);
            }
            if m0.at(pos.0 as int, pos.1 as int) == TileType::Alive(0) && map.at(pos.0 as int, pos.1 as int) != fill {
                assert(before.at(pos.0 as int, pos.1 as int) != fill);
                let i = choose|i: int| 0 <= i < q0.len() && (#[trigger] q0[i]).0.0 == pos.0 && q0[i].0.1 == pos.1;
                if i == 0 {
                    assert(false);
                } else {
                    assert(q[i - 1] == rest[i - 1]);
                }
            }
            if distance is None {
                assert forall|cx: int, cy: int, kk: int| m0.in_bounds(cx, cy) && map.at(cx, cy) == fill && m0.at(cx, cy) != fill
                    && 0 <= kk < 4 implies {
                        let n = (cx + ortho(kk).0, cy + ortho(kk).1);
                        map.at(n.0, n.1) != TileType::Alive(0) || #[trigger] queued(q, (cx + ortho(kk).0, cy + ortho(kk).1))
                    } by {
                    let n = (cx + ortho(kk).0, cy + ortho(kk).1);
                    if cx == x && cy == y {
                        assert(go_spec);
                    }
                    if map.at(n.0, n.1) == TileType::Alive(0) && !(cx == x && cy == y) {
                        assert(before.at(cx, cy) == fill);
                        assert(n != (x as int, y as int));
                        assert(before.at(n.0, n.1) == TileType::Alive(0));
                        assert(queued(q0, n));
                        let i = choose|i: int| 0 <= i < q0.len() && (#[trigger] q0[i]).0.0 == n.0 && q0[i].0.1 == n.1;
                        assert(i != 0);
                        assert(q[i - 1] == rest[i - 1]);
                    }
                }
            }
            assert(filled_from(&m0, map, fill)) by {
                assert forall|cx: int, cy: int| m0.in_bounds(cx, cy) implies #[trigger] map.at(cx, cy) == m0.at(cx, cy)
                    || (m0.at(cx, cy) == TileType::Alive(0) && map.at(cx, cy) == fill) by {
                    if cx != x || cy != y {
                        assert(map.at(cx, cy) == before.at(cx, cy));
                    }
                }
            }
            assert forall|cx: int, cy: int| map.in_bounds(cx, cy) && on_border(cx, cy) implies #[trigger] map.at(cx, cy) == TileType::Dead by {
                assert(map.at(cx, cy) == before.at(cx, cy));
            }
        }
    }
    proof {
        if distance is None {
            assert forall|cx: int, cy: int, kk: int| #![trigger map.at(cx, cy), nb_at(map, cx, cy, kk)]
                m0.in_bounds(cx, cy) && map.at(cx, cy) == fill && m0.at(cx, cy) != fill && 0 <= kk < 4
                implies nb_at(map, cx, cy, kk) != TileType::Alive(0) by {
                assert(!queued(tiles@, (cx + ortho(kk).0, cy + ortho(kk).1)));
            }
        }
    }
    proof {
        if let Some(dd) = distance {
            assert(tiles@ =~= Seq::<((i32, i32), u32)>::empty());
            assert forall|cx: int, cy: int| #[trigger] joined(&m0, TileType::Alive(0), (pos.0 as int, pos.1 as int), (cx, cy), distance)
                implies map.at(cx, cy) == fill by {
                let p = choose|p: Seq<(int, int)>| #[trigger] walk(&m0, TileType::Alive(0), p) && p[0] == (pos.0 as int, pos.1 as int)
                    && p.last() == (cx, cy) && within(p, distance);
                lemma_bfs_complete(&m0, map, fill, pos, fd, bound, p);
            }
        }
        if distance is None {
            assert forall|cx: int, cy: int| #[trigger] joined(&m0, TileType::Alive(0), (pos.0 as int, pos.1 as int), (cx, cy), None)
                implies map.at(cx, cy) == fill by {
                let p = choose|p: Seq<(int, int)>| #[trigger] walk(&m0, TileType::Alive(0), p) && p[0] == (pos.0 as int, pos.1 as int)
                    && p.last() == (cx, cy) && within(p, None);
                lemma_fill_complete(&m0, map, fill, pos, p);
            }
        }
    }
    count
}


proof fn lemma_count_col_same(a: Seq<TileType>, b: Seq<TileType>, v: TileType)
    requires
        a.len() == b.len(),
        forall|i: int| 0 <= i < a.len() ==> (a[i] == v <==> b[i] == v),
    ensures
        count_col(a, v) == count_col(b, v),
    decreases a.len(),
{
    if a.len() > 0 {
        lemma_count_col_same(a.drop_last(), b.drop_last(), v);
    }
}

proof fn lemma_count_grid_same(a: Seq<Vec<TileType>>, b: Seq<Vec<TileType>>, v: TileType)
    requires
        a.len() == b.len(),
        forall|i: int| 0 <= i < a.len() ==> (#[trigger] a[i])@.len() == b[i]@.len(),
        forall|i: int, j: int| 0 <= i < a.len() && 0 <= j < a[i]@.len() ==> (a[i]@[j] == v <==> b[i]@[j] == v),
    ensures
        count_grid(a, v) == count_grid(b, v),
    decreases a.len(),
{
    if a.len() > 0 {
        lemma_count_grid_same(a.drop_last(), b.drop_last(), v);
        let n = a.len() - 1;
        assert forall|j: int| 0 <= j < a[n]@.len() implies (a[n]@[j] == v <==> b[n]@[j] == v) by {}
        lemma_count_col_same(a[n]@, b[n]@, v);
    }
}

/// Two grids of one shape that agree on where `v` is hold it equally often.
proof fn lemma_count_same(a: &Array2D<TileType>, b: &Array2D<TileType>, v: TileType)
    requires
        a.wf(),
        b.wf(),
        a.same_shape(b),
        forall|x: int, y: int| a.in_bounds(x, y) ==> (#[trigger] a.at(x, y) == v <==> b.at(x, y) == v),
    ensures
        count_cells(a, v) == count_cells(b, v),
{
    assert forall|i: int, j: int| 0 <= i < a.elems@.len() && 0 <= j < a.elems@[i]@.len()
        implies (a.elems@[i]@[j] == v <==> b.elems@[i]@[j] == v) by {
        assert(a.in_bounds(i, j));
        assert(a.at(i, j) == v <==> b.at(i, j) == v);
    }
    lemma_count_grid_same(a.elems@, b.elems@, v);
}

proof fn lemma_count_col_zero(a: Seq<TileType>, v: TileType)
    requires
        forall|i: int| 0 <= i < a.len() ==> a[i] != v,
    ensures
        count_col(a, v) == 0,
    decreases a.len(),
{
    if a.len() > 0 {
        lemma_count_col_zero(a.drop_last(), v);
    }
}

proof fn lemma_count_zero(m: &Array2D<TileType>, v: TileType)
    requires
        m.wf(),
        forall|x: int, y: int| m.in_bounds(x, y) ==> #[trigger] m.at(x, y) != v,
    ensures
        count_cells(m, v) == 0,
{
    assert forall|i: int, j: int| 0 <= i < m.elems@.len() && 0 <= j < m.height implies m.elems@[i]@[j] != v by {
        assert(m.in_bounds(i, j));
        assert(m.at(i, j) != v);
    }
    lemma_count_zero_grid(m.elems@, v, m.height as int);
}

proof fn lemma_count_zero_grid(g: Seq<Vec<TileType>>, v: TileType, h: int)
    requires
        forall|i: int| 0 <= i < g.len() ==> (#[trigger] g[i])@.len() == h,
        forall|i: int, j: int| 0 <= i < g.len() && 0 <= j < h ==> g[i]@[j] != v,
    ensures
        count_grid(g, v) == 0,
    decreases g.len(),
{
    if g.len() > 0 {
        lemma_count_zero_grid(g.drop_last(), v, h);
        let n = g.len() - 1;
        assert forall|j: int| 0 <= j < g[n]@.len() implies g[n]@[j] != v by {}
        lemma_count_col_zero(g[n]@, v);
    }
}


/// Labelled cells of `m` share their label with every orthogonal neighbour
/// that was cave in `m0`.
pub open spec fn labels_consistent(m0: &Array2D<TileType>, m: &Array2D<TileType>) -> bool {
    forall|i: int, j: int, k: int| #![trigger m.at(i, j), nb_at(m0, i, j, k)]
        m.in_bounds(i, j) && m.at(i, j) is Alive && m.at(i, j) != TileType::Alive(0) && 0 <= k < 4
            && nb_at(m0, i, j, k) == TileType::Alive(0)
            ==> nb_at(m, i, j, k) == m.at(i, j)
}

/// The labelled cells of `m` were cave in `m0`, off the border.
pub open spec fn labels_from(m0: &Array2D<TileType>, m: &Array2D<TileType>) -> bool {
    forall|i: int, j: int| m.in_bounds(i, j) && (#[trigger] m.at(i, j)) is Alive ==> m0.at(i, j) == TileType::Alive(0)
}

proof fn lemma_fill_keeps_labels_consistent(m0: &Array2D<TileType>, a: &Array2D<TileType>, b: &Array2D<TileType>, fill: TileType)
    requires
        cave_wf(m0),
        cave_wf(a),
        cave_wf(b),
        fill is Alive,
        fill != TileType::Alive(0),
        forall|i: int, j: int| a.in_bounds(i, j) ==> #[trigger] a.at(i, j) != fill,
        forall|x: int, y: int| a.in_bounds(x, y) && m0.at(x, y) == TileType::Alive(0) ==> (#[trigger] a.at(x, y)) is Alive,
        labels_from(m0, a),
        labels_consistent(m0, a),
        filled_from(a, b, fill),
        fill_closed(a, b, fill),
    ensures
        labels_consistent(m0, b),
        labels_from(m0, b),
{
    assert forall|i: int, j: int| b.in_bounds(i, j) && (#[trigger] b.at(i, j)) is Alive implies m0.at(i, j) == TileType::Alive(0) by {
        assert(b.at(i, j) == a.at(i, j) || a.at(i, j) == TileType::Alive(0));
    }
    assert forall|i: int, j: int, k: int| #![trigger b.at(i, j), nb_at(m0, i, j, k)]
        b.in_bounds(i, j) && b.at(i, j) is Alive && b.at(i, j) != TileType::Alive(0) && 0 <= k < 4
            && nb_at(m0, i, j, k) == TileType::Alive(0)
            implies nb_at(b, i, j, k) == b.at(i, j) by {
        lemma_fill_one(m0, a, b, fill, i, j, k);
    }
}

proof fn lemma_fill_one(m0: &Array2D<TileType>, a: &Array2D<TileType>, b: &Array2D<TileType>, fill: TileType, i: int, j: int, k: int)
    requires
        cave_wf(m0),
        cave_wf(a),
        cave_wf(b),
        fill is Alive,
        fill != TileType::Alive(0),
        forall|x: int, y: int| a.in_bounds(x, y) ==> #[trigger] a.at(x, y) != fill,
        forall|x: int, y: int| a.in_bounds(x, y) && m0.at(x, y) == TileType::Alive(0) ==> (#[trigger] a.at(x, y)) is Alive,
        labels_from(m0, a),
        labels_consistent(m0, a),
        filled_from(a, b, fill),
        fill_closed(a, b, fill),
        b.in_bounds(i, j),
        b.at(i, j) is Alive,
        b.at(i, j) != TileType::Alive(0),
        0 <= k < 4,
        nb_at(m0, i, j, k) == TileType::Alive(0),
    ensures
        nb_at(b, i, j, k) == b.at(i, j),
{
    let ni = i + ortho(k).0;
    let nj = j + ortho(k).1;
    assert(b.at(i, j) == a.at(i, j) || a.at(i, j) == TileType::Alive(0));
    assert(m0.at(i, j) == TileType::Alive(0));
    assert(!on_border(i, j));
    assert(b.in_bounds(ni, nj));
    assert(b.at(ni, nj) == a.at(ni, nj) || (a.at(ni, nj) == TileType::Alive(0) && b.at(ni, nj) == fill));
    if b.at(i, j) == a.at(i, j) {
        assert(a.at(i, j) != TileType::Alive(0));
        assert(nb_at(a, i, j, k) == a.at(i, j));
    } else {
        assert(a.at(i, j) == TileType::Alive(0) && b.at(i, j) == fill);
        assert(nb_at(b, i, j, k) != TileType::Alive(0));
        if b.at(ni, nj) != fill {
            assert(b.at(ni, nj) == a.at(ni, nj));
            assert(a.at(ni, nj) is Alive);
            let k2 = 3 - k;
            assert(ortho(k2) == (-ortho(k).0, -ortho(k).1));
            assert(ni + ortho(k2).0 == i && nj + ortho(k2).1 == j);
            assert(nb_at(m0, ni, nj, k2) == TileType::Alive(0));
            assert(nb_at(a, ni, nj, k2) == a.at(ni, nj));
        }
    }
}


proof fn lemma_walk_reverse(m: &Array2D<TileType>, v: TileType, p: Seq<(int, int)>)
    requires
        walk(m, v, p),
    ensures
        walk(m, v, p.reverse()),
        p.reverse()[0] == p.last(),
        p.reverse().last() == p[0],
{
    let r = p.reverse();
    assert forall|i: int| 0 <= i < r.len() implies m.in_bounds((#[trigger] r[i]).0, r[i].1) && m.at(r[i].0, r[i].1) == v by {
        assert(r[i] == p[p.len() - 1 - i]);
    }
    assert forall|i: int| 0 <= i < r.len() - 1 implies adjacent(#[trigger] r[i], r[i + 1]) by {
        assert(r[i] == p[p.len() - 1 - i]);
        assert(r[i + 1] == p[p.len() - 2 - i]);
        assert(adjacent(p[p.len() - 2 - i], p[p.len() - 1 - i]));
    }
}

proof fn lemma_walk_concat(m: &Array2D<TileType>, v: TileType, p: Seq<(int, int)>, q: Seq<(int, int)>)
    requires
        walk(m, v, p),
        walk(m, v, q),
        p.last() == q[0],
    ensures
        walk(m, v, p + q.drop_first()),
        (p + q.drop_first())[0] == p[0],
        (p + q.drop_first()).last() == q.last(),
{
    let r = p + q.drop_first();
    assert forall|i: int| 0 <= i < r.len() implies m.in_bounds((#[trigger] r[i]).0, r[i].1) && m.at(r[i].0, r[i].1) == v by {
        if i < p.len() {
            assert(r[i] == p[i]);
        } else {
            assert(r[i] == q[i - p.len() + 1]);
        }
    }
    assert forall|i: int| 0 <= i < r.len() - 1 implies adjacent(#[trigger] r[i], r[i + 1]) by {
        if i < p.len() - 1 {
            assert(r[i] == p[i] && r[i + 1] == p[i + 1]);
        } else if i == p.len() - 1 {
            assert(r[i] == q[0] && r[i + 1] == q[1]);
        } else {
            assert(r[i] == q[i - p.len() + 1] && r[i + 1] == q[i - p.len() + 2]);
        }
    }
    if q.len() == 1 {
        assert(r =~= p);
    } else {
        assert(r.last() == q[q.len() - 1]);
    }
}

/// Along a walk through unlabelled cells of `m0`, a consistent labelling
/// keeps one label.
proof fn lemma_label_along(m0: &Array2D<TileType>, lab: &Array2D<TileType>, p: Seq<(int, int)>)
    requires
        cave_wf(m0),
        lab.same_shape(m0),
        labels_consistent(m0, lab),
        walk(m0, TileType::Alive(0), p),
        lab.at(p[0].0, p[0].1) is Alive,
        lab.at(p[0].0, p[0].1) != TileType::Alive(0),
    ensures
        lab.at(p.last().0, p.last().1) == lab.at(p[0].0, p[0].1),
    decreases p.len(),
{
    if p.len() > 1 {
        let q = p.drop_last();
        assert(walk(m0, TileType::Alive(0), q)) by {
            assert forall|i: int| 0 <= i < q.len() implies m0.in_bounds((#[trigger] q[i]).0, q[i].1)
                && m0.at(q[i].0, q[i].1) == TileType::Alive(0) by {
                assert(q[i] == p[i]);
            }
            assert forall|i: int| 0 <= i < q.len() - 1 implies adjacent(#[trigger] q[i], q[i + 1]) by {
                assert(q[i] == p[i] && q[i + 1] == p[i + 1]);
            }
        }
        lemma_label_along(m0, lab, q);
        let a = p[p.len() - 2];
        let b = p.last();
        assert(a == q.last());
        assert(adjacent(a, b));
        let k: int = if b.0 == a.0 - 1 { 0 } else if b.1 == a.1 - 1 { 1 } else if b.1 == a.1 + 1 { 2 } else { 3 };
        assert(b == (a.0 + ortho(k).0, a.1 + ortho(k).1));
        assert(m0.at(b.0, b.1) == TileType::Alive(0));
        assert(nb_at(m0, a.0, a.1, k) == TileType::Alive(0));
        assert(lab.in_bounds(a.0, a.1));
        assert(nb_at(lab, a.0, a.1, k) == lab.at(a.0, a.1));
    }
}


/// Two cave cells carry the same label exactly when a walk through cave
/// joins them, given a consistent labelling whose classes are each joined
/// to a seed.
proof fn lemma_label_classes(m0: &Array2D<TileType>, lab: &Array2D<TileType>, seeds: Seq<(int, int)>)
    requires
        cave_wf(m0),
        cave_wf(lab),
        labels_consistent(m0, lab),
        forall|x: int, y: int| lab.in_bounds(x, y) && m0.at(x, y) == TileType::Alive(0)
            ==> (#[trigger] lab.at(x, y)) is Alive && lab.at(x, y) != TileType::Alive(0),
        forall|x: int, y: int| #![trigger lab.at(x, y)] lab.in_bounds(x, y) && lab.at(x, y) is Alive && lab.at(x, y) != TileType::Alive(0)
            ==> lab.at(x, y)->Alive_0 < seeds.len()
                && joined(m0, TileType::Alive(0), seeds[lab.at(x, y)->Alive_0 as int], (x, y), None),
    ensures
        forall|a: (int, int), b: (int, int)| #![trigger lab.at(a.0, a.1), lab.at(b.0, b.1)]
            lab.in_bounds(a.0, a.1) && lab.in_bounds(b.0, b.1) && m0.at(a.0, a.1) == TileType::Alive(0)
            && m0.at(b.0, b.1) == TileType::Alive(0)
            ==> (lab.at(a.0, a.1) == lab.at(b.0, b.1) <==> joined(m0, TileType::Alive(0), a, b, None)),
{
    assert forall|a: (int, int), b: (int, int)| #![trigger lab.at(a.0, a.1), lab.at(b.0, b.1)]
        lab.in_bounds(a.0, a.1) && lab.in_bounds(b.0, b.1) && m0.at(a.0, a.1) == TileType::Alive(0)
        && m0.at(b.0, b.1) == TileType::Alive(0)
        implies (lab.at(a.0, a.1) == lab.at(b.0, b.1) <==> joined(m0, TileType::Alive(0), a, b, None)) by {
        assert(lab.at(a.0, a.1) is Alive && lab.at(a.0, a.1) != TileType::Alive(0));
        assert(lab.at(b.0, b.1) is Alive && lab.at(b.0, b.1) != TileType::Alive(0));
        if lab.at(a.0, a.1) == lab.at(b.0, b.1) {
            let l = lab.at(a.0, a.1)->Alive_0;
            let sd = seeds[l as int];
            let pa = choose|p: Seq<(int, int)>| #[trigger] walk(m0, TileType::Alive(0), p) && p[0] == sd && p.last() == a && within(p, None);
            let pb = choose|p: Seq<(int, int)>| #[trigger] walk(m0, TileType::Alive(0), p) && p[0] == sd && p.last() == b && within(p, None);
            lemma_walk_reverse(m0, TileType::Alive(0), pa);
            lemma_walk_concat(m0, TileType::Alive(0), pa.reverse(), pb);
            let w = pa.reverse() + pb.drop_first();
            assert(walk(m0, TileType::Alive(0), w) && w[0] == a && w.last() == b && within(w, None));
        }
        if joined(m0, TileType::Alive(0), a, b, None) {
            let p = choose|p: Seq<(int, int)>| #[trigger] walk(m0, TileType::Alive(0), p) && p[0] == a && p.last() == b && within(p, None);
            lemma_label_along(m0, lab, p);
        }
    }
}

/// Inner cells in scan order: the cells with `2 <= x, y < MAP_SIZE - 2` before `(x, y)`.
pub open spec fn scanned(i: int, j: int, x: int, y: int) -> bool {
    !on_border(i, j) && (i < x || (i == x && j < y))
}

/// `t` after the kept label becomes unlabelled cave and other labels rock.
pub open spec fn relabel(t: TileType, keep: usize) -> TileType {
    match t {
        TileType::Alive(f) => if f == 0 { t } else if f == keep { TileType::Alive(0) } else { TileType::Dead },
        TileType::Dead => TileType::Dead,
    }
}

/// What `select_largest_cave` makes of `a`: `b` keeps as unlabelled cave exactly the
/// cells of the first largest cave of `a`, which has `size` cells, and turns
/// the rest to rock.
pub open spec fn keeps_largest(a: &Array2D<TileType>, b: &Array2D<TileType>, size: u32) -> bool {
    &&& cave_wf(b)
    &&& forall|x: int, y: int| b.in_bounds(x, y) ==> (#[trigger] b.at(x, y) == TileType::Alive(0)
                || b.at(x, y) == TileType::Dead)
    &&& forall|x: int, y: int| b.in_bounds(x, y) && b.at(x, y) == TileType::Alive(0)
                ==> #[trigger] a.at(x, y) == TileType::Alive(0)
    &&& count_cells(b, TileType::Alive(0)) == size
    &&& forall|x: int, y: int, k: int| #![trigger b.at(x, y), nb_at(a, x, y, k)]
                b.in_bounds(x, y) && b.at(x, y) == TileType::Alive(0) && 0 <= k < 4
                && nb_at(a, x, y, k) == TileType::Alive(0) ==> nb_at(b, x, y, k) == TileType::Alive(0)
    &&& exists|labelled: Array2D<TileType>, keep: usize| #![trigger labels_consistent(a, &labelled), relabel(TileType::Dead, keep)] {
                &&& cave_wf(&labelled)
                &&& labels_from(a, &labelled)
                &&& labels_consistent(a, &labelled)
                &&& forall|x: int, y: int| labelled.in_bounds(x, y) && a.at(x, y) == TileType::Alive(0)
                    ==> (#[trigger] labelled.at(x, y)) is Alive && labelled.at(x, y) != TileType::Alive(0)
                &&& forall|l: usize| #![trigger count_cells(&labelled, TileType::Alive(l))] l >= 1
                    ==> count_cells(&labelled, TileType::Alive(l)) <= size
                &&& forall|x: int, y: int| b.in_bounds(x, y) ==> #[trigger] b.at(x, y) == relabel(labelled.at(x, y), keep)
                &&& forall|c1: (int, int), c2: (int, int)| #![trigger labelled.at(c1.0, c1.1), labelled.at(c2.0, c2.1)]
                    labelled.in_bounds(c1.0, c1.1) && labelled.in_bounds(c2.0, c2.1) && a.at(c1.0, c1.1) == TileType::Alive(0)
                    && a.at(c2.0, c2.1) == TileType::Alive(0)
                    ==> (labelled.at(c1.0, c1.1) == labelled.at(c2.0, c2.1) <==> joined(a, TileType::Alive(0), c1, c2, None))
                &&& keep >= 1 ==> count_cells(&labelled, TileType::Alive(keep)) == size
                &&& forall|l: usize| #![trigger count_cells(&labelled, TileType::Alive(l))] 1 <= l < keep
                    ==> count_cells(&labelled, TileType::Alive(l)) < size
                &&& labels_in_scan_order(a, &labelled)
    }
}

/// The labels of `lab` number the caves of `a` in the scan order of their
/// first cells: label `l` sits on a seed cell, every cave cell before that
/// seed in scan order has a smaller label, and no label exceeds the seeds.
pub open spec fn labels_in_scan_order(a: &Array2D<TileType>, lab: &Array2D<TileType>) -> bool {
    exists|seeds: Seq<(int, int)>| #![trigger seeds.len()] {
        &&& forall|i: int, j: int| #![trigger lab.at(i, j)] lab.in_bounds(i, j) && lab.at(i, j) is Alive
            && lab.at(i, j) != TileType::Alive(0) ==> lab.at(i, j)->Alive_0 < seeds.len()
        &&& forall|l: int| #![trigger seeds[l]] 1 <= l < seeds.len() ==> {
            &&& lab.in_bounds(seeds[l].0, seeds[l].1)
            &&& lab.at(seeds[l].0, seeds[l].1) == TileType::Alive(l as usize)
            &&& forall|i: int, j: int| #![trigger lab.at(i, j)] lab.in_bounds(i, j) && scanned(i, j, seeds[l].0, seeds[l].1)
                && a.at(i, j) == TileType::Alive(0) ==> lab.at(i, j) is Alive && lab.at(i, j)->Alive_0 < l
        }
    }
}

/// Labels each cave component, keeps the one the largest fill labelled
/// (the first among equals), turns the others to rock, and returns its size.
pub fn select_largest_cave(map: &mut Array2D<TileType>) -> (size: u32)
    requires
        cave_wf(old(map)),
        forall|x: int, y: int| old(map).in_bounds(x, y) ==> (#[trigger] old(map).at(x, y) == TileType::Alive(0)
            || old(map).at(x, y) == TileType::Dead),
    ensures
        keeps_largest(old(map), final(map), size),
{
    let ghost m0 = *old(map);
    let mut current: usize = 0;
    let mut max_fill_number: usize = 0;
    let mut max_fill_count: u32 = 0;
    let ghost mut seeds: Seq<(int, int)> = seq![(0int, 0int)];
    proof {
        assert forall|l: usize| #![trigger count_cells(map, TileType::Alive(l))] l >= 1
            implies count_cells(map, TileType::Alive(l)) <= max_fill_count by {
            assert forall|i: int, j: int| map.in_bounds(i, j) implies #[trigger] map.at(i, j) != TileType::Alive(l) by {
                assert(m0.at(i, j) == TileType::Alive(0) || m0.at(i, j) == TileType::Dead);
            }
            lemma_count_zero(map, TileType::Alive(l));
        }
    }
    let mut x: i32 = 2;
    while x < MAP_SIZE - 2
        invariant
            m0 == *old(map),
            cave_wf(map),
            2 <= x <= MAP_SIZE - 2,
            current <= 36 * (x - 2),
            max_fill_number <= current,
            max_fill_number == 0 ==> max_fill_count == 0,
            max_fill_number > 0 ==> count_cells(map, TileType::Alive(max_fill_number)) == max_fill_count,
            forall|l: usize| #![trigger count_cells(map, TileType::Alive(l))] l >= 1 ==> count_cells(map, TileType::Alive(l)) <= max_fill_count,
            forall|i: int, j: int| map.in_bounds(i, j) ==> #[trigger] map.at(i, j) == TileType::Dead
                || (m0.at(i, j) == TileType::Alive(0) && map.at(i, j) is Alive && map.at(i, j)->Alive_0 <= current),
            forall|i: int, j: int| map.in_bounds(i, j) && m0.at(i, j) == TileType::Dead ==> #[trigger] map.at(i, j) == TileType::Dead,
            forall|i: int, j: int| map.in_bounds(i, j) && scanned(i, j, x as int, 0) ==> #[trigger] map.at(i, j) != TileType::Alive(0),
            forall|i: int, j: int| map.in_bounds(i, j) && m0.at(i, j) == TileType::Alive(0) ==> (#[trigger] map.at(i, j)) is Alive,
            labels_from(&m0, map),
            labels_consistent(&m0, map),
            cave_wf(&m0),
            seeds.len() == current + 1,
            forall|l: int| #![trigger seeds[l]] 1 <= l < seeds.len() ==> {
                &&& map.in_bounds(seeds[l].0, seeds[l].1)
                &&& map.at(seeds[l].0, seeds[l].1) == TileType::Alive(l as usize)
                &&& forall|i: int, j: int| #![trigger map.at(i, j)] map.in_bounds(i, j) && scanned(i, j, seeds[l].0, seeds[l].1)
                    && m0.at(i, j) == TileType::Alive(0) ==> map.at(i, j) is Alive && 1 <= map.at(i, j)->Alive_0 < l
            },
            forall|i: int, j: int| #![trigger map.at(i, j)] map.in_bounds(i, j) && map.at(i, j) is Alive && map.at(i, j) != TileType::Alive(0)
                ==> map.at(i, j)->Alive_0 < seeds.len() && joined(&m0, TileType::Alive(0), seeds[map.at(i, j)->Alive_0 as int], (i, j), None),
            forall|l: usize| #![trigger count_cells(map, TileType::Alive(l))] 1 <= l < max_fill_number ==> count_cells(map, TileType::Alive(l)) < max_fill_count,
        decreases MAP_SIZE - x,
    {
        let mut y: i32 = 2;
        while y < MAP_SIZE - 2
            invariant
                m0 == *old(map),
                cave_wf(map),
                2 <= x < MAP_SIZE - 2,
                2 <= y <= MAP_SIZE - 2,
                current <= 36 * (x - 2) + (y - 2),
                max_fill_number <= current,
                max_fill_number == 0 ==> max_fill_count == 0,
                max_fill_number > 0 ==> count_cells(map, TileType::Alive(max_fill_number)) == max_fill_count,
                forall|l: usize| #![trigger count_cells(map, TileType::Alive(l))] l >= 1 ==> count_cells(map, TileType::Alive(l)) <= max_fill_count,
                forall|i: int, j: int| map.in_bounds(i, j) ==> #[trigger] map.at(i, j) == TileType::Dead
                    || (m0.at(i, j) == TileType::Alive(0) && map.at(i, j) is Alive && map.at(i, j)->Alive_0 <= current),
                forall|i: int, j: int| map.in_bounds(i, j) && m0.at(i, j) == TileType::Dead ==> #[trigger] map.at(i, j) == TileType::Dead,
                forall|i: int, j: int| map.in_bounds(i, j) && scanned(i, j, x as int, y as int) ==> #[trigger] map.at(i, j) != TileType::Alive(0),
                forall|i: int, j: int| map.in_bounds(i, j) && m0.at(i, j) == TileType::Alive(0) ==> (#[trigger] map.at(i, j)) is Alive,
                labels_from(&m0, map),
                labels_consistent(&m0, map),
                cave_wf(&m0),
                seeds.len() == current + 1,
                forall|l: int| #![trigger seeds[l]] 1 <= l < seeds.len() ==> {
                    &&& map.in_bounds(seeds[l].0, seeds[l].1)
                    &&& map.at(seeds[l].0, seeds[l].1) == TileType::Alive(l as usize)
                    &&& forall|i: int, j: int| #![trigger map.at(i, j)] map.in_bounds(i, j) && scanned(i, j, seeds[l].0, seeds[l].1)
                        && m0.at(i, j) == TileType::Alive(0) ==> map.at(i, j) is Alive && 1 <= map.at(i, j)->Alive_0 < l
                },
                forall|i: int, j: int| #![trigger map.at(i, j)] map.in_bounds(i, j) && map.at(i, j) is Alive && map.at(i, j) != TileType::Alive(0)
                    ==> map.at(i, j)->Alive_0 < seeds.len() && joined(&m0, TileType::Alive(0), seeds[map.at(i, j)->Alive_0 as int], (i, j), None),
                forall|l: usize| #![trigger count_cells(map, TileType::Alive(l))] 1 <= l < max_fill_number ==> count_cells(map, TileType::Alive(l)) < max_fill_count,
            decreases MAP_SIZE - y,
        {
            if map.elems[x as usize][y as usize] == TileType::Alive(0) {
                current = current + 1;
                let ghost before = *map;
                proof {
                    assert forall|i: int, j: int| before.in_bounds(i, j) implies #[trigger] before.at(i, j) != TileType::Alive(current) by {
                        assert(before.at(i, j) == TileType::Dead || before.at(i, j)->Alive_0 <= current - 1);
                    }
                    lemma_count_zero(&before, TileType::Alive(current));
                }
                let count = flood_fill(map, (x, y), TileType::Alive(current), None);
                let ghost old_max = max_fill_number;
                let ghost old_count = max_fill_count;
                proof {
                    let seeds2 = seeds.push((x as int, y as int));
                    assert forall|i: int, j: int| #![trigger map.at(i, j)] map.in_bounds(i, j) && map.at(i, j) is Alive && map.at(i, j) != TileType::Alive(0)
                        implies map.at(i, j)->Alive_0 < seeds2.len()
                        && joined(&m0, TileType::Alive(0), seeds2[map.at(i, j)->Alive_0 as int], (i, j), None) by {
                        if before.at(i, j) == TileType::Alive(0) {
                            assert(map.at(i, j) == TileType::Alive(current));
                            assert(fill_reached(&before, map, TileType::Alive(current), (x, y), (i, j), None));
                            let p = choose|p: Seq<(int, int)>| #[trigger] walk(&before, TileType::Alive(0), p) && walk(map, TileType::Alive(current), p)
                                && p[0] == (x as int, y as int) && p.last() == (i, j) && within(p, None);
                            assert forall|u: int, v: int| before.in_bounds(u, v) && before.at(u, v) == TileType::Alive(0)
                                implies #[trigger] m0.at(u, v) == TileType::Alive(0) by {}
                            lemma_walk_mono(&before, &m0, TileType::Alive(0), p);
                            assert(walk(&m0, TileType::Alive(0), p));
                        } else {
                            assert(map.at(i, j) == before.at(i, j));
                            assert(seeds2[before.at(i, j)->Alive_0 as int] == seeds[before.at(i, j)->Alive_0 as int]);
                        }
                    }
                    assert forall|l: int| #![trigger seeds2[l]] 1 <= l < seeds2.len() implies {
                        &&& map.in_bounds(seeds2[l].0, seeds2[l].1)
                        &&& map.at(seeds2[l].0, seeds2[l].1) == TileType::Alive(l as usize)
                        &&& forall|i: int, j: int| #![trigger map.at(i, j)] map.in_bounds(i, j) && scanned(i, j, seeds2[l].0, seeds2[l].1)
                            && m0.at(i, j) == TileType::Alive(0) ==> map.at(i, j) is Alive && 1 <= map.at(i, j)->Alive_0 < l
                    } by {
                        if l < current {
                            assert(seeds2[l] == seeds[l]);
                            assert(before.at(seeds[l].0, seeds[l].1) == TileType::Alive(l as usize));
                            assert forall|i: int, j: int| #![trigger map.at(i, j)] map.in_bounds(i, j) && scanned(i, j, seeds2[l].0, seeds2[l].1)
                                && m0.at(i, j) == TileType::Alive(0) implies map.at(i, j) is Alive && 1 <= map.at(i, j)->Alive_0 < l by {
                                assert(before.at(i, j) is Alive && 1 <= before.at(i, j)->Alive_0 < l);
                            }
                        } else {
                            assert(seeds2[l] == (x as int, y as int));
                            assert forall|i: int, j: int| #![trigger map.at(i, j)] map.in_bounds(i, j) && scanned(i, j, x as int, y as int)
                                && m0.at(i, j) == TileType::Alive(0) implies map.at(i, j) is Alive && 1 <= map.at(i, j)->Alive_0 < l by {
                                assert(before.at(i, j) != TileType::Alive(0));
                                assert(before.at(i, j) is Alive);
                                assert(before.at(i, j)->Alive_0 <= current - 1);
                            }
                        }
                    }
                    seeds = seeds2;
                    lemma_fill_keeps_labels_consistent(&m0, &before, map, TileType::Alive(current));
                    assert forall|i: int, j: int| map.in_bounds(i, j) && m0.at(i, j) == TileType::Alive(0) implies (#[trigger] map.at(i, j)) is Alive by {
                        assert(before.at(i, j) is Alive);
                    }
                    if max_fill_number > 0 {
                        assert forall|i: int, j: int| before.in_bounds(i, j) implies (#[trigger] before.at(i, j) == TileType::Alive(max_fill_number)
                            <==> map.at(i, j) == TileType::Alive(max_fill_number)) by {}
                        lemma_count_same(&before, map, TileType::Alive(max_fill_number));
                    }
                    assert forall|l: usize| #![trigger count_cells(map, TileType::Alive(l))] l >= 1 && l != current
                        implies count_cells(map, TileType::Alive(l)) == count_cells(&before, TileType::Alive(l)) by {
                        assert forall|i: int, j: int| before.in_bounds(i, j) implies (#[trigger] before.at(i, j) == TileType::Alive(l)
                            <==> map.at(i, j) == TileType::Alive(l)) by {}
                        lemma_count_same(&before, map, TileType::Alive(l));
                    }
                    assert(count_cells(map, TileType::Alive(current)) == count);
                }
                if max_fill_count < count {
                    max_fill_count = count;
                    max_fill_number = current;
                }
                proof {
                    assert forall|l: usize| #![trigger count_cells(map, TileType::Alive(l))] l >= 1
                        implies count_cells(map, TileType::Alive(l)) <= max_fill_count by {
                        if l != current {
                            assert(count_cells(&before, TileType::Alive(l)) <= max_fill_count);
                        }
                    }
                    assert forall|l: usize| #![trigger count_cells(map, TileType::Alive(l))] 1 <= l < max_fill_number
                        implies count_cells(map, TileType::Alive(l)) < max_fill_count by {
                        assert(count_cells(&before, TileType::Alive(l)) <= old_count);
                        if l < old_max {
                            assert(count_cells(&before, TileType::Alive(l)) < old_count);
                        }
                    }
                }
            }
            proof {
                assert forall|i: int, j: int| map.in_bounds(i, j) && scanned(i, j, x as int, y + 1) implies #[trigger] map.at(i, j)
                    != TileType::Alive(0) by {}
            }
            y = y + 1;
        }
        proof {
            assert forall|i: int, j: int| map.in_bounds(i, j) && scanned(i, j, x + 1, 0) implies #[trigger] map.at(i, j)
                != TileType::Alive(0) by {
                assert(scanned(i, j, x as int, MAP_SIZE - 2));
            }
        }
        x = x + 1;
    }
    proof {
        assert forall|i: int, j: int| map.in_bounds(i, j) implies #[trigger] map.at(i, j) != TileType::Alive(0) by {
            if !on_border(i, j) {
                assert(scanned(i, j, MAP_SIZE - 2, 0));
            }
        }
        lemma_count_zero(map, TileType::Alive(0));
    }
    let ghost labelled = *map;
    proof {
        lemma_label_classes(&m0, &labelled, seeds);
        assert(labels_in_scan_order(&m0, &labelled)) by {
            assert(seeds.len() == seeds.len());
        }
        assert forall|i: int, j: int| labelled.in_bounds(i, j) && m0.at(i, j) == TileType::Alive(0)
            implies (#[trigger] labelled.at(i, j)) is Alive && labelled.at(i, j) != TileType::Alive(0) by {
            if !on_border(i, j) {
                assert(scanned(i, j, MAP_SIZE - 2, 0));
            }
        }
    }
    let mut x: i32 = 2;
    while x < MAP_SIZE - 2
        invariant
            m0 == *old(map),
            cave_wf(map),
            2 <= x <= MAP_SIZE - 2,
            count_cells(map, TileType::Alive(0)) + (if max_fill_number > 0 { count_cells(map, TileType::Alive(max_fill_number)) } else { 0 })
                == max_fill_count,
            forall|i: int, j: int| map.in_bounds(i, j) && map.at(i, j) == TileType::Alive(0) ==> #[trigger] m0.at(i, j) == TileType::Alive(0),
            forall|i: int, j: int| map.in_bounds(i, j) ==> #[trigger] map.at(i, j)
                == (if scanned(i, j, x as int, 0) { relabel(labelled.at(i, j), max_fill_number) } else { labelled.at(i, j) }),
            labels_consistent(&m0, &labelled),
            cave_wf(&labelled),
            forall|i: int, j: int| map.in_bounds(i, j) ==> (#[trigger] labelled.at(i, j) == TileType::Dead
                || (m0.at(i, j) == TileType::Alive(0) && labelled.at(i, j) is Alive && labelled.at(i, j) != TileType::Alive(0))),
            max_fill_number == 0 ==> max_fill_count == 0,
        decreases MAP_SIZE - x,
    {
        let mut y: i32 = 2;
        while y < MAP_SIZE - 2
            invariant
                m0 == *old(map),
                cave_wf(map),
                2 <= x < MAP_SIZE - 2,
                2 <= y <= MAP_SIZE - 2,
                count_cells(map, TileType::Alive(0)) + (if max_fill_number > 0 { count_cells(map, TileType::Alive(max_fill_number)) } else { 0 })
                    == max_fill_count,
                forall|i: int, j: int| map.in_bounds(i, j) && map.at(i, j) == TileType::Alive(0) ==> #[trigger] m0.at(i, j) == TileType::Alive(0),
                forall|i: int, j: int| map.in_bounds(i, j) ==> #[trigger] map.at(i, j)
                    == (if scanned(i, j, x as int, y as int) { relabel(labelled.at(i, j), max_fill_number) } else { labelled.at(i, j) }),
                labels_consistent(&m0, &labelled),
                cave_wf(&labelled),
                forall|i: int, j: int| map.in_bounds(i, j) ==> (#[trigger] labelled.at(i, j) == TileType::Dead
                    || (m0.at(i, j) == TileType::Alive(0) && labelled.at(i, j) is Alive && labelled.at(i, j) != TileType::Alive(0))),
                max_fill_number == 0 ==> max_fill_count == 0,
            decreases MAP_SIZE - y,
        {
            let (xu, yu) = (x as usize, y as usize);
            proof {
                assert(map.at(x as int, y as int) == labelled.at(x as int, y as int));
            }
            let ghost before = *map;
            match map.elems[xu][yu] {
                TileType::Alive(fill) => {
                    let next = if fill == max_fill_number { TileType::Alive(0) } else { TileType::Dead };
                    map.elems[xu][yu] = next;
                    proof {
                        lemma_count_set(&before, map, x as int, y as int, next, TileType::Alive(0));
                        if max_fill_number > 0 {
                            lemma_count_set(&before, map, x as int, y as int, next, TileType::Alive(max_fill_number));
                        }
                        assert forall|i: int| 0 <= i < map.elems@.len() implies (#[trigger] map.elems@[i])@.len() == map.height by {
                            if i != x {
                                assert(map.elems@[i] == before.elems@[i]);
                            }
                        }
                        assert forall|i: int, j: int| map.in_bounds(i, j) && (i != x || j != y) implies #[trigger] map.at(i, j)
                            == before.at(i, j) by {
                            if i != x {
                                assert(map.elems@[i] == before.elems@[i]);
                            }
                        }
                    }
                },
                TileType::Dead => {},
            }
            proof {
                assert forall|i: int, j: int| map.in_bounds(i, j) implies #[trigger] map.at(i, j)
                    == (if scanned(i, j, x as int, y + 1) { relabel(labelled.at(i, j), max_fill_number) } else { labelled.at(i, j) }) by {
                    if i != x || j != y {
                        assert(map.at(i, j) == before.at(i, j));
                    }
                }
            }
            y = y + 1;
        }
        proof {
            assert forall|i: int, j: int| map.in_bounds(i, j) implies #[trigger] map.at(i, j)
                == (if scanned(i, j, x + 1, 0) { relabel(labelled.at(i, j), max_fill_number) } else { labelled.at(i, j) }) by {
                assert(scanned(i, j, x + 1, 0) == scanned(i, j, x as int, MAP_SIZE - 2));
            }
        }
        x = x + 1;
    }
    proof {
        if max_fill_number > 0 {
            assert forall|i: int, j: int| map.in_bounds(i, j) implies #[trigger] map.at(i, j) != TileType::Alive(max_fill_number) by {
                if !on_border(i, j) {
                    assert(scanned(i, j, MAP_SIZE - 2, 0));
                }
            }
            lemma_count_zero(map, TileType::Alive(max_fill_number));
        }
        assert forall|i: int, j: int| map.in_bounds(i, j) implies (#[trigger] map.at(i, j) == TileType::Alive(0)
            || map.at(i, j) == TileType::Dead) by {
            if !on_border(i, j) {
                assert(scanned(i, j, MAP_SIZE - 2, 0));
            }
        }
        assert forall|i: int, j: int| map.in_bounds(i, j) implies #[trigger] map.at(i, j) == relabel(labelled.at(i, j), max_fill_number) by {
            if !on_border(i, j) {
                assert(scanned(i, j, MAP_SIZE - 2, 0));
            } else {
                assert(labelled.at(i, j) == TileType::Dead);
            }
        }
        assert(relabel(TileType::Dead, max_fill_number) == TileType::Dead);
        assert(labels_consistent(&m0, &labelled));
        assert forall|i: int, j: int, k: int| #![trigger map.at(i, j), nb_at(&m0, i, j, k)]
            map.in_bounds(i, j) && map.at(i, j) == TileType::Alive(0) && 0 <= k < 4 && nb_at(&m0, i, j, k) == TileType::Alive(0)
            implies nb_at(map, i, j, k) == TileType::Alive(0) by {
            assert(!on_border(i, j));
            assert(scanned(i, j, MAP_SIZE - 2, 0));
            assert(labelled.at(i, j) == TileType::Alive(max_fill_number));
            assert(nb_at(&labelled, i, j, k) == labelled.at(i, j));
            let ni = i + ortho(k).0;
            let nj = j + ortho(k).1;
            assert(labelled.in_bounds(ni, nj));
            assert(!on_border(ni, nj));
            assert(scanned(ni, nj, MAP_SIZE - 2, 0));
        }
    }
    max_fill_count
}


/// Cell `(x, y)` of `m` holds zone label `k`.
pub open spec fn has_zone(m: &Array2D<TileType>, k: usize) -> bool {
    exists|x: int, y: int| m.in_bounds(x, y) && #[trigger] m.at(x, y) == TileType::Alive(k)
}

/// What `split_into_zones` makes of `a`: `b` labels its cave cells with zones
/// 1 to `zones`, each used, each joined to its seed within `ZONE_RADIUS` steps
/// through its own cells.
pub open spec fn splits_zones(a: &Array2D<TileType>, b: &Array2D<TileType>, zones: usize) -> bool {
    &&& cave_wf(b)
    &&& zones <= 36 * 36
    &&& forall|x: int, y: int| b.in_bounds(x, y) ==> #[trigger] b.at(x, y) == (if a.at(x, y) == TileType::Dead {
                TileType::Dead } else { b.at(x, y) })
    &&& forall|x: int, y: int| b.in_bounds(x, y) && a.at(x, y) != TileType::Dead ==> #[trigger] b.at(x, y) is Alive
                && 1 <= b.at(x, y)->Alive_0 <= zones
    &&& forall|k: usize| 1 <= k <= zones ==> #[trigger] has_zone(b, k)
    &&& exists|seeds: Seq<(int, int)>| #![trigger seeds.len()] {
                &&& seeds.len() == zones + 1
                &&& forall|x: int, y: int| #![trigger b.at(x, y)] b.in_bounds(x, y) && b.at(x, y) is Alive
                    ==> joined(b, b.at(x, y), seeds[b.at(x, y)->Alive_0 as int], (x, y), Some(ZONE_RADIUS))
                &&& forall|k: int| #![trigger seeds[k]] 1 <= k <= zones ==> {
                    &&& b.at(seeds[k].0, seeds[k].1) == TileType::Alive(k as usize)
                    &&& forall|i: int, j: int| a.in_bounds(i, j) && scanned(i, j, seeds[k].0, seeds[k].1) && a.at(i, j) == TileType::Alive(0)
                        ==> (#[trigger] b.at(i, j))->Alive_0 < k
                    &&& forall|i: int, j: int| a.in_bounds(i, j) && a.at(i, j) == TileType::Alive(0)
                        ==> (#[trigger] b.at(i, j) == TileType::Alive(k as usize) <==> zone_reach(a, b, k, seeds[k], (i, j)))
                }
    }
}


/// `p` walks orthogonally through cells that are cave in `a` and carry zone
/// `k` or a later one in `b`: the cells still unlabelled when zone `k` was
/// seeded.
pub open spec fn free_walk(a: &Array2D<TileType>, b: &Array2D<TileType>, k: int, p: Seq<(int, int)>) -> bool {
    &&& p.len() >= 1
    &&& forall|i: int| 0 <= i < p.len() ==> a.in_bounds((#[trigger] p[i]).0, p[i].1) && a.at(p[i].0, p[i].1) == TileType::Alive(0)
        && b.at(p[i].0, p[i].1) is Alive && b.at(p[i].0, p[i].1)->Alive_0 >= k
    &&& forall|i: int| 0 <= i < p.len() - 1 ==> adjacent(#[trigger] p[i], p[i + 1])
}

/// `c` lies within `ZONE_RADIUS` steps of `s` through cells still
/// unlabelled when zone `k` was seeded.
pub open spec fn zone_reach(a: &Array2D<TileType>, b: &Array2D<TileType>, k: int, s: (int, int), c: (int, int)) -> bool {
    exists|p: Seq<(int, int)>| #[trigger] free_walk(a, b, k, p) && p[0] == s && p.last() == c && p.len() - 1 <= ZONE_RADIUS
}

/// The zoning of `m0` so far, as `m`: `maps[k]` is the grid before zone `k`
/// was filled from `seeds[k]`, and zone `k` is what the capped fill reached
/// from there.
pub open spec fn zone_history(m0: &Array2D<TileType>, m: &Array2D<TileType>, maps: Seq<Array2D<TileType>>,
    seeds: Seq<(int, int)>, n: int) -> bool {
    &&& maps.len() == n + 1
    &&& seeds.len() == n + 1
    &&& forall|k: int| #![trigger maps[k]] 1 <= k <= n ==> {
        &&& maps[k].wf()
        &&& maps[k].same_shape(m0)
        &&& m0.in_bounds(seeds[k].0, seeds[k].1)
        &&& maps[k].at(seeds[k].0, seeds[k].1) == TileType::Alive(0)
        &&& forall|i: int, j: int| #![trigger maps[k].at(i, j)] m0.in_bounds(i, j) ==> (maps[k].at(i, j) == TileType::Alive(0)
            <==> (m0.at(i, j) == TileType::Alive(0) && (m.at(i, j) == TileType::Alive(0) || m.at(i, j)->Alive_0 >= k)))
        &&& forall|i: int, j: int| #![trigger m.at(i, j)] m0.in_bounds(i, j) ==> (m.at(i, j) == TileType::Alive(k as usize)
            <==> joined(&maps[k], TileType::Alive(0), seeds[k], (i, j), Some(ZONE_RADIUS)))
        &&& forall|i: int, j: int| #![trigger maps[k].at(i, j)] m0.in_bounds(i, j) && scanned(i, j, seeds[k].0, seeds[k].1)
            ==> maps[k].at(i, j) != TileType::Alive(0)
    }
}

proof fn lemma_zone_step(m0: &Array2D<TileType>, before: &Array2D<TileType>, after: &Array2D<TileType>,
    maps: Seq<Array2D<TileType>>, seeds: Seq<(int, int)>, n: int, x: i32, y: i32)
    requires
        0 <= n < 36 * 36,
        cave_wf(m0),
        cave_wf(before),
        cave_wf(after),
        zone_history(m0, before, maps, seeds, n),
        before.in_bounds(x as int, y as int),
        before.at(x as int, y as int) == TileType::Alive(0),
        forall|i: int, j: int| before.in_bounds(i, j) && scanned(i, j, x as int, y as int) ==> #[trigger] before.at(i, j) != TileType::Alive(0),
        forall|i: int, j: int| before.in_bounds(i, j) ==> #[trigger] before.at(i, j) == TileType::Dead
            || (m0.at(i, j) == TileType::Alive(0) && before.at(i, j) is Alive && before.at(i, j)->Alive_0 <= n),
        forall|i: int, j: int| before.in_bounds(i, j) && m0.at(i, j) == TileType::Alive(0) ==> (#[trigger] before.at(i, j)) is Alive,
        filled_from(before, after, TileType::Alive((n + 1) as usize)),
        forall|i: int, j: int| before.in_bounds(i, j) && after.at(i, j) == TileType::Alive((n + 1) as usize)
            && before.at(i, j) != TileType::Alive((n + 1) as usize)
            ==> #[trigger] fill_reached(before, after, TileType::Alive((n + 1) as usize), (x, y), (i, j), Some(ZONE_RADIUS)),
        forall|i: int, j: int| #[trigger] joined(before, TileType::Alive(0), (x as int, y as int), (i, j), Some(ZONE_RADIUS))
            ==> after.at(i, j) == TileType::Alive((n + 1) as usize),
    ensures
        zone_history(m0, after, maps.push(*before), seeds.push((x as int, y as int)), n + 1),
{
    let f = TileType::Alive((n + 1) as usize);
    assert(f->Alive_0 == n + 1);
    let maps2 = maps.push(*before);
    let seeds2 = seeds.push((x as int, y as int));
    assert forall|i: int, j: int| before.in_bounds(i, j) implies #[trigger] before.at(i, j) != f by {
        assert(before.at(i, j) == TileType::Dead || before.at(i, j)->Alive_0 <= n);
    }
    assert forall|k: int| #![trigger maps2[k]] 1 <= k <= n + 1 implies {
        &&& maps2[k].wf()
        &&& maps2[k].same_shape(m0)
        &&& m0.in_bounds(seeds2[k].0, seeds2[k].1)
        &&& maps2[k].at(seeds2[k].0, seeds2[k].1) == TileType::Alive(0)
        &&& forall|i: int, j: int| #![trigger maps2[k].at(i, j)] m0.in_bounds(i, j) ==> (maps2[k].at(i, j) == TileType::Alive(0)
            <==> (m0.at(i, j) == TileType::Alive(0) && (after.at(i, j) == TileType::Alive(0) || after.at(i, j)->Alive_0 >= k)))
        &&& forall|i: int, j: int| #![trigger after.at(i, j)] m0.in_bounds(i, j) ==> (after.at(i, j) == TileType::Alive(k as usize)
            <==> joined(&maps2[k], TileType::Alive(0), seeds2[k], (i, j), Some(ZONE_RADIUS)))
        &&& forall|i: int, j: int| #![trigger maps2[k].at(i, j)] m0.in_bounds(i, j) && scanned(i, j, seeds2[k].0, seeds2[k].1)
            ==> maps2[k].at(i, j) != TileType::Alive(0)
    } by {
        if k <= n {
            assert(maps2[k] == maps[k] && seeds2[k] == seeds[k]);
            assert forall|i: int, j: int| #![trigger maps2[k].at(i, j)] m0.in_bounds(i, j) implies (maps2[k].at(i, j) == TileType::Alive(0)
                <==> (m0.at(i, j) == TileType::Alive(0) && (after.at(i, j) == TileType::Alive(0) || after.at(i, j)->Alive_0 >= k))) by {
                assert(maps[k].at(i, j) == TileType::Alive(0)
                    <==> (m0.at(i, j) == TileType::Alive(0) && (before.at(i, j) == TileType::Alive(0) || before.at(i, j)->Alive_0 >= k)));
                assert(after.at(i, j) == before.at(i, j) || (before.at(i, j) == TileType::Alive(0) && after.at(i, j) == f));
            }
            assert forall|i: int, j: int| #![trigger after.at(i, j)] m0.in_bounds(i, j) implies (after.at(i, j) == TileType::Alive(k as usize)
                <==> joined(&maps2[k], TileType::Alive(0), seeds2[k], (i, j), Some(ZONE_RADIUS))) by {
                assert(before.at(i, j) == TileType::Alive(k as usize)
                    <==> joined(&maps[k], TileType::Alive(0), seeds[k], (i, j), Some(ZONE_RADIUS)));
                assert(after.at(i, j) == before.at(i, j) || (before.at(i, j) == TileType::Alive(0) && after.at(i, j) == f));
            }
            assert forall|i: int, j: int| #![trigger maps2[k].at(i, j)] m0.in_bounds(i, j) && scanned(i, j, seeds2[k].0, seeds2[k].1)
                implies maps2[k].at(i, j) != TileType::Alive(0) by {
                assert(maps[k].at(i, j) != TileType::Alive(0));
            }
        } else {
            assert(maps2[k] == *before && seeds2[k] == (x as int, y as int));
            assert forall|i: int, j: int| #![trigger maps2[k].at(i, j)] m0.in_bounds(i, j) implies (maps2[k].at(i, j) == TileType::Alive(0)
                <==> (m0.at(i, j) == TileType::Alive(0) && (after.at(i, j) == TileType::Alive(0) || after.at(i, j)->Alive_0 >= k))) by {
                assert(after.at(i, j) == before.at(i, j) || (before.at(i, j) == TileType::Alive(0) && after.at(i, j) == f));
                assert(before.at(i, j) == TileType::Dead
                    || (m0.at(i, j) == TileType::Alive(0) && before.at(i, j) is Alive && before.at(i, j)->Alive_0 <= n));
            }
            assert forall|i: int, j: int| #![trigger after.at(i, j)] m0.in_bounds(i, j) implies (after.at(i, j) == TileType::Alive(k as usize)
                <==> joined(&maps2[k], TileType::Alive(0), seeds2[k], (i, j), Some(ZONE_RADIUS))) by {
                if after.at(i, j) == f {
                    assert(fill_reached(before, after, f, (x, y), (i, j), Some(ZONE_RADIUS)));
                    let p = choose|p: Seq<(int, int)>| #[trigger] walk(before, TileType::Alive(0), p) && walk(after, f, p)
                        && p[0] == (x as int, y as int) && p.last() == (i, j) && within(p, Some(ZONE_RADIUS));
                    assert(walk(before, TileType::Alive(0), p));
                }
                if joined(before, TileType::Alive(0), (x as int, y as int), (i, j), Some(ZONE_RADIUS)) {
                    assert(after.at(i, j) == f);
                }
            }
        }
    }
}

/// With no unlabelled cave left, the history gives each zone exactly: it is
/// seeded on the first cell in scan order not in an earlier zone, and holds
/// exactly the cells within `ZONE_RADIUS` steps of the seed through cells not
/// in earlier zones.
proof fn lemma_zone_exact(m0: &Array2D<TileType>, b: &Array2D<TileType>, maps: Seq<Array2D<TileType>>,
    seeds: Seq<(int, int)>, n: int, k: int)
    requires
        zone_history(m0, b, maps, seeds, n),
        1 <= k <= n,
        b.same_shape(m0),
        forall|i: int, j: int| m0.in_bounds(i, j) && m0.at(i, j) == TileType::Alive(0) ==> (#[trigger] b.at(i, j)) is Alive
            && b.at(i, j) != TileType::Alive(0),
    ensures
        b.at(seeds[k].0, seeds[k].1) == TileType::Alive(k as usize),
        forall|i: int, j: int| m0.in_bounds(i, j) && scanned(i, j, seeds[k].0, seeds[k].1) && m0.at(i, j) == TileType::Alive(0)
            ==> (#[trigger] b.at(i, j))->Alive_0 < k,
        forall|i: int, j: int| m0.in_bounds(i, j) && m0.at(i, j) == TileType::Alive(0)
            ==> (#[trigger] b.at(i, j) == TileType::Alive(k as usize) <==> zone_reach(m0, b, k, seeds[k], (i, j))),
{
    let mk = maps[k];
    assert(mk.at(seeds[k].0, seeds[k].1) == TileType::Alive(0));
    let one = seq![seeds[k]];
    assert(walk(&mk, TileType::Alive(0), one));
    assert(joined(&mk, TileType::Alive(0), seeds[k], seeds[k], Some(ZONE_RADIUS)));
    assert(b.at(seeds[k].0, seeds[k].1) == TileType::Alive(k as usize));
    assert forall|i: int, j: int| m0.in_bounds(i, j) && scanned(i, j, seeds[k].0, seeds[k].1) && m0.at(i, j) == TileType::Alive(0)
        implies (#[trigger] b.at(i, j))->Alive_0 < k by {
        assert(mk.at(i, j) != TileType::Alive(0));
    }
    assert forall|i: int, j: int| m0.in_bounds(i, j) && m0.at(i, j) == TileType::Alive(0)
        implies (#[trigger] b.at(i, j) == TileType::Alive(k as usize) <==> zone_reach(m0, b, k, seeds[k], (i, j))) by {
        if b.at(i, j) == TileType::Alive(k as usize) {
            assert(joined(&mk, TileType::Alive(0), seeds[k], (i, j), Some(ZONE_RADIUS)));
            let p = choose|p: Seq<(int, int)>| #[trigger] walk(&mk, TileType::Alive(0), p) && p[0] == seeds[k] && p.last() == (i, j)
                && within(p, Some(ZONE_RADIUS));
            assert forall|u: int| 0 <= u < p.len() implies m0.in_bounds((#[trigger] p[u]).0, p[u].1) && m0.at(p[u].0, p[u].1) == TileType::Alive(0)
                && b.at(p[u].0, p[u].1) is Alive && b.at(p[u].0, p[u].1)->Alive_0 >= k by {
                assert(mk.at(p[u].0, p[u].1) == TileType::Alive(0));
            }
            assert(free_walk(m0, b, k, p));
        }
        if zone_reach(m0, b, k, seeds[k], (i, j)) {
            let p = choose|p: Seq<(int, int)>| #[trigger] free_walk(m0, b, k, p) && p[0] == seeds[k] && p.last() == (i, j)
                && p.len() - 1 <= ZONE_RADIUS;
            assert forall|u: int| 0 <= u < p.len() implies mk.in_bounds((#[trigger] p[u]).0, p[u].1) && mk.at(p[u].0, p[u].1) == TileType::Alive(0) by {
                assert(m0.in_bounds(p[u].0, p[u].1));
            }
            assert(walk(&mk, TileType::Alive(0), p));
            assert(joined(&mk, TileType::Alive(0), seeds[k], (i, j), Some(ZONE_RADIUS)));
        }
    }
}

/// Splits the cave into zones: from each still unlabelled cave cell, in
/// scan order, labels with the next zone number what lies within
/// `ZONE_RADIUS` steps. Returns the number of zones; every cave cell then
/// holds a label from 1 to that number, and each such label is used.
pub fn split_into_zones(map: &mut Array2D<TileType>) -> (zones: usize)
    requires
        cave_wf(old(map)),
        forall|x: int, y: int| old(map).in_bounds(x, y) ==> (#[trigger] old(map).at(x, y) == TileType::Alive(0)
            || old(map).at(x, y) == TileType::Dead),
    ensures
        splits_zones(old(map), final(map), zones),
{
    let ghost m0 = *old(map);
    let mut current: usize = 0;
    let ghost mut seeds: Seq<(int, int)> = seq![(0int, 0int)];
    let ghost mut maps: Seq<Array2D<TileType>> = seq![m0];
    let mut x: i32 = 2;
    while x < MAP_SIZE - 2
        invariant
            m0 == *old(map),
            cave_wf(map),
            2 <= x <= MAP_SIZE - 2,
            current <= 36 * (x - 2),
            forall|i: int, j: int| map.in_bounds(i, j) ==> #[trigger] map.at(i, j) == TileType::Dead
                || (m0.at(i, j) == TileType::Alive(0) && map.at(i, j) is Alive && map.at(i, j)->Alive_0 <= current),
            forall|i: int, j: int| map.in_bounds(i, j) && m0.at(i, j) == TileType::Dead ==> #[trigger] map.at(i, j) == TileType::Dead,
            forall|i: int, j: int| map.in_bounds(i, j) && scanned(i, j, x as int, 0) ==> #[trigger] map.at(i, j) != TileType::Alive(0),
            forall|k: usize| 1 <= k <= current ==> #[trigger] has_zone(map, k),
            forall|i: int, j: int| map.in_bounds(i, j) && m0.at(i, j) == TileType::Alive(0) ==> #[trigger] map.at(i, j) is Alive,
            seeds.len() == current + 1,
            zone_history(&m0, map, maps, seeds, current as int),
            cave_wf(&m0),
            forall|i: int, j: int| #![trigger map.at(i, j)] map.in_bounds(i, j) && map.at(i, j) is Alive && map.at(i, j) != TileType::Alive(0)
                ==> map.at(i, j)->Alive_0 < seeds.len() && joined(map, map.at(i, j), seeds[map.at(i, j)->Alive_0 as int], (i, j), Some(ZONE_RADIUS)),
        decreases MAP_SIZE - x,
    {
        let mut y: i32 = 2;
        while y < MAP_SIZE - 2
            invariant
                m0 == *old(map),
                cave_wf(map),
                2 <= x < MAP_SIZE - 2,
                2 <= y <= MAP_SIZE - 2,
                current <= 36 * (x - 2) + (y - 2),
                forall|i: int, j: int| map.in_bounds(i, j) ==> #[trigger] map.at(i, j) == TileType::Dead
                    || (m0.at(i, j) == TileType::Alive(0) && map.at(i, j) is Alive && map.at(i, j)->Alive_0 <= current),
                forall|i: int, j: int| map.in_bounds(i, j) && m0.at(i, j) == TileType::Dead ==> #[trigger] map.at(i, j) == TileType::Dead,
                forall|i: int, j: int| map.in_bounds(i, j) && scanned(i, j, x as int, y as int) ==> #[trigger] map.at(i, j) != TileType::Alive(0),
                forall|k: usize| 1 <= k <= current ==> #[trigger] has_zone(map, k),
                forall|i: int, j: int| map.in_bounds(i, j) && m0.at(i, j) == TileType::Alive(0) ==> #[trigger] map.at(i, j) is Alive,
                seeds.len() == current + 1,
                zone_history(&m0, map, maps, seeds, current as int),
                cave_wf(&m0),
                forall|i: int, j: int| #![trigger map.at(i, j)] map.in_bounds(i, j) && map.at(i, j) is Alive && map.at(i, j) != TileType::Alive(0)
                    ==> map.at(i, j)->Alive_0 < seeds.len() && joined(map, map.at(i, j), seeds[map.at(i, j)->Alive_0 as int], (i, j), Some(ZONE_RADIUS)),
            decreases MAP_SIZE - y,
        {
            if map.elems[x as usize][y as usize] == TileType::Alive(0) {
                current = current + 1;
                let ghost before = *map;
                proof {
                    assert forall|i: int, j: int| before.in_bounds(i, j) implies #[trigger] before.at(i, j) != TileType::Alive(current) by {
                        assert(before.at(i, j) == TileType::Dead || before.at(i, j)->Alive_0 <= current - 1);
                    }
                }
                flood_fill(map, (x, y), TileType::Alive(current), Some(ZONE_RADIUS));
                proof {
                    assert(before.at(x as int, y as int) == TileType::Alive(0));
                    lemma_zone_step(&m0, &before, map, maps, seeds, current - 1, x, y);
                    maps = maps.push(before);
                    let seeds2 = seeds.push((x as int, y as int));
                    assert forall|i: int, j: int| #![trigger map.at(i, j)] map.in_bounds(i, j) && map.at(i, j) is Alive && map.at(i, j) != TileType::Alive(0)
                        implies map.at(i, j)->Alive_0 < seeds2.len()
                        && joined(map, map.at(i, j), seeds2[map.at(i, j)->Alive_0 as int], (i, j), Some(ZONE_RADIUS)) by {
                        if before.at(i, j) == TileType::Alive(0) {
                            assert(map.at(i, j) == TileType::Alive(current));
                            assert(fill_reached(&before, map, TileType::Alive(current), (x, y), (i, j), Some(ZONE_RADIUS)));
                        } else {
                            let l = before.at(i, j);
                            assert(map.at(i, j) == l);
                            let p = choose|p: Seq<(int, int)>| #[trigger] walk(&before, l, p) && p[0] == seeds[l->Alive_0 as int]
                                && p.last() == (i, j) && within(p, Some(ZONE_RADIUS));
                            assert forall|u: int, v: int| before.in_bounds(u, v) && before.at(u, v) == l implies #[trigger] map.at(u, v) == l by {}
                            lemma_walk_mono(&before, map, l, p);
                            assert(seeds2[l->Alive_0 as int] == seeds[l->Alive_0 as int]);
                        }
                    }
                    seeds = seeds2;
                    assert(map.at(x as int, y as int) == TileType::Alive(current));
                    assert forall|k: usize| 1 <= k <= current implies #[trigger] has_zone(map, k) by {
                        if k < current {
                            assert(has_zone(&before, k));
                            let (i, j) = choose|i: int, j: int| before.in_bounds(i, j) && #[trigger] before.at(i, j) == TileType::Alive(k);
                            assert(map.at(i, j) == TileType::Alive(k));
                        }
                    }
                }
            }
            proof {
                assert forall|i: int, j: int| map.in_bounds(i, j) && scanned(i, j, x as int, y + 1) implies #[trigger] map.at(i, j)
                    != TileType::Alive(0) by {}
            }
            y = y + 1;
        }
        proof {
            assert forall|i: int, j: int| map.in_bounds(i, j) && scanned(i, j, x + 1, 0) implies #[trigger] map.at(i, j)
                != TileType::Alive(0) by {
                assert(scanned(i, j, x as int, MAP_SIZE - 2));
            }
        }
        x = x + 1;
    }
    proof {
        assert forall|x: int, y: int| #![trigger map.at(x, y)] map.in_bounds(x, y) && map.at(x, y) is Alive
            implies joined(map, map.at(x, y), seeds[map.at(x, y)->Alive_0 as int], (x, y), Some(ZONE_RADIUS)) by {
            if !on_border(x, y) {
                assert(scanned(x, y, MAP_SIZE - 2, 0));
            }
        }
        assert(seeds.len() == current + 1);
        assert forall|k: int| #![trigger seeds[k]] 1 <= k <= current implies {
            &&& map.at(seeds[k].0, seeds[k].1) == TileType::Alive(k as usize)
            &&& forall|i: int, j: int| m0.in_bounds(i, j) && scanned(i, j, seeds[k].0, seeds[k].1) && m0.at(i, j) == TileType::Alive(0)
                ==> (#[trigger] map.at(i, j))->Alive_0 < k
            &&& forall|i: int, j: int| m0.in_bounds(i, j) && m0.at(i, j) == TileType::Alive(0)
                ==> (#[trigger] map.at(i, j) == TileType::Alive(k as usize) <==> zone_reach(&m0, map, k, seeds[k], (i, j)))
        } by {
            assert forall|i: int, j: int| m0.in_bounds(i, j) && m0.at(i, j) == TileType::Alive(0) implies (#[trigger] map.at(i, j)) is Alive
                && map.at(i, j) != TileType::Alive(0) by {
                if !on_border(i, j) {
                    assert(scanned(i, j, MAP_SIZE - 2, 0));
                }
            }
            lemma_zone_exact(&m0, map, maps, seeds, current as int, k);
        }
        assert forall|i: int, j: int| map.in_bounds(i, j) && m0.at(i, j) != TileType::Dead implies #[trigger] map.at(i, j) is Alive
            && 1 <= map.at(i, j)->Alive_0 <= current by {
            if !on_border(i, j) {
                assert(scanned(i, j, MAP_SIZE - 2, 0));
            }
        }
    }
    current
}


pub open spec fn alive_col(c: Seq<TileType>) -> nat
    decreases c.len(),
{
    if c.len() == 0 { 0 } else { alive_col(c.drop_last()) + (if c.last() is Alive { 1nat } else { 0nat }) }
}

pub open spec fn alive_grid(g: Seq<Vec<TileType>>) -> nat
    decreases g.len(),
{
    if g.len() == 0 { 0 } else { alive_grid(g.drop_last()) + alive_col(g.last()@) }
}

/// Number of cave cells of `m`, whatever their labels.
pub open spec fn cave_size(m: &Array2D<TileType>) -> nat {
    alive_grid(m.elems@)
}

proof fn lemma_alive_col(a: Seq<TileType>, b: Seq<TileType>, v: TileType)
    requires
        a.len() == b.len(),
        forall|i: int| 0 <= i < a.len() ==> (a[i] is Alive <==> b[i] == v),
    ensures
        alive_col(a) == count_col(b, v),
    decreases a.len(),
{
    if a.len() > 0 {
        lemma_alive_col(a.drop_last(), b.drop_last(), v);
    }
}

proof fn lemma_alive_grid(a: Seq<Vec<TileType>>, b: Seq<Vec<TileType>>, v: TileType)
    requires
        a.len() == b.len(),
        forall|i: int| 0 <= i < a.len() ==> (#[trigger] a[i])@.len() == b[i]@.len(),
        forall|i: int, j: int| 0 <= i < a.len() && 0 <= j < a[i]@.len() ==> (a[i]@[j] is Alive <==> b[i]@[j] == v),
    ensures
        alive_grid(a) == count_grid(b, v),
    decreases a.len(),
{
    if a.len() > 0 {
        lemma_alive_grid(a.drop_last(), b.drop_last(), v);
        let n = a.len() - 1;
        assert forall|j: int| 0 <= j < a[n]@.len() implies (a[n]@[j] is Alive <==> b[n]@[j] == v) by {}
        lemma_alive_col(a[n]@, b[n]@, v);
    }
}

/// Where `a` has cave cells `b` holds `v`, and only there: `a` has as many
/// cave cells as `b` holds `v`.
proof fn lemma_cave_size(a: &Array2D<TileType>, b: &Array2D<TileType>, v: TileType)
    requires
        a.wf(),
        b.wf(),
        a.same_shape(b),
        forall|x: int, y: int| a.in_bounds(x, y) ==> (#[trigger] a.at(x, y) is Alive <==> b.at(x, y) == v),
    ensures
        cave_size(a) == count_cells(b, v),
{
    assert forall|i: int, j: int| 0 <= i < a.elems@.len() && 0 <= j < a.elems@[i]@.len()
        implies (a.elems@[i]@[j] is Alive <==> b.elems@[i]@[j] == v) by {
        assert(a.in_bounds(i, j));
        assert(a.at(i, j) is Alive <==> b.at(i, j) == v);
    }
    lemma_alive_grid(a.elems@, b.elems@, v);
}

/// An accepted cave: its cells labelled by zone, its size, and its number of zones.
pub struct CaveLayout {
    pub tiles: Array2D<TileType>,
    pub size: u32,
    pub zones: usize,
}

impl CaveLayout {
    /// The layout is a generation grid whose cave cells carry zone labels
    /// from 1 to `zones`, each label used, with `size` cave cells.
    pub open spec fn wf(&self) -> bool {
        &&& cave_wf(&self.tiles)
        &&& self.zones <= 36 * 36
        &&& cave_size(&self.tiles) == self.size
        &&& forall|x: int, y: int| self.tiles.in_bounds(x, y) && (#[trigger] self.tiles.at(x, y)) is Alive
            ==> 1 <= self.tiles.at(x, y)->Alive_0 <= self.zones
        &&& forall|k: usize| 1 <= k <= self.zones ==> #[trigger] has_zone(&self.tiles, k)
    }
}

/// Smooths a seeded grid and judges it: the largest cave is kept alone, and
/// the grid is accepted when that cave's size lies within `range` and it
/// splits into at least `MIN_ZONES` zones.
pub fn try_cave(tile_map: Array2D<TileType>, range: (u32, u32)) -> (r: Option<CaveLayout>)
    requires
        cave_wf(&tile_map),
        forall|x: int, y: int| tile_map.in_bounds(x, y) ==> (#[trigger] tile_map.at(x, y) == TileType::Alive(0)
            || tile_map.at(x, y) == TileType::Dead),
    ensures
        r matches Some(l) ==> l.wf() && range.0 <= l.size <= range.1 && l.zones >= MIN_ZONES,
        exists|smoothed: Array2D<TileType>, kept: Array2D<TileType>, size: u32| #![trigger keeps_largest(&smoothed, &kept, size)] {
            &&& cave_wf(&smoothed)
            &&& grid_view(&smoothed) == ca_iterate(grid_view(&tile_map), ITERATIONS as nat)
            &&& keeps_largest(&smoothed, &kept, size)
            &&& !(range.0 <= size <= range.1) ==> r is None
            &&& range.0 <= size <= range.1 ==> exists|zoned: Array2D<TileType>, zones: usize| #![trigger splits_zones(&kept, &zoned, zones)] {
                &&& splits_zones(&kept, &zoned, zones)
                &&& (r is Some <==> zones >= MIN_ZONES)
                &&& r matches Some(l) ==> l.tiles == zoned && l.size == size && l.zones == zones
            }
        },
{
    let mut tile_map = tile_map;
    cellular_automata_steps(&mut tile_map, ITERATIONS);
    let ghost smoothed = tile_map;
    let size = select_largest_cave(&mut tile_map);
    let ghost kept = tile_map;
    if size < range.0 || size > range.1 {
        proof {
            assert(keeps_largest(&smoothed, &kept, size));
        }
        return None;
    }
    let zones = split_into_zones(&mut tile_map);
    let ghost zoned = tile_map;
    proof {
        assert(keeps_largest(&smoothed, &kept, size));
        assert(splits_zones(&kept, &zoned, zones));
    }
    if zones < MIN_ZONES {
        return None;
    }
    let layout = CaveLayout { tiles: tile_map, size, zones };
    proof {
        lemma_cave_size(&layout.tiles, &kept, TileType::Alive(0));
    }
    Some(layout)
}

/// Generates caves until one is accepted (see `try_cave`), from grids
/// seeded at random. Gives up after `attempts` tries.
pub fn generate_cave(range: (u32, u32), attempts: u32) -> (r: Option<CaveLayout>)
    ensures
        r matches Some(l) ==> l.wf() && range.0 <= l.size <= range.1 && l.zones >= MIN_ZONES,
        attempts == 0 ==> r is None,
{
    let mut attempt: u32 = 0;
    while attempt < attempts
        invariant
            0 <= attempt <= attempts,
        decreases attempts - attempt,
    {
        attempt = attempt + 1;
        let tile_map = get_random_map();
        match try_cave(tile_map, range) {
            Some(layout) => return Some(layout),
            None => {},
        }
    }
    None
}

} // verus!
