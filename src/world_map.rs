//! The map: who occupies each cell, and what each cell currently permits.
use vstd::prelude::*;
use crate::entity::Entity;
use crate::grid::{Array2D, GridPosition};

verus! {

/// Bound on the width and the height of a map.
pub const MAP_LIMIT: usize = 1000000;

/// The flags of one cell. They are derived from the cell's occupants once
/// per turn, except `explored`, which accumulates.
#[derive(Clone, Copy, Debug, PartialEq, Eq, Structural)]
pub struct TileFlags {
    pub blocks_movement: bool,
    pub blocks_vision: bool,
    pub in_view: bool,
    pub explored: bool,
    pub blocks_pathfinding: bool,
}

impl TileFlags {
    pub open spec fn spec_empty() -> TileFlags {
        TileFlags {
            blocks_movement: false,
            blocks_vision: false,
            in_view: false,
            explored: false,
            blocks_pathfinding: false,
        }
    }

    pub fn empty() -> (r: TileFlags)
        ensures
            r == Self::spec_empty(),
    {
        TileFlags {
            blocks_movement: false,
            blocks_vision: false,
            in_view: false,
            explored: false,
            blocks_pathfinding: false,
        }
    }
}

impl Default for TileFlags {
    fn default() -> (r: TileFlags)
        ensures
            r == TileFlags::spec_empty(),
    {
        TileFlags::empty()
    }
}

/// The cells of the current floor.
pub struct WorldMap {
    pub entities: Array2D<Vec<Entity>>,
    pub tiles: Array2D<TileFlags>,
    pub stairs: GridPosition,
}

impl WorldMap {
    pub open spec fn wf(&self) -> bool {
        &&& self.entities.wf()
        &&& self.tiles.wf()
        &&& self.entities.same_shape(&self.tiles)
        &&& self.tiles.width() <= MAP_LIMIT
        &&& self.tiles.height <= MAP_LIMIT
    }

    pub open spec fn in_bounds(&self, x: int, y: int) -> bool {
        self.tiles.in_bounds(x, y)
    }

    pub open spec fn occupants(&self, x: int, y: int) -> Seq<Entity> {
        self.entities.at(x, y)@
    }

    pub open spec fn flags(&self, x: int, y: int) -> TileFlags {
        self.tiles.at(x, y)
    }

    /// An empty map of the given size.
    pub fn new(width: i32, height: i32, stairs: GridPosition) -> (r: WorldMap)
        requires
            0 <= width <= MAP_LIMIT,
            0 <= height <= MAP_LIMIT,
        ensures
            r.wf(),
            r.tiles.width() == width,
            r.tiles.height == height,
            r.stairs == stairs,
            forall|x: int, y: int| r.in_bounds(x, y) ==> r.occupants(x, y).len() == 0 && r.flags(x, y)
                == TileFlags::spec_empty(),
    {
        let tiles = Array2D::with_elem(width, height, TileFlags::empty());
        let mut elems: Vec<Vec<Vec<Entity>>> = Vec::new();
        let mut i: i32 = 0;
        while i < width
            invariant
                height >= 0,
                0 <= i <= width,
                elems@.len() == i,
                forall|k: int| 0 <= k < i ==> (#[trigger] elems@[k])@.len() == height,
                forall|k: int, j: int| 0 <= k < i && 0 <= j < height ==> elems@[k]@[j]@.len() == 0,
            decreases width - i,
        {
            let mut col: Vec<Vec<Entity>> = Vec::new();
            let mut j: i32 = 0;
            while j < height
                invariant
                    height >= 0,
                    0 <= j <= height,
                    col@.len() == j,
                    forall|k: int| 0 <= k < j ==> (#[trigger] col@[k])@.len() == 0,
                decreases height - j,
            {
                col.push(Vec::new());
                j = j + 1;
            }
            elems.push(col);
            i = i + 1;
        }
        WorldMap { entities: Array2D { elems, height: height as usize }, tiles, stairs }
    }

    /// Appends `e` to the occupants of `(x, y)`.
    pub fn push_occupant(&mut self, e: Entity, x: usize, y: usize)
        requires
            old(self).wf(),
            old(self).in_bounds(x as int, y as int),
        ensures
            final(self).wf(),
            final(self).tiles == old(self).tiles,
            final(self).stairs == old(self).stairs,
            final(self).occupants(x as int, y as int) == old(self).occupants(x as int, y as int).push(e),
            forall|i: int, j: int| final(self).in_bounds(i, j) && (i != x || j != y)
                ==> final(self).occupants(i, j) == old(self).occupants(i, j),
    {
        self.entities.elems[x][y].push(e);
        assert forall|i: int| 0 <= i < self.entities.elems@.len() implies (#[trigger] self.entities.elems@[i])@.len()
            == self.entities.height by {
            if i != x {
                assert(self.entities.elems@[i] == old(self).entities.elems@[i]);
            }
        }
    }

    /// Removes `e` from the occupants of `(x, y)`, if it is there; says whether it was.
    pub fn remove_occupant(&mut self, e: Entity, x: usize, y: usize) -> (found: bool)
        requires
            old(self).wf(),
            old(self).in_bounds(x as int, y as int),
            old(self).occupants(x as int, y as int).no_duplicates(),
        ensures
            final(self).wf(),
            final(self).tiles == old(self).tiles,
            final(self).stairs == old(self).stairs,
            found == old(self).occupants(x as int, y as int).contains(e),
            final(self).occupants(x as int, y as int).no_duplicates(),
            forall|v: Entity| #[trigger] final(self).occupants(x as int, y as int).contains(v)
                <==> (old(self).occupants(x as int, y as int).contains(v) && v != e),
            forall|k: int| 0 <= k < final(self).occupants(x as int, y as int).len()
                ==> old(self).occupants(x as int, y as int).contains(#[trigger] final(self).occupants(x as int, y as int)[k]),
            forall|i: int, j: int| final(self).in_bounds(i, j) && (i != x || j != y)
                ==> final(self).occupants(i, j) == old(self).occupants(i, j),
    {
        let ghost s = old(self).occupants(x as int, y as int);
        let n = self.entities.elems[x][y].len();
        let mut k: usize = 0;
        while k < n
            invariant
                self == old(self),
                old(self).wf(),
                old(self).in_bounds(x as int, y as int),
                s == self.occupants(x as int, y as int),
                n == s.len(),
                s.no_duplicates(),
                0 <= k <= n,
                forall|m: int| 0 <= m < k ==> s[m] != e,
            decreases n - k,
        {
            if self.entities.elems[x][y][k] == e {
                self.entities.elems[x][y].swap_remove(k);
                proof {
                    let t = self.occupants(x as int, y as int);
                    assert(t == s.update(k as int, s.last()).drop_last());
                    assert forall|v: Entity| #[trigger] t.contains(v) <==> (s.contains(v) && v != e) by {
                        if t.contains(v) {
                            let m = choose|m: int| 0 <= m < t.len() && t[m] == v;
                            if m == k {
                                assert(v == s[s.len() - 1]);
                                assert(s.len() - 1 != k);
                            } else {
                                assert(v == s[m]);
                            }
                        }
                        if s.contains(v) && v != e {
                            let m = choose|m: int| 0 <= m < s.len() && s[m] == v;
                            assert(m != k);
                            if m == s.len() - 1 {
                                assert(t[k as int] == v);
                            } else {
                                assert(t[m] == v);
                            }
                        }
                    }
                    assert forall|a: int, b: int| 0 <= a < t.len() && 0 <= b < t.len() && a != b implies t[a] != t[b] by {
                        let ia = if a == k { s.len() - 1 } else { a };
                        let ib = if b == k { s.len() - 1 } else { b };
                        assert(t[a] == s[ia]);
                        assert(t[b] == s[ib]);
                    }
                    assert forall|m: int| 0 <= m < t.len() implies s.contains(#[trigger] t[m]) by {
                        if m == k {
                            assert(t[m] == s[s.len() - 1]);
                        } else {
                            assert(t[m] == s[m]);
                        }
                    }
                    assert forall|i: int| 0 <= i < self.entities.elems@.len() implies (#[trigger] self.entities.elems@[i])@.len()
                        == self.entities.height by {
                        if i != x {
                            assert(self.entities.elems@[i] == old(self).entities.elems@[i]);
                        }
                    }
                }
                return true;
            }
            k = k + 1;
        }
        proof {
            assert(!s.contains(e));
        }
        false
    }
}

} // verus!
