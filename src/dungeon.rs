//! The simulation state of one floor, its invariants, and the structural
//! operations that keep them.
use vstd::prelude::*;
use crate::entity::{Entity, EntityRecord};
use crate::grid::GridPosition;
use crate::progression::{AppState, GameData, Logs};
use crate::world_map::WorldMap;

verus! {

/// Turn order: the front acts next.
pub struct InitiativeOrder(pub Vec<Entity>);

impl InitiativeOrder {
    /// Removes `e`, keeping the order of the others.
    pub fn remove_entity(&mut self, e: Entity)
        requires
            old(self).0@.no_duplicates(),
        ensures
            final(self).0@.no_duplicates(),
            old(self).0@.contains(e) ==> exists|i: int| 0 <= i < old(self).0@.len()
                && old(self).0@[i] == e && final(self).0@ == old(self).0@.remove(i),
            !old(self).0@.contains(e) ==> final(self).0@ == old(self).0@,
            forall|v: Entity| #[trigger] final(self).0@.contains(v) <==> (old(self).0@.contains(v) && v != e),
    {
        let ghost q = old(self).0@;
        let n = self.0.len();
        let mut i: usize = 0;
        let mut found = false;
        while i < n && !found
            invariant
                self == old(self),
                q == self.0@,
                n == q.len(),
                0 <= i <= n,
                found ==> i < n && q[i as int] == e,
                !found ==> forall|m: int| 0 <= m < i ==> q[m] != e,
            decreases n - i + (if found { 0int } else { 1int }),
        {
            if self.0[i] == e {
                found = true;
            } else {
                i = i + 1;
            }
        }
        if found {
            self.0.remove(i);
            proof {
                let t = self.0@;
                assert forall|a: int| 0 <= a < t.len() implies #[trigger] t[a] == q[if a < i { a } else { a + 1 }] by {}
                assert forall|a: int, b: int| 0 <= a < t.len() && 0 <= b < t.len() && a != b implies t[a] != t[b] by {
                    assert(t[a] == q[if a < i { a } else { a + 1 }]);
                    assert(t[b] == q[if b < i { b } else { b + 1 }]);
                }
                assert forall|v: Entity| #[trigger] t.contains(v) <==> (q.contains(v) && v != e) by {
                    if t.contains(v) {
                        let a = choose|a: int| 0 <= a < t.len() && t[a] == v;
                        assert(t[a] == q[if a < i { a } else { a + 1 }]);
                    }
                    if q.contains(v) && v != e {
                        let b = choose|b: int| 0 <= b < q.len() && q[b] == v;
                        if b < i {
                            assert(t[b] == v);
                        } else {
                            assert(b != i);
                            assert(t[b - 1] == v);
                        }
                    }
                }
            }
        }
    }
}

/// Everything the simulation of one floor reads and writes.
pub struct Dungeon {
    pub entities: Vec<EntityRecord>,
    pub map: WorldMap,
    pub order: InitiativeOrder,
    /// The entity that holds the initiative this turn.
    pub current: Option<Entity>,
    pub data: GameData,
    pub logs: Logs,
    pub state: AppState,
}

impl Dungeon {
    pub open spec fn live(&self, e: int) -> bool {
        0 <= e < self.entities@.len() && self.entities@[e].alive
    }

    pub open spec fn rec(&self, e: int) -> EntityRecord {
        self.entities@[e]
    }

    /// `e` is alive and stands at `(x, y)`.
    pub open spec fn placed_at(&self, e: int, x: int, y: int) -> bool {
        self.live(e) && self.entities@[e].position == Some(GridPosition::at(x, y))
    }

    /// Every positioned entity is listed in exactly the cell of its position.
    pub open spec fn occupancy_ok(&self) -> bool {
        &&& forall|x: int, y: int, i: int|
            self.map.in_bounds(x, y) && 0 <= i < self.map.occupants(x, y).len()
                ==> self.placed_at(#[trigger] self.map.occupants(x, y)[i] as int, x, y)
        &&& forall|x: int, y: int| self.map.in_bounds(x, y) ==> (#[trigger] self.map.occupants(x, y)).no_duplicates()
        &&& forall|e: int| #![trigger self.entities@[e]]
            self.live(e) && self.entities@[e].position is Some ==> {
                let p = self.entities@[e].position->0;
                self.map.in_bounds(p.x as int, p.y as int) && self.map.occupants(p.x as int, p.y as int).contains(e as usize)
            }
    }

    /// `e` has a health component at or below zero: it has been killed and
    /// awaits removal.
    pub open spec fn dying(&self, e: int) -> bool {
        self.entities@[e].health matches Some(h) && h.current <= 0
    }

    /// `e` is alive and not dying.
    pub open spec fn active(&self, e: int) -> bool {
        self.live(e) && !self.dying(e)
    }

    /// `e` is an actor (player or enemy) that is alive and not dying.
    pub open spec fn living_actor(&self, e: int) -> bool {
        self.active(e) && self.entities@[e].kind.spec_is_actor()
    }

    /// The turn order holds each actor at most once, only actors that are
    /// alive, and every living actor.
    pub open spec fn initiative_ok(&self) -> bool {
        &&& self.order.0@.no_duplicates()
        &&& forall|i: int| 0 <= i < self.order.0@.len() ==> {
            let e = #[trigger] self.order.0@[i];
            self.live(e as int) && self.entities@[e as int].kind.spec_is_actor()
        }
        &&& forall|e: int| #![trigger self.entities@[e]]
            self.living_actor(e) ==> self.order.0@.contains(e as usize)
    }

    /// No alive entity is dying: what holds between turns.
    pub open spec fn settled(&self) -> bool {
        forall|e: int| #![trigger self.entities@[e]] self.live(e) ==> !self.dying(e)
    }

    /// No living entity has more hit points than its maximum.
    pub open spec fn health_ok(&self) -> bool {
        forall|e: int| #![trigger self.entities@[e]]
            self.live(e) && self.entities@[e].health is Some ==> self.entities@[e].health->0.current
                <= self.entities@[e].health->0.max
    }

    pub open spec fn wf(&self) -> bool {
        &&& self.map.wf()
        &&& self.data.wf()
        &&& self.logs.wf()
        &&& self.occupancy_ok()
        &&& self.initiative_ok()
        &&& self.health_ok()
    }

    /// `b` differs from `a` at most in what the invariants do not read.
    pub open spec fn same_layout(a: &Dungeon, b: &Dungeon) -> bool {
        &&& b.map.entities == a.map.entities
        &&& b.map.tiles.wf()
        &&& b.map.tiles.same_shape(&a.map.tiles)
        &&& b.order == a.order
        &&& b.entities@.len() == a.entities@.len()
        &&& forall|e: int| 0 <= e < a.entities@.len() ==> {
            &&& (#[trigger] b.entities@[e]).alive == a.entities@[e].alive
            &&& b.entities@[e].position == a.entities@[e].position
            &&& b.entities@[e].kind == a.entities@[e].kind
            &&& a.dying(e) ==> b.dying(e)
        }
    }

    pub proof fn lemma_same_layout(a: &Dungeon, b: &Dungeon)
        requires
            a.wf(),
            Self::same_layout(a, b),
            b.data.wf(),
            b.logs.wf(),
            b.health_ok(),
        ensures
            b.wf(),
    {
        assert forall|x: int, y: int, i: int|
            b.map.in_bounds(x, y) && 0 <= i < b.map.occupants(x, y).len()
                implies b.placed_at(#[trigger] b.map.occupants(x, y)[i] as int, x, y) by {
            assert(a.placed_at(a.map.occupants(x, y)[i] as int, x, y));
        }
        assert forall|e: int| #![trigger b.entities@[e]]
            b.live(e) && b.entities@[e].position is Some implies {
                let p = b.entities@[e].position->0;
                b.map.in_bounds(p.x as int, p.y as int) && b.map.occupants(p.x as int, p.y as int).contains(e as usize)
            } by {
            assert(a.entities@[e].alive);
        }
        assert forall|i: int| 0 <= i < b.order.0@.len() implies {
            let e = #[trigger] b.order.0@[i];
            b.live(e as int) && b.entities@[e as int].kind.spec_is_actor()
        } by {
            let e = a.order.0@[i];
            assert(a.live(e as int));
        }
        assert forall|e: int| #![trigger b.entities@[e]]
            b.living_actor(e) implies b.order.0@.contains(e as usize) by {
            assert(a.entities@[e].alive);
        }
    }

    /// Takes `e` off the map if it stands on it.
    pub fn take_off_map(&mut self, e: Entity)
        requires
            old(self).wf(),
        ensures
            !old(self).live(e as int) ==> final(self).map == old(self).map,
            final(self).wf(),
            final(self).entities@.len() == old(self).entities@.len(),
            forall|k: int| 0 <= k < old(self).entities@.len() && k != e ==> #[trigger] final(self).entities@[k]
                == old(self).entities@[k],
            (e as int) < old(self).entities@.len() ==> final(self).entities@[e as int] == (EntityRecord {
                position: if old(self).live(e as int) { None } else { old(self).entities@[e as int].position },
                ..old(self).entities@[e as int]
            }),
            final(self).map.tiles == old(self).map.tiles,
            final(self).map.stairs == old(self).map.stairs,
            final(self).order == old(self).order,
            final(self).current == old(self).current,
            final(self).data == old(self).data,
            final(self).logs == old(self).logs,
            final(self).state == old(self).state,
    {
        if e >= self.entities.len() || !self.entities[e].alive {
            return;
        }
        let p = match self.entities[e].position {
            Some(p) => p,
            None => return,
        };
        let ghost old_self = *old(self);
        let ghost (px, py) = (p.x as int, p.y as int);
        assert(old_self.map.occupants(px, py).no_duplicates());
        self.map.remove_occupant(e, p.x as usize, p.y as usize);
        self.entities[e].position = None;
        proof {
            let s = &*self;
            assert forall|x: int, y: int, i: int|
                s.map.in_bounds(x, y) && 0 <= i < s.map.occupants(x, y).len()
                    implies s.placed_at(#[trigger] s.map.occupants(x, y)[i] as int, x, y) by {
                let v = s.map.occupants(x, y)[i];
                if x == px && y == py {
                    assert(old_self.map.occupants(x, y).contains(v));
                    let j = choose|j: int| 0 <= j < old_self.map.occupants(x, y).len() && old_self.map.occupants(x, y)[j] == v;
                    assert(old_self.placed_at(old_self.map.occupants(x, y)[j] as int, x, y));
                    assert(s.map.occupants(x, y).contains(v));
                } else {
                    assert(old_self.placed_at(old_self.map.occupants(x, y)[i] as int, x, y));
                }
            }
            assert forall|x: int, y: int| s.map.in_bounds(x, y) implies (#[trigger] s.map.occupants(x, y)).no_duplicates() by {
                if x != px || y != py {
                    assert(old_self.map.occupants(x, y) == s.map.occupants(x, y));
                }
            }
            assert forall|k: int| #![trigger s.entities@[k]]
                s.live(k) && s.entities@[k].position is Some implies {
                    let q = s.entities@[k].position->0;
                    s.map.in_bounds(q.x as int, q.y as int) && s.map.occupants(q.x as int, q.y as int).contains(k as usize)
                } by {
                assert(old_self.entities@[k] == s.entities@[k]);
                let q = s.entities@[k].position->0;
                if q.x as int == px && q.y as int == py {
                    assert(old_self.map.occupants(px, py).contains(k as usize));
                } else {
                    assert(s.map.occupants(q.x as int, q.y as int) == old_self.map.occupants(q.x as int, q.y as int));
                }
            }
            assert forall|i: int| 0 <= i < s.order.0@.len() implies {
                let k = #[trigger] s.order.0@[i];
                s.live(k as int) && s.entities@[k as int].kind.spec_is_actor()
            } by {
                assert(old_self.live(old_self.order.0@[i] as int));
            }
            assert forall|k: int| #![trigger s.entities@[k]]
                s.living_actor(k) implies s.order.0@.contains(k as usize) by {
                assert(old_self.entities@[k].alive);
            }
            assert forall|k: int| #![trigger s.entities@[k]]
                s.live(k) && s.entities@[k].health is Some implies s.entities@[k].health->0.current
                    <= s.entities@[k].health->0.max by {
                assert(old_self.entities@[k].alive);
            }
        }
    }

    /// Places `e` at `p` if it is alive, off the map, and `p` is on the map.
    pub fn put_on_map(&mut self, e: Entity, p: GridPosition)
        requires
            old(self).wf(),
        ensures
            !old(self).live(e as int) ==> final(self).map == old(self).map,
            final(self).wf(),
            final(self).entities@.len() == old(self).entities@.len(),
            forall|k: int| 0 <= k < old(self).entities@.len() && k != e ==> #[trigger] final(self).entities@[k]
                == old(self).entities@[k],
            (e as int) < old(self).entities@.len() ==> final(self).entities@[e as int] == (EntityRecord {
                position: if old(self).live(e as int) && old(self).entities@[e as int].position is None
                    && old(self).map.in_bounds(p.x as int, p.y as int) { Some(p) } else {
                    old(self).entities@[e as int].position },
                ..old(self).entities@[e as int]
            }),
            forall|x: int, y: int| old(self).map.in_bounds(x, y) ==> #[trigger] final(self).map.occupants(x, y)
                == (if old(self).live(e as int) && old(self).entities@[e as int].position is None
                    && old(self).map.in_bounds(p.x as int, p.y as int) && x == p.x && y == p.y {
                    old(self).map.occupants(x, y).push(e) } else { old(self).map.occupants(x, y) }),
            final(self).map.tiles == old(self).map.tiles,
            final(self).map.stairs == old(self).map.stairs,
            final(self).order == old(self).order,
            final(self).current == old(self).current,
            final(self).data == old(self).data,
            final(self).logs == old(self).logs,
            final(self).state == old(self).state,
    {
        if e >= self.entities.len() || !self.entities[e].alive || self.entities[e].position.is_some() {
            return;
        }
        let (w, h) = self.map.tiles.size();
        if p.x < 0 || p.y < 0 || p.x as usize >= w || p.y as usize >= h {
            return;
        }
        let ghost old_self = *old(self);
        let ghost (px, py) = (p.x as int, p.y as int);
        proof {
            if old_self.map.occupants(px, py).contains(e) {
                let j = choose|j: int| 0 <= j < old_self.map.occupants(px, py).len() && old_self.map.occupants(px, py)[j] == e;
                assert(old_self.placed_at(old_self.map.occupants(px, py)[j] as int, px, py));
            }
        }
        self.map.push_occupant(e, p.x as usize, p.y as usize);
        self.entities[e].position = Some(p);
        proof {
            let s = &*self;
            assert forall|x: int, y: int, i: int|
                s.map.in_bounds(x, y) && 0 <= i < s.map.occupants(x, y).len()
                    implies s.placed_at(#[trigger] s.map.occupants(x, y)[i] as int, x, y) by {
                if x == px && y == py {
                    if i < old_self.map.occupants(x, y).len() {
                        assert(old_self.placed_at(old_self.map.occupants(x, y)[i] as int, x, y));
                    }
                } else {
                    assert(old_self.placed_at(old_self.map.occupants(x, y)[i] as int, x, y));
                }
            }
            assert forall|x: int, y: int| s.map.in_bounds(x, y) implies (#[trigger] s.map.occupants(x, y)).no_duplicates() by {
                if x != px || y != py {
                    assert(old_self.map.occupants(x, y) == s.map.occupants(x, y));
                } else {
                    assert(old_self.map.occupants(x, y).no_duplicates());
                    let t = s.map.occupants(x, y);
                    assert forall|a: int, b: int| 0 <= a < t.len() && 0 <= b < t.len() && a != b implies t[a] != t[b] by {
                        let n = old_self.map.occupants(x, y).len() as int;
                        if a == n {
                            assert(old_self.map.occupants(x, y).contains(t[b]));
                        }
                        if b == n {
                            assert(old_self.map.occupants(x, y).contains(t[a]));
                        }
                    }
                }
            }
            assert forall|k: int| #![trigger s.entities@[k]]
                s.live(k) && s.entities@[k].position is Some implies {
                    let q = s.entities@[k].position->0;
                    s.map.in_bounds(q.x as int, q.y as int) && s.map.occupants(q.x as int, q.y as int).contains(k as usize)
                } by {
                if k == e {
                    let n = old_self.map.occupants(px, py).len() as int;
                    assert(s.map.occupants(px, py)[n] == e);
                } else {
                    assert(old_self.entities@[k] == s.entities@[k]);
                    let q = s.entities@[k].position->0;
                    if q.x as int == px && q.y as int == py {
                        let t = old_self.map.occupants(px, py);
                        let j = choose|j: int| 0 <= j < t.len() && t[j] == k as usize;
                        assert(s.map.occupants(px, py)[j] == k as usize);
                    } else {
                        assert(s.map.occupants(q.x as int, q.y as int) == old_self.map.occupants(q.x as int, q.y as int));
                    }
                }
            }
            assert forall|i: int| 0 <= i < s.order.0@.len() implies {
                let k = #[trigger] s.order.0@[i];
                s.live(k as int) && s.entities@[k as int].kind.spec_is_actor()
            } by {
                assert(old_self.live(old_self.order.0@[i] as int));
            }
            assert forall|k: int| #![trigger s.entities@[k]]
                s.living_actor(k) implies s.order.0@.contains(k as usize) by {
                assert(old_self.entities@[k].alive);
            }
            assert forall|k: int| #![trigger s.entities@[k]]
                s.live(k) && s.entities@[k].health is Some implies s.entities@[k].health->0.current
                    <= s.entities@[k].health->0.max by {
                assert(old_self.entities@[k].alive);
            }
        }
    }


    /// Takes `e`, which is not a living actor, out of the turn order; it no
    /// longer holds the initiative.
    pub fn remove_from_order(&mut self, e: Entity)
        requires
            old(self).wf(),
            !old(self).living_actor(e as int),
        ensures
            final(self).wf(),
            old(self).order.0@.contains(e) ==> exists|i: int| 0 <= i < old(self).order.0@.len()
                && old(self).order.0@[i] == e && final(self).order.0@ == old(self).order.0@.remove(i),
            !old(self).order.0@.contains(e) ==> final(self).order.0@ == old(self).order.0@,
            final(self).current == (if old(self).current == Some(e) { None } else { old(self).current }),
            final(self).entities == old(self).entities,
            final(self).map == old(self).map,
            final(self).data == old(self).data,
            final(self).logs == old(self).logs,
            final(self).state == old(self).state,
    {
        let ghost old_self = *old(self);
        self.order.remove_entity(e);
        if self.current == Some(e) {
            self.current = None;
        }
        proof {
            let s = &*self;
            assert forall|a: int| 0 <= a < s.order.0@.len() implies {
                let k = #[trigger] s.order.0@[a];
                s.live(k as int) && s.entities@[k as int].kind.spec_is_actor()
            } by {
                let k = s.order.0@[a];
                assert(s.order.0@.contains(k));
                assert(old_self.order.0@.contains(k));
                let b = choose|b: int| 0 <= b < old_self.order.0@.len() && old_self.order.0@[b] == k;
                assert(old_self.live(old_self.order.0@[b] as int));
            }
            assert forall|k: int| #![trigger s.entities@[k]]
                s.living_actor(k) implies s.order.0@.contains(k as usize) by {
                assert(s.entities@ == old_self.entities@);
                assert(old_self.living_actor(k));
                assert(k != e as int);
                assert(s.entities.len() == s.entities@.len());
                assert((k as usize) as int == k);
                assert(old_self.order.0@.contains(k as usize));
                assert(s.order.0@.contains(k as usize));
            }
        }
    }

    /// Kills `e`: takes it off the map and out of the turn order.
    pub fn despawn(&mut self, e: Entity)
        requires
            old(self).wf(),
        ensures
            !old(self).live(e as int) ==> final(self).map == old(self).map,
            final(self).wf(),
            final(self).entities@.len() == old(self).entities@.len(),
            forall|k: int| 0 <= k < old(self).entities@.len() && k != e ==> #[trigger] final(self).entities@[k]
                == old(self).entities@[k],
            (e as int) < old(self).entities@.len() ==> final(self).entities@[e as int] == (EntityRecord {
                position: if old(self).live(e as int) { None } else { old(self).entities@[e as int].position },
                alive: false,
                ..old(self).entities@[e as int]
            }),
            !final(self).order.0@.contains(e),
            forall|v: Entity| #[trigger] final(self).order.0@.contains(v) <==> (old(self).order.0@.contains(v) && v != e),
            old(self).order.0@.contains(e) ==> exists|i: int| 0 <= i < old(self).order.0@.len()
                && old(self).order.0@[i] == e && final(self).order.0@ == old(self).order.0@.remove(i),
            !old(self).order.0@.contains(e) ==> final(self).order.0@ == old(self).order.0@,
            final(self).map.tiles == old(self).map.tiles,
            final(self).map.stairs == old(self).map.stairs,
            final(self).current == (if old(self).current == Some(e) { None } else { old(self).current }),
            final(self).data == old(self).data,
            final(self).logs == old(self).logs,
            final(self).state == old(self).state,
    {
        if e >= self.entities.len() {
            if self.current == Some(e) {
                self.current = None;
            }
            proof {
                if old(self).order.0@.contains(e) {
                    let b = choose|b: int| 0 <= b < old(self).order.0@.len() && old(self).order.0@[b] == e;
                    assert(old(self).live(old(self).order.0@[b] as int));
                }
            }
            return;
        }
        self.take_off_map(e);
        let ghost mid = *self;
        self.order.remove_entity(e);
        self.entities[e].alive = false;
        if self.current == Some(e) {
            self.current = None;
        }
        proof {
            let s = &*self;
            assert forall|x: int, y: int, i: int|
                s.map.in_bounds(x, y) && 0 <= i < s.map.occupants(x, y).len()
                    implies s.placed_at(#[trigger] s.map.occupants(x, y)[i] as int, x, y) by {
                assert(mid.placed_at(mid.map.occupants(x, y)[i] as int, x, y));
            }
            assert forall|k: int| #![trigger s.entities@[k]]
                s.live(k) && s.entities@[k].position is Some implies {
                    let q = s.entities@[k].position->0;
                    s.map.in_bounds(q.x as int, q.y as int) && s.map.occupants(q.x as int, q.y as int).contains(k as usize)
                } by {
                assert(mid.entities@[k] == s.entities@[k]);
            }
            assert forall|a: int| 0 <= a < s.order.0@.len() implies {
                let k = #[trigger] s.order.0@[a];
                s.live(k as int) && s.entities@[k as int].kind.spec_is_actor()
            } by {
                let k = s.order.0@[a];
                assert(s.order.0@.contains(k));
                let b = choose|b: int| 0 <= b < mid.order.0@.len() && mid.order.0@[b] == k;
                assert(mid.live(mid.order.0@[b] as int));
            }
            assert forall|k: int| #![trigger s.entities@[k]]
                s.living_actor(k) implies s.order.0@.contains(k as usize) by {
                assert(mid.entities@[k] == s.entities@[k]);
                assert(mid.order.0@.contains(k as usize));
            }
            assert forall|k: int| #![trigger s.entities@[k]]
                s.live(k) && s.entities@[k].health is Some implies s.entities@[k].health->0.current
                    <= s.entities@[k].health->0.max by {
                assert(mid.entities@[k] == s.entities@[k]);
            }
        }
    }

    /// An empty floor on `map`, with the given progress.
    pub fn new(map: WorldMap, data: GameData) -> (r: Dungeon)
        requires
            map.wf(),
            data.wf(),
            forall|x: int, y: int| map.in_bounds(x, y) ==> (#[trigger] map.occupants(x, y)).len() == 0,
        ensures
            r.wf(),
            r.settled(),
            r.entities@.len() == 0,
            r.order.0@.len() == 0,
            r.current is None,
            r.map == map,
            r.data == data,
            r.logs.entries@.len() == 0,
            r.state == AppState::DungeonCrawl(crate::progression::TurnState::WorldUpdate),
    {
        Dungeon {
            entities: Vec::new(),
            map,
            order: InitiativeOrder(Vec::new()),
            current: None,
            data,
            logs: Logs::new(),
            state: AppState::DungeonCrawl(crate::progression::TurnState::WorldUpdate),
        }
    }

    /// Adds `rec` as a new entity: on the map at its position, if it has
    /// one, and at the back of the turn order if it is an actor.
    pub fn spawn(&mut self, rec: EntityRecord) -> (e: Entity)
        requires
            old(self).wf(),
            old(self).entities@.len() < usize::MAX,
            rec.alive,
            rec.position matches Some(p) ==> old(self).map.in_bounds(p.x as int, p.y as int),
            rec.health matches Some(h) ==> 0 < h.current <= h.max,
        ensures
            final(self).wf(),
            old(self).settled() ==> final(self).settled(),
            e == old(self).entities@.len(),
            final(self).entities@ == old(self).entities@.push(rec),
            final(self).order.0@ == (if rec.kind.spec_is_actor() { old(self).order.0@.push(e) } else { old(self).order.0@ }),
            final(self).map.tiles == old(self).map.tiles,
            final(self).map.stairs == old(self).map.stairs,
            forall|x: int, y: int| old(self).map.in_bounds(x, y) ==> #[trigger] final(self).map.occupants(x, y)
                == (if rec.position == Some(GridPosition::at(x, y)) { old(self).map.occupants(x, y).push(e) } else {
                    old(self).map.occupants(x, y) }),
            final(self).current == old(self).current,
            final(self).data == old(self).data,
            final(self).logs == old(self).logs,
            final(self).state == old(self).state,
    {
        let ghost o = *old(self);
        let e = self.entities.len();
        self.entities.push(EntityRecord { position: None, ..rec });
        if rec.kind.is_actor() {
            self.order.0.push(e);
        }
        proof {
            let s = &*self;
            assert forall|x: int, y: int, i: int|
                s.map.in_bounds(x, y) && 0 <= i < s.map.occupants(x, y).len()
                    implies s.placed_at(#[trigger] s.map.occupants(x, y)[i] as int, x, y) by {
                assert(o.placed_at(o.map.occupants(x, y)[i] as int, x, y));
            }
            assert forall|k: int| #![trigger s.entities@[k]]
                s.live(k) && s.entities@[k].position is Some implies {
                    let q = s.entities@[k].position->0;
                    s.map.in_bounds(q.x as int, q.y as int) && s.map.occupants(q.x as int, q.y as int).contains(k as usize)
                } by {
                assert(k != e);
                assert(o.entities@[k] == s.entities@[k]);
            }
            assert(!o.order.0@.contains(e)) by {
                if o.order.0@.contains(e) {
                    let b = choose|b: int| 0 <= b < o.order.0@.len() && o.order.0@[b] == e;
                    assert(o.live(o.order.0@[b] as int));
                }
            }
            assert forall|i: int| 0 <= i < s.order.0@.len() implies {
                let k = #[trigger] s.order.0@[i];
                s.live(k as int) && s.entities@[k as int].kind.spec_is_actor()
            } by {
                if i < o.order.0@.len() {
                    assert(s.order.0@[i] == o.order.0@[i]);
                    assert(o.live(o.order.0@[i] as int));
                }
            }
            assert forall|k: int| #![trigger s.entities@[k]]
                s.living_actor(k) implies s.order.0@.contains(k as usize) by {
                if k == e as int {
                    assert(s.order.0@[s.order.0@.len() - 1] == e);
                } else {
                    assert(o.entities@[k] == s.entities@[k]);
                    assert(o.order.0@.contains(k as usize));
                    let b = choose|b: int| 0 <= b < o.order.0@.len() && o.order.0@[b] == k as usize;
                    assert(s.order.0@[b] == k as usize);
                }
            }
            assert forall|k: int| #![trigger s.entities@[k]]
                s.live(k) && s.entities@[k].health is Some implies s.entities@[k].health->0.current
                    <= s.entities@[k].health->0.max by {
                if k != e as int {
                    assert(o.entities@[k] == s.entities@[k]);
                }
            }
            assert(s.order.0@.no_duplicates()) by {
                if rec.kind.spec_is_actor() {
                    let t = s.order.0@;
                    assert forall|a: int, b: int| 0 <= a < t.len() && 0 <= b < t.len() && a != b implies t[a] != t[b] by {
                        if a < o.order.0@.len() && b < o.order.0@.len() {
                            assert(t[a] == o.order.0@[a] && t[b] == o.order.0@[b]);
                        } else if a < o.order.0@.len() {
                            assert(t[a] == o.order.0@[a]);
                            assert(o.order.0@.contains(t[a]));
                        } else if b < o.order.0@.len() {
                            assert(t[b] == o.order.0@[b]);
                            assert(o.order.0@.contains(t[b]));
                        }
                    }
                }
            }
            assert(s.order.0@ == (if rec.kind.spec_is_actor() { o.order.0@.push(e) } else { o.order.0@ }));
        }
        let ghost mid = *self;
        if let Some(p) = rec.position {
            self.put_on_map(e, p);
            proof {
                assert(self.entities@ =~= o.entities@.push(rec));
            }
        } else {
            proof {
                assert(self.entities@ =~= o.entities@.push(rec));
            }
        }
        proof {
            assert forall|x: int, y: int| o.map.in_bounds(x, y) implies #[trigger] self.map.occupants(x, y)
                == (if rec.position == Some(GridPosition::at(x, y)) { o.map.occupants(x, y).push(e) } else {
                    o.map.occupants(x, y) }) by {
                assert(mid.map.occupants(x, y) == o.map.occupants(x, y));
                if let Some(p) = rec.position {
                    assert(mid.live(e as int) && mid.entities@[e as int].position is None);
                    assert((rec.position == Some(GridPosition::at(x, y))) == (x == p.x && y == p.y));
                }
            }
            if o.settled() {
                assert forall|k: int| #![trigger self.entities@[k]] self.live(k) implies !self.dying(k) by {
                    if k != e as int {
                        assert(self.entities@[k] == o.entities@[k]);
                    }
                }
            }
        }
        e
    }
}

} // verus!
