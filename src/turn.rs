//! The turn scheduler: recomputing the map's flags, advancing the
//! initiative, and the forced wait of paralyzed actors.
use vstd::prelude::*;
use crate::dungeon::Dungeon;
use crate::events::Ev;
use crate::control::{PlayerInput, enemy_intent, players_turn, player_control_effect};
use crate::progression::{AppState, TurnState};
use crate::world_map::TileFlags;
use crate::grid::Array2D;
use crate::fov::{first_player_from, fov_circle_spec, fov_marks, FOV_RADIUS};
use crate::entity::{Entity, EntityRecord};

verus! {

impl Dungeon {
    /// Some occupant of `(x, y)` blocks movement.
    pub open spec fn occupant_blocks_movement(&self, x: int, y: int) -> bool {
        exists|i: int| 0 <= i < self.map.occupants(x, y).len()
            && (#[trigger] self.entities@[self.map.occupants(x, y)[i] as int]).blocks_movement
    }

    /// Some occupant of `(x, y)` blocks vision.
    pub open spec fn occupant_blocks_vision(&self, x: int, y: int) -> bool {
        exists|i: int| 0 <= i < self.map.occupants(x, y).len()
            && (#[trigger] self.entities@[self.map.occupants(x, y)[i] as int]).blocks_vision
    }

    /// Some occupant of `(x, y)` is a tile that blocks movement: terrain
    /// that no path goes through.
    pub open spec fn occupant_blocks_pathfinding(&self, x: int, y: int) -> bool {
        exists|i: int| 0 <= i < self.map.occupants(x, y).len() && {
            let r = #[trigger] self.entities@[self.map.occupants(x, y)[i] as int];
            r.kind.spec_is_tile() && r.blocks_movement
        }
    }

    /// The flags of `(x, y)` as derived from its occupants, keeping `explored`.
    pub open spec fn derived_flags(&self, x: int, y: int) -> TileFlags {
        TileFlags {
            blocks_movement: self.occupant_blocks_movement(x, y),
            blocks_vision: self.occupant_blocks_vision(x, y),
            in_view: false,
            explored: self.map.flags(x, y).explored,
            blocks_pathfinding: self.occupant_blocks_pathfinding(x, y),
        }
    }

    /// Recomputes every cell's flags from its occupants; `in_view` is
    /// cleared, `explored` kept.
    pub fn update_world_map(&mut self)
        requires
            old(self).wf(),
        ensures
            final(self).wf(),
            final(self).entities == old(self).entities,
            final(self).order == old(self).order,
            final(self).current == old(self).current,
            final(self).data == old(self).data,
            final(self).logs == old(self).logs,
            final(self).state == old(self).state,
            final(self).map.entities == old(self).map.entities,
            final(self).map.stairs == old(self).map.stairs,
            final(self).map.tiles.same_shape(&old(self).map.tiles),
            forall|x: int, y: int| old(self).map.in_bounds(x, y) ==> #[trigger] final(self).map.flags(x, y)
                == old(self).derived_flags(x, y),
    {
        let ghost o = *old(self);
        let (w, h) = self.map.tiles.size();
        let mut x: usize = 0;
        while x < w
            invariant
                o.wf(),
                self.entities == o.entities,
                self.order == o.order,
                self.current == o.current,
                self.data == o.data,
                self.logs == o.logs,
                self.state == o.state,
                self.map.entities == o.map.entities,
                self.map.stairs == o.map.stairs,
                self.map.tiles.same_shape(&o.map.tiles),
                self.map.tiles.wf(),
                w == o.map.tiles.width(),
                h == o.map.tiles.height,
                0 <= x <= w,
                forall|i: int, j: int| o.map.in_bounds(i, j) && i < x ==> #[trigger] self.map.flags(i, j) == o.derived_flags(i, j),
                forall|i: int, j: int| o.map.in_bounds(i, j) && i >= x ==> #[trigger] self.map.flags(i, j) == o.map.flags(i, j),
            decreases w - x,
        {
            let mut y: usize = 0;
            while y < h
                invariant
                    o.wf(),
                    self.entities == o.entities,
                    self.order == o.order,
                    self.current == o.current,
                    self.data == o.data,
                    self.logs == o.logs,
                    self.state == o.state,
                    self.map.entities == o.map.entities,
                    self.map.stairs == o.map.stairs,
                    self.map.tiles.same_shape(&o.map.tiles),
                    self.map.tiles.wf(),
                    w == o.map.tiles.width(),
                    h == o.map.tiles.height,
                    0 <= x < w,
                    0 <= y <= h,
                    forall|i: int, j: int| o.map.in_bounds(i, j) && (i < x || (i == x && j < y))
                        ==> #[trigger] self.map.flags(i, j) == o.derived_flags(i, j),
                    forall|i: int, j: int| o.map.in_bounds(i, j) && (i > x || (i == x && j >= y))
                        ==> #[trigger] self.map.flags(i, j) == o.map.flags(i, j),
                decreases h - y,
            {
                let mut bm = false;
                let mut bv = false;
                let mut bp = false;
                let n = self.map.entities.elems[x][y].len();
                let mut k: usize = 0;
                while k < n
                    invariant
                        o.wf(),
                        self.entities == o.entities,
                        self.map.entities == o.map.entities,
                        o.map.in_bounds(x as int, y as int),
                        n == o.map.occupants(x as int, y as int).len(),
                        0 <= k <= n,
                        bm == exists|i: int| 0 <= i < k && (#[trigger] o.entities@[o.map.occupants(x as int, y as int)[i] as int]).blocks_movement,
                        bv == exists|i: int| 0 <= i < k && (#[trigger] o.entities@[o.map.occupants(x as int, y as int)[i] as int]).blocks_vision,
                        bp == exists|i: int| 0 <= i < k && {
                            let r = #[trigger] o.entities@[o.map.occupants(x as int, y as int)[i] as int];
                            r.kind.spec_is_tile() && r.blocks_movement
                        },
                    decreases n - k,
                {
                    let e = self.map.entities.elems[x][y][k];
                    proof {
                        assert(o.placed_at(o.map.occupants(x as int, y as int)[k as int] as int, x as int, y as int));
                    }
                    let r = self.entities[e];
                    if r.blocks_movement {
                        bm = true;
                        if r.kind.is_tile() {
                            bp = true;
                        }
                    }
                    if r.blocks_vision {
                        bv = true;
                    }
                    k = k + 1;
                }
                proof {
                    assert(self.map.flags(x as int, y as int) == o.map.flags(x as int, y as int));
                }
                let explored = self.map.tiles.elems[x][y].explored;
                let ghost prev = self.map.tiles;
                let ghost prev_self = *self;
                self.map.tiles.elems[x][y] = TileFlags {
                    blocks_movement: bm,
                    blocks_vision: bv,
                    in_view: false,
                    explored,
                    blocks_pathfinding: bp,
                };
                proof {
                    assert(explored == o.map.flags(x as int, y as int).explored);
                    assert(bm == o.occupant_blocks_movement(x as int, y as int));
                    assert(bv == o.occupant_blocks_vision(x as int, y as int));
                    assert(bp == o.occupant_blocks_pathfinding(x as int, y as int));
                    assert(self.map.flags(x as int, y as int).explored == explored);
                    assert(self.map.flags(x as int, y as int) == o.derived_flags(x as int, y as int));
                    assert forall|i: int, j: int| o.map.in_bounds(i, j) && (i != x || j != y)
                        implies #[trigger] self.map.flags(i, j) == prev_self.map.flags(i, j) by {
                        if i != x {
                            assert(self.map.tiles.elems@[i] == prev.elems@[i]);
                        } else {
                            assert(self.map.tiles.elems@[i]@ == prev.elems@[i]@.update(y as int, self.map.flags(x as int, y as int)));
                        }
                    }
                    assert forall|i: int| 0 <= i < self.map.tiles.elems@.len() implies (#[trigger] self.map.tiles.elems@[i])@.len()
                        == self.map.tiles.height by {
                        if i != x {
                            assert(self.map.tiles.elems@[i] == prev.elems@[i]);
                        }
                    }
                }
                y = y + 1;
            }
            x = x + 1;
        }
        proof {
            Self::lemma_same_layout(&o, self);
        }
    }

    /// Advances the turn order: the front actor takes the initiative and goes
    /// to the back. (Actors join the order at the back when they are
    /// spawned, so every living one is already in it.)
    pub fn handle_initiative(&mut self)
        requires
            old(self).wf(),
        ensures
            final(self).wf(),
            final(self).entities == old(self).entities,
            final(self).map == old(self).map,
            final(self).data == old(self).data,
            final(self).logs == old(self).logs,
            final(self).state == old(self).state,
            old(self).order.0@.len() == 0 ==> final(self).order.0@.len() == 0 && final(self).current is None,
            old(self).order.0@.len() > 0 ==> {
                &&& final(self).current == Some(old(self).order.0@[0])
                &&& final(self).order.0@ == old(self).order.0@.drop_first().push(old(self).order.0@[0])
            },
    {
        let ghost o = *old(self);
        self.current = None;
        if self.order.0.len() > 0 {
            let front = self.order.0.remove(0);
            self.order.0.push(front);
            self.current = Some(front);
            proof {
                let q = o.order.0@;
                let t = self.order.0@;
                assert(t =~= q.drop_first().push(q[0]));
                assert forall|i: int| 0 <= i < t.len() implies #[trigger] t[i] == q[if i + 1 < q.len() { i + 1 } else { 0 }] by {}
                assert forall|a: int, b: int| 0 <= a < t.len() && 0 <= b < t.len() && a != b implies t[a] != t[b] by {
                    assert(t[a] == q[if a + 1 < q.len() { a + 1 } else { 0 }]);
                    assert(t[b] == q[if b + 1 < q.len() { b + 1 } else { 0 }]);
                }
                assert forall|i: int| 0 <= i < t.len() implies {
                    let k = #[trigger] t[i];
                    self.live(k as int) && self.entities@[k as int].kind.spec_is_actor()
                } by {
                    assert(t[i] == q[if i + 1 < q.len() { i + 1 } else { 0 }]);
                    assert(o.live(q[if i + 1 < q.len() { i + 1 } else { 0 }] as int));
                }
                assert forall|k: int| #![trigger self.entities@[k]] self.living_actor(k) implies t.contains(k as usize) by {
                    assert(q.contains(k as usize));
                    let b = choose|b: int| 0 <= b < q.len() && q[b] == k as usize;
                    if b == 0 {
                        assert(t[t.len() - 1] == k as usize);
                    } else {
                        assert(t[b - 1] == k as usize);
                    }
                }
            }
        }
    }

    /// The forced wait of a paralyzed actor holding the initiative: its
    /// paralysis counts down by one; while some remains the actor waits
    /// (`Nothing`), and when none remains it is released and emits nothing.
    pub fn paralyzed(&mut self) -> (r: Option<Ev>)
        requires
            old(self).wf(),
        ensures
            final(self).wf(),
            old(self).settled() ==> final(self).settled(),
            final(self).map == old(self).map,
            final(self).order == old(self).order,
            final(self).current == old(self).current,
            final(self).data == old(self).data,
            final(self).logs == old(self).logs,
            final(self).state == old(self).state,
            ({
                let o = old(self);
                let c = o.current->0;
                if o.current is Some && (c as int) < o.entities@.len() && o.rec(c as int).paralyzed is Some {
                    let n = o.rec(c as int).paralyzed->0;
                    &&& final(self).entities@ == o.entities@.update(c as int, EntityRecord {
                        paralyzed: if n > 1 { Some((n - 1) as i32) } else { None }, ..o.rec(c as int) })
                    &&& r == (if n > 1 { Some(Ev::Nothing) } else { None::<Ev> })
                } else {
                    &&& final(self).entities == o.entities
                    &&& r is None
                }
            }),
    {
        let ghost o = *old(self);
        let c = match self.current {
            Some(c) => c,
            None => return None,
        };
        if c >= self.entities.len() {
            return None;
        }
        let n = match self.entities[c].paralyzed {
            Some(n) => n,
            None => return None,
        };
        let r = if n > 1 {
            self.entities[c].paralyzed = Some(n - 1);
            Some(Ev::Nothing)
        } else {
            self.entities[c].paralyzed = None;
            None
        };
        proof {
            Self::lemma_same_layout(&o, self);
            if o.settled() {
                assert forall|k: int| #![trigger self.entities@[k]] self.live(k) implies !self.dying(k) by {
                    assert(o.live(k));
                }
            }
        }
        r
    }

    /// The world-update phase: recompute the map's flags, advance the
    /// initiative, recompute the field of view, then hand the turn over.
    pub fn world_update(&mut self)
        requires
            old(self).wf(),
        ensures
            final(self).wf(),
            final(self).entities == old(self).entities,
            final(self).map.entities == old(self).map.entities,
            final(self).data == old(self).data,
            final(self).logs == old(self).logs,
            old(self).order.0@.len() > 0 ==> {
                &&& final(self).current == Some(old(self).order.0@[0])
                &&& final(self).order.0@ == old(self).order.0@.drop_first().push(old(self).order.0@[0])
            },
            old(self).order.0@.len() == 0 ==> final(self).current is None,
            final(self).state == AppState::DungeonCrawl(TurnState::Turn),
            exists|derived: Array2D<TileFlags>| #![trigger derived.wf(), final(self).map.tiles.same_shape(&derived)] {
                &&& derived.wf()
                &&& derived.same_shape(&old(self).map.tiles)
                &&& final(self).map.tiles.same_shape(&derived)
                &&& forall|x: int, y: int| old(self).map.in_bounds(x, y) ==> #[trigger] derived.at(x, y) == old(self).derived_flags(x, y)
                &&& Self::fov_applied(&derived, old(self).entities@, &final(self).map.tiles)
            },
    {
        let ghost o = *old(self);
        self.update_world_map();
        let ghost derived = self.map.tiles;
        proof {
            assert forall|x: int, y: int| o.map.in_bounds(x, y) implies #[trigger] derived.at(x, y) == o.derived_flags(x, y) by {
                assert(self.map.flags(x, y) == o.derived_flags(x, y));
            }
        }
        self.handle_initiative();
        let ghost mid = *self;
        self.player_fov();
        proof {
            assert(mid.map.tiles == derived);
            match first_player_from(mid.entities@, 0) {
                Some(p) => {
                    let pos = mid.entities@[p].position->0;
                    let origin = (pos.x, pos.y);
                    let targets = fov_circle_spec(pos.x as int, pos.y as int, FOV_RADIUS as int);
                    assert forall|x: int, y: int| derived.in_bounds(x, y) implies {
                        let seen = derived.at(x, y).in_view || fov_marks(&derived, origin, targets, (x, y));
                        #[trigger] self.map.tiles.at(x, y) == (TileFlags {
                            in_view: seen,
                            explored: derived.at(x, y).explored || seen,
                            ..derived.at(x, y)
                        })
                    } by {
                        assert(self.map.flags(x, y) == self.map.tiles.at(x, y));
                        assert(mid.map.flags(x, y) == derived.at(x, y));
                    }
                },
                None => {},
            }
            assert(Self::fov_applied(&derived, mid.entities@, &self.map.tiles));
        }
        self.state = AppState::DungeonCrawl(TurnState::Turn);
        proof {
            assert(derived.wf());
            assert(self.map.tiles.same_shape(&derived));
            assert(derived.same_shape(&o.map.tiles));
            assert(mid.entities == o.entities);
            assert(Self::fov_applied(&derived, o.entities@, &self.map.tiles));
        }
    }

    /// `after` is `before` with what the first player of `entities` sees
    /// brought into view and explored; unchanged without such a player.
    pub open spec fn fov_applied(before: &Array2D<TileFlags>, entities: Seq<EntityRecord>, after: &Array2D<TileFlags>) -> bool {
        match first_player_from(entities, 0) {
            Some(p) => {
                let pos = entities[p].position->0;
                let origin = (pos.x, pos.y);
                let targets = fov_circle_spec(pos.x as int, pos.y as int, FOV_RADIUS as int);
                forall|x: int, y: int| before.in_bounds(x, y) ==> {
                    let seen = before.at(x, y).in_view || fov_marks(before, origin, targets, (x, y));
                    #[trigger] after.at(x, y) == (TileFlags {
                        in_view: seen,
                        explored: before.at(x, y).explored || seen,
                        ..before.at(x, y)
                    })
                }
            },
            None => after == before,
        }
    }

    /// A turn of a paralyzed actor holding the initiative: it acts (waits)
    /// exactly while more than one turn of paralysis is left, which counts
    /// down by one and is gone once it reaches zero.
    pub open spec fn paralysis_step(o: &Dungeon, f: &Dungeon, acted: bool) -> bool {
        let c = o.current->0;
        let n = o.entities@[c as int].paralyzed->0;
        &&& acted == (n > 1)
        &&& f.entities@[c as int].paralyzed == (if n > 1 { Some((n - 1) as i32) } else { None })
        &&& f.entities@.len() == o.entities@.len()
    }

    /// The player's intent this tick: `player_control`'s effect on its turn,
    /// nothing otherwise.
    pub open spec fn intent_step(o: &Dungeon, mid: &Dungeon, input: PlayerInput, own: Seq<Ev>) -> bool {
        let p = o.current->0;
        if o.current is Some && players_turn(o, p) {
            player_control_effect(o, mid, input, p, o.entities@[p as int].position->0, own)
        } else {
            *mid == *o && own.len() == 0
        }
    }

    /// One tick of the turn phase: the actor holding the initiative acts (a
    /// paralyzed one only waits out its paralysis), and the events are
    /// handled. Returns whether any event happened; if none did, the turn
    /// stays open.
    pub fn take_turn(&mut self, input: PlayerInput) -> (acted: bool)
        requires
            old(self).wf(),
            old(self).settled(),
        ensures
            final(self).wf(),
            final(self).settled(),
            final(self).entities@.len() == old(self).entities@.len(),
            ({
                let o = old(self);
                let c = o.current->0;
                if o.current is Some && (c as int) < o.entities@.len() && o.entities@[c as int].paralyzed is Some {
                    Self::paralysis_step(o, final(self), acted)
                } else {
                    exists|mid: Dungeon, own: Seq<Ev>| #![trigger Self::intent_step(o, &mid, input, own)] {
                        &&& Self::intent_step(o, &mid, input, own)
                        &&& {
                            let evs = own + match enemy_intent(o) { Some(ev) => seq![ev], None => Seq::<Ev>::empty() };
                            &&& acted == (evs.len() > 0)
                            &&& evs.len() == 0 ==> *final(self) == mid
                            &&& evs.len() > 0 ==> Self::drains(&mid, final(self), evs)
                        }
                    }
                }
            }),
    {
        let mut evs: Vec<Ev> = Vec::new();
        let held_by_paralysis = match self.current {
            Some(c) => c < self.entities.len() && self.entities[c].paralyzed.is_some(),
            None => false,
        };
        if held_by_paralysis {
            if let Some(ev) = self.paralyzed() {
                evs.push(ev);
            }
        } else {
            let ghost o = *self;
            let mut player = self.player_control(input);
            let ghost own = player@;
            let ghost mid = *self;
            evs.append(&mut player);
            let intent = self.enemy_ai();
            if let Some(ev) = intent {
                evs.push(ev);
            }
            proof {
                assert(enemy_intent(&mid) == enemy_intent(&o));
                assert(Self::intent_step(&o, &mid, input, own));
                assert(evs@ =~= own + match enemy_intent(&o) { Some(ev) => seq![ev], None => Seq::<Ev>::empty() });
            }
        }
        let acted = evs.len() > 0;
        let ghost mid = *self;
        let ghost waits = held_by_paralysis && acted;
        proof {
            if waits {
                assert(evs@ =~= seq![Ev::Nothing]);
            }
        }
        self.handle_evs(evs);
        proof {
            if waits {
                let (states, queues, follows, requests) = choose|states: Seq<Dungeon>, queues: Seq<Seq<Ev>>, follows: Seq<Seq<Ev>>,
                    requests: Seq<Option<AppState>>| #![trigger Self::drain_steps(states, queues, follows, requests)] {
                    &&& Self::drain_steps(states, queues, follows, requests)
                    &&& states[0] == mid
                    &&& queues[0] == seq![Ev::Nothing]
                    &&& queues.last().len() == 0
                    &&& Self::only_phase_differs(&states.last(), self)
                    &&& self.state == Self::next_phase(requests)
                };
                assert(states.len() >= 2);
                assert(queues[0].len() > 0);
                assert(states[1] == states[0]);
                assert(queues[1] =~= Seq::<Ev>::empty());
                if states.len() > 2 {
                    assert(queues[1].len() > 0);
                }
                assert(self.entities == mid.entities);
            }
        }
        acted
    }
}

} // verus!
