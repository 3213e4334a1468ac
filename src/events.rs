//! The event pipeline: primitive world-state mutations, applied one at a
//! time from a FIFO queue to which handlers append their consequences.
use vstd::prelude::*;
use crate::dungeon::Dungeon;
use crate::entity::{Entity, EntityRecord, Kind, sat_add, clamp_i32};
use crate::grid::GridPosition;
use crate::progression::{AppState, Logs, LogEntry, TurnState};
use std::collections::VecDeque;

verus! {

/// A primitive change of the world.
#[derive(Clone, Copy, Debug, PartialEq, Eq, Structural)]
pub enum Ev {
    Move(Entity, GridPosition, GridPosition),
    Attack(Entity, Entity, i32),
    PickUpItem(Entity, Entity),
    DropItem(Entity, Entity, GridPosition),
    Heal(Entity, i32),
    Paralyze(Entity, i32),
    RemoveFromMap(Entity),
    AddToMap(Entity, GridPosition),
    RemoveFromInitiative(Entity),
    Despawn(Entity),
    Nothing,
    Quit,
    Descend,
}

/// Upper bound on the number of events an event can lead to, itself included.
pub open spec fn weight(ev: Ev) -> nat {
    match ev {
        Ev::Attack(..) => 4,
        Ev::PickUpItem(..) => 2,
        Ev::DropItem(..) => 2,
        _ => 1,
    }
}

pub open spec fn total_weight(s: Seq<Ev>) -> nat
    decreases s.len(),
{
    if s.len() == 0 { 0 } else { weight(s[0]) + total_weight(s.drop_first()) }
}

proof fn lemma_total_weight_append(a: Seq<Ev>, b: Seq<Ev>)
    ensures
        total_weight(a + b) == total_weight(a) + total_weight(b),
    decreases a.len(),
{
    if a.len() == 0 {
        assert(a + b =~= b);
    } else {
        assert((a + b).drop_first() =~= a.drop_first() + b);
        lemma_total_weight_append(a.drop_first(), b);
    }
}

pub open spec fn sat_add_u32(a: u32, b: u32) -> u32 {
    if a + b > u32::MAX { u32::MAX } else { (a + b) as u32 }
}

impl Dungeon {
    /// What `Heal` does.
    pub open spec fn heal_effect(o: &Dungeon, f: &Dungeon, e: Entity, amount: i32) -> bool {
        if o.active(e as int) && o.rec(e as int).health is Some && amount >= 0 {
            let h = o.rec(e as int).health->0;
            &&& Self::only_entities_and_logs(o, f)
            &&& f.entities@ == o.entities@.update(e as int,
                EntityRecord { health: Some(h.spec_healed(amount)), ..o.rec(e as int) })
            &&& f.logs.entries@ == Logs::spec_pushed(o.logs.entries@, LogEntry::Healed(e, amount))
        } else {
            *f == *o
        }
    }

    /// What `Paralyze` does.
    pub open spec fn paralyze_effect(o: &Dungeon, f: &Dungeon, e: Entity, duration: i32) -> bool {
        if o.active(e as int) && duration > 0 {
            &&& Self::only_entities_and_logs(o, f)
            &&& f.logs == o.logs
            &&& f.entities@ == o.entities@.update(e as int,
                EntityRecord { paralyzed: Some(duration), ..o.rec(e as int) })
        } else {
            *f == *o
        }
    }

    /// What `Attack` does.
    pub open spec fn attack_effect(o: &Dungeon, f: &Dungeon, attacker: Entity, target: Entity, damage: i32, follow: Seq<Ev>) -> bool {
        if o.active(target as int) && o.rec(target as int).health is Some && damage >= 0 {
            let h = o.rec(target as int).health->0.spec_damaged(damage);
            &&& f.map == o.map
            &&& f.order == o.order
            &&& f.current == o.current
            &&& f.state == o.state
            &&& f.entities@.len() == o.entities@.len()
            &&& f.rec(target as int).health->0.current == h.current
            &&& forall|k: int| 0 <= k < o.entities@.len() && k != target && k != attacker
                ==> #[trigger] f.entities@[k] == o.entities@[k]
            &&& f.rec(target as int) == (EntityRecord { health: f.rec(target as int).health, ..o.rec(target as int) })
            &&& f.rec(target as int).health is Some
            &&& (attacker != target && (attacker as int) < o.entities@.len()) ==> {
                &&& f.rec(attacker as int) == (EntityRecord { health: f.rec(attacker as int).health, ..o.rec(attacker as int) })
                &&& (o.rec(attacker as int).health is Some <==> f.rec(attacker as int).health is Some)
                &&& o.rec(attacker as int).health is Some ==> f.rec(attacker as int).health->0.current
                    == o.rec(attacker as int).health->0.current
            }
            &&& if h.current <= 0 {
                let levelled = o.live(attacker as int) && o.rec(attacker as int).kind is Player
                    && o.data.current_xp + 1 >= o.data.needed_xp;
                let died = Logs::spec_pushed(Logs::spec_pushed(o.logs.entries@, LogEntry::Attack(attacker, target, damage)),
                    LogEntry::Died(target));
                &&& follow == seq![Ev::RemoveFromMap(target), Ev::RemoveFromInitiative(target), Ev::Despawn(target)]
                &&& f.logs.entries@.contains(LogEntry::Died(target))
                &&& f.logs.entries@ == (if levelled { Logs::spec_pushed(died, LogEntry::LevelUp) } else { died })
                &&& f.data.inventory == o.data.inventory
                &&& f.data.selected == o.data.selected
                &&& f.data.previous_hp == o.data.previous_hp
                &&& f.data.floor == o.data.floor
                &&& (levelled && o.rec(attacker as int).health is Some) ==> f.rec(attacker as int).health->0.max
                    == clamp_i32(o.rec(attacker as int).health->0.max + 2)
                &&& (!levelled && attacker != target && (attacker as int) < o.entities@.len()) ==> f.rec(attacker as int)
                    == o.rec(attacker as int)
                &&& !(levelled && attacker == target) ==> f.rec(target as int).health->0.max == h.max
                &&& if o.live(attacker as int) && o.rec(attacker as int).kind is Player {
                    if o.data.current_xp + 1 >= o.data.needed_xp {
                        &&& f.data.current_xp == 0
                        &&& f.data.level == sat_add_u32(o.data.level, 1)
                        &&& f.data.needed_xp == sat_add_u32(o.data.needed_xp, 2)
                    } else {
                        &&& f.data.current_xp == o.data.current_xp + 1
                        &&& f.data.level == o.data.level
                        &&& f.data.needed_xp == o.data.needed_xp
                    }
                } else {
                    f.data == o.data
                }
            } else {
                &&& follow.len() == 0
                &&& f.data == o.data
                &&& f.entities@ == o.entities@.update(target as int,
                    EntityRecord { health: Some(h), ..o.rec(target as int) })
                &&& f.logs.entries@ == Logs::spec_pushed(o.logs.entries@,
                    LogEntry::Attack(attacker, target, damage))
            }
        } else {
            &&& *f == *o
            &&& follow.len() == 0
        }
    }

    /// What `PickUpItem` does.
    pub open spec fn pick_up_effect(o: &Dungeon, f: &Dungeon, item: Entity, follow: Seq<Ev>) -> bool {
        let empty = exists|i: int| 0 <= i < o.data.inventory@.len() && o.data.inventory@[i] is None;
        if o.active(item as int) && o.rec(item as int).kind is Loot && o.rec(item as int).position is Some && empty {
            &&& exists|i: int| {
                &&& 0 <= i < o.data.inventory@.len()
                &&& o.data.inventory@[i] is None
                &&& (forall|j: int| 0 <= j < i ==> o.data.inventory@[j] is Some)
                &&& f.data == (crate::progression::GameData {
                    inventory: f.data.inventory, ..o.data })
                &&& f.data.inventory@ == o.data.inventory@.update(i, Some(item))
            }
            &&& follow == seq![Ev::RemoveFromMap(item)]
            &&& f.logs.entries@ == Logs::spec_pushed(o.logs.entries@, LogEntry::PickedUp(item))
            &&& f.entities == o.entities
            &&& f.map == o.map
            &&& f.order == o.order
            &&& f.current == o.current
            &&& f.state == o.state
        } else {
            &&& *f == *o
            &&& follow.len() == 0
        }
    }

    /// What `DropItem` does.
    pub open spec fn drop_item_effect(o: &Dungeon, f: &Dungeon, item: Entity, p: GridPosition, follow: Seq<Ev>) -> bool {
        if o.active(item as int) && o.rec(item as int).kind is Loot && o.rec(item as int).position is None
            && o.map.in_bounds(p.x as int, p.y as int) {
            &&& Self::only_entities_and_logs(o, f)
            &&& f.entities == o.entities
            &&& if o.map.flags(p.x as int, p.y as int).blocks_movement {
                &&& follow == seq![Ev::Despawn(item)]
                &&& f.logs.entries@ == Logs::spec_pushed(o.logs.entries@, LogEntry::SlamsIntoWall(item))
            } else {
                &&& follow == seq![Ev::AddToMap(item, p)]
                &&& f.logs.entries@ == Logs::spec_pushed(o.logs.entries@, LogEntry::LandsOnFloor(item))
            }
        } else {
            &&& *f == *o
            &&& follow.len() == 0
        }
    }

    /// What `Move` does.
    pub open spec fn move_effect(o: &Dungeon, f: &Dungeon, e: Entity, from: GridPosition, to: GridPosition) -> bool {
        if o.active(e as int) && o.rec(e as int).position == Some(from) && o.map.in_bounds(to.x as int, to.y as int) {
            &&& f.entities@ == o.entities@.update(e as int,
                EntityRecord { position: Some(to), ..o.rec(e as int) })
            &&& f.map.occupants(to.x as int, to.y as int).contains(e)
            &&& f.map.tiles == o.map.tiles
            &&& f.order == o.order
            &&& f.data == o.data
            &&& f.logs == o.logs
            &&& f.state == o.state
        } else {
            *f == *o
        }
    }

    /// Everything but the entity table and the log is as in `a`.
    pub open spec fn only_entities_and_logs(a: &Dungeon, b: &Dungeon) -> bool {
        &&& b.map == a.map
        &&& b.order == a.order
        &&& b.current == a.current
        &&& b.data == a.data
        &&& b.state == a.state
    }

    /// `Heal`: an active entity with health gains `amount` (at least zero), up to its maximum.
    /// A negative amount changes nothing: healing never lowers hit points.
    pub fn heal(&mut self, e: Entity, amount: i32)
        requires
            old(self).wf(),
        ensures
            final(self).wf(),
            Self::heal_effect(old(self), final(self), e, amount),
    {
        if e >= self.entities.len() || !self.entities[e].alive || amount < 0 {
            return;
        }
        let h = match self.entities[e].health {
            Some(h) => h,
            None => return,
        };
        if h.current <= 0 {
            return;
        }
        let ghost old_self = *old(self);
        self.logs.push(LogEntry::Healed(e, amount));
        self.entities[e].health = Some(h.healed(amount));
        proof {
            assert(old_self.entities@[e as int].alive);
            Self::lemma_same_layout(&old_self, self);
        }
    }

    /// `Paralyze`: an active entity is barred from acting for `duration` (above zero) turns.
    /// A duration of zero or less changes nothing.
    pub fn paralyze(&mut self, e: Entity, duration: i32)
        requires
            old(self).wf(),
        ensures
            final(self).wf(),
            Self::paralyze_effect(old(self), final(self), e, duration),
    {
        if e >= self.entities.len() || !self.entities[e].alive || duration <= 0 {
            return;
        }
        if let Some(h) = self.entities[e].health {
            if h.current <= 0 {
                return;
            }
        }
        let ghost old_self = *old(self);
        self.entities[e].paralyzed = Some(duration);
        proof {
            Self::lemma_same_layout(&old_self, self);
        }
    }

    /// `Attack` (a negative `damage` changes nothing, so an attack never
    /// raises hit points): an active target with health loses `damage` (at least zero)
    /// hit points. A kill is logged, rewards a player attacker with
    /// experience, and leads to the removal of the target from the map, from
    /// the turn order, and from the world, in that order.
    pub fn attack(&mut self, attacker: Entity, target: Entity, damage: i32) -> (follow: Vec<Ev>)
        requires
            old(self).wf(),
        ensures
            final(self).wf(),
            Self::attack_effect(old(self), final(self), attacker, target, damage, follow@),
    {
        let mut follow: Vec<Ev> = Vec::new();
        if target >= self.entities.len() || !self.entities[target].alive || damage < 0 {
            return follow;
        }
        let h = match self.entities[target].health {
            Some(h) => h,
            None => return follow,
        };
        if h.current <= 0 {
            return follow;
        }
        let ghost old_self = *old(self);
        self.logs.push(LogEntry::Attack(attacker, target, damage));
        let h2 = h.damaged(damage);
        self.entities[target].health = Some(h2);
        proof {
            Self::lemma_same_layout(&old_self, self);
        }
        if h2.current <= 0 {
            self.logs.push(LogEntry::Died(target));
            let ghost mid = *self;
            if attacker < self.entities.len() && self.entities[attacker].alive && matches!(self.entities[attacker].kind, Kind::Player) {
                self.data.current_xp = if self.data.current_xp < u32::MAX { self.data.current_xp + 1 } else { u32::MAX };
                if self.data.current_xp >= self.data.needed_xp {
                    self.logs.push(LogEntry::LevelUp);
                    self.data.current_xp = 0;
                    self.data.needed_xp = self.data.needed_xp.saturating_add(2);
                    self.data.level = self.data.level.saturating_add(1);
                    if let Some(ah) = self.entities[attacker].health {
                        self.entities[attacker].health = Some(crate::entity::Health { current: ah.current, max: sat_add(ah.max, 2) });
                    }
                }
            }
            proof {
                assert(self.logs.entries@.contains(LogEntry::Died(target))) by {
                    if self.logs.entries@ != mid.logs.entries@ {
                        assert(self.logs.entries@[1] == LogEntry::Died(target));
                    } else {
                        assert(self.logs.entries@[0] == LogEntry::Died(target));
                    }
                }
                Self::lemma_same_layout(&mid, self);
            }
            follow.push(Ev::RemoveFromMap(target));
            follow.push(Ev::RemoveFromInitiative(target));
            follow.push(Ev::Despawn(target));
            assert(follow@ == seq![Ev::RemoveFromMap(target), Ev::RemoveFromInitiative(target), Ev::Despawn(target)]);
        }
        follow
    }

    /// `PickUpItem`: an item on the map goes into the first empty inventory
    /// slot, and then off the map. With no empty slot nothing happens.
    pub fn pick_up(&mut self, item: Entity) -> (follow: Vec<Ev>)
        requires
            old(self).wf(),
        ensures
            final(self).wf(),
            Self::pick_up_effect(old(self), final(self), item, follow@),
    {
        let mut follow: Vec<Ev> = Vec::new();
        if item >= self.entities.len() || !self.entities[item].alive || self.entities[item].position.is_none() {
            return follow;
        }
        if !matches!(self.entities[item].kind, Kind::Loot(_)) {
            return follow;
        }
        if let Some(h) = self.entities[item].health {
            if h.current <= 0 {
                return follow;
            }
        }
        match self.data.first_empty_slot() {
            Some(i) => {
                self.data.inventory.set(i, Some(item));
                self.logs.push(LogEntry::PickedUp(item));
                follow.push(Ev::RemoveFromMap(item));
            }
            None => {}
        }
        follow
    }

    /// `DropItem`: an item held in the inventory lands on the map at `p`, or,
    /// where `p` blocks movement, is destroyed.
    pub fn drop_item(&mut self, item: Entity, p: GridPosition) -> (follow: Vec<Ev>)
        requires
            old(self).wf(),
        ensures
            final(self).wf(),
            Self::drop_item_effect(old(self), final(self), item, p, follow@),
    {
        let mut follow: Vec<Ev> = Vec::new();
        if item >= self.entities.len() || !self.entities[item].alive || self.entities[item].position.is_some() {
            return follow;
        }
        if !matches!(self.entities[item].kind, Kind::Loot(_)) {
            return follow;
        }
        if let Some(h) = self.entities[item].health {
            if h.current <= 0 {
                return follow;
            }
        }
        let (w, hgt) = self.map.tiles.size();
        if p.x < 0 || p.y < 0 || p.x as usize >= w || p.y as usize >= hgt {
            return follow;
        }
        if self.map.tiles.elems[p.x as usize][p.y as usize].blocks_movement {
            self.logs.push(LogEntry::SlamsIntoWall(item));
            follow.push(Ev::Despawn(item));
        } else {
            self.logs.push(LogEntry::LandsOnFloor(item));
            follow.push(Ev::AddToMap(item, p));
        }
        follow
    }

    /// `Move`: an active entity standing at `from` moves to `to`, a cell of the map.
    pub fn move_entity(&mut self, e: Entity, from: GridPosition, to: GridPosition)
        requires
            old(self).wf(),
        ensures
            final(self).wf(),
            Self::move_effect(old(self), final(self), e, from, to),
    {
        if e >= self.entities.len() || !self.entities[e].alive || self.entities[e].position != Some(from) {
            return;
        }
        if let Some(h) = self.entities[e].health {
            if h.current <= 0 {
                return;
            }
        }
        let (w, hgt) = self.map.tiles.size();
        if to.x < 0 || to.y < 0 || to.x as usize >= w || to.y as usize >= hgt {
            return;
        }
        self.take_off_map(e);
        self.put_on_map(e, to);
        proof {
            let r = self.entities@[e as int];
            assert(self.entities@ =~= old(self).entities@.update(e as int, EntityRecord { position: Some(to), ..old(self).entities@[e as int] }));
            assert(self.live(e as int));
        }
    }

    /// Every alive entity of `f` that is dying was already dying in `o` and
    /// is not the one `ev` despawns, or has a `Despawn` among `follow`.
    pub open spec fn deaths_tracked(o: &Dungeon, f: &Dungeon, ev: Ev, follow: Seq<Ev>) -> bool {
        forall|e: int| #![trigger f.entities@[e]]
            f.live(e) && f.dying(e) ==> (o.live(e) && o.dying(e) && ev != Ev::Despawn(e as usize))
                || follow.contains(Ev::Despawn(e as usize))
    }

    /// Draining `evs` from `o` ends in `f`: a FIFO drain of `apply_event`
    /// steps, after which the phase is the last one asked for.
    pub open spec fn drains(o: &Dungeon, f: &Dungeon, evs: Seq<Ev>) -> bool {
        exists|states: Seq<Dungeon>, queues: Seq<Seq<Ev>>, follows: Seq<Seq<Ev>>,
            requests: Seq<Option<AppState>>| #![trigger Self::drain_steps(states, queues, follows, requests)] {
            &&& Self::drain_steps(states, queues, follows, requests)
            &&& states[0] == *o
            &&& queues[0] == evs
            &&& queues.last().len() == 0
            &&& Self::only_phase_differs(&states.last(), f)
            &&& f.state == Self::next_phase(requests)
        }
    }

    /// `b` is `a` but for the phase.
    pub open spec fn only_phase_differs(a: &Dungeon, b: &Dungeon) -> bool {
        &&& b.entities == a.entities
        &&& b.map == a.map
        &&& b.order == a.order
        &&& b.current == a.current
        &&& b.data == a.data
        &&& b.logs == a.logs
    }

    /// What applying `ev` to `o` does: the state `f` after it, the events
    /// `follow` it leads to, and the phase `req` it asks for.
    pub open spec fn event_effect(o: &Dungeon, f: &Dungeon, ev: Ev, follow: Seq<Ev>, req: Option<AppState>) -> bool {
        match ev {
            Ev::Move(e, from, to) => Self::move_effect(o, f, e, from, to)
                && follow.len() == 0 && req is None,
            Ev::Attack(a, t, d) => Self::attack_effect(o, f, a, t, d, follow) && req is None,
            Ev::PickUpItem(_, i) => Self::pick_up_effect(o, f, i, follow) && req is None,
            Ev::DropItem(_, i, p) => Self::drop_item_effect(o, f, i, p, follow) && req is None,
            Ev::Heal(e, a) => Self::heal_effect(o, f, e, a) && follow.len() == 0 && req is None,
            Ev::Paralyze(e, d) => Self::paralyze_effect(o, f, e, d) && follow.len() == 0
                && req is None,
            Ev::RemoveFromMap(e) => {
                &&& follow.len() == 0 && req is None
                &&& Self::frame_but_placement(o, f)
                &&& !o.live(e as int) ==> f.map == o.map
                &&& f.entities@.len() == o.entities@.len()
                &&& f.order == o.order
                &&& forall|k: int| 0 <= k < o.entities@.len() ==> #[trigger] f.entities@[k]
                    == (EntityRecord { position: if k == e && o.live(k) { None } else {
                        o.entities@[k].position }, ..o.entities@[k] })
            },
            Ev::AddToMap(e, p) => {
                &&& follow.len() == 0 && req is None
                &&& Self::frame_but_placement(o, f)
                &&& !o.live(e as int) ==> f.map == o.map
                &&& f.entities@.len() == o.entities@.len()
                &&& f.order == o.order
                &&& forall|k: int| 0 <= k < o.entities@.len() ==> #[trigger] f.entities@[k]
                    == (EntityRecord { position: if k == e && o.live(k) && o.entities@[k].position is None
                        && o.map.in_bounds(p.x as int, p.y as int) { Some(p) } else {
                        o.entities@[k].position }, ..o.entities@[k] })
            },
            Ev::RemoveFromInitiative(e) => {
                &&& follow.len() == 0 && req is None
                &&& f.entities == o.entities
                &&& !o.living_actor(e as int) ==> {
                    &&& Self::frame_but_placement(o, f)
                    &&& f.map == o.map
                    &&& f.current == (if o.current == Some(e) { None } else { o.current })
                    &&& Self::order_without(o.order.0@, f.order.0@, e)
                }
                &&& o.living_actor(e as int) ==> *f == *o
            },
            Ev::Despawn(e) => {
                &&& follow.len() == 0
                &&& !f.live(e as int)
                &&& !f.order.0@.contains(e)
                &&& Self::frame_but_placement(o, f)
                &&& !o.live(e as int) ==> f.map == o.map
                &&& f.entities@.len() == o.entities@.len()
                &&& forall|k: int| 0 <= k < o.entities@.len() && k != e ==> #[trigger] f.entities@[k] == o.entities@[k]
                &&& (e as int) < o.entities@.len() ==> f.entities@[e as int] == (EntityRecord {
                    position: if o.live(e as int) { None } else { o.entities@[e as int].position },
                    alive: false,
                    ..o.entities@[e as int]
                })
                &&& f.current == (if o.current == Some(e) { None } else { o.current })
                &&& Self::order_without(o.order.0@, f.order.0@, e)
                &&& req == (if o.live(e as int) && o.rec(e as int).kind is Player {
                    Some(AppState::DungeonCrawlExitToMenu) } else { None })
            },
            Ev::Nothing => *f == *o && follow.len() == 0 && req is None,
            Ev::Quit => *f == *o && follow.len() == 0
                && req == Some(AppState::DungeonCrawlExitToMenu),
            Ev::Descend => {
                &&& follow.len() == 0
                &&& req == Some(AppState::DungeonCrawlDescend)
                &&& f.logs.entries@ == Logs::spec_pushed(o.logs.entries@, LogEntry::Descended)
                &&& f.entities == o.entities
                &&& f.map == o.map
                &&& f.order == o.order
                &&& f.data == o.data
                &&& f.current == o.current
                &&& f.state == o.state
            },
        }
    }

    /// Data, log, phase, tiles and stairs are as in `o`.
    pub open spec fn frame_but_placement(o: &Dungeon, f: &Dungeon) -> bool {
        &&& f.data == o.data
        &&& f.logs == o.logs
        &&& f.state == o.state
        &&& f.map.tiles == o.map.tiles
        &&& f.map.stairs == o.map.stairs
    }

    /// `after` is `before` without `e`, the others in their order.
    pub open spec fn order_without(before: Seq<Entity>, after: Seq<Entity>, e: Entity) -> bool {
        &&& before.contains(e) ==> exists|i: int| 0 <= i < before.len() && before[i] == e && after == before.remove(i)
        &&& !before.contains(e) ==> after == before
    }

    /// The phase after a drain whose events asked for `requests`: the last
    /// one asked for, or else a world update.
    pub open spec fn next_phase(requests: Seq<Option<AppState>>) -> AppState
        decreases requests.len(),
    {
        if requests.len() == 0 {
            AppState::DungeonCrawl(TurnState::WorldUpdate)
        } else if requests.last() is Some {
            requests.last()->0
        } else {
            Self::next_phase(requests.drop_last())
        }
    }

    /// `states` and `queues` record a FIFO drain of `queues[0]` from
    /// `states[0]`: at each step the front event is applied and the events
    /// it leads to join the back of the queue.
    pub open spec fn drain_steps(states: Seq<Dungeon>, queues: Seq<Seq<Ev>>, follows: Seq<Seq<Ev>>,
        requests: Seq<Option<AppState>>) -> bool {
        &&& states.len() >= 1
        &&& queues.len() == states.len()
        &&& follows.len() == states.len() - 1
        &&& requests.len() == states.len() - 1
        &&& forall|i: int| 0 <= i < states.len() - 1 ==> {
            &&& (#[trigger] queues[i]).len() > 0
            &&& Self::event_effect(&states[i], &states[i + 1], queues[i][0], follows[i], requests[i])
            &&& queues[i + 1] == queues[i].drop_first() + follows[i]
        }
    }

    /// Applies one event. Returns the events it leads to, to be handled after
    /// those already queued, and the phase it asks for, if any.
    pub fn apply_event(&mut self, ev: Ev) -> (r: (Vec<Ev>, Option<AppState>))
        requires
            old(self).wf(),
        ensures
            final(self).wf(),
            total_weight(r.0@) < weight(ev),
            Self::deaths_tracked(old(self), final(self), ev, r.0@),
            final(self).entities@.len() == old(self).entities@.len(),
            Self::event_effect(old(self), final(self), ev, r.0@, r.1),
    {
        let ghost o = *old(self);
        match ev {
            Ev::Move(e, from, to) => {
                self.move_entity(e, from, to);
                proof {
                    assert(total_weight(Seq::<Ev>::empty()) == 0);
                }
                (Vec::new(), None)
            },
            Ev::Attack(a, t, d) => {
                let follow = self.attack(a, t, d);
                proof {
                    if follow@.len() == 3 {
                        assert(follow@[2] == Ev::Despawn(t));
                        assert(total_weight(follow@) == 3) by {
                            reveal_with_fuel(total_weight, 4);
                        }
                    } else {
                        assert(total_weight(follow@) == 0);
                    }
                    assert forall|e: int| #![trigger self.entities@[e]]
                        self.live(e) && self.dying(e) implies (o.live(e) && o.dying(e) && ev != Ev::Despawn(e as usize))
                            || follow@.contains(Ev::Despawn(e as usize)) by {
                        if e == t as int && !(o.live(e) && o.dying(e)) {
                            assert(o.active(t as int) && o.rec(t as int).health is Some && d >= 0);
                            assert(follow@ == seq![Ev::RemoveFromMap(t), Ev::RemoveFromInitiative(t), Ev::Despawn(t)]);
                            assert(follow@[2] == Ev::Despawn(t));
                        } else if e != t as int && !(o.live(e) && o.dying(e)) {
                            assert(o.live(e));
                            assert(o.rec(e).health is Some);
                        }
                    }
                }
                (follow, None)
            },
            Ev::PickUpItem(_, i) => {
                let follow = self.pick_up(i);
                proof {
                    reveal_with_fuel(total_weight, 2);
                }
                (follow, None)
            },
            Ev::DropItem(_, i, p) => {
                let follow = self.drop_item(i, p);
                proof {
                    reveal_with_fuel(total_weight, 2);
                }
                (follow, None)
            },
            Ev::Heal(e, a) => {
                self.heal(e, a);
                proof {
                    assert(total_weight(Seq::<Ev>::empty()) == 0);
                    assert forall|k: int| #![trigger self.entities@[k]]
                        self.live(k) && self.dying(k) implies (o.live(k) && o.dying(k) && ev != Ev::Despawn(k as usize)) by {
                        if k != e as int {
                            assert(self.entities@[k] == o.entities@[k]);
                        }
                    }
                }
                (Vec::new(), None)
            },
            Ev::Paralyze(e, d) => {
                self.paralyze(e, d);
                proof {
                    assert(total_weight(Seq::<Ev>::empty()) == 0);
                    assert forall|k: int| #![trigger self.entities@[k]]
                        self.live(k) && self.dying(k) implies (o.live(k) && o.dying(k) && ev != Ev::Despawn(k as usize)) by {
                        if k != e as int {
                            assert(self.entities@[k] == o.entities@[k]);
                        }
                    }
                }
                (Vec::new(), None)
            },
            Ev::RemoveFromMap(e) => {
                self.take_off_map(e);
                proof {
                    assert(total_weight(Seq::<Ev>::empty()) == 0);
                    assert forall|k: int| #![trigger self.entities@[k]]
                        self.live(k) && self.dying(k) implies (o.live(k) && o.dying(k) && ev != Ev::Despawn(k as usize)) by {
                        if k != e as int {
                            assert(self.entities@[k] == o.entities@[k]);
                        }
                    }
                }
                (Vec::new(), None)
            },
            Ev::AddToMap(e, p) => {
                self.put_on_map(e, p);
                proof {
                    assert(total_weight(Seq::<Ev>::empty()) == 0);
                    assert forall|k: int| #![trigger self.entities@[k]]
                        self.live(k) && self.dying(k) implies (o.live(k) && o.dying(k) && ev != Ev::Despawn(k as usize)) by {
                        if k != e as int {
                            assert(self.entities@[k] == o.entities@[k]);
                        }
                    }
                }
                (Vec::new(), None)
            },
            Ev::RemoveFromInitiative(e) => {
                let living = e < self.entities.len() && self.entities[e].alive && self.entities[e].kind.is_actor()
                    && match self.entities[e].health {
                    Some(h) => h.current > 0,
                    None => true,
                };
                if !living {
                    self.remove_from_order(e);
                }
                proof {
                    assert(total_weight(Seq::<Ev>::empty()) == 0);
                }
                (Vec::new(), None)
            },
            Ev::Despawn(e) => {
                let player = e < self.entities.len() && self.entities[e].alive && matches!(self.entities[e].kind, Kind::Player);
                self.despawn(e);
                proof {
                    assert(total_weight(Seq::<Ev>::empty()) == 0);
                    assert forall|k: int| #![trigger self.entities@[k]]
                        self.live(k) && self.dying(k) implies (o.live(k) && o.dying(k) && ev != Ev::Despawn(k as usize)) by {
                        if k != e as int {
                            assert(self.entities@[k] == o.entities@[k]);
                        }
                    }
                }
                (Vec::new(), if player { Some(AppState::DungeonCrawlExitToMenu) } else { None })
            },
            Ev::Nothing => {
                proof {
                    assert(total_weight(Seq::<Ev>::empty()) == 0);
                }
                (Vec::new(), None)
            },
            Ev::Quit => {
                proof {
                    assert(total_weight(Seq::<Ev>::empty()) == 0);
                }
                (Vec::new(), Some(AppState::DungeonCrawlExitToMenu))
            },
            Ev::Descend => {
                self.logs.push(LogEntry::Descended);
                proof {
                    assert(total_weight(Seq::<Ev>::empty()) == 0);
                }
                (Vec::new(), Some(AppState::DungeonCrawlDescend))
            },
        }
    }

    /// Handles the events of one turn phase, and those they lead to, in FIFO
    /// order until none is left. If there was any event, the phase that
    /// follows is the last one asked for by an event, or else a world update.
    pub fn handle_evs(&mut self, evs: Vec<Ev>)
        requires
            old(self).wf(),
            old(self).settled(),
        ensures
            final(self).wf(),
            final(self).settled(),
            final(self).entities@.len() == old(self).entities@.len(),
            evs@.len() == 0 ==> *final(self) == *old(self),
            evs@.len() > 0 ==> final(self).state == AppState::DungeonCrawl(TurnState::WorldUpdate)
                || final(self).state == AppState::DungeonCrawlExitToMenu
                || final(self).state == AppState::DungeonCrawlDescend,
            evs@.len() > 0 ==> Self::drains(old(self), final(self), evs@),
    {
        if evs.len() == 0 {
            return;
        }
        let mut queue: VecDeque<Ev> = VecDeque::new();
        let mut i: usize = 0;
        while i < evs.len()
            invariant
                0 <= i <= evs@.len(),
                queue@ == evs@.subrange(0, i as int),
            decreases evs@.len() - i,
        {
            queue.push_back(evs[i]);
            i = i + 1;
            assert(queue@ =~= evs@.subrange(0, i as int));
        }
        let ghost n0 = self.entities@.len();
        let mut next = AppState::DungeonCrawl(TurnState::WorldUpdate);
        let ghost mut states: Seq<Dungeon> = seq![*self];
        let ghost mut queues: Seq<Seq<Ev>> = seq![queue@];
        let ghost mut follows: Seq<Seq<Ev>> = Seq::empty();
        let ghost mut requests: Seq<Option<AppState>> = Seq::empty();
        proof {
            assert(evs@.subrange(0, evs@.len() as int) =~= evs@);
        }
        while queue.len() > 0
            invariant
                Self::drain_steps(states, queues, follows, requests),
                states[0] == *old(self),
                queues[0] == evs@,
                states.last() == *self,
                queues.last() == queue@,
                next == Self::next_phase(requests),
                self.wf(),
                self.entities@.len() == n0,
                forall|e: int| #![trigger self.entities@[e]]
                    self.live(e) && self.dying(e) ==> queue@.contains(Ev::Despawn(e as usize)),
                next == AppState::DungeonCrawl(TurnState::WorldUpdate) || next == AppState::DungeonCrawlExitToMenu
                    || next == AppState::DungeonCrawlDescend,
            decreases total_weight(queue@),
        {
            let ghost before = *self;
            let ghost q0 = queue@;
            let ev = queue.pop_front().unwrap();
            let ghost rest = queue@;
            proof {
                assert(q0 =~= seq![ev] + rest);
                lemma_total_weight_append(seq![ev], rest);
                assert(total_weight(seq![ev]) == weight(ev)) by {
                    reveal_with_fuel(total_weight, 2);
                }
            }
            let (follow, request) = self.apply_event(ev);
            match request {
                Some(st) => {
                    next = st;
                }
                None => {}
            }
            let mut j: usize = 0;
            while j < follow.len()
                invariant
                    0 <= j <= follow@.len(),
                    queue@ == rest + follow@.subrange(0, j as int),
                decreases follow@.len() - j,
            {
                queue.push_back(follow[j]);
                j = j + 1;
                assert(queue@ =~= rest + follow@.subrange(0, j as int));
            }
            proof {
                assert(follow@.subrange(0, follow@.len() as int) =~= follow@);
                let n = states.len();
                let states2 = states.push(*self);
                let queues2 = queues.push(queue@);
                let follows2 = follows.push(follow@);
                let requests2 = requests.push(request);
                assert(rest == q0.drop_first());
                assert forall|i: int| 0 <= i < states2.len() - 1 implies {
                    &&& (#[trigger] queues2[i]).len() > 0
                    &&& Self::event_effect(&states2[i], &states2[i + 1], queues2[i][0], follows2[i], requests2[i])
                    &&& queues2[i + 1] == queues2[i].drop_first() + follows2[i]
                } by {
                    if i < n - 1 {
                        assert(states2[i] == states[i] && states2[i + 1] == states[i + 1]);
                        assert(queues2[i] == queues[i] && queues2[i + 1] == queues[i + 1]);
                        assert(follows2[i] == follows[i] && requests2[i] == requests[i]);
                    } else {
                        assert(states2[i] == before && states2[i + 1] == *self);
                        assert(queues2[i] == q0 && queues2[i + 1] == queue@);
                    }
                }
                assert(requests2.drop_last() =~= requests);
                states = states2;
                queues = queues2;
                follows = follows2;
                requests = requests2;
                lemma_total_weight_append(rest, follow@);
                assert forall|e: int| #![trigger self.entities@[e]]
                    self.live(e) && self.dying(e) implies queue@.contains(Ev::Despawn(e as usize)) by {
                    if follow@.contains(Ev::Despawn(e as usize)) {
                        let k = choose|k: int| 0 <= k < follow@.len() && follow@[k] == Ev::Despawn(e as usize);
                        assert(queue@[rest.len() + k] == Ev::Despawn(e as usize));
                    } else {
                        assert(before.live(e) && before.dying(e));
                        assert(before.entities@[e] == before.entities@[e]);
                        assert(q0.contains(Ev::Despawn(e as usize)));
                        let k = choose|k: int| 0 <= k < q0.len() && q0[k] == Ev::Despawn(e as usize);
                        assert(k != 0);
                        assert(queue@[k - 1] == Ev::Despawn(e as usize));
                    }
                }
            }
        }
        self.state = next;
        proof {
            assert(Self::drain_steps(states, queues, follows, requests));
            assert(Self::only_phase_differs(&states.last(), self));
            assert forall|e: int| #![trigger self.entities@[e]] self.live(e) implies !self.dying(e) by {
                if self.dying(e) {
                    assert(queue@.contains(Ev::Despawn(e as usize)));
                }
            }
        }
    }
}

} // verus!
