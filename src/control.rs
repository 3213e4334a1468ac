//! Intent systems: what the actor holding the initiative does this turn.
use vstd::prelude::*;
use crate::dungeon::Dungeon;
use crate::entity::{Entity, EntityRecord, Item, Kind};
use crate::world_map::WorldMap;
use crate::events::Ev;
use crate::fov::first_player_from;
use crate::grid::GridPosition;
use crate::pathfind::spec_pathfind;
use crate::progression::INVENTORY_SLOTS;

verus! {

/// Position of the first player on the map.
pub open spec fn player_pos(d: &Dungeon) -> GridPosition {
    d.entities@[first_player_from(d.entities@, 0)->0].position->0
}

/// What the enemy holding the initiative does: nothing unless it is an
/// unparalyzed enemy on the map; it waits unless it stands in view of the
/// player; then it follows the A* route to the player, attacking when the
/// player is the next step, waiting when the next step is blocked.
pub open spec fn enemy_intent(d: &Dungeon) -> Option<Ev> {
    let e = d.current->0;
    if d.current is None || !(e < d.entities@.len()) || !d.entities@[e as int].alive
        || !(d.entities@[e as int].kind is Orc) || d.entities@[e as int].paralyzed is Some
        || d.entities@[e as int].position is None {
        None
    } else {
        let pos = d.entities@[e as int].position->0;
        if !d.map.flags(pos.x as int, pos.y as int).in_view || first_player_from(d.entities@, 0) is None {
            Some(Ev::Nothing)
        } else {
            let p = first_player_from(d.entities@, 0)->0;
            let target = player_pos(d);
            match spec_pathfind(&d.map, pos, target) {
                Some((path, _)) => if path.len() < 2 {
                    Some(Ev::Nothing)
                } else if path[1] == target {
                    Some(Ev::Attack(e, p as usize, 1))
                } else if !d.map.flags(path[1].x as int, path[1].y as int).blocks_movement {
                    Some(Ev::Move(e, pos, path[1]))
                } else {
                    Some(Ev::Nothing)
                },
                None => Some(Ev::Nothing),
            }
        }
    }
}


/// A decoded key press of the player.
#[derive(Clone, Copy, Debug, PartialEq, Eq, Structural)]
pub enum Command {
    Up,
    Down,
    Left,
    Right,
    PickUp,
    Select(usize),
    Quit,
    Idle,
}

/// What the player did this tick: a key, the mouse buttons, and the cell
/// under the cursor.
#[derive(Clone, Copy, Debug, PartialEq, Eq, Structural)]
pub struct PlayerInput {
    pub command: Command,
    pub left_click: bool,
    pub right_click: bool,
    pub cursor: GridPosition,
}

/// `e` has a health component.
pub open spec fn healthy(ents: Seq<EntityRecord>, e: Entity) -> bool {
    (e as int) < ents.len() && ents[e as int].health is Some
}

/// `e` is an actor.
pub open spec fn controller(ents: Seq<EntityRecord>, e: Entity) -> bool {
    (e as int) < ents.len() && ents[e as int].kind.spec_is_actor()
}

/// `e` is an item.
pub open spec fn loot(ents: Seq<EntityRecord>, e: Entity) -> bool {
    (e as int) < ents.len() && ents[e as int].kind is Loot
}

pub open spec fn first_healthy_from(d: Seq<EntityRecord>, s: Seq<Entity>, i: int) -> Option<Entity>
    decreases s.len() - i,
{
    if i < 0 || i >= s.len() { None } else if healthy(d, s[i]) { Some(s[i]) } else { first_healthy_from(d, s, i + 1) }
}

pub open spec fn first_controller_from(d: Seq<EntityRecord>, s: Seq<Entity>, i: int) -> Option<Entity>
    decreases s.len() - i,
{
    if i < 0 || i >= s.len() { None } else if controller(d, s[i]) { Some(s[i]) } else { first_controller_from(d, s, i + 1) }
}

pub open spec fn first_loot_from(d: Seq<EntityRecord>, s: Seq<Entity>, i: int) -> Option<Entity>
    decreases s.len() - i,
{
    if i < 0 || i >= s.len() { None } else if loot(d, s[i]) { Some(s[i]) } else { first_loot_from(d, s, i + 1) }
}

/// The occupants among the first `k` of `s` that have health, in order.
pub open spec fn healthy_prefix(d: Seq<EntityRecord>, s: Seq<Entity>, k: int) -> Seq<Entity>
    decreases k,
{
    if k <= 0 { Seq::empty() } else {
        let t = healthy_prefix(d, s, k - 1);
        if healthy(d, s[k - 1]) { t.push(s[k - 1]) } else { t }
    }
}

/// The first occupant of `c` with health, if `c` is on the map.
pub open spec fn healthy_target(d: Seq<EntityRecord>, m: &WorldMap, c: GridPosition) -> Option<Entity> {
    if m.in_bounds(c.x as int, c.y as int) {
        first_healthy_from(d, m.occupants(c.x as int, c.y as int), 0)
    } else {
        None
    }
}

/// The cell of the fireball's 3 by 3 area with index `k`, row by row of
/// columns: x from -1 to 1 outside, y from -1 to 1 inside.
pub open spec fn blast_cell(c: GridPosition, k: int) -> GridPosition {
    GridPosition { x: (c.x + k / 3 - 1) as i32, y: (c.y + k % 3 - 1) as i32 }
}

/// The attacks of a fireball on the first `k` cells of its area: one on
/// every occupant with health.
pub open spec fn blast_events(d: Seq<EntityRecord>, m: &WorldMap, p: Entity, c: GridPosition, a: i32, k: int) -> Seq<Ev>
    decreases k,
{
    if k <= 0 { Seq::empty() } else {
        let hs = healthy_in(d, m, blast_cell(c, k - 1));
        blast_events(d, m, p, c, a, k - 1) + Seq::new(hs.len(), |i: int| Ev::Attack(p, hs[i], a))
    }
}

/// Every occupant of `c` with health, in cell order, if `c` is on the map.
pub open spec fn healthy_in(d: Seq<EntityRecord>, m: &WorldMap, c: GridPosition) -> Seq<Entity> {
    if m.in_bounds(c.x as int, c.y as int) {
        healthy_prefix(d, m.occupants(c.x as int, c.y as int), m.occupants(c.x as int, c.y as int).len() as int)
    } else {
        Seq::empty()
    }
}

/// The event the selected item gives when used on the cursor cell.
pub open spec fn item_events(d: &Dungeon, p: Entity, it: Item, c: GridPosition) -> Seq<Ev> {
    match it {
        Item::HealthPotion(a) => match healthy_target(d.entities@, &d.map, c) { Some(e) => seq![Ev::Heal(e, a)], None => Seq::empty() },
        Item::ScrollOfLightning(a) => match healthy_target(d.entities@, &d.map, c) { Some(e) => seq![Ev::Attack(p, e, a)], None => Seq::empty() },
        Item::ScrollOfParalysis(a) => match first_controller_from(d.entities@, d.map.occupants(c.x as int, c.y as int), 0) {
            Some(e) => seq![Ev::Paralyze(e, a)],
            None => Seq::empty(),
        },
        Item::ScrollOfFireball(a) => blast_events(d.entities@, &d.map, p, c, a, 9),
    }
}

/// The events of a step from `pos` to `to`: descending on the stairs,
/// attacking what has health where movement is blocked, moving otherwise.
pub open spec fn step_events(d: &Dungeon, p: Entity, pos: GridPosition, to: GridPosition) -> Seq<Ev> {
    if to == d.map.stairs {
        seq![Ev::Descend]
    } else if !d.map.in_bounds(to.x as int, to.y as int) {
        Seq::empty()
    } else if d.map.flags(to.x as int, to.y as int).blocks_movement {
        let hs = healthy_prefix(d.entities@, d.map.occupants(to.x as int, to.y as int), d.map.occupants(to.x as int, to.y as int).len() as int);
        Seq::new(hs.len(), |i: int| Ev::Attack(p, hs[i], 1))
    } else {
        seq![Ev::Move(p, pos, to)]
    }
}

/// The cell a command steps to.
pub open spec fn stepped(pos: GridPosition, c: Command) -> GridPosition {
    match c {
        Command::Up => GridPosition { x: pos.x, y: (pos.y + 1) as i32 },
        Command::Down => GridPosition { x: pos.x, y: (pos.y - 1) as i32 },
        Command::Left => GridPosition { x: (pos.x - 1) as i32, y: pos.y },
        Command::Right => GridPosition { x: (pos.x + 1) as i32, y: pos.y },
        _ => pos,
    }
}


/// What `player_control` does, given the player `p` standing at `pos`.
pub open spec fn player_control_effect(o: &Dungeon, f: &Dungeon, input: PlayerInput, p: Entity, pos: GridPosition, r: Seq<Ev>) -> bool {
    &&& f.entities == o.entities
    &&& f.map == o.map
    &&& f.order == o.order
    &&& f.current == o.current
    &&& f.logs == o.logs
    &&& f.state == o.state
    &&& f.data.previous_hp == o.data.previous_hp
    &&& f.data.floor == o.data.floor
    &&& f.data.level == o.data.level
    &&& f.data.current_xp == o.data.current_xp
    &&& f.data.needed_xp == o.data.needed_xp
    &&& if input.command is PickUp {
        &&& f.data.selected is None
        &&& f.data.inventory == o.data.inventory
        &&& r == match first_loot_from(o.entities@, o.map.occupants(pos.x as int, pos.y as int), 0) {
            Some(i) => seq![Ev::PickUpItem(p, i)],
            None => Seq::empty(),
        }
    } else {
        let sel = match input.command {
            Command::Select(i) => if i < INVENTORY_SLOTS { Some(i) } else { o.data.selected },
            _ => o.data.selected,
        };
        let quit = if input.command is Quit { seq![Ev::Quit] } else { Seq::<Ev>::empty() };
        let c = input.cursor;
        let using = o.map.in_bounds(c.x as int, c.y as int) && o.map.flags(c.x as int, c.y as int).in_view
            && sel is Some && o.data.inventory@[sel->0 as int] is Some;
        let item = o.data.inventory@[sel->0 as int]->0;
        let use_events = if using && input.left_click && loot(o.entities@, item) {
            item_events(o, p, o.entities@[item as int].kind->Loot_0, c)
        } else if using && !input.left_click && input.right_click {
            seq![Ev::DropItem(p, item, c)]
        } else {
            Seq::empty()
        };
        let consumed = use_events.len() > 0;
        let inventory = if consumed { o.data.inventory@.update(sel->0 as int, None) } else { o.data.inventory@ };
        let to = stepped(pos, input.command);
        let move_events = if to != pos { step_events(o, p, pos, to) } else { Seq::empty() };
        &&& f.data.inventory@ == inventory
        &&& f.data.selected == (if to != pos || consumed || (sel is Some && inventory[sel->0 as int] is None) { None } else { sel })
        &&& r == quit + use_events + move_events
    }
}

/// It is the turn of player `p`: it holds the initiative, is alive, on the
/// map and not paralyzed.
pub open spec fn players_turn(d: &Dungeon, p: Entity) -> bool {
    &&& d.current == Some(p)
    &&& (p as int) < d.entities@.len()
    &&& d.entities@[p as int].alive
    &&& d.entities@[p as int].kind is Player
    &&& d.entities@[p as int].paralyzed is None
    &&& d.entities@[p as int].position is Some
}

impl Dungeon {
    /// The intent of the enemy holding the initiative.
    pub fn enemy_ai(&self) -> (r: Option<Ev>)
        requires
            self.wf(),
        ensures
            r == enemy_intent(self),
    {
        let e = match self.current {
            Some(e) => e,
            None => return None,
        };
        if e >= self.entities.len() {
            return None;
        }
        let rec = self.entities[e];
        if !rec.alive || !matches!(rec.kind, Kind::Orc) || rec.paralyzed.is_some() {
            return None;
        }
        let pos = match rec.position {
            Some(pos) => pos,
            None => return None,
        };
        proof {
            assert(self.live(e as int));
        }
        if !self.map.tiles.elems[pos.x as usize][pos.y as usize].in_view {
            return Some(Ev::Nothing);
        }
        let p = match self.find_player() {
            Some(p) => p,
            None => return Some(Ev::Nothing),
        };
        proof {
            crate::fov::lemma_first_player(self.entities@, 0);
        }
        let target = match self.entities[p].position {
            Some(t) => t,
            None => return Some(Ev::Nothing),
        };
        match self.map.pathfind(pos, target) {
            Some((path, _)) => {
                if path.len() < 2 {
                    return Some(Ev::Nothing);
                }
                let next = path[1];
                if next == target {
                    Some(Ev::Attack(e, p, 1))
                } else {
                    proof {
                        let tp = path@.map_values(|q: GridPosition| (q.x, q.y));
                        
                        assert(tp[0] == (path@[0].x, path@[0].y));
                        assert(crate::pathfind::is_step(&self.map.tiles, tp[0], tp[1]));
                    }
                    if !self.map.tiles.elems[next.x as usize][next.y as usize].blocks_movement {
                        Some(Ev::Move(e, pos, next))
                    } else {
                        Some(Ev::Nothing)
                    }
                }
            },
            None => Some(Ev::Nothing),
        }
    }

    pub fn first_healthy_at(&self, x: usize, y: usize) -> (r: Option<Entity>)
        requires
            self.wf(),
            self.map.in_bounds(x as int, y as int),
        ensures
            r == first_healthy_from(self.entities@, self.map.occupants(x as int, y as int), 0),
    {
        let ghost s = self.map.occupants(x as int, y as int);
        let n = self.map.entities.elems[x][y].len();
        let mut i: usize = 0;
        while i < n
            invariant
                self.wf(),
                self.map.in_bounds(x as int, y as int),
                s == self.map.occupants(x as int, y as int),
                n == s.len(),
                0 <= i <= n,
                first_healthy_from(self.entities@, s, 0) == first_healthy_from(self.entities@, s, i as int),
            decreases n - i,
        {
            let e = self.map.entities.elems[x][y][i];
            if e < self.entities.len() && self.entities[e].health.is_some() {
                return Some(e);
            }
            i = i + 1;
        }
        None
    }

    pub fn first_controller_at(&self, x: usize, y: usize) -> (r: Option<Entity>)
        requires
            self.wf(),
            self.map.in_bounds(x as int, y as int),
        ensures
            r == first_controller_from(self.entities@, self.map.occupants(x as int, y as int), 0),
    {
        let ghost s = self.map.occupants(x as int, y as int);
        let n = self.map.entities.elems[x][y].len();
        let mut i: usize = 0;
        while i < n
            invariant
                self.wf(),
                self.map.in_bounds(x as int, y as int),
                s == self.map.occupants(x as int, y as int),
                n == s.len(),
                0 <= i <= n,
                first_controller_from(self.entities@, s, 0) == first_controller_from(self.entities@, s, i as int),
            decreases n - i,
        {
            let e = self.map.entities.elems[x][y][i];
            if e < self.entities.len() && self.entities[e].kind.is_actor() {
                return Some(e);
            }
            i = i + 1;
        }
        None
    }

    pub fn first_loot_at(&self, x: usize, y: usize) -> (r: Option<Entity>)
        requires
            self.wf(),
            self.map.in_bounds(x as int, y as int),
        ensures
            r == first_loot_from(self.entities@, self.map.occupants(x as int, y as int), 0),
    {
        let ghost s = self.map.occupants(x as int, y as int);
        let n = self.map.entities.elems[x][y].len();
        let mut i: usize = 0;
        while i < n
            invariant
                self.wf(),
                self.map.in_bounds(x as int, y as int),
                s == self.map.occupants(x as int, y as int),
                n == s.len(),
                0 <= i <= n,
                first_loot_from(self.entities@, s, 0) == first_loot_from(self.entities@, s, i as int),
            decreases n - i,
        {
            let e = self.map.entities.elems[x][y][i];
            if e < self.entities.len() && matches!(self.entities[e].kind, Kind::Loot(_)) {
                return Some(e);
            }
            i = i + 1;
        }
        None
    }

    /// The first occupant with health of the cell `c`, if it is on the map.
    pub fn healthy_target_at(&self, c: GridPosition) -> (r: Option<Entity>)
        requires
            self.wf(),
        ensures
            r == healthy_target(self.entities@, &self.map, c),
    {
        let (w, h) = self.map.tiles.size();
        if c.x < 0 || c.y < 0 || c.x as usize >= w || c.y as usize >= h {
            return None;
        }
        self.first_healthy_at(c.x as usize, c.y as usize)
    }

    /// The attacks of a fireball of damage `a` centred on `c`.
    pub fn blast(&self, p: Entity, c: GridPosition, a: i32) -> (r: Vec<Ev>)
        requires
            self.wf(),
            self.map.in_bounds(c.x as int, c.y as int),
        ensures
            r@ == blast_events(self.entities@, &self.map, p, c, a, 9),
    {
        let mut r: Vec<Ev> = Vec::new();
        let mut k: i32 = 0;
        while k < 9
            invariant
                self.wf(),
                self.map.in_bounds(c.x as int, c.y as int),
                0 <= k <= 9,
                r@ == blast_events(self.entities@, &self.map, p, c, a, k as int),
            decreases 9 - k,
        {
            let cell = GridPosition { x: c.x + k / 3 - 1, y: c.y + k % 3 - 1 };
            let hs = self.healthy_at(cell);
            let ghost r0 = r@;
            let mut i: usize = 0;
            while i < hs.len()
                invariant
                    0 <= i <= hs@.len(),
                    r@ == r0 + Seq::new(i as nat, |j: int| Ev::Attack(p, hs@[j], a)),
                decreases hs@.len() - i,
            {
                r.push(Ev::Attack(p, hs[i], a));
                i = i + 1;
                assert(r@ =~= r0 + Seq::new(i as nat, |j: int| Ev::Attack(p, hs@[j], a)));
            }
            proof {
                assert(cell == blast_cell(c, k as int));
            }
            k = k + 1;
        }
        r
    }

    /// Every occupant of `c` with health, in cell order, if `c` is on the map.
    pub fn healthy_at(&self, c: GridPosition) -> (r: Vec<Entity>)
        requires
            self.wf(),
        ensures
            r@ == healthy_in(self.entities@, &self.map, c),
    {
        let mut r: Vec<Entity> = Vec::new();
        let (w, h) = self.map.tiles.size();
        if c.x < 0 || c.y < 0 || c.x as usize >= w || c.y as usize >= h {
            return r;
        }
        let (x, y) = (c.x as usize, c.y as usize);
        let ghost s = self.map.occupants(x as int, y as int);
        let n = self.map.entities.elems[x][y].len();
        let mut i: usize = 0;
        while i < n
            invariant
                self.wf(),
                self.map.in_bounds(x as int, y as int),
                s == self.map.occupants(x as int, y as int),
                n == s.len(),
                0 <= i <= n,
                r@ == healthy_prefix(self.entities@, s, i as int),
            decreases n - i,
        {
            let e = self.map.entities.elems[x][y][i];
            if e < self.entities.len() && self.entities[e].health.is_some() {
                r.push(e);
            }
            i = i + 1;
        }
        r
    }

    /// The events of a step of player `p` from `pos` to `to`.
    pub fn step(&self, p: Entity, pos: GridPosition, to: GridPosition) -> (r: Vec<Ev>)
        requires
            self.wf(),
        ensures
            r@ == step_events(self, p, pos, to),
    {
        let mut r: Vec<Ev> = Vec::new();
        if to == self.map.stairs {
            r.push(Ev::Descend);
            return r;
        }
        let (w, h) = self.map.tiles.size();
        if to.x < 0 || to.y < 0 || to.x as usize >= w || to.y as usize >= h {
            return r;
        }
        let (x, y) = (to.x as usize, to.y as usize);
        if self.map.tiles.elems[x][y].blocks_movement {
            let ghost s = self.map.occupants(x as int, y as int);
            let n = self.map.entities.elems[x][y].len();
            let mut i: usize = 0;
            while i < n
                invariant
                    self.wf(),
                    self.map.in_bounds(x as int, y as int),
                    s == self.map.occupants(x as int, y as int),
                    n == s.len(),
                    0 <= i <= n,
                    r@ == Seq::new(healthy_prefix(self.entities@, s, i as int).len(), |j: int| Ev::Attack(p, healthy_prefix(self.entities@, s, i as int)[j], 1)),
                decreases n - i,
            {
                let e = self.map.entities.elems[x][y][i];
                if e < self.entities.len() && self.entities[e].health.is_some() {
                    r.push(Ev::Attack(p, e, 1));
                }
                i = i + 1;
                proof {
                    let hs = healthy_prefix(self.entities@, s, i as int);
                    assert(r@ =~= Seq::new(hs.len(), |j: int| Ev::Attack(p, hs[j], 1)));
                }
            }
        } else {
            r.push(Ev::Move(p, pos, to));
        }
        r
    }

    /// The intent of the player holding the initiative, from this tick's
    /// input: picking up, selecting, quitting, using or dropping the selected
    /// item on the cursor cell (which must be in view), and stepping, which
    /// descends on the stairs, attacks into cells that block movement, or
    /// moves. Using an item that finds a target, or dropping it, empties its
    /// slot.
    #[verifier::rlimit(60)]
    pub fn player_control(&mut self, input: PlayerInput) -> (r: Vec<Ev>)
        requires
            old(self).wf(),
        ensures
            final(self).wf(),
            ({
                let o = old(self);
                let p = o.current->0;
                if o.current is Some && players_turn(o, p) {
                    player_control_effect(o, final(self), input, p, o.entities@[p as int].position->0, r@)
                } else {
                    *final(self) == *o && r@.len() == 0
                }
            }),
    {
        let ghost o = *old(self);
        let mut r: Vec<Ev> = Vec::new();
        let p = match self.current {
            Some(p) => p,
            None => return r,
        };
        if p >= self.entities.len() {
            return r;
        }
        let rec = self.entities[p];
        if !rec.alive || !matches!(rec.kind, Kind::Player) || rec.paralyzed.is_some() {
            return r;
        }
        let pos = match rec.position {
            Some(pos) => pos,
            None => return r,
        };
        proof {
            assert(self.live(p as int));
        }
        let mut to = pos;
        match input.command {
            Command::Up => to.y = pos.y + 1,
            Command::Down => to.y = pos.y - 1,
            Command::Left => to.x = pos.x - 1,
            Command::Right => to.x = pos.x + 1,
            Command::PickUp => {
                self.data.selected = None;
                proof {
                    assert(o.map.in_bounds(pos.x as int, pos.y as int));
                }
                if let Some(item) = self.first_loot_at(pos.x as usize, pos.y as usize) {
                    r.push(Ev::PickUpItem(p, item));
                    assert(r@ =~= seq![Ev::PickUpItem(p, item)]);
                }
                return r;
            },
            Command::Select(i) => {
                if i < INVENTORY_SLOTS {
                    self.data.selected = Some(i);
                }
            },
            Command::Quit => r.push(Ev::Quit),
            Command::Idle => {},
        }
        let ghost quit = r@;
        let ghost sel = self.data.selected;
        proof {
            assert(quit == (if input.command is Quit { seq![Ev::Quit] } else { Seq::<Ev>::empty() }));
            assert(sel == match input.command {
                Command::Select(i) => if i < INVENTORY_SLOTS { Some(i) } else { o.data.selected },
                _ => o.data.selected,
            });
            assert(to == stepped(pos, input.command));
        }
        let c = input.cursor;
        let (w, h) = self.map.tiles.size();
        let mut used: Vec<Ev> = Vec::new();
        if c.x >= 0 && c.y >= 0 && (c.x as usize) < w && (c.y as usize) < h
            && self.map.tiles.elems[c.x as usize][c.y as usize].in_view {
            if let Some(index) = self.data.selected {
                if let Some(item) = self.data.inventory[index] {
                    if input.left_click {
                        if item < self.entities.len() {
                            match self.entities[item].kind {
                                Kind::Loot(Item::HealthPotion(a)) => {
                                    if let Some(e) = self.first_healthy_at(c.x as usize, c.y as usize) {
                                        used.push(Ev::Heal(e, a));
                                    }
                                },
                                Kind::Loot(Item::ScrollOfLightning(a)) => {
                                    if let Some(e) = self.first_healthy_at(c.x as usize, c.y as usize) {
                                        used.push(Ev::Attack(p, e, a));
                                    }
                                },
                                Kind::Loot(Item::ScrollOfParalysis(a)) => {
                                    if let Some(e) = self.first_controller_at(c.x as usize, c.y as usize) {
                                        used.push(Ev::Paralyze(e, a));
                                    }
                                },
                                Kind::Loot(Item::ScrollOfFireball(a)) => {
                                    used = self.blast(p, c, a);
                                },
                                _ => {},
                            }
                        }
                    } else if input.right_click {
                        used.push(Ev::DropItem(p, item, c));
                    }
                    if used.len() > 0 {
                        self.data.inventory.set(index, None);
                        self.data.selected = None;
                    }
                }
            }
        }
        proof {
            let using = o.map.in_bounds(c.x as int, c.y as int) && o.map.flags(c.x as int, c.y as int).in_view
                && sel is Some && o.data.inventory@[sel->0 as int] is Some;
            let item = o.data.inventory@[sel->0 as int]->0;
            let use_events = if using && input.left_click && loot(o.entities@, item) {
                item_events(&o, p, o.entities@[item as int].kind->Loot_0, c)
            } else if using && !input.left_click && input.right_click {
                seq![Ev::DropItem(p, item, c)]
            } else {
                Seq::empty()
            };
            assert(used@ =~= use_events);
            assert(self.data.inventory@ == (if use_events.len() > 0 { o.data.inventory@.update(sel->0 as int, None) } else { o.data.inventory@ }));
        }
        let mut k: usize = 0;
        while k < used.len()
            invariant
                0 <= k <= used@.len(),
                r@ == quit + used@.subrange(0, k as int),
            decreases used@.len() - k,
        {
            r.push(used[k]);
            k = k + 1;
            assert(r@ =~= quit + used@.subrange(0, k as int));
        }
        if let Some(i) = self.data.selected {
            if self.data.inventory[i].is_none() {
                self.data.selected = None;
            }
        }
        if to != pos {
            self.data.selected = None;
            let steps = self.step(p, pos, to);
            let ghost before = r@;
            let mut k: usize = 0;
            while k < steps.len()
                invariant
                    0 <= k <= steps@.len(),
                    r@ == before + steps@.subrange(0, k as int),
                decreases steps@.len() - k,
            {
                r.push(steps[k]);
                k = k + 1;
                assert(r@ =~= before + steps@.subrange(0, k as int));
            }
            assert(steps@.subrange(0, steps@.len() as int) =~= steps@);
            assert(steps@ == step_events(&o, p, pos, to));
        }
        proof {
            let f = &*self;
            assert(f.entities == o.entities);
            assert(f.data.floor == o.data.floor);
            assert(used@.subrange(0, used@.len() as int) =~= used@);
            let move_events = if to != pos { step_events(&o, p, pos, to) } else { Seq::empty() };
            assert(r@ =~= quit + used@ + move_events);
        }
        r
    }
}

} // verus!
