//! Properties that hold of every state and every step of the simulation.
use vstd::prelude::*;
use crate::dungeon::Dungeon;
use crate::entity::{Entity, Health};
use crate::events::Ev;
use crate::grid::GridPosition;
use crate::control::{Command, PlayerInput, healthy_target, item_events, player_control_effect, players_turn, stepped};
use crate::entity::{Item, Kind};
use crate::pathfind::{cost_grid, spec_pathfind};
use crate::world_map::WorldMap;
use crate::level::starting_health;
use crate::progression::{AppState, GameData, LogEntry};

verus! {

/// In a well-formed dungeon a living entity with a position is listed
/// exactly once in the cell of its position, and in no other cell.
pub proof fn occupancy_exact(d: &Dungeon, e: Entity, x: int, y: int)
    requires
        d.wf(),
        d.live(e as int),
        d.entities@[e as int].position is Some,
        d.map.in_bounds(x, y),
    ensures
        d.map.occupants(x, y).contains(e) <==> d.entities@[e as int].position == Some(GridPosition::at(x, y)),
        d.map.occupants(x, y).contains(e) ==> exists|i: int| 0 <= i < d.map.occupants(x, y).len()
            && d.map.occupants(x, y)[i] == e
            && forall|j: int| 0 <= j < d.map.occupants(x, y).len() && j != i ==> d.map.occupants(x, y)[j] != e,
{
    let s = d.map.occupants(x, y);
    if s.contains(e) {
        let i = choose|i: int| 0 <= i < s.len() && s[i] == e;
        assert(d.placed_at(s[i] as int, x, y));
        assert(s.no_duplicates());
    }
    let p = d.entities@[e as int].position->0;
    if d.entities@[e as int].position == Some(GridPosition::at(x, y)) {
        assert(d.map.occupants(p.x as int, p.y as int).contains(e));
    }
}

/// Between turns the turn order holds exactly the living actors, each once.
pub proof fn initiative_exact(d: &Dungeon, e: Entity)
    requires
        d.wf(),
        d.settled(),
    ensures
        d.order.0@.contains(e) <==> (d.live(e as int) && d.entities@[e as int].kind.spec_is_actor()),
        d.order.0@.no_duplicates(),
{
    if d.order.0@.contains(e) {
        let i = choose|i: int| 0 <= i < d.order.0@.len() && d.order.0@[i] == e;
        assert(d.live(d.order.0@[i] as int));
    }
    if d.live(e as int) && d.entities@[e as int].kind.spec_is_actor() {
        assert(!d.dying(e as int));
        assert(d.living_actor(e as int));
    }
}

/// Healing never raises hit points above the maximum and never lowers them;
/// damage never raises them.
pub proof fn hp_clamp(h: Health, amount: i32, damage: i32)
    requires
        h.current <= h.max,
        amount >= 0,
        damage >= 0,
    ensures
        h.spec_healed(amount).current <= h.max,
        h.spec_healed(amount).current >= h.current,
        h.spec_healed(amount).max == h.max,
        h.spec_damaged(damage).current <= h.current,
{
}

/// A kill queues the target's removal from the map, from the turn order and
/// from the world exactly once each; any attack on the target after that is
/// without effect and queues nothing, so the removal is not repeated.
pub proof fn death_cascade_once(o: &Dungeon, f: &Dungeon, g: &Dungeon, attacker: Entity, target: Entity, damage: i32,
    follow: Seq<Ev>, attacker2: Entity, damage2: i32, follow2: Seq<Ev>)
    requires
        Dungeon::attack_effect(o, f, attacker, target, damage, follow),
        !o.dying(target as int),
        f.dying(target as int),
        Dungeon::attack_effect(f, g, attacker2, target, damage2, follow2),
    ensures
        follow == seq![Ev::RemoveFromMap(target), Ev::RemoveFromInitiative(target), Ev::Despawn(target)],
        *g == *f,
        follow2.len() == 0,
{
}

/// Structural events naming an entity that is no longer alive leave the map,
/// the turn order, the progress and the log alone, and a repeated despawn
/// changes no entity.
pub proof fn dead_entities_stay_removed(o: &Dungeon, f: &Dungeon, ev: Ev, follow: Seq<Ev>, req: Option<crate::progression::AppState>)
    requires
        o.wf(),
        Dungeon::event_effect(o, f, ev, follow, req),
        ev matches Ev::Despawn(e) && !o.live(e as int),
    ensures
        f.map == o.map,
        f.order.0@ == o.order.0@,
        f.entities@ == o.entities@,
        f.data == o.data,
        f.logs == o.logs,
        follow.len() == 0,
{
    let e = ev->Despawn_0;
    assert(!o.order.0@.contains(e)) by {
        if o.order.0@.contains(e) {
            let i = choose|i: int| 0 <= i < o.order.0@.len() && o.order.0@[i] == e;
            assert(o.live(o.order.0@[i] as int));
        }
    }
    assert(f.order.0@ == o.order.0@);
    assert(f.entities@ =~= o.entities@) by {
        if (e as int) < o.entities@.len() {
            assert(f.entities@[e as int] == o.entities@[e as int]);
        }
    }
}

/// Events naming an entity that is no longer alive change nothing.
pub proof fn dead_entities_are_inert(o: &Dungeon, f: &Dungeon, e: Entity, amount: i32, from: GridPosition, to: GridPosition,
    follow: Seq<Ev>)
    requires
        !o.live(e as int),
    ensures
        Dungeon::heal_effect(o, f, e, amount) ==> *f == *o,
        Dungeon::paralyze_effect(o, f, e, amount) ==> *f == *o,
        Dungeon::move_effect(o, f, e, from, to) ==> *f == *o,
        Dungeon::pick_up_effect(o, f, e, follow) ==> *f == *o && follow.len() == 0,
        Dungeon::drop_item_effect(o, f, e, to, follow) ==> *f == *o && follow.len() == 0,
{
}

/// A* gives the same route and cost whenever it searches the same movement
/// graph between the same cells.
pub proof fn pathfinding_deterministic(a: &WorldMap, b: &WorldMap, start: GridPosition, end: GridPosition)
    requires
        cost_grid(&a.tiles) == cost_grid(&b.tiles),
    ensures
        spec_pathfind(a, start, end) == spec_pathfind(b, start, end),
{
}


/// The paralysis left after `turns` turns of the actor, each counting it
/// down by one as `take_turn` does, releasing it from one.
pub open spec fn paralysis_after(p: Option<i32>, turns: nat) -> Option<i32>
    decreases turns,
{
    if turns == 0 {
        p
    } else {
        match paralysis_after(p, (turns - 1) as nat) {
            Some(n) => if n > 1 { Some((n - 1) as i32) } else { None },
            None => None,
        }
    }
}

/// An actor paralyzed for `d` turns starts its turn `k` (from 0) with
/// `d - k` left, so it waits on its first `d - 1` turns, is released on turn
/// `d - 1` without acting, and is free from then on.
pub proof fn paralysis_lasts(d: i32, k: nat)
    requires
        d > 0,
    ensures
        k < d ==> paralysis_after(Some(d), k) == Some((d - k) as i32),
        k >= d ==> paralysis_after(Some(d), k) is None,
    decreases k,
{
    if k > 0 {
        paralysis_lasts(d, (k - 1) as nat);
    }
}


/// Descending carries the player's hit points: the progress that `cleanup`
/// hands on holds them, and every player of the floor generated from it
/// starts with them.
pub proof fn descent_carries_hp(d: &Dungeon, next: GameData, d2: &Dungeon)
    requires
        d.first_player_health(0) is Some,
        next.previous_hp == d.first_player_health(0),
        forall|e: int| 0 <= e < d2.entities@.len() && (#[trigger] d2.entities@[e]).kind is Player
            ==> d2.entities@[e].health == Some(starting_health(&next)),
    ensures
        forall|e: int| 0 <= e < d2.entities@.len() && (#[trigger] d2.entities@[e]).kind is Player
            ==> d2.entities@[e].health == d.first_player_health(0),
{
}


/// Draining a single lethal attack on a non-player `t`: `t` ends dead, on no
/// cell, out of the turn order and without the initiative; its hit points are
/// its old ones less the damage, its maximum unchanged; its death is logged.
#[verifier::spinoff_prover]
#[verifier::rlimit(100)]
pub proof fn lethal_attack_drain(o: &Dungeon, f: &Dungeon, a: Entity, t: Entity, d: i32)
    requires
        f.wf(),
        Dungeon::drains(o, f, seq![Ev::Attack(a, t, d)]),
        a != t,
        o.active(t as int),
        o.rec(t as int).health is Some,
        !(o.rec(t as int).kind is Player),
        d >= 0,
        o.rec(t as int).health->0.spec_damaged(d).current <= 0,
    ensures
        !f.live(t as int),
        forall|x: int, y: int| f.map.in_bounds(x, y) ==> !(#[trigger] f.map.occupants(x, y)).contains(t),
        !f.order.0@.contains(t),
        f.current != Some(t),
        f.entities@[t as int].health == Some(o.rec(t as int).health->0.spec_damaged(d)),
        f.logs.entries@.contains(LogEntry::Died(t)),
{
    let (states, queues, follows, requests) = choose|states: Seq<Dungeon>, queues: Seq<Seq<Ev>>, follows: Seq<Seq<Ev>>,
        requests: Seq<Option<AppState>>| #![trigger Dungeon::drain_steps(states, queues, follows, requests)] {
        &&& Dungeon::drain_steps(states, queues, follows, requests)
        &&& states[0] == *o
        &&& queues[0] == seq![Ev::Attack(a, t, d)]
        &&& queues.last().len() == 0
        &&& Dungeon::only_phase_differs(&states.last(), f)
        &&& f.state == Dungeon::next_phase(requests)
    };
    let h = o.rec(t as int).health->0.spec_damaged(d);
    assert(states.len() >= 2);
    assert(queues[0][0] == Ev::Attack(a, t, d));
    assert(Dungeon::event_effect(&states[0], &states[1], Ev::Attack(a, t, d), follows[0], requests[0]));
    assert(follows[0] == seq![Ev::RemoveFromMap(t), Ev::RemoveFromInitiative(t), Ev::Despawn(t)]);
    assert(queues[1] =~= seq![Ev::RemoveFromMap(t), Ev::RemoveFromInitiative(t), Ev::Despawn(t)]);
    assert(states.len() >= 3);
    assert(queues[1][0] == Ev::RemoveFromMap(t));
    assert(follows[1].len() == 0);
    assert(queues[2] =~= seq![Ev::RemoveFromInitiative(t), Ev::Despawn(t)]);
    assert(states.len() >= 4);
    assert(queues[2][0] == Ev::RemoveFromInitiative(t));
    assert(follows[2].len() == 0);
    assert(queues[3] =~= seq![Ev::Despawn(t)]);
    assert(states.len() >= 5);
    assert(queues[3][0] == Ev::Despawn(t));
    assert(follows[3].len() == 0);
    assert(queues[4] =~= Seq::<Ev>::empty());
    if states.len() > 5 {
        assert(queues[4].len() > 0);
    }
    assert(states.len() == 5);
    let s1 = states[1];
    let s2 = states[2];
    let s3 = states[3];
    let s4 = states[4];
    assert(s1.dying(t as int));
    assert(s1.entities@[t as int].health == Some(h));
    assert(s2.entities@[t as int].health == Some(h));
    assert(s3.entities@[t as int].health == Some(h));
    assert(s4.entities@[t as int].health == Some(h));
    assert(!s4.live(t as int));
    assert(f.entities == s4.entities);
    assert forall|x: int, y: int| f.map.in_bounds(x, y) implies !(#[trigger] f.map.occupants(x, y)).contains(t) by {
        if f.map.occupants(x, y).contains(t) {
            let i = choose|i: int| 0 <= i < f.map.occupants(x, y).len() && f.map.occupants(x, y)[i] == t;
            assert(f.placed_at(f.map.occupants(x, y)[i] as int, x, y));
        }
    }
    assert(s2.logs == s1.logs);
    assert(s3.logs == s2.logs);
    assert(s4.logs == s3.logs);
}


/// Using a health potion of potency 4 from the selected slot 0 on an
/// in-view cell whose first occupant with health is the player heals the
/// player by 4, empties the slot and clears the selection.
pub proof fn potion_use(o: &Dungeon, f: &Dungeon, p: Entity, potion: Entity, c: GridPosition, r: Seq<Ev>)
    requires
        players_turn(o, p),
        o.map.in_bounds(c.x as int, c.y as int),
        o.map.flags(c.x as int, c.y as int).in_view,
        o.data.wf(),
        o.data.selected == Some(0usize),
        o.data.inventory@[0] == Some(potion),
        (potion as int) < o.entities@.len(),
        o.entities@[potion as int].kind == Kind::Loot(Item::HealthPotion(4)),
        healthy_target(o.entities@, &o.map, c) == Some(p),
        player_control_effect(o, f, PlayerInput { command: Command::Idle, left_click: true, right_click: false, cursor: c }, p,
            o.entities@[p as int].position->0, r),
    ensures
        r == seq![Ev::Heal(p, 4)],
        f.data.inventory@ == o.data.inventory@.update(0, None),
        f.data.selected is None,
        f.entities == o.entities,
{
    let input = PlayerInput { command: Command::Idle, left_click: true, right_click: false, cursor: c };
    let pos = o.entities@[p as int].position->0;
    assert(stepped(pos, input.command) == pos);
    assert(item_events(o, p, Item::HealthPotion(4), c) == seq![Ev::Heal(p, 4)]);
    assert(r =~= seq![Ev::Heal(p, 4)]);
}


/// Four turns of an actor paralyzed for 4, each as `take_turn` runs it: it
/// waits on the first three and is released on the fourth.
pub proof fn paralysis_four_turns(ds: Seq<Dungeon>, acts: Seq<bool>, e: Entity)
    requires
        ds.len() == 5,
        acts.len() == 4,
        (e as int) < ds[0].entities@.len(),
        ds[0].entities@[e as int].paralyzed == Some(4i32),
        forall|i: int| 0 <= i < 4 ==> (#[trigger] ds[i]).current == Some(e),
        forall|i: int| 0 <= i < 4 ==> Dungeon::paralysis_step(&ds[i], &ds[i + 1], #[trigger] acts[i]),
    ensures
        acts == seq![true, true, true, false],
        ds[4].entities@[e as int].paralyzed is None,
{
    assert(ds[0].current == Some(e) && ds[1].current == Some(e) && ds[2].current == Some(e) && ds[3].current == Some(e));
    assert(Dungeon::paralysis_step(&ds[0], &ds[1], acts[0]));
    assert(ds[1].entities@[e as int].paralyzed == Some(3i32));
    assert(Dungeon::paralysis_step(&ds[1], &ds[2], acts[1]));
    assert(ds[2].entities@[e as int].paralyzed == Some(2i32));
    assert(Dungeon::paralysis_step(&ds[2], &ds[3], acts[2]));
    assert(ds[3].entities@[e as int].paralyzed == Some(1i32));
    assert(Dungeon::paralysis_step(&ds[3], &ds[4], acts[3]));
    assert(acts =~= seq![true, true, true, false]);
}


/// `b` keeps only entries of `a`, in `a`'s relative order: an increasing
/// choice of positions of `a` gives `b`.
pub open spec fn keeps_order(a: Seq<Entity>, b: Seq<Entity>) -> bool {
    exists|idx: Seq<int>| #[trigger] order_positions(a, b, idx)
}

pub open spec fn order_positions(a: Seq<Entity>, b: Seq<Entity>, idx: Seq<int>) -> bool {
    &&& idx.len() == b.len()
    &&& forall|i: int| 0 <= i < b.len() ==> 0 <= #[trigger] idx[i] < a.len() && a[idx[i]] == b[i]
    &&& forall|i: int, j: int| 0 <= i < j < b.len() ==> #[trigger] idx[i] < #[trigger] idx[j]
}

proof fn lemma_event_order(o: &Dungeon, f: &Dungeon, ev: Ev, follow: Seq<Ev>, req: Option<AppState>)
    requires
        Dungeon::event_effect(o, f, ev, follow, req),
    ensures
        f.order.0@ == o.order.0@ || exists|e: Entity| Dungeon::order_without(o.order.0@, f.order.0@, e),
{
    match ev {
        Ev::RemoveFromInitiative(e) => {
            if !o.living_actor(e as int) {
                assert(Dungeon::order_without(o.order.0@, f.order.0@, e));
            }
        },
        Ev::Despawn(e) => {
            assert(Dungeon::order_without(o.order.0@, f.order.0@, e));
        },
        _ => {},
    }
}

proof fn lemma_keeps_order_step(a: Seq<Entity>, b: Seq<Entity>, c: Seq<Entity>)
    requires
        keeps_order(a, b),
        c == b || exists|e: Entity| Dungeon::order_without(b, c, e),
    ensures
        keeps_order(a, c),
{
    if c != b {
        let e = choose|e: Entity| Dungeon::order_without(b, c, e);
        if b.contains(e) {
            let k = choose|k: int| 0 <= k < b.len() && b[k] == e && c == b.remove(k);
            let idx = choose|idx: Seq<int>| #[trigger] order_positions(a, b, idx);
            let idx2 = idx.remove(k);
            assert forall|i: int| 0 <= i < c.len() implies 0 <= #[trigger] idx2[i] < a.len() && a[idx2[i]] == c[i] by {
                let bi = if i < k { i } else { i + 1 };
                assert(idx2[i] == idx[bi] && c[i] == b[bi]);
            }
            assert forall|i: int, j: int| 0 <= i < j < c.len() implies #[trigger] idx2[i] < #[trigger] idx2[j] by {
                let bi = if i < k { i } else { i + 1 };
                let bj = if j < k { j } else { j + 1 };
                assert(idx2[i] == idx[bi] && idx2[j] == idx[bj]);
            }
            assert(order_positions(a, c, idx2));
        }
    }
}

proof fn lemma_keeps_order_refl(a: Seq<Entity>)
    ensures
        keeps_order(a, a),
{
    let idx = Seq::new(a.len(), |i: int| i);
    assert(order_positions(a, a, idx));
}

/// Handling a drain of events only takes entries out of the turn order:
/// what remains came from the old order, in the old relative order.
#[verifier::spinoff_prover]
#[verifier::rlimit(100)]
pub proof fn drain_keeps_turn_order(o: &Dungeon, f: &Dungeon, evs: Seq<Ev>)
    requires
        Dungeon::drains(o, f, evs),
    ensures
        keeps_order(o.order.0@, f.order.0@),
{
    let (states, queues, follows, requests) = choose|states: Seq<Dungeon>, queues: Seq<Seq<Ev>>, follows: Seq<Seq<Ev>>,
        requests: Seq<Option<AppState>>| #![trigger Dungeon::drain_steps(states, queues, follows, requests)] {
        &&& Dungeon::drain_steps(states, queues, follows, requests)
        &&& states[0] == *o
        &&& queues[0] == evs
        &&& queues.last().len() == 0
        &&& Dungeon::only_phase_differs(&states.last(), f)
        &&& f.state == Dungeon::next_phase(requests)
    };
    let a = o.order.0@;
    lemma_keeps_order_refl(a);
    lemma_drain_order_prefix(states, queues, follows, requests, a, states.len() - 1);
    assert(f.order == states.last().order);
}

proof fn lemma_drain_order_prefix(states: Seq<Dungeon>, queues: Seq<Seq<Ev>>, follows: Seq<Seq<Ev>>,
    requests: Seq<Option<AppState>>, a: Seq<Entity>, k: int)
    requires
        Dungeon::drain_steps(states, queues, follows, requests),
        a == states[0].order.0@,
        keeps_order(a, a),
        0 <= k < states.len(),
    ensures
        keeps_order(a, states[k].order.0@),
    decreases k,
{
    if k > 0 {
        lemma_drain_order_prefix(states, queues, follows, requests, a, k - 1);
        assert(queues[k - 1].len() > 0);
        assert(Dungeon::event_effect(&states[k - 1], &states[k], queues[k - 1][0], follows[k - 1], requests[k - 1]));
        lemma_event_order(&states[k - 1], &states[k], queues[k - 1][0], follows[k - 1], requests[k - 1]);
        lemma_keeps_order_step(a, states[k - 1].order.0@, states[k].order.0@);
    }
}

} // verus!
